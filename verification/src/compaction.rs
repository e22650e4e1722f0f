//! Stream compaction: gathering the flagged elements of an array into a
//! dense, contiguous output, using exclusive prefix sums over the flag array
//! as output positions.

use vstd::prelude::*;

use crate::prefix_scan::{lemma_sum_nonneg, lemma_sum_split, prefix_sum_at, sum_of};

verus! {

/// The elements of `s` whose flag is `1`, in their original order.
pub open spec fn filter_flags<T>(s: Seq<T>, f: Seq<usize>) -> Seq<T>
    recommends
        f.len() == s.len(),
    decreases s.len(),
{
    if s.len() == 0 {
        Seq::empty()
    } else {
        filter_flags(s.drop_last(), f.drop_last())
            + if f[s.len() - 1] == 1 {
                seq![s.last()]
            } else {
                Seq::<T>::empty()
            }
    }
}

/// With 0/1 flags, the compacted sequence has exactly `sum_of(f)` elements.
pub proof fn lemma_filter_flags_len<T>(s: Seq<T>, f: Seq<usize>)
    requires
        f.len() == s.len(),
        forall|i: int| 0 <= i < f.len() ==> f[i] <= 1,
    ensures
        filter_flags(s, f).len() == sum_of(f),
    decreases s.len(),
{
    if s.len() > 0 {
        lemma_filter_flags_len(s.drop_last(), f.drop_last());
    }
}

/// Unfolds one step of `filter_flags` along a growing prefix.
pub proof fn lemma_filter_flags_step<T>(s: Seq<T>, f: Seq<usize>, j: int)
    requires
        f.len() == s.len(),
        0 <= j < s.len(),
    ensures
        filter_flags(s.subrange(0, j + 1), f.subrange(0, j + 1)) == filter_flags(
            s.subrange(0, j),
            f.subrange(0, j),
        ) + if f[j] == 1 {
            seq![s[j]]
        } else {
            Seq::<T>::empty()
        },
{
    let s1 = s.subrange(0, j + 1);
    let f1 = f.subrange(0, j + 1);
    assert(s1.drop_last() =~= s.subrange(0, j));
    assert(f1.drop_last() =~= f.subrange(0, j));
    assert(s1.last() == s[j]);
    assert(f1[s1.len() - 1] == f[j]);
}

/// Every element of the compacted sequence is a flagged element of `s`:
/// position `p` of the output comes from some source position `i` with
/// `f[i] == 1`.
pub proof fn lemma_filter_flags_membership<T>(s: Seq<T>, f: Seq<usize>, p: int)
    requires
        f.len() == s.len(),
        0 <= p < filter_flags(s, f).len(),
    ensures
        exists|i: int| 0 <= i < s.len() && f[i] == 1 && filter_flags(s, f)[p] == s[i],
    decreases s.len(),
{
    if s.len() > 0 {
        let rest = filter_flags(s.drop_last(), f.drop_last());
        if p < rest.len() {
            lemma_filter_flags_membership(s.drop_last(), f.drop_last(), p);
            let i = choose|i: int|
                0 <= i < s.drop_last().len() && f.drop_last()[i] == 1
                    && rest[p] == s.drop_last()[i];
            assert(0 <= i < s.len() && f[i] == 1 && filter_flags(s, f)[p] == s[i]);
        } else {
            assert(f[s.len() - 1] == 1 && filter_flags(s, f)[p] == s[s.len() - 1]);
        }
    }
}

/// A vector of `n` copies of `value`.
pub fn make_filled<T: Copy>(value: T, n: usize) -> (out: Vec<T>)
    ensures
        out@.len() == n,
        forall|i: int| 0 <= i < n ==> out@[i] == value,
{
    let mut out: Vec<T> = Vec::new();
    let mut i: usize = 0;
    while i < n
        invariant
            i <= n,
            out@.len() == i,
            forall|j: int| 0 <= j < i ==> out@[j] == value,
        decreases n - i,
    {
        out.push(value);
        i = i + 1;
    }
    out
}

/// Gathers the flagged elements of `src` into a dense output of length
/// `total`, scattering each flagged element to the output index given by the
/// exclusive prefix sums `locs` of the flag array.
pub fn compact<T: Copy>(src: &Vec<T>, flags: &Vec<usize>, locs: &Vec<usize>, total: usize) -> (out:
    Vec<T>)
    requires
        flags@.len() == src@.len(),
        locs@.len() == src@.len(),
        forall|i: int| 0 <= i < flags@.len() ==> flags@[i] <= 1,
        total as int == sum_of(flags@),
        forall|i: int| 0 <= i < flags@.len() ==> locs@[i] as int == prefix_sum_at(flags@, i),
    ensures
        out@ == filter_flags(src@, flags@),
        out@.len() == total,
{
    proof {
        lemma_filter_flags_len(src@, flags@);
    }
    let n = src.len();
    if total == 0 {
        let out: Vec<T> = Vec::new();
        proof {
            assert(out@ =~= filter_flags(src@, flags@));
        }
        return out;
    }
    proof {
        if n == 0 {
            assert(sum_of(flags@) == 0);
        }
    }
    let mut out = make_filled(src[0], total);
    let mut j: usize = 0;
    while j < n
        invariant
            j <= n,
            n == src@.len(),
            flags@.len() == n,
            locs@.len() == n,
            forall|i: int| 0 <= i < n ==> flags@[i] <= 1,
            total as int == sum_of(flags@),
            forall|i: int| 0 <= i < n ==> locs@[i] as int == prefix_sum_at(flags@, i),
            out@.len() == total,
            filter_flags(src@.subrange(0, j as int), flags@.subrange(0, j as int)).len() == sum_of(
                flags@.subrange(0, j as int),
            ),
            out@.subrange(0, sum_of(flags@.subrange(0, j as int))) == filter_flags(
                src@.subrange(0, j as int),
                flags@.subrange(0, j as int),
            ),
        decreases n - j,
    {
        let ghost pre = sum_of(flags@.subrange(0, j as int));
        proof {
            lemma_sum_split(flags@, 0, j as int, j as int + 1);
            lemma_sum_split(flags@, 0, j as int + 1, n as int);
            lemma_sum_nonneg(flags@.subrange(j as int + 1, n as int));
            lemma_sum_nonneg(flags@.subrange(0, j as int));
            assert(flags@.subrange(j as int, j as int + 1) =~= seq![flags@[j as int]]);
            assert(sum_of(seq![flags@[j as int]]) == flags@[j as int]) by {
                assert(seq![flags@[j as int]].drop_last() =~= Seq::<usize>::empty());
                assert(sum_of(Seq::<usize>::empty()) == 0);
                assert(seq![flags@[j as int]].last() == flags@[j as int]);
            }
            assert(flags@.subrange(0, n as int) =~= flags@);
            lemma_filter_flags_step(src@, flags@, j as int);
        }
        if flags[j] == 1 {
            let loc = locs[j];
            proof {
                assert(loc as int == pre);
                assert(pre + 1 <= total);
            }
            let ghost out_before = out@;
            out[loc] = src[j];
            proof {
                lemma_filter_flags_len(
                    src@.subrange(0, j as int + 1),
                    flags@.subrange(0, j as int + 1),
                );
                assert(out@.subrange(0, pre) =~= out_before.subrange(0, pre));
                assert(out@.subrange(0, pre + 1) =~= out_before.subrange(0, pre) + seq![
                    src@[j as int],
                ]);
            }
        } else {
            proof {
                assert(out@.subrange(0, sum_of(flags@.subrange(0, j as int + 1)))
                    =~= out@.subrange(0, pre));
                assert(filter_flags(
                    src@.subrange(0, j as int + 1),
                    flags@.subrange(0, j as int + 1),
                ) =~= filter_flags(src@.subrange(0, j as int), flags@.subrange(0, j as int)));
            }
        }
        proof {
            lemma_filter_flags_len(
                src@.subrange(0, j as int + 1),
                flags@.subrange(0, j as int + 1),
            );
        }
        j = j + 1;
    }
    proof {
        assert(src@.subrange(0, n as int) =~= src@);
        assert(flags@.subrange(0, n as int) =~= flags@);
        assert(out@.subrange(0, total as int) =~= out@);
    }
    out
}

/// The compacted sequence draws from the source without replacement: no
/// element is kept more often than it occurs.
pub proof fn lemma_filter_flags_sub_multiset<T>(s: Seq<T>, f: Seq<usize>)
    requires
        f.len() == s.len(),
    ensures
        filter_flags(s, f).to_multiset().subset_of(s.to_multiset()),
    decreases s.len(),
{
    broadcast use vstd::seq_lib::group_to_multiset_ensures;
    broadcast use vstd::multiset::group_multiset_axioms;

    if s.len() == 0 {
        assert(filter_flags(s, f) =~= Seq::<T>::empty());
        assert forall|x: T| filter_flags(s, f).to_multiset().count(x) <= s.to_multiset().count(
            x,
        ) by {
            assert(!filter_flags(s, f).contains(x));
        }
    } else {
        let s0 = s.drop_last();
        let f0 = f.drop_last();
        lemma_filter_flags_sub_multiset(s0, f0);
        assert(s0.push(s.last()) =~= s);
        let rest = filter_flags(s0, f0);
        if f[s.len() - 1] == 1 {
            assert(filter_flags(s, f) =~= rest.push(s.last()));
        } else {
            assert(filter_flags(s, f) =~= rest);
        }
        assert forall|x: T| filter_flags(s, f).to_multiset().count(x) <= s.to_multiset().count(
            x,
        ) by {
            assert(rest.to_multiset().count(x) <= s0.to_multiset().count(x));
            assert(s.to_multiset() == s0.push(s.last()).to_multiset());
        }
    }
}

} // verus!
