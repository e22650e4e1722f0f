//! Work-efficient prefix scan.
//!
//! Given a sequence of non-negative integers the scan returns the total sum
//! together with the exclusive running sum at every position.  It is the
//! primitive every sampler uses for stream compaction.  The implementation
//! is the classic divide-and-conquer two-pass algorithm: an up-sweep records
//! each internal node's left-subtree sum into an auxiliary array of size
//! `n - 1`, and a down-sweep propagates accumulated prefixes into the output
//! array.

use vstd::prelude::*;

verus! {

/// The sum of a sequence of machine integers, as a mathematical integer.
pub open spec fn sum_of(s: Seq<usize>) -> int
    decreases s.len(),
{
    if s.len() == 0 {
        0
    } else {
        sum_of(s.drop_last()) + s.last()
    }
}

/// The exclusive prefix sum of `s` at position `i`: the sum of all strictly
/// earlier entries.
pub open spec fn prefix_sum_at(s: Seq<usize>, i: int) -> int {
    sum_of(s.subrange(0, i))
}

pub proof fn lemma_sum_nonneg(s: Seq<usize>)
    ensures
        sum_of(s) >= 0,
    decreases s.len(),
{
    if s.len() > 0 {
        lemma_sum_nonneg(s.drop_last());
    }
}

pub proof fn lemma_sum_concat(a: Seq<usize>, b: Seq<usize>)
    ensures
        sum_of(a + b) == sum_of(a) + sum_of(b),
    decreases b.len(),
{
    if b.len() == 0 {
        assert(a + b =~= a);
    } else {
        lemma_sum_concat(a, b.drop_last());
        assert((a + b).drop_last() =~= a + b.drop_last());
        assert((a + b).last() == b.last());
    }
}

/// Splitting a subrange at a midpoint splits its sum.
pub proof fn lemma_sum_split(s: Seq<usize>, lo: int, mid: int, hi: int)
    requires
        0 <= lo <= mid <= hi <= s.len(),
    ensures
        sum_of(s.subrange(lo, hi)) == sum_of(s.subrange(lo, mid)) + sum_of(s.subrange(mid, hi)),
{
    assert(s.subrange(lo, hi) =~= s.subrange(lo, mid) + s.subrange(mid, hi));
    lemma_sum_concat(s.subrange(lo, mid), s.subrange(mid, hi));
}

/// The sum of any subrange is bounded by the sum of the whole sequence.
pub proof fn lemma_sum_subrange_le(s: Seq<usize>, lo: int, hi: int)
    requires
        0 <= lo <= hi <= s.len(),
    ensures
        sum_of(s.subrange(lo, hi)) <= sum_of(s),
{
    lemma_sum_split(s, 0, lo, hi);
    lemma_sum_split(s, 0, hi, s.len() as int);
    lemma_sum_nonneg(s.subrange(0, lo));
    lemma_sum_nonneg(s.subrange(hi, s.len() as int));
    assert(s.subrange(0, s.len() as int) =~= s);
}

/// The auxiliary array region `[aux_lo, aux_lo + s.len() - 1)` holds the
/// up-sweep record for the subtree covering `s`: the left-subtree sum sits at
/// the split boundary, and the two halves hold their own records recursively.
pub open spec fn encodes_tree(aux: Seq<usize>, aux_lo: int, s: Seq<usize>) -> bool
    decreases s.len(),
{
    s.len() > 1 ==> {
        let m = s.len() as int / 2;
        &&& 0 <= aux_lo + m - 1 < aux.len()
        &&& aux[aux_lo + m - 1] as int == sum_of(s.subrange(0, m))
        &&& encodes_tree(aux, aux_lo, s.subrange(0, m))
        &&& encodes_tree(aux, aux_lo + m, s.subrange(m, s.len() as int))
    }
}

/// `encodes_tree` only reads the region `[aux_lo, aux_lo + s.len() - 1)`.
pub proof fn lemma_encodes_tree_frame(
    aux1: Seq<usize>,
    aux2: Seq<usize>,
    aux_lo: int,
    s: Seq<usize>,
)
    requires
        encodes_tree(aux1, aux_lo, s),
        aux1.len() == aux2.len(),
        forall|j: int| aux_lo <= j < aux_lo + s.len() - 1 ==> aux1[j] == aux2[j],
    ensures
        encodes_tree(aux2, aux_lo, s),
    decreases s.len(),
{
    if s.len() > 1 {
        let m = s.len() as int / 2;
        lemma_encodes_tree_frame(aux1, aux2, aux_lo, s.subrange(0, m));
        lemma_encodes_tree_frame(aux1, aux2, aux_lo + m, s.subrange(m, s.len() as int));
    }
}

/// Up-sweep over `xs[lo..hi)`: returns the range's sum and records every
/// internal split's left-subtree sum into `aux` at the boundary slot, leaving
/// the rest of `aux` untouched.
fn scan_up(xs: &Vec<usize>, lo: usize, hi: usize, aux: &mut Vec<usize>, aux_lo: usize) -> (total:
    usize)
    requires
        lo < hi <= xs@.len(),
        sum_of(xs@) <= usize::MAX,
        aux_lo + (hi - lo) - 1 <= old(aux)@.len(),
    ensures
        final(aux)@.len() == old(aux)@.len(),
        forall|j: int|
            0 <= j < old(aux)@.len() && !(aux_lo <= j < aux_lo + (hi - lo) - 1)
                ==> final(aux)@[j] == old(aux)@[j],
        total as int == sum_of(xs@.subrange(lo as int, hi as int)),
        encodes_tree(final(aux)@, aux_lo as int, xs@.subrange(lo as int, hi as int)),
    decreases hi - lo,
{
    let len = hi - lo;
    let ghost s = xs@.subrange(lo as int, hi as int);
    if len == 1 {
        let r = xs[lo];
        proof {
            assert(s.len() == 1);
            assert(s.drop_last() =~= Seq::<usize>::empty());
            assert(sum_of(s.drop_last()) == 0);
            assert(s.last() == xs@[lo as int]);
            assert(r as int == sum_of(s));
        }
        r
    } else {
        let m = len / 2;
        let aux_len = aux.len();
        proof {
            assert(aux_lo + m <= aux_len);
            lemma_sum_split(xs@, lo as int, lo as int + m, hi as int);
            lemma_sum_subrange_le(xs@, lo as int, hi as int);
            lemma_sum_subrange_le(xs@, lo as int, lo as int + m);
            lemma_sum_subrange_le(xs@, lo as int + m, hi as int);
            lemma_sum_nonneg(xs@.subrange(lo as int, lo as int + m));
            lemma_sum_nonneg(xs@.subrange(lo as int + m, hi as int));
        }
        let ghost sl = xs@.subrange(lo as int, lo as int + m);
        let ghost sr = xs@.subrange(lo as int + m, hi as int);
        let left = scan_up(xs, lo, lo + m, aux, aux_lo);
        let ghost aux_after_left = aux@;
        let right = scan_up(xs, lo + m, hi, aux, aux_lo + m);
        proof {
            lemma_encodes_tree_frame(aux_after_left, aux@, aux_lo as int, sl);
        }
        let ghost aux_after_right = aux@;
        let boundary = aux_lo + m - 1;
        aux[boundary] = left;
        proof {
            lemma_encodes_tree_frame(aux_after_right, aux@, aux_lo as int, sl);
            lemma_encodes_tree_frame(aux_after_right, aux@, aux_lo as int + m, sr);
            assert(s.subrange(0, m as int) =~= sl);
            assert(s.subrange(m as int, s.len() as int) =~= sr);
            assert(left as int + right as int == sum_of(s));
        }
        left + right
    }
}

/// Down-sweep over the subtree covering the ghost values `s`: writes, for
/// every position `i` in `[lo, hi)`, the accumulated prefix `ps` plus the
/// exclusive prefix sum of `s` below `i` into `res[i]`.
fn scan_down(
    aux: &Vec<usize>,
    aux_lo: usize,
    res: &mut Vec<usize>,
    ps: usize,
    lo: usize,
    hi: usize,
    s: Ghost<Seq<usize>>,
)
    requires
        lo < hi <= old(res)@.len(),
        s@.len() == hi - lo,
        aux_lo + (hi - lo) - 1 <= aux@.len(),
        encodes_tree(aux@, aux_lo as int, s@),
        ps + sum_of(s@) <= usize::MAX,
    ensures
        final(res)@.len() == old(res)@.len(),
        forall|j: int|
            0 <= j < old(res)@.len() && !(lo <= j < hi) ==> final(res)@[j] == old(res)@[j],
        forall|i: int| lo <= i < hi ==> final(res)@[i] as int == ps + prefix_sum_at(s@, i - lo),
    decreases hi - lo,
{
    let len = hi - lo;
    if len == 1 {
        proof {
            lemma_sum_nonneg(s@);
            assert(s@.subrange(0, 0) =~= Seq::<usize>::empty());
            assert(sum_of(s@.subrange(0, 0)) == 0);
        }
        res[lo] = ps;
    } else {
        let m = len / 2;
        let ghost sl = s@.subrange(0, m as int);
        let ghost sr = s@.subrange(m as int, s@.len() as int);
        proof {
            lemma_sum_concat(sl, sr);
            assert(sl + sr =~= s@);
            lemma_sum_nonneg(sl);
            lemma_sum_nonneg(sr);
        }
        let aux_len = aux.len();
        proof {
            assert(aux_lo + m <= aux_len);
        }
        let boundary_val = aux[aux_lo + m - 1];
        scan_down(aux, aux_lo, res, ps, lo, lo + m, Ghost(sl));
        scan_down(aux, aux_lo + m, res, ps + boundary_val, lo + m, hi, Ghost(sr));
        proof {
            assert forall|i: int| lo <= i < lo + m implies final(res)@[i] as int == ps
                + prefix_sum_at(s@, i - lo) by {
                assert(sl.subrange(0, i - lo) =~= s@.subrange(0, i - lo));
            }
            assert forall|i: int| lo + m <= i < hi implies final(res)@[i] as int == ps
                + prefix_sum_at(s@, i - lo) by {
                lemma_sum_split(s@, 0, m as int, i - lo);
                assert(sr.subrange(0, i - lo - m) =~= s@.subrange(m as int, i - lo));
                assert(s@.subrange(0, m as int) =~= sl);
            }
        }
    }
}

/// Computes, for a non-empty array of non-negative integers, the pair
/// `(total, prefix)` where `total` is the sum of the whole array and
/// `prefix[i]` is the exclusive running sum of all entries before `i`.
///
/// The up-sweep records left-subtree sums into an auxiliary array of size
/// `n - 1`; the down-sweep propagates accumulated prefixes into the output.
/// The empty input is excluded: the auxiliary array of size `n - 1` has no
/// meaning for it, and callers special-case it.
pub fn par_scan(xs: &Vec<usize>) -> (r: (usize, Vec<usize>))
    requires
        xs@.len() >= 1,
        sum_of(xs@) <= usize::MAX,
    ensures
        r.0 as int == sum_of(xs@),
        r.1@.len() == xs@.len(),
        forall|i: int| 0 <= i < xs@.len() ==> r.1@[i] as int == prefix_sum_at(xs@, i),
{
    let n = xs.len();
    let aux_init: Vec<usize> = vec![0; n - 1];
    let mut aux = aux_init;
    let res_init: Vec<usize> = vec![0; n];
    let mut res = res_init;
    proof {
        assert(xs@.subrange(0, n as int) =~= xs@);
    }
    let total = scan_up(xs, 0, n, &mut aux, 0);
    scan_down(&aux, 0, &mut res, 0, 0, n, Ghost(xs@));
    (total, res)
}

/// A sequence of zeroes and ones sums to at most its length.
pub proof fn lemma_sum_of_bits_le_len(s: Seq<usize>)
    requires
        forall|i: int| 0 <= i < s.len() ==> s[i] <= 1,
    ensures
        sum_of(s) <= s.len(),
    decreases s.len(),
{
    if s.len() > 0 {
        lemma_sum_of_bits_le_len(s.drop_last());
    }
}

} // verus!
