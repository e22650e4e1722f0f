//! Permutation samplers.
//!
//! A sample of `k` out of `n` elements is the first `k` positions of the
//! array after applying, in index order, the swaps `(i, target[i])` for
//! `i = 0..k`, where `target[i]` is drawn uniformly from `[i, n)` — the
//! classic Fisher–Yates / Knuth shuffle.  [`knuth_shuffle`] is the
//! sequential reference; [`par_permute_k`] computes the same result with a
//! conflict-resolving reservation protocol that processes pending indices in
//! batched rounds, committing an index's swap only when it is the provable
//! winner of both touched positions.  Both are verified against one spec,
//! [`shuffle_prefix`]: for a fixed swap-target array the protocol is a
//! faithful re-derivation of the sequential shuffle.

use vstd::prelude::*;

use crate::compaction::{
    compact, filter_flags, lemma_filter_flags_len, lemma_filter_flags_membership, make_filled,
};
use crate::cwslice::UnsafeSlice;
use crate::prefix_scan::{
    lemma_sum_nonneg, lemma_sum_of_bits_le_len, lemma_sum_split, par_scan, sum_of,
};
use crate::rng::random_in_range;
use crate::sampl_interface::Sampler;

verus! {

/// Each round of the reservation protocol processes at most this fraction of
/// the pending list, floored at the same constant so the batch never
/// degenerates to near zero as the pending count shrinks.
pub const PREFIX_DIVISOR: usize = 100;

/// A valid swap-target array for a population of size `n`:
/// `i <= target[i] < n` for every `i`.
pub open spec fn valid_targets(t: Seq<usize>, n: int) -> bool {
    &&& t.len() == n
    &&& forall|i: int| 0 <= i < n ==> i <= #[trigger] t[i] < n
}

/// The sequence after exchanging positions `a` and `b`.
pub open spec fn swapped<T>(s: Seq<T>, a: int, b: int) -> Seq<T>
    recommends
        0 <= a < s.len(),
        0 <= b < s.len(),
{
    s.update(a, s[b]).update(b, s[a])
}

/// Applies, in index order, the swaps `(i, t[i])` for every `i < m` that
/// carries a mark in `done`.
pub open spec fn apply_marked_swaps<T>(s: Seq<T>, t: Seq<usize>, done: Set<int>, m: int) -> Seq<T>
    decreases m,
{
    if m <= 0 {
        s
    } else {
        let prev = apply_marked_swaps(s, t, done, m - 1);
        if done.contains(m - 1) {
            swapped(prev, m - 1, t[m - 1] as int)
        } else {
            prev
        }
    }
}

/// Applies all swaps `(i, t[i])` for `i < m` in index order: the sequential
/// shuffle.
pub open spec fn apply_swaps<T>(s: Seq<T>, t: Seq<usize>, m: int) -> Seq<T>
    decreases m,
{
    if m <= 0 {
        s
    } else {
        swapped(apply_swaps(s, t, m - 1), m - 1, t[m - 1] as int)
    }
}

/// The reference result of sampling `k` elements with swap targets `t`: the
/// first `k` positions after the sequential shuffle of the first `k` indices.
pub open spec fn shuffle_prefix<T>(s: Seq<T>, t: Seq<usize>, k: int) -> Seq<T> {
    apply_swaps(s, t, k).subrange(0, k)
}

/// Index `i` claims position `p` when `p` is one of the two positions its
/// swap touches.
pub open spec fn claims(t: Seq<usize>, i: int, p: int) -> bool
    recommends
        0 <= i < t.len(),
{
    i == p || t[i] as int == p
}

/// Two indices conflict when their swap pairs share a position.
pub open spec fn conflicts(t: Seq<usize>, a: int, b: int) -> bool
    recommends
        0 <= a < t.len(),
        0 <= b < t.len(),
{
    a == b || a == t[b] as int || t[a] as int == b || t[a] as int == t[b] as int
}

/// A strictly increasing sequence of indices.
pub open spec fn strictly_increasing(s: Seq<usize>) -> bool {
    forall|a: int, b: int| 0 <= a < b < s.len() ==> #[trigger] s[a] < #[trigger] s[b]
}

/// `x` occurs in `s`.
pub open spec fn in_seq(s: Seq<usize>, x: int) -> bool {
    exists|l: int| 0 <= l < s.len() && s[l] as int == x
}

/// Applying marked swaps preserves the length.
pub proof fn lemma_marked_len<T>(s: Seq<T>, t: Seq<usize>, done: Set<int>, m: int)
    requires
        valid_targets(t, s.len() as int),
        m <= s.len(),
    ensures
        apply_marked_swaps(s, t, done, m).len() == s.len(),
    decreases m,
{
    if m > 0 {
        lemma_marked_len(s, t, done, m - 1);
    }
}

/// The sequential shuffle preserves the length.
pub proof fn lemma_apply_swaps_len<T>(s: Seq<T>, t: Seq<usize>, m: int)
    requires
        valid_targets(t, s.len() as int),
        m <= s.len(),
    ensures
        apply_swaps(s, t, m).len() == s.len(),
    decreases m,
{
    if m > 0 {
        lemma_apply_swaps_len(s, t, m - 1);
    }
}

/// Only the marks below `m` matter.
pub proof fn lemma_marked_agree<T>(s: Seq<T>, t: Seq<usize>, d1: Set<int>, d2: Set<int>, m: int)
    requires
        forall|i: int| 0 <= i < m ==> (d1.contains(i) <==> d2.contains(i)),
    ensures
        apply_marked_swaps(s, t, d1, m) == apply_marked_swaps(s, t, d2, m),
    decreases m,
{
    if m > 0 {
        lemma_marked_agree(s, t, d1, d2, m - 1);
    }
}

/// Swaps over disjoint position pairs commute.
pub proof fn lemma_swapped_commute<T>(s: Seq<T>, a1: int, b1: int, a2: int, b2: int)
    requires
        0 <= a1 < s.len(),
        0 <= b1 < s.len(),
        0 <= a2 < s.len(),
        0 <= b2 < s.len(),
        a1 != a2,
        a1 != b2,
        b1 != a2,
        b1 != b2,
    ensures
        swapped(swapped(s, a1, b1), a2, b2) == swapped(swapped(s, a2, b2), a1, b1),
{
    assert(swapped(swapped(s, a1, b1), a2, b2) =~= swapped(swapped(s, a2, b2), a1, b1));
}

/// The commit step of the reservation protocol: marking a fresh index `w`
/// whose swap conflicts with no already-marked index above it amounts to
/// performing `w`'s swap on the current array.  This is what lets swaps
/// commit out of index order without changing the final result.
pub proof fn lemma_commit<T>(s: Seq<T>, t: Seq<usize>, done: Set<int>, w: int, m: int)
    requires
        valid_targets(t, s.len() as int),
        0 <= w < m <= s.len(),
        !done.contains(w),
        forall|j: int| done.contains(j) && w < j < m ==> !conflicts(t, j, w),
    ensures
        apply_marked_swaps(s, t, done.insert(w), m) == swapped(
            apply_marked_swaps(s, t, done, m),
            w,
            t[w] as int,
        ),
    decreases m,
{
    lemma_marked_len(s, t, done, m - 1);
    lemma_marked_len(s, t, done.insert(w), m - 1);
    if m == w + 1 {
        lemma_marked_agree(s, t, done.insert(w), done, w);
    } else {
        let j = m - 1;
        lemma_commit(s, t, done, w, m - 1);
        if done.contains(j) {
            let prev = apply_marked_swaps(s, t, done, m - 1);
            lemma_swapped_commute(prev, w, t[w] as int, j, t[j] as int);
        }
    }
}

/// When every index below `m` is marked, the marked application is the full
/// sequential shuffle.
pub proof fn lemma_marked_full<T>(s: Seq<T>, t: Seq<usize>, done: Set<int>, m: int)
    requires
        forall|i: int| 0 <= i < m ==> done.contains(i),
    ensures
        apply_marked_swaps(s, t, done, m) == apply_swaps(s, t, m),
    decreases m,
{
    if m > 0 {
        lemma_marked_full(s, t, done, m - 1);
    }
}

/// Exchanging two positions leaves the multiset of elements unchanged.
pub proof fn lemma_swapped_multiset<T>(s: Seq<T>, a: int, b: int)
    requires
        0 <= a < s.len(),
        0 <= b < s.len(),
    ensures
        swapped(s, a, b).to_multiset() == s.to_multiset(),
{
    broadcast use vstd::seq_lib::group_to_multiset_ensures;
    broadcast use vstd::multiset::group_multiset_axioms;

    if a == b {
        assert(swapped(s, a, b) =~= s);
    } else {
        let s1 = s.update(a, s[b]);
        assert(s.contains(s[a]));
        assert(s.contains(s[b]));
        assert(s1[b] == s[b]);
        assert(s1.contains(s1[b]));
        assert(swapped(s, a, b).to_multiset() =~= s.to_multiset());
    }
}

/// The sequential shuffle permutes the elements: the multiset is unchanged.
pub proof fn lemma_apply_swaps_multiset<T>(s: Seq<T>, t: Seq<usize>, m: int)
    requires
        valid_targets(t, s.len() as int),
        0 <= m <= s.len(),
    ensures
        apply_swaps(s, t, m).to_multiset() == s.to_multiset(),
    decreases m,
{
    if m > 0 {
        lemma_apply_swaps_multiset(s, t, m - 1);
        lemma_apply_swaps_len(s, t, m - 1);
        lemma_swapped_multiset(apply_swaps(s, t, m - 1), m - 1, t[m - 1] as int);
    }
}

/// A prefix of a sequence draws from it without replacement.
pub proof fn lemma_prefix_sub_multiset<T>(s: Seq<T>, k: int)
    requires
        0 <= k <= s.len(),
    ensures
        s.subrange(0, k).to_multiset().subset_of(s.to_multiset()),
    decreases s.len() - k,
{
    broadcast use vstd::seq_lib::group_to_multiset_ensures;
    broadcast use vstd::multiset::group_multiset_axioms;

    if k == s.len() {
        assert(s.subrange(0, k) =~= s);
    } else {
        lemma_prefix_sub_multiset(s, k + 1);
        assert(s.subrange(0, k + 1) =~= s.subrange(0, k).push(s[k]));
    }
}

/// The shuffle-prefix sample draws from the population without replacement.
pub proof fn lemma_shuffle_prefix_sub_multiset<T>(s: Seq<T>, t: Seq<usize>, k: int)
    requires
        valid_targets(t, s.len() as int),
        0 <= k <= s.len(),
    ensures
        shuffle_prefix(s, t, k).to_multiset().subset_of(s.to_multiset()),
{
    lemma_apply_swaps_multiset(s, t, k);
    lemma_apply_swaps_len(s, t, k);
    lemma_prefix_sub_multiset(apply_swaps(s, t, k), k);
}

/// Compacting a strictly increasing index sequence keeps it strictly
/// increasing, and keeps exactly the flagged entries.
pub proof fn lemma_filter_flags_sorted(s: Seq<usize>, f: Seq<usize>)
    requires
        f.len() == s.len(),
        strictly_increasing(s),
    ensures
        strictly_increasing(filter_flags(s, f)),
        forall|x: int|
            in_seq(filter_flags(s, f), x) <==> exists|l: int|
                0 <= l < s.len() && s[l] as int == x && f[l] == 1,
    decreases s.len(),
{
    if s.len() > 0 {
        let s0 = s.drop_last();
        let f0 = f.drop_last();
        assert(strictly_increasing(s0)) by {
            assert(forall|a: int, b: int|
                0 <= a < b < s0.len() ==> #[trigger] s0[a] < #[trigger] s0[b]);
        }
        lemma_filter_flags_sorted(s0, f0);
        let rest = filter_flags(s0, f0);
        let whole = filter_flags(s, f);
        assert forall|a: int, b: int| 0 <= a < b < whole.len() implies #[trigger] whole[a]
            < #[trigger] whole[b] by {
            if b < rest.len() {
                assert(rest[a] < rest[b]);
            } else {
                assert(f[s.len() - 1] == 1);
                assert(whole[b] == s.last());
                assert(in_seq(rest, whole[a] as int));
                let l = choose|l: int| 0 <= l < s0.len() && s0[l] as int == whole[a] as int && f0[l]
                    == 1;
                assert(s[l] < s[s.len() - 1]);
            }
        }
        assert forall|x: int| in_seq(whole, x) implies exists|l: int|
            0 <= l < s.len() && s[l] as int == x && f[l] == 1 by {
            let p = choose|p: int| 0 <= p < whole.len() && whole[p] as int == x;
            if p < rest.len() {
                assert(in_seq(rest, x));
                let l = choose|l: int| 0 <= l < s0.len() && s0[l] as int == x && f0[l] == 1;
                assert(0 <= l < s.len() && s[l] as int == x && f[l] == 1);
            } else {
                assert(f[s.len() - 1] == 1 && s[s.len() - 1] as int == x);
            }
        }
        assert forall|x: int|
            (exists|l: int| 0 <= l < s.len() && s[l] as int == x && f[l] == 1) implies in_seq(
            whole,
            x,
        ) by {
            let l = choose|l: int| 0 <= l < s.len() && s[l] as int == x && f[l] == 1;
            if l < s.len() - 1 {
                assert(0 <= l < s0.len() && s0[l] as int == x && f0[l] == 1);
                assert(in_seq(rest, x));
                let p = choose|p: int| 0 <= p < rest.len() && rest[p] as int == x;
                assert(whole[p] as int == x);
            } else {
                assert(whole[whole.len() - 1] as int == x);
            }
        }
    }
}

/// Copies the first `m` entries of `v`.
fn copy_prefix(v: &Vec<usize>, m: usize) -> (out: Vec<usize>)
    requires
        m <= v@.len(),
    ensures
        out@ == v@.subrange(0, m as int),
{
    let mut out: Vec<usize> = Vec::new();
    let mut j: usize = 0;
    while j < m
        invariant
            j <= m <= v@.len(),
            out@ == v@.subrange(0, j as int),
        decreases m - j,
    {
        out.push(v[j]);
        proof {
            assert(out@ =~= v@.subrange(0, j as int + 1));
        }
        j = j + 1;
    }
    out
}

/// The reserve phase of one round: every batch index claims its own position
/// and its swap-target position, and each position keeps its numerically
/// smallest claimant.  Afterwards a position's cell is at most every claimant
/// and is either the sentinel `n` (unclaimed) or one of its claimants.
fn reserve_batch(
    reservation: &mut UnsafeSlice<usize>,
    batch: &Vec<usize>,
    targets: &Vec<usize>,
    n: usize,
)
    requires
        old(reservation)@.len() == n,
        valid_targets(targets@, n as int),
        forall|l: int| 0 <= l < batch@.len() ==> batch@[l] < n,
        forall|p: int| 0 <= p < n ==> old(reservation)@[p] as int == n as int,
    ensures
        final(reservation)@.len() == n,
        forall|p: int, l: int|
            0 <= p < n && 0 <= l < batch@.len() && claims(targets@, batch@[l] as int, p)
                ==> final(reservation)@[p] as int <= batch@[l] as int,
        forall|p: int|
            0 <= p < n ==> final(reservation)@[p] as int == n as int || exists|l: int|
                0 <= l < batch@.len() && claims(targets@, batch@[l] as int, p)
                    && final(reservation)@[p] == batch@[l],
{
    let blen = batch.len();
    let mut j: usize = 0;
    while j < blen
        invariant
            j <= blen == batch@.len(),
            reservation@.len() == n,
            valid_targets(targets@, n as int),
            forall|l: int| 0 <= l < blen ==> batch@[l] < n,
            forall|p: int, l: int|
                0 <= p < n && 0 <= l < j && claims(targets@, batch@[l] as int, p)
                    ==> reservation@[p] as int <= batch@[l] as int,
            forall|p: int|
                0 <= p < n ==> reservation@[p] as int == n as int || exists|l: int|
                    0 <= l < j && claims(targets@, batch@[l] as int, p) && reservation@[p]
                        == batch@[l],
        decreases blen - j,
    {
        let i = batch[j];
        let ti = targets[i];
        let ghost res0 = reservation@;
        reservation.claim_min(i, i);
        reservation.claim_min(ti, i);
        proof {
            assert forall|p: int, l: int|
                0 <= p < n && 0 <= l < j + 1 && claims(
                    targets@,
                    batch@[l] as int,
                    p,
                ) implies reservation@[p] as int <= batch@[l] as int by {
                if l < j {
                    assert(res0[p] as int <= batch@[l] as int);
                } else {
                    assert(p == i as int || p == ti as int);
                }
            }
            assert forall|p: int|
                0 <= p < n implies reservation@[p] as int == n as int || exists|l: int|
                0 <= l < j + 1 && claims(targets@, batch@[l] as int, p) && reservation@[p]
                    == batch@[l] by {
                if p == i as int || p == ti as int {
                    if reservation@[p] != res0[p] {
                        assert(reservation@[p] == i);
                        assert(claims(targets@, batch@[j as int] as int, p));
                    } else {
                        if res0[p] as int != n as int {
                            let l = choose|l: int|
                                0 <= l < j && claims(targets@, batch@[l] as int, p) && res0[p]
                                    == batch@[l];
                            assert(claims(targets@, batch@[l] as int, p) && reservation@[p]
                                == batch@[l]);
                        }
                    }
                } else {
                    assert(reservation@[p] == res0[p]);
                    if res0[p] as int != n as int {
                        let l = choose|l: int|
                            0 <= l < j && claims(targets@, batch@[l] as int, p) && res0[p]
                                == batch@[l];
                        assert(claims(targets@, batch@[l] as int, p) && reservation@[p]
                            == batch@[l]);
                    }
                }
            }
        }
        j = j + 1;
    }
}

/// The reset phase of one round: clears every position a batch index claimed
/// back to the sentinel `n`, leaving the whole reservation array unclaimed.
fn reset_batch(
    reservation: &mut UnsafeSlice<usize>,
    batch: &Vec<usize>,
    targets: &Vec<usize>,
    n: usize,
)
    requires
        old(reservation)@.len() == n,
        valid_targets(targets@, n as int),
        forall|l: int| 0 <= l < batch@.len() ==> batch@[l] < n,
        forall|p: int|
            0 <= p < n ==> old(reservation)@[p] as int == n as int || exists|l: int|
                0 <= l < batch@.len() && claims(targets@, batch@[l] as int, p)
                    && old(reservation)@[p] == batch@[l],
    ensures
        final(reservation)@.len() == n,
        forall|p: int| 0 <= p < n ==> final(reservation)@[p] as int == n as int,
{
    let blen = batch.len();
    let mut j: usize = 0;
    while j < blen
        invariant
            j <= blen == batch@.len(),
            reservation@.len() == n,
            valid_targets(targets@, n as int),
            forall|l: int| 0 <= l < blen ==> batch@[l] < n,
            forall|p: int|
                0 <= p < n ==> reservation@[p] as int == n as int || exists|l: int|
                    j <= l < blen && claims(targets@, batch@[l] as int, p),
        decreases blen - j,
    {
        let i = batch[j];
        let ti = targets[i];
        reservation.write(i, n);
        reservation.write(ti, n);
        proof {
            assert forall|p: int|
                0 <= p < n implies reservation@[p] as int == n as int || exists|l: int|
                j + 1 <= l < blen && claims(targets@, batch@[l] as int, p) by {
                if p != i as int && p != ti as int && reservation@[p] as int != n as int {
                    let l = choose|l: int| j <= l < blen && claims(targets@, batch@[l] as int, p);
                    assert(l != j);
                    assert(j + 1 <= l < blen && claims(targets@, batch@[l] as int, p));
                }
            }
        }
        j = j + 1;
    }
}

/// The commit phase of one round: a batch index is the provable winner of
/// its swap iff the reservation array still holds its own index at both
/// claimed positions; a winner performs its swap, a loser is recorded in the
/// returned fail-flag array for the next round.  The smallest batch index
/// always wins, so every round makes progress.  The ghost mark set tracks
/// which swaps have committed; the array stays equal to the marked swaps
/// applied in index order.
#[verifier::rlimit(30)]
fn commit_batch<T: Copy>(
    ans: &mut UnsafeSlice<T>,
    reservation: &UnsafeSlice<usize>,
    batch: &Vec<usize>,
    targets: &Vec<usize>,
    k: usize,
    done0: Ghost<Set<int>>,
    arr0: Ghost<Seq<T>>,
) -> (ret: (Vec<usize>, Ghost<Set<int>>))
    requires
        valid_targets(targets@, old(ans)@.len() as int),
        k <= old(ans)@.len(),
        arr0@.len() == old(ans)@.len(),
        reservation@.len() == old(ans)@.len(),
        1 <= batch@.len(),
        strictly_increasing(batch@),
        forall|l: int| 0 <= l < batch@.len() ==> batch@[l] < k,
        forall|p: int, l: int|
            0 <= p < reservation@.len() && 0 <= l < batch@.len() && claims(
                targets@,
                batch@[l] as int,
                p,
            ) ==> reservation@[p] as int <= batch@[l] as int,
        forall|p: int|
            0 <= p < reservation@.len() ==> reservation@[p] as int == reservation@.len() || exists|
                l: int,
            |
                0 <= l < batch@.len() && claims(targets@, batch@[l] as int, p) && reservation@[p]
                    == batch@[l],
        forall|x: int| done0@.contains(x) ==> 0 <= x < k,
        forall|l: int| 0 <= l < batch@.len() ==> !done0@.contains(batch@[l] as int),
        forall|jd: int, l: int|
            done0@.contains(jd) && 0 <= l < batch@.len() && (batch@[l] as int) < jd
                ==> !conflicts(targets@, jd, batch@[l] as int),
        old(ans)@ == apply_marked_swaps(arr0@, targets@, done0@, k as int),
    ensures
        final(ans)@.len() == old(ans)@.len(),
        ret.0@.len() == batch@.len(),
        forall|l: int| 0 <= l < ret.0@.len() ==> ret.0@[l] <= 1,
        ret.0@[0] == 0,
        forall|l: int|
            0 <= l < batch@.len() ==> (ret.0@[l] == 0 <==> ret.1@.contains(batch@[l] as int)),
        forall|x: int| done0@.contains(x) ==> ret.1@.contains(x),
        forall|x: int|
            ret.1@.contains(x) ==> done0@.contains(x) || exists|l: int|
                0 <= l < batch@.len() && batch@[l] as int == x && ret.0@[l] == 0,
        forall|x: int| ret.1@.contains(x) ==> 0 <= x < k,
        final(ans)@ == apply_marked_swaps(arr0@, targets@, ret.1@, k as int),
        forall|jd: int, l: int|
            ret.1@.contains(jd) && 0 <= l < batch@.len() && (batch@[l] as int) < jd
                && !ret.1@.contains(batch@[l] as int) ==> !conflicts(
                targets@,
                jd,
                batch@[l] as int,
            ),
{
    let n = ans.len();
    let blen = batch.len();
    let mut fail: Vec<usize> = Vec::new();
    let ghost mut done = done0@;
    let mut j: usize = 0;
    while j < blen
        invariant
            j <= blen == batch@.len(),
            n == ans@.len(),
            valid_targets(targets@, n as int),
            k <= n,
            arr0@.len() == n,
            reservation@.len() == n,
            strictly_increasing(batch@),
            forall|l: int| 0 <= l < blen ==> batch@[l] < k,
            forall|p: int, l: int|
                0 <= p < n && 0 <= l < blen && claims(targets@, batch@[l] as int, p)
                    ==> reservation@[p] as int <= batch@[l] as int,
            forall|p: int|
                0 <= p < n ==> reservation@[p] as int == n as int || exists|l: int|
                    0 <= l < blen && claims(targets@, batch@[l] as int, p) && reservation@[p]
                        == batch@[l],
            fail@.len() == j,
            forall|l: int| 0 <= l < j ==> fail@[l] <= 1,
            j > 0 ==> fail@[0] == 0,
            forall|l: int| 0 <= l < j ==> (fail@[l] == 0 <==> done.contains(batch@[l] as int)),
            forall|l: int| j <= l < blen ==> !done.contains(batch@[l] as int),
            forall|x: int| done0@.contains(x) ==> done.contains(x),
            forall|x: int|
                done.contains(x) ==> done0@.contains(x) || exists|l: int|
                    0 <= l < j && batch@[l] as int == x && fail@[l] == 0,
            forall|x: int| done.contains(x) ==> 0 <= x < k,
            ans@ == apply_marked_swaps(arr0@, targets@, done, k as int),
            forall|jd: int, l: int|
                done.contains(jd) && 0 <= l < blen && (batch@[l] as int) < jd && !done.contains(
                    batch@[l] as int,
                ) ==> !conflicts(targets@, jd, batch@[l] as int),
        decreases blen - j,
    {
        let i = batch[j];
        let ti = targets[i];
        let ri = *reservation.read(i);
        let rt = *reservation.read(ti);
        proof {
            if j == 0 {
                // The smallest pending index wins both its positions: every
                // claimant of either position is at least `batch[0]`, and
                // `batch[0]` itself claims both.
                assert(claims(targets@, i as int, i as int));
                assert(claims(targets@, i as int, ti as int));
                assert(ri as int <= i as int);
                assert(rt as int <= i as int);
                assert(ri as int != n as int);
                let li = choose|l: int|
                    0 <= l < blen && claims(targets@, batch@[l] as int, i as int)
                        && reservation@[i as int] == batch@[l];
                assert(batch@[li] as int >= i as int) by {
                    if li > 0 {
                        assert(batch@[0] < batch@[li]);
                    }
                }
                assert(ri == i);
                assert(rt as int != n as int);
                let lt = choose|l: int|
                    0 <= l < blen && claims(targets@, batch@[l] as int, ti as int)
                        && reservation@[ti as int] == batch@[l];
                assert(batch@[lt] as int >= i as int) by {
                    if lt > 0 {
                        assert(batch@[0] < batch@[lt]);
                    }
                }
                assert(rt == i);
            }
        }
        if ri == i && rt == i {
            let ghost ans_before = ans@;
            ans.swap(i, ti);
            proof {
                assert(!done.contains(i as int));
                // Every already-committed index above `i` is conflict-free
                // with `i`: directly from the running conflict invariant.
                assert forall|jd: int|
                    done.contains(jd) && (i as int) < jd < k as int implies !conflicts(
                    targets@,
                    jd,
                    i as int,
                ) by {
                    assert(batch@[j as int] as int == i as int);
                }
                lemma_commit(arr0@, targets@, done, i as int, k as int);
                lemma_marked_len(arr0@, targets@, done, k as int);
                assert(ans@ =~= swapped(ans_before, i as int, ti as int));
                done = done.insert(i as int);
                // A fresh winner conflicts with no smaller, still-pending
                // batch index: such an index would have underbid `i` at the
                // shared position, contradicting `i`'s win.
                assert forall|l: int|
                    0 <= l < blen && (batch@[l] as int) < i as int && !done.contains(
                        batch@[l] as int,
                    ) implies !conflicts(targets@, i as int, batch@[l] as int) by {
                    let w = batch@[l] as int;
                    if conflicts(targets@, i as int, w) {
                        assert(claims(targets@, w, i as int) || claims(targets@, w, ti as int));
                        assert(false);
                    }
                }
            }
            fail.push(0);
        } else {
            fail.push(1);
        }
        proof {
            assert forall|l: int| j + 1 <= l < blen implies !done.contains(batch@[l] as int) by {
                assert(batch@[j as int] < batch@[l]);
            }
        }
        j = j + 1;
    }
    (fail, Ghost(done))
}

/// Draws a fresh swap-target array for a population of size `n`:
/// `target[i]` is drawn independently and uniformly from `[i, n)`.
pub fn generate_swaps(n: usize) -> (t: Vec<usize>)
    ensures
        valid_targets(t@, n as int),
{
    let mut t: Vec<usize> = Vec::new();
    let mut i: usize = 0;
    while i < n
        invariant
            i <= n,
            t@.len() == i,
            forall|j: int| 0 <= j < i ==> j <= #[trigger] t@[j] < n,
        decreases n - i,
    {
        let v = random_in_range(i, n);
        t.push(v);
        i = i + 1;
    }
    t
}

/// One round of the reservation protocol preserves the sampler's loop
/// invariants: after the failed batch entries are compacted and the
/// untouched remainder is appended, the new pending list is still strictly
/// increasing, disjoint from the committed marks, covers `[0, k)` together
/// with them, is strictly shorter (the smallest batch index always commits),
/// and no committed index conflicts with a smaller pending one.
#[verifier::rlimit(60)]
proof fn lemma_round_reestablish(
    targets: Seq<usize>,
    n: int,
    k: int,
    pending0: Seq<usize>,
    batch: Seq<usize>,
    fail: Seq<usize>,
    done0: Set<int>,
    done: Set<int>,
    blen: int,
    plen: int,
    newp: Seq<usize>,
)
    requires
        valid_targets(targets, n),
        k <= n,
        plen == pending0.len(),
        1 <= blen <= plen,
        batch == pending0.subrange(0, blen),
        strictly_increasing(pending0),
        forall|l: int| 0 <= l < plen ==> pending0[l] < k,
        forall|l: int| 0 <= l < plen ==> !done0.contains(pending0[l] as int),
        forall|x: int| done0.contains(x) ==> 0 <= x < k,
        forall|x: int| 0 <= x < k ==> done0.contains(x) || in_seq(pending0, x),
        forall|jd: int, l: int|
            done0.contains(jd) && 0 <= l < plen && (pending0[l] as int) < jd ==> !conflicts(
                targets,
                jd,
                pending0[l] as int,
            ),
        fail.len() == blen,
        forall|l: int| 0 <= l < blen ==> fail[l] <= 1,
        fail[0] == 0,
        forall|l: int| 0 <= l < blen ==> (fail[l] == 0 <==> done.contains(batch[l] as int)),
        forall|x: int| done0.contains(x) ==> done.contains(x),
        forall|x: int|
            done.contains(x) ==> done0.contains(x) || exists|l: int|
                0 <= l < blen && batch[l] as int == x && fail[l] == 0,
        forall|x: int| done.contains(x) ==> 0 <= x < k,
        forall|jd: int, l: int|
            done.contains(jd) && 0 <= l < blen && (batch[l] as int) < jd && !done.contains(
                batch[l] as int,
            ) ==> !conflicts(targets, jd, batch[l] as int),
        newp == filter_flags(batch, fail) + pending0.subrange(blen, plen),
    ensures
        newp.len() < plen,
        strictly_increasing(newp),
        forall|l: int| 0 <= l < newp.len() ==> newp[l] < k,
        forall|l: int| 0 <= l < newp.len() ==> !done.contains(newp[l] as int),
        forall|x: int| 0 <= x < k ==> done.contains(x) || in_seq(newp, x),
        forall|jd: int, l: int|
            done.contains(jd) && 0 <= l < newp.len() && (newp[l] as int) < jd ==> !conflicts(
                targets,
                jd,
                newp[l] as int,
            ),
{
    let fb = filter_flags(batch, fail);
    let rem = pending0.subrange(blen, plen);
    assert(strictly_increasing(batch)) by {
        assert(forall|a: int, b: int|
            0 <= a < b < batch.len() ==> #[trigger] batch[a] < #[trigger] batch[b]);
    }
    lemma_filter_flags_sorted(batch, fail);
    lemma_filter_flags_len(batch, fail);

    // The smallest batch index commits (`fail[0] == 0`), so strictly fewer
    // than `blen` batch entries survive the round.
    lemma_sum_split(fail, 0, 1, blen);
    assert(fail.subrange(0, 1) =~= seq![fail[0]]);
    assert(sum_of(seq![fail[0]]) == 0) by {
        assert(seq![fail[0]].drop_last() =~= Seq::<usize>::empty());
        assert(sum_of(Seq::<usize>::empty()) == 0);
        assert(seq![fail[0]].last() == fail[0]);
    }
    assert(forall|x: int|
        0 <= x < fail.subrange(1, blen).len() ==> #[trigger] fail.subrange(1, blen)[x] <= 1);
    lemma_sum_of_bits_le_len(fail.subrange(1, blen));
    assert(fail.subrange(0, blen) =~= fail);
    assert(fb.len() < blen);
    assert(newp.len() < plen);

    assert(strictly_increasing(newp)) by {
        assert forall|a: int, b: int| 0 <= a < b < newp.len() implies #[trigger] newp[a]
            < #[trigger] newp[b] by {
            if b < fb.len() {
                assert(fb[a] < fb[b]);
            } else if a >= fb.len() {
                assert(newp[a] == pending0[a - fb.len() + blen]);
                assert(newp[b] == pending0[b - fb.len() + blen]);
            } else {
                assert(in_seq(fb, fb[a] as int));
                let x = choose|x: int|
                    0 <= x < blen && batch[x] as int == fb[a] as int && fail[x] == 1;
                assert(batch[x] == pending0[x]);
                assert(newp[b] == pending0[b - fb.len() + blen]);
                assert(pending0[x] < pending0[b - fb.len() + blen]);
            }
        }
    }

    assert forall|l2: int| 0 <= l2 < newp.len() implies newp[l2] < k by {
        if l2 < fb.len() {
            assert(in_seq(fb, fb[l2] as int));
            let x = choose|x: int| 0 <= x < blen && batch[x] as int == fb[l2] as int && fail[x]
                == 1;
            assert(batch[x] == pending0[x]);
        } else {
            assert(newp[l2] == pending0[l2 - fb.len() + blen]);
        }
    }

    assert forall|l2: int| 0 <= l2 < newp.len() implies !done.contains(newp[l2] as int) by {
        if l2 < fb.len() {
            assert(in_seq(fb, fb[l2] as int));
            let x = choose|x: int| 0 <= x < blen && batch[x] as int == fb[l2] as int && fail[x]
                == 1;
            assert(!done.contains(batch[x] as int));
        } else {
            let w = newp[l2] as int;
            assert(newp[l2] == pending0[l2 - fb.len() + blen]);
            if done.contains(w) {
                assert(!done0.contains(w));
                let x = choose|x: int| 0 <= x < blen && batch[x] as int == w && fail[x] == 0;
                assert(batch[x] == pending0[x]);
                assert(pending0[x] < pending0[l2 - fb.len() + blen]);
                assert(false);
            }
        }
    }

    assert forall|x: int| 0 <= x < k implies done.contains(x) || in_seq(newp, x) by {
        if !done.contains(x) {
            assert(!done0.contains(x));
            assert(in_seq(pending0, x));
            let l2 = choose|l2: int| 0 <= l2 < pending0.len() && pending0[l2] as int == x;
            if l2 < blen {
                assert(batch[l2] as int == x);
                if fail[l2] == 0 {
                    assert(done.contains(x));
                } else {
                    assert(in_seq(fb, x));
                    let p = choose|p: int| 0 <= p < fb.len() && fb[p] as int == x;
                    assert(newp[p] as int == x);
                    assert(in_seq(newp, x));
                }
            } else {
                assert(newp[fb.len() + l2 - blen] == pending0[l2]);
                assert(in_seq(newp, x));
            }
        }
    }

    assert forall|jd: int, l2: int|
        done.contains(jd) && 0 <= l2 < newp.len() && (newp[l2] as int) < jd implies !conflicts(
        targets,
        jd,
        newp[l2] as int,
    ) by {
        let w = newp[l2] as int;
        assert(!done.contains(w));
        if done0.contains(jd) {
            // The round-start invariant covers every index that was pending,
            // and both the failed batch entries and the remainder were.
            if l2 < fb.len() {
                assert(in_seq(fb, fb[l2] as int));
                let x = choose|x: int| 0 <= x < blen && batch[x] as int == w && fail[x] == 1;
                assert(batch[x] == pending0[x]);
                assert(!conflicts(targets, jd, pending0[x] as int));
            } else {
                assert(newp[l2] == pending0[l2 - fb.len() + blen]);
                assert(!conflicts(targets, jd, w));
            }
        } else {
            // A winner of this round conflicts with no smaller, still-pending
            // batch index, and every remainder index is larger than it.
            let x = choose|x: int| 0 <= x < blen && batch[x] as int == jd && fail[x] == 0;
            if l2 < fb.len() {
                assert(in_seq(fb, fb[l2] as int));
                let y = choose|y: int| 0 <= y < blen && batch[y] as int == w && fail[y] == 1;
                assert(!conflicts(targets, jd, batch[y] as int));
            } else {
                assert(newp[l2] == pending0[l2 - fb.len() + blen]);
                assert(batch[x] == pending0[x]);
                assert(pending0[x] < pending0[l2 - fb.len() + blen]);
                assert(false);
            }
        }
    }
}

/// Marking nothing applies nothing.
pub proof fn lemma_marked_empty<T>(s: Seq<T>, t: Seq<usize>, m: int)
    ensures
        apply_marked_swaps(s, t, Set::empty(), m) == s,
    decreases m,
{
    if m > 0 {
        lemma_marked_empty(s, t, m - 1);
    }
}

/// Produces the first `k` positions of the array after the sequential
/// shuffle with the given swap targets, computed by the conflict-resolving
/// reservation protocol in batched rounds: the result equals the sequential
/// reference [`knuth_shuffle`] for any batch size or commit schedule.
/// No result when `k` exceeds the population size.
pub fn par_permute_k<T: Copy>(arr: &[T], k: usize, swap_targets: &[usize]) -> (r: Option<Vec<T>>)
    requires
        valid_targets(swap_targets@, arr@.len() as int),
    ensures
        r is Some <==> k <= arr@.len(),
        r matches Some(v) ==> v@ == shuffle_prefix(arr@, swap_targets@, k as int) && v@.len() == k,
{
    let n = arr.len();
    if k > n {
        return None;
    }
    let targets = vstd::slice::slice_to_vec(swap_targets);
    let mut reservation = UnsafeSlice::new(make_filled(n, n));
    let mut ans = UnsafeSlice::new(vstd::slice::slice_to_vec(arr));

    let mut idx_remaining: Vec<usize> = Vec::new();
    let mut i: usize = 0;
    while i < k
        invariant
            i <= k,
            idx_remaining@.len() == i,
            forall|l: int| 0 <= l < i ==> idx_remaining@[l] == l,
        decreases k - i,
    {
        idx_remaining.push(i);
        i = i + 1;
    }

    let ghost mut done: Set<int> = Set::empty();
    proof {
        lemma_marked_empty(arr@, targets@, k as int);
        assert forall|x: int| 0 <= x < k implies done.contains(x) || in_seq(
            idx_remaining@,
            x,
        ) by {
            assert(idx_remaining@[x] as int == x);
        }
    }

    while idx_remaining.len() > 0
        invariant
            n == arr@.len(),
            targets@ == swap_targets@,
            valid_targets(targets@, n as int),
            k <= n,
            ans@.len() == n,
            reservation@.len() == n,
            forall|p: int| 0 <= p < n ==> reservation@[p] as int == n as int,
            strictly_increasing(idx_remaining@),
            forall|l: int| 0 <= l < idx_remaining@.len() ==> idx_remaining@[l] < k,
            forall|l: int|
                0 <= l < idx_remaining@.len() ==> !done.contains(idx_remaining@[l] as int),
            forall|x: int| done.contains(x) ==> 0 <= x < k,
            forall|x: int| 0 <= x < k ==> done.contains(x) || in_seq(idx_remaining@, x),
            ans@ == apply_marked_swaps(arr@, targets@, done, k as int),
            forall|jd: int, l: int|
                done.contains(jd) && 0 <= l < idx_remaining@.len() && (idx_remaining@[l] as int)
                    < jd ==> !conflicts(targets@, jd, idx_remaining@[l] as int),
        decreases idx_remaining@.len(),
    {
        let ghost pending0 = idx_remaining@;
        let plen = idx_remaining.len();
        let mut prefix_size = plen / PREFIX_DIVISOR;
        if prefix_size < PREFIX_DIVISOR {
            prefix_size = PREFIX_DIVISOR;
        }
        let blen = if prefix_size < plen {
            prefix_size
        } else {
            plen
        };
        let batch = copy_prefix(&idx_remaining, blen);
        proof {
            assert(strictly_increasing(batch@)) by {
                assert(forall|a: int, b: int|
                    0 <= a < b < batch@.len() ==> #[trigger] batch@[a] < #[trigger] batch@[b]);
            }
            assert forall|l: int| 0 <= l < blen implies !done.contains(batch@[l] as int) by {
                assert(batch@[l] == pending0[l]);
            }
        }
        reserve_batch(&mut reservation, &batch, &targets, n);
        let (fail, new_done) = commit_batch(
            &mut ans,
            &reservation,
            &batch,
            &targets,
            k,
            Ghost(done),
            Ghost(arr@),
        );
        let ghost done0 = done;
        proof {
            done = new_done@;
        }
        proof {
            lemma_sum_of_bits_le_len(fail@);
            lemma_sum_nonneg(fail@);
        }
        let (failed_count, pack_locs) = par_scan(&fail);
        let mut new_remaining = compact(&batch, &fail, &pack_locs, failed_count);
        let ghost fb = filter_flags(batch@, fail@);
        proof {
            assert(new_remaining@ =~= fb + idx_remaining@.subrange(blen as int, blen as int));
        }
        let mut l = blen;
        while l < plen
            invariant
                blen <= l <= plen,
                plen == idx_remaining@.len(),
                new_remaining@ == fb + idx_remaining@.subrange(blen as int, l as int),
            decreases plen - l,
        {
            new_remaining.push(idx_remaining[l]);
            proof {
                assert(new_remaining@ =~= fb + idx_remaining@.subrange(blen as int, l as int + 1));
            }
            l = l + 1;
        }
        reset_batch(&mut reservation, &batch, &targets, n);

        proof {
            lemma_round_reestablish(
                targets@,
                n as int,
                k as int,
                pending0,
                batch@,
                fail@,
                done0,
                done,
                blen as int,
                plen as int,
                new_remaining@,
            );
        }
        idx_remaining = new_remaining;
    }

    proof {
        assert forall|x: int| 0 <= x < k implies done.contains(x) by {
            assert(!in_seq(idx_remaining@, x));
        }
        lemma_marked_full(arr@, targets@, done, k as int);
        lemma_apply_swaps_len(arr@, targets@, k as int);
    }
    let mut result = ans.into_vec();
    result.truncate(k);
    Some(result)
}

/// The sequential reference shuffle: applies the swaps `(i, swap_targets[i])`
/// for `i = 0..k` in index order and returns the first `k` elements.
pub fn knuth_shuffle<T: Copy>(arr: &[T], k: usize, swap_targets: &[usize]) -> (r: Vec<T>)
    requires
        k <= arr@.len(),
        valid_targets(swap_targets@, arr@.len() as int),
    ensures
        r@ == shuffle_prefix(arr@, swap_targets@, k as int),
        r@.len() == k,
{
    let targets = vstd::slice::slice_to_vec(swap_targets);
    let mut ans = vstd::slice::slice_to_vec(arr);
    let n = ans.len();
    let mut i: usize = 0;
    while i < k
        invariant
            i <= k <= n,
            n == arr@.len(),
            targets@ == swap_targets@,
            valid_targets(targets@, n as int),
            ans@.len() == n,
            ans@ == apply_swaps(arr@, swap_targets@, i as int),
        decreases k - i,
    {
        let t_i = targets[i];
        let a = ans[i];
        let b = ans[t_i];
        ans[i] = b;
        ans[t_i] = a;
        proof {
            assert(ans@ =~= swapped(apply_swaps(arr@, swap_targets@, i as int), i as int, t_i as int));
        }
        i = i + 1;
    }
    ans.truncate(k);
    ans
}

/// Samples by the sequential reference shuffle: draws fresh swap targets and
/// applies them with [`knuth_shuffle`].
pub struct SeqPermutationSampler<T: Copy> {
    marker: core::marker::PhantomData<T>,
}

impl<T: Copy> Sampler<T> for SeqPermutationSampler<T> {
    fn sample(arr: &[T], k: usize) -> (r: Option<Vec<T>>) {
        if k > arr.len() {
            None
        } else {
            let swap_targets = generate_swaps(arr.len());
            let ans = knuth_shuffle(arr, k, swap_targets.as_slice());
            proof {
                lemma_shuffle_prefix_sub_multiset(arr@, swap_targets@, k as int);
            }
            Some(ans)
        }
    }
}

/// Samples by running the reservation protocol over the full permutation
/// (all `n` swaps) and keeping the first `k` positions.
pub struct FullPermutationSampler<T: Copy> {
    marker: core::marker::PhantomData<T>,
}

impl<T: Copy> Sampler<T> for FullPermutationSampler<T> {
    fn sample(arr: &[T], k: usize) -> (r: Option<Vec<T>>) {
        if k > arr.len() {
            None
        } else {
            let n = arr.len();
            let swap_targets = generate_swaps(n);
            let full = par_permute_k(arr, n, swap_targets.as_slice());
            match full {
                Some(mut v) => {
                    v.truncate(k);
                    proof {
                        lemma_apply_swaps_multiset(arr@, swap_targets@, n as int);
                        lemma_apply_swaps_len(arr@, swap_targets@, n as int);
                        assert(apply_swaps(arr@, swap_targets@, n as int).subrange(0, n as int)
                            =~= apply_swaps(arr@, swap_targets@, n as int));
                        lemma_prefix_sub_multiset(apply_swaps(arr@, swap_targets@, n as int), k as int);
                    }
                    Some(v)
                },
                None => None,
            }
        }
    }
}

/// Samples by running the reservation protocol over the first `k` swaps
/// only.
pub struct PermutationSampler<T: Copy> {
    marker: core::marker::PhantomData<T>,
}

impl<T: Copy> Sampler<T> for PermutationSampler<T> {
    fn sample(arr: &[T], k: usize) -> (r: Option<Vec<T>>) {
        let swap_targets = generate_swaps(arr.len());
        let ans = par_permute_k(arr, k, swap_targets.as_slice());
        proof {
            if k <= arr@.len() {
                lemma_shuffle_prefix_sub_multiset(arr@, swap_targets@, k as int);
            }
        }
        ans
    }
}

} // verus!
