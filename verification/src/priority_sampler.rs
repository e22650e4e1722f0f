//! Priority samplers.
//!
//! Each element is assigned an independent random key; the sample is the set
//! of `k` elements with the smallest keys.  Ties between equal keys are
//! broken by element position, so every element carries a distinct priority
//! pair `(key, index)` and the `k`-th smallest priority is unique.  The
//! threshold pair is found by randomized quickselect — classify every
//! element against a random pivot, compact the relevant class with the
//! prefix scan, recurse — and the sample is one final compaction of the
//! elements at or below the threshold.

use vstd::prelude::*;

use crate::compaction::{
    compact, filter_flags, lemma_filter_flags_len, lemma_filter_flags_membership,
    lemma_filter_flags_step, lemma_filter_flags_sub_multiset,
};
use crate::prefix_scan::{lemma_sum_of_bits_le_len, par_scan, sum_of};
use crate::rng::{random_in_range, random_u64};
use crate::sampl_interface::Sampler;

verus! {

/// Below this range size classification runs as a plain sequential loop
/// instead of forking, bounding task-spawning overhead and recursion depth.
pub const CLASSIFY_CUTOFF: usize = 2048;

/// Strict lexicographic order on priority pairs `(key, index)`.
pub open spec fn pri_lt(a: (u64, usize), b: (u64, usize)) -> bool {
    a.0 < b.0 || (a.0 == b.0 && a.1 < b.1)
}

/// Lexicographic order on priority pairs, allowing equality.
pub open spec fn pri_le(a: (u64, usize), b: (u64, usize)) -> bool {
    a.0 < b.0 || (a.0 == b.0 && a.1 <= b.1)
}

/// All priority pairs of `s` are distinct.
pub open spec fn distinct_pairs(s: Seq<(u64, usize)>) -> bool {
    forall|i: int, j: int| 0 <= i < j < s.len() ==> #[trigger] s[i] != #[trigger] s[j]
}

/// How elements are classified against the pivot in one quickselect step.
#[derive(Clone, Copy)]
pub enum ClassMode {
    LePivot,
    LtPivot,
    GtPivot,
}

/// The 0/1 classification flag of one pair against the pivot.
pub open spec fn class_flag(mode: ClassMode, a: (u64, usize), pivot: (u64, usize)) -> usize {
    match mode {
        ClassMode::LePivot => if pri_le(a, pivot) {
            1
        } else {
            0
        },
        ClassMode::LtPivot => if pri_lt(a, pivot) {
            1
        } else {
            0
        },
        ClassMode::GtPivot => if !pri_le(a, pivot) {
            1
        } else {
            0
        },
    }
}

/// The classification flags of a whole sequence against the pivot.
pub open spec fn class_flags(mode: ClassMode, s: Seq<(u64, usize)>, pivot: (u64, usize)) -> Seq<
    usize,
> {
    Seq::new(s.len(), |j: int| class_flag(mode, s[j], pivot))
}

/// How many pairs of `s` are at most `r`.
pub open spec fn count_le(s: Seq<(u64, usize)>, r: (u64, usize)) -> int
    decreases s.len(),
{
    if s.len() == 0 {
        0
    } else {
        count_le(s.drop_last(), r) + if pri_le(s.last(), r) {
            1int
        } else {
            0int
        }
    }
}

/// How many pairs of `s` are strictly below `r`.
pub open spec fn count_lt(s: Seq<(u64, usize)>, r: (u64, usize)) -> int
    decreases s.len(),
{
    if s.len() == 0 {
        0
    } else {
        count_lt(s.drop_last(), r) + if pri_lt(s.last(), r) {
            1int
        } else {
            0int
        }
    }
}

/// How many pairs of `s` equal `r`.
pub open spec fn count_eq(s: Seq<(u64, usize)>, r: (u64, usize)) -> int
    decreases s.len(),
{
    if s.len() == 0 {
        0
    } else {
        count_eq(s.drop_last(), r) + if s.last() == r {
            1int
        } else {
            0int
        }
    }
}

pub proof fn lemma_count_le_bounds(s: Seq<(u64, usize)>, r: (u64, usize))
    ensures
        0 <= count_le(s, r) <= s.len(),
    decreases s.len(),
{
    if s.len() > 0 {
        lemma_count_le_bounds(s.drop_last(), r);
    }
}

/// The sum of the classification flags counts the class.
pub proof fn lemma_flags_sum(mode: ClassMode, s: Seq<(u64, usize)>, pivot: (u64, usize))
    ensures
        mode is LePivot ==> sum_of(class_flags(mode, s, pivot)) == count_le(s, pivot),
        mode is LtPivot ==> sum_of(class_flags(mode, s, pivot)) == count_lt(s, pivot),
        mode is GtPivot ==> sum_of(class_flags(mode, s, pivot)) == s.len() - count_le(s, pivot),
    decreases s.len(),
{
    let f = class_flags(mode, s, pivot);
    if s.len() == 0 {
        assert(f =~= Seq::<usize>::empty());
    } else {
        lemma_flags_sum(mode, s.drop_last(), pivot);
        assert(f.drop_last() =~= class_flags(mode, s.drop_last(), pivot));
        assert(f.last() == class_flag(mode, s.last(), pivot));
    }
}

/// Being at most `r` is being strictly below `r` or being `r`.
pub proof fn lemma_le_lt_eq(s: Seq<(u64, usize)>, r: (u64, usize))
    ensures
        count_le(s, r) == count_lt(s, r) + count_eq(s, r),
    decreases s.len(),
{
    if s.len() > 0 {
        lemma_le_lt_eq(s.drop_last(), r);
    }
}

pub proof fn lemma_count_eq_absent(s: Seq<(u64, usize)>, r: (u64, usize))
    requires
        !s.contains(r),
    ensures
        count_eq(s, r) == 0,
    decreases s.len(),
{
    if s.len() > 0 {
        assert(!s.drop_last().contains(r)) by {
            if s.drop_last().contains(r) {
                let i = choose|i: int| 0 <= i < s.drop_last().len() && s.drop_last()[i] == r;
                assert(s[i] == r);
            }
        }
        lemma_count_eq_absent(s.drop_last(), r);
        assert(s.last() != r) by {
            assert(s[s.len() - 1] == s.last());
        }
    }
}

/// In a distinct sequence a member occurs exactly once.
pub proof fn lemma_count_eq_distinct(s: Seq<(u64, usize)>, r: (u64, usize))
    requires
        distinct_pairs(s),
        s.contains(r),
    ensures
        count_eq(s, r) == 1,
    decreases s.len(),
{
    let i = choose|i: int| 0 <= i < s.len() && s[i] == r;
    if i == s.len() - 1 {
        assert(!s.drop_last().contains(r)) by {
            if s.drop_last().contains(r) {
                let j = choose|j: int| 0 <= j < s.drop_last().len() && s.drop_last()[j] == r;
                assert(s[j] == s[i]);
            }
        }
        lemma_count_eq_absent(s.drop_last(), r);
        assert(s.last() == r);
    } else {
        assert(distinct_pairs(s.drop_last())) by {
            assert(forall|a: int, b: int|
                0 <= a < b < s.drop_last().len() ==> #[trigger] s.drop_last()[a]
                    != #[trigger] s.drop_last()[b]);
        }
        assert(s.drop_last()[i] == r);
        lemma_count_eq_distinct(s.drop_last(), r);
        assert(s.last() != r) by {
            assert(s[i] != s[s.len() - 1]);
        }
    }
}

pub proof fn lemma_count_lt_nonneg(s: Seq<(u64, usize)>, r: (u64, usize))
    ensures
        count_lt(s, r) >= 0,
    decreases s.len(),
{
    if s.len() > 0 {
        lemma_count_lt_nonneg(s.drop_last(), r);
    }
}

/// A member is counted by `count_le`.
pub proof fn lemma_count_le_member(s: Seq<(u64, usize)>, r: (u64, usize))
    requires
        s.contains(r),
    ensures
        count_le(s, r) >= 1,
    decreases s.len(),
{
    let i = choose|i: int| 0 <= i < s.len() && s[i] == r;
    if i == s.len() - 1 {
        lemma_count_le_bounds(s.drop_last(), r);
        assert(pri_le(s.last(), r));
    } else {
        assert(s.drop_last()[i] == r);
        lemma_count_le_member(s.drop_last(), r);
        assert(count_le(s, r) >= count_le(s.drop_last(), r));
    }
}

/// `count_le` is monotone in the threshold.
pub proof fn lemma_count_le_mono(s: Seq<(u64, usize)>, a: (u64, usize), b: (u64, usize))
    requires
        pri_le(a, b),
    ensures
        count_le(s, a) <= count_le(s, b),
    decreases s.len(),
{
    if s.len() > 0 {
        lemma_count_le_mono(s.drop_last(), a, b);
    }
}

/// A strictly larger member threshold counts strictly more.
pub proof fn lemma_count_le_strict(s: Seq<(u64, usize)>, a: (u64, usize), b: (u64, usize))
    requires
        pri_lt(a, b),
        s.contains(b),
    ensures
        count_le(s, a) < count_le(s, b),
    decreases s.len(),
{
    let i = choose|i: int| 0 <= i < s.len() && s[i] == b;
    if i == s.len() - 1 {
        lemma_count_le_mono(s.drop_last(), a, b);
        assert(s.last() == b);
        assert(!pri_le(s.last(), a));
        assert(pri_le(s.last(), b));
    } else {
        assert(s.drop_last()[i] == b);
        lemma_count_le_strict(s.drop_last(), a, b);
    }
}

/// Compacting a distinct sequence keeps it distinct.
pub proof fn lemma_filter_flags_distinct(s: Seq<(u64, usize)>, f: Seq<usize>)
    requires
        f.len() == s.len(),
        distinct_pairs(s),
    ensures
        distinct_pairs(filter_flags(s, f)),
    decreases s.len(),
{
    if s.len() > 0 {
        let s0 = s.drop_last();
        let f0 = f.drop_last();
        assert(distinct_pairs(s0)) by {
            assert(forall|a: int, b: int|
                0 <= a < b < s0.len() ==> #[trigger] s0[a] != #[trigger] s0[b]);
        }
        lemma_filter_flags_distinct(s0, f0);
        let rest = filter_flags(s0, f0);
        let whole = filter_flags(s, f);
        assert forall|a: int, b: int| 0 <= a < b < whole.len() implies #[trigger] whole[a]
            != #[trigger] whole[b] by {
            if b < rest.len() {
                assert(rest[a] != rest[b]);
            } else {
                assert(whole[b] == s.last());
                lemma_filter_flags_membership(s0, f0, a);
                let i = choose|i: int| 0 <= i < s0.len() && f0[i] == 1 && rest[a] == s0[i];
                assert(s[i] != s[s.len() - 1]);
            }
        }
    }
}

/// Every entry of a compacted class satisfies the class predicate and is a
/// member of the source sequence.
pub proof fn lemma_class_members(mode: ClassMode, s: Seq<(u64, usize)>, pivot: (u64, usize))
    ensures
        forall|p: int|
            0 <= p < filter_flags(s, class_flags(mode, s, pivot)).len() ==> class_flag(
                mode,
                #[trigger] filter_flags(s, class_flags(mode, s, pivot))[p],
                pivot,
            ) == 1 && s.contains(filter_flags(s, class_flags(mode, s, pivot))[p]),
{
    let f = class_flags(mode, s, pivot);
    let out = filter_flags(s, f);
    assert forall|p: int| 0 <= p < out.len() implies class_flag(mode, #[trigger] out[p], pivot)
        == 1 && s.contains(out[p]) by {
        lemma_filter_flags_membership(s, f, p);
        let i = choose|i: int| 0 <= i < s.len() && f[i] == 1 && out[p] == s[i];
        assert(s.contains(s[i]));
    }
}

/// Counting below a threshold under the strict-lower class is unchanged by
/// the compaction, as long as the threshold itself lies strictly below the
/// pivot: everything the compaction dropped is above the threshold.
pub proof fn lemma_count_filter_lt(s: Seq<(u64, usize)>, pivot: (u64, usize), r: (u64, usize))
    requires
        pri_lt(r, pivot),
    ensures
        count_le(filter_flags(s, class_flags(ClassMode::LtPivot, s, pivot)), r) == count_le(s, r),
    decreases s.len(),
{
    let f = class_flags(ClassMode::LtPivot, s, pivot);
    let out = filter_flags(s, f);
    if s.len() == 0 {
        assert(out =~= Seq::<(u64, usize)>::empty());
    } else {
        let s0 = s.drop_last();
        let f0 = class_flags(ClassMode::LtPivot, s0, pivot);
        lemma_count_filter_lt(s0, pivot, r);
        assert(f.drop_last() =~= f0);
        let rest = filter_flags(s0, f0);
        let x = s.last();
        if pri_lt(x, pivot) {
            assert(out =~= rest.push(x));
            assert(out.drop_last() =~= rest);
        } else {
            assert(out =~= rest);
            assert(!pri_le(x, r));
        }
    }
}

/// Counting below a threshold above the pivot splits into the at-most-pivot
/// class and a count inside the compacted strictly-above class.
pub proof fn lemma_count_filter_gt(s: Seq<(u64, usize)>, pivot: (u64, usize), r: (u64, usize))
    requires
        pri_lt(pivot, r),
    ensures
        count_le(s, r) == count_le(s, pivot) + count_le(
            filter_flags(s, class_flags(ClassMode::GtPivot, s, pivot)),
            r,
        ),
    decreases s.len(),
{
    let f = class_flags(ClassMode::GtPivot, s, pivot);
    let out = filter_flags(s, f);
    if s.len() == 0 {
        assert(out =~= Seq::<(u64, usize)>::empty());
    } else {
        let s0 = s.drop_last();
        let f0 = class_flags(ClassMode::GtPivot, s0, pivot);
        lemma_count_filter_gt(s0, pivot, r);
        assert(f.drop_last() =~= f0);
        let rest = filter_flags(s0, f0);
        let x = s.last();
        if !pri_le(x, pivot) {
            assert(out =~= rest.push(x));
            assert(out.drop_last() =~= rest);
        } else {
            assert(out =~= rest);
            assert(pri_le(x, r));
        }
    }
}

/// The `k`-th smallest priority is unique: two members of `s` that both have
/// exactly `k` pairs at or below them are the same pair.  In particular the
/// sample a threshold selects is a function of the keys and `k` alone, never
/// of scheduling or pivot choices.
pub proof fn lemma_kth_unique(s: Seq<(u64, usize)>, r1: (u64, usize), r2: (u64, usize), k: int)
    requires
        s.contains(r1),
        s.contains(r2),
        count_le(s, r1) == k,
        count_le(s, r2) == k,
    ensures
        r1 == r2,
{
    if r1 != r2 {
        if pri_lt(r1, r2) {
            lemma_count_le_strict(s, r1, r2);
        } else {
            assert(pri_lt(r2, r1));
            lemma_count_le_strict(s, r2, r1);
        }
    }
}

/// Classifies every pair in `xs[lo..hi)` against the pivot, returning one
/// 0/1 flag per position.  Above the size cutoff the two halves of the range
/// are classified as parallel fork-join subtasks.
fn classify(
    xs: &Vec<(u64, usize)>,
    lo: usize,
    hi: usize,
    pivot: (u64, usize),
    mode: ClassMode,
) -> (flags: Vec<usize>)
    requires
        lo <= hi <= xs@.len(),
    ensures
        flags@.len() == hi - lo,
        forall|j: int| 0 <= j < hi - lo ==> flags@[j] == class_flag(mode, xs@[lo + j], pivot),
        forall|j: int| 0 <= j < hi - lo ==> flags@[j] <= 1,
    decreases hi - lo,
{
    let len = hi - lo;
    if len <= CLASSIFY_CUTOFF {
        let xn = xs.len();
        let mut flags: Vec<usize> = Vec::new();
        let mut j: usize = 0;
        while j < len
            invariant
                j <= len,
                xn == xs@.len(),
                lo + len <= xn,
                flags@.len() == j,
                forall|x: int| 0 <= x < j ==> flags@[x] == class_flag(mode, xs@[lo + x], pivot),
                forall|x: int| 0 <= x < j ==> flags@[x] <= 1,
            decreases len - j,
        {
            let a = xs[lo + j];
            let is_in = match mode {
                ClassMode::LePivot => a.0 < pivot.0 || (a.0 == pivot.0 && a.1 <= pivot.1),
                ClassMode::LtPivot => a.0 < pivot.0 || (a.0 == pivot.0 && a.1 < pivot.1),
                ClassMode::GtPivot => !(a.0 < pivot.0 || (a.0 == pivot.0 && a.1 <= pivot.1)),
            };
            if is_in {
                flags.push(1);
            } else {
                flags.push(0);
            }
            j = j + 1;
        }
        flags
    } else {
        let mid = lo + len / 2;
        let (mut left, mut right) = classify_join(xs, lo, mid, hi, pivot, mode);
        left.append(&mut right);
        left
    }
}

/// Relies on `rayon::join`: executes the two closures as parallel fork-join
/// subtasks and returns both results.  Each closure only calls the verified
/// [`classify`] on its half of the range.
#[verifier::external_body]
fn classify_join(
    xs: &Vec<(u64, usize)>,
    lo: usize,
    mid: usize,
    hi: usize,
    pivot: (u64, usize),
    mode: ClassMode,
) -> (r: (Vec<usize>, Vec<usize>))
    requires
        lo <= mid <= hi <= xs@.len(),
    ensures
        r.0@.len() == mid - lo,
        r.1@.len() == hi - mid,
        forall|j: int| 0 <= j < mid - lo ==> r.0@[j] == class_flag(mode, xs@[lo + j], pivot),
        forall|j: int| 0 <= j < hi - mid ==> r.1@[j] == class_flag(mode, xs@[mid + j], pivot),
        forall|j: int| 0 <= j < mid - lo ==> r.0@[j] <= 1,
        forall|j: int| 0 <= j < hi - mid ==> r.1@[j] <= 1,
{
    rayon::join(
        || classify(xs, lo, mid, pivot, mode),
        || classify(xs, mid, hi, pivot, mode),
    )
}

/// Finds the pair with exactly `k` pairs at or below it — the `k`-th
/// smallest priority — by randomized parallel quickselect: classify every
/// pair against a random pivot, compact the class that must hold the answer
/// with the prefix scan, and recurse into it.  Expected linear work; always
/// terminating, since the recursion never re-enters the pivot's own class.
pub fn par_quick_select(xs: &Vec<(u64, usize)>, k: usize) -> (r: (u64, usize))
    requires
        1 <= k <= xs@.len(),
        distinct_pairs(xs@),
    ensures
        xs@.contains(r),
        count_le(xs@, r) == k as int,
    decreases xs@.len(),
{
    let n = xs.len();
    let pivot_idx = random_in_range(0, n);
    let pivot = xs[pivot_idx];
    proof {
        assert(xs@.contains(pivot));
    }

    let leq_flags = classify(xs, 0, n, pivot, ClassMode::LePivot);
    proof {
        assert(leq_flags@ =~= class_flags(ClassMode::LePivot, xs@, pivot));
        lemma_flags_sum(ClassMode::LePivot, xs@, pivot);
        lemma_count_le_bounds(xs@, pivot);
        lemma_sum_of_bits_le_len(leq_flags@);
    }
    let (leq_count, _leq_locs) = par_scan(&leq_flags);

    if leq_count == k {
        pivot
    } else if leq_count > k {
        // The answer lies strictly below the pivot: compact that class and
        // recurse with the same rank.
        let lt_flags = classify(xs, 0, n, pivot, ClassMode::LtPivot);
        proof {
            assert(lt_flags@ =~= class_flags(ClassMode::LtPivot, xs@, pivot));
            lemma_flags_sum(ClassMode::LtPivot, xs@, pivot);
            lemma_sum_of_bits_le_len(lt_flags@);
            lemma_count_lt_nonneg(xs@, pivot);
        }
        let (lt_count, lt_locs) = par_scan(&lt_flags);
        let left = compact(xs, &lt_flags, &lt_locs, lt_count);
        proof {
            lemma_le_lt_eq(xs@, pivot);
            lemma_count_eq_distinct(xs@, pivot);
            assert(lt_count == leq_count - 1);
            lemma_filter_flags_distinct(xs@, lt_flags@);
            lemma_class_members(ClassMode::LtPivot, xs@, pivot);
        }
        let r = par_quick_select(&left, k);
        proof {
            assert(class_flag(ClassMode::LtPivot, r, pivot) == 1 && xs@.contains(r));
            lemma_count_filter_lt(xs@, pivot, r);
        }
        r
    } else {
        // The answer lies strictly above the pivot: compact that class and
        // recurse with the rank reduced by the size of the lower class.
        let gt_flags = classify(xs, 0, n, pivot, ClassMode::GtPivot);
        proof {
            assert(gt_flags@ =~= class_flags(ClassMode::GtPivot, xs@, pivot));
            lemma_flags_sum(ClassMode::GtPivot, xs@, pivot);
            lemma_sum_of_bits_le_len(gt_flags@);
            lemma_count_le_member(xs@, pivot);
        }
        let (gt_count, gt_locs) = par_scan(&gt_flags);
        let right = compact(xs, &gt_flags, &gt_locs, gt_count);
        proof {
            lemma_filter_flags_distinct(xs@, gt_flags@);
            lemma_class_members(ClassMode::GtPivot, xs@, pivot);
        }
        let r = par_quick_select(&right, k - leq_count);
        proof {
            assert(class_flag(ClassMode::GtPivot, r, pivot) == 1 && xs@.contains(r));
            assert(pri_lt(pivot, r));
            lemma_count_filter_gt(xs@, pivot, r);
        }
        r
    }
}


/// Gathers one class sequentially: the pairs of `xs` that classify as `1`
/// against the pivot, in their original order.
fn select_class(xs: &Vec<(u64, usize)>, pivot: (u64, usize), mode: ClassMode) -> (out: Vec<
    (u64, usize),
>)
    ensures
        out@ == filter_flags(xs@, class_flags(mode, xs@, pivot)),
{
    let n = xs.len();
    let ghost f = class_flags(mode, xs@, pivot);
    let mut out: Vec<(u64, usize)> = Vec::new();
    let mut i: usize = 0;
    while i < n
        invariant
            i <= n == xs@.len(),
            f == class_flags(mode, xs@, pivot),
            out@ == filter_flags(xs@.subrange(0, i as int), f.subrange(0, i as int)),
        decreases n - i,
    {
        proof {
            lemma_filter_flags_step(xs@, f, i as int);
        }
        let a = xs[i];
        let is_in = match mode {
            ClassMode::LePivot => a.0 < pivot.0 || (a.0 == pivot.0 && a.1 <= pivot.1),
            ClassMode::LtPivot => a.0 < pivot.0 || (a.0 == pivot.0 && a.1 < pivot.1),
            ClassMode::GtPivot => !(a.0 < pivot.0 || (a.0 == pivot.0 && a.1 <= pivot.1)),
        };
        if is_in {
            out.push(a);
            proof {
                assert(f[i as int] == 1);
            }
        } else {
            proof {
                assert(f[i as int] == 0);
            }
        }
        i = i + 1;
    }
    proof {
        assert(xs@.subrange(0, n as int) =~= xs@);
        assert(f.subrange(0, n as int) =~= f);
    }
    out
}

/// The sequential quickselect reference: the same contract as
/// [`par_quick_select`], with the classes gathered by plain filter loops.
pub fn quick_select(xs: &Vec<(u64, usize)>, k: usize) -> (r: (u64, usize))
    requires
        1 <= k <= xs@.len(),
        distinct_pairs(xs@),
    ensures
        xs@.contains(r),
        count_le(xs@, r) == k as int,
    decreases xs@.len(),
{
    let n = xs.len();
    let pivot_idx = random_in_range(0, n);
    let pivot = xs[pivot_idx];
    proof {
        assert(xs@.contains(pivot));
    }
    let leq = select_class(xs, pivot, ClassMode::LePivot);
    proof {
        let fle = class_flags(ClassMode::LePivot, xs@, pivot);
        assert(forall|j: int| 0 <= j < fle.len() ==> #[trigger] fle[j] <= 1);
        lemma_filter_flags_len(xs@, fle);
        lemma_flags_sum(ClassMode::LePivot, xs@, pivot);
        lemma_count_le_bounds(xs@, pivot);
        lemma_count_le_member(xs@, pivot);
    }
    let leq_count = leq.len();
    if leq_count == k {
        pivot
    } else if leq_count > k {
        let left = select_class(xs, pivot, ClassMode::LtPivot);
        proof {
            let flt = class_flags(ClassMode::LtPivot, xs@, pivot);
            assert(forall|j: int| 0 <= j < flt.len() ==> #[trigger] flt[j] <= 1);
            lemma_filter_flags_len(xs@, flt);
            lemma_flags_sum(ClassMode::LtPivot, xs@, pivot);
            lemma_le_lt_eq(xs@, pivot);
            lemma_count_eq_distinct(xs@, pivot);
            lemma_filter_flags_distinct(xs@, flt);
            lemma_class_members(ClassMode::LtPivot, xs@, pivot);
        }
        let r = quick_select(&left, k);
        proof {
            assert(class_flag(ClassMode::LtPivot, r, pivot) == 1 && xs@.contains(r));
            lemma_count_filter_lt(xs@, pivot, r);
        }
        r
    } else {
        let right = select_class(xs, pivot, ClassMode::GtPivot);
        proof {
            let fgt = class_flags(ClassMode::GtPivot, xs@, pivot);
            assert(forall|j: int| 0 <= j < fgt.len() ==> #[trigger] fgt[j] <= 1);
            lemma_filter_flags_len(xs@, fgt);
            lemma_flags_sum(ClassMode::GtPivot, xs@, pivot);
            lemma_filter_flags_distinct(xs@, fgt);
            lemma_class_members(ClassMode::GtPivot, xs@, pivot);
        }
        let r = quick_select(&right, k - leq_count);
        proof {
            assert(class_flag(ClassMode::GtPivot, r, pivot) == 1 && xs@.contains(r));
            assert(pri_lt(pivot, r));
            lemma_count_filter_gt(xs@, pivot, r);
        }
        r
    }
}

/// The priority pairs of a key array: each key tagged with its position, so
/// that all pairs are distinct even when keys collide.
pub open spec fn pair_seq(keys: Seq<u64>) -> Seq<(u64, usize)> {
    Seq::new(keys.len(), |i: int| (keys[i], i as usize))
}

/// `out` is the priority sample of `arr` under `keys` with threshold `r`:
/// the threshold is one of the priority pairs, exactly `k` pairs are at most
/// the threshold, and `out` holds, in their original order, exactly the
/// elements whose pair is at most the threshold.
pub open spec fn selection_of<T>(
    arr: Seq<T>,
    keys: Seq<u64>,
    k: int,
    r: (u64, usize),
    out: Seq<T>,
) -> bool {
    let pairs = pair_seq(keys);
    &&& pairs.contains(r)
    &&& count_le(pairs, r) == k
    &&& out == filter_flags(arr, class_flags(ClassMode::LePivot, pairs, r))
}

/// Tags each key with its position.
fn build_pairs(keys: &Vec<u64>) -> (pairs: Vec<(u64, usize)>)
    ensures
        pairs@ == pair_seq(keys@),
        distinct_pairs(pairs@),
{
    let n = keys.len();
    let mut pairs: Vec<(u64, usize)> = Vec::new();
    let mut i: usize = 0;
    while i < n
        invariant
            i <= n == keys@.len(),
            pairs@.len() == i,
            forall|j: int| 0 <= j < i ==> #[trigger] pairs@[j] == (keys@[j], j as usize),
        decreases n - i,
    {
        let key = keys[i];
        pairs.push((key, i));
        i = i + 1;
    }
    proof {
        assert(pairs@ =~= pair_seq(keys@));
        assert forall|a: int, b: int| 0 <= a < b < pairs@.len() implies #[trigger] pairs@[a]
            != #[trigger] pairs@[b] by {
            assert(pairs@[a].1 == a && pairs@[b].1 == b);
        }
    }
    pairs
}

/// Draws one independent random key per element.
fn draw_keys(n: usize) -> (keys: Vec<u64>)
    ensures
        keys@.len() == n,
{
    let mut keys: Vec<u64> = Vec::new();
    let mut i: usize = 0;
    while i < n
        invariant
            i <= n,
            keys@.len() == i,
        decreases n - i,
    {
        keys.push(random_u64());
        i = i + 1;
    }
    keys
}

/// Selects the `k` elements of `arr` whose priority pairs are the smallest,
/// by parallel quickselect over the pairs followed by one compaction of the
/// at-most-threshold class.
pub fn priority_select<T: Copy>(arr: &Vec<T>, keys: &Vec<u64>, k: usize) -> (out: Vec<T>)
    requires
        keys@.len() == arr@.len(),
        1 <= k <= arr@.len(),
    ensures
        out@.len() == k,
        exists|r: (u64, usize)| selection_of(arr@, keys@, k as int, r, out@),
{
    let n = arr.len();
    let pairs = build_pairs(keys);
    let r = par_quick_select(&pairs, k);
    let flags = classify(&pairs, 0, n, r, ClassMode::LePivot);
    proof {
        assert(flags@ =~= class_flags(ClassMode::LePivot, pairs@, r));
        lemma_flags_sum(ClassMode::LePivot, pairs@, r);
        lemma_sum_of_bits_le_len(flags@);
        lemma_count_le_bounds(pairs@, r);
    }
    let (cnt, locs) = par_scan(&flags);
    let out = compact(arr, &flags, &locs, cnt);
    proof {
        assert(selection_of(arr@, keys@, k as int, r, out@));
    }
    out
}

/// The same selection computed sequentially: quickselect with plain filter
/// loops, then one pass gathering the elements at or below the threshold.
pub fn priority_select_seq<T: Copy>(arr: &Vec<T>, keys: &Vec<u64>, k: usize) -> (out: Vec<T>)
    requires
        keys@.len() == arr@.len(),
        1 <= k <= arr@.len(),
    ensures
        out@.len() == k,
        exists|r: (u64, usize)| selection_of(arr@, keys@, k as int, r, out@),
{
    let n = arr.len();
    let pairs = build_pairs(keys);
    let r = quick_select(&pairs, k);
    let ghost f = class_flags(ClassMode::LePivot, pairs@, r);
    let mut out: Vec<T> = Vec::new();
    let mut i: usize = 0;
    while i < n
        invariant
            i <= n,
            n == arr@.len(),
            pairs@ == pair_seq(keys@),
            keys@.len() == n,
            f == class_flags(ClassMode::LePivot, pairs@, r),
            out@ == filter_flags(arr@.subrange(0, i as int), f.subrange(0, i as int)),
        decreases n - i,
    {
        proof {
            lemma_filter_flags_step(arr@, f, i as int);
            assert(arr@.subrange(0, i as int + 1).drop_last() =~= arr@.subrange(0, i as int));
        }
        let p = pairs[i];
        if p.0 < r.0 || (p.0 == r.0 && p.1 <= r.1) {
            out.push(arr[i]);
        } else {
            proof {
                assert(f[i as int] == 0);
            }
        }
        i = i + 1;
    }
    proof {
        assert(arr@.subrange(0, n as int) =~= arr@);
        assert(f.subrange(0, n as int) =~= f);
        lemma_filter_flags_len(arr@, f);
        lemma_flags_sum(ClassMode::LePivot, pairs@, r);
        assert(selection_of(arr@, keys@, k as int, r, out@));
    }
    out
}

/// Repeated selection with the same population, keys and sample size yields
/// the same sample, whatever pivots or schedule produced each run: the
/// threshold with exactly `k` priority pairs at or below it is unique, and
/// the sample is a function of the threshold.
pub proof fn lemma_selection_deterministic<T>(
    arr: Seq<T>,
    keys: Seq<u64>,
    k: int,
    r1: (u64, usize),
    r2: (u64, usize),
    out1: Seq<T>,
    out2: Seq<T>,
)
    requires
        selection_of(arr, keys, k, r1, out1),
        selection_of(arr, keys, k, r2, out2),
    ensures
        out1 == out2,
{
    lemma_kth_unique(pair_seq(keys), r1, r2, k);
}

/// The empty sample draws from any population.
proof fn lemma_empty_sub_multiset<T>(v: Seq<T>, arr: Seq<T>)
    requires
        v.len() == 0,
    ensures
        v.to_multiset().subset_of(arr.to_multiset()),
{
    broadcast use vstd::seq_lib::group_to_multiset_ensures;

    assert forall|x: T| v.to_multiset().count(x) <= arr.to_multiset().count(x) by {
        assert(!v.contains(x));
    }
}

/// Samples by sequential priority selection: random keys, sequential
/// quickselect, sequential filter.  When `k` equals the population size the
/// population is returned unchanged, with no key computation — a documented
/// shortcut, not a reordering.
pub struct SeqPrioritySampler<T: Copy> {
    marker: core::marker::PhantomData<T>,
}

impl<T: Copy> Sampler<T> for SeqPrioritySampler<T> {
    fn sample(arr: &[T], k: usize) -> (r: Option<Vec<T>>) {
        let n = arr.len();
        if k > n {
            None
        } else if k == n {
            Some(vstd::slice::slice_to_vec(arr))
        } else if k == 0 {
            let empty: Vec<T> = Vec::new();
            proof {
                lemma_empty_sub_multiset(empty@, arr@);
            }
            Some(empty)
        } else {
            let keys = draw_keys(n);
            let arrv = vstd::slice::slice_to_vec(arr);
            let out = priority_select_seq(&arrv, &keys, k);
            proof {
                let r = choose|r: (u64, usize)| selection_of(arrv@, keys@, k as int, r, out@);
                lemma_filter_flags_sub_multiset(
                    arrv@,
                    class_flags(ClassMode::LePivot, pair_seq(keys@), r),
                );
            }
            Some(out)
        }
    }
}

/// Samples by parallel priority selection: random keys, parallel
/// quickselect, one parallel compaction.  When `k` equals the population
/// size the population is returned unchanged, with no key computation — a
/// documented shortcut, not a reordering.
pub struct ParPrioritySampler<T: Copy> {
    marker: core::marker::PhantomData<T>,
}

impl<T: Copy> Sampler<T> for ParPrioritySampler<T> {
    fn sample(arr: &[T], k: usize) -> (r: Option<Vec<T>>) {
        let n = arr.len();
        if k > n {
            None
        } else if k == n {
            Some(vstd::slice::slice_to_vec(arr))
        } else if k == 0 {
            let empty: Vec<T> = Vec::new();
            proof {
                lemma_empty_sub_multiset(empty@, arr@);
            }
            Some(empty)
        } else {
            let keys = draw_keys(n);
            let arrv = vstd::slice::slice_to_vec(arr);
            let out = priority_select(&arrv, &keys, k);
            proof {
                let r = choose|r: (u64, usize)| selection_of(arrv@, keys@, k as int, r, out@);
                lemma_filter_flags_sub_multiset(
                    arrv@,
                    class_flags(ClassMode::LePivot, pair_seq(keys@), r),
                );
            }
            Some(out)
        }
    }
}

} // verus!
