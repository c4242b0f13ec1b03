//! Aggregates of a terrain profile: volume of ground, highest column and the
//! plateau that it starts.

use vstd::prelude::*;
use crate::natural::Natural;

verus! {

/// The total ground volume of `g`.
pub open spec fn ground_sum(g: Seq<u64>) -> int
    decreases g.len(),
{
    if g.len() == 0 {
        0
    } else {
        ground_sum(g.drop_last()) + g.last()
    }
}

/// The index of the first highest column of `g` (zero when `g` is empty).
pub open spec fn peak_index(g: Seq<u64>) -> int
    decreases g.len(),
{
    if g.len() <= 1 {
        0
    } else {
        let j = peak_index(g.drop_last());
        if g.last() > g[j] {
            g.len() - 1
        } else {
            j
        }
    }
}

/// The height of the highest column of a non-empty `g`.
pub open spec fn max_height(g: Seq<u64>) -> u64 {
    g[peak_index(g)]
}

/// The height of the lowest column of a non-empty `g`.
pub open spec fn min_height(g: Seq<u64>) -> u64
    decreases g.len(),
{
    if g.len() <= 1 {
        g[0]
    } else {
        let m = min_height(g.drop_last());
        if g.last() < m {
            g.last()
        } else {
            m
        }
    }
}

/// The number of consecutive columns of height `h` that start at index `i`.
pub open spec fn plateau_width(g: Seq<u64>, i: int, h: u64) -> nat
    decreases g.len() - i,
{
    if 0 <= i < g.len() && g[i] == h {
        1 + plateau_width(g, i + 1, h)
    } else {
        0
    }
}

/// The first highest column is no lower than any column and higher than
/// every column before it.
pub proof fn lemma_peak_index(g: Seq<u64>)
    requires
        g.len() >= 1,
    ensures
        0 <= peak_index(g) < g.len(),
        forall|k: int| 0 <= k < g.len() ==> #[trigger] g[k] <= g[peak_index(g)],
        forall|k: int| 0 <= k < peak_index(g) ==> #[trigger] g[k] < g[peak_index(g)],
    decreases g.len(),
{
    if g.len() > 1 {
        let d = g.drop_last();
        lemma_peak_index(d);
        assert forall|k: int| 0 <= k < d.len() implies g[k] == d[k] by {}
    }
}

/// The lowest height is the height of some column and at most every column.
pub proof fn lemma_min_height(g: Seq<u64>)
    requires
        g.len() >= 1,
    ensures
        forall|k: int| 0 <= k < g.len() ==> min_height(g) <= g[k],
        exists|k: int| 0 <= k < g.len() && min_height(g) == g[k],
    decreases g.len(),
{
    if g.len() > 1 {
        let d = g.drop_last();
        lemma_min_height(d);
        assert forall|k: int| 0 <= k < d.len() implies g[k] == d[k] by {}
        let k0 = choose|k: int| 0 <= k < d.len() && min_height(d) == d[k];
        if g.last() < min_height(d) {
            assert(min_height(g) == g[g.len() - 1]);
        } else {
            assert(min_height(g) == g[k0]);
        }
    } else {
        assert(min_height(g) == g[0]);
    }
}

/// A plateau stays inside the profile and all its columns have its height.
pub proof fn lemma_plateau_width(g: Seq<u64>, i: int, h: u64)
    requires
        0 <= i <= g.len(),
    ensures
        i + plateau_width(g, i, h) <= g.len(),
        forall|k: int| i <= k < i + plateau_width(g, i, h) ==> g[k] == h,
    decreases g.len() - i,
{
    if i < g.len() && g[i] == h {
        lemma_plateau_width(g, i + 1, h);
    }
}

/// Ground volume adds over concatenation.
pub proof fn lemma_ground_sum_concat(a: Seq<u64>, b: Seq<u64>)
    ensures
        ground_sum(a + b) == ground_sum(a) + ground_sum(b),
    decreases b.len(),
{
    if b.len() > 0 {
        lemma_ground_sum_concat(a, b.drop_last());
        assert((a + b).drop_last() =~= a + b.drop_last());
    } else {
        assert(a + b =~= a);
    }
}

/// Columns of height at most `h` hold at most `h` per column.
pub proof fn lemma_ground_sum_bounded(g: Seq<u64>, h: int)
    requires
        forall|k: int| 0 <= k < g.len() ==> g[k] <= h,
    ensures
        0 <= ground_sum(g) <= h * g.len(),
        ground_sum(g) <= g.len() * h,
    decreases g.len(),
{
    assert(h * g.len() == g.len() * h) by (nonlinear_arith);
    if g.len() > 0 {
        let d = g.drop_last();
        assert forall|k: int| 0 <= k < d.len() implies d[k] <= h by {
            assert(d[k] == g[k]);
        }
        lemma_ground_sum_bounded(d, h);
        assert(h * d.len() + h == h * g.len()) by (nonlinear_arith)
            requires
                g.len() == d.len() + 1,
        ;
    }
}

/// Columns of height `h` hold exactly `h` per column.
pub proof fn lemma_ground_sum_constant(g: Seq<u64>, h: int)
    requires
        forall|k: int| 0 <= k < g.len() ==> g[k] == h,
    ensures
        ground_sum(g) == h * g.len(),
    decreases g.len(),
{
    if g.len() > 0 {
        let d = g.drop_last();
        assert forall|k: int| 0 <= k < d.len() implies d[k] == h by {
            assert(d[k] == g[k]);
        }
        lemma_ground_sum_constant(d, h);
        assert(h * d.len() + h == h * g.len()) by (nonlinear_arith)
            requires
                g.len() == d.len() + 1,
        ;
    }
}

/// One column holds its own height.
pub proof fn lemma_ground_sum_single(x: u64)
    ensures
        ground_sum(seq![x]) == x,
{
    let one = seq![x];
    assert(one.len() == 1 && one.last() == x);
    assert(one.drop_last() =~= Seq::<u64>::empty());
    assert(ground_sum(one.drop_last()) == 0);
}

/// Reversal keeps the ground volume.
pub proof fn lemma_ground_sum_reverse(g: Seq<u64>)
    ensures
        ground_sum(g.reverse()) == ground_sum(g),
    decreases g.len(),
{
    if g.len() > 0 {
        let d = g.drop_last();
        lemma_ground_sum_reverse(d);
        let one = seq![g.last()];
        assert(g.reverse() =~= one + d.reverse());
        lemma_ground_sum_concat(one, d.reverse());
        lemma_ground_sum_single(g.last());
    } else {
        assert(g.reverse() =~= g);
    }
}

/// The ground volume of `g[start..end]`.
pub fn range_sum(g: &Vec<u64>, start: usize, end: usize) -> (r: Natural)
    requires
        start <= end <= g.len(),
    ensures
        r@ == ground_sum(g@.subrange(start as int, end as int)),
{
    let mut acc = Natural::zero();
    let mut k: usize = start;
    assert(g@.subrange(start as int, start as int).len() == 0);
    while k < end
        invariant
            start <= k <= end <= g.len(),
            acc@ == ground_sum(g@.subrange(start as int, k as int)),
        decreases end - k,
    {
        assert(g@.subrange(start as int, k + 1).drop_last() =~= g@.subrange(start as int, k as int));
        acc = acc.add(&Natural::from_u64(g[k]));
        k = k + 1;
    }
    acc
}

/// The absolute index of the first highest column of `g[start..end]`.
pub fn find_peak(g: &Vec<u64>, start: usize, end: usize) -> (r: usize)
    requires
        start < end <= g.len(),
    ensures
        r == start + peak_index(g@.subrange(start as int, end as int)),
        start <= r < end,
{
    let mut best: usize = start;
    let mut k: usize = start + 1;
    assert(peak_index(g@.subrange(start as int, start + 1)) == 0);
    while k < end
        invariant
            start < k <= end <= g.len(),
            start <= best < k,
            best == start + peak_index(g@.subrange(start as int, k as int)),
        decreases end - k,
    {
        let ghost s = g@.subrange(start as int, k + 1);
        assert(s.drop_last() =~= g@.subrange(start as int, k as int));
        if g[k] > g[best] {
            best = k;
        }
        k = k + 1;
    }
    best
}

/// The number of consecutive columns of height `h` from `i` up to `end`.
pub fn plateau_len(g: &Vec<u64>, start: usize, i: usize, end: usize, h: u64) -> (r: usize)
    requires
        start <= i <= end <= g.len(),
    ensures
        r == plateau_width(g@.subrange(start as int, end as int), i - start, h),
        i + r <= end,
{
    let ghost s = g@.subrange(start as int, end as int);
    let mut j: usize = i;
    while j < end && g[j] == h
        invariant
            start <= i <= j <= end <= g.len(),
            s == g@.subrange(start as int, end as int),
            plateau_width(s, i - start, h) == (j - i) + plateau_width(s, j - start, h),
        decreases end - j,
    {
        assert(s[j - start] == g@[j as int]);
        j = j + 1;
    }
    proof {
        if j < end {
            assert(s[j - start] == g@[j as int]);
        }
    }
    j - i
}

} // verus!
