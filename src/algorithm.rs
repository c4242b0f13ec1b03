//! The levelling algorithm: the highest plateau of a range either lies under
//! water, and the whole range settles at one level, or it splits the range in
//! two, and the water of the range is shared between both sides.
//!
//! Saturation is decided by volume: a range is under water when its ground
//! and water exceed the brim of its highest column. In exact arithmetic this
//! needs no root finding in the lift of the ground (see `equation`).
//!
//! One pass recurses left before right, which treats ties and borders
//! asymmetrically; `raise` averages a pass over the terrain with one over the
//! reversed terrain.

use vstd::prelude::*;
use crate::natural::Natural;
use crate::problem::Problem;
use crate::ratio::{
    Frac, Ratio, frac_add, frac_eqv, frac_lt, frac_mean, frac_of_int, frac_scale, frac_sub,
    frac_wf, lemma_add_associative, lemma_add_interchange, lemma_add_ints, lemma_add_wf,
    lemma_add_zero, lemma_eqv_add, lemma_eqv_transitive,
};
use crate::solutions::{
    Solution, frac_repeat, frac_total, lemma_total_concat, lemma_total_constant, lemma_total_wf,
    rests_on_ground, values,
};
use crate::terrain::{
    ground_sum, peak_index, plateau_width, lemma_ground_sum_bounded, lemma_ground_sum_concat,
    lemma_ground_sum_constant, lemma_ground_sum_reverse, lemma_ground_sum_single, lemma_peak_index,
    lemma_plateau_width, find_peak, plateau_len, range_sum,
};

verus! {

/// Twice the rain-catchment range of one side of a peak plateau of `width`
/// columns: half the plateau, the side itself, and a correction at an inner
/// border (none at a wall of the terrain).
pub open spec fn catchment(side_len: int, width: int, at_wall: bool, edge_peaks: int) -> int {
    width + 2 * side_len + if at_wall {
        0
    } else if edge_peaks == 0 {
        1
    } else {
        2 * edge_peaks
    }
}

/// The volume of water that `g` holds before it overflows at height `h`.
pub open spec fn well_capacity(g: Seq<u64>, h: int) -> int {
    h * g.len() - ground_sum(g)
}

/// How `water` is shared between the sides `left` and `right` of a peak
/// plateau of height `peak` and `width` columns: as rain by catchment range,
/// except that a side whose well overflows keeps its capacity and passes the
/// rest to the other side.
pub open spec fn distribute(
    water: Frac,
    peak: int,
    width: int,
    left: Seq<u64>,
    right: Seq<u64>,
    at_left_edge: bool,
    at_right_edge: bool,
    left_edge_peaks: int,
    right_edge_peaks: int,
) -> (Frac, Frac) {
    if left.len() == 0 {
        (frac_of_int(0), water)
    } else if right.len() == 0 {
        (water, frac_of_int(0))
    } else {
        let left_range = catchment(left.len() as int, width, at_left_edge, left_edge_peaks);
        let right_range = catchment(right.len() as int, width, at_right_edge, right_edge_peaks);
        let left_rain = frac_scale(water, left_range, left_range + right_range);
        let right_rain = frac_scale(water, right_range, left_range + right_range);
        let left_cap = frac_of_int(well_capacity(left, peak));
        let right_cap = frac_of_int(well_capacity(right, peak));
        if frac_lt(left_cap, left_rain) {
            (left_cap, frac_sub(water, left_cap))
        } else if frac_lt(right_cap, right_rain) {
            (frac_sub(water, right_cap), right_cap)
        } else {
            (left_rain, right_rain)
        }
    }
}

/// The resting levels of the columns `g` that receive `water`.
///
/// If the ground and water of the range exceed the brim of its highest
/// column, all columns settle at the mean level. Otherwise the first highest
/// plateau stays dry at its own height, and each side settles with its share.
#[verifier::opaque]
pub open spec fn settle(
    g: Seq<u64>,
    water: Frac,
    at_left_edge: bool,
    at_right_edge: bool,
    left_edge_peaks: int,
    right_edge_peaks: int,
) -> Seq<Frac>
    decreases g.len(),
{
    if g.len() == 0 {
        Seq::empty()
    } else {
        let n = g.len() as int;
        let i = peak_index(g);
        let peak = g[i];
        let w = plateau_width(g, i, peak) as int;
        let volume = frac_add(water, frac_of_int(ground_sum(g)));
        if frac_lt(frac_of_int(peak * n), volume) {
            Seq::new(g.len(), |k: int| frac_scale(volume, 1, n))
        } else {
            proof {
                lemma_peak_index(g);
                lemma_plateau_width(g, i, peak);
            }
            let left = g.subrange(0, i);
            let right = g.subrange(i + w, n);
            let new_left_edge_peaks = if i == 0 { w } else { 0 };
            let new_right_edge_peaks = if i + w == n { w } else { 0 };
            let parts = distribute(
                water,
                peak as int,
                w,
                left,
                right,
                at_left_edge,
                at_right_edge,
                left_edge_peaks,
                right_edge_peaks,
            );
            settle(left, parts.0, at_left_edge, false, new_left_edge_peaks, new_right_edge_peaks)
                + Seq::new(w as nat, |k: int| frac_of_int(peak as int))
                + settle(right, parts.1, false, at_right_edge, new_left_edge_peaks, new_right_edge_peaks)
        }
    }
}

/// The levels of one pass over the whole terrain `g` with `water`.
pub open spec fn single_pass(g: Seq<u64>, water: Frac) -> Seq<Frac> {
    settle(g, water, true, true, 0, 0)
}

/// A settled range has one level per column.
pub proof fn lemma_settle_len(
    g: Seq<u64>,
    water: Frac,
    at_left_edge: bool,
    at_right_edge: bool,
    left_edge_peaks: int,
    right_edge_peaks: int,
)
    ensures
        settle(g, water, at_left_edge, at_right_edge, left_edge_peaks, right_edge_peaks).len()
            == g.len(),
    decreases g.len(),
{
    reveal(settle);
    if g.len() > 0 {
        let n = g.len() as int;
        let i = peak_index(g);
        let peak = g[i];
        let w = plateau_width(g, i, peak) as int;
        let volume = frac_add(water, frac_of_int(ground_sum(g)));
        if !frac_lt(frac_of_int(peak * n), volume) {
            lemma_peak_index(g);
            lemma_plateau_width(g, i, peak);
            let left = g.subrange(0, i);
            let right = g.subrange(i + w, n);
            let new_left_edge_peaks = if i == 0 { w } else { 0 };
            let new_right_edge_peaks = if i + w == n { w } else { 0 };
            let parts = distribute(
                water,
                peak as int,
                w,
                left,
                right,
                at_left_edge,
                at_right_edge,
                left_edge_peaks,
                right_edge_peaks,
            );
            lemma_settle_len(left, parts.0, at_left_edge, false, new_left_edge_peaks, new_right_edge_peaks);
            lemma_settle_len(right, parts.1, false, at_right_edge, new_left_edge_peaks, new_right_edge_peaks);
        }
    }
}

/// A range whose ground and water rise above the brim of its highest column
/// settles at one level.
proof fn lemma_settle_flooded(
    g: Seq<u64>,
    water: Frac,
    at_left_edge: bool,
    at_right_edge: bool,
    left_edge_peaks: int,
    right_edge_peaks: int,
)
    requires
        g.len() > 0,
        frac_lt(
            frac_of_int(g[peak_index(g)] * g.len()),
            frac_add(water, frac_of_int(ground_sum(g))),
        ),
    ensures
        settle(g, water, at_left_edge, at_right_edge, left_edge_peaks, right_edge_peaks)
            == Seq::new(
            g.len(),
            |k: int| frac_scale(frac_add(water, frac_of_int(ground_sum(g))), 1, g.len() as int),
        ),
{
    reveal(settle);
}

/// A range below the brim of its highest column splits at its first highest
/// plateau.
proof fn lemma_settle_split(
    g: Seq<u64>,
    water: Frac,
    at_left_edge: bool,
    at_right_edge: bool,
    left_edge_peaks: int,
    right_edge_peaks: int,
)
    requires
        g.len() > 0,
        !frac_lt(
            frac_of_int(g[peak_index(g)] * g.len()),
            frac_add(water, frac_of_int(ground_sum(g))),
        ),
    ensures
        ({
            let n = g.len() as int;
            let i = peak_index(g);
            let peak = g[i];
            let w = plateau_width(g, i, peak) as int;
            let left = g.subrange(0, i);
            let right = g.subrange(i + w, n);
            let new_left_edge_peaks = if i == 0 { w } else { 0 };
            let new_right_edge_peaks = if i + w == n { w } else { 0 };
            let parts = distribute(
                water,
                peak as int,
                w,
                left,
                right,
                at_left_edge,
                at_right_edge,
                left_edge_peaks,
                right_edge_peaks,
            );
            settle(g, water, at_left_edge, at_right_edge, left_edge_peaks, right_edge_peaks)
                == settle(left, parts.0, at_left_edge, false, new_left_edge_peaks, new_right_edge_peaks)
                + Seq::new(w as nat, |k: int| frac_of_int(peak as int))
                + settle(right, parts.1, false, at_right_edge, new_left_edge_peaks, new_right_edge_peaks)
        }),
{
    reveal(settle);
}

/// The levels of the pass over `g` averaged, column by column, with those of
/// the pass over `g` reversed.
pub open spec fn averaged_levels(g: Seq<u64>, water: Frac) -> Seq<Frac> {
    let forward = single_pass(g, water);
    let backward = single_pass(g.reverse(), water);
    Seq::new(g.len(), |k: int| frac_mean(backward[g.len() - 1 - k], forward[k]))
}

/// Both shares of a well-formed volume are well-formed when neither well is
/// below ground.
proof fn lemma_distribute_wf(
    water: Frac,
    peak: int,
    width: int,
    left: Seq<u64>,
    right: Seq<u64>,
    at_left_edge: bool,
    at_right_edge: bool,
    left_edge_peaks: int,
    right_edge_peaks: int,
)
    requires
        frac_wf(water),
        width >= 1,
        left_edge_peaks >= 0,
        right_edge_peaks >= 0,
        well_capacity(left, peak) >= 0,
        well_capacity(right, peak) >= 0,
    ensures
        ({
            let parts = distribute(
                water,
                peak,
                width,
                left,
                right,
                at_left_edge,
                at_right_edge,
                left_edge_peaks,
                right_edge_peaks,
            );
            frac_wf(parts.0) && frac_wf(parts.1)
        }),
{
    if left.len() > 0 && right.len() > 0 {
        let left_range = catchment(left.len() as int, width, at_left_edge, left_edge_peaks);
        let right_range = catchment(right.len() as int, width, at_right_edge, right_edge_peaks);
        let total = left_range + right_range;
        let left_cap = frac_of_int(well_capacity(left, peak));
        let right_cap = frac_of_int(well_capacity(right, peak));
        lemma_part_wf(water, left_range, total);
        lemma_part_wf(water, right_range, total);
        if frac_lt(left_cap, frac_scale(water, left_range, total)) {
            lemma_below_part(water, left_range, total, left_cap);
        } else if frac_lt(right_cap, frac_scale(water, right_range, total)) {
            lemma_below_part(water, right_range, total, right_cap);
        }
    }
}

proof fn lemma_part_wf(w: Frac, k: int, m: int)
    requires
        frac_wf(w),
        k >= 0,
        m > 0,
    ensures
        frac_wf(frac_scale(w, k, m)),
{
    assert(w.num * k >= 0) by (nonlinear_arith)
        requires
            w.num >= 0,
            k >= 0,
    ;
    assert(w.den * m > 0) by (nonlinear_arith)
        requires
            w.den > 0,
            m > 0,
    ;
}

/// Every level of a settled range is well-formed and at or above its ground.
pub proof fn lemma_settle_rests_on_ground(
    g: Seq<u64>,
    water: Frac,
    at_left_edge: bool,
    at_right_edge: bool,
    left_edge_peaks: int,
    right_edge_peaks: int,
)
    requires
        frac_wf(water),
        left_edge_peaks >= 0,
        right_edge_peaks >= 0,
    ensures
        rests_on_ground(
            settle(g, water, at_left_edge, at_right_edge, left_edge_peaks, right_edge_peaks),
            g,
        ),
    decreases g.len(),
{
    let result = settle(g, water, at_left_edge, at_right_edge, left_edge_peaks, right_edge_peaks);
    lemma_settle_len(g, water, at_left_edge, at_right_edge, left_edge_peaks, right_edge_peaks);
    if g.len() > 0 {
        let n = g.len() as int;
        let i = peak_index(g);
        let peak = g[i];
        let w = plateau_width(g, i, peak) as int;
        let sum = ground_sum(g);
        let volume = frac_add(water, frac_of_int(sum));
        lemma_peak_index(g);
        lemma_ground_sum_bounded(g, peak as int);
        if frac_lt(frac_of_int(peak * n), volume) {
            lemma_settle_flooded(g, water, at_left_edge, at_right_edge, left_edge_peaks, right_edge_peaks);
            let level = frac_scale(volume, 1, n);
            assert(volume.num == water.num + sum * water.den);
            assert(volume.den == water.den);
            assert(sum * water.den >= 0) by (nonlinear_arith)
                requires
                    sum >= 0,
                    water.den > 0,
            ;
            lemma_part_wf(volume, 1, n);
            assert forall|k: int| 0 <= k < n implies frac_wf(#[trigger] result[k]) && !frac_lt(
                result[k],
                frac_of_int(g[k] as int),
            ) by {
                let h = g[k] as int;
                assert(result[k] == level);
                assert(h * (water.den * n) <= peak * n * water.den) by (nonlinear_arith)
                    requires
                        h <= peak,
                        water.den > 0,
                        n > 0,
                ;
            }
        } else {
            lemma_settle_split(g, water, at_left_edge, at_right_edge, left_edge_peaks, right_edge_peaks);
            lemma_plateau_width(g, i, peak);
            let left = g.subrange(0, i);
            let right = g.subrange(i + w, n);
            let new_left_edge_peaks = if i == 0 { w } else { 0 };
            let new_right_edge_peaks = if i + w == n { w } else { 0 };
            assert forall|k: int| 0 <= k < left.len() implies left[k] <= peak by {
                assert(left[k] == g[k]);
            }
            assert forall|k: int| 0 <= k < right.len() implies right[k] <= peak by {
                assert(right[k] == g[i + w + k]);
            }
            lemma_ground_sum_bounded(left, peak as int);
            lemma_ground_sum_bounded(right, peak as int);
            lemma_distribute_wf(
                water,
                peak as int,
                w,
                left,
                right,
                at_left_edge,
                at_right_edge,
                left_edge_peaks,
                right_edge_peaks,
            );
            let parts = distribute(
                water,
                peak as int,
                w,
                left,
                right,
                at_left_edge,
                at_right_edge,
                left_edge_peaks,
                right_edge_peaks,
            );
            let left_result = settle(left, parts.0, at_left_edge, false, new_left_edge_peaks, new_right_edge_peaks);
            let right_result = settle(right, parts.1, false, at_right_edge, new_left_edge_peaks, new_right_edge_peaks);
            let plateau = Seq::new(w as nat, |k: int| frac_of_int(peak as int));
            lemma_settle_rests_on_ground(left, parts.0, at_left_edge, false, new_left_edge_peaks, new_right_edge_peaks);
            lemma_settle_rests_on_ground(right, parts.1, false, at_right_edge, new_left_edge_peaks, new_right_edge_peaks);
            assert(result == left_result + plateau + right_result);
            assert forall|k: int| 0 <= k < n implies frac_wf(#[trigger] result[k]) && !frac_lt(
                result[k],
                frac_of_int(g[k] as int),
            ) by {
                if k < i {
                    assert(result[k] == left_result[k]);
                    assert(left[k] == g[k]);
                } else if k < i + w {
                    assert(result[k] == plateau[k - i]);
                } else {
                    assert(result[k] == right_result[k - i - w]);
                    assert(right[k - i - w] == g[k]);
                }
            }
        }
    }
}

/// The mean of two levels at or above a ground is at or above it.
proof fn lemma_mean_rests(a: Frac, b: Frac, h: int)
    requires
        frac_wf(a),
        frac_wf(b),
        !frac_lt(a, frac_of_int(h)),
        !frac_lt(b, frac_of_int(h)),
    ensures
        frac_wf(frac_mean(a, b)),
        !frac_lt(frac_mean(a, b), frac_of_int(h)),
{
    assert(a.num * b.den + b.num * a.den >= h * (2 * (a.den * b.den))) by (nonlinear_arith)
        requires
            a.num >= h * a.den,
            b.num >= h * b.den,
            a.den > 0,
            b.den > 0,
    ;
    assert(a.num * b.den + b.num * a.den >= 0 && 2 * (a.den * b.den) > 0) by (nonlinear_arith)
        requires
            a.num >= 0,
            b.num >= 0,
            a.den > 0,
            b.den > 0,
    ;
}

/// Both passes and their average rest on the ground.
pub proof fn lemma_averaged_rests_on_ground(g: Seq<u64>, water: Frac)
    requires
        frac_wf(water),
    ensures
        rests_on_ground(averaged_levels(g, water), g),
{
    let n = g.len() as int;
    let rev = g.reverse();
    let forward = single_pass(g, water);
    let backward = single_pass(rev, water);
    lemma_settle_rests_on_ground(g, water, true, true, 0, 0);
    lemma_settle_rests_on_ground(rev, water, true, true, 0, 0);
    assert(rev.len() == n);
    let avg = averaged_levels(g, water);
    assert forall|k: int| 0 <= k < n implies frac_wf(#[trigger] avg[k]) && !frac_lt(
        avg[k],
        frac_of_int(g[k] as int),
    ) by {
        assert(rev[n - 1 - k] == g[k]);
        lemma_mean_rests(backward[n - 1 - k], forward[k], g[k] as int);
    }
}

/// The averaged levels are symmetric: solving the reversed terrain gives the
/// reversed levels.
pub proof fn lemma_averaged_symmetric(g: Seq<u64>, water: Frac)
    ensures
        averaged_levels(g.reverse(), water) == averaged_levels(g, water).reverse(),
{
    let n = g.len() as int;
    let rev = g.reverse();
    assert(rev.reverse() =~= g);
    let forward = single_pass(g, water);
    let backward = single_pass(rev, water);
    let a = averaged_levels(g, water);
    let b = averaged_levels(rev, water);
    assert forall|k: int| 0 <= k < n implies #[trigger] b[k] == a.reverse()[k] by {
        let x = forward[n - 1 - k];
        let y = backward[k];
        assert(b[k] == frac_mean(x, y));
        assert(a.reverse()[k] == a[n - 1 - k]);
        assert(a[n - 1 - k] == frac_mean(y, x));
        assert(x.den * y.den == y.den * x.den) by (nonlinear_arith);
    }
    assert(b =~= a.reverse());
}

/// Water that fills both wells exactly to the brim is shared as the two
/// capacities.
proof fn lemma_distribute_at_brim(
    water: Frac,
    peak: int,
    width: int,
    left: Seq<u64>,
    right: Seq<u64>,
    at_left_edge: bool,
    at_right_edge: bool,
    left_edge_peaks: int,
    right_edge_peaks: int,
)
    requires
        frac_wf(water),
        width >= 1,
        left_edge_peaks >= 0,
        right_edge_peaks >= 0,
        well_capacity(left, peak) >= 0,
        well_capacity(right, peak) >= 0,
        water.num == (well_capacity(left, peak) + well_capacity(right, peak)) * water.den,
    ensures
        ({
            let parts = distribute(
                water,
                peak,
                width,
                left,
                right,
                at_left_edge,
                at_right_edge,
                left_edge_peaks,
                right_edge_peaks,
            );
            &&& parts.0.num == well_capacity(left, peak) * parts.0.den
            &&& parts.1.num == well_capacity(right, peak) * parts.1.den
        }),
{
    let cl = well_capacity(left, peak);
    let cr = well_capacity(right, peak);
    let d = water.den;
    assert((cl + cr) * d == cl * d + cr * d) by (nonlinear_arith);
    if left.len() > 0 && right.len() > 0 {
        let lr = catchment(left.len() as int, width, at_left_edge, left_edge_peaks);
        let rr = catchment(right.len() as int, width, at_right_edge, right_edge_peaks);
        let t = lr + rr;
        let left_rain = frac_scale(water, lr, t);
        let right_rain = frac_scale(water, rr, t);
        if frac_lt(frac_of_int(cl), left_rain) {
        } else if frac_lt(frac_of_int(cr), right_rain) {
        } else {
            let a = water.num * lr;
            let b = water.num * rr;
            let ca = cl * (d * t);
            let cb = cr * (d * t);
            assert(a + b == ca + cb) by (nonlinear_arith)
                requires
                    water.num == (cl + cr) * d,
                    a == water.num * lr,
                    b == water.num * rr,
                    ca == cl * (d * t),
                    cb == cr * (d * t),
                    t == lr + rr,
            ;
        }
    }
}

/// A range whose water fills it exactly to height `h`, at or above every
/// column, settles with every column at `h`.
pub proof fn lemma_settle_at_brim(
    g: Seq<u64>,
    water: Frac,
    at_left_edge: bool,
    at_right_edge: bool,
    left_edge_peaks: int,
    right_edge_peaks: int,
    h: int,
)
    requires
        frac_wf(water),
        left_edge_peaks >= 0,
        right_edge_peaks >= 0,
        forall|k: int| 0 <= k < g.len() ==> g[k] <= h,
        water.num == (h * g.len() - ground_sum(g)) * water.den,
    ensures
        forall|k: int|
            0 <= k < g.len() ==> frac_eqv(
                #[trigger] settle(
                    g,
                    water,
                    at_left_edge,
                    at_right_edge,
                    left_edge_peaks,
                    right_edge_peaks,
                )[k],
                frac_of_int(h),
            ),
    decreases g.len(),
{
    let result = settle(g, water, at_left_edge, at_right_edge, left_edge_peaks, right_edge_peaks);
    lemma_settle_len(g, water, at_left_edge, at_right_edge, left_edge_peaks, right_edge_peaks);
    if g.len() > 0 {
        let n = g.len() as int;
        let i = peak_index(g);
        let peak = g[i] as int;
        let w = plateau_width(g, i, g[i]) as int;
        let sum = ground_sum(g);
        let d = water.den;
        let volume = frac_add(water, frac_of_int(sum));
        lemma_peak_index(g);
        assert(volume.num == h * n * d) by (nonlinear_arith)
            requires
                volume.num == water.num * 1 + sum * d,
                water.num == (h * n - sum) * d,
        ;
        if peak < h {
            assert(peak * n * (d * 1) < volume.num * 1) by (nonlinear_arith)
                requires
                    volume.num == h * n * d,
                    peak < h,
                    n > 0,
                    d > 0,
            ;
            lemma_settle_flooded(g, water, at_left_edge, at_right_edge, left_edge_peaks, right_edge_peaks);
            let level = frac_scale(volume, 1, n);
            assert(level.num * 1 == h * level.den) by (nonlinear_arith)
                requires
                    level.num == volume.num * 1,
                    level.den == (d * 1) * n,
                    volume.num == h * n * d,
            ;
            assert forall|k: int| 0 <= k < n implies frac_eqv(#[trigger] result[k], frac_of_int(h)) by {
                assert(result[k] == level);
            }
        } else {
            assert(peak * n * (d * 1) == volume.num * 1) by (nonlinear_arith)
                requires
                    volume.num == h * n * d,
                    peak == h,
            ;
            lemma_settle_split(g, water, at_left_edge, at_right_edge, left_edge_peaks, right_edge_peaks);
            lemma_plateau_width(g, i, g[i]);
            let left = g.subrange(0, i);
            let middle = g.subrange(i, i + w);
            let right = g.subrange(i + w, n);
            let new_left_edge_peaks = if i == 0 { w } else { 0 };
            let new_right_edge_peaks = if i + w == n { w } else { 0 };
            assert forall|k: int| 0 <= k < left.len() implies left[k] <= h by {
                assert(left[k] == g[k]);
            }
            assert forall|k: int| 0 <= k < right.len() implies right[k] <= h by {
                assert(right[k] == g[i + w + k]);
            }
            assert forall|k: int| 0 <= k < middle.len() implies middle[k] == h by {
                assert(middle[k] == g[i + k]);
            }
            assert(g =~= left + middle + right);
            lemma_ground_sum_concat(left, middle);
            lemma_ground_sum_concat(left + middle, right);
            lemma_ground_sum_constant(middle, h);
            lemma_ground_sum_bounded(left, h);
            lemma_ground_sum_bounded(right, h);
            let sl = ground_sum(left);
            let sr = ground_sum(right);
            assert(h * n - sum == (h * left.len() - sl) + (h * right.len() - sr)) by (nonlinear_arith)
                requires
                    sum == sl + h * w + sr,
                    n == left.len() + w + right.len(),
            ;
            lemma_distribute_wf(
                water,
                peak,
                w,
                left,
                right,
                at_left_edge,
                at_right_edge,
                left_edge_peaks,
                right_edge_peaks,
            );
            lemma_distribute_at_brim(
                water,
                peak,
                w,
                left,
                right,
                at_left_edge,
                at_right_edge,
                left_edge_peaks,
                right_edge_peaks,
            );
            let parts = distribute(
                water,
                peak,
                w,
                left,
                right,
                at_left_edge,
                at_right_edge,
                left_edge_peaks,
                right_edge_peaks,
            );
            let left_result = settle(left, parts.0, at_left_edge, false, new_left_edge_peaks, new_right_edge_peaks);
            let right_result = settle(right, parts.1, false, at_right_edge, new_left_edge_peaks, new_right_edge_peaks);
            let plateau = Seq::new(w as nat, |k: int| frac_of_int(peak));
            lemma_settle_len(left, parts.0, at_left_edge, false, new_left_edge_peaks, new_right_edge_peaks);
            lemma_settle_len(right, parts.1, false, at_right_edge, new_left_edge_peaks, new_right_edge_peaks);
            lemma_settle_at_brim(left, parts.0, at_left_edge, false, new_left_edge_peaks, new_right_edge_peaks, h);
            lemma_settle_at_brim(right, parts.1, false, at_right_edge, new_left_edge_peaks, new_right_edge_peaks, h);
            assert(result == left_result + plateau + right_result);
            assert forall|k: int| 0 <= k < n implies frac_eqv(#[trigger] result[k], frac_of_int(h)) by {
                if k < i {
                    assert(result[k] == left_result[k]);
                } else if k < i + w {
                    assert(result[k] == plateau[k - i]);
                } else {
                    assert(result[k] == right_result[k - i - w]);
                }
            }
        }
    }
}

/// With exactly the water that fills every well of `g` to height `h`, at or
/// above every column, the averaged levels are all `h`.
pub proof fn lemma_averaged_at_brim(g: Seq<u64>, h: int)
    requires
        forall|k: int| 0 <= k < g.len() ==> g[k] <= h,
        h * g.len() - ground_sum(g) >= 0,
    ensures
        forall|k: int|
            0 <= k < g.len() ==> frac_eqv(
                #[trigger] averaged_levels(g, frac_of_int(h * g.len() - ground_sum(g)))[k],
                frac_of_int(h),
            ),
{
    let n = g.len() as int;
    let water = frac_of_int(h * n - ground_sum(g));
    let rev = g.reverse();
    lemma_ground_sum_reverse(g);
    assert forall|k: int| 0 <= k < rev.len() implies rev[k] <= h by {
        assert(rev[k] == g[n - 1 - k]);
    }
    let forward = single_pass(g, water);
    let backward = single_pass(rev, water);
    lemma_settle_at_brim(g, water, true, true, 0, 0, h);
    lemma_settle_at_brim(rev, water, true, true, 0, 0, h);
    lemma_settle_rests_on_ground(g, water, true, true, 0, 0);
    lemma_settle_rests_on_ground(rev, water, true, true, 0, 0);
    let avg = averaged_levels(g, water);
    assert forall|k: int| 0 <= k < n implies frac_eqv(#[trigger] avg[k], frac_of_int(h)) by {
        let a = backward[n - 1 - k];
        let b = forward[k];
        assert(frac_eqv(a, frac_of_int(h)));
        assert(frac_eqv(b, frac_of_int(h)));
        assert((a.num * b.den + b.num * a.den) * 1 == h * (2 * (a.den * b.den))) by (nonlinear_arith)
            requires
                a.num * 1 == h * a.den,
                b.num * 1 == h * b.den,
        ;
    }
}

/// The two shares add up to the water shared; an empty side gets none.
proof fn lemma_distribute_conserves(
    water: Frac,
    peak: int,
    width: int,
    left: Seq<u64>,
    right: Seq<u64>,
    at_left_edge: bool,
    at_right_edge: bool,
    left_edge_peaks: int,
    right_edge_peaks: int,
)
    requires
        frac_wf(water),
        width >= 1,
        left_edge_peaks >= 0,
        right_edge_peaks >= 0,
    ensures
        ({
            let parts = distribute(
                water,
                peak,
                width,
                left,
                right,
                at_left_edge,
                at_right_edge,
                left_edge_peaks,
                right_edge_peaks,
            );
            &&& frac_eqv(frac_add(parts.0, parts.1), water)
            &&& left.len() == 0 ==> parts.0.num == 0
            &&& right.len() == 0 && left.len() > 0 ==> parts.1.num == 0
        }),
{
    let d = water.den;
    if left.len() == 0 {
        lemma_add_zero(water);
    } else if right.len() == 0 {
        lemma_add_zero(water);
    } else {
        let lr = catchment(left.len() as int, width, at_left_edge, left_edge_peaks);
        let rr = catchment(right.len() as int, width, at_right_edge, right_edge_peaks);
        let t = lr + rr;
        let left_rain = frac_scale(water, lr, t);
        let right_rain = frac_scale(water, rr, t);
        let left_cap = frac_of_int(well_capacity(left, peak));
        let right_cap = frac_of_int(well_capacity(right, peak));
        if frac_lt(left_cap, left_rain) {
        } else if frac_lt(right_cap, right_rain) {
        } else {
            let p = d * t;
            let q = water.num * p;
            assert(water.num * lr * p + water.num * rr * p == q * t) by (nonlinear_arith)
                requires
                    q == water.num * p,
                    t == lr + rr,
            ;
            assert(q * t * d == water.num * (p * p)) by (nonlinear_arith)
                requires
                    q == water.num * p,
                    p == d * t,
            ;
        }
    }
}

/// A settled range holds its water: its levels add up to its water and
/// ground.
pub proof fn lemma_settle_conserves(
    g: Seq<u64>,
    water: Frac,
    at_left_edge: bool,
    at_right_edge: bool,
    left_edge_peaks: int,
    right_edge_peaks: int,
)
    requires
        frac_wf(water),
        left_edge_peaks >= 0,
        right_edge_peaks >= 0,
        g.len() > 0 || water.num == 0,
    ensures
        frac_eqv(
            frac_total(settle(g, water, at_left_edge, at_right_edge, left_edge_peaks, right_edge_peaks)),
            frac_add(water, frac_of_int(ground_sum(g))),
        ),
    decreases g.len(),
{
    let result = settle(g, water, at_left_edge, at_right_edge, left_edge_peaks, right_edge_peaks);
    lemma_settle_len(g, water, at_left_edge, at_right_edge, left_edge_peaks, right_edge_peaks);
    lemma_settle_rests_on_ground(g, water, at_left_edge, at_right_edge, left_edge_peaks, right_edge_peaks);
    let target = frac_add(water, frac_of_int(ground_sum(g)));
    if g.len() == 0 {
        let t = frac_total(result);
        assert(t == frac_of_int(0));
        assert(t.num * target.den == target.num * t.den) by (nonlinear_arith)
            requires
                t.num == 0,
                target.num == water.num * 1 + 0 * water.den,
                water.num == 0,
        ;
    } else {
        let n = g.len() as int;
        let i = peak_index(g);
        let peak = g[i] as int;
        let w = plateau_width(g, i, g[i]) as int;
        let sum = ground_sum(g);
        let volume = target;
        lemma_peak_index(g);
        lemma_ground_sum_bounded(g, peak);
        assert(sum * water.den >= 0) by (nonlinear_arith)
            requires
                sum >= 0,
                water.den > 0,
        ;
        if frac_lt(frac_of_int(peak * n), volume) {
            lemma_settle_flooded(g, water, at_left_edge, at_right_edge, left_edge_peaks, right_edge_peaks);
            let level = frac_scale(volume, 1, n);
            assert(result =~= frac_repeat(n as nat, level));
            assert(level.den > 0) by (nonlinear_arith)
                requires
                    level.den == volume.den * n,
                    volume.den == water.den * 1,
                    water.den > 0,
                    n > 0,
            ;
            lemma_total_constant(n as nat, level);
            let mid = Frac { num: n * level.num, den: level.den };
            assert(mid.num * volume.den == volume.num * mid.den) by (nonlinear_arith)
                requires
                    mid.num == n * (volume.num * 1),
                    mid.den == volume.den * n,
            ;
            lemma_eqv_transitive(frac_total(result), mid, volume);
        } else {
            lemma_settle_split(g, water, at_left_edge, at_right_edge, left_edge_peaks, right_edge_peaks);
            lemma_plateau_width(g, i, g[i]);
            let left = g.subrange(0, i);
            let middle = g.subrange(i, i + w);
            let right = g.subrange(i + w, n);
            let new_left_edge_peaks = if i == 0 { w } else { 0 };
            let new_right_edge_peaks = if i + w == n { w } else { 0 };
            assert forall|k: int| 0 <= k < middle.len() implies middle[k] == peak by {
                assert(middle[k] == g[i + k]);
            }
            assert(g =~= left + middle + right);
            lemma_ground_sum_concat(left, middle);
            lemma_ground_sum_concat(left + middle, right);
            lemma_ground_sum_constant(middle, peak);
            let sl = ground_sum(left);
            let sr = ground_sum(right);
            assert(w * peak == peak * w) by (nonlinear_arith);
            assert forall|k: int| 0 <= k < left.len() implies left[k] <= peak by {
                assert(left[k] == g[k]);
            }
            assert forall|k: int| 0 <= k < right.len() implies right[k] <= peak by {
                assert(right[k] == g[i + w + k]);
            }
            lemma_ground_sum_bounded(left, peak);
            lemma_ground_sum_bounded(right, peak);
            if left.len() == 0 && right.len() == 0 {
                // the plateau is the whole range, which holds no water
                assert(sum == peak * n);
                assert(water.num <= 0) by (nonlinear_arith)
                    requires
                        !(peak * n * (water.den * 1) < (water.num * 1 + sum * water.den) * 1),
                        sum == peak * n,
                ;
            }
            lemma_distribute_wf(
                water,
                peak,
                w,
                left,
                right,
                at_left_edge,
                at_right_edge,
                left_edge_peaks,
                right_edge_peaks,
            );
            lemma_distribute_conserves(
                water,
                peak,
                w,
                left,
                right,
                at_left_edge,
                at_right_edge,
                left_edge_peaks,
                right_edge_peaks,
            );
            let parts = distribute(
                water,
                peak,
                w,
                left,
                right,
                at_left_edge,
                at_right_edge,
                left_edge_peaks,
                right_edge_peaks,
            );
            let wl = parts.0;
            let wr = parts.1;
            let left_result = settle(left, wl, at_left_edge, false, new_left_edge_peaks, new_right_edge_peaks);
            let right_result = settle(right, wr, false, at_right_edge, new_left_edge_peaks, new_right_edge_peaks);
            let plateau = Seq::new(w as nat, |k: int| frac_of_int(peak));
            assert(plateau =~= frac_repeat(w as nat, frac_of_int(peak)));
            lemma_settle_conserves(left, wl, at_left_edge, false, new_left_edge_peaks, new_right_edge_peaks);
            lemma_settle_conserves(right, wr, false, at_right_edge, new_left_edge_peaks, new_right_edge_peaks);
            lemma_settle_rests_on_ground(left, wl, at_left_edge, false, new_left_edge_peaks, new_right_edge_peaks);
            lemma_settle_rests_on_ground(right, wr, false, at_right_edge, new_left_edge_peaks, new_right_edge_peaks);
            lemma_total_constant(w as nat, frac_of_int(peak));
            assert(result == left_result + plateau + right_result);
            lemma_total_concat(left_result + plateau, right_result);
            lemma_total_concat(left_result, plateau);

            let tl = frac_total(left_result);
            let tp = frac_total(plateau);
            let tr = frac_total(right_result);
            let el = frac_add(wl, frac_of_int(sl));
            let ep = frac_of_int(w * peak);
            let er = frac_add(wr, frac_of_int(sr));
            // the totals of the three parts, each by its own volume
            lemma_eqv_add(tl, el, tp, ep);
            lemma_eqv_add(frac_add(tl, tp), frac_add(el, ep), tr, er);
            // regroup the volumes: the water shares, then the ground
            lemma_add_associative(wl, frac_of_int(sl), ep);
            lemma_add_ints(sl, w * peak);
            lemma_add_interchange(wl, frac_of_int(sl + w * peak), wr, frac_of_int(sr));
            lemma_add_ints(sl + w * peak, sr);
            lemma_eqv_add(frac_add(wl, wr), water, frac_of_int(sum), frac_of_int(sum));

            lemma_add_wf(wl, frac_of_int(sl));
            lemma_add_wf(wr, frac_of_int(sr));
            lemma_add_wf(el, ep);
            lemma_add_wf(frac_add(el, ep), er);
            lemma_add_wf(wl, wr);
            lemma_add_wf(frac_add(wl, wr), frac_of_int(sum));
            assert(frac_add(frac_add(el, ep), er) == frac_add(frac_add(wl, wr), frac_of_int(sum)));
            lemma_eqv_transitive(
                frac_total(result),
                frac_add(frac_add(el, ep), er),
                frac_add(frac_add(wl, wr), frac_of_int(sum)),
            );
            lemma_eqv_transitive(frac_total(result), frac_add(frac_add(wl, wr), frac_of_int(sum)), target);
        }
    }
}

/// Some column between `i` and `j` is higher than column `i`.
pub open spec fn higher_between(g: Seq<u64>, i: int, j: int) -> bool {
    exists|k: int| i < k < j && #[trigger] g[k] > g[i]
}

/// No two columns of equal height face each other over lower ground only:
/// every range of `g` has a single highest column.
pub open spec fn distinct_peaks(g: Seq<u64>) -> bool {
    forall|i: int, j: int|
        0 <= i < j < g.len() && g[i] == g[j] ==> #[trigger] higher_between(g, i, j)
}

/// A column higher than all others is the first highest column.
proof fn lemma_unique_peak(g: Seq<u64>, j: int)
    requires
        0 <= j < g.len(),
        forall|k: int| 0 <= k < g.len() && k != j ==> #[trigger] g[k] < g[j],
    ensures
        peak_index(g) == j,
    decreases g.len(),
{
    if g.len() > 1 {
        let d = g.drop_last();
        if j == g.len() - 1 {
            lemma_peak_index(d);
            assert(d[peak_index(d)] == g[peak_index(d)]);
        } else {
            assert forall|k: int| 0 <= k < d.len() && k != j implies #[trigger] d[k] < d[j] by {
                assert(d[k] == g[k]);
            }
            lemma_unique_peak(d, j);
            assert(g.last() == g[g.len() - 1]);
        }
    }
}

/// With distinct peaks the highest column is higher than all others.
proof fn lemma_distinct_peak(g: Seq<u64>)
    requires
        g.len() >= 1,
        distinct_peaks(g),
    ensures
        forall|k: int| 0 <= k < g.len() && k != peak_index(g) ==> #[trigger] g[k] < g[peak_index(g)],
{
    lemma_peak_index(g);
    let i = peak_index(g);
    assert forall|k: int| 0 <= k < g.len() && k != i implies #[trigger] g[k] < g[i] by {
        if g[k] == g[i] {
            if k < i {
                assert(higher_between(g, k, i));
                let m = choose|m: int| k < m < i && #[trigger] g[m] > g[k];
                assert(g[m] <= g[i]);
            } else {
                assert(higher_between(g, i, k));
                let m = choose|m: int| i < m < k && #[trigger] g[m] > g[i];
                assert(g[m] <= g[i]);
            }
        }
    }
}

proof fn lemma_distinct_peaks_subrange(g: Seq<u64>, lo: int, hi: int)
    requires
        0 <= lo <= hi <= g.len(),
        distinct_peaks(g),
    ensures
        distinct_peaks(g.subrange(lo, hi)),
{
    let s = g.subrange(lo, hi);
    assert forall|i: int, j: int| 0 <= i < j < s.len() && s[i] == s[j] implies #[trigger] higher_between(
        s,
        i,
        j,
    ) by {
        assert(s[i] == g[lo + i] && s[j] == g[lo + j]);
        assert(higher_between(g, lo + i, lo + j));
        let m = choose|m: int| lo + i < m < lo + j && #[trigger] g[m] > g[lo + i];
        assert(s[m - lo] == g[m]);
    }
}

proof fn lemma_distinct_peaks_reverse(g: Seq<u64>)
    requires
        distinct_peaks(g),
    ensures
        distinct_peaks(g.reverse()),
{
    let n = g.len() as int;
    let r = g.reverse();
    assert forall|i: int, j: int| 0 <= i < j < r.len() && r[i] == r[j] implies #[trigger] higher_between(
        r,
        i,
        j,
    ) by {
        assert(r[i] == g[n - 1 - i] && r[j] == g[n - 1 - j]);
        assert(higher_between(g, n - 1 - j, n - 1 - i));
        let m = choose|m: int| n - 1 - j < m < n - 1 - i && #[trigger] g[m] > g[n - 1 - j];
        assert(r[n - 1 - m] == g[m]);
    }
}

/// Below the brim, a side never overflows while the other one does too; so
/// sharing between the sides in mirror order gives the shares swapped.
proof fn lemma_distribute_mirror(
    water: Frac,
    peak: int,
    width: int,
    left: Seq<u64>,
    right: Seq<u64>,
    at_left_edge: bool,
    at_right_edge: bool,
    left_edge_peaks: int,
    right_edge_peaks: int,
)
    requires
        frac_wf(water),
        width >= 1,
        left_edge_peaks >= 0,
        right_edge_peaks >= 0,
        left.len() > 0 || right.len() > 0,
        water.num <= (well_capacity(left, peak) + well_capacity(right, peak)) * water.den,
    ensures
        ({
            let parts = distribute(
                water,
                peak,
                width,
                left,
                right,
                at_left_edge,
                at_right_edge,
                left_edge_peaks,
                right_edge_peaks,
            );
            distribute(
                water,
                peak,
                width,
                right.reverse(),
                left.reverse(),
                at_right_edge,
                at_left_edge,
                right_edge_peaks,
                left_edge_peaks,
            ) == (parts.1, parts.0)
        }),
{
    lemma_ground_sum_reverse(left);
    lemma_ground_sum_reverse(right);
    if left.len() > 0 && right.len() > 0 {
        let cl = well_capacity(left, peak);
        let cr = well_capacity(right, peak);
        let lr = catchment(left.len() as int, width, at_left_edge, left_edge_peaks);
        let rr = catchment(right.len() as int, width, at_right_edge, right_edge_peaks);
        let t = lr + rr;
        let d = water.den;
        if frac_lt(frac_of_int(cl), frac_scale(water, lr, t)) && frac_lt(
            frac_of_int(cr),
            frac_scale(water, rr, t),
        ) {
            assert(false) by (nonlinear_arith)
                requires
                    cl * (d * t) < water.num * lr,
                    cr * (d * t) < water.num * rr,
                    water.num <= (cl + cr) * d,
                    t == lr + rr,
                    lr > 0,
                    rr > 0,
                    d > 0,
            ;
        }
    }
}

/// On terrain with distinct peaks, settling the mirrored range with mirrored
/// borders gives the mirrored levels.
#[verifier::rlimit(100)]
pub proof fn lemma_settle_mirror(
    g: Seq<u64>,
    water: Frac,
    at_left_edge: bool,
    at_right_edge: bool,
    left_edge_peaks: int,
    right_edge_peaks: int,
)
    requires
        distinct_peaks(g),
        frac_wf(water),
        left_edge_peaks >= 0,
        right_edge_peaks >= 0,
    ensures
        settle(g.reverse(), water, at_right_edge, at_left_edge, right_edge_peaks, left_edge_peaks)
            == settle(g, water, at_left_edge, at_right_edge, left_edge_peaks, right_edge_peaks).reverse(),
    decreases g.len(),
{
    let n = g.len() as int;
    let rev = g.reverse();
    let result = settle(g, water, at_left_edge, at_right_edge, left_edge_peaks, right_edge_peaks);
    let mirrored = settle(rev, water, at_right_edge, at_left_edge, right_edge_peaks, left_edge_peaks);
    lemma_settle_len(g, water, at_left_edge, at_right_edge, left_edge_peaks, right_edge_peaks);
    lemma_settle_len(rev, water, at_right_edge, at_left_edge, right_edge_peaks, left_edge_peaks);
    if n == 0 {
        assert(mirrored =~= result.reverse());
    } else {
        lemma_peak_index(g);
        lemma_distinct_peak(g);
        let i = peak_index(g);
        let peak = g[i] as int;
        assert forall|k: int| 0 <= k < n && k != n - 1 - i implies #[trigger] rev[k] < rev[n - 1 - i] by {
            assert(rev[k] == g[n - 1 - k]);
        }
        lemma_unique_peak(rev, n - 1 - i);
        let j = n - 1 - i;
        assert(rev[j] == g[i]);
        // both plateaus are one column wide
        assert(plateau_width(g, i, g[i]) == 1) by {
            if i + 1 < n {
                assert(g[i + 1] < g[i]);
            }
            assert(plateau_width(g, i + 1, g[i]) == 0);
            assert(plateau_width(g, i, g[i]) == 1 + plateau_width(g, i + 1, g[i]));
        }
        assert(plateau_width(rev, j, rev[j]) == 1) by {
            if j + 1 < n {
                assert(rev[j + 1] == g[i - 1]);
                assert(g[i - 1] < g[i]);
            }
            assert(plateau_width(rev, j + 1, rev[j]) == 0);
            assert(plateau_width(rev, j, rev[j]) == 1 + plateau_width(rev, j + 1, rev[j]));
        }
        lemma_ground_sum_reverse(g);
        let sum = ground_sum(g);
        let volume = frac_add(water, frac_of_int(sum));
        if frac_lt(frac_of_int(peak * n), volume) {
            lemma_settle_flooded(g, water, at_left_edge, at_right_edge, left_edge_peaks, right_edge_peaks);
            lemma_settle_flooded(rev, water, at_right_edge, at_left_edge, right_edge_peaks, left_edge_peaks);
            assert(mirrored =~= result.reverse());
        } else {
            lemma_settle_split(g, water, at_left_edge, at_right_edge, left_edge_peaks, right_edge_peaks);
            lemma_settle_split(rev, water, at_right_edge, at_left_edge, right_edge_peaks, left_edge_peaks);
            let left = g.subrange(0, i);
            let right = g.subrange(i + 1, n);
            assert(rev.subrange(0, j) =~= right.reverse());
            assert(rev.subrange(j + 1, n) =~= left.reverse());
            let nl = if i == 0 { 1int } else { 0 };
            let nr = if i + 1 == n { 1int } else { 0 };
            assert forall|k: int| 0 <= k < left.len() implies left[k] <= peak by {
                assert(left[k] == g[k]);
            }
            assert forall|k: int| 0 <= k < right.len() implies right[k] <= peak by {
                assert(right[k] == g[i + 1 + k]);
            }
            assert(g =~= left + seq![g[i]] + right);
            lemma_ground_sum_concat(left, seq![g[i]]);
            lemma_ground_sum_concat(left + seq![g[i]], right);
            lemma_ground_sum_single(g[i]);
            lemma_ground_sum_bounded(left, peak);
            lemma_ground_sum_bounded(right, peak);
            lemma_distinct_peaks_subrange(g, 0, i);
            lemma_distinct_peaks_subrange(g, i + 1, n);
            let parts = distribute(
                water,
                peak,
                1,
                left,
                right,
                at_left_edge,
                at_right_edge,
                left_edge_peaks,
                right_edge_peaks,
            );
            lemma_distribute_wf(
                water,
                peak,
                1,
                left,
                right,
                at_left_edge,
                at_right_edge,
                left_edge_peaks,
                right_edge_peaks,
            );
            lemma_settle_mirror(left, parts.0, at_left_edge, false, nl, nr);
            lemma_settle_mirror(right, parts.1, false, at_right_edge, nl, nr);
            let a = settle(left, parts.0, at_left_edge, false, nl, nr);
            let b = settle(right, parts.1, false, at_right_edge, nl, nr);
            lemma_settle_len(left, parts.0, at_left_edge, false, nl, nr);
            lemma_settle_len(right, parts.1, false, at_right_edge, nl, nr);
            let top = Seq::new(1, |k: int| frac_of_int(peak));
            assert(result == a + top + b);
            if n == 1 {
                assert(left.len() == 0 && right.len() == 0);
                assert(mirrored =~= top);
                assert(result =~= top);
                assert(mirrored =~= result.reverse());
            } else {
                let d = water.den;
                assert(water.num <= (peak * left.len() - ground_sum(left) + (peak * right.len()
                    - ground_sum(right))) * d) by (nonlinear_arith)
                    requires
                        !(peak * n * (d * 1) < (water.num * 1 + sum * d) * 1),
                        sum == ground_sum(left) + peak + ground_sum(right),
                        n == left.len() + 1 + right.len(),
                        d > 0,
                ;
                lemma_distribute_mirror(
                    water,
                    peak,
                    1,
                    left,
                    right,
                    at_left_edge,
                    at_right_edge,
                    left_edge_peaks,
                    right_edge_peaks,
                );
                assert(mirrored == b.reverse() + top + a.reverse());
                assert(mirrored =~= result.reverse());
            }
        }
    }
}

/// On terrain with distinct peaks one pass over the reversed terrain gives
/// the reversed levels, before any averaging.
pub proof fn lemma_single_pass_symmetric(g: Seq<u64>, water: Frac)
    requires
        distinct_peaks(g),
        frac_wf(water),
    ensures
        single_pass(g.reverse(), water) == single_pass(g, water).reverse(),
{
    lemma_settle_mirror(g, water, true, true, 0, 0);
}

/// A part `w * k / m` of a fraction, `k <= m`, is at most `w`; a fraction
/// below the part is below `w`.
proof fn lemma_below_part(w: Frac, k: int, m: int, c: Frac)
    requires
        frac_wf(w),
        frac_wf(c),
        0 <= k <= m,
        m > 0,
        frac_lt(c, frac_scale(w, k, m)),
    ensures
        !frac_lt(w, c),
{
    assert(c.num * (w.den * m) < w.num * k * c.den);
    assert(w.num * k * c.den <= w.num * m * c.den) by (nonlinear_arith)
        requires
            w.num >= 0,
            c.den > 0,
            k <= m,
    ;
    assert(c.num * w.den < w.num * c.den) by (nonlinear_arith)
        requires
            c.num * (w.den * m) < w.num * m * c.den,
            m > 0,
    ;
}

/// Levels collected per column while the recursion settles ranges.
struct Collector {
    segments: Vec<Ratio>,
}

impl Collector {
    /// A collector of `size` columns, all at level zero.
    fn new(size: usize) -> (r: Collector)
        ensures
            r.segments.len() == size,
    {
        let mut segments: Vec<Ratio> = Vec::new();
        let mut k: usize = 0;
        while k < size
            invariant
                k <= size,
                segments.len() == k,
            decreases size - k,
        {
            segments.push(Ratio::from_u64(0));
            k = k + 1;
        }
        Collector { segments }
    }

    /// Sets every column of `start..stop` to `level`.
    fn fill(&mut self, start: usize, stop: usize, level: &Ratio)
        requires
            start <= stop <= old(self).segments.len(),
        ensures
            final(self).segments.len() == old(self).segments.len(),
            forall|j: int|
                0 <= j < old(self).segments.len() && !(start <= j < stop) ==> #[trigger] final(self).segments@[j]
                    == old(self).segments@[j],
            forall|j: int| start <= j < stop ==> #[trigger] final(self).segments@[j]@ == level@,
    {
        let mut k: usize = start;
        while k < stop
            invariant
                start <= k <= stop <= self.segments.len(),
                self.segments.len() == old(self).segments.len(),
                forall|j: int|
                    0 <= j < self.segments.len() && !(start <= j < k) ==> #[trigger] self.segments@[j]
                        == old(self).segments@[j],
                forall|j: int| start <= j < k ==> #[trigger] self.segments@[j]@ == level@,
            decreases stop - k,
        {
            self.set_level(level.copy(), k);
            k = k + 1;
        }
    }

    fn set_level(&mut self, level: Ratio, i: usize)
        requires
            i < old(self).segments.len(),
        ensures
            final(self).segments@ == old(self).segments@.update(i as int, level),
    {
        self.segments.set(i, level);
    }
}

/// One range of the recursion: its water and its inclusive bounds.
struct RecursorPars {
    water: Ratio,
    start: usize,
    end: usize,
    left_edge_peaks: usize,
    right_edge_peaks: usize,
    nest: u64,
}

impl RecursorPars {
    fn new(
        water: Ratio,
        start: usize,
        end: usize,
        left_edge_peaks: usize,
        right_edge_peaks: usize,
        nest: u64,
    ) -> (r: Self)
        ensures
            r.water@ == water@,
            r.start == start,
            r.end == end,
            r.left_edge_peaks == left_edge_peaks,
            r.right_edge_peaks == right_edge_peaks,
            r.nest == nest,
    {
        Self { water, start, end, left_edge_peaks, right_edge_peaks, nest }
    }
}

/// The water of one range shared between both sides of its peak.
struct WaterDistribution {
    left: Ratio,
    right: Ratio,
}

/// The capacity of the well `grounds[start..stop]` at height `heigth`.
fn well_volume(grounds: &Vec<u64>, start: usize, stop: usize, heigth: u64) -> (r: Natural)
    requires
        start <= stop <= grounds.len(),
        forall|k: int| start <= k < stop ==> grounds@[k] <= heigth,
    ensures
        r@ == well_capacity(grounds@.subrange(start as int, stop as int), heigth as int),
{
    let ghost g = grounds@.subrange(start as int, stop as int);
    proof {
        assert forall|k: int| 0 <= k < g.len() implies g[k] <= heigth by {
            assert(g[k] == grounds@[start + k]);
        }
        lemma_ground_sum_bounded(g, heigth as int);
    }
    let volume = Natural::from_u64(heigth).mul(&Natural::from_u64((stop - start) as u64));
    let land = range_sum(grounds, start, stop);
    volume.sub(&land)
}

/// Twice the catchment range of one side, see `catchment`.
fn catchment_range(side_len: usize, width: usize, at_wall: bool, edge_peaks: usize) -> (r: Natural)
    ensures
        r@ == catchment(side_len as int, width as int, at_wall, edge_peaks as int),
{
    let two = Natural::from_u64(2);
    let base = Natural::from_u64(width as u64).add(&two.mul(&Natural::from_u64(side_len as u64)));
    let correction = if at_wall {
        Natural::zero()
    } else if edge_peaks == 0 {
        Natural::from_u64(1)
    } else {
        two.mul(&Natural::from_u64(edge_peaks as u64))
    };
    base.add(&correction)
}

/// Shares `water` between `grounds[start..peak]` and
/// `grounds[peak + peak_width..stop]`, either side of the plateau at `peak`.
fn water_distribution(
    water: &Ratio,
    grounds: &Vec<u64>,
    start: usize,
    peak: usize,
    peak_width: usize,
    stop: usize,
    at_left_edge: bool,
    at_right_edge: bool,
    left_edge_peaks: usize,
    right_edge_peaks: usize,
) -> (r: WaterDistribution)
    requires
        frac_wf(water@),
        start <= peak,
        peak + peak_width <= stop <= grounds.len(),
        peak_width >= 1,
        forall|k: int| start <= k < stop ==> grounds@[k] <= grounds@[peak as int],
    ensures
        (r.left@, r.right@) == distribute(
            water@,
            grounds@[peak as int] as int,
            peak_width as int,
            grounds@.subrange(start as int, peak as int),
            grounds@.subrange(peak + peak_width, stop as int),
            at_left_edge,
            at_right_edge,
            left_edge_peaks as int,
            right_edge_peaks as int,
        ),
        frac_wf(r.left@),
        frac_wf(r.right@),
{
    // trivial cases
    if peak == start {
        return WaterDistribution { left: Ratio::from_u64(0), right: water.copy() };
    }
    let right_start = peak + peak_width;
    if right_start == stop {
        return WaterDistribution { left: water.copy(), right: Ratio::from_u64(0) };
    }
    let heigth = grounds[peak];
    let left_range = catchment_range(peak - start, peak_width, at_left_edge, left_edge_peaks);
    let right_range = catchment_range(stop - right_start, peak_width, at_right_edge, right_edge_peaks);
    let total = left_range.add(&right_range);
    let left_rain = water.scale(&left_range, &total);
    let right_rain = water.scale(&right_range, &total);

    // the capacity of each well up to the peak
    let left_cap = Ratio::from_natural(well_volume(grounds, start, peak, heigth));
    let right_cap = Ratio::from_natural(well_volume(grounds, right_start, stop, heigth));

    // a side that cannot hold its rain passes the excess to the other side
    if left_cap.lt(&left_rain) {
        proof {
            lemma_below_part(water@, left_range@ as int, total@ as int, left_cap@);
        }
        let right = water.sub(&left_cap);
        WaterDistribution { left: left_cap, right }
    } else if right_cap.lt(&right_rain) {
        proof {
            lemma_below_part(water@, right_range@ as int, total@ as int, right_cap@);
        }
        let left = water.sub(&right_cap);
        WaterDistribution { left, right: right_cap }
    } else {
        WaterDistribution { left: left_rain, right: right_rain }
    }
}

/// Settles the range `pars.start..=pars.end` of `grounds` with `pars.water`
/// and writes its levels into the collector; other columns stay as they are.
#[verifier::rlimit(50)]
fn recursor(pars: RecursorPars, grounds: &Vec<u64>, collector: Collector) -> (r: Collector)
    requires
        pars.start <= pars.end < grounds.len(),
        collector.segments.len() == grounds.len(),
        pars.nest + (pars.end - pars.start) < grounds.len(),
        frac_wf(pars.water@),
    ensures
        r.segments.len() == grounds.len(),
        forall|k: int|
            0 <= k < grounds.len() && !(pars.start <= k <= pars.end) ==> #[trigger] r.segments@[k]@
                == collector.segments@[k]@,
        forall|k: int|
            pars.start <= k <= pars.end ==> #[trigger] r.segments@[k]@ == settle(
                grounds@.subrange(pars.start as int, pars.end + 1),
                pars.water@,
                pars.start == 0,
                pars.end == grounds.len() - 1,
                pars.left_edge_peaks as int,
                pars.right_edge_peaks as int,
            )[k - pars.start],
    decreases pars.end - pars.start,
{
    let RecursorPars { water, start, end, left_edge_peaks, right_edge_peaks, nest } = pars;
    let mut collector = collector;
    let ghost old_levels = collector.segments@;
    let ghost g = grounds@.subrange(start as int, end + 1);
    let ghost result = settle(
        g,
        water@,
        start == 0,
        end == grounds.len() - 1,
        left_edge_peaks as int,
        right_edge_peaks as int,
    );
    let stop = end + 1;
    let size = stop - start;

    // find the highest peak and the plateau that it starts
    let absolute_peak = find_peak(grounds, start, stop);
    let peak_heigth = grounds[absolute_peak];
    let n_adjacent_peaks = plateau_len(grounds, start, absolute_peak, stop, peak_heigth);
    proof {
        lemma_peak_index(g);
        lemma_plateau_width(g, absolute_peak - start, peak_heigth);
        assert(g[absolute_peak - start] == peak_heigth);
        assert forall|k: int| start <= k < stop implies grounds@[k] <= peak_heigth by {
            assert(grounds@[k] == g[k - start]);
        }
    }

    // is the whole range under water?
    let volume = water.add(&Ratio::from_natural(range_sum(grounds, start, stop)));
    let brim = Ratio::from_natural(
        Natural::from_u64(peak_heigth).mul(&Natural::from_u64(size as u64)),
    );
    if brim.lt(&volume) {
        let level = volume.scale(&Natural::from_u64(1), &Natural::from_u64(size as u64));
        collector.fill(start, stop, &level);
        proof {
            lemma_settle_flooded(
                g,
                water@,
                start == 0,
                end == grounds.len() - 1,
                left_edge_peaks as int,
                right_edge_peaks as int,
            );
        }
        return collector;
    }

    // the plateau stays dry at its own height
    collector.fill(absolute_peak, absolute_peak + n_adjacent_peaks, &Ratio::from_u64(peak_heigth));

    let has_left = absolute_peak != start;
    let has_right = absolute_peak + n_adjacent_peaks != stop;

    // a plateau at the border of the range marks the border for the next level
    let new_left_edge_peaks = if !has_left { n_adjacent_peaks } else { 0 };
    let new_right_edge_peaks = if !has_right { n_adjacent_peaks } else { 0 };

    let at_left_edge = start == 0;
    let at_right_edge = end == collector.segments.len() - 1;
    let WaterDistribution { left: water_left, right: water_right } = water_distribution(
        &water,
        grounds,
        start,
        absolute_peak,
        n_adjacent_peaks,
        stop,
        at_left_edge,
        at_right_edge,
        left_edge_peaks,
        right_edge_peaks,
    );
    let ghost left_g = g.subrange(0, absolute_peak - start);
    let ghost right_g = g.subrange(absolute_peak + n_adjacent_peaks - start, size as int);
    let ghost left_result = settle(
        left_g,
        water_left@,
        start == 0,
        false,
        new_left_edge_peaks as int,
        new_right_edge_peaks as int,
    );
    let ghost right_result = settle(
        right_g,
        water_right@,
        false,
        end == grounds.len() - 1,
        new_left_edge_peaks as int,
        new_right_edge_peaks as int,
    );
    let ghost plateau = Seq::new(n_adjacent_peaks as nat, |k: int| frac_of_int(peak_heigth as int));
    proof {
        assert(grounds@.subrange(start as int, absolute_peak as int) =~= left_g);
        assert(grounds@.subrange(absolute_peak + n_adjacent_peaks, stop as int) =~= right_g);
        assert(brim@ == frac_of_int(peak_heigth * size));
        lemma_settle_split(
            g,
            water@,
            start == 0,
            end == grounds.len() - 1,
            left_edge_peaks as int,
            right_edge_peaks as int,
        );
        assert(result == left_result + plateau + right_result);
        lemma_settle_len(
            left_g,
            water_left@,
            start == 0,
            false,
            new_left_edge_peaks as int,
            new_right_edge_peaks as int,
        );
        lemma_settle_len(
            right_g,
            water_right@,
            false,
            end == grounds.len() - 1,
            new_left_edge_peaks as int,
            new_right_edge_peaks as int,
        );
    }

    // the left side first, then the right side
    if has_left {
        let left_pars = RecursorPars::new(
            water_left,
            start,
            absolute_peak - 1,
            new_left_edge_peaks,
            new_right_edge_peaks,
            nest + 1,
        );
        proof {
            assert(grounds@.subrange(start as int, absolute_peak - 1 + 1) =~= left_g);
        }
        collector = recursor(left_pars, grounds, collector);
    }
    let ghost left_levels = collector.segments@;
    assert forall|j: int| start <= j < absolute_peak implies left_levels[j]@ == result[j - start] by {
        assert(result[j - start] == left_result[j - start]);
    }

    if !has_right {
        proof {
            assert forall|j: int| start <= j <= end implies #[trigger] collector.segments@[j]@
                == result[j - start] by {
                if j >= absolute_peak {
                    assert(result[j - start] == plateau[j - absolute_peak]);
                }
            }
        }
        return collector;
    }

    // going right, after the plateau
    let start_right = absolute_peak + n_adjacent_peaks;
    let right_pars = RecursorPars::new(
        water_right,
        start_right,
        end,
        new_left_edge_peaks,
        new_right_edge_peaks,
        nest + 1,
    );
    proof {
        assert(grounds@.subrange(start_right as int, end + 1) =~= right_g);
    }
    let r = recursor(right_pars, grounds, collector);
    proof {
        assert forall|j: int| start <= j <= end implies #[trigger] r.segments@[j]@
            == result[j - start] by {
            if j >= start_right {
                assert(result[j - start] == right_result[j - start_right]);
            } else if j >= absolute_peak {
                assert(result[j - start] == plateau[j - absolute_peak]);
            }
        }
    }
    r
}

/// The terrain `g` in reverse order.
fn reversed(g: &Vec<u64>) -> (r: Vec<u64>)
    ensures
        r@ == g@.reverse(),
{
    let n = g.len();
    let mut r: Vec<u64> = Vec::new();
    let mut k: usize = 0;
    while k < n
        invariant
            k <= n == g.len(),
            r@ =~= Seq::new(k as nat, |j: int| g@[n - 1 - j]),
        decreases n - k,
    {
        r.push(g[n - 1 - k]);
        k = k + 1;
    }
    assert(r@ =~= g@.reverse());
    r
}

/// Solves a problem with the levelling algorithm: one pass over the terrain
/// and one over the reversed terrain, averaged column by column.
pub fn raise(p: Problem) -> (r: Solution)
    requires
        p.wf(),
    ensures
        r.describes(averaged_levels(p.grounds@, frac_of_int(p.water_tot as int)), p.grounds@),
{
    let n = p.groundsize;
    let ghost g = p.grounds@;
    let ghost water = frac_of_int(p.water_tot as int);

    // the pass over the terrain as it is
    let collector0 = Collector::new(n);
    let recursor_pars = RecursorPars::new(Ratio::from_u64(p.water_tot), 0, n - 1, 0, 0, 0);
    let collector = recursor(recursor_pars, &p.grounds, collector0);
    let Collector { segments } = collector;

    // the pass over the reversed terrain
    let rev_grounds = reversed(&p.grounds);
    let rev_pars = RecursorPars::new(Ratio::from_u64(p.water_tot), 0, n - 1, 0, 0, 0);
    let rev_coll0 = Collector::new(n);
    let rev_collector = recursor(rev_pars, &rev_grounds, rev_coll0);

    proof {
        assert(g.subrange(0, n as int) =~= g);
        assert(rev_grounds@.subrange(0, n as int) =~= rev_grounds@);
        lemma_averaged_rests_on_ground(g, water);
    }

    // then average the results of both passes
    let mut average_levels: Vec<Ratio> = Vec::new();
    let mut k: usize = 0;
    while k < n
        invariant
            k <= n == g.len(),
            segments.len() == n,
            rev_collector.segments.len() == n,
            forall|j: int| 0 <= j < n ==> #[trigger] segments@[j]@ == single_pass(g, water)[j],
            forall|j: int|
                0 <= j < n ==> #[trigger] rev_collector.segments@[j]@ == single_pass(
                    g.reverse(),
                    water,
                )[j],
            values(average_levels@) =~= averaged_levels(g, water).subrange(
                0,
                k as int,
            ),
        decreases n - k,
    {
        let level = rev_collector.segments[n - 1 - k].mean(&segments[k]);
        let ghost before = values(average_levels@);
        proof {
            assert(level@ == averaged_levels(g, water)[k as int]);
        }
        average_levels.push(level);
        proof {
            assert(values(average_levels@) =~= before.push(level@));
            let avg = averaged_levels(g, water);
            assert(avg.subrange(0, k + 1) =~= avg.subrange(0, k as int).push(level@));
        }
        k = k + 1;
    }
    proof {
        assert(averaged_levels(g, water).subrange(0, n as int) =~= averaged_levels(g, water));
    }
    Solution::assemble(average_levels, p.grounds.as_slice())
}

} // verus!
