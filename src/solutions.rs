//! Solutions, the classification of problems, and the closed-form solvers of
//! the trivial classes.

use vstd::prelude::*;
use crate::algorithm::{
    averaged_levels, lemma_averaged_at_brim, lemma_averaged_rests_on_ground,
    lemma_settle_conserves, lemma_settle_rests_on_ground, raise, single_pass,
};
use crate::natural::Natural;
use crate::problem::Problem;
use crate::terrain::{
    ground_sum, lemma_ground_sum_bounded, lemma_ground_sum_reverse, lemma_peak_index, max_height,
};
use crate::ratio::{
    Frac, Ratio, frac_add, frac_eqv, frac_half, frac_lt, frac_mean, frac_of_int, frac_scale,
    frac_sub, frac_wf, lemma_add_associative, lemma_add_commutative, lemma_add_interchange,
    lemma_add_ints, lemma_add_wf, lemma_add_zero, lemma_eqv_add, lemma_eqv_half,
    lemma_eqv_transitive, lemma_half_add, lemma_half_twice, lemma_mean_wf,
};

verus! {

/// The values of a sequence of ratios.
pub open spec fn values(v: Seq<Ratio>) -> Seq<Frac> {
    v.map_values(|r: Ratio| r@)
}

/// The values of a pushed sequence.
pub proof fn lemma_values_push(v: Seq<Ratio>, x: Ratio)
    ensures
        values(v.push(x)) == values(v).push(x@),
{
    assert(values(v.push(x)) =~= values(v).push(x@));
}

/// The sum of `s`, added from the first element on, starting at zero.
pub open spec fn frac_total(s: Seq<Frac>) -> Frac
    decreases s.len(),
{
    if s.len() == 0 {
        frac_of_int(0)
    } else {
        frac_add(frac_total(s.drop_last()), s.last())
    }
}

/// `n` copies of `x`.
pub open spec fn frac_repeat(n: nat, x: Frac) -> Seq<Frac> {
    Seq::new(n, |k: int| x)
}

/// The means of `x` and `y`, term by term.
pub open spec fn frac_means(x: Seq<Frac>, y: Seq<Frac>) -> Seq<Frac> {
    Seq::new(x.len(), |k: int| frac_mean(x[k], y[k]))
}

/// Totals add over concatenation.
pub proof fn lemma_total_concat(a: Seq<Frac>, b: Seq<Frac>)
    ensures
        frac_total(a + b) == frac_add(frac_total(a), frac_total(b)),
    decreases b.len(),
{
    if b.len() == 0 {
        assert(a + b =~= a);
        lemma_add_zero(frac_total(a));
    } else {
        lemma_total_concat(a, b.drop_last());
        assert((a + b).drop_last() =~= a + b.drop_last());
        lemma_add_associative(frac_total(a), frac_total(b.drop_last()), b.last());
    }
}

/// A total of well-formed fractions is well-formed.
pub proof fn lemma_total_wf(s: Seq<Frac>)
    requires
        forall|k: int| 0 <= k < s.len() ==> frac_wf(#[trigger] s[k]),
    ensures
        frac_wf(frac_total(s)),
    decreases s.len(),
{
    if s.len() > 0 {
        let d = s.drop_last();
        assert forall|k: int| 0 <= k < d.len() implies frac_wf(#[trigger] d[k]) by {
            assert(d[k] == s[k]);
        }
        lemma_total_wf(d);
        lemma_add_wf(frac_total(d), s.last());
    }
}

/// `n` copies of `x` add up to `n * x`.
pub proof fn lemma_total_constant(n: nat, x: Frac)
    requires
        x.den > 0,
    ensures
        frac_eqv(frac_total(frac_repeat(n, x)), Frac { num: n * x.num, den: x.den }),
    decreases n,
{
    let s = frac_repeat(n, x);
    if n > 0 {
        let d = frac_repeat((n - 1) as nat, x);
        assert(s.drop_last() =~= d);
        lemma_total_constant((n - 1) as nat, x);
        let before = Frac { num: (n - 1) * x.num, den: x.den };
        lemma_eqv_add(frac_total(d), before, x, x);
        let mid = frac_add(before, x);
        assert(mid.den > 0) by (nonlinear_arith)
            requires
                mid.den == x.den * x.den,
                x.den > 0,
        ;
        assert(mid.num * x.den == n * x.num * mid.den) by (nonlinear_arith)
            requires
                mid.num == (n - 1) * x.num * x.den + x.num * x.den,
                mid.den == x.den * x.den,
        ;
        assert(s.last() == x);
        assert(frac_total(s) == frac_add(frac_total(d), x));
        assert(frac_eqv(frac_total(s), mid));
        assert(frac_eqv(mid, Frac { num: n * x.num, den: x.den }));
        lemma_eqv_transitive(frac_total(s), mid, Frac { num: n * x.num, den: x.den });
        assert(frac_eqv(frac_total(s), Frac { num: n * x.num, den: x.den }));
    } else {
        assert(s.len() == 0);
        assert(n * x.num == 0) by (nonlinear_arith)
            requires
                n == 0,
        ;
        let t = frac_total(s);
        assert(t == frac_of_int(0));
        assert(t.num * x.den == (n * x.num) * t.den) by (nonlinear_arith)
            requires
                t.num == 0,
                n * x.num == 0,
        ;
    }
}

/// Reversal keeps the total.
pub proof fn lemma_total_reverse(s: Seq<Frac>)
    ensures
        frac_total(s.reverse()) == frac_total(s),
    decreases s.len(),
{
    if s.len() > 0 {
        let d = s.drop_last();
        let one = seq![s.last()];
        lemma_total_reverse(d);
        assert(s.reverse() =~= one + d.reverse());
        lemma_total_concat(one, d.reverse());
        assert(one.drop_last() =~= Seq::<Frac>::empty());
        assert(frac_total(one.drop_last()) == frac_of_int(0));
        assert(one.last() == s.last());
        lemma_add_zero(s.last());
        assert(frac_total(one) == s.last());
        lemma_add_commutative(s.last(), frac_total(d));
    } else {
        assert(s.reverse() =~= s);
    }
}

/// The means of two sequences, term by term, add up to half the sum of both.
pub proof fn lemma_total_means(x: Seq<Frac>, y: Seq<Frac>)
    requires
        x.len() == y.len(),
        forall|k: int| 0 <= k < x.len() ==> frac_wf(#[trigger] x[k]),
        forall|k: int| 0 <= k < y.len() ==> frac_wf(#[trigger] y[k]),
    ensures
        frac_eqv(
            frac_total(frac_means(x, y)),
            frac_half(frac_add(frac_total(x), frac_total(y))),
        ),
    decreases x.len(),
{
    let m = frac_means(x, y);
    if x.len() > 0 {
        let xd = x.drop_last();
        let yd = y.drop_last();
        let md = frac_means(xd, yd);
        assert(m.drop_last() =~= md);
        assert forall|k: int| 0 <= k < xd.len() implies frac_wf(#[trigger] xd[k]) by {
            assert(xd[k] == x[k]);
        }
        assert forall|k: int| 0 <= k < yd.len() implies frac_wf(#[trigger] yd[k]) by {
            assert(yd[k] == y[k]);
        }
        lemma_total_means(xd, yd);
        let tx = frac_total(xd);
        let ty = frac_total(yd);
        let a = x.last();
        let b = y.last();
        assert(x.last() == x[x.len() - 1]);
        assert(y.last() == y[y.len() - 1]);
        lemma_total_wf(xd);
        lemma_total_wf(yd);
        assert forall|k: int| 0 <= k < md.len() implies frac_wf(#[trigger] md[k]) by {
            lemma_mean_wf(xd[k], yd[k]);
        }
        lemma_total_wf(md);
        assert(m.last() == frac_mean(a, b));
        // total(m) = total(md) + mean(a, b), and mean(a, b) is half of a + b
        assert(frac_mean(a, b) == frac_half(frac_add(a, b)));
        lemma_eqv_add(frac_total(md), frac_half(frac_add(tx, ty)), frac_mean(a, b), frac_half(frac_add(a, b)));
        let mid1 = frac_add(frac_half(frac_add(tx, ty)), frac_half(frac_add(a, b)));
        lemma_half_add(frac_add(tx, ty), frac_add(a, b));
        lemma_add_interchange(tx, ty, a, b);
        lemma_add_wf(tx, ty);
        lemma_add_wf(a, b);
        let h1 = frac_half(frac_add(tx, ty));
        let h2 = frac_half(frac_add(a, b));
        assert(frac_wf(h1) && frac_wf(h2));
        lemma_add_wf(h1, h2);
        assert(frac_eqv(frac_total(md), frac_half(frac_add(tx, ty))));
        assert(frac_total(m) == frac_add(frac_total(md), frac_mean(a, b)));
        assert(frac_eqv(frac_total(m), mid1));
        assert(frac_eqv(mid1, frac_half(frac_add(frac_add(tx, ty), frac_add(a, b)))));
        lemma_eqv_transitive(
            frac_total(m),
            mid1,
            frac_half(frac_add(frac_add(tx, ty), frac_add(a, b))),
        );
        assert(frac_total(x) == frac_add(tx, a));
        assert(frac_total(y) == frac_add(ty, b));
        assert(frac_add(frac_add(tx, ty), frac_add(a, b)) == frac_add(frac_total(x), frac_total(y)));
    } else {
        assert(m.len() == 0);
        let t = frac_total(m);
        let u = frac_half(frac_add(frac_total(x), frac_total(y)));
        assert(t == frac_of_int(0));
        assert(frac_total(x) == frac_of_int(0));
        assert(frac_total(y) == frac_of_int(0));
        assert(u.num == 0);
        assert(t.num * u.den == u.num * t.den) by (nonlinear_arith)
            requires
                t.num == 0,
                u.num == 0,
        ;
    }
}

/// The depths of water and the grounds add up to the levels.
pub proof fn lemma_total_covers(levels: Seq<Frac>, grounds: Seq<u64>)
    requires
        rests_on_ground(levels, grounds),
    ensures
        frac_eqv(
            frac_add(frac_total(covers_of(levels, grounds)), frac_of_int(ground_sum(grounds))),
            frac_total(levels),
        ),
    decreases levels.len(),
{
    let c = covers_of(levels, grounds);
    if levels.len() == 0 {
        assert(c.len() == 0);
        assert(ground_sum(grounds) == 0);
    } else {
        let ld = levels.drop_last();
        let gd = grounds.drop_last();
        assert(c.drop_last() =~= covers_of(ld, gd));
        assert forall|k: int| 0 <= k < ld.len() implies frac_wf(#[trigger] ld[k]) && !frac_lt(
            ld[k],
            frac_of_int(gd[k] as int),
        ) by {
            assert(ld[k] == levels[k]);
            assert(gd[k] == grounds[k]);
        }
        lemma_total_covers(ld, gd);
        let tc = frac_total(covers_of(ld, gd));
        let sd = frac_of_int(ground_sum(gd));
        let l = levels.last();
        let g = frac_of_int(grounds.last() as int);
        let cl = c.last();
        assert(cl == frac_sub(l, g));
        assert(frac_add(cl, g) == l);
        lemma_add_ints(ground_sum(gd), grounds.last() as int);
        lemma_add_interchange(tc, cl, sd, g);
        lemma_eqv_add(frac_add(tc, sd), frac_total(ld), l, l);
    }
}

/// A total depth that, with the ground volume, makes `w + s` is `w`.
pub proof fn lemma_total_cancel(t: Frac, s: int, w: int)
    requires
        t.den > 0,
        frac_eqv(frac_add(t, frac_of_int(s)), frac_of_int(w + s)),
    ensures
        frac_eqv(t, frac_of_int(w)),
{
    assert(t.num * 1 == w * t.den) by (nonlinear_arith)
        requires
            (t.num * 1 + s * t.den) * 1 == (w + s) * (t.den * 1),
    ;
}

/// The water depth on each column: level minus ground.
pub open spec fn covers_of(levels: Seq<Frac>, grounds: Seq<u64>) -> Seq<Frac> {
    Seq::new(levels.len(), |k: int| frac_sub(levels[k], frac_of_int(grounds[k] as int)))
}

/// Every level is a well-formed fraction at or above its column's ground.
pub open spec fn rests_on_ground(levels: Seq<Frac>, grounds: Seq<u64>) -> bool {
    &&& levels.len() == grounds.len()
    &&& forall|k: int|
        0 <= k < levels.len() ==> frac_wf(#[trigger] levels[k]) && !frac_lt(
            levels[k],
            frac_of_int(grounds[k] as int),
        )
}

/// Resting levels of a terrain, the water on each column, and the total water.
pub struct Solution {
    /// Water or ground level per column, whichever is higher.
    pub levels: Vec<Ratio>,
    /// Depth of water per column.
    pub water_covers: Vec<Ratio>,
    /// Sum of the depths of water.
    pub water_tot: Ratio,
}

/// Why levels and grounds do not make a solution.
#[derive(Debug, PartialEq, Eq, Structural)]
pub enum SolutionError {
    /// Levels and grounds differ in number.
    LengthMismatch,
    /// A level lies below its column's ground.
    BelowGround,
}

impl Solution {
    /// The solution has `levels` over `grounds`, with the depths and total
    /// that follow from them.
    pub open spec fn describes(&self, levels: Seq<Frac>, grounds: Seq<u64>) -> bool {
        &&& values(self.levels@) == levels
        &&& values(self.water_covers@) == covers_of(levels, grounds)
        &&& self.water_tot@ == frac_total(covers_of(levels, grounds))
    }

    pub(crate) fn assemble(levels: Vec<Ratio>, grounds: &[u64]) -> (r: Solution)
        requires
            rests_on_ground(values(levels@), grounds@),
        ensures
            r.describes(values(levels@), grounds@),
    {
        let ghost lv = values(levels@);
        let mut water_covers: Vec<Ratio> = Vec::new();
        let mut water_tot = Ratio::from_u64(0);
        let mut k: usize = 0;
        while k < levels.len()
            invariant
                k <= levels.len(),
                lv == values(levels@),
                rests_on_ground(lv, grounds@),
                values(water_covers@) == covers_of(lv, grounds@).subrange(0, k as int),
                water_tot@ == frac_total(covers_of(lv, grounds@).subrange(0, k as int)),
            decreases levels.len() - k,
        {
            assert(lv[k as int] == levels@[k as int]@);
            let cover = levels[k].sub(&Ratio::from_u64(grounds[k]));
            water_tot = water_tot.add(&cover);
            water_covers.push(cover);
            proof {
                let c = covers_of(lv, grounds@);
                assert(c.subrange(0, k + 1).drop_last() =~= c.subrange(0, k as int));
                assert(values(water_covers@) =~= c.subrange(0, k + 1));
            }
            k = k + 1;
        }
        proof {
            let c = covers_of(lv, grounds@);
            assert(c.subrange(0, c.len() as int) =~= c);
        }
        Solution { levels, water_covers, water_tot }
    }

    /// The solution with `levels` over `grounds`.
    pub fn new(levels: Vec<Ratio>, grounds: &[u64]) -> (r: Result<Solution, SolutionError>)
        ensures
            r == Err::<Solution, SolutionError>(SolutionError::LengthMismatch) <==> levels@.len()
                != grounds@.len(),
            r == Err::<Solution, SolutionError>(SolutionError::BelowGround) <==> levels@.len()
                == grounds@.len() && exists|k: int|
                0 <= k < levels@.len() && frac_lt(
                    #[trigger] levels@[k]@,
                    frac_of_int(grounds@[k] as int),
                ),
            r is Ok ==> r->Ok_0.describes(values(levels@), grounds@),
    {
        if levels.len() != grounds.len() {
            return Err(SolutionError::LengthMismatch);
        }
        let mut k: usize = 0;
        while k < levels.len()
            invariant
                k <= levels.len() == grounds.len(),
                forall|j: int|
                    0 <= j < k ==> !frac_lt(#[trigger] levels@[j]@, frac_of_int(grounds@[j] as int))
                        && frac_wf(levels@[j]@),
            decreases levels.len() - k,
        {
            if levels[k].lt(&Ratio::from_u64(grounds[k])) {
                return Err(SolutionError::BelowGround);
            }
            k = k + 1;
        }
        proof {
            assert forall|j: int| 0 <= j < levels@.len() implies frac_wf(
                #[trigger] values(levels@)[j],
            ) by {
                assert(values(levels@)[j] == levels@[j]@);
            }
        }
        Ok(Solution::assemble(levels, grounds))
    }
}

/// The solver that a problem calls for.
#[derive(Debug, Clone, Copy, PartialEq, Eq, Structural)]
pub enum Method {
    /// No rain: every column stays dry.
    Dry,
    /// Flat ground: the rain stays where it falls.
    Flat,
    /// Exactly enough water to fill every well to the highest column.
    Saturation,
    /// More water than that: one level above the highest column.
    Full,
    /// Anything else: the levelling algorithm.
    General,
}

/// The class of a problem, tried in this order: no rain, flat ground, water
/// at saturation, water above saturation, general.
pub open spec fn method_of(p: Problem) -> Method {
    if p.water_0 == 0 {
        Method::Dry
    } else if p.ground_max == p.ground_min {
        Method::Flat
    } else if p.water_tot == p.saturation_water {
        Method::Saturation
    } else if p.water_tot > p.saturation_water {
        Method::Full
    } else {
        Method::General
    }
}

/// The levels that `method` gives for `p`.
pub open spec fn method_levels(method: Method, p: Problem) -> Seq<Frac> {
    let g = p.grounds@;
    let n = g.len() as int;
    match method {
        Method::Dry => Seq::new(g.len(), |k: int| frac_of_int(g[k] as int)),
        Method::Flat => Seq::new(g.len(), |k: int| frac_of_int(g[k] + p.water_0)),
        Method::Saturation => Seq::new(g.len(), |k: int| frac_of_int(p.ground_max as int)),
        Method::Full => Seq::new(
            g.len(),
            |k: int|
                frac_add(
                    frac_of_int(p.ground_max as int),
                    frac_scale(frac_of_int(p.water_tot - p.saturation_water), 1, n),
                ),
        ),
        Method::General => averaged_levels(g, frac_of_int(p.water_tot as int)),
    }
}

/// The name of a class of problems.
pub open spec fn method_name(method: Method) -> Seq<char> {
    match method {
        Method::Dry => "dry"@,
        Method::Flat => "flat_ground"@,
        Method::Saturation => "saturation"@,
        Method::Full => "above_saturation"@,
        Method::General => "general"@,
    }
}

/// The solver for `problem`.
pub fn select_fn(problem: &Problem) -> (r: Method)
    ensures
        r == method_of(*problem),
{
    // zero days of rain
    if problem.water_0 == 0 {
        return Method::Dry;
    }
    // flat world profile
    if problem.ground_max == problem.ground_min {
        return Method::Flat;
    }
    // saturation, water level equal to highest land
    if problem.water_tot == problem.saturation_water {
        return Method::Saturation;
    }
    // land is entirely under water
    if problem.water_tot > problem.saturation_water {
        return Method::Full;
    }
    // function for general case
    Method::General
}

/// The name of the class of `problem`.
pub fn categorise(problem: Problem) -> (r: &'static str)
    ensures
        r@ == method_name(method_of(problem)),
{
    let name = match select_fn(&problem) {
        Method::Dry => "dry",
        Method::Flat => "flat_ground",
        Method::Saturation => "saturation",
        Method::Full => "above_saturation",
        Method::General => "general",
    };
    name
}

impl Method {
    /// Solves `p`, which must be of this class.
    pub fn solve(&self, p: Problem) -> (r: Solution)
        requires
            p.wf(),
            *self == method_of(p),
        ensures
            r.describes(method_levels(*self, p), p.grounds@),
    {
        match self {
            Method::Dry => dry(p),
            Method::Flat => flat(p),
            Method::Saturation => saturation(p),
            Method::Full => full(p),
            Method::General => raise(p),
        }
    }
}

// trivial solver for a dry world
fn dry(p: Problem) -> (r: Solution)
    requires
        p.wf(),
    ensures
        r.describes(method_levels(Method::Dry, p), p.grounds@),
{
    let ghost target = method_levels(Method::Dry, p);
    let mut levels: Vec<Ratio> = Vec::new();
    let mut k: usize = 0;
    while k < p.grounds.len()
        invariant
            k <= p.grounds.len(),
            target == method_levels(Method::Dry, p),
            values(levels@) =~= target.subrange(0, k as int),
        decreases p.grounds.len() - k,
    {
        let item = Ratio::from_u64(p.grounds[k]);
        proof {
            lemma_values_push(levels@, item);
            assert(target.subrange(0, k + 1) =~= target.subrange(0, k as int).push(item@));
        }
        levels.push(item);
        k = k + 1;
    }
    assert(target.subrange(0, k as int) =~= target);
    Solution::assemble(levels, p.grounds.as_slice())
}

// trivial solver for a flat world
fn flat(p: Problem) -> (r: Solution)
    requires
        p.wf(),
    ensures
        r.describes(method_levels(Method::Flat, p), p.grounds@),
{
    let ghost target = method_levels(Method::Flat, p);
    let mut levels: Vec<Ratio> = Vec::new();
    let mut k: usize = 0;
    while k < p.grounds.len()
        invariant
            k <= p.grounds.len(),
            target == method_levels(Method::Flat, p),
            values(levels@) =~= target.subrange(0, k as int),
        decreases p.grounds.len() - k,
    {
        let level = Natural::from_u64(p.grounds[k]).add(&Natural::from_u64(p.water_0));
        let item = Ratio::from_natural(level);
        proof {
            lemma_values_push(levels@, item);
            assert(target.subrange(0, k + 1) =~= target.subrange(0, k as int).push(item@));
        }
        levels.push(item);
        k = k + 1;
    }
    assert(target.subrange(0, k as int) =~= target);
    Solution::assemble(levels, p.grounds.as_slice())
}

// the world is filled up to the level of highest ground
fn saturation(p: Problem) -> (r: Solution)
    requires
        p.wf(),
    ensures
        r.describes(method_levels(Method::Saturation, p), p.grounds@),
{
    let ghost target = method_levels(Method::Saturation, p);
    proof {
        lemma_peak_index(p.grounds@);
    }
    let mut levels: Vec<Ratio> = Vec::new();
    let mut k: usize = 0;
    while k < p.grounds.len()
        invariant
            k <= p.grounds.len(),
            p.wf(),
            target == method_levels(Method::Saturation, p),
            values(levels@) =~= target.subrange(0, k as int),
        decreases p.grounds.len() - k,
    {
        let item = Ratio::from_u64(p.ground_max);
        proof {
            lemma_values_push(levels@, item);
            assert(target.subrange(0, k + 1) =~= target.subrange(0, k as int).push(item@));
        }
        levels.push(item);
        k = k + 1;
    }
    assert(target.subrange(0, k as int) =~= target);
    Solution::assemble(levels, p.grounds.as_slice())
}

// the world is filled above saturation
fn full(p: Problem) -> (r: Solution)
    requires
        p.wf(),
        p.water_tot > p.saturation_water,
    ensures
        r.describes(method_levels(Method::Full, p), p.grounds@),
{
    let ghost target = method_levels(Method::Full, p);
    let n = p.groundsize;
    let water_extra = p.water_tot - p.saturation_water;
    let rise = Ratio::from_u64(water_extra).scale(&Natural::from_u64(1), &Natural::from_u64(n as u64));
    let level = Ratio::from_u64(p.ground_max).add(&rise);
    proof {
        lemma_peak_index(p.grounds@);
        let m = p.ground_max as int;
        let e = water_extra as int;
        let nn = n as int;
        assert forall|k: int| 0 <= k < nn implies frac_wf(#[trigger] target[k]) && !frac_lt(
            target[k],
            frac_of_int(p.grounds@[k] as int),
        ) by {
            let h = p.grounds@[k] as int;
            assert(target[k] == level@);
            assert(m * (1 * nn) + e * 1 * 1 >= h * (1 * (1 * nn))) by (nonlinear_arith)
                requires
                    h <= m,
                    e >= 0,
                    nn > 0,
            ;
        }
    }
    let mut levels: Vec<Ratio> = Vec::new();
    let mut k: usize = 0;
    while k < n
        invariant
            k <= n == p.grounds.len(),
            level@ == target[0],
            forall|j: int| 0 <= j < n ==> #[trigger] target[j] == level@,
            target == method_levels(Method::Full, p),
            values(levels@) =~= target.subrange(0, k as int),
        decreases n - k,
    {
        let item = level.copy();
        proof {
            lemma_values_push(levels@, item);
            assert(target.subrange(0, k + 1) =~= target.subrange(0, k as int).push(item@));
        }
        levels.push(item);
        k = k + 1;
    }
    assert(target.subrange(0, k as int) =~= target);
    Solution::assemble(levels, p.grounds.as_slice())
}

/// Solving one problem twice gives the same solution: the same levels,
/// depths of water and total.
pub proof fn lemma_solve_deterministic(p: Problem, a: Solution, b: Solution)
    requires
        p.wf(),
        a.describes(method_levels(method_of(p), p), p.grounds@),
        b.describes(method_levels(method_of(p), p), p.grounds@),
    ensures
        values(a.levels@) == values(b.levels@),
        values(a.water_covers@) == values(b.water_covers@),
        a.water_tot@ == b.water_tot@,
{
}

/// At exact saturation the levelling algorithm agrees with the closed form:
/// every column rests at the height of the highest column.
pub proof fn lemma_saturation_agrees(p: Problem)
    requires
        p.wf(),
        p.water_tot == p.saturation_water,
    ensures
        forall|k: int|
            0 <= k < p.grounds.len() ==> frac_eqv(
                #[trigger] method_levels(Method::General, p)[k],
                frac_of_int(p.ground_max as int),
            ) && method_levels(Method::Saturation, p)[k] == frac_of_int(p.ground_max as int),
{
    let g = p.grounds@;
    let h = p.ground_max as int;
    lemma_peak_index(g);
    lemma_ground_sum_bounded(g, h);
    assert(h * g.len() == g.len() * h) by (nonlinear_arith);
    assert(frac_of_int(p.water_tot as int) == frac_of_int(h * g.len() - ground_sum(g)));
    lemma_averaged_at_brim(g, h);
}

/// Grounds raised by `c` add up to the ground volume and `c` per column.
proof fn lemma_total_raised(g: Seq<u64>, c: int)
    ensures
        frac_total(Seq::new(g.len(), |k: int| frac_of_int(g[k] + c))) == frac_of_int(
            ground_sum(g) + g.len() * c,
        ),
    decreases g.len(),
{
    let s = Seq::new(g.len(), |k: int| frac_of_int(g[k] + c));
    if g.len() > 0 {
        let d = g.drop_last();
        assert(s.drop_last() =~= Seq::new(d.len(), |k: int| frac_of_int(d[k] + c)));
        lemma_total_raised(d, c);
        lemma_add_ints(ground_sum(d) + d.len() * c, g.last() + c);
        assert(d.len() * c + c == g.len() * c) by (nonlinear_arith)
            requires
                g.len() == d.len() + 1,
        ;
    } else {
        assert(s.len() == 0);
        assert(g.len() * c == 0) by (nonlinear_arith)
            requires
                g.len() == 0,
        ;
    }
}

/// Levels that rest on the ground and add up to the water and the ground
/// leave exactly the water on the ground.
proof fn lemma_covers_hold_water(levels: Seq<Frac>, g: Seq<u64>, w: int)
    requires
        rests_on_ground(levels, g),
        frac_eqv(frac_total(levels), frac_of_int(w + ground_sum(g))),
    ensures
        frac_eqv(frac_total(covers_of(levels, g)), frac_of_int(w)),
{
    let c = covers_of(levels, g);
    assert forall|k: int| 0 <= k < c.len() implies frac_wf(#[trigger] c[k]) by {
        assert(c[k] == frac_sub(levels[k], frac_of_int(g[k] as int)));
    }
    lemma_total_wf(c);
    lemma_total_wf(levels);
    lemma_total_covers(levels, g);
    lemma_add_wf(frac_total(c), frac_of_int(0));
    lemma_eqv_transitive(
        frac_add(frac_total(c), frac_of_int(ground_sum(g))),
        frac_total(levels),
        frac_of_int(w + ground_sum(g)),
    );
    lemma_total_cancel(frac_total(c), ground_sum(g), w);
}

/// Every solver conserves water: the depths of water of its solution add up
/// to the water that fell.
pub proof fn lemma_water_conserved(p: Problem)
    requires
        p.wf(),
    ensures
        frac_eqv(
            frac_total(covers_of(method_levels(method_of(p), p), p.grounds@)),
            frac_of_int(p.water_tot as int),
        ),
{
    let g = p.grounds@;
    let n = g.len() as int;
    let sum = ground_sum(g);
    let w = p.water_tot as int;
    let h = p.ground_max as int;
    let method = method_of(p);
    let levels = method_levels(method, p);
    lemma_peak_index(g);
    lemma_ground_sum_bounded(g, h);
    assert(h * n == n * h) by (nonlinear_arith);
    assert(w == p.water_0 * n);
    match method {
        Method::Dry => {
            lemma_total_raised(g, 0);
            assert(levels =~= Seq::new(g.len(), |k: int| frac_of_int(g[k] + 0)));
            assert(w == 0) by (nonlinear_arith)
                requires
                    w == p.water_0 * n,
                    p.water_0 == 0,
            ;
        },
        Method::Flat => {
            lemma_total_raised(g, p.water_0 as int);
            assert(n * p.water_0 == w) by (nonlinear_arith)
                requires
                    w == p.water_0 * n,
            ;
        },
        Method::Saturation => {
            assert(levels =~= frac_repeat(n as nat, frac_of_int(h)));
            lemma_total_constant(n as nat, frac_of_int(h));
        },
        Method::Full => {
            let extra = w - p.saturation_water;
            let level = frac_add(frac_of_int(h), frac_scale(frac_of_int(extra), 1, n));
            assert(levels =~= frac_repeat(n as nat, level));
            assert(level.den == n);
            assert(level.num == h * n + extra);
            lemma_total_constant(n as nat, level);
            assert(n * level.num * 1 == (w + sum) * level.den) by (nonlinear_arith)
                requires
                    level.num == h * n + extra,
                    level.den == n,
                    extra == w - (n * h - sum),
            ;
            lemma_total_wf(levels);
            lemma_eqv_transitive(
                frac_total(levels),
                Frac { num: n * level.num, den: level.den },
                frac_of_int(w + sum),
            );
        },
        Method::General => {
            let water = frac_of_int(w);
            let rev = g.reverse();
            let forward = single_pass(g, water);
            let backward = single_pass(rev, water);
            let volume = frac_of_int(w + sum);
            lemma_ground_sum_reverse(g);
            lemma_settle_conserves(g, water, true, true, 0, 0);
            lemma_settle_conserves(rev, water, true, true, 0, 0);
            lemma_settle_rests_on_ground(g, water, true, true, 0, 0);
            lemma_settle_rests_on_ground(rev, water, true, true, 0, 0);
            lemma_total_reverse(backward);
            let back = backward.reverse();
            assert(levels =~= frac_means(back, forward));
            assert forall|k: int| 0 <= k < back.len() implies frac_wf(#[trigger] back[k]) by {
                assert(back[k] == backward[n - 1 - k]);
            }
            lemma_total_means(back, forward);
            let tb = frac_total(backward);
            let tf = frac_total(forward);
            lemma_total_wf(backward);
            lemma_total_wf(forward);
            lemma_eqv_add(tb, volume, tf, volume);
            lemma_eqv_half(frac_add(tb, tf), frac_add(volume, volume));
            lemma_half_twice(volume);
            lemma_add_wf(tb, tf);
            lemma_add_wf(volume, volume);
            lemma_eqv_transitive(
                frac_total(levels),
                frac_half(frac_add(tb, tf)),
                frac_half(frac_add(volume, volume)),
            );
            lemma_eqv_transitive(frac_total(levels), frac_half(frac_add(volume, volume)), volume);
        },
    }
    lemma_levels_rest(p);
    lemma_covers_hold_water(levels, g, w);
}

/// The levels of every solver rest on the ground.
pub proof fn lemma_levels_rest(p: Problem)
    requires
        p.wf(),
    ensures
        rests_on_ground(method_levels(method_of(p), p), p.grounds@),
{
    let g = p.grounds@;
    let n = g.len() as int;
    let levels = method_levels(method_of(p), p);
    lemma_peak_index(g);
    lemma_ground_sum_bounded(g, p.ground_max as int);
    match method_of(p) {
        Method::Full => {
            let m = p.ground_max as int;
            let e = p.water_tot - p.saturation_water;
            assert forall|k: int| 0 <= k < n implies frac_wf(#[trigger] levels[k]) && !frac_lt(
                levels[k],
                frac_of_int(g[k] as int),
            ) by {
                let hk = g[k] as int;
                assert(m * (1 * n) + e * 1 * 1 >= hk * (1 * (1 * n))) by (nonlinear_arith)
                    requires
                        hk <= m,
                        e >= 0,
                        n > 0,
                ;
            }
        },
        Method::General => {
            lemma_averaged_rests_on_ground(g, frac_of_int(p.water_tot as int));
        },
        Method::Dry => {
            assert forall|k: int| 0 <= k < n implies frac_wf(#[trigger] levels[k]) && !frac_lt(
                levels[k],
                frac_of_int(g[k] as int),
            ) by {
                assert(g[k] <= p.ground_max);
            }
        },
        Method::Flat => {
            assert forall|k: int| 0 <= k < n implies frac_wf(#[trigger] levels[k]) && !frac_lt(
                levels[k],
                frac_of_int(g[k] as int),
            ) by {
                assert(g[k] <= p.ground_max);
            }
        },
        Method::Saturation => {
            assert forall|k: int| 0 <= k < n implies frac_wf(#[trigger] levels[k]) && !frac_lt(
                levels[k],
                frac_of_int(g[k] as int),
            ) by {
                assert(g[k] <= p.ground_max);
            }
        },
    }
}

} // verus!
