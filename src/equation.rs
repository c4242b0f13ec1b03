//! The levelling equation: how far a range is from saturation when its ground
//! is shifted by a lift `x` and it holds a given volume of water.

use vstd::prelude::*;
use crate::natural::Natural;
use crate::ratio::{Frac, Ratio, frac_add, frac_of_int, frac_scale, frac_sub};
use crate::terrain::{find_peak, max_height};

verus! {

/// A fraction with a sign: `magnitude`, negated when `negative`.
pub struct SignedRatio {
    pub negative: bool,
    pub magnitude: Ratio,
}

impl View for SignedRatio {
    type V = Frac;

    open spec fn view(&self) -> Frac {
        if self.negative {
            Frac { num: -self.magnitude@.num, den: self.magnitude@.den }
        } else {
            self.magnitude@
        }
    }
}

/// The ground mass of `g` above the baseline once every column is shifted by
/// `x`: the sum of `max(0, x + h)`, over the denominator `x.den`.
pub open spec fn displaced_num(g: Seq<u64>, x: Frac) -> int
    decreases g.len(),
{
    if g.len() == 0 {
        0
    } else {
        let t = x.num + g.last() * x.den;
        displaced_num(g.drop_last(), x) + if t > 0 {
            t
        } else {
            0
        }
    }
}

/// The residual of the levelling equation of `g` with `water` at lift `x`.
///
/// A lift at or above zero is its own residual, which pushes a search back
/// down. Below zero the residual is the level of the lifted highest column
/// less the mean of the displaced ground and the water: zero exactly when the
/// water fills the range to its highest column.
pub open spec fn levelling_residual(x: Frac, water: Frac, g: Seq<u64>) -> Frac {
    if x.num >= 0 {
        x
    } else {
        let displaced = Frac { num: displaced_num(g, x), den: x.den };
        let underwater = frac_add(x, frac_of_int(max_height(g) as int));
        frac_sub(underwater, frac_scale(frac_add(displaced, water), 1, g.len() as int))
    }
}

/// The residual of the levelling equation of `grounds` with `water` at lift
/// `x`.
pub fn levelling_equation(x: &SignedRatio, water: &Ratio, grounds: &Vec<u64>) -> (r: SignedRatio)
    requires
        grounds.len() >= 1,
    ensures
        r@ == levelling_residual(x@, water@, grounds@),
{
    let a = x.magnitude.numerator();
    let b = x.magnitude.denominator();
    if !x.negative || !Natural::zero().lt(a) {
        return SignedRatio { negative: x.negative, magnitude: x.magnitude.copy() };
    }
    // here x = -a / b with a > 0
    let ghost xv = x@;
    let n = grounds.len();
    let mut displaced = Natural::zero();
    let mut k: usize = 0;
    assert(grounds@.subrange(0, 0).len() == 0);
    while k < n
        invariant
            k <= n == grounds.len(),
            xv == x@,
            xv.num == -(a@ as int),
            xv.den == b@ as int,
            displaced@ == displaced_num(grounds@.subrange(0, k as int), xv),
        decreases n - k,
    {
        assert(grounds@.subrange(0, k + 1).drop_last() =~= grounds@.subrange(0, k as int));
        let column = Natural::from_u64(grounds[k]).mul(b);
        if a.lt(&column) {
            displaced = displaced.add(&column.sub(a));
        }
        k = k + 1;
    }
    let one = Natural::from_u64(1);
    let peak = grounds[find_peak(grounds, 0, n)];
    let brim = Natural::from_u64(peak).mul(b);
    // (displaced + water) / n
    let water_den = water.denominator();
    let share_num = displaced.mul(water_den).add(&water.numerator().mul(b)).mul(&one);
    let share_den = b.mul(water_den).mul(&Natural::from_u64(n as u64));
    // underwater = (brim - a) / (b * 1), then the difference of both fractions
    let under_den = b.mul(&one);
    let den = under_den.mul(&share_den);
    proof {
        let bd = b@ as int;
        let wd = water_den@ as int;
        let nn = n as int;
        assert(bd * 1 * (bd * wd * nn) > 0) by (nonlinear_arith)
            requires
                bd > 0,
                wd > 0,
                nn > 0,
        ;
    }
    let taken = share_num.mul(&under_den);
    let ghost expected = levelling_residual(x@, water@, grounds@);
    let ghost sd = share_den@ as int;
    let ghost under = -(a@ as int) * 1 + peak * (b@ as int);
    proof {
        assert(grounds@.subrange(0, n as int) =~= grounds@);
        assert(expected.num == under * sd - share_num@ * under_den@);
        assert(expected.den == den@);
    }
    if !brim.lt(a) {
        let kept = brim.sub(a).mul(&share_den);
        assert(kept@ == under * sd);
        if !kept.lt(&taken) {
            SignedRatio { negative: false, magnitude: Ratio::new(kept.sub(&taken), den) }
        } else {
            SignedRatio { negative: true, magnitude: Ratio::new(taken.sub(&kept), den) }
        }
    } else {
        let lost = a.sub(&brim).mul(&share_den);
        assert(lost@ == -(under * sd)) by (nonlinear_arith)
            requires
                lost@ == (a@ - brim@) * sd,
                under == -(a@ as int) * 1 + brim@,
        ;
        SignedRatio { negative: true, magnitude: Ratio::new(lost.add(&taken), den) }
    }
}

} // verus!
