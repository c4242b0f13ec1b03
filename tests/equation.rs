use rain::equation::{levelling_equation, SignedRatio};
use rain::natural::Natural;
use rain::ratio::Ratio;

fn value(n: &Natural) -> i128 {
    let mut v: i128 = 0;
    for limb in n.to_limbs().iter().rev() {
        v = (v << 32) + *limb as i128;
    }
    v
}

// a signed ratio as a reduced pair (numerator, denominator)
fn reduced(r: &SignedRatio) -> (i128, i128) {
    let (n, d) = (value(r.magnitude.numerator()), value(r.magnitude.denominator()));
    let (mut a, mut b) = (n, d);
    while b != 0 {
        let t = a % b;
        a = b;
        b = t;
    }
    let sign = if r.negative { -1 } else { 1 };
    (sign * n / a, d / a)
}

fn lift(negative: bool, num: u64, den: u64) -> SignedRatio {
    let magnitude = Ratio::from_u64(num).scale(&Natural::from_u64(1), &Natural::from_u64(den));
    SignedRatio { negative, magnitude }
}

#[test]
fn residual_vanishes_at_the_saturating_lift() {
    let r = levelling_equation(&lift(true, 3, 2), &Ratio::from_u64(3), &vec![0, 3, 0]);
    assert_eq!(reduced(&r), (0, 1));
}

#[test]
fn residual_below_and_above_the_root() {
    let grounds = vec![0, 3, 0];
    let water = Ratio::from_u64(3);
    assert_eq!(reduced(&levelling_equation(&lift(true, 3, 1), &water, &grounds)), (-1, 1));
    assert_eq!(reduced(&levelling_equation(&lift(true, 1, 1), &water, &grounds)), (1, 3));
}

#[test]
fn non_negative_lift_is_its_own_residual() {
    let grounds = vec![0, 3, 0];
    let water = Ratio::from_u64(3);
    assert_eq!(reduced(&levelling_equation(&lift(false, 2, 1), &water, &grounds)), (2, 1));
    assert_eq!(reduced(&levelling_equation(&lift(false, 0, 1), &water, &grounds)), (0, 1));
    assert_eq!(reduced(&levelling_equation(&lift(true, 0, 1), &water, &grounds)), (0, 1));
}
