use rain::natural::Natural;
use rain::ratio::Ratio;

fn value(n: &Natural) -> u128 {
    let mut v: u128 = 0;
    for limb in n.to_limbs().iter().rev() {
        v = (v << 32) + *limb as u128;
    }
    v
}

#[test]
fn natural_from_u64_round_trip() {
    assert_eq!(value(&Natural::from_u64(0)), 0);
    assert_eq!(value(&Natural::from_u64(7)), 7);
    assert_eq!(value(&Natural::from_u64(u64::MAX)), u64::MAX as u128);
}

#[test]
fn natural_add_carries_across_limbs() {
    let a = Natural::from_u64(u64::MAX);
    let b = Natural::from_u64(1);
    assert_eq!(value(&a.add(&b)), u64::MAX as u128 + 1);
}

#[test]
fn natural_mul_is_exact_beyond_64_bits() {
    let a = Natural::from_u64(u64::MAX);
    let b = Natural::from_u64(u64::MAX);
    assert_eq!(value(&a.mul(&b)), (u64::MAX as u128) * (u64::MAX as u128));
    assert_eq!(value(&a.mul(&Natural::zero())), 0);
}

#[test]
fn natural_sub_and_lt() {
    let a = Natural::from_u64(u64::MAX).mul(&Natural::from_u64(3));
    let b = Natural::from_u64(u64::MAX);
    assert_eq!(value(&a.sub(&b)), 2 * (u64::MAX as u128));
    assert!(b.lt(&a));
    assert!(!a.lt(&b));
    assert!(!a.lt(&a));
}

#[test]
fn ratio_add_keeps_the_product_denominator() {
    let half = Ratio::from_u64(1).scale(&Natural::from_u64(1), &Natural::from_u64(2));
    let third = Ratio::from_u64(1).scale(&Natural::from_u64(1), &Natural::from_u64(3));
    let sum = half.add(&third);
    assert_eq!(value(sum.numerator()), 5);
    assert_eq!(value(sum.denominator()), 6);
}

#[test]
fn ratio_sub_mean_and_lt() {
    let half = Ratio::from_u64(1).scale(&Natural::from_u64(1), &Natural::from_u64(2));
    let two = Ratio::from_u64(2);
    let diff = two.sub(&half);
    assert_eq!(value(diff.numerator()), 3);
    assert_eq!(value(diff.denominator()), 2);
    let mean = two.mean(&half);
    // (2 * 2 + 1 * 1) / (2 * 1 * 2)
    assert_eq!(value(mean.numerator()), 5);
    assert_eq!(value(mean.denominator()), 4);
    assert!(half.lt(&two));
    assert!(!two.lt(&half));
    assert!(!half.lt(&half.copy()));
}
