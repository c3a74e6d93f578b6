//! Sign operations of the first-order differential pair.

use multidiff::Differential;

#[test]
fn signed_abs() {
    type D = Differential<i64>;
    assert_eq!(D::new(1, 2).abs(), D::new(1, 2));
    assert_eq!(D::new(1, -2).abs(), D::new(1, -2));
    assert_eq!(D::new(-1, 2).abs(), D::new(1, -2));
    assert_eq!(D::new(-1, -2).abs(), D::new(1, 2));
    assert_eq!(D::new(0, 2).abs(), D::new(0, 2));
    assert_eq!(D::new(0, -2).abs(), D::new(0, -2));
    assert_eq!(D::new(0, 0).abs(), D::new(0, 0));
}

#[test]
fn signed_abs_sub() {
    type D = Differential<i64>;
    assert_eq!(D::new(1, 3).abs_sub(D::new(1, 2)), D::new(0, 1));
    assert_eq!(D::new(1, 2).abs_sub(D::new(1, 3)), D::new(0, -1));
    assert_eq!(D::new(1, 2).abs_sub(D::new(1, 2)), D::new(0, 0));
    assert_eq!(D::new(1, 2).abs_sub(D::new(2, 2)), D::new(0, 0));
    assert_eq!(D::new(2, 2).abs_sub(D::new(1, 2)), D::new(1, 0));
}

#[test]
fn signed_signum() {
    assert_eq!(Differential::<i64>::new(1, 2).signum(), Differential::new(1, 0));
    assert_eq!(Differential::<i64>::new(-1, 2).signum(), Differential::new(-1, 0));
    // for integers, the signum of zero is zero
    assert_eq!(Differential::<i64>::new(0, 2).signum(), Differential::new(0, 0));
}

#[test]
fn signed_is_positive() {
    assert_eq!(Differential::<i64>::new(1, 2).is_positive(), true);
    assert_eq!(Differential::<i64>::new(-1, 2).is_positive(), false);
    // for integers, zero is not positive
    assert_eq!(Differential::<i64>::new(0, 2).is_positive(), false);
}

#[test]
fn signed_is_negative() {
    assert_eq!(Differential::<i64>::new(1, 2).is_negative(), false);
    assert_eq!(Differential::<i64>::new(-1, 2).is_negative(), true);
    assert_eq!(Differential::<i64>::new(0, 2).is_negative(), false);
}

#[test]
fn pair_arithmetic() {
    type D = Differential<i64>;
    let a = D::new(2, 1);
    let b = D::new(3, 4);
    assert_eq!(a.add(b), D::new(5, 5));
    assert_eq!(a.sub(b), D::new(-1, -3));
    assert_eq!(a.neg(), D::new(-2, -1));
    // product rule: (2*3, 1*3 + 2*4)
    assert_eq!(a.mul(b), D::new(6, 11));
    // quotient rule: (8/2, (12*2 - 1*8) / 4)
    assert_eq!(D::new(8, 12).div(D::new(2, 1)), D::new(4, 4));
    assert_eq!(D::zero(), D::new(0, 0));
}
