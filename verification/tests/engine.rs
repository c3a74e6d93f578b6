//! The arithmetic of the packed differential engine.

use multidiff::Diff;
use multidiff::Dynamic;
use multidiff::Fixed;

#[test]
fn addition_then_subtraction_gives_back_every_coefficient() {
    let a = Diff::from_data(Dynamic(2), Dynamic(2), vec![5i64, -3, 7, 11, 2, -9]);
    let b = Diff::from_data(Dynamic(2), Dynamic(2), vec![4i64, 6, -1, 0, 8, 3]);
    let round_trip = a.add(&b).sub(&b);
    assert_eq!(round_trip.data_slice(), a.data_slice());
}

#[test]
fn multiplication_is_commutative() {
    let a = Diff::from_data(Dynamic(2), Dynamic(2), vec![2i64, 1, 4, -3, 5, 6]);
    let b = Diff::from_data(Dynamic(2), Dynamic(2), vec![3i64, -2, 1, 7, 0, 2]);
    assert_eq!(a.mul(&b).data_slice(), b.mul(&a).data_slice());
    let c = Diff::from_data(Dynamic(3), Dynamic(1), vec![2i64, 1, -4, 3]);
    let d = Diff::from_data(Dynamic(3), Dynamic(1), vec![5i64, -1, 2, 8]);
    assert_eq!(c.mul(&d).data_slice(), d.mul(&c).data_slice());
}

#[test]
fn multiplication_distributes_over_addition() {
    let a = Diff::from_data(Dynamic(2), Dynamic(2), vec![2i64, 1, 4, -3, 5, 6]);
    let b = Diff::from_data(Dynamic(2), Dynamic(2), vec![3i64, -2, 1, 7, 0, 2]);
    let c = Diff::from_data(Dynamic(2), Dynamic(2), vec![-1i64, 4, 2, 0, 3, 5]);
    let left = a.mul(&b.add(&c));
    let right = a.mul(&b).add(&a.mul(&c));
    assert_eq!(left.data_slice(), right.data_slice());
}

#[test]
fn order_one_product_follows_the_product_rule() {
    // f(x) = x at x = 2: value 2, derivative 1; f * f is x^2 with value 4
    // and derivative 4 at x = 2
    let f = Diff::from_data(Dynamic(1), Dynamic(1), vec![2i64, 1]);
    let square = f.mul(&f);
    assert_eq!(square.data_slice(), &[4, 4]);
    // the general rule: (v1*v2, d1*v2 + v1*d2)
    let a = Diff::from_data(Dynamic(1), Dynamic(1), vec![3i64, 5]);
    let b = Diff::from_data(Dynamic(1), Dynamic(1), vec![7i64, 2]);
    assert_eq!(a.mul(&b).data_slice(), &[21, 5 * 7 + 3 * 2]);
}

#[test]
fn order_two_square_keeps_taylor_normalization() {
    // seeds [2, 1, 0]: value 2, first Taylor coefficient 1, second 0;
    // the square has value 4, first coefficient 4 and second 1
    let f = Diff::from_data(Dynamic(2), Dynamic(1), vec![2i64, 1, 0]);
    let square = f.mul(&f);
    assert_eq!(square.data_slice(), &[4, 4, 1]);
}

#[test]
fn two_variable_product_is_exact_at_order_two() {
    // f = 2 + x, g = 3 + y; f*g = 6 + 3x + 2y + xy
    let f = Diff::from_data(Dynamic(2), Dynamic(2), vec![2i64, 1, 0, 0, 0, 0]);
    let g = Diff::from_data(Dynamic(2), Dynamic(2), vec![3i64, 0, 0, 0, 1, 0]);
    let p = f.mul(&g);
    assert_eq!(p.data_slice(), &[6, 3, 0, 1, 2, 0]);
}

#[test]
fn division_inverts_multiplication() {
    // single variable, orders 0, 1, 2 and 5, with an exactly dividing
    // divisor
    let a0 = Diff::from_data(Dynamic(0), Dynamic(1), vec![5i64]);
    let b0 = Diff::from_data(Dynamic(0), Dynamic(1), vec![3i64]);
    assert_eq!(a0.mul(&b0).div(&b0).data_slice(), a0.data_slice());
    let a1 = Diff::from_data(Dynamic(1), Dynamic(1), vec![2i64, 5]);
    let b1 = Diff::from_data(Dynamic(1), Dynamic(1), vec![3i64, 1]);
    assert_eq!(a1.mul(&b1).div(&b1).data_slice(), a1.data_slice());
    let a2 = Diff::from_data(Dynamic(2), Dynamic(1), vec![1i64, 2, 3]);
    let b2 = Diff::from_data(Dynamic(2), Dynamic(1), vec![2i64, 1, 1]);
    assert_eq!(a2.mul(&b2).div(&b2).data_slice(), a2.data_slice());
    let a5 = Diff::from_data(Dynamic(5), Dynamic(1), vec![1i64, 1, 1, 1, 1, 1]);
    let b5 = Diff::from_data(Dynamic(5), Dynamic(1), vec![1i64, 2, 0, 4, 0, 7]);
    assert_eq!(a5.mul(&b5).div(&b5).data_slice(), a5.data_slice());
    // two variables at order one
    let am = Diff::from_data(Dynamic(1), Dynamic(2), vec![2i64, 3, 4]);
    let bm = Diff::from_data(Dynamic(1), Dynamic(2), vec![1i64, 5, 6]);
    assert_eq!(am.mul(&bm).div(&bm).data_slice(), am.data_slice());
}

#[test]
fn dropping_one_order_keeps_the_leading_coefficients() {
    let f = Diff::from_data(Dynamic(3), Dynamic(1), vec![9i64, 8, 7, 6]);
    let f2 = f.drop_one_order();
    assert_eq!(f2.order(), 2);
    assert_eq!(f2.n(), 1);
    assert_eq!(f2.data_slice(), &[9, 8, 7]);
    let f1 = f2.drop_one_order();
    let f0 = f1.drop_one_order();
    assert_eq!(f0.order(), 0);
    assert_eq!(f0.value(), 9);
    // two variables: the value survives every step of the chain
    let g = Diff::from_data(Dynamic(2), Dynamic(2), vec![5i64, 1, 2, 3, 4, 6]);
    let g1 = g.drop_one_order();
    assert_eq!(g1.order(), 1);
    assert_eq!(g1.n(), 2);
    assert_eq!(g1.data_slice(), &[5, 1, 4]);
    let g0 = g1.drop_one_order();
    assert_eq!(g0.order(), 0);
    assert_eq!(g0.value(), 5);
}

#[test]
fn remainder_scales_the_divisor_derivatives() {
    // 7 % 3 = 1, and the whole quotient 2 scales the divisor's tail
    let l = Diff::from_data(Dynamic(1), Dynamic(1), vec![7i64, 10]);
    let r = Diff::from_data(Dynamic(1), Dynamic(1), vec![3i64, 4]);
    let rem = l.rem(&r);
    assert_eq!(rem.data_slice(), &[1, 10 - 4 * 2]);
}

#[test]
fn polynomial_form_round_trip() {
    // Taylor form [6, 6, 6] becomes raw form [6, 6, 3] and back
    let f = Diff::from_data(Dynamic(2), Dynamic(1), vec![6i64, 6, 6]);
    let raw = f.polynomial_coeffs();
    assert_eq!(raw.as_slice(), &[6, 6, 3]);
    let back = Diff::from_polynomial_coeffs(raw, Dynamic(2), Dynamic(1));
    assert_eq!(back.data_slice(), &[6, 6, 6]);
}

#[test]
fn value_updates_and_scaling() {
    let mut f = Diff::from_data(Dynamic(1), Dynamic(1), vec![5i64, 7]);
    f.add_value(3);
    assert_eq!(f.data_slice(), &[8, 7]);
    f.sub_value(1);
    assert_eq!(f.data_slice(), &[7, 7]);
    f.scale_by(2);
    assert_eq!(f.data_slice(), &[14, 14]);
    f.scale_by_inv(7);
    assert_eq!(f.data_slice(), &[2, 2]);
    *f.value_mut() = 9;
    assert_eq!(f.value(), 9);
    f.set(&[1], 4);
    assert_eq!(f.data_slice(), &[9, 4]);
    let g = f.with_added_value(1).with_subbed_value(2);
    assert_eq!(g.value(), 8);
    let h = g.scaled_by(3).scaled_by_inv(2);
    assert_eq!(h.data_slice(), &[12, 6]);
}

#[test]
fn in_place_sums_match_the_owned_ones() {
    let a = Diff::from_data(Dynamic(1), Dynamic(2), vec![1i64, 2, 3]);
    let b = Diff::from_data(Dynamic(1), Dynamic(2), vec![10i64, 20, 30]);
    let mut c = a.as_dynamic().into_owned();
    c.add_assign(&b);
    assert_eq!(c.data_slice(), &[11, 22, 33]);
    c.sub_assign(&b);
    assert_eq!(c.data_slice(), &[1, 2, 3]);
    c.mul_assign(&b);
    assert_eq!(c.data_slice(), &[10, 40, 60]);
    let mut d = Diff::from_data(Dynamic(0), Dynamic(1), vec![12i64]);
    d.div_assign(&Diff::from_data(Dynamic(0), Dynamic(1), vec![4i64]));
    assert_eq!(d.data_slice(), &[3]);
    let mut e = Diff::from_data(Dynamic(1), Dynamic(1), vec![7i64, 10]);
    e.rem_assign(&Diff::from_data(Dynamic(1), Dynamic(1), vec![3i64, 4]));
    assert_eq!(e.data_slice(), &[1, 2]);
    assert_eq!(a.neg().data_slice(), &[-1, -2, -3]);
}

#[test]
fn fixed_and_dynamic_shapes_agree() {
    let f = Diff::from_data(Fixed::<1>, Fixed::<1>, vec![2i64, 1]);
    assert_eq!(f.order(), 1);
    assert_eq!(f.n(), 1);
    let fd = f.as_dynamic();
    assert_eq!(fd.order(), 1);
    assert_eq!(fd.n(), 1);
    let v = f.fixed_derivatives();
    assert_eq!(v.data_slice(), &[1]);
    let w = Diff::from_data(Fixed::<1>, Fixed::<2>, vec![1i64, 2, 3]).derivatives().into_owned();
    assert_eq!(w.data_slice(), &[2, 3]);
    let g = Diff::from_data(Fixed::<1>, Fixed::<2>, vec![1i64, 2, 3]);
    let gv = g.derivatives();
    let sub = gv.fixed_get::<0>();
    assert_eq!(sub.value(), 2);
}

#[test]
fn derivative_views_add_subtract_scale_and_multiply() {
    let a = Diff::from_data(Dynamic(1), Dynamic(2), vec![1i64, 2, 3]);
    let b = Diff::from_data(Dynamic(1), Dynamic(2), vec![5i64, 7, 11]);
    let sum = a.derivatives().add(&b.derivatives());
    assert_eq!(sum.data_slice(), &[9, 14]);
    let diff = b.derivatives().sub(&a.derivatives());
    assert_eq!(diff.data_slice(), &[5, 8]);
    let scaled = a.derivatives().into_owned().scaled_by(4);
    assert_eq!(scaled.data_slice(), &[8, 12]);
    let unscaled = b.derivatives().into_owned().scaled_by_inv(2);
    assert_eq!(unscaled.data_slice(), &[3, 5]);
    // the derivative part of a * b, built the inductive way
    let b0 = b.drop_one_order();
    let ab_tail = a.derivatives().mul(&b0);
    assert_eq!(ab_tail.data_slice(), &[2 * 5, 3 * 5]);
    let data = ab_tail.unwrap_data();
    assert_eq!(data.as_slice(), &[10, 15]);
}
