use polynom::Polynom;

#[test]
fn constant_has_one_coefficient() {
    let p = Polynom::constant(7);
    assert_eq!(p.coefficients(), vec![7]);
    assert_eq!(p.grade(), 0);
    assert_eq!(p.eval(123), Some(7));
}

#[test]
fn mathlike_reverses_to_ascending_order() {
    let p = Polynom::mathlike(vec![3, 2, 1]);
    assert_eq!(p.coefficients(), vec![1, 2, 3]);
    assert_eq!(p.grade(), 2);
    // 3x^2 + 2x + 1 at x = 2
    assert_eq!(p.eval(2), Some(17));
}

#[test]
fn zero_at_vanishes_at_its_point() {
    let p = Polynom::zero_at(3);
    assert_eq!(p.coefficients(), vec![-3, 1]);
    assert_eq!(p.eval(3), Some(0));
    assert_eq!(p.eval(5), Some(2));
}

#[test]
fn nth_pads_with_zero() {
    let p = Polynom::mathlike(vec![4, 5]);
    assert_eq!(p.nth(0), 5);
    assert_eq!(p.nth(1), 4);
    assert_eq!(p.nth(2), 0);
    assert_eq!(p.nth(1000), 0);
    assert_eq!(Polynom::constant(9).nth(1), 0);
    assert_eq!(Polynom::zero_at(2).nth(2), 0);
}

#[test]
fn scaled_multiplies_every_coefficient() {
    let p = Polynom::mathlike(vec![1, -2, 3]);
    let q = p.scaled(-3).unwrap();
    assert_eq!(q.coefficients(), vec![-9, 6, -3]);
}

#[test]
fn scaled_reports_overflow() {
    let p = Polynom::mathlike(vec![2, 1]);
    assert!(p.scaled(i64::MAX).is_none());
    assert!(Polynom::constant(1).scaled(i64::MAX).is_some());
}

#[test]
fn added_pads_the_shorter_operand() {
    let a = Polynom::mathlike(vec![1, 0, 0]);
    let b = Polynom::mathlike(vec![2, 3]);
    let s = a.added(b).unwrap();
    assert_eq!(s.coefficients(), vec![3, 2, 1]);
    assert_eq!(s.grade(), 2);
}

#[test]
fn added_reports_overflow() {
    let a = Polynom::constant(i64::MAX);
    assert!(a.added(Polynom::constant(1)).is_none());
    let b = Polynom::constant(i64::MAX);
    assert_eq!(b.added(Polynom::constant(-1)).unwrap().coefficients(), vec![i64::MAX - 1]);
}

#[test]
fn extended_is_the_product() {
    // (x - 1)(x + 1) = x^2 - 1, stored with a zero top coefficient
    let p = Polynom::zero_at(1).extended(Polynom::zero_at(-1)).unwrap();
    assert_eq!(p.coefficients(), vec![-1, 0, 1, 0]);
    // (x^2 + 2x + 3)(4x + 5) = 4x^3 + 13x^2 + 22x + 15
    let q = Polynom::mathlike(vec![1, 2, 3]).extended(Polynom::mathlike(vec![4, 5])).unwrap();
    assert_eq!(q.coefficients(), vec![15, 22, 13, 4, 0]);
}

#[test]
fn extended_length_is_sum_of_degrees_plus_two() {
    let a = Polynom::mathlike(vec![1, 2, 3, 4]);
    let b = Polynom::mathlike(vec![6, 0, 5]);
    let da = a.grade();
    let db = b.grade();
    let p = a.extended(b).unwrap();
    assert_eq!(p.coefficients().len(), da + db + 2);
    // The top stored coefficient is zero: the true degree is da + db.
    assert_eq!(p.nth(da + db + 1), 0);
    assert_ne!(p.nth(da + db), 0);
    let c = Polynom::constant(3).extended(Polynom::constant(4)).unwrap();
    assert_eq!(c.coefficients(), vec![12, 0]);
}

#[test]
fn extended_reports_overflow() {
    let a = Polynom::constant(i64::MAX);
    assert!(a.extended(Polynom::zero_at(0)).is_some());
    let b = Polynom::constant(i64::MAX);
    assert!(b.extended(Polynom::constant(2)).is_none());
}

#[test]
fn eval_uses_every_coefficient() {
    let p = Polynom::mathlike(vec![2, 0, -1, 5]);
    // 2x^3 - x + 5
    assert_eq!(p.eval(0), Some(5));
    assert_eq!(p.eval(3), Some(56));
    assert_eq!(p.eval(-2), Some(-9));
}

#[test]
fn eval_reports_overflow() {
    let p = Polynom::mathlike(vec![1, 0, 0]);
    assert_eq!(p.eval(3_000_000_000), Some(9_000_000_000_000_000_000));
    assert_eq!(p.eval(4_000_000_000), None);
}

#[test]
fn samples_cover_the_span() {
    let p = Polynom::mathlike(vec![1, 0, 0]);
    let s = p.samples(-2, 2, 1);
    assert_eq!(
        s,
        vec![(-2, Some(4)), (-1, Some(1)), (0, Some(0)), (1, Some(1)), (2, Some(4))]
    );
    let t = p.samples(-25, 25, 20);
    assert_eq!(t, vec![(-25, Some(625)), (-5, Some(25)), (15, Some(225))]);
    let all = Polynom::constant(1).samples(-25, 25, 1);
    assert_eq!(all.len(), 51);
}

#[test]
fn samples_mark_values_out_of_range() {
    let p = Polynom::mathlike(vec![1, 0, 0]);
    let s = p.samples(i64::MAX - 1, i64::MAX, 1);
    assert_eq!(s, vec![(i64::MAX - 1, None), (i64::MAX, None)]);
}
