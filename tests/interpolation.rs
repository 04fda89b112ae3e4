use polynom::{Interpolant, InterpolationError, Point, Polynom};

fn pts(v: &[(i64, i64)]) -> Vec<Point> {
    v.iter().map(|&(x, y)| Point { x, y }).collect()
}

/// The value of the interpolant at `x`, which the tests expect to be whole.
fn value(ip: &Interpolant, x: i64) -> i64 {
    let n = ip.numer.eval(x).unwrap();
    assert_eq!(n % ip.denom, 0);
    n / ip.denom
}

#[test]
fn single_point_gives_a_constant() {
    let ip = Polynom::interpolate(&pts(&[(0, 0)])).unwrap();
    assert_eq!(value(&ip, 5), 0);
    assert_eq!(ip.numer.grade(), 0);
}

#[test]
fn two_points_give_a_line() {
    let ip = Polynom::interpolate(&pts(&[(0, 0), (1, 1)])).unwrap();
    assert_eq!(value(&ip, 2), 2);
    assert_eq!(value(&ip, -1), -1);
}

#[test]
fn three_points_give_a_parabola() {
    let ip = Polynom::interpolate(&pts(&[(0, 0), (1, 1), (2, 4)])).unwrap();
    assert_eq!(value(&ip, 3), 9);
}

#[test]
fn symmetric_points_give_a_parabola() {
    let ip = Polynom::interpolate(&pts(&[(-1, 1), (0, 0), (1, 1)])).unwrap();
    assert_eq!(value(&ip, 2), 4);
}

#[test]
fn repeated_x_is_rejected() {
    let r = Polynom::interpolate(&pts(&[(0, 5), (0, 7)]));
    assert!(matches!(r, Err(InterpolationError::DuplicateX)));
    let r2 = Polynom::interpolate(&pts(&[(1, 5), (2, 6), (1, 5)]));
    assert!(matches!(r2, Err(InterpolationError::DuplicateX)));
}

#[test]
fn large_values_report_overflow() {
    let r = Polynom::interpolate(&pts(&[(0, i64::MAX), (1, -i64::MAX), (2, i64::MAX)]));
    assert!(matches!(r, Err(InterpolationError::Overflow)));
    let r2 = Polynom::interpolate(&pts(&[(i64::MIN, 0)]));
    assert!(matches!(r2, Err(InterpolationError::Overflow)));
}

#[test]
fn interpolant_passes_through_every_point() {
    let p = pts(&[(-3, 7), (2, -1), (5, 4), (0, 0), (1, 9)]);
    let ip = Polynom::interpolate(&p).unwrap();
    assert_ne!(ip.denom, 0);
    for q in &p {
        assert_eq!(ip.numer.eval(q.x).unwrap(), ip.denom * q.y);
    }
}

#[test]
fn fractional_interpolant_is_kept_exact() {
    // Through (0, 0), (2, 1): y = x / 2.
    let ip = Polynom::interpolate(&pts(&[(0, 0), (2, 1)])).unwrap();
    assert_eq!(ip.numer.eval(1).unwrap() * 2, ip.denom);
    assert_eq!(ip.numer.eval(4).unwrap(), 2 * ip.denom);
}

#[test]
fn degree_is_bounded_by_point_count() {
    for n in 1..8i64 {
        let p: Vec<Point> = (0..n).map(|i| Point { x: i, y: i * i * i - 2 }).collect();
        let ip = Polynom::interpolate(&p).unwrap();
        let stored = ip.numer.coefficients();
        for i in p.len()..stored.len() + 2 {
            assert_eq!(ip.numer.nth(i), 0);
        }
    }
    // Collinear points: only the constant term is non-zero.
    let ip = Polynom::interpolate(&pts(&[(0, 1), (1, 1), (2, 1), (3, 1)])).unwrap();
    for i in 1..ip.numer.coefficients().len() {
        assert_eq!(ip.numer.nth(i), 0);
    }
    assert_eq!(value(&ip, 10), 1);
}

#[test]
fn order_does_not_change_the_function() {
    let a = pts(&[(-2, 3), (0, 1), (1, -4), (3, 2)]);
    let b = pts(&[(3, 2), (1, -4), (-2, 3), (0, 1)]);
    let ia = Polynom::interpolate(&a).unwrap();
    let ib = Polynom::interpolate(&b).unwrap();
    for x in -6..=6 {
        assert_eq!(
            ia.numer.eval(x).unwrap() * ib.denom,
            ib.numer.eval(x).unwrap() * ia.denom
        );
    }
}

#[test]
fn longer_prefix_keeps_earlier_points() {
    let p = pts(&[(1, 2), (4, -3), (-2, 5), (0, 7)]);
    for k in 1..p.len() {
        let short = Polynom::interpolate(&p[..k].to_vec()).unwrap();
        let long = Polynom::interpolate(&p[..k + 1].to_vec()).unwrap();
        for q in &p[..k] {
            assert_eq!(short.numer.eval(q.x).unwrap(), short.denom * q.y);
            assert_eq!(long.numer.eval(q.x).unwrap(), long.denom * q.y);
        }
    }
}

#[test]
fn coefficient_access_is_zero_beyond_interpolant() {
    let ip = Polynom::interpolate(&pts(&[(0, 1), (1, 3), (2, 7)])).unwrap();
    let len = ip.numer.coefficients().len();
    assert_eq!(ip.numer.nth(len), 0);
    assert_eq!(ip.numer.nth(len + 10), 0);
}
