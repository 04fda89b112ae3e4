//! Newton-style incremental interpolation through integer sample points.
//!
//! The interpolating polynomial generally has rational coefficients, so the
//! result is kept fraction-free: a numerator polynomial `g` with integer
//! coefficients and a non-zero common denominator `d`, the interpolant being
//! `g(x) / d`. Each new point `(a, b)` is folded in with the basis polynomial
//! `h`, the product of `x - x_j` over the points taken so far:
//! `g' = h(a) * g + (b * d - g(a)) * h`, `d' = d * h(a)`, `h' = h * (x - a)`.
use vstd::prelude::*;

use crate::model::{
    add_s, coeff, eval_s, fits_eval, fits_mul, fits_seq, in_range, lemma_eval_add, lemma_eval_mul,
    lemma_eval_scale, lemma_eval_take, lemma_eval_zero_at, lemma_mul_zero_at_high, lemma_vanishing, mul_s, scale_s,
    zero_at_s,
};
use crate::polynom::Polynom;

verus! {

/// A sample point with integer coordinates.
#[derive(Clone, Copy, Debug, PartialEq, Eq, Structural)]
pub struct Point {
    pub x: i64,
    pub y: i64,
}

/// Why an interpolation could not be completed.
#[derive(Clone, Copy, Debug, PartialEq, Eq, Structural)]
pub enum InterpolationError {
    /// An intermediate value does not fit in `i64`.
    Overflow,
    /// A point repeats the x-coordinate of an earlier one.
    DuplicateX,
}

/// The interpolant `numer(x) / denom`.
pub struct Interpolant {
    pub numer: Polynom,
    pub denom: i64,
}

/// The state of the construction: numerator, denominator, basis polynomial.
pub type NewtonState = (Seq<int>, int, Seq<int>);

/// The state after the first point `(x0, y0)`: `g = y0`, `d = 1`, `h = x - x0`.
pub open spec fn newton_start(p: Point) -> Result<NewtonState, InterpolationError> {
    if p.x == i64::MIN {
        Err(InterpolationError::Overflow)
    } else {
        Ok((seq![p.y as int], 1int, zero_at_s(p.x as int)))
    }
}

/// Whether every value computed while folding in `p`, after `h(a)` has been
/// found non-zero, fits in `i64`.
pub open spec fn step_fits(st: NewtonState, p: Point) -> bool {
    let (g, d, h) = st;
    let a = p.x as int;
    let b = p.y as int;
    let ha = eval_s(h, a);
    let c = b * d - eval_s(g, a);
    &&& fits_eval(g, a)
    &&& in_range(b * d)
    &&& in_range(c)
    &&& fits_seq(scale_s(g, ha))
    &&& fits_seq(scale_s(h, c))
    &&& fits_seq(add_s(scale_s(g, ha), scale_s(h, c)))
    &&& in_range(d * ha)
    &&& p.x > i64::MIN
    &&& fits_mul(h, zero_at_s(a))
}

/// Folds the point `p = (a, b)` into the state.
pub open spec fn newton_step(st: NewtonState, p: Point) -> Result<NewtonState, InterpolationError> {
    let (g, d, h) = st;
    let a = p.x as int;
    let b = p.y as int;
    let ha = eval_s(h, a);
    let c = b * d - eval_s(g, a);
    if !fits_eval(h, a) {
        Err(InterpolationError::Overflow)
    } else if ha == 0 {
        Err(InterpolationError::DuplicateX)
    } else if !step_fits(st, p) {
        Err(InterpolationError::Overflow)
    } else {
        Ok((add_s(scale_s(g, ha), scale_s(h, c)), d * ha, mul_s(h, zero_at_s(a))))
    }
}

/// The state after the first `k` points (`k >= 1`).
pub open spec fn newton(pts: Seq<Point>, k: nat) -> Result<NewtonState, InterpolationError>
    decreases k,
{
    if k <= 1 {
        newton_start(pts[0])
    } else {
        match newton(pts, (k - 1) as nat) {
            Ok(st) => newton_step(st, pts[k - 1]),
            Err(e) => Err(e),
        }
    }
}

/// Once the construction has failed, it stays failed with the same error.
pub proof fn lemma_newton_err_persists(pts: Seq<Point>, k: nat, m: nat)
    requires
        1 <= k <= m,
        newton(pts, k) is Err,
    ensures
        newton(pts, m) == newton(pts, k),
    decreases m - k,
{
    if m > k {
        lemma_newton_err_persists(pts, k, (m - 1) as nat);
    }
}

/// Whether the x-coordinates of the first `k` points are pairwise distinct.
pub open spec fn distinct_x(pts: Seq<Point>, k: int) -> bool {
    forall|i: int, j: int| 0 <= i < j < k ==> pts[i].x != pts[j].x
}

/// What a successful construction after `k` points holds: the interpolant
/// `g / d` passes through each of them, and `g` has degree below `k`; `h`
/// has degree `k` and vanishes exactly at their x-coordinates. (Products are
/// stored with a zero top coefficient, so `h` holds `2k` coefficients.)
pub open spec fn newton_holds(pts: Seq<Point>, k: int, st: NewtonState) -> bool {
    let (g, d, h) = st;
    &&& d != 0
    &&& 1 <= g.len() <= 2 * k - 1
    &&& h.len() == 2 * k
    &&& forall|i: int| i >= k ==> #[trigger] coeff(g, i) == 0
    &&& forall|i: int| i > k ==> #[trigger] coeff(h, i) == 0
    &&& forall|j: int| 0 <= j < k ==> #[trigger] eval_s(g, pts[j].x as int) == d * pts[j].y
    &&& forall|j: int| 0 <= j < k ==> #[trigger] eval_s(h, pts[j].x as int) == 0
    &&& forall|z: int|
        (forall|j: int| 0 <= j < k ==> pts[j].x != z) ==> #[trigger] eval_s(h, z) != 0
}

/// Every successful state of the construction satisfies [`newton_holds`].
pub proof fn lemma_newton_holds(pts: Seq<Point>, k: nat)
    requires
        1 <= k <= pts.len(),
        newton(pts, k) is Ok,
    ensures
        newton_holds(pts, k as int, newton(pts, k)->Ok_0),
    decreases k,
{
    if k == 1 {
        let p = pts[0];
        assert forall|z: int| #![auto] true implies eval_s(zero_at_s(p.x as int), z) == z - p.x by {
            lemma_eval_zero_at(p.x as int, z);
        }
        assert(eval_s(seq![p.y as int], p.x as int) == p.y + p.x * eval_s(
            seq![p.y as int].drop_first(),
            p.x as int,
        ));
        assert(seq![p.y as int].drop_first().len() == 0);
        assert(p.x * eval_s(Seq::<int>::empty(), p.x as int) == 0) by (nonlinear_arith)
            requires
                eval_s(Seq::<int>::empty(), p.x as int) == 0,
        ;
        assert(seq![p.y as int].drop_first() =~= Seq::<int>::empty());
        assert(eval_s(seq![p.y as int], p.x as int) == p.y);
        assert forall|j: int| 0 <= j < 1 implies #[trigger] eval_s(seq![p.y as int], pts[j].x as int)
            == 1int * pts[j].y by {
            assert(j == 0);
        }
    } else {
        let prev = newton(pts, (k - 1) as nat);
        lemma_newton_holds(pts, (k - 1) as nat);
        let (g, d, h) = prev->Ok_0;
        let p = pts[k - 1];
        let a = p.x as int;
        let b = p.y as int;
        let ha = eval_s(h, a);
        let ga = eval_s(g, a);
        let c = b * d - ga;
        let g2 = add_s(scale_s(g, ha), scale_s(h, c));
        let d2 = d * ha;
        let h2 = mul_s(h, zero_at_s(a));
        assert(newton(pts, k) == Ok::<NewtonState, InterpolationError>((g2, d2, h2)));
        assert(ha != 0);
        assert(d2 != 0) by (nonlinear_arith)
            requires
                d != 0,
                ha != 0,
                d2 == d * ha,
        ;
        assert forall|z: int| #![auto]
            true implies eval_s(g2, z) == ha * eval_s(g, z) + c * eval_s(h, z) && eval_s(h2, z)
                == eval_s(h, z) * (z - a) by {
            lemma_eval_add(scale_s(g, ha), scale_s(h, c), z);
            lemma_eval_scale(g, ha, z);
            lemma_eval_scale(h, c, z);
            lemma_eval_mul(h, zero_at_s(a), z);
            lemma_eval_zero_at(a, z);
        }
        assert forall|i: int| i >= k implies #[trigger] coeff(g2, i) == 0 by {
            assert(coeff(g, i) == 0 && coeff(h, i) == 0);
            assert(ha * 0 + c * 0 == 0) by (nonlinear_arith);
        }
        assert forall|i: int| i > k implies #[trigger] coeff(h2, i) == 0 by {
            if i < h2.len() {
                lemma_mul_zero_at_high(h, a, k - 1, i, (i + 1) as nat);
            }
        }
        assert forall|j: int| 0 <= j < k implies #[trigger] eval_s(g2, pts[j].x as int) == d2
            * pts[j].y by {
            let xj = pts[j].x as int;
            let yj = pts[j].y as int;
            if j < k - 1 {
                assert(eval_s(g, xj) == d * yj);
                assert(eval_s(h, xj) == 0);
                assert(ha * (d * yj) + c * 0 == d * ha * yj) by (nonlinear_arith);
            } else {
                assert(ha * ga + (b * d - ga) * ha == d * ha * b) by (nonlinear_arith);
            }
        }
        assert forall|j: int| 0 <= j < k implies #[trigger] eval_s(h2, pts[j].x as int) == 0 by {
            let xj = pts[j].x as int;
            if j < k - 1 {
                assert(eval_s(h, xj) == 0);
                assert(0 * (xj - a) == 0) by (nonlinear_arith);
            } else {
                assert(eval_s(h, a) * (a - a) == 0) by (nonlinear_arith);
            }
        }
        assert forall|z: int| (forall|j: int| 0 <= j < k ==> pts[j].x != z) implies #[trigger] eval_s(
            h2,
            z,
        ) != 0 by {
            assert(pts[k - 1].x != z);
            assert forall|j: int| 0 <= j < k - 1 implies pts[j].x != z by {}
            let hz = eval_s(h, z);
            assert(hz != 0);
            assert(hz * (z - a) != 0) by (nonlinear_arith)
                requires
                    hz != 0,
                    z != a,
            ;
        }
    }
}

/// A construction that reports a repeated x-coordinate has met one among
/// the first `k` points.
pub proof fn lemma_newton_duplicate(pts: Seq<Point>, k: nat)
    requires
        1 <= k <= pts.len(),
        newton(pts, k) == Err::<NewtonState, InterpolationError>(InterpolationError::DuplicateX),
    ensures
        !distinct_x(pts, k as int),
    decreases k,
{
    if k > 1 {
        let prev = newton(pts, (k - 1) as nat);
        if prev is Err {
            lemma_newton_duplicate(pts, (k - 1) as nat);
        } else {
            lemma_newton_holds(pts, (k - 1) as nat);
            let h = prev->Ok_0.2;
            let a = pts[k - 1].x as int;
            assert(eval_s(h, a) == 0);
            if distinct_x(pts, k as int) {
                assert forall|j: int| 0 <= j < k - 1 implies pts[j].x != a by {
                    assert(pts[j].x != pts[k - 1].x);
                }
            }
        }
    }
}

/// The construction over the first `k` points reads nothing beyond them.
pub proof fn lemma_newton_prefix(pts: Seq<Point>, m: nat, k: nat)
    requires
        1 <= k <= m <= pts.len(),
    ensures
        newton(pts.take(m as int), k) == newton(pts, k),
    decreases k,
{
    if k > 1 {
        lemma_newton_prefix(pts, m, (k - 1) as nat);
    }
    assert(pts.take(m as int)[0] == pts[0]);
    assert(pts.take(m as int)[k - 1] == pts[k - 1]);
}

/// Interpolating the first `k` points and the first `k + 1` points both
/// reproduce each of the first `k` y-values at its x-coordinate; and when
/// the longer prefix succeeds, so does the shorter.
pub proof fn law_prefix_consistency(pts: Seq<Point>, k: nat)
    requires
        1 <= k < pts.len(),
    ensures
        newton(pts.take(k + 1int), (k + 1) as nat) is Ok ==> newton(pts.take(k as int), k) is Ok,
        forall|j: int|
            0 <= j < k && newton(pts.take(k as int), k) is Ok ==> eval_s(
                newton(pts.take(k as int), k)->Ok_0.0,
                #[trigger] pts[j].x as int,
            ) == newton(pts.take(k as int), k)->Ok_0.1 * pts[j].y,
        forall|j: int|
            0 <= j < k && newton(pts.take(k + 1int), (k + 1) as nat) is Ok ==> eval_s(
                newton(pts.take(k + 1int), (k + 1) as nat)->Ok_0.0,
                #[trigger] pts[j].x as int,
            ) == newton(pts.take(k + 1int), (k + 1) as nat)->Ok_0.1 * pts[j].y,
{
    lemma_newton_prefix(pts, k, k);
    lemma_newton_prefix(pts, k + 1, k + 1);
    lemma_newton_prefix(pts, k + 1, k);
    if newton(pts, k) is Err {
        lemma_newton_err_persists(pts, k, k + 1);
    } else {
        lemma_newton_holds(pts, k);
    }
    if newton(pts, k + 1) is Ok {
        lemma_newton_holds(pts, k + 1);
    }
}

/// Interpolating the same points in another order gives the same function:
/// when both constructions succeed, `g1(z) / d1 == g2(z) / d2` for every `z`,
/// stated without division as `g1(z) * d2 == g2(z) * d1`.
pub proof fn law_order_independence(p1: Seq<Point>, p2: Seq<Point>)
    requires
        p1.len() >= 1,
        p2.len() == p1.len(),
        distinct_x(p1, p1.len() as int),
        forall|i: int| 0 <= i < p1.len() ==> p2.contains(#[trigger] p1[i]),
    ensures
        newton(p1, p1.len() as nat) is Ok && newton(p2, p2.len() as nat) is Ok ==> forall|z: int|
            eval_s(#[trigger] newton(p1, p1.len() as nat)->Ok_0.0, z) * newton(
                p2,
                p2.len() as nat,
            )->Ok_0.1 == eval_s(newton(p2, p2.len() as nat)->Ok_0.0, z) * newton(
                p1,
                p1.len() as nat,
            )->Ok_0.1,
{
    let n = p1.len() as nat;
    if newton(p1, n) is Ok && newton(p2, n) is Ok {
        lemma_newton_holds(p1, n);
        lemma_newton_holds(p2, n);
        let (g1, d1, h1) = newton(p1, n)->Ok_0;
        let (g2, d2, h2) = newton(p2, n)->Ok_0;
        let q = add_s(scale_s(g1, d2), scale_s(g2, -d1));
        let xs = Seq::new(n, |i: int| p1[i].x as int);
        assert forall|z: int| #![auto]
            true implies eval_s(q, z) == d2 * eval_s(g1, z) + (-d1) * eval_s(g2, z) by {
            lemma_eval_add(scale_s(g1, d2), scale_s(g2, -d1), z);
            lemma_eval_scale(g1, d2, z);
            lemma_eval_scale(g2, -d1, z);
        }
        assert forall|i: int| 0 <= i < xs.len() implies #[trigger] eval_s(q, xs[i]) == 0 by {
            let j = choose|j: int| 0 <= j < p2.len() && p2[j] == p1[i];
            let y = p1[i].y as int;
            assert(eval_s(g1, p1[i].x as int) == d1 * y);
            assert(eval_s(g2, p2[j].x as int) == d2 * p2[j].y);
            assert(d2 * (d1 * y) + (-d1) * (d2 * y) == 0) by (nonlinear_arith);
        }
        let m = if q.len() <= n { q.len() as int } else { n as int };
        let qt = q.take(m);
        assert forall|i: int| i >= m implies #[trigger] coeff(q, i) == 0 by {
            if i < q.len() {
                assert(coeff(g1, i) == 0 && coeff(g2, i) == 0);
                assert(d2 * 0 + (-d1) * 0 == 0) by (nonlinear_arith);
            }
        }
        assert forall|i: int| 0 <= i < xs.len() implies #[trigger] eval_s(qt, xs[i]) == 0 by {
            lemma_eval_take(q, m, xs[i]);
        }
        assert forall|z: int| #![auto] true implies eval_s(g1, z) * d2 == eval_s(g2, z) * d1 by {
            lemma_eval_take(q, m, z);
            lemma_vanishing(qt, xs, z);
            let e1 = eval_s(g1, z);
            let e2 = eval_s(g2, z);
            assert(d2 * e1 + (-d1) * e2 == 0 ==> e1 * d2 == e2 * d1) by (nonlinear_arith);
        }
    }
}

impl Polynom {
    /// Folds the point `p` into the state `(g, d, h)`: one step of [`newton`].
    fn fold_point(g: &Polynom, d: i64, h: &Polynom, p: Point) -> (r: Result<
        (Polynom, i64, Polynom),
        InterpolationError,
    >)
        requires
            g.wf(),
            h.wf(),
            h@.len() + 2 <= usize::MAX,
        ensures
            match newton_step((g@, d as int, h@), p) {
                Ok(st) => r matches Ok(t) && t.0.wf() && t.2.wf() && t.0@ == st.0 && t.1 == st.1
                    && t.2@ == st.2,
                Err(e) => r == Err::<(Polynom, i64, Polynom), InterpolationError>(e),
            },
    {
        let a = p.x;
        let b = p.y;
        let ha = match h.eval(a) {
            Some(v) => v,
            None => return Err(InterpolationError::Overflow),
        };
        if ha == 0 {
            return Err(InterpolationError::DuplicateX);
        }
        let ga = match g.eval(a) {
            Some(v) => v,
            None => return Err(InterpolationError::Overflow),
        };
        let bd = match b.checked_mul(d) {
            Some(v) => v,
            None => return Err(InterpolationError::Overflow),
        };
        let c = match bd.checked_sub(ga) {
            Some(v) => v,
            None => return Err(InterpolationError::Overflow),
        };
        let gs = match g.scaled(ha) {
            Some(v) => v,
            None => return Err(InterpolationError::Overflow),
        };
        let hs = match h.scaled(c) {
            Some(v) => v,
            None => return Err(InterpolationError::Overflow),
        };
        let g2 = match gs.added(hs) {
            Some(v) => v,
            None => return Err(InterpolationError::Overflow),
        };
        let d2 = match d.checked_mul(ha) {
            Some(v) => v,
            None => return Err(InterpolationError::Overflow),
        };
        if a == i64::MIN {
            return Err(InterpolationError::Overflow);
        }
        let h2 = match h.extended(Polynom::zero_at(a)) {
            Some(v) => v,
            None => return Err(InterpolationError::Overflow),
        };
        Ok((g2, d2, h2))
    }

    /// The interpolant through all `points`, built one point at a time.
    ///
    /// On success `numer(x_i) == denom * y_i` for every point, `denom` is not
    /// zero and `numer` has degree below the number of points: its
    /// coefficients from that index on are zero (products are stored with a
    /// zero top coefficient, so more of them may be stored).
    /// The result is exactly what [`newton`] gives: `Ok` unless an x-coordinate
    /// repeats (`DuplicateX`, never reported for distinct x-coordinates) or an
    /// intermediate value leaves the `i64` range (`Overflow`).
    pub fn interpolate(points: &Vec<Point>) -> (r: Result<Interpolant, InterpolationError>)
        requires
            0 < points.len() <= usize::MAX / 2,
        ensures
            match newton(points@, points.len() as nat) {
                Ok(st) => r matches Ok(ip) && ip.numer.wf() && ip.numer@ == st.0 && ip.denom == st.1,
                Err(e) => r == Err::<Interpolant, InterpolationError>(e),
            },
            r matches Ok(ip) ==> ip.denom != 0 && (forall|i: int|
                0 <= i < points.len() ==> #[trigger] eval_s(ip.numer@, points[i].x as int)
                    == ip.denom * points[i].y) && (forall|i: int|
                i >= points.len() ==> #[trigger] coeff(ip.numer@, i) == 0),
            r == Err::<Interpolant, InterpolationError>(InterpolationError::DuplicateX) ==> !distinct_x(
                points@,
                points.len() as int,
            ),
    {
        let r = Polynom::run_newton(points);
        proof {
            let n = points.len() as nat;
            if newton(points@, n) is Ok {
                lemma_newton_holds(points@, n);
                let st = newton(points@, n)->Ok_0;
                assert forall|i: int| 0 <= i < points.len() implies #[trigger] eval_s(
                    st.0,
                    points[i].x as int,
                ) == st.1 * points[i].y by {
                    assert(points@[i] == points[i]);
                }
            } else if newton(points@, n) == Err::<NewtonState, InterpolationError>(
                InterpolationError::DuplicateX,
            ) {
                lemma_newton_duplicate(points@, n);
            }
        }
        r
    }

    /// Runs the construction of [`newton`] over all `points`.
    fn run_newton(points: &Vec<Point>) -> (r: Result<Interpolant, InterpolationError>)
        requires
            0 < points.len() <= usize::MAX / 2,
        ensures
            match newton(points@, points.len() as nat) {
                Ok(st) => r matches Ok(ip) && ip.numer.wf() && ip.numer@ == st.0 && ip.denom == st.1,
                Err(e) => r == Err::<Interpolant, InterpolationError>(e),
            },
    {
        let n = points.len();
        let p0 = points[0];
        if p0.x == i64::MIN {
            proof {
                lemma_newton_err_persists(points@, 1, n as nat);
            }
            return Err(InterpolationError::Overflow);
        }
        let mut g = Polynom::constant(p0.y);
        let mut d: i64 = 1;
        let mut h = Polynom::zero_at(p0.x);
        let mut k: usize = 1;
        while k < n
            invariant
                n == points.len(),
                1 <= k <= n <= usize::MAX / 2,
                g.wf(),
                h.wf(),
                h@.len() == 2 * k,
                newton(points@, k as nat) == Ok::<NewtonState, InterpolationError>(
                    (g@, d as int, h@),
                ),
            decreases n - k,
        {
            let p = points[k];
            assert(newton(points@, (k + 1) as nat) == newton_step((g@, d as int, h@), p));
            match Polynom::fold_point(&g, d, &h, p) {
                Ok((g2, d2, h2)) => {
                    g = g2;
                    d = d2;
                    h = h2;
                },
                Err(e) => {
                    proof {
                        lemma_newton_err_persists(points@, (k + 1) as nat, n as nat);
                    }
                    return Err(e);
                },
            }
            k = k + 1;
        }
        Ok(Interpolant { numer: g, denom: d })
    }
}

} // verus!
