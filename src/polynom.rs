//! Polynomials with `i64` coefficients, stored from the constant term upward.
use vstd::prelude::*;

use crate::model::{
    add_s, coeff, eval_s, fits_eval, fits_seq, horner_from, horner_step_fits, in_range, lemma_horner_step,
    lemma_horner_whole, scale_s, zero_at_s, conv, conv_step_fits, fits_mul, mul_len, mul_s,
};

verus! {

/// A polynomial in one variable; `parts[i]` multiplies `x^i`.
/// The coefficient list is never empty; trailing zeros are kept as stored.
pub struct Polynom {
    parts: Vec<i64>,
}

impl View for Polynom {
    type V = Seq<int>;

    closed spec fn view(&self) -> Seq<int> {
        self.parts@.map_values(|c: i64| c as int)
    }
}

impl Polynom {
    /// The coefficient list is non-empty.
    pub open spec fn wf(&self) -> bool {
        self@.len() > 0
    }

    /// Builds a polynomial from stored `i64` coefficients.
    fn from_parts(parts: Vec<i64>) -> (r: Polynom)
        ensures
            r@ == parts@.map_values(|c: i64| c as int),
    {
        Polynom { parts }
    }

    /// The constant polynomial `a`.
    pub fn constant(a: i64) -> (r: Polynom)
        ensures
            r.wf(),
            r@ == seq![a as int],
    {
        let r = Polynom::from_parts(vec![a]);
        assert(r@ =~= seq![a as int]);
        r
    }

    /// The polynomial whose coefficients are given highest power first,
    /// as they are written by hand.
    pub fn mathlike(parts: Vec<i64>) -> (r: Polynom)
        requires
            parts.len() > 0,
        ensures
            r.wf(),
            r@.len() == parts.len(),
            forall|i: int| 0 <= i < parts.len() ==> r@[i] == parts[parts.len() - 1 - i] as int,
    {
        let n = parts.len();
        let mut rev: Vec<i64> = Vec::with_capacity(n);
        let mut i: usize = 0;
        while i < n
            invariant
                n == parts.len(),
                i <= n,
                rev.len() == i,
                forall|j: int| 0 <= j < i ==> rev[j] == parts[n - 1 - j],
            decreases n - i,
        {
            rev.push(parts[n - 1 - i]);
            i = i + 1;
        }
        Polynom::from_parts(rev)
    }

    /// The linear factor `x - a`, which vanishes at `a`.
    pub fn zero_at(a: i64) -> (r: Polynom)
        requires
            a > i64::MIN,
        ensures
            r.wf(),
            r@ == zero_at_s(a as int),
    {
        let neg: i64 = -a;
        let r = Polynom::from_parts(vec![neg, 1]);
        assert(r@ =~= zero_at_s(a as int));
        r
    }

    /// The stored degree: the number of coefficients minus one.
    pub fn grade(&self) -> (r: usize)
        requires
            self.wf(),
        ensures
            r == self@.len() - 1,
    {
        self.parts.len() - 1
    }

    /// Coefficient `n`, or zero beyond the stored degree.
    pub fn nth(&self, n: usize) -> (r: i64)
        ensures
            r as int == coeff(self@, n as int),
            n >= self@.len() ==> r == 0,
    {
        if n < self.parts.len() {
            self.parts[n]
        } else {
            0
        }
    }

    /// Every coefficient multiplied by `s`; `None` exactly when one of the
    /// products leaves the `i64` range.
    pub fn scaled(&self, s: i64) -> (r: Option<Polynom>)
        requires
            self.wf(),
        ensures
            r is Some <==> fits_seq(scale_s(self@, s as int)),
            r matches Some(p) ==> p.wf() && p@ == scale_s(self@, s as int),
    {
        let n = self.parts.len();
        let mut out: Vec<i64> = Vec::with_capacity(n);
        let mut i: usize = 0;
        while i < n
            invariant
                n == self.parts.len(),
                n == self@.len(),
                i <= n,
                out.len() == i,
                forall|j: int| 0 <= j < i ==> out[j] as int == s * self@[j],
                forall|j: int| 0 <= j < i ==> in_range(#[trigger] scale_s(self@, s as int)[j]),
            decreases n - i,
        {
            match s.checked_mul(self.parts[i]) {
                Some(v) => out.push(v),
                None => {
                    assert(!in_range(scale_s(self@, s as int)[i as int]));
                    return None;
                },
            }
            i = i + 1;
        }
        let p = Polynom::from_parts(out);
        assert(p@ =~= scale_s(self@, s as int));
        Some(p)
    }

    /// The coefficient-wise sum, as long as the longer operand; `None` exactly
    /// when one of the sums leaves the `i64` range.
    pub fn added(&self, other: Polynom) -> (r: Option<Polynom>)
        requires
            self.wf(),
            other.wf(),
        ensures
            r is Some <==> fits_seq(add_s(self@, other@)),
            r matches Some(p) ==> p.wf() && p@ == add_s(self@, other@),
    {
        let l1 = self.parts.len();
        let l2 = other.parts.len();
        let len = if l1 >= l2 { l1 } else { l2 };
        let ghost sum = add_s(self@, other@);
        assert(sum.len() == len);
        let mut out: Vec<i64> = Vec::with_capacity(len);
        let mut i: usize = 0;
        while i < len
            invariant
                sum == add_s(self@, other@),
                sum.len() == len,
                i <= len,
                out.len() == i,
                forall|j: int| 0 <= j < i ==> out[j] as int == sum[j],
                forall|j: int| 0 <= j < i ==> in_range(#[trigger] sum[j]),
            decreases len - i,
        {
            match self.nth(i).checked_add(other.nth(i)) {
                Some(v) => out.push(v),
                None => {
                    assert(!in_range(sum[i as int]));
                    return None;
                },
            }
            i = i + 1;
        }
        let p = Polynom::from_parts(out);
        assert(p@ =~= sum);
        Some(p)
    }

    /// The value at `x` by Horner's method, from the highest coefficient
    /// down; `None` exactly when a step of it leaves the `i64` range.
    pub fn eval(&self, x: i64) -> (r: Option<i64>)
        ensures
            r is Some <==> fits_eval(self@, x as int),
            r matches Some(v) ==> v as int == eval_s(self@, x as int),
    {
        let n = self.parts.len();
        let ghost a = self@;
        let mut acc: i64 = 0;
        let mut i: usize = n;
        proof {
            lemma_horner_whole(a, x as int);
        }
        while i > 0
            invariant
                a == self@,
                n == a.len(),
                n == self.parts.len(),
                i <= n,
                acc as int == horner_from(a, i as int, x as int),
                forall|j: int| i <= j < n ==> #[trigger] horner_step_fits(a, j, x as int),
            decreases i,
        {
            let k = i - 1;
            proof {
                lemma_horner_step(a, k as int, x as int);
            }
            let ghost hk = horner_from(a, k as int, x as int);
            let ghost hk1 = horner_from(a, k + 1, x as int);
            assert(a[k as int] == self.parts[k as int] as int);
            match x.checked_mul(acc) {
                Some(t) => match self.parts[k].checked_add(t) {
                    Some(v) => {
                        acc = v;
                        assert(horner_step_fits(a, k as int, x as int));
                    },
                    None => {
                        assert(!horner_step_fits(a, k as int, x as int));
                        return None;
                    },
                },
                None => {
                    assert(!horner_step_fits(a, k as int, x as int));
                    return None;
                },
            }
            i = k;
        }
        proof {
            lemma_horner_whole(a, x as int);
        }
        Some(acc)
    }

    /// The product polynomial, stored with `grade() + other.grade() + 2`
    /// coefficients (the top one zero): coefficient `k` is the sum of
    /// `nth(j) * other.nth(k - j)` over `j <= k`.
    /// `None` exactly when one of those products or partial sums leaves the
    /// `i64` range.
    pub fn extended(&self, other: Polynom) -> (r: Option<Polynom>)
        requires
            self.wf(),
            other.wf(),
            self@.len() + other@.len() <= usize::MAX,
        ensures
            r is Some <==> fits_mul(self@, other@),
            r matches Some(p) ==> p.wf() && p@ == mul_s(self@, other@) && p@.len() == (self@.len()
                - 1) + (other@.len() - 1) + 2,
    {
        let ghost a = self@;
        let ghost b = other@;
        let len = self.parts.len() + other.parts.len();
        let mut out: Vec<i64> = Vec::with_capacity(len);
        let mut k: usize = 0;
        while k < len
            invariant
                a == self@,
                b == other@,
                a.len() > 0,
                b.len() > 0,
                len == mul_len(a, b),
                k <= len,
                out.len() == k,
                forall|j: int| 0 <= j < k ==> out[j] as int == #[trigger] conv(a, b, j, (j + 1) as nat),
                forall|kk: int, m: int|
                    0 <= kk < k && 1 <= m <= kk + 1 ==> #[trigger] conv_step_fits(a, b, kk, m),
            decreases len - k,
        {
            let mut acc: i64 = 0;
            let mut j: usize = 0;
            while j <= k
                invariant
                    a == self@,
                    b == other@,
                    k < len,
                    len == mul_len(a, b),
                    j <= k + 1,
                    acc as int == conv(a, b, k as int, j as nat),
                    forall|m: int| 1 <= m <= j ==> #[trigger] conv_step_fits(a, b, k as int, m),
                decreases k + 1 - j,
            {
                assert(conv(a, b, k as int, (j + 1) as nat) == conv(a, b, k as int, j as nat) + coeff(a, j as int) * coeff(b, k - j));
                match self.nth(j).checked_mul(other.nth(k - j)) {
                    Some(t) => match acc.checked_add(t) {
                        Some(v) => {
                            acc = v;
                            assert(conv_step_fits(a, b, k as int, j + 1));
                        },
                        None => {
                            assert(!conv_step_fits(a, b, k as int, j + 1));
                            return None;
                        },
                    },
                    None => {
                        assert(!conv_step_fits(a, b, k as int, j + 1));
                        return None;
                    },
                }
                j = j + 1;
            }
            out.push(acc);
            k = k + 1;
        }
        let p = Polynom::from_parts(out);
        assert(p@ =~= mul_s(a, b));
        Some(p)
    }

    /// The polyline of the polynomial over `[from, to]`: the pairs
    /// `(x, value at x)` for `x = from, from + step, ...` up to `to`, each
    /// value `None` exactly when its evaluation leaves the `i64` range.
    pub fn samples(&self, from: i64, to: i64, step: i64) -> (r: Vec<(i64, Option<i64>)>)
        requires
            step > 0,
            from <= to,
        ensures
            r.len() >= 1,
            from + r.len() * step > to,
            forall|i: int|
                0 <= i < r.len() ==> (#[trigger] r[i]).0 == from + i * step && r[i].0 <= to,
            forall|i: int|
                0 <= i < r.len() ==> ((#[trigger] r[i]).1 is Some <==> fits_eval(self@, r[i].0 as int)),
            forall|i: int|
                0 <= i < r.len() ==> ((#[trigger] r[i]).1 matches Some(v) ==> v as int == eval_s(
                    self@,
                    r[i].0 as int,
                )),
    {
        let mut out: Vec<(i64, Option<i64>)> = Vec::new();
        let mut x: i64 = from;
        assert(0 * step == 0) by (nonlinear_arith);
        loop
            invariant
                step > 0,
                from <= x <= to,
                x == from + out.len() * step,
                forall|i: int|
                    0 <= i < out.len() ==> (#[trigger] out[i]).0 == from + i * step && out[i].0 <= to,
                forall|i: int|
                    0 <= i < out.len() ==> ((#[trigger] out[i]).1 is Some <==> fits_eval(
                        self@,
                        out[i].0 as int,
                    )),
                forall|i: int|
                    0 <= i < out.len() ==> ((#[trigger] out[i]).1 matches Some(v) ==> v as int
                        == eval_s(self@, out[i].0 as int)),
            decreases to - x,
        {
            let v = self.eval(x);
            let ghost len = out.len();
            out.push((x, v));
            assert(from + (len + 1) * step == from + len * step + step) by (nonlinear_arith);
            match x.checked_add(step) {
                Some(nx) => {
                    if nx <= to {
                        x = nx;
                    } else {
                        return out;
                    }
                },
                None => {
                    return out;
                },
            }
        }
    }

    /// The coefficients, constant term first.
    pub fn coefficients(&self) -> (r: Vec<i64>)
        ensures
            r@.map_values(|c: i64| c as int) == self@,
    {
        self.parts.clone()
    }
}

} // verus!
