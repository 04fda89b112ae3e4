//! The mathematical model: a polynomial is a sequence of integer
//! coefficients, index `i` holding the multiplier of `x^i`.
use vstd::arithmetic::mul::lemma_mul_is_distributive_add;
use vstd::prelude::*;

verus! {

/// Whether an integer is representable as `i64`.
pub open spec fn in_range(v: int) -> bool {
    i64::MIN <= v <= i64::MAX
}

/// Whether every coefficient is representable as `i64`.
pub open spec fn fits_seq(a: Seq<int>) -> bool {
    forall|i: int| 0 <= i < a.len() ==> #[trigger] in_range(a[i])
}

/// Coefficient `n` of `a`, zero outside the stored range.
pub open spec fn coeff(a: Seq<int>, n: int) -> int {
    if 0 <= n < a.len() {
        a[n]
    } else {
        0
    }
}

/// The value of the polynomial at `x`, in Horner form.
pub open spec fn eval_s(a: Seq<int>, x: int) -> int
    decreases a.len(),
{
    if a.len() == 0 {
        0
    } else {
        a[0] + x * eval_s(a.drop_first(), x)
    }
}

/// Coefficient-wise sum, as long as the longer operand.
pub open spec fn add_s(a: Seq<int>, b: Seq<int>) -> Seq<int> {
    Seq::new(
        if a.len() >= b.len() { a.len() } else { b.len() },
        |i: int| coeff(a, i) + coeff(b, i),
    )
}

/// Every coefficient multiplied by `s`.
pub open spec fn scale_s(a: Seq<int>, s: int) -> Seq<int> {
    Seq::new(a.len(), |i: int| s * a[i])
}

/// The first `m` terms of the convolution sum for coefficient `k` of a product:
/// the sum over `j < m` of `coeff(a, j) * coeff(b, k - j)`.
pub open spec fn conv(a: Seq<int>, b: Seq<int>, k: int, m: nat) -> int
    decreases m,
{
    if m == 0 {
        0
    } else {
        conv(a, b, k, (m - 1) as nat) + coeff(a, m - 1) * coeff(b, k - (m - 1))
    }
}

/// Stored length of a product: `len(a) + len(b)`, i.e. degree `da + db + 1`,
/// the top coefficient being zero.
pub open spec fn mul_len(a: Seq<int>, b: Seq<int>) -> nat {
    a.len() + b.len()
}

/// The product polynomial: coefficient `k` is the full convolution sum.
pub open spec fn mul_s(a: Seq<int>, b: Seq<int>) -> Seq<int> {
    Seq::new(mul_len(a, b), |k: int| conv(a, b, k, (k + 1) as nat))
}

/// The linear factor `x - a`.
pub open spec fn zero_at_s(a: int) -> Seq<int> {
    seq![-a, 1]
}

/// The suffix of `a` from index `i`: its value is what Horner's method holds
/// after consuming the coefficients from the top down to `i`.
pub open spec fn horner_from(a: Seq<int>, i: int, x: int) -> int {
    eval_s(a.subrange(i, a.len() as int), x)
}

/// Whether the Horner step at index `i` stays in `i64`: the product of `x`
/// with the suffix value from `i + 1`, and the sum that gives the suffix from `i`.
pub open spec fn horner_step_fits(a: Seq<int>, i: int, x: int) -> bool {
    in_range(x * horner_from(a, i + 1, x)) && in_range(horner_from(a, i, x))
}

/// Whether every step of Horner's method on `a` at `x` stays in `i64`.
pub open spec fn fits_eval(a: Seq<int>, x: int) -> bool {
    forall|i: int| 0 <= i < a.len() ==> #[trigger] horner_step_fits(a, i, x)
}

/// Whether term `m - 1` of the convolution sum for coefficient `k` stays in
/// `i64`, together with the partial sum of the first `m` terms.
pub open spec fn conv_step_fits(a: Seq<int>, b: Seq<int>, k: int, m: int) -> bool {
    in_range(coeff(a, m - 1) * coeff(b, k - (m - 1))) && in_range(conv(a, b, k, m as nat))
}

/// Whether every product and partial sum of the convolution stays in `i64`.
pub open spec fn fits_mul(a: Seq<int>, b: Seq<int>) -> bool {
    forall|k: int, m: int|
        0 <= k < mul_len(a, b) && 1 <= m <= k + 1 ==> #[trigger] conv_step_fits(a, b, k, m)
}

/// One Horner step: the suffix from `i` is `a[i] + x * (suffix from i + 1)`.
pub proof fn lemma_horner_step(a: Seq<int>, i: int, x: int)
    requires
        0 <= i < a.len(),
    ensures
        horner_from(a, i, x) == a[i] + x * horner_from(a, i + 1, x),
{
    let s = a.subrange(i, a.len() as int);
    assert(s.drop_first() =~= a.subrange(i + 1, a.len() as int));
}

/// Horner's method over the whole sequence is the value of the polynomial.
pub proof fn lemma_horner_whole(a: Seq<int>, x: int)
    ensures
        horner_from(a, 0, x) == eval_s(a, x),
        horner_from(a, a.len() as int, x) == 0,
{
    assert(a.subrange(0, a.len() as int) =~= a);
    assert(a.subrange(a.len() as int, a.len() as int).len() == 0);
}

/// The coefficients above the constant term (empty stays empty).
pub open spec fn tail(a: Seq<int>) -> Seq<int> {
    if a.len() == 0 {
        a
    } else {
        a.drop_first()
    }
}

/// `x * d`: the sequence shifted up one power, with a zero constant term.
pub open spec fn shift_s(d: Seq<int>) -> Seq<int> {
    seq![0int] + d
}

/// The value splits into the constant term and `x` times the rest, for any
/// sequence, the empty one included.
pub proof fn lemma_eval_split(a: Seq<int>, x: int)
    ensures
        eval_s(a, x) == coeff(a, 0) + x * eval_s(tail(a), x),
        forall|i: int| 0 <= i ==> #[trigger] coeff(tail(a), i) == coeff(a, i + 1),
        tail(a).len() == if a.len() == 0 { 0 } else { a.len() - 1 },
{
    if a.len() == 0 {
        assert(x * 0 == 0) by (nonlinear_arith);
    }
}

/// The value of a sum is the sum of the values.
pub proof fn lemma_eval_add(a: Seq<int>, b: Seq<int>, x: int)
    ensures
        eval_s(add_s(a, b), x) == eval_s(a, x) + eval_s(b, x),
    decreases a.len() + b.len(),
{
    let s = add_s(a, b);
    if s.len() == 0 {
        assert(a.len() == 0 && b.len() == 0);
    } else {
        lemma_eval_split(a, x);
        lemma_eval_split(b, x);
        lemma_eval_split(s, x);
        assert(tail(s) =~= add_s(tail(a), tail(b)));
        lemma_eval_add(tail(a), tail(b), x);
        lemma_mul_is_distributive_add(x, eval_s(tail(a), x), eval_s(tail(b), x));
    }
}

/// The value of a scaled polynomial is the scaled value.
pub proof fn lemma_eval_scale(a: Seq<int>, s: int, x: int)
    ensures
        eval_s(scale_s(a, s), x) == s * eval_s(a, x),
    decreases a.len(),
{
    if a.len() == 0 {
        assert(s * 0 == 0) by (nonlinear_arith);
    } else {
        let t = scale_s(a, s);
        assert(t.drop_first() =~= scale_s(a.drop_first(), s));
        lemma_eval_scale(a.drop_first(), s, x);
        let e = eval_s(a.drop_first(), x);
        assert(s * a[0] + x * (s * e) == s * (a[0] + x * e)) by (nonlinear_arith);
    }
}

/// Shifting up one power multiplies the value by `x`.
pub proof fn lemma_eval_shift(d: Seq<int>, x: int)
    ensures
        eval_s(shift_s(d), x) == x * eval_s(d, x),
{
    assert(shift_s(d).drop_first() =~= d);
}

/// With an empty left operand every convolution sum is zero.
proof fn lemma_conv_empty(a: Seq<int>, b: Seq<int>, k: int, m: nat)
    requires
        a.len() == 0,
    ensures
        conv(a, b, k, m) == 0,
    decreases m,
{
    if m > 0 {
        lemma_conv_empty(a, b, k, (m - 1) as nat);
    }
}

/// A sequence of zeros has the value zero.
pub proof fn lemma_eval_zeros(s: Seq<int>, x: int)
    requires
        forall|i: int| 0 <= i < s.len() ==> s[i] == 0,
    ensures
        eval_s(s, x) == 0,
    decreases s.len(),
{
    if s.len() > 0 {
        lemma_eval_zeros(s.drop_first(), x);
        assert(x * 0 == 0) by (nonlinear_arith);
    }
}

/// Splitting off the constant term of the left operand from a convolution sum.
proof fn lemma_conv_shift(a: Seq<int>, b: Seq<int>, k: int, m: nat)
    requires
        a.len() >= 1,
        m >= 1,
    ensures
        conv(a, b, k, m) == a[0] * coeff(b, k) + conv(a.drop_first(), b, k - 1, (m - 1) as nat),
    decreases m,
{
    let a1 = a.drop_first();
    if m > 1 {
        lemma_conv_shift(a, b, k, (m - 1) as nat);
        assert(coeff(a1, m - 2) == coeff(a, m - 1));
        assert(conv(a, b, k, m) == conv(a, b, k, (m - 1) as nat) + coeff(a, m - 1) * coeff(
            b,
            k - (m - 1),
        ));
        assert(conv(a1, b, k - 1, (m - 1) as nat) == conv(a1, b, k - 1, (m - 2) as nat) + coeff(
            a1,
            m - 2,
        ) * coeff(b, (k - 1) - (m - 2)));
    } else {
        assert(conv(a, b, k, 1) == conv(a, b, k, 0) + coeff(a, 0) * coeff(b, k));
        assert(conv(a1, b, k - 1, 0) == 0);
    }
}

/// The value of a product is the product of the values.
pub proof fn lemma_eval_mul(a: Seq<int>, b: Seq<int>, x: int)
    ensures
        eval_s(mul_s(a, b), x) == eval_s(a, x) * eval_s(b, x),
    decreases a.len(),
{
    let p = mul_s(a, b);
    if a.len() == 0 {
        assert forall|k: int| 0 <= k < p.len() implies p[k] == 0 by {
            lemma_conv_empty(a, b, k, (k + 1) as nat);
        }
        lemma_eval_zeros(p, x);
        assert(0 * eval_s(b, x) == 0) by (nonlinear_arith);
    } else {
        let a1 = a.drop_first();
        let d = mul_s(a1, b);
        let q = add_s(scale_s(b, a[0]), shift_s(d));
        assert forall|k: int| 0 <= k < p.len() implies p[k] == q[k] by {
            lemma_conv_shift(a, b, k, (k + 1) as nat);
        }
        assert(p =~= q);
        lemma_eval_add(scale_s(b, a[0]), shift_s(d), x);
        lemma_eval_scale(b, a[0], x);
        lemma_eval_shift(d, x);
        lemma_eval_mul(a1, b, x);
        let e1 = eval_s(a1, x);
        let eb = eval_s(b, x);
        assert(eval_s(a, x) == a[0] + x * e1);
        assert(eval_s(p, x) == a[0] * eb + x * (e1 * eb));
        assert(a[0] * eb + x * (e1 * eb) == (a[0] + x * e1) * eb) by (nonlinear_arith);
    }
}

/// A product of `h`, zero from index `k + 1` on, with `x - a` is zero from
/// index `k + 2` on.
pub proof fn lemma_mul_zero_at_high(h: Seq<int>, a: int, k: int, i: int, m: nat)
    requires
        k >= 0,
        i >= k + 2,
        forall|j: int| j > k ==> #[trigger] coeff(h, j) == 0,
    ensures
        conv(h, zero_at_s(a), i, m) == 0,
    decreases m,
{
    if m > 0 {
        lemma_mul_zero_at_high(h, a, k, i, (m - 1) as nat);
        let j = m - 1;
        if j > k {
            assert(coeff(h, j) == 0);
        } else {
            assert(coeff(zero_at_s(a), i - j) == 0);
        }
    }
}

/// The linear factor `x - a` has the value `x - a`.
pub proof fn lemma_eval_zero_at(a: int, x: int)
    ensures
        eval_s(zero_at_s(a), x) == x - a,
{
    let s = zero_at_s(a);
    assert(s.drop_first() =~= seq![1int]);
    assert(seq![1int].drop_first() =~= Seq::<int>::empty());
    assert(eval_s(Seq::<int>::empty(), x) == 0);
    assert(eval_s(seq![1int], x) == 1 + x * eval_s(Seq::<int>::empty(), x));
    assert(x * (1 + x * 0) == x) by (nonlinear_arith);
    assert(eval_s(s, x) == -a + x * eval_s(seq![1int], x));
}

/// The quotient of `q` by `x - r` in synthetic division: `q(z)` is
/// `q(r) + (z - r) * quotient(z)`.
pub open spec fn div_linear(q: Seq<int>, r: int) -> Seq<int>
    decreases q.len(),
{
    if q.len() <= 1 {
        Seq::empty()
    } else {
        seq![eval_s(q.drop_first(), r)] + div_linear(q.drop_first(), r)
    }
}

/// The remainder theorem: `q(z) = q(r) + (z - r) * (q / (x - r))(z)`, the
/// quotient having one coefficient fewer.
pub proof fn lemma_div_linear(q: Seq<int>, r: int, z: int)
    ensures
        eval_s(q, z) == eval_s(q, r) + (z - r) * eval_s(div_linear(q, r), z),
        div_linear(q, r).len() == if q.len() == 0 { 0 } else { q.len() - 1 },
    decreases q.len(),
{
    let dq = div_linear(q, r);
    if q.len() <= 1 {
        assert((z - r) * 0 == 0) by (nonlinear_arith);
        if q.len() == 1 {
            assert(q.drop_first().len() == 0);
            assert(eval_s(q.drop_first(), z) == 0 && eval_s(q.drop_first(), r) == 0);
            assert(z * 0 == 0 && r * 0 == 0) by (nonlinear_arith);
            assert(eval_s(q, z) == q[0] + z * eval_s(q.drop_first(), z));
            assert(eval_s(q, r) == q[0] + r * eval_s(q.drop_first(), r));
        }
    } else {
        let t = q.drop_first();
        lemma_div_linear(t, r, z);
        let dt = div_linear(t, r);
        assert(dq.drop_first() =~= dt);
        let tz = eval_s(t, z);
        let tr = eval_s(t, r);
        let e = eval_s(dt, z);
        assert(eval_s(dq, z) == tr + z * e);
        assert(eval_s(q, z) == q[0] + z * tz);
        assert(eval_s(q, r) == q[0] + r * tr);
        assert(tz == tr + (z - r) * e);
        assert(z * (tr + (z - r) * e) == r * tr + (z - r) * (tr + z * e)) by (nonlinear_arith);
    }
}

/// Coefficients that are all zero from index `m` on may be cut off there.
pub proof fn lemma_eval_take(q: Seq<int>, m: int, z: int)
    requires
        0 <= m <= q.len(),
        forall|i: int| i >= m ==> #[trigger] coeff(q, i) == 0,
    ensures
        eval_s(q, z) == eval_s(q.take(m), z),
    decreases q.len(),
{
    if m == q.len() {
        assert(q.take(m) =~= q);
    } else if m == 0 {
        assert forall|i: int| 0 <= i < q.len() implies q[i] == 0 by {
            assert(coeff(q, i) == 0);
        }
        lemma_eval_zeros(q, z);
    } else {
        let t = q.drop_first();
        assert forall|i: int| i >= m - 1 implies #[trigger] coeff(t, i) == 0 by {
            assert(coeff(q, i + 1) == 0);
        }
        lemma_eval_take(t, m - 1, z);
        assert(q.take(m).drop_first() =~= t.take(m - 1));
    }
}

/// A polynomial with at most `xs.len()` coefficients that vanishes at the
/// pairwise distinct points `xs` has the value zero everywhere.
pub proof fn lemma_vanishing(q: Seq<int>, xs: Seq<int>, z: int)
    requires
        q.len() <= xs.len(),
        forall|i: int, j: int| 0 <= i < j < xs.len() ==> xs[i] != xs[j],
        forall|i: int| 0 <= i < xs.len() ==> #[trigger] eval_s(q, xs[i]) == 0,
    ensures
        eval_s(q, z) == 0,
    decreases q.len(),
{
    if q.len() > 0 {
        let r = xs.last();
        let dq = div_linear(q, r);
        let ys = xs.drop_last();
        lemma_div_linear(q, r, z);
        assert(eval_s(q, r) == 0);
        assert forall|i: int| 0 <= i < ys.len() implies #[trigger] eval_s(dq, ys[i]) == 0 by {
            lemma_div_linear(q, r, ys[i]);
            assert(eval_s(q, xs[i]) == 0);
            let e = eval_s(dq, ys[i]);
            let w = ys[i] - r;
            assert(w != 0);
            assert(w * e == 0 ==> e == 0) by (nonlinear_arith)
                requires
                    w != 0,
            ;
        }
        lemma_vanishing(dq, ys, z);
        assert((z - r) * 0 == 0) by (nonlinear_arith);
    }
}

} // verus!
