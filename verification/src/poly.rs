//! Polynomials with integer coefficients, in ascending order of degree.
use crate::modular;
use crate::sums;
use vstd::arithmetic::mul::*;
use vstd::arithmetic::power::*;
use vstd::prelude::*;

verus! {

/// The value at `x` of the polynomial with coefficients `c`.
pub open spec fn eval(c: Seq<int>, x: int) -> int {
    sums::sigma(c.len(), |i: int| c[i] * pow(x, i as nat))
}

/// The inner product of `a` and `b`.
pub open spec fn dot(a: Seq<int>, b: Seq<int>) -> int {
    sums::sigma(a.len(), |i: int| a[i] * b[i])
}

/// The inner product of `a` and the reversal of `b`.
pub open spec fn revdot(a: Seq<int>, b: Seq<int>) -> int {
    sums::sigma(a.len(), |i: int| a[i] * b[a.len() - 1 - i])
}

/// `1 + r + ... + r^(m - 1)`.
pub open spec fn geo(r: int, m: nat) -> int {
    sums::sigma(m, |i: int| pow(r, i as nat))
}

/// The coefficients of the quotient of `c` by `X - b`, without the remainder.
pub open spec fn quotient(c: Seq<int>, b: int) -> Seq<int> {
    Seq::new((c.len() - 1) as nat, |i: int| eval(c.skip(i + 1), b))
}

/// `a` and `b` have congruent coefficients.
pub open spec fn cong(a: Seq<int>, b: Seq<int>, m: int) -> bool {
    &&& a.len() == b.len()
    &&& forall|i: int| 0 <= i < a.len() ==> modular::cong(#[trigger] a[i], b[i], m)
}

/// Horner's rule.
pub proof fn lemma_horner(c: Seq<int>, x: int)
    requires
        c.len() > 0,
    ensures
        eval(c, x) == c[0] + x * eval(c.skip(1), x),
{
    reveal(pow);
    let n = c.len();
    let t = c.skip(1);
    let f = |i: int| c[i] * pow(x, i as nat);
    let g = |i: int| c[i + 1] * pow(x, (i + 1) as nat);
    let h = |i: int| t[i] * pow(x, i as nat);
    sums::lemma_first(n, f, g);
    assert forall|i: int| 0 <= i < n - 1 implies #[trigger] g(i) == x * h(i) by {
        let (a, p) = (c[i + 1], pow(x, i as nat));
        assert(pow(x, (i + 1) as nat) == x * p);
        assert(a * (x * p) == x * (a * p)) by (nonlinear_arith);
    }
    sums::lemma_scale((n - 1) as nat, x, h, g);
    lemma_pow0(x);
    assert(f(0) == c[0]);
}

/// Congruent coefficients give congruent values at congruent points.
pub proof fn lemma_eval_cong(a: Seq<int>, b: Seq<int>, x: int, y: int, m: int)
    requires
        m > 0,
        cong(a, b, m),
        modular::cong(x, y, m),
    ensures
        modular::cong(eval(a, x), eval(b, y), m),
{
    let f = |i: int| a[i] * pow(x, i as nat);
    let g = |i: int| b[i] * pow(y, i as nat);
    assert forall|i: int| 0 <= i < a.len() implies modular::cong(#[trigger] f(i), g(i), m) by {
        modular::lemma_pow(x, y, i as nat, m);
        modular::lemma_mul(a[i], b[i], pow(x, i as nat), pow(y, i as nat), m);
    }
    sums::lemma_cong(a.len(), f, g, m);
}

/// Division by `X - b` with remainder: `c(y) = q(y) (y - b) + c(b)`.
pub proof fn lemma_quotient(c: Seq<int>, b: int, y: int)
    requires
        c.len() > 0,
    ensures
        eval(c, y) == eval(quotient(c, b), y) * (y - b) + eval(c, b),
    decreases c.len(),
{
    let t = c.skip(1);
    let q = quotient(c, b);
    lemma_horner(c, y);
    lemma_horner(c, b);
    if c.len() == 1 {
        assert(t =~= Seq::<int>::empty());
        assert(q =~= Seq::<int>::empty());
        assert(y * 0 == 0 && b * 0 == 0 && 0 * (y - b) == 0);
    } else {
        lemma_quotient(t, b, y);
        lemma_horner(q, y);
        let qt = quotient(t, b);
        assert(q.skip(1) =~= qt) by {
            assert forall|i: int| 0 <= i < qt.len() implies q.skip(1)[i] == qt[i] by {
                assert(c.skip(i + 2) =~= t.skip(i + 1));
            }
        }
        let (e, f, g) = (eval(qt, y), eval(t, b), eval(t, y));
        assert(y * (e * (y - b) + f) == (f + y * e) * (y - b) + b * f) by (nonlinear_arith);
    }
}

/// The sum of the first powers, extended by as many again: the sum of the first
/// `n + m` powers of `r` is that of the first `n`, plus `r^n` times that of the
/// first `m`.
pub proof fn lemma_geo_add(r: int, n: nat, m: nat)
    ensures
        geo(r, n + m) == geo(r, n) + pow(r, n) * geo(r, m),
{
    let f = |i: int| pow(r, i as nat);
    let g = |i: int| pow(r, (n + i) as nat);
    sums::lemma_cut(n, m, f, g);
    assert forall|i: int| 0 <= i < m implies #[trigger] g(i) == pow(r, n) * f(i) by {
        lemma_pow_adds(r, n, i as nat);
    }
    sums::lemma_scale(m, pow(r, n), f, g);
}


/// Zeros at the low end are a factor of a power of `x`.
pub proof fn lemma_eval_zeros(c: Seq<int>, g: nat, x: int)
    requires
        g <= c.len(),
        forall|i: int| 0 <= i < g ==> #[trigger] c[i] == 0,
    ensures
        eval(c, x) == pow(x, g) * eval(c.skip(g as int), x),
    decreases g,
{
    reveal(pow);
    if g == 0 {
        assert(c.skip(0) =~= c);
    } else {
        let t = c.skip(1);
        lemma_horner(c, x);
        lemma_eval_zeros(t, (g - 1) as nat, x);
        assert(t.skip(g - 1) =~= c.skip(g as int));
        let (e, q) = (eval(c.skip(g as int), x), pow(x, (g - 1) as nat));
        assert(x * (q * e) == (x * q) * e) by (nonlinear_arith);
    }
}


/// The coefficients of even degree.
pub open spec fn evens(c: Seq<int>) -> Seq<int> {
    Seq::new(c.len() / 2, |i: int| c[2 * i])
}

/// The coefficients of odd degree.
pub open spec fn odds(c: Seq<int>) -> Seq<int> {
    Seq::new(c.len() / 2, |i: int| c[2 * i + 1])
}

/// `c(x) = c_even(x^2) + x c_odd(x^2)`.
pub proof fn lemma_even_odd(c: Seq<int>, x: int)
    requires
        c.len() % 2 == 0,
    ensures
        eval(c, x) == eval(evens(c), x * x) + x * eval(odds(c), x * x),
    decreases c.len(),
{
    if c.len() == 0 {
        assert(x * 0 == 0);
    } else {
        let t = c.skip(1);
        let u = c.skip(2);
        lemma_horner(c, x);
        lemma_horner(t, x);
        assert(t.skip(1) =~= u);
        lemma_even_odd(u, x);
        lemma_horner(evens(c), x * x);
        lemma_horner(odds(c), x * x);
        assert(evens(c).skip(1) =~= evens(u));
        assert(odds(c).skip(1) =~= odds(u));
        let (e, o) = (eval(evens(u), x * x), eval(odds(u), x * x));
        let (c0, c1) = (c[0], c[1]);
        assert(c0 + x * (c1 + x * (e + x * o)) == (c0 + (x * x) * e) + x * (c1 + (x * x) * o))
            by (nonlinear_arith);
    }
}

/// The coefficients of a polynomial and zeros behind them are those of the same
/// polynomial.
pub proof fn lemma_eval_pad(c: Seq<int>, d: Seq<int>, x: int)
    requires
        c.len() <= d.len(),
        forall|i: int|
            0 <= i < d.len() ==> #[trigger] d[i] == if i < c.len() {
                c[i]
            } else {
                0
            },
    ensures
        eval(d, x) == eval(c, x),
{
    let f = |i: int| c[i] * pow(x, i as nat);
    let g = |i: int| d[i] * pow(x, i as nat);
    assert forall|i: int| c.len() <= i < d.len() implies #[trigger] g(i) == 0 by {
        assert(0 * pow(x, i as nat) == 0);
    }
    sums::lemma_zero_tail(c.len(), d.len(), g);
    sums::lemma_ext(c.len(), f, g);
}

/// The value of a sum.
pub proof fn lemma_eval_add(c: Seq<int>, d: Seq<int>, e: Seq<int>, x: int)
    requires
        c.len() == e.len(),
        d.len() == e.len(),
        forall|i: int| 0 <= i < e.len() ==> #[trigger] e[i] == c[i] + d[i],
    ensures
        eval(e, x) == eval(c, x) + eval(d, x),
{
    let f = |i: int| c[i] * pow(x, i as nat);
    let g = |i: int| d[i] * pow(x, i as nat);
    let h = |i: int| e[i] * pow(x, i as nat);
    assert forall|i: int| 0 <= i < e.len() implies #[trigger] h(i) == f(i) + g(i) by {
        let (a, b, q) = (c[i], d[i], pow(x, i as nat));
        assert(e[i] == a + b);
        assert((a + b) * q == a * q + b * q) by (nonlinear_arith);
    }
    sums::lemma_plus(e.len(), f, g, h);
}

/// The value of a multiple.
pub proof fn lemma_eval_scale(c: Seq<int>, k: int, e: Seq<int>, x: int)
    requires
        c.len() == e.len(),
        forall|i: int| 0 <= i < e.len() ==> #[trigger] e[i] == k * c[i],
    ensures
        eval(e, x) == k * eval(c, x),
{
    let f = |i: int| c[i] * pow(x, i as nat);
    let h = |i: int| e[i] * pow(x, i as nat);
    assert forall|i: int| 0 <= i < e.len() implies #[trigger] h(i) == k * f(i) by {
        let (a, q) = (c[i], pow(x, i as nat));
        assert(e[i] == k * a);
        assert((k * a) * q == k * (a * q)) by (nonlinear_arith);
    }
    sums::lemma_scale(e.len(), k, f, h);
}

} // verus!
