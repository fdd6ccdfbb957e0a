//! What holds of several operations together.
//!
//! Each law speaks of the coefficients, values and counters that the contracts of the
//! operations speak of. `p` is the number of elements of the field.
use crate::accel;
use crate::accel::{AccelBackend, AccelMsmConfig, AccelMsmStats, MsmFacade, Offer};
use crate::builder;
use crate::builder::{CachedBridge, ProofBuilder};
use crate::curve;
use crate::curve::CurveAffine;
use crate::cycle::{Cycle, FixedGenerators};
use crate::domain;
use crate::domain::Ring;
use crate::field;
use crate::field::{Field, PrimeField};
use crate::fuse;
use crate::fuse::{Challenge, FuseAction, FuseEvent, Fusion, Round, TermSpec};
use crate::layout;
use crate::modular;
use crate::pcd::{Cached, Proof};
use crate::poly;
use crate::product;
use crate::quotients;
use crate::quotients::QuerySpec;
use crate::rank::Rank;
use crate::sparse::commit;
use crate::sparse::wires;
use crate::sparse::Polynomial;
use crate::sums;
use rand::rngs::StdRng;
use vstd::arithmetic::div_mod::*;
use vstd::arithmetic::mul::*;
use vstd::arithmetic::power::*;
use vstd::arithmetic::power2::*;
use vstd::prelude::*;

verus! {

/// The coefficients are representatives.
pub open spec fn reduced(c: Seq<int>, p: int) -> bool {
    forall|i: int| 0 <= i < c.len() ==> 0 <= #[trigger] c[i] < p
}

/// `r` has the coefficients of `c`, reduced.
pub open spec fn residues(r: Seq<int>, c: Seq<int>, p: int) -> bool {
    r.len() == c.len() && forall|i: int| 0 <= i < r.len() ==> #[trigger] r[i] == c[i] % p
}

/// The powers of `x` below `n`.
pub open spec fn powers(x: int, n: nat) -> Seq<int> {
    Seq::new(n, |i: int| pow(x, i as nat))
}

/// Reduced coefficients are congruent to what was reduced.
proof fn lemma_residues(r: Seq<int>, c: Seq<int>, p: int)
    requires
        p > 0,
        residues(r, c, p),
    ensures
        poly::cong(r, c, p),
{
    assert forall|i: int| 0 <= i < r.len() implies modular::cong(#[trigger] r[i], c[i], p) by {
        modular::lemma_rem(c[i], p);
    }
}

/// The value of a polynomial is the inner product of the powers of the point with its
/// coefficients.
pub proof fn eval_is_dot(c: Seq<int>, x: int)
    ensures
        poly::dot(powers(x, c.len()), c) == poly::eval(c, x),
{
    let ps = powers(x, c.len());
    let f = |i: int| ps[i] * c[i];
    let g = |i: int| c[i] * pow(x, i as nat);
    assert forall|i: int| 0 <= i < c.len() implies #[trigger] f(i) == g(i) by {
        lemma_mul_is_commutative(ps[i], c[i]);
    }
    sums::lemma_ext(c.len(), f, g);
}

/// The quotient by `X - b`, times `y - b`, is the value at `y` less the value at `b`.
pub proof fn quotient_identity(c: Seq<int>, q: Seq<int>, b: int, y: int, p: int)
    requires
        p > 0,
        c.len() > 0,
        residues(q, poly::quotient(c, b), p),
    ensures
        modular::cong(poly::eval(c, y), poly::eval(q, y) * (y - b) + poly::eval(c, b), p),
{
    let full = poly::quotient(c, b);
    lemma_residues(q, full, p);
    poly::lemma_quotient(c, b, y);
    poly::lemma_eval_cong(q, full, y, y, p);
    let (e, f, v) = (poly::eval(q, y), poly::eval(full, y), poly::eval(c, b));
    modular::lemma_mul(e, f, y - b, y - b, p);
    modular::lemma_add(e * (y - b), f * (y - b), v, v, p);
}

/// The geometric sum times `r - 1` is `r^m - 1`.
pub proof fn geometric_sum(r: int, m: nat)
    ensures
        poly::geo(r, m) * (r - 1) == pow(r, m) - 1,
    decreases m,
{
    lemma_pow0(r);
    if m == 0 {
        assert(0 * (r - 1) == 0);
    } else {
        let k = (m - 1) as nat;
        geometric_sum(r, k);
        lemma_pow_adds(r, k, 1);
        lemma_pow1(r);
        let (g, q) = (poly::geo(r, k), pow(r, k));
        assert((g + q) * (r - 1) == g * (r - 1) + (q * r - q)) by (nonlinear_arith);
    }
}

/// The value of the product is the product of the values.
pub proof fn product_values(a: Seq<int>, b: Seq<int>, c: Seq<int>, x: int, p: int)
    requires
        p > 0,
        residues(c, product::product(a, b), p),
    ensures
        modular::cong(poly::eval(c, x), poly::eval(a, x) * poly::eval(b, x), p),
{
    lemma_residues(c, product::product(a, b), p);
    product::lemma_product_eval(a, b, x);
    poly::lemma_eval_cong(c, product::product(a, b), x, x, p);
}

/// A product of two polynomials of `n` coefficients, cut in two: with `y` the inverse of
/// `x`, `a(x) b(x) = x^(n-1) u(y) + x^n v(x)`. The first coefficient of `u` is the inner product
/// of `a` and the reversal of `b`.
pub proof fn decomposition_identity(
    a: Seq<int>,
    b: Seq<int>,
    u: Seq<int>,
    v: Seq<int>,
    x: int,
    y: int,
    p: int,
)
    requires
        p > 1,
        a.len() > 0,
        b.len() == a.len(),
        u.len() == a.len(),
        v.len() == a.len() - 1,
        forall|i: int|
            0 <= i < u.len() ==> #[trigger] u[i] == product::product(a, b)[a.len() - 1 - i] % p,
        forall|i: int|
            0 <= i < v.len() ==> #[trigger] v[i] == product::product(a, b)[a.len() + i] % p,
        modular::cong(x * y, 1, p),
    ensures
        modular::cong(
            poly::eval(a, x) * poly::eval(b, x),
            pow(x, (a.len() - 1) as nat) * poly::eval(u, y) + pow(x, a.len()) * poly::eval(v, x),
            p,
        ),
        u[0] == poly::revdot(a, b) % p,
{
    let n = a.len();
    let c = product::product(a, b);
    product::lemma_middle(a, b);
    let low = c.take(n as int);
    let high = c.skip(n as int);
    product::lemma_product_eval(a, b, x);
    let f = |i: int| c[i] * pow(x, i as nat);
    let g = |i: int| c[n + i] * pow(x, (n + i) as nat);
    sums::lemma_cut(n, (n - 1) as nat, f, g);
    assert(c.len() == n + (n - 1));
    let h = |i: int| high[i] * pow(x, i as nat);
    assert forall|i: int| 0 <= i < n - 1 implies #[trigger] g(i) == pow(x, n) * h(i) by {
        lemma_pow_adds(x, n, i as nat);
        let (s, t, w) = (high[i], pow(x, n), pow(x, i as nat));
        assert(s * (t * w) == t * (s * w)) by (nonlinear_arith);
    }
    sums::lemma_scale((n - 1) as nat, pow(x, n), h, g);
    lemma_residues(v, high, p);
    poly::lemma_eval_cong(v, high, x, x, p);
    modular::lemma_mul(pow(x, n), pow(x, n), poly::eval(v, x), poly::eval(high, x), p);
    // The lower half: each power of `x` is the highest one times a power of `y`.
    let top = pow(x, (n - 1) as nat);
    let back = low.reverse();
    let s = |i: int| back[i] * pow(y, i as nat);
    let lo = |i: int| top * s(i);
    let rev = |i: int| f(n - 1 - i);
    assert forall|i: int| 0 <= i < n implies modular::cong(#[trigger] rev(i), lo(i), p) by {
        let k = (n - 1 - i) as nat;
        lemma_pow_adds(x, k, i as nat);
        lemma_pow_distributes(x, y, i as nat);
        modular::lemma_pow(x * y, 1, i as nat, p);
        lemma1_pow(i as nat);
        let (w, xk, xi, yi) = (back[i], pow(x, k), pow(x, i as nat), pow(y, i as nat));
        assert(back[i] == c[n - 1 - i]);
        modular::lemma_mul(w * xk, w * xk, xi * yi, 1, p);
        assert((xk * xi) * (w * yi) == (w * xk) * (xi * yi)) by (nonlinear_arith);
        assert((w * xk) * 1 == w * xk);
    }
    assert forall|i: int| 0 <= i < n implies #[trigger] rev(i) == f(n - 1 - i) by {}
    sums::lemma_reverse(n, f, rev);
    sums::lemma_cong(n, rev, lo, p);
    sums::lemma_scale(n, top, s, lo);
    lemma_residues(u, back, p);
    poly::lemma_eval_cong(u, back, y, y, p);
    modular::lemma_mul(top, top, poly::eval(u, y), poly::eval(back, y), p);
    modular::lemma_add(
        sums::sigma(n, f),
        top * poly::eval(u, y),
        pow(x, n) * poly::eval(high, x),
        pow(x, n) * poly::eval(v, x),
        p,
    );
}

/// The polynomial with given roots has the value zero at each of them.
pub proof fn roots_vanish(roots: Seq<int>, c: Seq<int>, i: int, p: int)
    requires
        p > 1,
        residues(c, product::with_roots(roots), p),
        0 <= i < roots.len(),
    ensures
        modular::cong(poly::eval(c, roots[i]), 0, p),
{
    let w = product::with_roots(roots);
    let x = roots[i];
    product::lemma_roots_eval(roots, x);
    product::lemma_vanishes(roots, i);
    lemma_residues(c, w, p);
    poly::lemma_eval_cong(c, w, x, x, p);
}

/// The polynomial with given roots has one coefficient more than there are roots and is monic.
/// Its value is the product of the distances to the roots.
pub proof fn roots_values(roots: Seq<int>, c: Seq<int>, y: int, p: int)
    requires
        p > 1,
        residues(c, product::with_roots(roots), p),
    ensures
        c.len() == roots.len() + 1,
        c.last() == 1,
        modular::cong(poly::eval(c, y), product::vanishing(roots, y), p),
{
    let w = product::with_roots(roots);
    product::lemma_monic(roots);
    lemma_small_mod(1, p as nat);
    product::lemma_roots_eval(roots, y);
    lemma_residues(c, w, p);
    poly::lemma_eval_cong(c, w, y, y, p);
}

/// The order of the roots does not matter.
pub proof fn roots_in_any_order(s: Seq<int>, t: Seq<int>, c: Seq<int>, d: Seq<int>, p: int)
    requires
        s.to_multiset() == t.to_multiset(),
        residues(c, product::with_roots(s), p),
        residues(d, product::with_roots(t), p),
    ensures
        c == d,
{
    product::lemma_roots_permuted(s, t);
    assert(c =~= d);
}

/// What is left of `c` after `k` divisions by `X - r`, reduced.
pub open spec fn divided(c: Seq<int>, r: int, k: nat, p: int) -> Seq<int>
    decreases k,
{
    if k == 0 {
        c
    } else {
        divided(
            Seq::new(poly::quotient(c, r).len(), |i: int| poly::quotient(c, r)[i] % p),
            r,
            (k - 1) as nat,
            p,
        )
    }
}

/// A root that was given more than `k` times is still one after `k` divisions by it.
pub proof fn roots_keep_their_multiplicity(
    roots: Seq<int>,
    r: int,
    k: nat,
    c: Seq<int>,
    p: int,
)
    requires
        p > 1,
        residues(c, product::with_roots(roots), p),
        k < roots.to_multiset().count(r),
    ensures
        modular::cong(poly::eval(divided(c, r, k, p), r), 0, p),
    decreases k,
{
    roots.to_multiset_ensures();
    assert(roots.contains(r));
    let i = choose|i: int| 0 <= i < roots.len() && roots[i] == r;
    if k == 0 {
        roots_vanish(roots, c, i, p);
    } else {
        let (u, v) = (roots.take(i), roots.skip(i + 1));
        let q = Seq::new(poly::quotient(c, r).len(), |i: int| poly::quotient(c, r)[i] % p);
        assert(roots =~= u.push(r) + v);
        assert(roots.remove(i) =~= u + v);
        assert((u + v).to_multiset() =~= roots.to_multiset().remove(r));
        roots_divide_out(u, r, v, c, q, p);
        roots_keep_their_multiplicity(u + v, r, (k - 1) as nat, q, p);
    }
}

/// A root occurs as often as it was given: division by `X` minus the root leaves the
/// polynomial with the other roots.
pub proof fn roots_divide_out(
    s: Seq<int>,
    r: int,
    t: Seq<int>,
    c: Seq<int>,
    q: Seq<int>,
    p: int,
)
    requires
        p > 0,
        residues(c, product::with_roots(s.push(r) + t), p),
        residues(q, poly::quotient(c, r), p),
    ensures
        residues(q, product::with_roots(s + t), p),
{
    let w = product::with_roots(s.push(r) + t);
    let d = poly::quotient(w, r);
    product::lemma_root_removed(s, r, t);
    product::lemma_monic(s.push(r) + t);
    product::lemma_monic(s + t);
    lemma_residues(c, w, p);
    assert forall|i: int| 0 <= i < q.len() implies #[trigger] q[i] == d[i] % p by {
        let (cs, ws) = (c.skip(i + 1), w.skip(i + 1));
        assert(poly::cong(cs, ws, p)) by {
            assert forall|j: int| 0 <= j < cs.len() implies modular::cong(
                #[trigger] cs[j],
                ws[j],
                p,
            ) by {
                assert(modular::cong(c[i + 1 + j], w[i + 1 + j], p));
            }
        }
        poly::lemma_eval_cong(cs, ws, r, r, p);
        assert(q[i] == poly::quotient(c, r)[i] % p);
    }
}

/// Coefficients that are transformed forth and back are what they were.
pub proof fn transforms_invert<T: Ring>(
    coeffs: Seq<T::R>,
    evals: Seq<T::R>,
    back: Seq<T::R>,
    w: int,
    log: nat,
    i: int,
    k: int,
)
    requires
        domain::is_root(w, pow2(log), T::F::modulus()),
        coeffs.len() == pow2(log),
        domain::transformed::<T>(coeffs, evals, w),
        domain::transformed::<T>(back, evals, w),
        0 <= i < coeffs.len(),
        0 <= k < T::dims(),
    ensures
        T::coord(&back[i], k) == T::coord(&coeffs[i], k),
{
    let p = T::F::modulus();
    T::F::lemma_modulus();
    let c = domain::column::<T>(coeffs, k);
    let d = domain::column::<T>(back, k);
    assert forall|j: int| 0 <= j < c.len() implies modular::cong(
        #[trigger] poly::eval(c, pow(w, j as nat)),
        poly::eval(d, pow(w, j as nat)),
        p,
    ) by {
        assert(T::coord(&evals[j], k) == poly::eval(c, pow(w, j as nat)) % p);
        assert(T::coord(&evals[j], k) == poly::eval(d, pow(w, j as nat)) % p);
    }
    domain::lemma_determined(c, d, w, log, p);
    assert(modular::cong(c[i], d[i], p));
    T::lemma_coord(&coeffs[i], k);
    T::lemma_coord(&back[i], k);
    lemma_small_mod(c[i] as nat, p as nat);
    lemma_small_mod(d[i] as nat, p as nat);
}

/// The value of a sum is the sum of the values.
pub proof fn sum_values(a: Seq<int>, b: Seq<int>, s: Seq<int>, x: int, p: int)
    requires
        p > 0,
        a.len() == s.len(),
        b.len() == s.len(),
        forall|k: int| 0 <= k < s.len() ==> #[trigger] s[k] == (a[k] + b[k]) % p,
    ensures
        modular::cong(poly::eval(s, x), poly::eval(a, x) + poly::eval(b, x), p),
{
    let full = Seq::new(s.len(), |k: int| a[k] + b[k]);
    lemma_residues(s, full, p);
    poly::lemma_eval_add(a, b, full, x);
    poly::lemma_eval_cong(s, full, x, x, p);
}

/// The value of a difference is the difference of the values.
pub proof fn difference_values(a: Seq<int>, b: Seq<int>, d: Seq<int>, x: int, p: int)
    requires
        p > 0,
        a.len() == d.len(),
        b.len() == d.len(),
        forall|k: int| 0 <= k < d.len() ==> #[trigger] d[k] == (a[k] - b[k]) % p,
    ensures
        modular::cong(poly::eval(d, x), poly::eval(a, x) - poly::eval(b, x), p),
{
    let neg = Seq::new(d.len(), |k: int| -1 * b[k]);
    let full = Seq::new(d.len(), |k: int| a[k] - b[k]);
    lemma_residues(d, full, p);
    poly::lemma_eval_scale(b, -1, neg, x);
    poly::lemma_eval_add(a, neg, full, x);
    poly::lemma_eval_cong(d, full, x, x, p);
}

/// The value of a multiple is the multiple of the value.
pub proof fn scaled_values(a: Seq<int>, by: int, s: Seq<int>, x: int, p: int)
    requires
        p > 0,
        a.len() == s.len(),
        forall|k: int| 0 <= k < s.len() ==> #[trigger] s[k] == (a[k] * by) % p,
    ensures
        modular::cong(poly::eval(s, x), by * poly::eval(a, x), p),
{
    let full = Seq::new(s.len(), |k: int| a[k] * by);
    lemma_residues(s, full, p);
    assert forall|k: int| 0 <= k < full.len() implies #[trigger] full[k] == by * a[k] by {
        lemma_mul_is_commutative(a[k], by);
    }
    poly::lemma_eval_scale(a, by, full, x);
    poly::lemma_eval_cong(s, full, x, x, p);
}

/// The value of the negation is the negation of the value.
pub proof fn negated_values(a: Seq<int>, n: Seq<int>, x: int, p: int)
    requires
        p > 0,
        a.len() == n.len(),
        forall|k: int| 0 <= k < n.len() ==> #[trigger] n[k] == (-a[k]) % p,
    ensures
        modular::cong(poly::eval(n, x), -poly::eval(a, x), p),
{
    let full = Seq::new(n.len(), |k: int| -a[k]);
    lemma_residues(n, full, p);
    poly::lemma_eval_scale(a, -1, full, x);
    poly::lemma_eval_cong(n, full, x, x, p);
}

/// Addition commutes.
pub proof fn addition_commutes(a: Seq<int>, b: Seq<int>, s: Seq<int>, t: Seq<int>, p: int)
    requires
        s.len() == a.len(),
        t.len() == a.len(),
        forall|k: int| 0 <= k < s.len() ==> #[trigger] s[k] == (a[k] + b[k]) % p,
        forall|k: int| 0 <= k < t.len() ==> #[trigger] t[k] == (b[k] + a[k]) % p,
    ensures
        s == t,
{
    assert(s =~= t);
}

/// What was added can be subtracted again.
pub proof fn subtraction_undoes_addition(
    a: Seq<int>,
    b: Seq<int>,
    s: Seq<int>,
    d: Seq<int>,
    p: int,
)
    requires
        p > 0,
        reduced(a, p),
        s.len() == a.len(),
        d.len() == a.len(),
        forall|k: int| 0 <= k < s.len() ==> #[trigger] s[k] == (a[k] + b[k]) % p,
        forall|k: int| 0 <= k < d.len() ==> #[trigger] d[k] == (s[k] - b[k]) % p,
    ensures
        d == a,
{
    assert forall|k: int| 0 <= k < a.len() implies #[trigger] d[k] == a[k] by {
        assert(s[k] == (a[k] + b[k]) % p);
        modular::lemma_rem(a[k] + b[k], p);
        modular::lemma_sub(s[k], a[k] + b[k], b[k], b[k], p);
        lemma_small_mod(a[k] as nat, p as nat);
    }
    assert(d =~= a);
}

/// A polynomial less itself is zero.
pub proof fn difference_with_itself(a: Seq<int>, d: Seq<int>, p: int)
    requires
        p > 0,
        d.len() == a.len(),
        forall|k: int| 0 <= k < d.len() ==> #[trigger] d[k] == (a[k] - a[k]) % p,
    ensures
        forall|k: int| 0 <= k < d.len() ==> #[trigger] d[k] == 0,
{
    lemma_small_mod(0, p as nat);
}

/// A polynomial and its negation add up to zero.
pub proof fn sum_with_negation(a: Seq<int>, n: Seq<int>, s: Seq<int>, p: int)
    requires
        p > 0,
        n.len() == a.len(),
        s.len() == a.len(),
        forall|k: int| 0 <= k < n.len() ==> #[trigger] n[k] == (-a[k]) % p,
        forall|k: int| 0 <= k < s.len() ==> #[trigger] s[k] == (a[k] + n[k]) % p,
    ensures
        forall|k: int| 0 <= k < s.len() ==> #[trigger] s[k] == 0,
{
    assert forall|k: int| 0 <= k < s.len() implies #[trigger] s[k] == 0 by {
        assert(n[k] == (-a[k]) % p);
        modular::lemma_rem(-a[k], p);
        modular::lemma_add(a[k], a[k], n[k], -a[k], p);
        lemma_small_mod(0, p as nat);
    }
}

/// Negation undoes itself.
pub proof fn negation_undoes_itself(a: Seq<int>, n: Seq<int>, m: Seq<int>, p: int)
    requires
        p > 0,
        reduced(a, p),
        n.len() == a.len(),
        m.len() == a.len(),
        forall|k: int| 0 <= k < n.len() ==> #[trigger] n[k] == (-a[k]) % p,
        forall|k: int| 0 <= k < m.len() ==> #[trigger] m[k] == (-n[k]) % p,
    ensures
        m == a,
{
    assert forall|k: int| 0 <= k < a.len() implies #[trigger] m[k] == a[k] by {
        assert(n[k] == (-a[k]) % p);
        modular::lemma_rem(-a[k], p);
        modular::lemma_sub(0, 0, n[k], -a[k], p);
        lemma_small_mod(a[k] as nat, p as nat);
    }
    assert(m =~= a);
}

/// Multiplied by one, a polynomial stays what it is.
pub proof fn scaling_by_one(a: Seq<int>, s: Seq<int>, p: int)
    requires
        p > 0,
        reduced(a, p),
        s.len() == a.len(),
        forall|k: int| 0 <= k < s.len() ==> #[trigger] s[k] == (a[k] * 1) % p,
    ensures
        s == a,
{
    assert forall|k: int| 0 <= k < a.len() implies #[trigger] s[k] == a[k] by {
        assert(a[k] * 1 == a[k]);
        lemma_small_mod(a[k] as nat, p as nat);
    }
    assert(s =~= a);
}

/// Multiplied by zero, a polynomial is zero.
pub proof fn scaling_by_zero(a: Seq<int>, s: Seq<int>, p: int)
    requires
        p > 0,
        s.len() == a.len(),
        forall|k: int| 0 <= k < s.len() ==> #[trigger] s[k] == (a[k] * 0) % p,
    ensures
        forall|k: int| 0 <= k < s.len() ==> #[trigger] s[k] == 0,
{
    assert forall|k: int| 0 <= k < s.len() implies #[trigger] s[k] == 0 by {
        assert(a[k] * 0 == 0);
        lemma_small_mod(0, p as nat);
    }
}

/// The dilation of a polynomial by `z` has at `x` the value of the polynomial at `x z`.
pub proof fn dilated_values(a: Seq<int>, z: int, d: Seq<int>, x: int, p: int)
    requires
        p > 0,
        d.len() == a.len(),
        forall|k: int| 0 <= k < d.len() ==> #[trigger] d[k] == (a[k] * pow(z, k as nat)) % p,
    ensures
        modular::cong(poly::eval(d, x), poly::eval(a, x * z), p),
{
    let full = Seq::new(d.len(), |k: int| a[k] * pow(z, k as nat));
    lemma_residues(d, full, p);
    poly::lemma_eval_cong(d, full, x, x, p);
    let f = |k: int| full[k] * pow(x, k as nat);
    let g = |k: int| a[k] * pow(x * z, k as nat);
    assert forall|k: int| 0 <= k < d.len() implies #[trigger] f(k) == g(k) by {
        lemma_pow_distributes(x, z, k as nat);
        let (c, u, v) = (a[k], pow(z, k as nat), pow(x, k as nat));
        assert((c * u) * v == c * (v * u)) by (nonlinear_arith);
    }
    sums::lemma_ext(d.len(), f, g);
}

/// The inner product with a reversal is the plain inner product with the reversed vector.
pub proof fn revdot_is_dot(a: Seq<int>, b: Seq<int>)
    requires
        a.len() == b.len(),
    ensures
        poly::revdot(a, b) == poly::dot(a, b.reverse()),
{
    let r = b.reverse();
    let f = |i: int| a[i] * b[a.len() - 1 - i];
    let g = |i: int| a[i] * r[i];
    sums::lemma_ext(a.len(), f, g);
}

/// The coefficients at `k` of several polynomials.
pub open spec fn column(polys: Seq<Seq<int>>, k: int) -> Seq<int> {
    Seq::new(polys.len(), |i: int| polys[i][k])
}

/// The values at `x` of several polynomials.
pub open spec fn values(polys: Seq<Seq<int>>, x: int) -> Seq<int> {
    Seq::new(polys.len(), |i: int| poly::eval(polys[i], x))
}

/// A combination of polynomials by powers has, as its value, the combination of the
/// values.
pub proof fn combination_values(polys: Seq<Seq<int>>, c: Seq<int>, alpha: int, x: int)
    requires
        forall|i: int| 0 <= i < polys.len() ==> (#[trigger] polys[i]).len() == c.len(),
        forall|k: int|
            0 <= k < c.len() ==> #[trigger] c[k] == poly::eval(column(polys, k).reverse(), alpha),
    ensures
        poly::eval(c, x) == poly::eval(values(polys, x).reverse(), alpha),
{
    let m = polys.len();
    let n = c.len();
    let term = |k: int, i: int| polys[m - 1 - i][k] * pow(alpha, i as nat) * pow(x, k as nat);
    let outer = |k: int| c[k] * pow(x, k as nat);
    let rows = |k: int| sums::sigma(m, |i: int| term(k, i));
    assert forall|k: int| 0 <= k < n implies #[trigger] outer(k) == rows(k) by {
        let col = column(polys, k).reverse();
        let y = pow(x, k as nat);
        let f = |i: int| col[i] * pow(alpha, i as nat);
        let g = |i: int| term(k, i);
        assert forall|i: int| 0 <= i < m implies #[trigger] g(i) == y * f(i) by {
            lemma_mul_is_commutative(f(i), y);
        }
        sums::lemma_scale(m, y, f, g);
        lemma_mul_is_commutative(c[k], y);
        assert(c[k] == poly::eval(col, alpha));
    }
    sums::lemma_ext(n, outer, rows);
    sums::lemma_swap(n, m, term);
    let vals = values(polys, x).reverse();
    let cols = |i: int| sums::sigma(n, |k: int| term(k, i));
    let inner = |i: int| vals[i] * pow(alpha, i as nat);
    assert forall|i: int| 0 <= i < m implies #[trigger] cols(i) == inner(i) by {
        let q = polys[m - 1 - i];
        let y = pow(alpha, i as nat);
        let f = |k: int| q[k] * pow(x, k as nat);
        let g = |k: int| term(k, i);
        assert forall|k: int| 0 <= k < n implies #[trigger] g(k) == y * f(k) by {
            let (a, b) = (q[k], pow(x, k as nat));
            assert(a * y * b == y * (a * b)) by (nonlinear_arith);
        }
        sums::lemma_scale(n, y, f, g);
        lemma_mul_is_commutative(vals[i], y);
        assert(q.len() == n);
    }
    sums::lemma_ext(m, cols, inner);
}

/// A fold of polynomials has, as its value, the fold of the values: the first by the
/// highest power of `alpha`, the last by one.
pub proof fn folded_values(polys: Seq<Seq<int>>, r: Seq<int>, alpha: int, x: int, p: int)
    requires
        p > 0,
        forall|i: int| 0 <= i < polys.len() ==> (#[trigger] polys[i]).len() == r.len(),
        forall|k: int|
            0 <= k < r.len() ==> #[trigger] r[k] == poly::eval(column(polys, k).reverse(), alpha)
                % p,
    ensures
        modular::cong(poly::eval(r, x), poly::eval(values(polys, x).reverse(), alpha), p),
{
    let c = Seq::new(r.len(), |k: int| poly::eval(column(polys, k).reverse(), alpha));
    combination_values(polys, c, alpha, x);
    lemma_residues(r, c, p);
    poly::lemma_eval_cong(r, c, x, x, p);
}

/// A fold of one polynomial is that polynomial.
pub proof fn fold_of_one(a: Seq<int>, r: Seq<int>, alpha: int, p: int)
    requires
        p > 0,
        reduced(a, p),
        r.len() == a.len(),
        forall|k: int|
            0 <= k < r.len() ==> #[trigger] r[k] == poly::eval(
                column(seq![a], k).reverse(),
                alpha,
            ) % p,
    ensures
        r == a,
{
    assert forall|k: int| 0 <= k < a.len() implies #[trigger] r[k] == a[k] by {
        let c = column(seq![a], k).reverse();
        poly::lemma_horner(c, alpha);
        assert(c.skip(1) =~= Seq::<int>::empty());
        assert(alpha * 0 == 0);
        lemma_small_mod(a[k] as nat, p as nat);
        assert(r[k] == poly::eval(c, alpha) % p);
    }
    assert(r =~= a);
}

/// The values at `y` of the quotients of several queries.
pub open spec fn quotient_values(qs: Seq<QuerySpec>, y: int) -> Seq<int> {
    Seq::new(qs.len(), |i: int| poly::eval(poly::quotient(qs[i].0, qs[i].1), y))
}

/// The combination of quotients has, as its value, the combination of the values of the
/// quotients: the first by the highest power of `alpha`, the last by one.
pub proof fn combined_quotient_values(
    qs: Seq<QuerySpec>,
    r: Seq<int>,
    alpha: int,
    y: int,
    p: int,
)
    requires
        p > 0,
        r.len() > 0,
        forall|i: int| 0 <= i < qs.len() ==> (#[trigger] qs[i]).0.len() == r.len(),
        forall|k: int|
            0 <= k < r.len() ==> #[trigger] r[k] == quotients::combined(qs, alpha, k) % p,
    ensures
        modular::cong(poly::eval(r, y), poly::eval(quotient_values(qs, y).reverse(), alpha), p),
{
    let padded = Seq::new(
        qs.len(),
        |i: int|
            Seq::new(r.len(), |k: int| product::coeff(poly::quotient(qs[i].0, qs[i].1), k)),
    );
    assert forall|k: int| 0 <= k < r.len() implies #[trigger] r[k] == poly::eval(
        column(padded, k).reverse(),
        alpha,
    ) % p by {
        assert(column(padded, k) =~= quotients::quotient_column(qs, k));
    }
    folded_values(padded, r, alpha, y, p);
    assert forall|i: int| 0 <= i < qs.len() implies #[trigger] values(padded, y)[i]
        == quotient_values(qs, y)[i] by {
        assert(qs[i].0.len() == r.len());
        poly::lemma_eval_pad(poly::quotient(qs[i].0, qs[i].1), padded[i], y);
    }
    assert(values(padded, y) =~= quotient_values(qs, y));
}

/// A commitment takes no notice of generators behind the last coefficient.
pub proof fn commitment_uses_first_bases<C: CurveAffine>(c: Seq<int>, bases: Seq<C>)
    requires
        c.len() <= bases.len(),
    ensures
        commit::commitment(c, bases) == commit::commitment(c, bases.take(c.len() as int)),
{
    let d = curve::dlogs(bases);
    let e = curve::dlogs(bases.take(c.len() as int));
    let f = |i: int| c[i] * d[i];
    let g = |i: int| c[i] * e[i];
    sums::lemma_ext(c.len(), f, g);
}

/// Commitments add up: the commitment to a sum is the sum of the commitments.
pub proof fn commitments_add<C: CurveAffine>(
    a: Seq<int>,
    b: Seq<int>,
    s: Seq<int>,
    bases: Seq<C>,
)
    requires
        a.len() == s.len(),
        b.len() == s.len(),
        forall|k: int|
            0 <= k < s.len() ==> #[trigger] s[k] == (a[k] + b[k]) % C::Scalar::modulus(),
    ensures
        commit::commitment(s, bases) == (commit::commitment(a, bases) + commit::commitment(
            b,
            bases,
        )) % C::Scalar::modulus(),
{
    let p = C::Scalar::modulus();
    C::Scalar::lemma_modulus();
    let d = curve::dlogs(bases);
    let f = |i: int| a[i] * d[i];
    let g = |i: int| b[i] * d[i];
    let h = |i: int| f(i) + g(i);
    let t = |i: int| s[i] * d[i];
    sums::lemma_plus(s.len(), f, g, h);
    assert forall|i: int| 0 <= i < s.len() implies modular::cong(#[trigger] t(i), h(i), p) by {
        let (x, y, z) = (a[i], b[i], d[i]);
        assert(s[i] == (x + y) % p);
        modular::lemma_rem(x + y, p);
        modular::lemma_mul(s[i], x + y, z, z, p);
        assert((x + y) * z == x * z + y * z) by (nonlinear_arith);
    }
    sums::lemma_cong(s.len(), t, h, p);
    let (ca, cb) = (poly::dot(a, d), poly::dot(b, d));
    modular::lemma_rem(ca, p);
    modular::lemma_rem(cb, p);
    modular::lemma_add(ca % p, ca, cb % p, cb, p);
}

/// A combination of commitments is the commitment to the combination: where each of the
/// polynomials has the commitment at its position, and `a` is the combination of the
/// polynomials that the terms tell, the combination of the commitments that they tell is
/// the commitment to `a`.
pub proof fn folded_commitment<C: CurveAffine>(
    terms: Seq<TermSpec>,
    polys: Seq<Seq<int>>,
    commitments: Seq<C>,
    a: Seq<int>,
    bases: Seq<C>,
)
    requires
        commitments.len() == polys.len(),
        forall|i: int| 0 <= i < terms.len() ==> 0 <= (#[trigger] terms[i]).0 < polys.len(),
        forall|j: int| 0 <= j < polys.len() ==> (#[trigger] polys[j]).len() == a.len(),
        forall|j: int|
            0 <= j < polys.len() ==> (#[trigger] commitments[j]).dlog() == commit::commitment(
                polys[j],
                bases,
            ),
        forall|k: int|
            0 <= k < a.len() ==> #[trigger] a[k] == fuse::weigh(terms, |j: int| polys[j][k])
                % C::Scalar::modulus(),
    ensures
        commit::commitment(a, bases) == fuse::combination(terms, commitments),
{
    let p = C::Scalar::modulus();
    C::Scalar::lemma_modulus();
    let (n, m) = (a.len(), terms.len());
    let d = curve::dlogs(bases);
    let cell = |k: int, i: int| terms[i].1 * polys[terms[i].0][k] * d[k];
    let outer = |k: int| a[k] * d[k];
    let rows = |k: int| sums::sigma(m, |i: int| cell(k, i));
    assert forall|k: int| 0 <= k < n implies modular::cong(#[trigger] outer(k), rows(k), p) by {
        let g = |j: int| polys[j][k];
        let f = |i: int| terms[i].1 * g(terms[i].0);
        let h = |i: int| cell(k, i);
        let w = fuse::weigh(terms, g);
        assert(a[k] == w % p);
        assert forall|i: int| 0 <= i < m implies #[trigger] h(i) == d[k] * f(i) by {
            lemma_mul_is_commutative(f(i), d[k]);
        }
        sums::lemma_scale(m, d[k], f, h);
        modular::lemma_rem(w, p);
        modular::lemma_mul(a[k], w, d[k], d[k], p);
        lemma_mul_is_commutative(w, d[k]);
    }
    sums::lemma_cong(n, outer, rows, p);
    sums::lemma_swap(n, m, cell);
    let cols = |i: int| sums::sigma(n, |k: int| cell(k, i));
    let logs = |j: int| curve::dlogs(commitments)[j];
    let inner = |i: int| terms[i].1 * logs(terms[i].0);
    assert forall|i: int| 0 <= i < m implies modular::cong(#[trigger] cols(i), inner(i), p) by {
        let (j, c) = (terms[i].0, terms[i].1);
        let q = polys[j];
        let f = |k: int| q[k] * d[k];
        let h = |k: int| cell(k, i);
        assert forall|k: int| 0 <= k < n implies #[trigger] h(k) == c * f(k) by {
            lemma_mul_is_associative(c, q[k], d[k]);
        }
        sums::lemma_scale(n, c, f, h);
        assert(q.len() == n);
        assert(commitments[j].dlog() == poly::dot(q, d) % p);
        modular::lemma_rem(poly::dot(q, d), p);
        modular::lemma_mul(c, c, poly::dot(q, d), logs(j), p);
    }
    sums::lemma_cong(m, cols, inner, p);
}

/// Whichever end the coefficients are taken from, what is left lies between.
pub proof fn taken_from_either_end(c: Seq<int>, i: int, j: int)
    requires
        0 <= i < j <= c.len(),
    ensures
        c.subrange(i, j)[0] == c[i],
        c.subrange(i, j).skip(1) == c.subrange(i + 1, j),
        c.subrange(i, j).last() == c[j - 1],
        c.subrange(i, j).drop_last() == c.subrange(i, j - 1),
{
    assert(c.subrange(i, j).skip(1) =~= c.subrange(i + 1, j));
    assert(c.subrange(i, j).drop_last() =~= c.subrange(i, j - 1));
}

/// Where a backend gives no results, the result is that of the processor, and every
/// candidate is counted as a fallback.
pub proof fn silent_accelerator_falls_back<A: MsmFacade>(
    facade: &A,
    config: AccelMsmConfig,
    offer: Offer,
    exact: int,
    dlog: int,
    before: AccelMsmStats,
    after: AccelMsmStats,
)
    requires
        accel::multiplied(facade, config, offer, exact, dlog, before, after),
        accel::silent(facade, config.backend),
        before.candidates == before.fallbacks,
    ensures
        dlog == exact,
        after.facade_results == before.facade_results,
        after.fallbacks == after.candidates,
{
    if offer.0.len() >= config.min_msm_size {
        let n = offer.0.len() as int;
        let reply = choose|reply: Option<int>|
            #[trigger] facade.replies(offer, config.backend, reply) && (match reply {
                Some(d) => dlog == d && accel::counted(before, after, n, true),
                None => dlog == exact && accel::counted(before, after, n, false),
            });
        if reply is Some {
            assert(facade.replies(offer, config.backend, Some(reply->Some_0)));
        }
    }
}

/// The backend and the size that a builder was made with, or else those of the process.
pub open spec fn prevails<'params, C: Cycle, R: Rank, A: MsmFacade>(
    builder: ProofBuilder<'params, C, R, A>,
    backend: AccelBackend,
    size: usize,
) -> bool {
    match builder.accel_config {
        Some(own) => own.backend == backend && own.min_msm_size == size,
        None => builder.ambient matches Some(config) && config.backend == backend
            && config.min_msm_size == size,
    }
}

/// How a multiplication was counted: not at all where it has too few points, and else as one
/// candidate of that many points, for which there was a result or not.
pub open spec fn counted_as(
    before: AccelMsmStats,
    after: AccelMsmStats,
    points: nat,
    size: usize,
    result: bool,
) -> bool {
    let one = if points >= size {
        1int
    } else {
        0int
    };
    let hit = if result {
        one
    } else {
        0int
    };
    &&& after.candidates == accel::advanced(before.candidates, one)
    &&& after.facade_results == accel::advanced(before.facade_results, hit)
    &&& after.fallbacks == accel::advanced(before.fallbacks, one - hit)
    &&& after.total_candidate_points == accel::advanced(
        before.total_candidate_points,
        one * points,
    )
}

proof fn lemma_named_backend<A: MsmFacade>(
    facade: &A,
    config: AccelMsmConfig,
    offer: Offer,
    exact: int,
    dlog: int,
    before: AccelMsmStats,
    after: AccelMsmStats,
)
    requires
        accel::multiplied(facade, config, offer, exact, dlog, before, after),
    ensures
        accel::silent(facade, config.backend) ==> dlog == exact && counted_as(
            before,
            after,
            offer.0.len(),
            config.min_msm_size,
            false,
        ),
        accel::diligent(facade, config.backend) ==> counted_as(
            before,
            after,
            offer.0.len(),
            config.min_msm_size,
            true,
        ),
{
    if offer.0.len() >= config.min_msm_size {
        let n = offer.0.len() as int;
        let reply = choose|reply: Option<int>|
            #[trigger] facade.replies(offer, config.backend, reply) && (match reply {
                Some(d) => dlog == d && accel::counted(before, after, n, true),
                None => dlog == exact && accel::counted(before, after, n, false),
            });
        match reply {
            Some(d) => {
                assert(facade.replies(offer, config.backend, Some(d)));
            },
            None => {
                assert(facade.replies(offer, config.backend, None));
            },
        }
    }
}

/// The backend that a builder's config names is the one that is asked for its commitments on
/// the host curve, and no other: where it gives no results, every commitment to as many
/// coefficients as the config says is counted as a fallback, and where it always gives one, as
/// a result of the accelerator, whatever other backends would do.
pub proof fn native_commitments_ask_the_named_backend<
    'params,
    C: Cycle,
    R: Rank,
    A: MsmFacade,
>(
    builder: ProofBuilder<'params, C, R, A>,
    backend: AccelBackend,
    size: usize,
    poly: Polynomial<C::CircuitField, R>,
    dlog: int,
    before: AccelMsmStats,
    after: AccelMsmStats,
)
    requires
        prevails(builder, backend, size),
        builder.host_fits(),
        poly.wf(),
        builder.host_commits(dlog, &poly, before, after),
    ensures
        accel::silent(builder.facade, backend) ==> counted_as(
            before,
            after,
            layout::stored(poly.layout()),
            size,
            false,
        ) && dlog == commit::commitment(poly@, C::host(builder.params).bases()),
        accel::diligent(builder.facade, backend) ==> counted_as(
            before,
            after,
            layout::stored(poly.layout()),
            size,
            true,
        ),
{
    let bases = C::host(builder.params).bases();
    layout::lemma_stored_len(
        poly.layout(),
        4 * R::gates() as int,
        curve::dlogs(bases),
    );
    let offer = commit::commitment_offer(poly.layout(), bases);
    lemma_named_backend(
        builder.facade,
        builder.settings_spec()->Some_0,
        offer,
        commit::commitment(poly@, bases),
        dlog,
        before,
        after,
    );
}

/// The backend that a builder's config names is the one that is asked for its commitments on
/// the nested curve, and no other: where it gives no results, every commitment to as many
/// coefficients as the config says is counted as a fallback, and where it always gives one, as
/// a result of the accelerator, whatever other backends would do.
pub proof fn nested_commitments_ask_the_named_backend<
    'params,
    C: Cycle,
    R: Rank,
    A: MsmFacade,
>(
    builder: ProofBuilder<'params, C, R, A>,
    backend: AccelBackend,
    size: usize,
    poly: Polynomial<C::ScalarField, R>,
    dlog: int,
    before: AccelMsmStats,
    after: AccelMsmStats,
)
    requires
        prevails(builder, backend, size),
        builder.nested_fits(),
        poly.wf(),
        builder.nested_commits(dlog, &poly, before, after),
    ensures
        accel::silent(builder.facade, backend) ==> counted_as(
            before,
            after,
            layout::stored(poly.layout()),
            size,
            false,
        ) && dlog == commit::commitment(poly@, C::nested(builder.params).bases()),
        accel::diligent(builder.facade, backend) ==> counted_as(
            before,
            after,
            layout::stored(poly.layout()),
            size,
            true,
        ),
{
    let bases = C::nested(builder.params).bases();
    layout::lemma_stored_len(
        poly.layout(),
        4 * R::gates() as int,
        curve::dlogs(bases),
    );
    let offer = commit::commitment_offer(poly.layout(), bases);
    lemma_named_backend(
        builder.facade,
        builder.settings_spec()->Some_0,
        offer,
        commit::commitment(poly@, bases),
        dlog,
        before,
        after,
    );
}

/// The backend that a builder's config names is the one that is asked for its other
/// multiplications.
pub proof fn multiplications_ask_the_named_backend<'params, C: Cycle, R: Rank, A: MsmFacade>(
    builder: ProofBuilder<'params, C, R, A>,
    backend: AccelBackend,
    size: usize,
    offer: Offer,
    dlog: int,
    before: AccelMsmStats,
    after: AccelMsmStats,
)
    requires
        prevails(builder, backend, size),
        accel::multiplied_with(
            builder.facade,
            builder.settings_spec(),
            offer,
            accel::value(offer),
            dlog,
            before,
            after,
        ),
    ensures
        accel::silent(builder.facade, backend) ==> dlog == accel::value(offer) && counted_as(
            before,
            after,
            offer.0.len(),
            size,
            false,
        ),
        accel::diligent(builder.facade, backend) ==> counted_as(
            before,
            after,
            offer.0.len(),
            size,
            true,
        ),
{
    lemma_named_backend(
        builder.facade,
        builder.settings_spec()->Some_0,
        offer,
        accel::value(offer),
        dlog,
        before,
        after,
    );
}

/// Where neither the builder nor the process has settings, no accelerator is asked: results are
/// the true ones, and nothing is counted.
pub proof fn without_settings_nothing_is_asked<'params, C: Cycle, R: Rank, A: MsmFacade>(
    builder: ProofBuilder<'params, C, R, A>,
    offer: Offer,
    dlog: int,
    before: AccelMsmStats,
    after: AccelMsmStats,
)
    requires
        builder.accel_config is None,
        builder.ambient is None,
        accel::multiplied_with(
            builder.facade,
            builder.settings_spec(),
            offer,
            accel::value(offer),
            dlog,
            before,
            after,
        ),
    ensures
        dlog == accel::value(offer),
        after == before,
{
}

/// A multiplication that an accelerator with true results takes part in gives what it gives
/// without one.
pub proof fn truthful_accelerator_changes_no_multiplication<A: MsmFacade>(
    facade: &A,
    settings: Option<AccelMsmConfig>,
    offer: Offer,
    dlog: int,
    before: AccelMsmStats,
    after: AccelMsmStats,
)
    requires
        accel::multiplied_with(facade, settings, offer, accel::value(offer), dlog, before, after),
        settings matches Some(config) ==> accel::truthful(facade, config.backend),
    ensures
        dlog == accel::value(offer),
{
    if let Some(config) = settings {
        accel::lemma_truthful(facade, config, offer, accel::value(offer), dlog, before, after);
    }
}

/// A run of multiplications. `next` decides from the results so far which multiplication comes
/// next, or that there is none. The results, in order, may be `results`, and the counters move
/// through `trace`.
pub open spec fn runs<A: MsmFacade>(
    next: spec_fn(Seq<int>) -> Option<Offer>,
    facade: &A,
    settings: Option<AccelMsmConfig>,
    results: Seq<int>,
    trace: Seq<AccelMsmStats>,
) -> bool {
    &&& trace.len() == results.len() + 1
    &&& next(results) is None
    &&& forall|i: int|
        0 <= i < results.len() ==> #[trigger] run_step(next, facade, settings, results, trace, i)
}

/// One multiplication of a run.
pub open spec fn run_step<A: MsmFacade>(
    next: spec_fn(Seq<int>) -> Option<Offer>,
    facade: &A,
    settings: Option<AccelMsmConfig>,
    results: Seq<int>,
    trace: Seq<AccelMsmStats>,
    i: int,
) -> bool {
    match next(results.take(i)) {
        Some(offer) => accel::multiplied_with(
            facade,
            settings,
            offer,
            accel::value(offer),
            results[i],
            trace[i],
            trace[i + 1],
        ),
        None => false,
    }
}

/// An accelerator with true results changes no run of multiplications: whatever decides from
/// the results so far how to go on, decides the same with such an accelerator, with another
/// one and with none. In particular it stops at the same time.
pub proof fn truthful_accelerator_changes_no_run<A: MsmFacade, B: MsmFacade>(
    next: spec_fn(Seq<int>) -> Option<Offer>,
    one: &A,
    settings_one: Option<AccelMsmConfig>,
    results_one: Seq<int>,
    trace_one: Seq<AccelMsmStats>,
    two: &B,
    settings_two: Option<AccelMsmConfig>,
    results_two: Seq<int>,
    trace_two: Seq<AccelMsmStats>,
)
    requires
        runs(next, one, settings_one, results_one, trace_one),
        runs(next, two, settings_two, results_two, trace_two),
        settings_one matches Some(config) ==> accel::truthful(one, config.backend),
        settings_two matches Some(config) ==> accel::truthful(two, config.backend),
    ensures
        results_one == results_two,
{
    let (a, b) = (results_one, results_two);
    let m = if a.len() < b.len() {
        a.len() as int
    } else {
        b.len() as int
    };
    lemma_run_prefix(
        next,
        one,
        settings_one,
        a,
        trace_one,
        two,
        settings_two,
        b,
        trace_two,
        m,
    );
    if a.len() < b.len() {
        assert(a.take(m) =~= a);
        assert(run_step(next, two, settings_two, b, trace_two, m));
    } else if b.len() < a.len() {
        assert(b.take(m) =~= b);
        assert(run_step(next, one, settings_one, a, trace_one, m));
    } else {
        assert(a.take(m) =~= a);
        assert(b.take(m) =~= b);
    }
}

proof fn lemma_run_prefix<A: MsmFacade, B: MsmFacade>(
    next: spec_fn(Seq<int>) -> Option<Offer>,
    one: &A,
    settings_one: Option<AccelMsmConfig>,
    a: Seq<int>,
    trace_one: Seq<AccelMsmStats>,
    two: &B,
    settings_two: Option<AccelMsmConfig>,
    b: Seq<int>,
    trace_two: Seq<AccelMsmStats>,
    m: int,
)
    requires
        runs(next, one, settings_one, a, trace_one),
        runs(next, two, settings_two, b, trace_two),
        settings_one matches Some(config) ==> accel::truthful(one, config.backend),
        settings_two matches Some(config) ==> accel::truthful(two, config.backend),
        0 <= m <= a.len(),
        m <= b.len(),
    ensures
        a.take(m) == b.take(m),
    decreases m,
{
    if m == 0 {
        assert(a.take(0) =~= b.take(0));
    } else {
        let k = m - 1;
        lemma_run_prefix(
            next,
            one,
            settings_one,
            a,
            trace_one,
            two,
            settings_two,
            b,
            trace_two,
            k,
        );
        assert(run_step(next, one, settings_one, a, trace_one, k));
        assert(run_step(next, two, settings_two, b, trace_two, k));
        let offer = next(a.take(k))->Some_0;
        truthful_accelerator_changes_no_multiplication(
            one,
            settings_one,
            offer,
            a[k],
            trace_one[k],
            trace_one[k + 1],
        );
        truthful_accelerator_changes_no_multiplication(
            two,
            settings_two,
            offer,
            b[k],
            trace_two[k],
            trace_two[k + 1],
        );
        assert(a.take(m) =~= a.take(k).push(a[k]));
        assert(b.take(m) =~= b.take(k).push(b[k]));
    }
}

/// A commitment that an accelerator with true results takes part in is the commitment to the
/// polynomial, on the host curve.
pub proof fn truthful_accelerator_changes_no_native_commitment<
    'params,
    C: Cycle,
    R: Rank,
    A: MsmFacade,
>(
    builder: ProofBuilder<'params, C, R, A>,
    poly: Polynomial<C::CircuitField, R>,
    dlog: int,
    before: AccelMsmStats,
    after: AccelMsmStats,
)
    requires
        builder.exact(),
        builder.host_fits(),
        poly.wf(),
        builder.host_commits(dlog, &poly, before, after),
    ensures
        dlog == commit::commitment(poly@, C::host(builder.params).bases()),
{
    let bases = C::host(builder.params).bases();
    commit::lemma_commitment_offer(poly.layout(), 4 * R::gates(), bases);
    truthful_accelerator_changes_no_multiplication(
        builder.facade,
        builder.settings_spec(),
        commit::commitment_offer(poly.layout(), bases),
        dlog,
        before,
        after,
    );
}

/// A commitment that an accelerator with true results takes part in is the commitment to the
/// polynomial, on the nested curve.
pub proof fn truthful_accelerator_changes_no_nested_commitment<
    'params,
    C: Cycle,
    R: Rank,
    A: MsmFacade,
>(
    builder: ProofBuilder<'params, C, R, A>,
    poly: Polynomial<C::ScalarField, R>,
    dlog: int,
    before: AccelMsmStats,
    after: AccelMsmStats,
)
    requires
        builder.exact(),
        builder.nested_fits(),
        poly.wf(),
        builder.nested_commits(dlog, &poly, before, after),
    ensures
        dlog == commit::commitment(poly@, C::nested(builder.params).bases()),
{
    let bases = C::nested(builder.params).bases();
    commit::lemma_commitment_offer(poly.layout(), 4 * R::gates(), bases);
    truthful_accelerator_changes_no_multiplication(
        builder.facade,
        builder.settings_spec(),
        commit::commitment_offer(poly.layout(), bases),
        dlog,
        before,
        after,
    );
}

/// A combination of commitments that an accelerator with true results takes part in is the
/// combination.
pub proof fn truthful_accelerator_changes_no_combination<C: CurveAffine, A: MsmFacade>(
    facade: &A,
    settings: Option<AccelMsmConfig>,
    terms: Seq<TermSpec>,
    commitments: Seq<C>,
    dlog: int,
    before: AccelMsmStats,
    after: AccelMsmStats,
)
    requires
        accel::multiplied_with(
            facade,
            settings,
            fuse::gathered_offer(terms, curve::dlogs(commitments), C::Scalar::modulus()),
            fuse::combination(terms, commitments),
            dlog,
            before,
            after,
        ),
        settings matches Some(config) ==> accel::truthful(facade, config.backend),
    ensures
        dlog == fuse::combination(terms, commitments),
{
    fuse::lemma_gathered_offer(terms, commitments);
    truthful_accelerator_changes_no_multiplication(
        facade,
        settings,
        fuse::gathered_offer(terms, curve::dlogs(commitments), C::Scalar::modulus()),
        dlog,
        before,
        after,
    );
}

/// An accelerator with true results changes nothing that a transcript absorbs: two builders
/// that hold the same bridge for a round, one of which may have such an accelerator and the
/// other one or none, let it absorb the same point. Commitments that were stored along with
/// their bridge are taken to be commitments to it.
pub proof fn truthful_accelerator_changes_no_absorbed_commitment<
    'params,
    C: Cycle,
    R: Rank,
    A: MsmFacade,
    B: MsmFacade,
>(
    one: ProofBuilder<'params, C, R, A>,
    two: ProofBuilder<'params, C, R, B>,
    round: Round,
    r: C::NestedCurve,
    s: C::NestedCurve,
    after_one: AccelMsmStats,
    after_two: AccelMsmStats,
)
    requires
        one.wf(),
        two.wf(),
        one.exact(),
        two.exact(),
        one.params == two.params,
        one.nested_fits(),
        fuse::round_bridge(one, round) is Some,
        fuse::round_bridge(two, round) is Some,
        fuse::round_bridge(one, round)->Some_0@ == fuse::round_bridge(two, round)->Some_0@,
        fuse::stored_truly(one, round),
        fuse::stored_truly(two, round),
        one.nested_step(
            fuse::round_commitment(one, round),
            &fuse::round_bridge(one, round)->Some_0,
            r,
            one.stats,
            after_one,
        ),
        two.nested_step(
            fuse::round_commitment(two, round),
            &fuse::round_bridge(two, round)->Some_0,
            s,
            two.stats,
            after_two,
        ),
    ensures
        r.dlog() == s.dlog(),
{
    one.lemma_nested_step(
        fuse::round_commitment(one, round),
        fuse::round_bridge(one, round)->Some_0,
        r,
        one.stats,
        after_one,
    );
    two.lemma_nested_step(
        fuse::round_commitment(two, round),
        fuse::round_bridge(two, round)->Some_0,
        s,
        two.stats,
        after_two,
    );
}

/// An accelerator with true results changes no built proof: two builders that hold the same,
/// one of which may have such an accelerator and the other one or none, build proofs with the
/// same commitments.
pub proof fn truthful_accelerator_changes_no_proof<
    'params,
    C: Cycle,
    R: Rank,
    A: MsmFacade,
    B: MsmFacade,
>(
    one: ProofBuilder<'params, C, R, A>,
    two: ProofBuilder<'params, C, R, B>,
    p: Proof<C, R>,
    q: Proof<C, R>,
    after_one: AccelMsmStats,
    after_two: AccelMsmStats,
)
    requires
        one.wf(),
        two.wf(),
        one.exact(),
        two.exact(),
        one.params == two.params,
        one.host_fits(),
        one.nested_fits(),
        one.kept_in(p),
        two.kept_in(q),
        one.builds(p, after_one),
        two.builds(q, after_two),
        p.same_polynomials(&q),
    ensures
        p.same_commitments(&q),
{
    one.lemma_built(p, after_one);
    two.lemma_built(q, after_two);
    let steps = p.nested_endoscaling_step_commitments@.map_values(|c: Cached<C::NestedCurve>| c.0);
    let other = q.nested_endoscaling_step_commitments@.map_values(|c: Cached<C::NestedCurve>| c.0);
    assert forall|i: int|
        0 <= i < p.nested_endoscaling_step_commitments.len() implies
        #[trigger] p.nested_endoscaling_step_commitments@[i].0.dlog()
            == q.nested_endoscaling_step_commitments@[i].0.dlog() by {
        assert(builder::nested_commitment::<C, R>(
            one.params,
            steps[i],
            p.nested_endoscaling_step_rxs@[i],
        ));
        assert(builder::nested_commitment::<C, R>(
            one.params,
            other[i],
            q.nested_endoscaling_step_rxs@[i],
        ));
    }
}

/// Coefficients are stored in one way in compressed form.
pub proof fn compressed_form_is_determined(
    l: Seq<layout::Block>,
    m: Seq<layout::Block>,
    base: int,
    c: Seq<int>,
)
    requires
        layout::compressed(l, base, c),
        layout::compressed(m, base, c),
    ensures
        l == m,
{
    layout::lemma_compressed_unique(l, m, base, c);
}

/// How a merge is stored is determined by how the two parts are stored and by the
/// coefficients of the merge.
pub proof fn merge_is_determined(
    l: Seq<layout::Block>,
    m: Seq<layout::Block>,
    kept: Seq<layout::Block>,
    other: Seq<layout::Block>,
    n: nat,
)
    requires
        layout::wf(l, n as int),
        layout::wf(m, n as int),
        layout::wf(kept, n as int),
        layout::wf(other, n as int),
        layout::pruned(l, kept, other, n as int),
        layout::pruned(m, kept, other, n as int),
        layout::merge_of(l, kept, other, n as int),
        layout::merge_of(m, kept, other, n as int),
        layout::dense(l, n) == layout::dense(m, n),
    ensures
        l == m,
{
    assert forall|k: int| 0 <= k < n implies #[trigger] layout::coeff(l, k) == layout::coeff(
        m,
        k,
    ) by {
        assert(layout::dense(l, n)[k] == layout::coeff(l, k));
        assert(layout::dense(m, n)[k] == layout::coeff(m, k));
    }
    layout::lemma_merge_unique(l, m, kept, other, n as int);
}

/// A merge in which every coefficient cancels out stores nothing.
pub proof fn cancelled_merge_stores_nothing(
    l: Seq<layout::Block>,
    kept: Seq<layout::Block>,
    other: Seq<layout::Block>,
    n: int,
)
    requires
        layout::wf(l, n),
        layout::pruned(l, kept, other, n),
        forall|k: int| 0 <= k < n ==> #[trigger] layout::coeff(l, k) == 0,
    ensures
        l.len() == 0,
{
    if l.len() > 0 {
        let b = l[0];
        assert(layout::merged_block(l[0], kept, other, n));
        let t = choose|t: int| 0 <= t < b.1.len() && #[trigger] b.1[t] != 0;
        assert(layout::holds(l, 0, b.0 + t));
        layout::lemma_coeff_in(l, n, 0, b.0 + t);
        assert(layout::coeff(l, b.0 + t) == 0);
    }
}

/// A merge stores no more than its parts together.
pub proof fn merge_stores_no_more(
    l: Seq<layout::Block>,
    kept: Seq<layout::Block>,
    other: Seq<layout::Block>,
    n: nat,
)
    requires
        layout::wf(l, n as int),
        layout::wf(kept, n as int),
        layout::wf(other, n as int),
        layout::pruned(l, kept, other, n as int),
    ensures
        layout::stored(l) <= layout::stored(kept) + layout::stored(other),
{
    let f = |k: int| layout::is_held(l, k);
    let g = |k: int| layout::is_held(kept, k);
    let h = |k: int| layout::is_held(other, k);
    let both = |k: int| g(k) + h(k);
    layout::lemma_stored_count(l, n);
    layout::lemma_stored_count(kept, n);
    layout::lemma_stored_count(other, n);
    sums::lemma_plus(n, g, h, both);
    assert forall|k: int| 0 <= k < n implies #[trigger] f(k) <= both(k) by {
        if layout::held(l, k) {
            layout::lemma_pruned_held(l, kept, other, n as int, k);
        }
    }
    sums::lemma_le(n, f, both);
}

/// A commitment multiplies as many points as coefficients are stored.
pub proof fn commitment_cost_is_what_is_stored<C: CurveAffine>(
    l: Seq<layout::Block>,
    n: nat,
    bases: Seq<C>,
)
    requires
        layout::wf(l, n as int),
        n <= bases.len(),
    ensures
        commit::commitment_offer(l, bases).0.len() == layout::stored(l),
        commit::commitment_offer(l, bases).1.len() == layout::stored(l),
{
    layout::lemma_stored_len(l, n as int, curve::dlogs(bases));
}

/// The wiring of wires is the reversal of their trace.
pub proof fn wiring_reverses_trace(
    a: Seq<int>,
    b: Seq<int>,
    c: Seq<int>,
    d: Seq<int>,
    n: int,
    k: int,
)
    requires
        0 <= k < 4 * n,
    ensures
        wires::traced(b, a, d, c, n, k) == wires::traced(a, b, c, d, n, 4 * n - 1 - k),
{
}

/// For gates that multiply, where each `c` is the product of `a` and `b` and no `d` is
/// used, the inner product of the trace and the reversal of its dilation, with the
/// products taken off, is zero.
pub proof fn product_identity(
    a: Seq<int>,
    b: Seq<int>,
    c: Seq<int>,
    rx: Seq<int>,
    s: Seq<int>,
    z: int,
    p: int,
)
    requires
        p > 0,
        b.len() == a.len(),
        c.len() == a.len(),
        forall|i: int| 0 <= i < a.len() ==> modular::cong(#[trigger] c[i], a[i] * b[i], p),
        rx.len() == 4 * a.len(),
        forall|k: int|
            0 <= k < rx.len() ==> #[trigger] rx[k] == wires::traced(
                a,
                b,
                c,
                Seq::empty(),
                a.len() as int,
                k,
            ),
        s.len() == rx.len(),
        forall|k: int|
            0 <= k < s.len() ==> modular::cong(
                #[trigger] s[k],
                rx[k] * pow(z, k as nat) + wires::tz_coeff(z, a.len() as int, k),
                p,
            ),
    ensures
        modular::cong(poly::revdot(rx, s), 0, p),
{
    let n = a.len();
    let f = |k: int| rx[k] * s[rx.len() - 1 - k];
    let e = |i: int| pow(z, (2 * n + i) as nat);
    let g = |i: int| pow(z, (2 * n - 1 - i) as nat);
    let q1 = |i: int| f(i);
    let q2 = |i: int| f(n + i);
    let q2r = |i: int| f(2 * n - 1 - i);
    let q3 = |i: int| f(2 * n + i);
    let q4 = |i: int| f(3 * n + i);
    sums::lemma_cut(3 * n, n, f, q4);
    sums::lemma_cut(2 * n, n, f, q3);
    sums::lemma_cut(n, n, f, q2);
    assert(n + n == 2 * n && 2 * n + n == 3 * n && 3 * n + n == 4 * n);
    assert forall|i: int| 0 <= i < n implies #[trigger] q2r(i) == q2(n - 1 - i) by {}
    sums::lemma_reverse(n, q2, q2r);
    // The last quarter holds no wires.
    assert forall|i: int| 0 <= i < n implies #[trigger] q4(i) == 0 by {
        assert(rx[3 * n + i] == 0);
        assert(0 * s[rx.len() - 1 - (3 * n + i)] == 0);
    }
    sums::lemma_zero(n, q4);
    let t1 = |i: int| c[i] * -(e(i) + g(i));
    let t2 = |i: int| a[i] * (b[i] * e(i));
    let t3 = |i: int| b[i] * (a[i] * g(i));
    assert forall|i: int| 0 <= i < n implies modular::cong(#[trigger] f(i), t1(i), p) by {
        let k = 4 * n - 1 - i;
        assert(rx[i] == c[i]);
        assert(rx[k] == 0);
        assert(0 * pow(z, k as nat) == 0);
        assert(6 * n - 1 - k == 2 * n + i);
        assert(k - 2 * n == 2 * n - 1 - i);
        assert(modular::cong(s[k], rx[k] * pow(z, k as nat) + wires::tz_coeff(z, n as int, k), p));
        modular::lemma_mul(c[i], c[i], s[k], -(e(i) + g(i)), p);
    }
    assert forall|i: int| 0 <= i < n implies modular::cong(#[trigger] q2r(i), t2(i), p) by {
        let k = 2 * n + i;
        assert(rx[2 * n - 1 - i] == a[i]);
        assert(rx[k] == b[i]);
        assert(wires::tz_coeff(z, n as int, k) == 0);
        assert(modular::cong(s[k], rx[k] * pow(z, k as nat) + wires::tz_coeff(z, n as int, k), p));
        modular::lemma_mul(a[i], a[i], s[k], b[i] * e(i), p);
    }
    assert forall|i: int| 0 <= i < n implies modular::cong(#[trigger] q3(i), t3(i), p) by {
        let k = 2 * n - 1 - i;
        assert(rx[2 * n + i] == b[i]);
        assert(rx[k] == a[i]);
        assert(wires::tz_coeff(z, n as int, k) == 0);
        assert(modular::cong(s[k], rx[k] * pow(z, k as nat) + wires::tz_coeff(z, n as int, k), p));
        modular::lemma_mul(b[i], b[i], s[k], a[i] * g(i), p);
    }
    sums::lemma_cong(n, f, t1, p);
    sums::lemma_cong(n, q2r, t2, p);
    sums::lemma_cong(n, q3, t3, p);
    let t12 = |i: int| t1(i) + t2(i);
    let all = |i: int| t12(i) + t3(i);
    let none = |i: int| 0int;
    sums::lemma_plus(n, t1, t2, t12);
    sums::lemma_plus(n, t12, t3, all);
    assert forall|i: int| 0 <= i < n implies modular::cong(#[trigger] all(i), none(i), p) by {
        let (x, y, w, u, v) = (a[i], b[i], c[i], e(i), g(i));
        lemma_mul_is_associative(x, y, u);
        lemma_mul_is_associative(y, x, v);
        lemma_mul_is_commutative(x, y);
        lemma_mul_is_distributive_add(x * y, u, v);
        lemma_mul_is_distributive_sub_other_way(u + v, x * y, w);
        lemma_mul_unary_negation(w, u + v);
        assert(w * -(u + v) + x * (y * u) + y * (x * v) == (x * y - w) * (u + v));
        modular::lemma_sub(x * y, x * y, w, x * y, p);
        modular::lemma_mul(x * y - w, 0, u + v, u + v, p);
        assert(0 * (u + v) == 0);
    }
    sums::lemma_cong(n, all, none, p);
    sums::lemma_zero(n, none);
    let (s1, s2, s3) = (sums::sigma(n, f), sums::sigma(n, q2), sums::sigma(n, q3));
    let (r1, r2, r3) = (sums::sigma(n, t1), sums::sigma(n, t2), sums::sigma(n, t3));
    modular::lemma_add(s1, r1, s2, r2, p);
    modular::lemma_add(s1 + s2, r1 + r2, s3, r3, p);
}

/// The polynomial whose coefficients are those of the given ones, combined by powers of
/// `x`: the first by one, the last by the highest power.
pub open spec fn at(polys: Seq<Seq<int>>, n: nat, x: int) -> Seq<int> {
    Seq::new(n, |k: int| poly::eval(column(polys, k), x))
}

/// The coefficients, by powers of `x`, of the inner product of one combination and the
/// reversal of another: the first `l`, of products at each pair of degrees.
spec fn convolved(a: Seq<Seq<int>>, b: Seq<Seq<int>>, n: nat, m: nat, l: nat) -> Seq<int> {
    Seq::new(
        l,
        |t: int|
            sums::sigma(
                m,
                |k: int|
                    product::coeff(product::product(column(a, k), column(b, n - 1 - k)), t),
            ),
    )
}

/// The value of a convolution is the inner product of the combinations.
proof fn lemma_convolved(a: Seq<Seq<int>>, b: Seq<Seq<int>>, n: nat, m: nat, l: nat, x: int)
    requires
        a.len() > 0,
        b.len() == a.len(),
        2 * a.len() - 1 <= l,
        m <= n,
    ensures
        poly::eval(convolved(a, b, n, m, l), x) == sums::sigma(
            m,
            |k: int| at(a, n, x)[k] * at(b, n, x)[n - 1 - k],
        ),
    decreases m,
{
    let f = |k: int| at(a, n, x)[k] * at(b, n, x)[n - 1 - k];
    if m == 0 {
        let c = convolved(a, b, n, 0, l);
        let g = |t: int| c[t] * pow(x, t as nat);
        assert forall|t: int| 0 <= t < l implies #[trigger] g(t) == 0 by {
            assert(c[t] == 0);
            assert(0 * pow(x, t as nat) == 0);
        }
        sums::lemma_zero(l, g);
    } else {
        let k = m - 1;
        let (u, v) = (column(a, k), column(b, n - 1 - k));
        let w = product::product(u, v);
        let padded = Seq::new(l, |t: int| product::coeff(w, t));
        let c0 = convolved(a, b, n, k as nat, l);
        let c1 = convolved(a, b, n, m, l);
        lemma_convolved(a, b, n, k as nat, l, x);
        poly::lemma_eval_pad(w, padded, x);
        product::lemma_product_eval(u, v, x);
        assert forall|t: int| 0 <= t < l implies #[trigger] c1[t] == c0[t] + padded[t] by {
            let h = |k: int|
                product::coeff(product::product(column(a, k), column(b, n - 1 - k)), t);
            assert(sums::sigma(m, h) == sums::sigma(k as nat, h) + h(k));
        }
        poly::lemma_eval_add(c0, padded, c1, x);
        assert(sums::sigma(m, f) == sums::sigma(k as nat, f) + f(k));
        assert(at(a, n, x)[k] == poly::eval(u, x));
        assert(at(b, n, x)[n - 1 - k] == poly::eval(v, x));
    }
}

/// Convolution by transforms: if the values of `c` at the roots of unity are the inner
/// products of the combinations of the `a` and the reversals of those of the `b` there,
/// then so are its values everywhere.
pub proof fn convolution_by_transforms(
    a: Seq<Seq<int>>,
    b: Seq<Seq<int>>,
    n: nat,
    c: Seq<int>,
    w: int,
    log: nat,
    x: int,
    p: int,
)
    requires
        p > 2,
        p % 2 == 1,
        a.len() > 0,
        b.len() == a.len(),
        2 * a.len() - 1 <= pow2(log),
        c.len() == pow2(log),
        domain::is_root(w, c.len(), p),
        forall|j: int|
            0 <= j < c.len() ==> modular::cong(
                #[trigger] poly::eval(c, pow(w, j as nat)),
                poly::revdot(at(a, n, pow(w, j as nat)), at(b, n, pow(w, j as nat))),
                p,
            ),
    ensures
        modular::cong(poly::eval(c, x), poly::revdot(at(a, n, x), at(b, n, x)), p),
{
    let d = convolved(a, b, n, n, c.len());
    assert forall|y: int| #[trigger] poly::eval(d, y) == poly::revdot(at(a, n, y), at(b, n, y)) by {
        lemma_convolved(a, b, n, n, c.len(), y);
        let f = |k: int| at(a, n, y)[k] * at(b, n, y)[n - 1 - k];
        let g = |k: int| at(a, n, y)[k] * at(b, n, y)[at(a, n, y).len() - 1 - k];
        sums::lemma_ext(n, f, g);
    }
    assert forall|j: int| 0 <= j < c.len() implies modular::cong(
        #[trigger] poly::eval(c, pow(w, j as nat)),
        poly::eval(d, pow(w, j as nat)),
        p,
    ) by {}
    domain::lemma_determined(c, d, w, log, p);
    poly::lemma_eval_cong(c, d, x, x, p);
}

/// No draw gives nothing and leaves the generator as it is; one draw is one draw.
pub proof fn none_or_one_drawn<F: Field>(before: StdRng, x: F, after: StdRng)
    ensures
        field::drawn(before, Seq::<F>::empty(), after) <==> before == after,
        field::drawn(before, seq![x], after) <==> F::draws(before, x, after),
{
    if before == after {
        assert(field::drawn_through(seq![before], Seq::<F>::empty()));
    }
    if F::draws(before, x, after) {
        assert(field::drawn_through(seq![before, after], seq![x]));
    }
    if field::drawn(before, seq![x], after) {
        let states = choose|states: Seq<StdRng>| #[trigger]
            field::drawn_through(states, seq![x]) && states.first() == before && states.last()
                == after;
        assert(F::draws(states[0], seq![x][0], states[1]));
    }
}

/// To draw some elements and then more is to draw all of them: each draw goes on from the
/// state that the one before it left.
pub proof fn drawn_in_turn<F: Field>(before: StdRng, c: Seq<F>, d: Seq<F>, after: StdRng)
    ensures
        field::drawn(before, c + d, after) <==> exists|mid: StdRng|
            #[trigger] field::drawn(before, c, mid) && field::drawn(mid, d, after),
{
    if field::drawn(before, c + d, after) {
        let states = choose|states: Seq<StdRng>| #[trigger]
            field::drawn_through(states, c + d) && states.first() == before && states.last()
                == after;
        let n = c.len() as int;
        let (s, t) = (states.take(n + 1), states.skip(n));
        assert forall|k: int| 0 <= k < c.len() implies F::draws(
            s[k],
            #[trigger] c[k],
            s[k + 1],
        ) by {
            assert((c + d)[k] == c[k]);
        }
        assert forall|k: int| 0 <= k < d.len() implies F::draws(
            t[k],
            #[trigger] d[k],
            t[k + 1],
        ) by {
            assert((c + d)[n + k] == d[k]);
        }
        assert(field::drawn_through(s, c));
        assert(field::drawn_through(t, d));
        assert(field::drawn(before, c, states[n]));
        assert(field::drawn(states[n], d, after));
    }
    if exists|mid: StdRng|
        #[trigger] field::drawn(before, c, mid) && field::drawn(mid, d, after) {
        let mid = choose|mid: StdRng|
            #[trigger] field::drawn(before, c, mid) && field::drawn(mid, d, after);
        let s = choose|s: Seq<StdRng>| #[trigger]
            field::drawn_through(s, c) && s.first() == before && s.last() == mid;
        let t = choose|t: Seq<StdRng>| #[trigger]
            field::drawn_through(t, d) && t.first() == mid && t.last() == after;
        let states = s + t.skip(1);
        let n = c.len() as int;
        assert forall|k: int| 0 <= k < (c + d).len() implies F::draws(
            states[k],
            #[trigger] (c + d)[k],
            states[k + 1],
        ) by {
            if k < n {
                assert(F::draws(s[k], c[k], s[k + 1]));
            } else {
                assert(F::draws(t[k - n], d[k - n], t[k - n + 1]));
                assert(states[k + 1] == t[k - n + 1]);
                assert(states[k] == t[k - n]);
            }
        }
        assert(field::drawn_through(states, c + d));
        assert(states.last() == t.last());
    }
}

/// Where the state of a generator determines the element that is drawn and the state after,
/// generators in the same state give the same elements, as many as are drawn, and end in the
/// same state.
pub proof fn same_state_same_draws<F: Field>(
    before: StdRng,
    c: Seq<F>,
    d: Seq<F>,
    after_c: StdRng,
    after_d: StdRng,
)
    requires
        forall|s: StdRng, x: F, y: F, t: StdRng, u: StdRng|
            #![trigger F::draws(s, x, t), F::draws(s, y, u)]
            F::draws(s, x, t) && F::draws(s, y, u) ==> x == y && t == u,
        c.len() == d.len(),
        field::drawn(before, c, after_c),
        field::drawn(before, d, after_d),
    ensures
        c == d,
        after_c == after_d,
    decreases c.len(),
{
    if c.len() == 0 {
        assert(c =~= Seq::<F>::empty());
        assert(d =~= c);
    } else {
        let (u, v) = (c.drop_last(), d.drop_last());
        assert(c =~= u + seq![c.last()]);
        assert(d =~= v + seq![d.last()]);
        drawn_in_turn(before, u, seq![c.last()], after_c);
        drawn_in_turn(before, v, seq![d.last()], after_d);
        let s = choose|s: StdRng|
            #[trigger] field::drawn(before, u, s) && field::drawn(s, seq![c.last()], after_c);
        let t = choose|t: StdRng|
            #[trigger] field::drawn(before, v, t) && field::drawn(t, seq![d.last()], after_d);
        same_state_same_draws(before, u, v, s, t);
        none_or_one_drawn(s, c.last(), after_c);
        none_or_one_drawn(t, d.last(), after_d);
    }
}

/// In a built proof, each commitment that was stored along with its polynomial is the
/// commitment to the polynomial beside it, if it was so in the builder.
pub proof fn stored_commitments_stay_with_their_polynomials<
    'params,
    C: Cycle,
    R: Rank,
    A: MsmFacade,
>(builder: ProofBuilder<'params, C, R, A>, built: Proof<C, R>)
    requires
        builder.wf(),
        builder.kept_in(built),
        builder.opened(),
    ensures
        built.opened(builder.params),
{
}

/// A built proof makes the claims of its builder: the same value of the final polynomial at
/// `u`, and the same inner product of the folded polynomials.
pub proof fn built_proofs_make_the_claims<'params, C: Cycle, R: Rank, A: MsmFacade>(
    builder: ProofBuilder<'params, C, R, A>,
    built: Proof<C, R>,
    v: int,
    c: int,
)
    requires
        builder.kept_in(built),
        builder.claims_v(v),
        builder.claims_c(c),
    ensures
        v == poly::eval(built.native_p_poly@, built.u.val()) % C::CircuitField::modulus(),
        c == poly::revdot(built.native_a_poly@, built.native_b_poly@) % C::CircuitField::modulus(),
{
}

/// A challenge of a proof.
pub open spec fn challenge_of<C: Cycle, R: Rank>(p: Proof<C, R>, c: Challenge) -> C::CircuitField {
    match c {
        Challenge::W => p.w,
        Challenge::Y => p.y,
        Challenge::Z => p.z,
        Challenge::Mu => p.mu,
        Challenge::Nu => p.nu,
        Challenge::MuPrime => p.mu_prime,
        Challenge::NuPrime => p.nu_prime,
        Challenge::X => p.x,
        Challenge::Alpha => p.alpha,
        Challenge::U => p.u,
        Challenge::PreBeta => p.pre_beta,
    }
}

/// Each challenge that the transcript gave in a fusion is, under its own name, a challenge of
/// the proof that is built, once the challenges were stored.
pub proof fn challenges_reach_the_proof<'params, C: Cycle, R: Rank, A: MsmFacade>(
    fusion: Fusion<C::CircuitField>,
    builder: ProofBuilder<'params, C, R, A>,
    built: Proof<C, R>,
    c: Challenge,
)
    requires
        fuse::holds_challenges(builder, fusion),
        builder.kept_in(built),
    ensures
        fusion.given(c) == Some(challenge_of(built, c)),
{
    assert(fuse::known_challenge(builder, c) == fusion.given(c));
}

/// A challenge that the transcript gives when it is due is the one that the fusion holds under
/// the name of that turn from then on, and no other challenge changes.
pub proof fn given_challenges_stay<F: Field>(
    before: Fusion<F>,
    after: Fusion<F>,
    c: Challenge,
    d: Challenge,
    v: F,
)
    requires
        before.wf(),
        after.wf(),
        before.due() == FuseAction::Squeeze(c),
        fuse::stepped(before, FuseEvent::Challenged(v), after),
    ensures
        after.given(c) == Some(v),
        d != c ==> after.given(d) == before.given(d),
        before.position < after.position,
{
}

/// The first folded commitment goes by the settings of the process, whatever the builder's own
/// are: without any, it is not counted, and with a backend that gives no results, or that
/// always gives one, it is counted as that, one point for each position that occurs.
pub proof fn folded_commitments_ask_the_backend_of_the_process<
    'params,
    C: Cycle,
    R: Rank,
    A: MsmFacade,
>(
    builder: ProofBuilder<'params, C, R, A>,
    terms: Seq<TermSpec>,
    commitments: Seq<C::HostCurve>,
    a_dlog: int,
    b_poly: Polynomial<C::CircuitField, R>,
    b_dlog: int,
    after: AccelMsmStats,
)
    requires
        fuse::folds(builder, terms, commitments, a_dlog, b_poly, b_dlog, after),
    ensures
        builder.ambient is None ==> a_dlog == fuse::combination(terms, commitments)
            && builder.host_commits(b_dlog, &b_poly, builder.stats, after),
        builder.ambient matches Some(config) ==> exists|mid: AccelMsmStats|
            {
                &&& #[trigger] builder.host_commits(b_dlog, &b_poly, mid, after)
                &&& accel::silent(builder.facade, config.backend) ==> a_dlog
                    == fuse::combination(terms, commitments) && counted_as(
                    builder.stats,
                    mid,
                    fuse::first_keys(terms).len(),
                    config.min_msm_size,
                    false,
                )
                &&& accel::diligent(builder.facade, config.backend) ==> counted_as(
                    builder.stats,
                    mid,
                    fuse::first_keys(terms).len(),
                    config.min_msm_size,
                    true,
                )
            },
{
    let offer = fuse::gathered_offer(
        terms,
        curve::dlogs(commitments),
        C::CircuitField::modulus(),
    );
    let exact = fuse::combination(terms, commitments);
    let mid = choose|mid: AccelMsmStats|
        accel::multiplied_with(
            builder.facade,
            builder.ambient,
            offer,
            exact,
            a_dlog,
            builder.stats,
            mid,
        ) && #[trigger] builder.host_commits(b_dlog, &b_poly, mid, after);
    if let Some(config) = builder.ambient {
        lemma_named_backend(builder.facade, config, offer, exact, a_dlog, builder.stats, mid);
    }
}

/// No two derived bridges are made with the same power of the shared alpha, and none without
/// it.
pub proof fn derived_bridges_have_powers_of_their_own(a: CachedBridge, b: CachedBridge)
    ensures
        builder::bridge_power(a) > 0,
        a != b ==> builder::bridge_power(a) != builder::bridge_power(b),
{
}

/// The largest domain has the field's root of unity, and the root of each other is the square of
/// the root of the domain twice as large, so that its points are every other point of that.
pub proof fn domains_nest<F: PrimeField>(log: nat)
    requires
        log < F::two_adicity(),
    ensures
        domain::root_of_order::<F>(F::two_adicity()) == F::root() % F::modulus(),
        domain::root_of_order::<F>(log) == (domain::root_of_order::<F>(log + 1)
            * domain::root_of_order::<F>(log + 1)) % F::modulus(),
{
    let p = F::modulus();
    F::lemma_modulus();
    lemma2_to64();
    lemma_pow1(F::root());
    let e = (F::two_adicity() - log - 1) as nat;
    let h = pow2(e);
    let r = pow(F::root(), h);
    lemma_pow2_unfold(e + 1);
    lemma_pow_adds(F::root(), h, h);
    assert(pow2(e + 1) == h + h);
    lemma_mul_mod_noop(r, r, p);
}

} // verus!
