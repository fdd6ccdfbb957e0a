//! Products of polynomials with integer coefficients.
use crate::modular;
use crate::poly;
use crate::sums;
use vstd::arithmetic::mul::*;
use vstd::arithmetic::power::*;
use vstd::prelude::*;

verus! {

/// The coefficient at `k`, which is zero where `c` has none.
pub open spec fn coeff(c: Seq<int>, k: int) -> int {
    if 0 <= k < c.len() {
        c[k]
    } else {
        0
    }
}

/// The coefficient at `k` of the product of `a` and `b`.
pub open spec fn product_at(a: Seq<int>, b: Seq<int>, k: int) -> int {
    sums::sigma(a.len(), |i: int| a[i] * coeff(b, k - i))
}

/// The product of `a` and `b`.
pub open spec fn product(a: Seq<int>, b: Seq<int>) -> Seq<int> {
    if a.len() == 0 || b.len() == 0 {
        Seq::empty()
    } else {
        Seq::new((a.len() + b.len() - 1) as nat, |k: int| product_at(a, b, k))
    }
}

/// The monic polynomial with the given roots: the product of `X - r` over them.
pub open spec fn with_roots(roots: Seq<int>) -> Seq<int>
    decreases roots.len(),
{
    if roots.len() == 0 {
        seq![1]
    } else {
        product(with_roots(roots.drop_last()), seq![-roots.last(), 1])
    }
}

/// The product of `x - r` over the roots.
pub open spec fn vanishing(roots: Seq<int>, x: int) -> int
    decreases roots.len(),
{
    if roots.len() == 0 {
        1
    } else {
        vanishing(roots.drop_last(), x) * (x - roots.last())
    }
}

/// Outside of the product there is nothing.
pub proof fn lemma_outside(a: Seq<int>, b: Seq<int>, k: int)
    requires
        k < 0 || k >= a.len() + b.len() - 1,
    ensures
        product_at(a, b, k) == 0,
{
    let f = |i: int| a[i] * coeff(b, k - i);
    assert forall|i: int| 0 <= i < a.len() implies #[trigger] f(i) == 0 by {
        assert(a[i] * 0 == 0);
    }
    sums::lemma_zero(a.len(), f);
}

/// The coefficient of a product in terms of the first coefficient of `a` and the rest.
proof fn lemma_peel(a: Seq<int>, b: Seq<int>, k: int)
    requires
        a.len() > 0,
    ensures
        product_at(a, b, k) == a[0] * coeff(b, k) + product_at(a.skip(1), b, k - 1),
{
    let t = a.skip(1);
    let f = |i: int| a[i] * coeff(b, k - i);
    let g = |i: int| t[i] * coeff(b, k - 1 - i);
    assert forall|i: int| 0 <= i < a.len() - 1 implies #[trigger] g(i) == f(i + 1) by {
        assert(k - 1 - i == k - (i + 1));
    }
    sums::lemma_first(a.len(), f, g);
}

/// The value of a product is the product of the values.
pub proof fn lemma_product_eval(a: Seq<int>, b: Seq<int>, x: int)
    ensures
        poly::eval(product(a, b), x) == poly::eval(a, x) * poly::eval(b, x),
    decreases a.len(),
{
    let (ea, eb) = (poly::eval(a, x), poly::eval(b, x));
    if a.len() == 0 || b.len() == 0 {
        assert(0 * eb == 0 && ea * 0 == 0);
    } else {
        let t = a.skip(1);
        let l = (a.len() + b.len() - 1) as nat;
        let c = product(a, b);
        let padded = Seq::new(l, |k: int| coeff(b, k));
        let u = Seq::new(l, |k: int| a[0] * coeff(b, k));
        let v = Seq::new(l, |k: int| product_at(t, b, k - 1));
        poly::lemma_eval_pad(b, padded, x);
        poly::lemma_eval_scale(padded, a[0], u, x);
        assert forall|k: int| 0 <= k < l implies #[trigger] c[k] == u[k] + v[k] by {
            lemma_peel(a, b, k);
        }
        poly::lemma_eval_add(u, v, c, x);
        lemma_product_eval(t, b, x);
        lemma_outside(t, b, -1);
        poly::lemma_horner(v, x);
        poly::lemma_horner(a, x);
        let et = poly::eval(t, x);
        if t.len() == 0 {
            let w = v.skip(1);
            let f = |i: int| w[i] * pow(x, i as nat);
            assert forall|i: int| 0 <= i < w.len() implies #[trigger] f(i) == 0 by {
                assert(product_at(t, b, i) == 0);
                assert(0 * pow(x, i as nat) == 0);
            }
            sums::lemma_zero(w.len(), f);
            assert(0 * eb == 0);
        } else {
            assert(v.skip(1) =~= product(t, b));
        }
        let a0 = a[0];
        assert(a0 * eb + (0 + x * (et * eb)) == (a0 + x * et) * eb) by (nonlinear_arith);
    }
}

/// The coefficient of a product as a sum over all pairs of degrees that add up to `k`.
proof fn lemma_pairs(a: Seq<int>, b: Seq<int>, k: int)
    requires
        k >= 0,
    ensures
        product_at(a, b, k) == sums::sigma(
            (k + 1) as nat,
            |i: int| coeff(a, i) * coeff(b, k - i),
        ),
{
    let f = |i: int| a[i] * coeff(b, k - i);
    let g = |i: int| coeff(a, i) * coeff(b, k - i);
    let m = if a.len() <= k + 1 {
        a.len()
    } else {
        (k + 1) as nat
    };
    assert forall|i: int| m <= i < a.len() implies #[trigger] f(i) == 0 by {
        assert(a[i] * 0 == 0);
    }
    assert forall|i: int| m <= i < k + 1 implies #[trigger] g(i) == 0 by {
        assert(0 * coeff(b, k - i) == 0);
    }
    sums::lemma_zero_tail(m, a.len(), f);
    sums::lemma_zero_tail(m, (k + 1) as nat, g);
    sums::lemma_ext(m, f, g);
}

/// Products commute.
pub proof fn lemma_commutes(a: Seq<int>, b: Seq<int>)
    ensures
        product(a, b) == product(b, a),
{
    assert forall|k: int| k >= 0 implies product_at(a, b, k) == #[trigger] product_at(b, a, k) by {
        lemma_pairs(a, b, k);
        lemma_pairs(b, a, k);
        let f = |i: int| coeff(a, i) * coeff(b, k - i);
        let g = |i: int| coeff(b, i) * coeff(a, k - i);
        assert forall|i: int| 0 <= i < k + 1 implies #[trigger] g(i) == f((k + 1) - 1 - i) by {
            lemma_mul_is_commutative(coeff(b, i), coeff(a, k - i));
            assert(k - ((k + 1) - 1 - i) == i);
        }
        sums::lemma_reverse((k + 1) as nat, f, g);
    }
    assert(product(a, b) =~= product(b, a));
}

/// Products associate.
pub proof fn lemma_associates(a: Seq<int>, b: Seq<int>, c: Seq<int>)
    ensures
        product(product(a, b), c) == product(a, product(b, c)),
{
    if a.len() > 0 && b.len() > 0 && c.len() > 0 {
        let ab = product(a, b);
        let bc = product(b, c);
        assert forall|k: int| product_at(ab, c, k) == #[trigger] product_at(a, bc, k) by {
            lemma_associates_at(a, b, c, k);
        }
        assert(product(ab, c) =~= product(a, bc));
    } else {
        assert(product(product(a, b), c) =~= product(a, product(b, c)));
    }
}

/// The coefficient at `k` of a product of three.
proof fn lemma_associates_at(a: Seq<int>, b: Seq<int>, c: Seq<int>, k: int)
    requires
        a.len() > 0,
        b.len() > 0,
        c.len() > 0,
    ensures
        product_at(product(a, b), c, k) == product_at(a, product(b, c), k),
{
    let ab = product(a, b);
    let bc = product(b, c);
    let l = ab.len();
    let term = |m: int, i: int| a[i] * coeff(b, m - i) * coeff(c, k - m);
    let outer = |m: int| ab[m] * coeff(c, k - m);
    let rows = |m: int| sums::sigma(a.len(), |i: int| term(m, i));
    assert forall|m: int| 0 <= m < l implies #[trigger] outer(m) == rows(m) by {
        let y = coeff(c, k - m);
        let f = |i: int| a[i] * coeff(b, m - i);
        let g = |i: int| term(m, i);
        assert forall|i: int| 0 <= i < a.len() implies #[trigger] g(i) == y * f(i) by {
            lemma_mul_is_commutative(f(i), y);
        }
        sums::lemma_scale(a.len(), y, f, g);
        lemma_mul_is_commutative(ab[m], y);
    }
    sums::lemma_ext(l, outer, rows);
    sums::lemma_swap(l, a.len(), term);
    let cols = |i: int| sums::sigma(l, |m: int| term(m, i));
    let inner = |i: int| a[i] * coeff(bc, k - i);
    assert forall|i: int| 0 <= i < a.len() implies #[trigger] cols(i) == inner(i) by {
        let ai = a[i];
        let t = k - i;
        let f = |m: int| coeff(b, m - i) * coeff(c, k - m);
        let g = |m: int| term(m, i);
        assert forall|m: int| 0 <= m < l implies #[trigger] g(m) == ai * f(m) by {
            lemma_mul_is_associative(ai, coeff(b, m - i), coeff(c, k - m));
        }
        sums::lemma_scale(l, ai, f, g);
        let h = |j: int| b[j] * coeff(c, t - j);
        assert forall|m: int| 0 <= m < i implies #[trigger] f(m) == 0 by {
            assert(0 * coeff(c, k - m) == 0);
        }
        assert forall|m: int| i + b.len() <= m < l implies #[trigger] f(m) == 0 by {
            assert(0 * coeff(c, k - m) == 0);
        }
        assert forall|j: int| 0 <= j < b.len() implies #[trigger] h(j) == f(i + j) by {
            assert(k - (i + j) == t - j);
        }
        sums::lemma_zero_tail((i + b.len()) as nat, l, f);
        sums::lemma_cut(i as nat, b.len(), f, h);
        sums::lemma_zero(i as nat, f);
        if !(0 <= t < bc.len()) {
            lemma_outside(b, c, t);
        }
        assert(coeff(bc, t) == product_at(b, c, t));
    }
    sums::lemma_ext(a.len(), cols, inner);
}

/// One is neutral.
pub proof fn lemma_times_one(a: Seq<int>)
    ensures
        product(a, seq![1]) == a,
{
    let one = seq![1int];
    assert forall|k: int| 0 <= k < a.len() implies product_at(a, one, k) == #[trigger] a[k] by {
        let f = |i: int| a[i] * coeff(one, k - i);
        assert forall|i: int| 0 <= i < a.len() && i != k implies #[trigger] f(i) == 0 by {
            assert(a[i] * 0 == 0);
        }
        sums::lemma_single(a.len(), f, k);
        assert(a[k] * 1 == a[k]);
    }
    assert(product(a, one) =~= a);
}

/// Congruent polynomials have congruent products.
pub proof fn lemma_product_cong(a: Seq<int>, b: Seq<int>, c: Seq<int>, d: Seq<int>, p: int)
    requires
        p > 0,
        poly::cong(a, c, p),
        poly::cong(b, d, p),
    ensures
        poly::cong(product(a, b), product(c, d), p),
{
    assert forall|k: int| 0 <= k < product(a, b).len() implies modular::cong(
        #[trigger] product(a, b)[k],
        product(c, d)[k],
        p,
    ) by {
        let f = |i: int| a[i] * coeff(b, k - i);
        let g = |i: int| c[i] * coeff(d, k - i);
        assert forall|i: int| 0 <= i < a.len() implies modular::cong(#[trigger] f(i), g(i), p) by {
            assert(modular::cong(a[i], c[i], p));
            if 0 <= k - i < b.len() {
                assert(modular::cong(b[k - i], d[k - i], p));
            }
            modular::lemma_mul(a[i], c[i], coeff(b, k - i), coeff(d, k - i), p);
        }
        sums::lemma_cong(a.len(), f, g, p);
    }
}

/// A polynomial with roots has one coefficient more than roots, and the highest one is
/// one.
pub proof fn lemma_monic(roots: Seq<int>)
    ensures
        with_roots(roots).len() == roots.len() + 1,
        with_roots(roots).last() == 1,
    decreases roots.len(),
{
    if roots.len() > 0 {
        let a = with_roots(roots.drop_last());
        let b = seq![-roots.last(), 1];
        lemma_monic(roots.drop_last());
        let k = a.len() as int;
        let f = |i: int| a[i] * coeff(b, k - i);
        assert forall|i: int| 0 <= i < a.len() && i != k - 1 implies #[trigger] f(i) == 0 by {
            assert(a[i] * 0 == 0);
        }
        sums::lemma_single(a.len(), f, k - 1);
    }
}

/// The polynomial with two lists of roots is the product of those with each.
pub proof fn lemma_roots_concat(s: Seq<int>, t: Seq<int>)
    ensures
        product(with_roots(s), with_roots(t)) == with_roots(s + t),
    decreases t.len(),
{
    if t.len() == 0 {
        lemma_times_one(with_roots(s));
        assert(s + t =~= s);
    } else {
        let u = t.drop_last();
        let x = seq![-t.last(), 1];
        lemma_roots_concat(s, u);
        lemma_associates(with_roots(s), with_roots(u), x);
        assert((s + t).drop_last() =~= s + u);
        assert((s + t).last() == t.last());
    }
}

/// The value of the polynomial with the given roots is the product of the distances to
/// them.
pub proof fn lemma_roots_eval(roots: Seq<int>, x: int)
    ensures
        poly::eval(with_roots(roots), x) == vanishing(roots, x),
    decreases roots.len(),
{
    if roots.len() == 0 {
        poly::lemma_horner(seq![1], x);
        assert(seq![1int].skip(1) =~= Seq::<int>::empty());
        assert(x * 0 == 0);
    } else {
        let (a, b) = (with_roots(roots.drop_last()), seq![-roots.last(), 1]);
        lemma_roots_eval(roots.drop_last(), x);
        lemma_product_eval(a, b, x);
        poly::lemma_horner(b, x);
        poly::lemma_horner(b.skip(1), x);
        assert(b.skip(1).skip(1) =~= Seq::<int>::empty());
        assert(x * 0 == 0);
        assert(x * (1 + 0) == x) by (nonlinear_arith);
    }
}

/// The distance product is zero at each root.
pub proof fn lemma_vanishes(roots: Seq<int>, i: int)
    requires
        0 <= i < roots.len(),
    ensures
        vanishing(roots, roots[i]) == 0,
    decreases roots.len(),
{
    let x = roots[i];
    let v = vanishing(roots.drop_last(), x);
    if i == roots.len() - 1 {
        assert(v * 0 == 0);
    } else {
        lemma_vanishes(roots.drop_last(), i);
        assert(0 * (x - roots.last()) == 0);
    }
}

/// A linear factor divides out.
pub proof fn lemma_divides_out(q: Seq<int>, r: int)
    requires
        q.len() > 0,
    ensures
        poly::quotient(product(q, seq![-r, 1]), r) == q,
{
    let c = product(q, seq![-r, 1]);
    assert forall|i: int| 0 <= i < q.len() implies #[trigger] poly::quotient(c, r)[i] == q[i] by {
        lemma_divides_out_at(q, r, i);
    }
    assert(poly::quotient(c, r) =~= q);
}

/// One coefficient of the quotient by a linear factor.
proof fn lemma_divides_out_at(q: Seq<int>, r: int, i: int)
    requires
        0 <= i < q.len(),
    ensures
        poly::eval(product(q, seq![-r, 1]).skip(i + 1), r) == q[i],
    decreases q.len() - i,
{
    let b = seq![-r, 1];
    let c = product(q, b);
    let t = c.skip(i + 1);
    let x = coeff(q, i + 1);
    lemma_commutes(q, b);
    lemma_peel(b, q, i + 1);
    lemma_peel(b.skip(1), q, i);
    assert(b.skip(1)[0] == 1);
    assert(b.skip(1).skip(1) =~= Seq::<int>::empty());
    assert(c[i + 1] == product(b, q)[i + 1]);
    assert(c[i + 1] == -r * x + 1 * q[i] + 0);
    poly::lemma_horner(t, r);
    assert(t.skip(1) =~= c.skip(i + 2));
    if i + 1 < q.len() {
        lemma_divides_out_at(q, r, i + 1);
    } else {
        assert(c.skip(i + 2) =~= Seq::<int>::empty());
    }
    let e = poly::eval(c.skip(i + 2), r);
    assert(e == x);
    assert((-r * x + 1 * q[i] + 0) + r * x == q[i]) by (nonlinear_arith);
}

/// A root can be taken out of its position and put last.
pub proof fn lemma_root_moved(s: Seq<int>, r: int, t: Seq<int>)
    ensures
        with_roots(s.push(r) + t) == product(with_roots(s + t), seq![-r, 1]),
{
    let x = seq![-r, 1];
    let (ws, wt) = (with_roots(s), with_roots(t));
    lemma_roots_concat(s.push(r), t);
    lemma_roots_concat(s, t);
    assert(s.push(r).drop_last() =~= s);
    assert(with_roots(s.push(r)) == product(ws, x));
    lemma_associates(ws, x, wt);
    lemma_commutes(x, wt);
    lemma_associates(ws, wt, x);
}

/// Division by one of the roots leaves the polynomial with the others, whichever
/// position the root had.
pub proof fn lemma_root_removed(s: Seq<int>, r: int, t: Seq<int>)
    ensures
        poly::quotient(with_roots(s.push(r) + t), r) == with_roots(s + t),
{
    lemma_root_moved(s, r, t);
    lemma_monic(s + t);
    lemma_divides_out(with_roots(s + t), r);
}

/// The order of the roots does not matter.
pub proof fn lemma_roots_permuted(s: Seq<int>, t: Seq<int>)
    requires
        s.to_multiset() == t.to_multiset(),
    ensures
        with_roots(s) == with_roots(t),
    decreases s.len(),
{
    s.to_multiset_ensures();
    t.to_multiset_ensures();
    assert(s.len() == t.len());
    if s.len() == 0 {
        assert(s =~= t);
    } else {
        let r = s.last();
        let n = s.len() - 1;
        assert(s[n] == r);
        assert(s.contains(r));
        assert(s.to_multiset().count(r) > 0);
        assert(t.contains(r));
        let i = choose|i: int| 0 <= i < t.len() && t[i] == r;
        let (u, v) = (t.take(i), t.skip(i + 1));
        assert(t =~= u.push(r) + v);
        assert(t.remove(i) =~= u + v);
        assert(s.remove(n) =~= s.drop_last());
        assert(s.drop_last().to_multiset() =~= s.to_multiset().remove(r));
        assert((u + v).to_multiset() =~= t.to_multiset().remove(r));
        lemma_roots_permuted(s.drop_last(), u + v);
        lemma_root_moved(u, r, v);
    }
}

/// The middle coefficient of a product of two polynomials of the same length is the inner
/// product of one and the reversal of the other.
pub proof fn lemma_middle(a: Seq<int>, b: Seq<int>)
    requires
        a.len() > 0,
        b.len() == a.len(),
    ensures
        product(a, b)[a.len() - 1] == poly::revdot(a, b),
{
    let n = a.len();
    let f = |i: int| a[i] * coeff(b, n - 1 - i);
    let g = |i: int| a[i] * b[a.len() - 1 - i];
    sums::lemma_ext(n, f, g);
}

} // verus!
