//! What the queries of a fusion show of its children.
//!
//! The quotient polynomial is a witness for the values of many polynomials at many points.
//! Here is stated what those values are good for: that each child's claim is among them, that
//! the registries of the children are the current one, and that the folded polynomials were
//! folded from those of the children.
use crate::accel::MsmFacade;
use crate::builder::ProofBuilder;
use crate::cycle::Cycle;
use crate::field::Field;
use crate::fuse;
use crate::fuse::{NativeSPrime, QueryPoints, RegistryWy};
use crate::laws;
use crate::modular;
use crate::pcd::Proof;
use crate::poly;
use crate::quotients;
use crate::quotients::QuerySpec;
use crate::rank::Rank;
use crate::sparse::Polynomial;
use crate::sums;
use vstd::arithmetic::mul::*;
use vstd::arithmetic::power::*;
use vstd::prelude::*;

verus! {

/// The value that a query claims: that of its polynomial at its point.
pub open spec fn answer(q: QuerySpec) -> int {
    poly::eval(q.0, q.1)
}

/// The polynomial has the values of `g`.
pub open spec fn has_values(c: Seq<int>, g: spec_fn(int) -> int, p: int) -> bool {
    forall|t: int| modular::cong(#[trigger] poly::eval(c, t), g(t), p)
}

/// The registries of a child, the transitions and the current registry are restrictions of one
/// registry `m`, a polynomial in `W`, `X` and `Y`. A proof holds it at its own `x` and `y`, the
/// transition of a child at `w` and the child's `x`, and `wy` at `w` and `y`.
pub open spec fn one_registry<C: Cycle, R: Rank>(
    m: spec_fn(int, int, int) -> int,
    points: QueryPoints<C::CircuitField>,
    s_prime: NativeSPrime<C, R>,
    registry_wy: RegistryWy<C, R>,
    registry_xy: Seq<int>,
    left: Proof<C, R>,
    right: Proof<C, R>,
) -> bool {
    let p = C::CircuitField::modulus();
    let (w, x, y) = (points.w.val(), points.x.val(), points.y.val());
    let (x0, y0) = (left.x.val(), left.y.val());
    let (x1, y1) = (right.x.val(), right.y.val());
    &&& has_values(left.native_registry_xy_poly@, |t: int| m(t, x0, y0), p)
    &&& has_values(right.native_registry_xy_poly@, |t: int| m(t, x1, y1), p)
    &&& has_values(s_prime.registry_wx0_poly@, |t: int| m(w, x0, t), p)
    &&& has_values(s_prime.registry_wx1_poly@, |t: int| m(w, x1, t), p)
    &&& has_values(registry_wy.poly@, |t: int| m(w, t, y), p)
    &&& has_values(registry_xy, |t: int| m(t, x, y), p)
}

/// The values of the registry that a fusion opens hang together. From the registry of each
/// child, at `w`, they lead over the child's transition, at the child's `y` and at the current
/// one, and over the registry at `w` and `y`, at the child's `x` and at the current one, to the
/// current registry at `w`: where one value is claimed for two polynomials, the two agree. The
/// circuits of the children and the internal ones are opened in the current registry.
pub proof fn registry_transitions<C: Cycle, R: Rank>(
    m: spec_fn(int, int, int) -> int,
    points: QueryPoints<C::CircuitField>,
    s_prime: NativeSPrime<C, R>,
    registry_wy: RegistryWy<C, R>,
    registry_xy: Seq<int>,
    a: Seq<int>,
    b: Seq<int>,
    left: Proof<C, R>,
    right: Proof<C, R>,
    left_rxs: Seq<&Polynomial<C::CircuitField, R>>,
    right_rxs: Seq<&Polynomial<C::CircuitField, R>>,
    j: int,
)
    requires
        one_registry(m, points, s_prime, registry_wy, registry_xy, left, right),
    ensures
        ({
            let p = C::CircuitField::modulus();
            let qs = fuse::native_f_queries_spec(
                points,
                s_prime,
                registry_wy,
                registry_xy,
                a,
                b,
                left,
                right,
                left_rxs,
                right_rxs,
            );
            let n = 20 + left_rxs.len() + right_rxs.len();
            let (w, x, y) = (points.w.val(), points.x.val(), points.y.val());
            let (x0, y0) = (left.x.val(), left.y.val());
            let (x1, y1) = (right.x.val(), right.y.val());
            &&& modular::cong(answer(qs[2]), m(w, x0, y0), p)
            &&& modular::cong(answer(qs[4]), answer(qs[2]), p)
            &&& modular::cong(answer(qs[3]), m(w, x1, y1), p)
            &&& modular::cong(answer(qs[5]), answer(qs[3]), p)
            &&& modular::cong(answer(qs[6]), m(w, x0, y), p)
            &&& modular::cong(answer(qs[8]), answer(qs[6]), p)
            &&& modular::cong(answer(qs[7]), m(w, x1, y), p)
            &&& modular::cong(answer(qs[9]), answer(qs[7]), p)
            &&& modular::cong(answer(qs[10]), m(w, x, y), p)
            &&& modular::cong(answer(qs[11]), answer(qs[10]), p)
            &&& modular::cong(answer(qs[12]), m(points.left_circuit.val(), x, y), p)
            &&& modular::cong(answer(qs[13]), m(points.right_circuit.val(), x, y), p)
            &&& qs.len() == n + points.internal.len()
            &&& 0 <= j < points.internal.len() ==> modular::cong(
                answer(qs[n + j]),
                m(points.internal@[j].val(), x, y),
                p,
            )
        }),
{
}

/// Where the queries stand that open polynomials of the left child, or the registry at its
/// points.
pub open spec fn of_left(i: int, left_rxs: int) -> bool {
    i == 0 || i == 2 || i == 4 || i == 6 || i == 8 || i == 12 || i == 14 || i == 15 || 20 <= i
        < 20 + left_rxs
}

/// Where the queries stand that open polynomials of the right child, or the registry at its
/// points.
pub open spec fn of_right(i: int, left_rxs: int, right_rxs: int) -> bool {
    i == 1 || i == 3 || i == 5 || i == 7 || i == 9 || i == 13 || i == 16 || i == 17 || 20
        + left_rxs <= i < 20 + left_rxs + right_rxs
}

/// The queries about the left child do not depend on the right one: with another right child,
/// and all that belongs to it, they are the same.
pub proof fn right_child_leaves_left_queries<C: Cycle, R: Rank>(
    points: QueryPoints<C::CircuitField>,
    s_prime: NativeSPrime<C, R>,
    registry_wy: RegistryWy<C, R>,
    registry_xy: Seq<int>,
    a: Seq<int>,
    b: Seq<int>,
    left: Proof<C, R>,
    right: Proof<C, R>,
    left_rxs: Seq<&Polynomial<C::CircuitField, R>>,
    right_rxs: Seq<&Polynomial<C::CircuitField, R>>,
    other_points: QueryPoints<C::CircuitField>,
    other_s_prime: NativeSPrime<C, R>,
    other: Proof<C, R>,
    other_rxs: Seq<&Polynomial<C::CircuitField, R>>,
    i: int,
)
    requires
        other_points.w.val() == points.w.val(),
        other_points.x.val() == points.x.val(),
        other_points.y.val() == points.y.val(),
        other_points.z.val() == points.z.val(),
        other_points.left_circuit.val() == points.left_circuit.val(),
        other_s_prime.registry_wx0_poly@ == s_prime.registry_wx0_poly@,
        of_left(i, left_rxs.len() as int),
    ensures
        ({
            let qs = fuse::native_f_queries_spec(
                points,
                s_prime,
                registry_wy,
                registry_xy,
                a,
                b,
                left,
                right,
                left_rxs,
                right_rxs,
            );
            let rs = fuse::native_f_queries_spec(
                other_points,
                other_s_prime,
                registry_wy,
                registry_xy,
                a,
                b,
                left,
                other,
                left_rxs,
                other_rxs,
            );
            qs[i] == rs[i]
        }),
{
}

/// The queries about the right child do not depend on the left one: with another left child
/// that has as many polynomials, and all that belongs to it, they are the same.
pub proof fn left_child_leaves_right_queries<C: Cycle, R: Rank>(
    points: QueryPoints<C::CircuitField>,
    s_prime: NativeSPrime<C, R>,
    registry_wy: RegistryWy<C, R>,
    registry_xy: Seq<int>,
    a: Seq<int>,
    b: Seq<int>,
    left: Proof<C, R>,
    right: Proof<C, R>,
    left_rxs: Seq<&Polynomial<C::CircuitField, R>>,
    right_rxs: Seq<&Polynomial<C::CircuitField, R>>,
    other_points: QueryPoints<C::CircuitField>,
    other_s_prime: NativeSPrime<C, R>,
    other: Proof<C, R>,
    other_rxs: Seq<&Polynomial<C::CircuitField, R>>,
    i: int,
)
    requires
        other_points.w.val() == points.w.val(),
        other_points.x.val() == points.x.val(),
        other_points.y.val() == points.y.val(),
        other_points.z.val() == points.z.val(),
        other_points.right_circuit.val() == points.right_circuit.val(),
        other_s_prime.registry_wx1_poly@ == s_prime.registry_wx1_poly@,
        other_rxs.len() == left_rxs.len(),
        of_right(i, left_rxs.len() as int, right_rxs.len() as int),
    ensures
        ({
            let qs = fuse::native_f_queries_spec(
                points,
                s_prime,
                registry_wy,
                registry_xy,
                a,
                b,
                left,
                right,
                left_rxs,
                right_rxs,
            );
            let rs = fuse::native_f_queries_spec(
                other_points,
                other_s_prime,
                registry_wy,
                registry_xy,
                a,
                b,
                other,
                right,
                other_rxs,
                right_rxs,
            );
            qs[i] == rs[i]
        }),
{
}

/// The queries that are about neither child do not depend on them.
pub proof fn children_leave_other_queries<C: Cycle, R: Rank>(
    points: QueryPoints<C::CircuitField>,
    s_prime: NativeSPrime<C, R>,
    registry_wy: RegistryWy<C, R>,
    registry_xy: Seq<int>,
    a: Seq<int>,
    b: Seq<int>,
    left: Proof<C, R>,
    right: Proof<C, R>,
    left_rxs: Seq<&Polynomial<C::CircuitField, R>>,
    right_rxs: Seq<&Polynomial<C::CircuitField, R>>,
    other_points: QueryPoints<C::CircuitField>,
    other_s_prime: NativeSPrime<C, R>,
    other_left: Proof<C, R>,
    other_right: Proof<C, R>,
    other_left_rxs: Seq<&Polynomial<C::CircuitField, R>>,
    other_right_rxs: Seq<&Polynomial<C::CircuitField, R>>,
    i: int,
)
    requires
        other_points.w.val() == points.w.val(),
        other_points.x.val() == points.x.val(),
        other_points.z.val() == points.z.val(),
        other_points.internal == points.internal,
        other_left_rxs.len() == left_rxs.len(),
        other_right_rxs.len() == right_rxs.len(),
        0 <= i < 20 + left_rxs.len() + right_rxs.len() + points.internal.len(),
        !of_left(i, left_rxs.len() as int),
        !of_right(i, left_rxs.len() as int, right_rxs.len() as int),
    ensures
        ({
            let qs = fuse::native_f_queries_spec(
                points,
                s_prime,
                registry_wy,
                registry_xy,
                a,
                b,
                left,
                right,
                left_rxs,
                right_rxs,
            );
            let rs = fuse::native_f_queries_spec(
                other_points,
                other_s_prime,
                registry_wy,
                registry_xy,
                a,
                b,
                other_left,
                other_right,
                other_left_rxs,
                other_right_rxs,
            );
            qs[i] == rs[i]
        }),
{
}

/// Exchanging the children, with all that belongs to each, exchanges their queries.
pub proof fn exchanged_children_exchange_queries<C: Cycle, R: Rank>(
    points: QueryPoints<C::CircuitField>,
    s_prime: NativeSPrime<C, R>,
    registry_wy: RegistryWy<C, R>,
    registry_xy: Seq<int>,
    a: Seq<int>,
    b: Seq<int>,
    left: Proof<C, R>,
    right: Proof<C, R>,
    left_rxs: Seq<&Polynomial<C::CircuitField, R>>,
    right_rxs: Seq<&Polynomial<C::CircuitField, R>>,
    points_back: QueryPoints<C::CircuitField>,
    s_prime_back: NativeSPrime<C, R>,
    i: int,
)
    requires
        points_back.w.val() == points.w.val(),
        points_back.x.val() == points.x.val(),
        points_back.y.val() == points.y.val(),
        points_back.z.val() == points.z.val(),
        points_back.left_circuit.val() == points.right_circuit.val(),
        points_back.right_circuit.val() == points.left_circuit.val(),
        s_prime_back.registry_wx0_poly@ == s_prime.registry_wx1_poly@,
        s_prime_back.registry_wx1_poly@ == s_prime.registry_wx0_poly@,
    ensures
        ({
            let qs = fuse::native_f_queries_spec(
                points,
                s_prime,
                registry_wy,
                registry_xy,
                a,
                b,
                left,
                right,
                left_rxs,
                right_rxs,
            );
            let rs = fuse::native_f_queries_spec(
                points_back,
                s_prime_back,
                registry_wy,
                registry_xy,
                a,
                b,
                right,
                left,
                right_rxs,
                left_rxs,
            );
            &&& qs[0] == rs[1] && qs[1] == rs[0]
            &&& qs[2] == rs[3] && qs[3] == rs[2]
            &&& qs[4] == rs[5] && qs[5] == rs[4]
            &&& qs[6] == rs[7] && qs[7] == rs[6]
            &&& qs[8] == rs[9] && qs[9] == rs[8]
            &&& qs[12] == rs[13] && qs[13] == rs[12]
            &&& qs[14] == rs[16] && qs[16] == rs[14]
            &&& qs[15] == rs[17] && qs[17] == rs[15]
            &&& 0 <= i < left_rxs.len() ==> qs[20 + i] == rs[20 + right_rxs.len() + i]
            &&& 0 <= i < right_rxs.len() ==> qs[20 + left_rxs.len() + i] == rs[20 + i]
        }),
{
}

/// The claim of each child is among the queries: what the child's builder gave as the value
/// `v` of its final polynomial is the value that the query about that child claims.
pub proof fn claims_of_children<'params, C: Cycle, R: Rank, A: MsmFacade>(
    points: QueryPoints<C::CircuitField>,
    s_prime: NativeSPrime<C, R>,
    registry_wy: RegistryWy<C, R>,
    registry_xy: Seq<int>,
    a: Seq<int>,
    b: Seq<int>,
    left: Proof<C, R>,
    right: Proof<C, R>,
    left_rxs: Seq<&Polynomial<C::CircuitField, R>>,
    right_rxs: Seq<&Polynomial<C::CircuitField, R>>,
    left_builder: ProofBuilder<'params, C, R, A>,
    right_builder: ProofBuilder<'params, C, R, A>,
    left_v: C::CircuitField,
    right_v: C::CircuitField,
)
    requires
        left_builder.kept_in(left),
        right_builder.kept_in(right),
        left_builder.claims_v(left_v.val()),
        right_builder.claims_v(right_v.val()),
    ensures
        ({
            let p = C::CircuitField::modulus();
            let qs = fuse::native_f_queries_spec(
                points,
                s_prime,
                registry_wy,
                registry_xy,
                a,
                b,
                left,
                right,
                left_rxs,
                right_rxs,
            );
            &&& modular::cong(answer(qs[0]), left_v.val(), p)
            &&& modular::cong(answer(qs[1]), right_v.val(), p)
        }),
{
    let p = C::CircuitField::modulus();
    C::CircuitField::lemma_modulus();
    modular::lemma_rem(poly::eval(left.native_p_poly@, left.u.val()), p);
    modular::lemma_rem(poly::eval(right.native_p_poly@, right.u.val()), p);
}

/// The coefficient at `k` of the sum of the polynomials, each multiplied by its weight.
pub open spec fn weighted(polys: Seq<Seq<int>>, weights: Seq<int>, k: int) -> int {
    sums::sigma(polys.len(), |i: int| weights[i] * polys[i][k])
}

/// The polynomial `c` is the sum of the polynomials, each multiplied by its weight.
pub open spec fn is_weighted(
    c: Seq<int>,
    polys: Seq<Seq<int>>,
    weights: Seq<int>,
    p: int,
) -> bool {
    &&& weights.len() == polys.len()
    &&& forall|i: int| 0 <= i < polys.len() ==> (#[trigger] polys[i]).len() == c.len()
    &&& forall|k: int|
        0 <= k < c.len() ==> modular::cong(#[trigger] c[k], weighted(polys, weights, k), p)
}

/// A weighted sum of polynomials has, as its value, the weighted sum of the values.
proof fn lemma_weighted_values(
    c: Seq<int>,
    polys: Seq<Seq<int>>,
    weights: Seq<int>,
    x: int,
    p: int,
)
    requires
        p > 0,
        is_weighted(c, polys, weights, p),
    ensures
        modular::cong(
            poly::eval(c, x),
            sums::sigma(polys.len(), |i: int| weights[i] * poly::eval(polys[i], x)),
            p,
        ),
{
    let d = Seq::new(c.len(), |k: int| weighted(polys, weights, k));
    lemma_weighted_exact(d, polys, weights, x);
    assert(poly::cong(c, d, p)) by {
        assert forall|k: int| 0 <= k < c.len() implies modular::cong(#[trigger] c[k], d[k], p) by {}
    }
    poly::lemma_eval_cong(c, d, x, x, p);
}

proof fn lemma_weighted_exact(d: Seq<int>, polys: Seq<Seq<int>>, weights: Seq<int>, x: int)
    requires
        weights.len() == polys.len(),
        forall|i: int| 0 <= i < polys.len() ==> (#[trigger] polys[i]).len() == d.len(),
        forall|k: int| 0 <= k < d.len() ==> #[trigger] d[k] == weighted(polys, weights, k),
    ensures
        poly::eval(d, x) == sums::sigma(
            polys.len(),
            |i: int| weights[i] * poly::eval(polys[i], x),
        ),
    decreases polys.len(),
{
    let g = |i: int| weights[i] * poly::eval(polys[i], x);
    if polys.len() == 0 {
        let f = |k: int| d[k] * pow(x, k as nat);
        assert forall|k: int| 0 <= k < d.len() implies #[trigger] f(k) == 0 by {
            assert(d[k] == 0);
        }
        sums::lemma_zero(d.len(), f);
    } else {
        let n = (polys.len() - 1) as nat;
        let (ps, ws) = (polys.drop_last(), weights.drop_last());
        let (q, w) = (polys[n as int], weights[n as int]);
        let rest = Seq::new(d.len(), |k: int| weighted(ps, ws, k));
        let last = Seq::new(d.len(), |k: int| w * q[k]);
        lemma_weighted_exact(rest, ps, ws, x);
        let h = |i: int| ws[i] * poly::eval(ps[i], x);
        sums::lemma_ext(n, h, g);
        assert forall|k: int| 0 <= k < d.len() implies #[trigger] d[k] == rest[k] + last[k] by {
            let u = |i: int| weights[i] * polys[i][k];
            let v = |i: int| ws[i] * ps[i][k];
            sums::lemma_ext(n, u, v);
        }
        poly::lemma_eval_add(rest, last, d, x);
        poly::lemma_eval_scale(q, w, last, x);
    }
}

/// The coefficients of a list of polynomials.
pub open spec fn all_coeffs<F: Field, R: Rank>(rxs: Seq<&Polynomial<F, R>>) -> Seq<Seq<int>> {
    Seq::new(rxs.len(), |i: int| rxs[i]@)
}

/// The polynomials with `z X` in place of `X`.
pub open spec fn all_dilated(polys: Seq<Seq<int>>, z: int) -> Seq<Seq<int>> {
    Seq::new(
        polys.len(),
        |i: int| Seq::new(polys[i].len(), |k: int| polys[i][k] * pow(z, k as nat)),
    )
}

/// The value of a polynomial with `z X` in place of `X`.
proof fn lemma_dilated(c: Seq<int>, d: Seq<int>, z: int, x: int)
    requires
        d.len() == c.len(),
        forall|k: int| 0 <= k < c.len() ==> #[trigger] d[k] == c[k] * pow(z, k as nat),
    ensures
        poly::eval(d, x) == poly::eval(c, x * z),
{
    let f = |k: int| d[k] * pow(x, k as nat);
    let g = |k: int| c[k] * pow(x * z, k as nat);
    assert forall|k: int| 0 <= k < c.len() implies #[trigger] f(k) == g(k) by {
        lemma_pow_distributes(x, z, k as nat);
        let (v, s, t) = (c[k], pow(z, k as nat), pow(x, k as nat));
        assert((v * s) * t == v * (t * s)) by (nonlinear_arith);
    }
    sums::lemma_ext(c.len(), f, g);
}

/// What the first folded polynomial is folded from: those of the children, and the polynomials
/// of their circuits and stages.
pub open spec fn first_sources<C: Cycle, R: Rank>(
    left: Proof<C, R>,
    right: Proof<C, R>,
    left_rxs: Seq<&Polynomial<C::CircuitField, R>>,
    right_rxs: Seq<&Polynomial<C::CircuitField, R>>,
) -> Seq<Seq<int>> {
    seq![left.native_a_poly@, right.native_a_poly@] + all_coeffs(left_rxs) + all_coeffs(right_rxs)
}

/// What the second folded polynomial is folded from: those of the children, and the polynomials
/// of their circuits and stages with `z X` in place of `X`.
pub open spec fn second_sources<C: Cycle, R: Rank>(
    left: Proof<C, R>,
    right: Proof<C, R>,
    left_rxs: Seq<&Polynomial<C::CircuitField, R>>,
    right_rxs: Seq<&Polynomial<C::CircuitField, R>>,
    z: int,
) -> Seq<Seq<int>> {
    seq![left.native_b_poly@, right.native_b_poly@] + all_dilated(
        all_coeffs(left_rxs) + all_coeffs(right_rxs),
        z,
    )
}

/// The values that a fusion opens suffice to check how the first polynomial was folded: with
/// the weights it was folded with, its value is the weighted sum of the values opened for what
/// it was folded from.
pub proof fn first_fold_is_opened<C: Cycle, R: Rank>(
    points: QueryPoints<C::CircuitField>,
    s_prime: NativeSPrime<C, R>,
    registry_wy: RegistryWy<C, R>,
    registry_xy: Seq<int>,
    a: Seq<int>,
    b: Seq<int>,
    left: Proof<C, R>,
    right: Proof<C, R>,
    left_rxs: Seq<&Polynomial<C::CircuitField, R>>,
    right_rxs: Seq<&Polynomial<C::CircuitField, R>>,
    weights: Seq<int>,
)
    requires
        is_weighted(
            a,
            first_sources(left, right, left_rxs, right_rxs),
            weights,
            C::CircuitField::modulus(),
        ),
    ensures
        ({
            let qs = fuse::native_f_queries_spec(
                points,
                s_prime,
                registry_wy,
                registry_xy,
                a,
                b,
                left,
                right,
                left_rxs,
                right_rxs,
            );
            modular::cong(
                answer(qs[18]),
                weights[0] * answer(qs[14]) + weights[1] * answer(qs[16]) + sums::sigma(
                    left_rxs.len() + right_rxs.len(),
                    |i: int| weights[2 + i] * answer(qs[20 + i]),
                ),
                C::CircuitField::modulus(),
            )
        }),
{
    let p = C::CircuitField::modulus();
    C::CircuitField::lemma_modulus();
    let qs = fuse::native_f_queries_spec(
        points,
        s_prime,
        registry_wy,
        registry_xy,
        a,
        b,
        left,
        right,
        left_rxs,
        right_rxs,
    );
    let sources = first_sources(left, right, left_rxs, right_rxs);
    let m = left_rxs.len() + right_rxs.len();
    let xz = (points.x.val() * points.z.val()) % p;
    lemma_weighted_values(a, sources, weights, xz, p);
    let f = |i: int| weights[i] * poly::eval(sources[i], xz);
    let g = |i: int| weights[2 + i] * answer(qs[20 + i]);
    lemma_first_two(m, f, g);
    assert forall|i: int| 0 <= i < m implies #[trigger] g(i) == f(2 + i) by {
        assert(qs[20 + i] == (sources[2 + i], xz));
    }
}

/// A sum whose first two terms stand apart.
proof fn lemma_first_two(m: nat, f: spec_fn(int) -> int, g: spec_fn(int) -> int)
    ensures
        (forall|i: int| 0 <= i < m ==> #[trigger] g(i) == f(2 + i)) ==> sums::sigma(m + 2, f)
            == f(0) + f(1) + sums::sigma(m, g),
    decreases m,
{
    if forall|i: int| 0 <= i < m ==> #[trigger] g(i) == f(2 + i) {
        if m == 0 {
            reveal_with_fuel(sums::sigma, 3);
        } else {
            let k = (m - 1) as nat;
            lemma_first_two(k, f, g);
            assert(g(k as int) == f(2 + k as int));
        }
    }
}

/// The values that a fusion opens suffice to check how the second polynomial was folded: with
/// the weights it was folded with, its value at `x` is the weighted sum of the values opened
/// for the folded polynomials of the children and for the polynomials of their circuits and
/// stages. The latter are opened once, at `x z`, for both folded polynomials.
pub proof fn second_fold_is_opened<C: Cycle, R: Rank>(
    points: QueryPoints<C::CircuitField>,
    s_prime: NativeSPrime<C, R>,
    registry_wy: RegistryWy<C, R>,
    registry_xy: Seq<int>,
    a: Seq<int>,
    b: Seq<int>,
    left: Proof<C, R>,
    right: Proof<C, R>,
    left_rxs: Seq<&Polynomial<C::CircuitField, R>>,
    right_rxs: Seq<&Polynomial<C::CircuitField, R>>,
    weights: Seq<int>,
)
    requires
        is_weighted(
            b,
            second_sources(left, right, left_rxs, right_rxs, points.z.val()),
            weights,
            C::CircuitField::modulus(),
        ),
    ensures
        ({
            let qs = fuse::native_f_queries_spec(
                points,
                s_prime,
                registry_wy,
                registry_xy,
                a,
                b,
                left,
                right,
                left_rxs,
                right_rxs,
            );
            modular::cong(
                answer(qs[19]),
                weights[0] * answer(qs[15]) + weights[1] * answer(qs[17]) + sums::sigma(
                    left_rxs.len() + right_rxs.len(),
                    |i: int| weights[2 + i] * answer(qs[20 + i]),
                ),
                C::CircuitField::modulus(),
            )
        }),
{
    let p = C::CircuitField::modulus();
    C::CircuitField::lemma_modulus();
    let qs = fuse::native_f_queries_spec(
        points,
        s_prime,
        registry_wy,
        registry_xy,
        a,
        b,
        left,
        right,
        left_rxs,
        right_rxs,
    );
    let (x, z) = (points.x.val(), points.z.val());
    let rxs = all_coeffs(left_rxs) + all_coeffs(right_rxs);
    let sources = second_sources(left, right, left_rxs, right_rxs, z);
    let m = left_rxs.len() + right_rxs.len();
    let xz = (x * z) % p;
    lemma_weighted_values(b, sources, weights, x, p);
    let f = |i: int| weights[i] * poly::eval(sources[i], x);
    let h = |i: int| weights[2 + i] * poly::eval(sources[2 + i], x);
    let g = |i: int| weights[2 + i] * answer(qs[20 + i]);
    lemma_first_two(m, f, h);
    assert forall|i: int| 0 <= i < m implies modular::cong(#[trigger] h(i), g(i), p) by {
        assert(qs[20 + i] == (rxs[i], xz));
        lemma_dilated(rxs[i], sources[2 + i], z, x);
        modular::lemma_rem(x * z, p);
        poly::lemma_eval_cong(rxs[i], rxs[i], xz, x * z, p);
        modular::lemma_mul(
            weights[2 + i],
            weights[2 + i],
            poly::eval(sources[2 + i], x),
            answer(qs[20 + i]),
            p,
        );
    }
    sums::lemma_cong(m, h, g, p);
    modular::lemma_add(f(0) + f(1), f(0) + f(1), sums::sigma(m, h), sums::sigma(m, g), p);
}

/// Two combinations of quotients that differ in one query differ in its quotient.
proof fn lemma_one_query(
    qs: Seq<QuerySpec>,
    rs: Seq<QuerySpec>,
    f: Seq<int>,
    g: Seq<int>,
    alpha: int,
    j: int,
    y: int,
    p: int,
)
    requires
        p > 0,
        f.len() > 0,
        g.len() == f.len(),
        qs.len() == rs.len(),
        0 <= j < qs.len(),
        forall|i: int| 0 <= i < qs.len() && i != j ==> #[trigger] qs[i] == rs[i],
        forall|i: int| 0 <= i < qs.len() ==> (#[trigger] qs[i]).0.len() == f.len(),
        rs[j].0.len() == f.len(),
        forall|k: int|
            0 <= k < f.len() ==> #[trigger] f[k] == quotients::combined(qs, alpha, k) % p,
        forall|k: int|
            0 <= k < g.len() ==> #[trigger] g[k] == quotients::combined(rs, alpha, k) % p,
    ensures
        modular::cong(
            (poly::eval(f, y) - poly::eval(g, y)) * ((y - qs[j].1) * (y - rs[j].1)),
            pow(alpha, (qs.len() - 1 - j) as nat) * ((poly::eval(qs[j].0, y) - answer(qs[j])) * (y
                - rs[j].1) - (poly::eval(rs[j].0, y) - answer(rs[j])) * (y - qs[j].1)),
            p,
        ),
{
    let n = qs.len();
    assert forall|i: int| 0 <= i < rs.len() implies (#[trigger] rs[i]).0.len() == g.len() by {
        assert(qs[i].0.len() == f.len());
        if i != j {
            assert(qs[i] == rs[i]);
        }
    }
    laws::combined_quotient_values(qs, f, alpha, y, p);
    laws::combined_quotient_values(rs, g, alpha, y, p);
    let (u, v) = (laws::quotient_values(qs, y).reverse(), laws::quotient_values(rs, y).reverse());
    let e = n - 1 - j;
    let (s, t) = (u[e], v[e]);
    let w = pow(alpha, e as nat);
    assert forall|i: int| 0 <= i < n && i != e implies #[trigger] u[i] == v[i] by {
        assert(qs[n - 1 - i] == rs[n - 1 - i]);
    }
    let a = |i: int| u[i] * pow(alpha, i as nat);
    let b = |i: int| v[i] * pow(alpha, i as nat);
    let d = |i: int| a(i) - b(i);
    assert forall|i: int| 0 <= i < n implies #[trigger] a(i) == b(i) + d(i) by {}
    sums::lemma_plus(n, b, d, a);
    assert forall|i: int| 0 <= i < n && i != e implies #[trigger] d(i) == 0 by {
        assert(u[i] == v[i]);
    }
    sums::lemma_single(n, d, e);
    assert(poly::eval(u, alpha) - poly::eval(v, alpha) == s * w - t * w);
    modular::lemma_sub(
        poly::eval(f, y),
        poly::eval(u, alpha),
        poly::eval(g, y),
        poly::eval(v, alpha),
        p,
    );
    let (k, l) = (y - qs[j].1, y - rs[j].1);
    modular::lemma_mul(
        poly::eval(f, y) - poly::eval(g, y),
        s * w - t * w,
        k * l,
        k * l,
        p,
    );
    poly::lemma_quotient(qs[j].0, qs[j].1, y);
    poly::lemma_quotient(rs[j].0, rs[j].1, y);
    assert(s * w - t * w == w * (s - t)) by (nonlinear_arith);
    lemma_mul_is_associative(w, s - t, k * l);
    assert((s - t) * (k * l) == s * (k * l) - t * (k * l)) by (nonlinear_arith);
    lemma_mul_is_associative(s, k, l);
    lemma_mul_is_commutative(k, l);
    lemma_mul_is_associative(t, l, k);
}

/// The polynomial `f` is the quotient polynomial of a fusion.
pub open spec fn is_f<C: Cycle, R: Rank>(
    f: Polynomial<C::CircuitField, R>,
    points: QueryPoints<C::CircuitField>,
    s_prime: NativeSPrime<C, R>,
    registry_wy: RegistryWy<C, R>,
    registry_xy: Seq<int>,
    a: Seq<int>,
    b: Seq<int>,
    left: Proof<C, R>,
    right: Proof<C, R>,
    left_rxs: Seq<&Polynomial<C::CircuitField, R>>,
    right_rxs: Seq<&Polynomial<C::CircuitField, R>>,
    alpha: int,
) -> bool {
    forall|k: int|
        0 <= k < 4 * R::gates() ==> #[trigger] f@[k] == quotients::combined(
            fuse::native_f_queries_spec(
                points,
                s_prime,
                registry_wy,
                registry_xy,
                a,
                b,
                left,
                right,
                left_rxs,
                right_rxs,
            ),
            alpha,
            k,
        ) % C::CircuitField::modulus()
}

/// All queries of a fusion are about polynomials of one size.
proof fn lemma_query_sizes<C: Cycle, R: Rank>(
    points: QueryPoints<C::CircuitField>,
    s_prime: NativeSPrime<C, R>,
    registry_wy: RegistryWy<C, R>,
    registry_xy: Seq<int>,
    a: Seq<int>,
    b: Seq<int>,
    left: Proof<C, R>,
    right: Proof<C, R>,
    left_rxs: Seq<&Polynomial<C::CircuitField, R>>,
    right_rxs: Seq<&Polynomial<C::CircuitField, R>>,
)
    requires
        registry_xy.len() == 4 * R::gates(),
        a.len() == 4 * R::gates(),
        b.len() == 4 * R::gates(),
    ensures
        ({
            let qs = fuse::native_f_queries_spec(
                points,
                s_prime,
                registry_wy,
                registry_xy,
                a,
                b,
                left,
                right,
                left_rxs,
                right_rxs,
            );
            forall|i: int| 0 <= i < qs.len() ==> (#[trigger] qs[i]).0.len() == 4 * R::gates()
        }),
{
    let qs = fuse::native_f_queries_spec(
        points,
        s_prime,
        registry_wy,
        registry_xy,
        a,
        b,
        left,
        right,
        left_rxs,
        right_rxs,
    );
    let n = 20 + left_rxs.len() + right_rxs.len();
    assert forall|i: int| 0 <= i < qs.len() implies (#[trigger] qs[i]).0.len() == 4
        * R::gates() by {
        assert(i < 20 || 20 <= i < 20 + left_rxs.len() || 20 + left_rxs.len() <= i < n || n <= i);
    }
}

/// The quotient polynomial is a witness for the claim of the left child, and for nothing else
/// about it that the claim depends on. Of two fusions that differ only in the final polynomial
/// of the left child and its point `u`, the quotient polynomials differ by what the two claims
/// differ in: with the weight of the first query, by `(p(y) - p(u)) / (y - u)` for the one `p`
/// and `u` minus the same for the other.
pub proof fn left_claim_is_witnessed<C: Cycle, R: Rank>(
    points: QueryPoints<C::CircuitField>,
    s_prime: NativeSPrime<C, R>,
    registry_wy: RegistryWy<C, R>,
    registry_xy: Seq<int>,
    a: Seq<int>,
    b: Seq<int>,
    left: Proof<C, R>,
    right: Proof<C, R>,
    left_rxs: Seq<&Polynomial<C::CircuitField, R>>,
    right_rxs: Seq<&Polynomial<C::CircuitField, R>>,
    other: Proof<C, R>,
    f: Polynomial<C::CircuitField, R>,
    g: Polynomial<C::CircuitField, R>,
    alpha: int,
    y: int,
)
    requires
        other.x == left.x,
        other.y == left.y,
        other.native_registry_xy_poly@ == left.native_registry_xy_poly@,
        other.native_a_poly@ == left.native_a_poly@,
        other.native_b_poly@ == left.native_b_poly@,
        registry_xy.len() == 4 * R::gates(),
        a.len() == 4 * R::gates(),
        b.len() == 4 * R::gates(),
        is_f(
            f,
            points,
            s_prime,
            registry_wy,
            registry_xy,
            a,
            b,
            left,
            right,
            left_rxs,
            right_rxs,
            alpha,
        ),
        is_f(
            g,
            points,
            s_prime,
            registry_wy,
            registry_xy,
            a,
            b,
            other,
            right,
            left_rxs,
            right_rxs,
            alpha,
        ),
    ensures
        ({
            let n = 20 + left_rxs.len() + right_rxs.len() + points.internal.len();
            let (u, t) = (left.u.val(), other.u.val());
            let (c, d) = (left.native_p_poly@, other.native_p_poly@);
            modular::cong(
                (poly::eval(f@, y) - poly::eval(g@, y)) * ((y - u) * (y - t)),
                pow(alpha, (n - 1) as nat) * ((poly::eval(c, y) - poly::eval(c, u)) * (y - t) - (
                poly::eval(d, y) - poly::eval(d, t)) * (y - u)),
                C::CircuitField::modulus(),
            )
        }),
{
    R::lemma_gates();
    C::CircuitField::lemma_modulus();
    let qs = fuse::native_f_queries_spec(
        points,
        s_prime,
        registry_wy,
        registry_xy,
        a,
        b,
        left,
        right,
        left_rxs,
        right_rxs,
    );
    let rs = fuse::native_f_queries_spec(
        points,
        s_prime,
        registry_wy,
        registry_xy,
        a,
        b,
        other,
        right,
        left_rxs,
        right_rxs,
    );
    lemma_query_sizes(
        points,
        s_prime,
        registry_wy,
        registry_xy,
        a,
        b,
        left,
        right,
        left_rxs,
        right_rxs,
    );
    lemma_one_query(qs, rs, f@, g@, alpha, 0, y, C::CircuitField::modulus());
}

/// The quotient polynomial is a witness for the claim of the right child: what holds of the
/// left one holds of it, with the weight of the second query.
pub proof fn right_claim_is_witnessed<C: Cycle, R: Rank>(
    points: QueryPoints<C::CircuitField>,
    s_prime: NativeSPrime<C, R>,
    registry_wy: RegistryWy<C, R>,
    registry_xy: Seq<int>,
    a: Seq<int>,
    b: Seq<int>,
    left: Proof<C, R>,
    right: Proof<C, R>,
    left_rxs: Seq<&Polynomial<C::CircuitField, R>>,
    right_rxs: Seq<&Polynomial<C::CircuitField, R>>,
    other: Proof<C, R>,
    f: Polynomial<C::CircuitField, R>,
    g: Polynomial<C::CircuitField, R>,
    alpha: int,
    y: int,
)
    requires
        other.x == right.x,
        other.y == right.y,
        other.native_registry_xy_poly@ == right.native_registry_xy_poly@,
        other.native_a_poly@ == right.native_a_poly@,
        other.native_b_poly@ == right.native_b_poly@,
        registry_xy.len() == 4 * R::gates(),
        a.len() == 4 * R::gates(),
        b.len() == 4 * R::gates(),
        is_f(
            f,
            points,
            s_prime,
            registry_wy,
            registry_xy,
            a,
            b,
            left,
            right,
            left_rxs,
            right_rxs,
            alpha,
        ),
        is_f(
            g,
            points,
            s_prime,
            registry_wy,
            registry_xy,
            a,
            b,
            left,
            other,
            left_rxs,
            right_rxs,
            alpha,
        ),
    ensures
        ({
            let n = 20 + left_rxs.len() + right_rxs.len() + points.internal.len();
            let (u, t) = (right.u.val(), other.u.val());
            let (c, d) = (right.native_p_poly@, other.native_p_poly@);
            modular::cong(
                (poly::eval(f@, y) - poly::eval(g@, y)) * ((y - u) * (y - t)),
                pow(alpha, (n - 2) as nat) * ((poly::eval(c, y) - poly::eval(c, u)) * (y - t) - (
                poly::eval(d, y) - poly::eval(d, t)) * (y - u)),
                C::CircuitField::modulus(),
            )
        }),
{
    R::lemma_gates();
    C::CircuitField::lemma_modulus();
    let qs = fuse::native_f_queries_spec(
        points,
        s_prime,
        registry_wy,
        registry_xy,
        a,
        b,
        left,
        right,
        left_rxs,
        right_rxs,
    );
    let rs = fuse::native_f_queries_spec(
        points,
        s_prime,
        registry_wy,
        registry_xy,
        a,
        b,
        left,
        other,
        left_rxs,
        right_rxs,
    );
    lemma_query_sizes(
        points,
        s_prime,
        registry_wy,
        registry_xy,
        a,
        b,
        left,
        right,
        left_rxs,
        right_rxs,
    );
    lemma_one_query(qs, rs, f@, g@, alpha, 1, y, C::CircuitField::modulus());
}

} // verus!
