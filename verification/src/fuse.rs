//! The fusion of two proofs into one.
//!
//! The polynomials of the stages, and the challenges, come from the circuits and the
//! transcript, which are not part of this library. What is computed from them, what is
//! committed to, and in which order the transcript sees it, is.
use crate::accel;
use crate::accel::{AccelMsmConfig, AccelMsmStats, MsmFacade};
use crate::builder;
use crate::builder::ProofBuilder;
use crate::curve;
use crate::curve::CurveAffine;
use crate::cycle::{Cycle, FixedGenerators};
use crate::field::Field;
use crate::modular;
use crate::msm::batch_to_affine;
use crate::pcd::{ChildStageRx, Proof};
use crate::poly;
use crate::quotients;
use crate::quotients::{combine_quotients, Query, QuerySpec};
use crate::rank::Rank;
use crate::sparse::commit;
use crate::sparse::Polynomial;
use crate::sums;
use vstd::arithmetic::mul::*;
use vstd::prelude::*;

verus! {

/// The quotient polynomial and its commitment.
pub struct NativeF<C: Cycle, R: Rank> {
    pub poly: Polynomial<C::CircuitField, R>,
    pub commitment: C::HostCurve,
}

/// The registry at `w` and `y`, as a polynomial in `X`, and its commitment.
pub struct RegistryWy<C: Cycle, R: Rank> {
    pub poly: Polynomial<C::CircuitField, R>,
    pub commitment: C::HostCurve,
}

/// The registry at `w` and the `x` of each child, as polynomials in `Y`, and their
/// commitments.
pub struct NativeSPrime<C: Cycle, R: Rank> {
    pub registry_wx0_poly: Polynomial<C::CircuitField, R>,
    pub registry_wx0_commitment: C::HostCurve,
    pub registry_wx1_poly: Polynomial<C::CircuitField, R>,
    pub registry_wx1_commitment: C::HostCurve,
}

/// The challenges and points that the quotient polynomial is computed with.
pub struct QueryPoints<F> {
    pub w: F,
    pub y: F,
    pub z: F,
    pub x: F,
    /// The point of the left child's circuit in the registry.
    pub left_circuit: F,
    /// The point of the right child's circuit in the registry.
    pub right_circuit: F,
    /// The points of the internal circuits in the registry.
    pub internal: Vec<F>,
}

/// A list of polynomials, all of which are queried at one point.
pub open spec fn queried_at<F: Field, R: Rank>(
    polys: Seq<&Polynomial<F, R>>,
    point: int,
) -> Seq<QuerySpec> {
    Seq::new(polys.len(), |i: int| (polys[i]@, point))
}

/// One polynomial, queried at a list of points.
pub open spec fn queried_on<F: Field>(c: Seq<int>, points: Seq<F>) -> Seq<QuerySpec> {
    Seq::new(points.len(), |i: int| (c, points[i].val()))
}

/// The queries that the quotient polynomial answers, in order: the values of the final
/// polynomials of the children; the transitions from the registries of the children to
/// the current one; the circuits of the children in the registry; the folded polynomials
/// of both children and the current ones; the polynomials of the circuits and stages of
/// both children; and the internal circuits in the registry. `xz` is the product of `x`
/// and `z`.
pub open spec fn native_f_queries_spec<C: Cycle, R: Rank>(
    points: QueryPoints<C::CircuitField>,
    s_prime: NativeSPrime<C, R>,
    registry_wy: RegistryWy<C, R>,
    registry_xy: Seq<int>,
    a: Seq<int>,
    b: Seq<int>,
    left: Proof<C, R>,
    right: Proof<C, R>,
    left_rxs: Seq<&Polynomial<C::CircuitField, R>>,
    right_rxs: Seq<&Polynomial<C::CircuitField, R>>,
) -> Seq<QuerySpec> {
    let xz = (points.x.val() * points.z.val()) % C::CircuitField::modulus();
    seq![
        (left.native_p_poly@, left.u.val()),
        (right.native_p_poly@, right.u.val()),
        (left.native_registry_xy_poly@, points.w.val()),
        (right.native_registry_xy_poly@, points.w.val()),
        (s_prime.registry_wx0_poly@, left.y.val()),
        (s_prime.registry_wx1_poly@, right.y.val()),
        (s_prime.registry_wx0_poly@, points.y.val()),
        (s_prime.registry_wx1_poly@, points.y.val()),
        (registry_wy.poly@, left.x.val()),
        (registry_wy.poly@, right.x.val()),
        (registry_wy.poly@, points.x.val()),
        (registry_xy, points.w.val()),
        (registry_xy, points.left_circuit.val()),
        (registry_xy, points.right_circuit.val()),
        (left.native_a_poly@, xz),
        (left.native_b_poly@, points.x.val()),
        (right.native_a_poly@, xz),
        (right.native_b_poly@, points.x.val()),
        (a, xz),
        (b, points.x.val()),
    ] + queried_at(left_rxs, xz) + queried_at(right_rxs, xz) + queried_on(
        registry_xy,
        points.internal@,
    )
}

/// The polynomials of the proof that the quotient polynomial refers to are in order.
pub open spec fn queryable<C: Cycle, R: Rank>(p: Proof<C, R>) -> bool {
    &&& p.native_p_poly.wf()
    &&& p.native_registry_xy_poly.wf()
    &&& p.native_a_poly.wf()
    &&& p.native_b_poly.wf()
}

/// The queries that the quotient polynomial answers, in order.
pub fn native_f_queries<'a, C: Cycle, R: Rank>(
    points: &QueryPoints<C::CircuitField>,
    s_prime: &'a NativeSPrime<C, R>,
    registry_wy: &'a RegistryWy<C, R>,
    registry_xy: &'a Polynomial<C::CircuitField, R>,
    a: &'a Polynomial<C::CircuitField, R>,
    b: &'a Polynomial<C::CircuitField, R>,
    left: &'a Proof<C, R>,
    right: &'a Proof<C, R>,
    left_rxs: &Vec<&'a Polynomial<C::CircuitField, R>>,
    right_rxs: &Vec<&'a Polynomial<C::CircuitField, R>>,
) -> (r: Vec<Query<'a, C::CircuitField, R>>)
    requires
        s_prime.registry_wx0_poly.wf(),
        s_prime.registry_wx1_poly.wf(),
        registry_wy.poly.wf(),
        registry_xy.wf(),
        a.wf(),
        b.wf(),
        queryable(*left),
        queryable(*right),
        forall|i: int| 0 <= i < left_rxs.len() ==> (#[trigger] left_rxs@[i]).wf(),
        forall|i: int| 0 <= i < right_rxs.len() ==> (#[trigger] right_rxs@[i]).wf(),
    ensures
        quotients::views(r@) == native_f_queries_spec(
            *points,
            *s_prime,
            *registry_wy,
            registry_xy@,
            a@,
            b@,
            *left,
            *right,
            left_rxs@,
            right_rxs@,
        ),
        forall|i: int| 0 <= i < r.len() ==> (#[trigger] r@[i]).poly.wf(),
{
    let xz = points.x.mul(&points.z);
    let mut qs: Vec<Query<'a, C::CircuitField, R>> = vec![
        Query { poly: &left.native_p_poly, point: left.u },
        Query { poly: &right.native_p_poly, point: right.u },
        Query { poly: &left.native_registry_xy_poly, point: points.w },
        Query { poly: &right.native_registry_xy_poly, point: points.w },
        Query { poly: &s_prime.registry_wx0_poly, point: left.y },
        Query { poly: &s_prime.registry_wx1_poly, point: right.y },
        Query { poly: &s_prime.registry_wx0_poly, point: points.y },
        Query { poly: &s_prime.registry_wx1_poly, point: points.y },
        Query { poly: &registry_wy.poly, point: left.x },
        Query { poly: &registry_wy.poly, point: right.x },
        Query { poly: &registry_wy.poly, point: points.x },
        Query { poly: registry_xy, point: points.w },
        Query { poly: registry_xy, point: points.left_circuit },
        Query { poly: registry_xy, point: points.right_circuit },
        Query { poly: &left.native_a_poly, point: xz },
        Query { poly: &left.native_b_poly, point: points.x },
        Query { poly: &right.native_a_poly, point: xz },
        Query { poly: &right.native_b_poly, point: points.x },
        Query { poly: a, point: xz },
        Query { poly: b, point: points.x },
    ];
    let ghost head = quotients::views(qs@);
    push_queries_at(&mut qs, left_rxs, xz);
    push_queries_at(&mut qs, right_rxs, xz);
    let ghost before = quotients::views(qs@);
    let mut i: usize = 0;
    proof {
        assert(before + queried_on(registry_xy@, points.internal@.take(0)) =~= before);
    }
    while i < points.internal.len()
        invariant
            i <= points.internal.len(),
            registry_xy.wf(),
            forall|i: int| 0 <= i < qs.len() ==> (#[trigger] qs@[i]).poly.wf(),
            quotients::views(qs@) == before + queried_on(
                registry_xy@,
                points.internal@.take(i as int),
            ),
        decreases points.internal.len() - i,
    {
        let ghost old_qs = qs@;
        let query = Query { poly: registry_xy, point: points.internal[i] };
        qs.push(query);
        proof {
            let s = queried_on(registry_xy@, points.internal@.take(i as int));
            assert(quotients::views(qs@) =~= quotients::views(old_qs).push(query@));
            assert(queried_on(registry_xy@, points.internal@.take(i + 1)) =~= s.push(query@));
            assert((before + s).push(query@) =~= before + s.push(query@));
        }
        i = i + 1;
    }
    proof {
        assert(points.internal@.take(i as int) =~= points.internal@);
        assert(quotients::views(qs@) =~= native_f_queries_spec(
            *points,
            *s_prime,
            *registry_wy,
            registry_xy@,
            a@,
            b@,
            *left,
            *right,
            left_rxs@,
            right_rxs@,
        ));
    }
    qs
}

/// Appends a query at `point` for each polynomial.
fn push_queries_at<'a, F: Field, R: Rank>(
    qs: &mut Vec<Query<'a, F, R>>,
    polys: &Vec<&'a Polynomial<F, R>>,
    point: F,
)
    requires
        forall|i: int| 0 <= i < polys.len() ==> (#[trigger] polys@[i]).wf(),
        forall|i: int| 0 <= i < old(qs).len() ==> (#[trigger] old(qs)@[i]).poly.wf(),
    ensures
        quotients::views(final(qs)@) == quotients::views(old(qs)@) + queried_at(
            polys@,
            point.val(),
        ),
        forall|i: int| 0 <= i < final(qs).len() ==> (#[trigger] final(qs)@[i]).poly.wf(),
{
    let ghost before = quotients::views(qs@);
    let mut i: usize = 0;
    proof {
        assert(before + queried_at(polys@.take(0), point.val()) =~= before);
    }
    while i < polys.len()
        invariant
            i <= polys.len(),
            forall|i: int| 0 <= i < polys.len() ==> (#[trigger] polys@[i]).wf(),
            forall|i: int| 0 <= i < qs.len() ==> (#[trigger] qs@[i]).poly.wf(),
            quotients::views(qs@) == before + queried_at(polys@.take(i as int), point.val()),
        decreases polys.len() - i,
    {
        let ghost old_qs = qs@;
        let query = Query { poly: polys[i], point };
        qs.push(query);
        proof {
            let s = queried_at(polys@.take(i as int), point.val());
            assert(quotients::views(qs@) =~= quotients::views(old_qs).push(query@));
            assert(queried_at(polys@.take(i + 1), point.val()) =~= s.push(query@));
            assert((before + s).push(query@) =~= before + s.push(query@));
        }
        i = i + 1;
    }
    proof {
        assert(polys@.take(i as int) =~= polys@);
    }
}


/// Computes the quotient polynomial and commits to it.
pub fn compute_native_f<'params, C: Cycle, R: Rank, A: MsmFacade>(
    points: &QueryPoints<C::CircuitField>,
    alpha: C::CircuitField,
    s_prime: &NativeSPrime<C, R>,
    registry_wy: &RegistryWy<C, R>,
    builder: &mut ProofBuilder<'params, C, R, A>,
    left: &Proof<C, R>,
    right: &Proof<C, R>,
    left_rxs: &Vec<&Polynomial<C::CircuitField, R>>,
    right_rxs: &Vec<&Polynomial<C::CircuitField, R>>,
) -> (r: NativeF<C, R>)
    requires
        old(builder).wf(),
        old(builder).host_fits(),
        old(builder).native_registry_xy_poly is Some,
        old(builder).native_a_poly is Some,
        old(builder).native_b_poly is Some,
        s_prime.registry_wx0_poly.wf(),
        s_prime.registry_wx1_poly.wf(),
        registry_wy.poly.wf(),
        queryable(*left),
        queryable(*right),
        forall|i: int| 0 <= i < left_rxs.len() ==> (#[trigger] left_rxs@[i]).wf(),
        forall|i: int| 0 <= i < right_rxs.len() ==> (#[trigger] right_rxs@[i]).wf(),
    ensures
        r.poly.wf(),
        forall|k: int|
            0 <= k < 4 * R::gates() ==> #[trigger] r.poly@[k] == quotients::combined(
                native_f_queries_spec(
                    *points,
                    *s_prime,
                    *registry_wy,
                    old(builder).native_registry_xy_poly->Some_0@,
                    old(builder).native_a_poly->Some_0@,
                    old(builder).native_b_poly->Some_0@,
                    *left,
                    *right,
                    left_rxs@,
                    right_rxs@,
                ),
                alpha.val(),
                k,
            ) % C::CircuitField::modulus(),
        old(builder).host_commits(
            r.commitment.dlog(),
            &r.poly,
            old(builder).stats,
            final(builder).stats,
        ),
        old(builder).exact() ==> builder::host_commitment::<C, R>(
            old(builder).params,
            r.commitment,
            r.poly,
        ),
        *final(builder) == (ProofBuilder { stats: final(builder).stats, ..*old(builder) }),
{
    let queries = native_f_queries(
        points,
        s_prime,
        registry_wy,
        builder.native_registry_xy_poly(),
        builder.native_a_poly(),
        builder.native_b_poly(),
        left,
        right,
        left_rxs,
        right_rxs,
    );
    assert(queries.len() == quotients::views(queries@).len());
    let poly = combine_quotients(&queries, alpha);
    let commitment = builder.commit_native(&poly);
    NativeF { poly, commitment }
}

/// Commits to the quotient bridge and stores both.
pub fn compute_bridge_f<'params, C: Cycle, R: Rank, A: MsmFacade>(
    builder: &mut ProofBuilder<'params, C, R, A>,
    rx: Polynomial<C::ScalarField, R>,
)
    requires
        old(builder).wf(),
        old(builder).nested_fits(),
        old(builder).bridge_f_rx is None,
        rx.wf(),
    ensures
        final(builder).wf(),
        final(builder).bridge_f_commitment is Some,
        old(builder).nested_commits(
            final(builder).bridge_f_commitment->Some_0.dlog(),
            &rx,
            old(builder).stats,
            final(builder).stats,
        ),
        old(builder).exact() && old(builder).opened() ==> final(builder).opened(),
        *final(builder) == (ProofBuilder {
            bridge_f_rx: Some(rx),
            bridge_f_commitment: final(builder).bridge_f_commitment,
            stats: final(builder).stats,
            ..*old(builder)
        }),
{
    let commitment = builder.commit_nested(&rx);
    builder.set_bridge_f_rx(rx, commitment);
}

/// Stores the preamble polynomial.
pub fn compute_native_preamble<'params, C: Cycle, R: Rank, A: MsmFacade>(
    builder: &mut ProofBuilder<'params, C, R, A>,
    rx: Polynomial<C::CircuitField, R>,
)
    requires
        old(builder).wf(),
        old(builder).native_preamble_rx is None,
        rx.wf(),
    ensures
        final(builder).wf(),
        *final(builder) == (ProofBuilder { native_preamble_rx: Some(rx), ..*old(builder) }),
{
    builder.set_native_preamble_rx(rx);
}

/// Commits to the preamble bridge and stores both.
pub fn compute_bridge_preamble<'params, C: Cycle, R: Rank, A: MsmFacade>(
    builder: &mut ProofBuilder<'params, C, R, A>,
    rx: Polynomial<C::ScalarField, R>,
)
    requires
        old(builder).wf(),
        old(builder).nested_fits(),
        old(builder).bridge_preamble_rx is None,
        rx.wf(),
    ensures
        final(builder).wf(),
        final(builder).bridge_preamble_commitment is Some,
        old(builder).nested_commits(
            final(builder).bridge_preamble_commitment->Some_0.dlog(),
            &rx,
            old(builder).stats,
            final(builder).stats,
        ),
        old(builder).exact() && old(builder).opened() ==> final(builder).opened(),
        *final(builder) == (ProofBuilder {
            bridge_preamble_rx: Some(rx),
            bridge_preamble_commitment: final(builder).bridge_preamble_commitment,
            stats: final(builder).stats,
            ..*old(builder)
        }),
{
    let commitment = builder.commit_nested(&rx);
    builder.set_bridge_preamble_rx(rx, commitment);
}

/// Commitments to two polynomials, one after the other, may have the given logarithms, and
/// leave the counters at `after`.
pub open spec fn host_commits_both<'params, C: Cycle, R: Rank, A: MsmFacade>(
    builder: ProofBuilder<'params, C, R, A>,
    dlog0: int,
    poly0: Polynomial<C::CircuitField, R>,
    dlog1: int,
    poly1: Polynomial<C::CircuitField, R>,
    after: AccelMsmStats,
) -> bool {
    exists|mid: AccelMsmStats|
        #[trigger] builder.host_commits(dlog0, &poly0, builder.stats, mid) && builder.host_commits(
            dlog1,
            &poly1,
            mid,
            after,
        )
}

/// Commits to the registry at `w` and the `x` of each child.
pub fn compute_native_s_prime<'params, C: Cycle, R: Rank, A: MsmFacade>(
    builder: &mut ProofBuilder<'params, C, R, A>,
    registry_wx0_poly: Polynomial<C::CircuitField, R>,
    registry_wx1_poly: Polynomial<C::CircuitField, R>,
) -> (r: NativeSPrime<C, R>)
    requires
        old(builder).host_fits(),
        registry_wx0_poly.wf(),
        registry_wx1_poly.wf(),
    ensures
        r.registry_wx0_poly == registry_wx0_poly,
        r.registry_wx1_poly == registry_wx1_poly,
        host_commits_both(
            *old(builder),
            r.registry_wx0_commitment.dlog(),
            registry_wx0_poly,
            r.registry_wx1_commitment.dlog(),
            registry_wx1_poly,
            final(builder).stats,
        ),
        old(builder).exact() ==> builder::host_commitment::<C, R>(
            old(builder).params,
            r.registry_wx0_commitment,
            registry_wx0_poly,
        ) && builder::host_commitment::<C, R>(
            old(builder).params,
            r.registry_wx1_commitment,
            registry_wx1_poly,
        ),
        *final(builder) == (ProofBuilder { stats: final(builder).stats, ..*old(builder) }),
{
    let first = builder.commit_native_projective(&registry_wx0_poly);
    let ghost mid = builder.stats;
    let second = builder.commit_native_projective(&registry_wx1_poly);
    let commitments = batch_to_affine::<C::HostCurve, 2>([first, second]);
    let registry_wx0_commitment = commitments[0];
    let registry_wx1_commitment = commitments[1];
    proof {
        assert(registry_wx0_commitment.dlog() == C::HostCurve::curve_dlog(&first));
        assert(registry_wx1_commitment.dlog() == C::HostCurve::curve_dlog(&second));
        assert(old(builder).host_commits(
            registry_wx0_commitment.dlog(),
            &registry_wx0_poly,
            old(builder).stats,
            mid,
        ));
        assert(old(builder).host_commits(
            registry_wx1_commitment.dlog(),
            &registry_wx1_poly,
            mid,
            builder.stats,
        ));
    }
    NativeSPrime {
        registry_wx0_poly,
        registry_wx0_commitment,
        registry_wx1_poly,
        registry_wx1_commitment,
    }
}

/// What the registry transition bridge is derived from: the commitments to the registry at
/// `w` and the `x` of each child, and that to the preamble polynomial, which must have
/// been stored.
pub fn bridge_s_prime_witness<'params, C: Cycle, R: Rank, A: MsmFacade>(
    builder: &mut ProofBuilder<'params, C, R, A>,
    native: &NativeSPrime<C, R>,
) -> (r: (C::HostCurve, C::HostCurve, C::HostCurve))
    requires
        old(builder).wf(),
        old(builder).host_fits(),
        old(builder).native_preamble_rx is Some,
    ensures
        r.0 == native.registry_wx0_commitment,
        r.1 == native.registry_wx1_commitment,
        old(builder).host_step(
            old(builder).native_preamble_commitment,
            &old(builder).native_preamble_rx->Some_0,
            r.2,
            old(builder).stats,
            final(builder).stats,
        ),
        old(builder).exact() ==> builder::host_commitment::<C, R>(
            old(builder).params,
            r.2,
            old(builder).native_preamble_rx->Some_0,
        ),
        final(builder).wf(),
        *final(builder) == (ProofBuilder {
            native_preamble_commitment: Some(r.2),
            stats: final(builder).stats,
            ..*old(builder)
        }),
{
    let preamble = builder.native_preamble_commitment();
    (native.registry_wx0_commitment, native.registry_wx1_commitment, preamble)
}

/// Commits to the registry transition bridge and stores both.
pub fn compute_bridge_s_prime<'params, C: Cycle, R: Rank, A: MsmFacade>(
    builder: &mut ProofBuilder<'params, C, R, A>,
    rx: Polynomial<C::ScalarField, R>,
)
    requires
        old(builder).wf(),
        old(builder).nested_fits(),
        old(builder).bridge_s_prime_rx is None,
        rx.wf(),
    ensures
        final(builder).wf(),
        final(builder).bridge_s_prime_commitment is Some,
        old(builder).nested_commits(
            final(builder).bridge_s_prime_commitment->Some_0.dlog(),
            &rx,
            old(builder).stats,
            final(builder).stats,
        ),
        old(builder).exact() && old(builder).opened() ==> final(builder).opened(),
        *final(builder) == (ProofBuilder {
            bridge_s_prime_rx: Some(rx),
            bridge_s_prime_commitment: final(builder).bridge_s_prime_commitment,
            stats: final(builder).stats,
            ..*old(builder)
        }),
{
    let commitment = builder.commit_nested(&rx);
    builder.set_bridge_s_prime_rx(rx, commitment);
}

/// A term of a linear combination of commitments: the position of the commitment, and
/// its coefficient.
pub type TermSpec = (int, int);

/// The terms, with their coefficients as integers.
pub open spec fn term_specs<F: Field>(terms: Seq<(usize, F)>) -> Seq<TermSpec> {
    Seq::new(terms.len(), |i: int| (terms[i].0 as int, terms[i].1.val()))
}

/// The positions of a list of terms.
pub open spec fn keys(terms: Seq<TermSpec>) -> Seq<int> {
    Seq::new(terms.len(), |i: int| terms[i].0)
}

/// The positions that occur in a list of terms, each once, in the order in which they
/// first occur.
pub open spec fn first_keys(terms: Seq<TermSpec>) -> Seq<int>
    decreases terms.len(),
{
    if terms.len() == 0 {
        Seq::empty()
    } else {
        let before = first_keys(terms.drop_last());
        if before.contains(terms.last().0) {
            before
        } else {
            before.push(terms.last().0)
        }
    }
}

/// The coefficient of a term, if it is one of the given position, and else zero.
pub open spec fn at_key(term: TermSpec, key: int) -> int {
    if term.0 == key {
        term.1
    } else {
        0
    }
}

/// The sum of the coefficients at one position.
pub open spec fn total(terms: Seq<TermSpec>, key: int) -> int {
    sums::sigma(terms.len(), |i: int| at_key(terms[i], key))
}

/// The linear combination, with the value `g` for each position.
pub open spec fn weigh(terms: Seq<TermSpec>, g: spec_fn(int) -> int) -> int {
    sums::sigma(terms.len(), |i: int| terms[i].1 * g(terms[i].0))
}

/// One more term.
proof fn lemma_term_pushed(terms: Seq<TermSpec>, t: TermSpec, g: spec_fn(int) -> int, key: int)
    ensures
        weigh(terms.push(t), g) == weigh(terms, g) + t.1 * g(t.0),
        total(terms.push(t), key) == total(terms, key) + at_key(t, key),
{
    let u = terms.push(t);
    let f0 = |i: int| terms[i].1 * g(terms[i].0);
    let f1 = |i: int| u[i].1 * g(u[i].0);
    sums::lemma_ext(terms.len(), f0, f1);
    let s0 = |i: int| at_key(terms[i], key);
    let s1 = |i: int| at_key(u[i], key);
    sums::lemma_ext(terms.len(), s0, s1);
}

/// One coefficient changed.
proof fn lemma_term_updated(terms: Seq<TermSpec>, k: int, c: int, g: spec_fn(int) -> int)
    requires
        0 <= k < terms.len(),
    ensures
        weigh(terms.update(k, (terms[k].0, c)), g) == weigh(terms, g) + (c - terms[k].1) * g(
            terms[k].0,
        ),
{
    let u = terms.update(k, (terms[k].0, c));
    let f = |i: int| terms[i].1 * g(terms[i].0);
    let h = |i: int| u[i].1 * g(u[i].0);
    let d = |i: int|
        if i == k {
            (c - terms[k].1) * g(terms[k].0)
        } else {
            0
        };
    assert forall|i: int| 0 <= i < terms.len() implies #[trigger] h(i) == f(i) + d(i) by {
        if i == k {
            let (x, y) = (terms[k].1, g(terms[k].0));
            assert(c * y == x * y + (c - x) * y) by (nonlinear_arith);
        }
    }
    sums::lemma_plus(terms.len(), f, d, h);
    sums::lemma_single(terms.len(), d, k);
}

/// Adds up the coefficients of each position, so that a multiplication has one term for
/// each.
pub fn gather_terms<F: Field>(terms: &Vec<(usize, F)>) -> (r: Vec<(usize, F)>)
    ensures
        keys(term_specs(r@)) == first_keys(term_specs(terms@)),
        forall|i: int|
            0 <= i < r.len() ==> (#[trigger] r@[i]).1.val() == total(
                term_specs(terms@),
                r@[i].0 as int,
            ) % F::modulus(),
        forall|g: spec_fn(int) -> int|
            modular::cong(
                #[trigger] weigh(term_specs(r@), g),
                weigh(term_specs(terms@), g),
                F::modulus(),
            ),
{
    let ghost p = F::modulus();
    let ghost ts = term_specs(terms@);
    let mut entries: Vec<(usize, F)> = Vec::new();
    let mut t: usize = 0;
    proof {
        F::lemma_modulus();
        assert(keys(term_specs(entries@)) =~= first_keys(ts.take(0)));
    }
    while t < terms.len()
        invariant
            p == F::modulus(),
            p > 2,
            ts == term_specs(terms@),
            t <= terms.len(),
            keys(term_specs(entries@)) == first_keys(ts.take(t as int)),
            forall|i: int|
                0 <= i < entries.len() ==> modular::cong(
                    (#[trigger] entries@[i]).1.val(),
                    total(ts.take(t as int), entries@[i].0 as int),
                    p,
                ),
            forall|g: spec_fn(int) -> int|
                modular::cong(
                    #[trigger] weigh(term_specs(entries@), g),
                    weigh(ts.take(t as int), g),
                    p,
                ),
            forall|key: int|
                !keys(term_specs(entries@)).contains(key) ==> #[trigger] total(
                    ts.take(t as int),
                    key,
                ) == 0,
            forall|i: int, j: int|
                0 <= i < j < entries.len() ==> (#[trigger] entries@[i]).0 != (
                #[trigger] entries@[j]).0,
        decreases terms.len() - t,
    {
        let key: usize = terms[t].0;
        let coeff = terms[t].1;
        let ghost es = term_specs(entries@);
        let ghost before = entries@;
        let ghost head = ts.take(t as int);
        let ghost next = ts.take(t + 1);
        let ghost term = ts[t as int];
        let mut e: usize = 0;
        while e < entries.len() && entries[e].0 != key
            invariant
                e <= entries.len(),
                forall|i: int| 0 <= i < e ==> (#[trigger] entries@[i]).0 != key,
            decreases entries.len() - e,
        {
            e = e + 1;
        }
        proof {
            assert(next =~= head.push(term));
            assert(next.drop_last() =~= head);
            assert(next.last() == term);
            assert forall|g: spec_fn(int) -> int| #[trigger] weigh(next, g) == weigh(head, g)
                + coeff.val() * g(key as int) by {
                lemma_term_pushed(head, term, g, 0);
            }
            assert forall|k: int| #[trigger] total(next, k) == total(head, k) + at_key(term, k) by {
                lemma_term_pushed(head, term, |i: int| 0, k);
            }
        }
        if e < entries.len() {
            let sum = entries[e].1.add(&coeff);
            entries.set(e, (key, sum));
            proof {
                let x = before[e as int].1.val();
                let c = coeff.val();
                let now = term_specs(entries@);
                assert(now =~= es.update(e as int, (es[e as int].0, sum.val())));
                assert(keys(now) =~= keys(es));
                assert(keys(es)[e as int] == key);
                assert(keys(es).contains(key as int));
                modular::lemma_rem(x + c, p);
                assert forall|g: spec_fn(int) -> int|
                    modular::cong(#[trigger] weigh(now, g), weigh(next, g), p) by {
                    let y = g(key as int);
                    lemma_term_updated(es, e as int, sum.val(), g);
                    modular::lemma_sub(sum.val(), x + c, x, x, p);
                    modular::lemma_mul(sum.val() - x, c, y, y, p);
                    modular::lemma_add(weigh(es, g), weigh(head, g), (sum.val() - x) * y, c * y, p);
                }
                assert forall|i: int| 0 <= i < entries.len() implies modular::cong(
                    (#[trigger] entries@[i]).1.val(),
                    total(next, entries@[i].0 as int),
                    p,
                ) by {
                    if i == e {
                        assert(before[e as int].0 == key);
                        modular::lemma_add(x, total(head, key as int), c, c, p);
                    } else {
                        assert(entries@[i] == before[i]);
                        assert(before[i].0 != before[e as int].0);
                    }
                }
                assert forall|k: int| !keys(now).contains(k) implies #[trigger] total(next, k)
                    == 0 by {
                    assert(total(head, k) == 0);
                }
                assert forall|i: int, j: int| 0 <= i < j < entries.len() implies (
                #[trigger] entries@[i]).0 != (#[trigger] entries@[j]).0 by {
                    assert(before[i].0 != before[j].0);
                    assert(before[e as int].0 == key);
                }
            }
        } else {
            entries.push((key, coeff));
            proof {
                let now = term_specs(entries@);
                assert(now =~= es.push(term));
                assert(keys(now) =~= keys(es).push(key as int));
                assert(!keys(es).contains(key as int)) by {
                    if keys(es).contains(key as int) {
                        let i = choose|i: int| 0 <= i < keys(es).len() && keys(es)[i] == key;
                        assert(before[i].0 == key);
                    }
                }
                assert(total(head, key as int) == 0);
                assert forall|g: spec_fn(int) -> int|
                    modular::cong(#[trigger] weigh(now, g), weigh(next, g), p) by {
                    lemma_term_pushed(es, term, g, 0);
                    let y = coeff.val() * g(key as int);
                    modular::lemma_add(weigh(es, g), weigh(head, g), y, y, p);
                }
                assert forall|i: int| 0 <= i < entries.len() implies modular::cong(
                    (#[trigger] entries@[i]).1.val(),
                    total(next, entries@[i].0 as int),
                    p,
                ) by {
                    if i < before.len() {
                        assert(entries@[i] == before[i]);
                        assert(before[i].0 != key);
                    }
                }
                assert forall|k: int| !keys(now).contains(k) implies #[trigger] total(next, k)
                    == 0 by {
                    assert(keys(now)[before.len() as int] == key);
                    assert(!keys(es).contains(k)) by {
                        if keys(es).contains(k) {
                            let i = choose|i: int| 0 <= i < keys(es).len() && keys(es)[i] == k;
                            assert(keys(now)[i] == k);
                        }
                    }
                    assert(total(head, k) == 0);
                }
                assert forall|i: int, j: int| 0 <= i < j < entries.len() implies (
                #[trigger] entries@[i]).0 != (#[trigger] entries@[j]).0 by {
                    if j < before.len() {
                        assert(before[i].0 != before[j].0);
                    }
                }
            }
        }
        t = t + 1;
    }
    proof {
        assert(ts.take(t as int) =~= ts);
        assert forall|i: int| 0 <= i < entries.len() implies (#[trigger] entries@[i]).1.val()
            == total(ts, entries@[i].0 as int) % p by {
            entries@[i].1.lemma_range();
            modular::lemma_is_rem(entries@[i].1.val(), total(ts, entries@[i].0 as int), p);
        }
    }
    entries
}


/// The multiplication that a linear combination takes, with the value `d` for each position:
/// one term for each position that occurs, in the order in which they first occur.
pub open spec fn gathered_offer(terms: Seq<TermSpec>, d: Seq<int>, p: int) -> accel::Offer {
    (
        Seq::new(first_keys(terms).len(), |i: int| total(terms, first_keys(terms)[i]) % p),
        Seq::new(first_keys(terms).len(), |i: int| d[first_keys(terms)[i]]),
        p,
    )
}

/// The linear combination of the commitments, as a logarithm.
pub open spec fn combination<C: CurveAffine>(terms: Seq<TermSpec>, commitments: Seq<C>) -> int {
    weigh(terms, |k: int| curve::dlogs(commitments)[k]) % C::Scalar::modulus()
}

/// The positions that occur are listed once each, and the coefficients at others add up to
/// nothing.
proof fn lemma_keys(terms: Seq<TermSpec>, key: int)
    ensures
        forall|i: int, j: int|
            0 <= i < j < first_keys(terms).len() ==> #[trigger] first_keys(terms)[i]
                != #[trigger] first_keys(terms)[j],
        !first_keys(terms).contains(key) ==> total(terms, key) == 0,
    decreases terms.len(),
{
    let ks = first_keys(terms);
    if terms.len() > 0 {
        let before = terms.drop_last();
        let t = terms.last();
        let ks0 = first_keys(before);
        lemma_keys(before, key);
        assert(terms =~= before.push(t));
        lemma_term_pushed(before, t, |i: int| 0, key);
        assert forall|i: int, j: int| 0 <= i < j < ks.len() implies #[trigger] ks[i]
            != #[trigger] ks[j] by {
            if j < ks0.len() {
                assert(ks0[i] != ks0[j]);
            } else {
                assert(ks0.contains(ks0[i]));
            }
        }
        if !ks.contains(key) {
            assert(!ks0.contains(key)) by {
                if ks0.contains(key) {
                    let i = choose|i: int| 0 <= i < ks0.len() && ks0[i] == key;
                    assert(ks[i] == key);
                }
            }
            assert(ks.contains(t.0)) by {
                if !ks0.contains(t.0) {
                    assert(ks[ks0.len() as int] == t.0);
                }
            }
        }
    }
}

/// Gathered by position, a linear combination is what it was.
proof fn lemma_gathered(terms: Seq<TermSpec>, g: spec_fn(int) -> int)
    ensures
        sums::sigma(
            first_keys(terms).len(),
            |i: int| total(terms, first_keys(terms)[i]) * g(first_keys(terms)[i]),
        ) == weigh(terms, g),
    decreases terms.len(),
{
    let ks = first_keys(terms);
    let f = |i: int| total(terms, ks[i]) * g(ks[i]);
    if terms.len() > 0 {
        let before = terms.drop_last();
        let t = terms.last();
        let ks0 = first_keys(before);
        let f0 = |i: int| total(before, ks0[i]) * g(ks0[i]);
        let y = t.1 * g(t.0);
        lemma_gathered(before, g);
        lemma_keys(before, t.0);
        assert(terms =~= before.push(t));
        lemma_term_pushed(before, t, g, 0);
        if ks0.contains(t.0) {
            let e = choose|e: int| 0 <= e < ks0.len() && ks0[e] == t.0;
            let d = |i: int|
                if i == e {
                    y
                } else {
                    0
                };
            assert forall|i: int| 0 <= i < ks.len() implies #[trigger] f(i) == f0(i) + d(i) by {
                lemma_term_pushed(before, t, g, ks[i]);
                if i == e {
                    let (x, z) = (total(before, ks[i]), g(ks[i]));
                    assert((x + t.1) * z == x * z + t.1 * z) by (nonlinear_arith);
                } else {
                    assert(ks0[i] != ks0[e]);
                }
            }
            sums::lemma_plus(ks.len(), f0, d, f);
            sums::lemma_single(ks.len(), d, e);
        } else {
            assert forall|i: int| 0 <= i < ks0.len() implies #[trigger] f0(i) == f(i) by {
                lemma_term_pushed(before, t, g, ks[i]);
                assert(ks0.contains(ks0[i]));
            }
            sums::lemma_ext(ks0.len(), f0, f);
            lemma_term_pushed(before, t, g, t.0);
            assert(ks[ks0.len() as int] == t.0);
            assert(f(ks0.len() as int) == y);
        }
    }
}

/// A linear combination of commitments is the result of the multiplication that it takes.
pub proof fn lemma_gathered_offer<C: CurveAffine>(terms: Seq<TermSpec>, commitments: Seq<C>)
    ensures
        accel::value(
            gathered_offer(terms, curve::dlogs(commitments), C::Scalar::modulus()),
        ) == combination(terms, commitments),
{
    let p = C::Scalar::modulus();
    C::Scalar::lemma_modulus();
    let g = |k: int| curve::dlogs(commitments)[k];
    let o = gathered_offer(terms, curve::dlogs(commitments), p);
    let ks = first_keys(terms);
    let f = |i: int| total(terms, ks[i]) * g(ks[i]);
    let h = |i: int| o.0[i] * o.1[i];
    lemma_gathered(terms, g);
    assert forall|i: int| 0 <= i < ks.len() implies modular::cong(#[trigger] h(i), f(i), p) by {
        let x = total(terms, ks[i]);
        modular::lemma_rem(x, p);
        modular::lemma_mul(x % p, x, g(ks[i]), g(ks[i]), p);
    }
    sums::lemma_cong(ks.len(), h, f, p);
}

/// The sum of the commitments at the positions of the terms, each multiplied by its
/// coefficient, with the settings of the process. The terms of one position are gathered
/// first.
pub fn fold_commitments<C: CurveAffine, A: MsmFacade>(
    terms: &Vec<(usize, C::Scalar)>,
    commitments: &Vec<C>,
    settings: Option<AccelMsmConfig>,
    facade: &A,
    stats: &mut AccelMsmStats,
) -> (r: C::Curve)
    requires
        forall|i: int| 0 <= i < terms.len() ==> (#[trigger] terms@[i]).0 < commitments.len(),
    ensures
        accel::multiplied_with(
            facade,
            settings,
            gathered_offer(
                term_specs(terms@),
                curve::dlogs(commitments@),
                C::Scalar::modulus(),
            ),
            combination(term_specs(terms@), commitments@),
            C::curve_dlog(&r),
            *old(stats),
            *final(stats),
        ),
{
    let ghost q = C::Scalar::modulus();
    let ghost ts = term_specs(terms@);
    proof {
        C::Scalar::lemma_modulus();
    }
    let entries = gather_terms(terms);
    let ghost es = term_specs(entries@);
    let mut coeffs: Vec<C::Scalar> = Vec::with_capacity(entries.len());
    let mut bases: Vec<C> = Vec::with_capacity(entries.len());
    let mut i: usize = 0;
    while i < entries.len()
        invariant
            i <= entries.len(),
            ts == term_specs(terms@),
            es == term_specs(entries@),
            keys(es) == first_keys(ts),
            forall|i: int| 0 <= i < terms.len() ==> (#[trigger] terms@[i]).0 < commitments.len(),
            coeffs.len() == i,
            bases.len() == i,
            forall|j: int|
                0 <= j < i ==> {
                    &&& (#[trigger] coeffs@[j]) == entries@[j].1
                    &&& entries@[j].0 < commitments.len()
                    &&& bases@[j] == commitments@[entries@[j].0 as int]
                },
        decreases entries.len() - i,
    {
        proof {
            lemma_first_keys(ts, i as int);
            assert(keys(es)[i as int] == entries@[i as int].0);
            let t = choose|t: int| 0 <= t < ts.len() && ts[t].0 == first_keys(ts)[i as int];
            assert(terms@[t].0 < commitments.len());
        }
        coeffs.push(entries[i].1);
        bases.push(commitments[entries[i].0]);
        i = i + 1;
    }
    proof {
        let (a, b) = (crate::field::vals(coeffs@), curve::dlogs(bases@));
        let o = gathered_offer(ts, curve::dlogs(commitments@), q);
        assert(keys(es).len() == entries.len());
        assert forall|j: int| 0 <= j < a.len() implies a[j] == #[trigger] o.0[j] by {
            assert(coeffs@[j] == entries@[j].1);
            assert(keys(es)[j] == entries@[j].0);
        }
        assert forall|j: int| 0 <= j < a.len() implies b[j] == #[trigger] o.1[j] by {
            assert(coeffs@[j] == entries@[j].1);
            assert(keys(es)[j] == entries@[j].0);
        }
        assert(a =~= o.0);
        assert(b =~= o.1);
        assert(accel::offer(coeffs@, bases@) == o);
        lemma_gathered_offer(ts, commitments@);
    }
    accel::mul(&coeffs, &bases, settings, facade, stats)
}

/// A position that is listed occurs in a term.
proof fn lemma_first_keys(terms: Seq<TermSpec>, i: int)
    requires
        0 <= i < first_keys(terms).len(),
    ensures
        exists|t: int| 0 <= t < terms.len() && terms[t].0 == first_keys(terms)[i],
    decreases terms.len(),
{
    let n = terms.len() - 1;
    let before = first_keys(terms.drop_last());
    if i < before.len() {
        lemma_first_keys(terms.drop_last(), i);
        let t = choose|t: int| 0 <= t < n && terms.drop_last()[t].0 == before[i];
        assert(terms[t].0 == first_keys(terms)[i]);
    } else {
        assert(terms[n].0 == first_keys(terms)[i]);
    }
}

/// The factors that the claims are folded with: the inverse of `mu_prime` for the first
/// polynomial, and the product of both for the second.
pub fn fold_factors<F: Field>(mu_prime: F, nu_prime: F) -> (r: (F, F))
    requires
        mu_prime.val() != 0,
    ensures
        (mu_prime.val() * r.0.val()) % F::modulus() == 1,
        r.1.val() == (mu_prime.val() * nu_prime.val()) % F::modulus(),
{
    let inverse = mu_prime.invert().unwrap();
    (inverse, mu_prime.mul(&nu_prime))
}

/// The commitments to the folded polynomials may have the given logarithms, and leave the
/// counters at `after`: the first is a combination of commitments, with the settings of the
/// process, the second a commitment of the builder.
pub open spec fn folds<'params, C: Cycle, R: Rank, A: MsmFacade>(
    builder: ProofBuilder<'params, C, R, A>,
    a_terms: Seq<TermSpec>,
    commitments: Seq<C::HostCurve>,
    a_dlog: int,
    b_poly: Polynomial<C::CircuitField, R>,
    b_dlog: int,
    after: AccelMsmStats,
) -> bool {
    exists|mid: AccelMsmStats|
        accel::multiplied_with(
            builder.facade,
            builder.ambient,
            gathered_offer(a_terms, curve::dlogs(commitments), C::CircuitField::modulus()),
            combination(a_terms, commitments),
            a_dlog,
            builder.stats,
            mid,
        ) && #[trigger] builder.host_commits(b_dlog, &b_poly, mid, after)
}

/// The combination of the commitments is the commitment to the first folded polynomial, and no
/// accelerator of the process gives results but true ones.
pub open spec fn folded_truly<'params, C: Cycle, R: Rank, A: MsmFacade>(
    builder: ProofBuilder<'params, C, R, A>,
    a_terms: Seq<TermSpec>,
    commitments: Seq<C::HostCurve>,
    a_poly: Polynomial<C::CircuitField, R>,
) -> bool {
    &&& combination(a_terms, commitments) == commit::commitment(
        a_poly@,
        C::host(builder.params).bases(),
    )
    &&& builder.ambient matches Some(config) ==> accel::truthful(builder.facade, config.backend)
}

/// Commits to the folded polynomials and stores them. The commitment to the first one is
/// a combination of commitments that are known already.
pub fn compute_native_ab<'params, C: Cycle, R: Rank, A: MsmFacade>(
    builder: &mut ProofBuilder<'params, C, R, A>,
    a_poly: Polynomial<C::CircuitField, R>,
    a_terms: &Vec<(usize, C::CircuitField)>,
    commitments: &Vec<C::HostCurve>,
    b_poly: Polynomial<C::CircuitField, R>,
)
    requires
        old(builder).wf(),
        old(builder).host_fits(),
        old(builder).native_a_poly is None,
        old(builder).native_b_poly is None,
        a_poly.wf(),
        b_poly.wf(),
        forall|i: int| 0 <= i < a_terms.len() ==> (#[trigger] a_terms@[i]).0 < commitments.len(),
    ensures
        final(builder).wf(),
        final(builder).native_a_commitment is Some,
        final(builder).native_b_commitment is Some,
        folds(
            *old(builder),
            term_specs(a_terms@),
            commitments@,
            final(builder).native_a_commitment->Some_0.dlog(),
            b_poly,
            final(builder).native_b_commitment->Some_0.dlog(),
            final(builder).stats,
        ),
        old(builder).exact() && old(builder).opened() && folded_truly(
            *old(builder),
            term_specs(a_terms@),
            commitments@,
            a_poly,
        ) ==> final(builder).opened(),
        *final(builder) == (ProofBuilder {
            native_a_poly: Some(a_poly),
            native_a_commitment: final(builder).native_a_commitment,
            native_b_poly: Some(b_poly),
            native_b_commitment: final(builder).native_b_commitment,
            stats: final(builder).stats,
            ..*old(builder)
        }),
{
    let first = fold_commitments(
        a_terms,
        commitments,
        builder.ambient,
        builder.facade,
        &mut builder.stats,
    );
    let ghost mid = builder.stats;
    let second = builder.commit_native_projective(&b_poly);
    let affine = batch_to_affine::<C::HostCurve, 2>([first, second]);
    let a_commitment = affine[0];
    let b_commitment = affine[1];
    proof {
        assert(a_commitment.dlog() == C::HostCurve::curve_dlog(&first));
        assert(b_commitment.dlog() == C::HostCurve::curve_dlog(&second));
        assert(old(builder).host_commits(b_commitment.dlog(), &b_poly, mid, builder.stats));
        lemma_gathered_offer(term_specs(a_terms@), commitments@);
        if let Some(config) = old(builder).ambient {
            if accel::truthful(old(builder).facade, config.backend) {
                accel::lemma_truthful(
                    old(builder).facade,
                    config,
                    gathered_offer(
                        term_specs(a_terms@),
                        curve::dlogs(commitments@),
                        C::CircuitField::modulus(),
                    ),
                    combination(term_specs(a_terms@), commitments@),
                    a_commitment.dlog(),
                    old(builder).stats,
                    mid,
                );
            }
        }
    }
    builder.set_native_a_poly(a_poly, a_commitment);
    builder.set_native_b_poly(b_poly, b_commitment);
}

/// The rounds of a fusion, each of which commits to a bridge.
#[derive(Clone, Copy, Debug, PartialEq, Eq, Structural)]
pub enum Round {
    Preamble,
    SPrime,
    InnerError,
    OuterError,
    Ab,
    Query,
    F,
    Eval,
}

/// The challenges of a fusion.
#[derive(Clone, Copy, Debug, PartialEq, Eq, Structural)]
pub enum Challenge {
    W,
    Y,
    Z,
    Mu,
    Nu,
    MuPrime,
    NuPrime,
    X,
    Alpha,
    U,
    PreBeta,
}

/// What has to be done next in a fusion.
#[derive(Clone, Copy, Debug, PartialEq, Eq, Structural)]
pub enum FuseAction {
    /// Prove the step of the application.
    Application,
    /// Compute the polynomials of a round and store them.
    Compute(Round),
    /// Let the transcript absorb the commitment of a round.
    Absorb(Round),
    /// Keep the state of the transcript for the circuits.
    SaveState,
    /// Let the transcript give a challenge.
    Squeeze(Challenge),
    /// Compute the final polynomial.
    ComputeP,
    /// Prove the internal circuits.
    InternalCircuits,
    /// Build the proof.
    Build,
    /// Nothing: the proof is built.
    Done,
}

/// What has happened in a fusion.
#[derive(Debug)]
pub enum FuseEvent<F> {
    /// An action was taken that gives no challenge.
    Taken,
    /// The transcript gave a challenge.
    Challenged(F),
}

/// An event that does not belong to the action.
#[derive(Clone, Copy, Debug, PartialEq, Eq, Structural)]
pub struct OutOfOrder;

/// The number of actions of a fusion.
pub const FUSE_ACTIONS: usize = 32;

/// The actions of a fusion, in order.
pub open spec fn schedule() -> Seq<FuseAction> {
    seq![
        FuseAction::Application,
        FuseAction::Compute(Round::Preamble),
        FuseAction::Absorb(Round::Preamble),
        FuseAction::Squeeze(Challenge::W),
        FuseAction::Compute(Round::SPrime),
        FuseAction::Absorb(Round::SPrime),
        FuseAction::Squeeze(Challenge::Y),
        FuseAction::Squeeze(Challenge::Z),
        FuseAction::Compute(Round::InnerError),
        FuseAction::Absorb(Round::InnerError),
        FuseAction::SaveState,
        FuseAction::Squeeze(Challenge::Mu),
        FuseAction::Squeeze(Challenge::Nu),
        FuseAction::Compute(Round::OuterError),
        FuseAction::Absorb(Round::OuterError),
        FuseAction::Squeeze(Challenge::MuPrime),
        FuseAction::Squeeze(Challenge::NuPrime),
        FuseAction::Compute(Round::Ab),
        FuseAction::Absorb(Round::Ab),
        FuseAction::Squeeze(Challenge::X),
        FuseAction::Compute(Round::Query),
        FuseAction::Absorb(Round::Query),
        FuseAction::Squeeze(Challenge::Alpha),
        FuseAction::Compute(Round::F),
        FuseAction::Absorb(Round::F),
        FuseAction::Squeeze(Challenge::U),
        FuseAction::Compute(Round::Eval),
        FuseAction::Absorb(Round::Eval),
        FuseAction::Squeeze(Challenge::PreBeta),
        FuseAction::ComputeP,
        FuseAction::InternalCircuits,
        FuseAction::Build,
    ]
}

/// The action at a position of the schedule.
pub open spec fn action_at(position: int) -> FuseAction {
    if 0 <= position < schedule().len() {
        schedule()[position]
    } else {
        FuseAction::Done
    }
}

/// The position at which a challenge is given.
pub open spec fn squeezed_at(c: Challenge) -> int {
    match c {
        Challenge::W => 3,
        Challenge::Y => 6,
        Challenge::Z => 7,
        Challenge::Mu => 11,
        Challenge::Nu => 12,
        Challenge::MuPrime => 15,
        Challenge::NuPrime => 16,
        Challenge::X => 19,
        Challenge::Alpha => 22,
        Challenge::U => 25,
        Challenge::PreBeta => 28,
    }
}

/// Each challenge is given once, at its position.
pub proof fn lemma_squeezed(c: Challenge)
    ensures
        action_at(squeezed_at(c)) == FuseAction::Squeeze(c),
        forall|i: int| #[trigger] action_at(i) == FuseAction::Squeeze(c) ==> i == squeezed_at(c),
{
    assert forall|i: int| #[trigger] action_at(i) == FuseAction::Squeeze(c) implies i
        == squeezed_at(c) by {
        let s = schedule();
        assert(s.len() == 32);
        assert(i <= 7 || 8 <= i <= 15 || 16 <= i <= 23 || 24 <= i);
    }
}

/// A fusion in progress: how far it is, and the challenges that were given.
#[derive(Debug)]
pub struct Fusion<F> {
    pub position: usize,
    pub w: Option<F>,
    pub y: Option<F>,
    pub z: Option<F>,
    pub mu: Option<F>,
    pub nu: Option<F>,
    pub mu_prime: Option<F>,
    pub nu_prime: Option<F>,
    pub x: Option<F>,
    pub alpha: Option<F>,
    pub u: Option<F>,
    pub pre_beta: Option<F>,
}

/// An event took a fusion one action further: a challenge is kept under the name under which
/// it was due.
pub open spec fn stepped<F: Field>(
    before: Fusion<F>,
    event: FuseEvent<F>,
    after: Fusion<F>,
) -> bool {
    &&& after.position == before.position + 1
    &&& forall|c: Challenge|
        #[trigger] after.given(c) == match event {
            FuseEvent::Challenged(v) => if before.due() == FuseAction::Squeeze(c) {
                Some(v)
            } else {
                before.given(c)
            },
            FuseEvent::Taken => before.given(c),
        }
}

impl<F: Field> Fusion<F> {
    /// A challenge, if it was given.
    pub open spec fn given(&self, c: Challenge) -> Option<F> {
        match c {
            Challenge::W => self.w,
            Challenge::Y => self.y,
            Challenge::Z => self.z,
            Challenge::Mu => self.mu,
            Challenge::Nu => self.nu,
            Challenge::MuPrime => self.mu_prime,
            Challenge::NuPrime => self.nu_prime,
            Challenge::X => self.x,
            Challenge::Alpha => self.alpha,
            Challenge::U => self.u,
            Challenge::PreBeta => self.pre_beta,
        }
    }

    /// The challenges that were given are those whose turn has passed.
    pub open spec fn wf(&self) -> bool {
        &&& self.position <= FUSE_ACTIONS
        &&& forall|c: Challenge| #[trigger] self.given(c) is Some <==> squeezed_at(c) < self.position
    }

    /// The action to take next.
    pub open spec fn due(&self) -> FuseAction {
        action_at(self.position as int)
    }

    /// A fusion that has not begun.
    pub fn new() -> (r: Self)
        ensures
            r.wf(),
            r.position == 0,
    {
        Fusion {
            position: 0,
            w: None,
            y: None,
            z: None,
            mu: None,
            nu: None,
            mu_prime: None,
            nu_prime: None,
            x: None,
            alpha: None,
            u: None,
            pre_beta: None,
        }
    }

    /// The action to take next.
    pub fn action(&self) -> (r: FuseAction)
        requires
            self.wf(),
        ensures
            r == self.due(),
    {
        match self.position {
            0 => FuseAction::Application,
            1 => FuseAction::Compute(Round::Preamble),
            2 => FuseAction::Absorb(Round::Preamble),
            3 => FuseAction::Squeeze(Challenge::W),
            4 => FuseAction::Compute(Round::SPrime),
            5 => FuseAction::Absorb(Round::SPrime),
            6 => FuseAction::Squeeze(Challenge::Y),
            7 => FuseAction::Squeeze(Challenge::Z),
            8 => FuseAction::Compute(Round::InnerError),
            9 => FuseAction::Absorb(Round::InnerError),
            10 => FuseAction::SaveState,
            11 => FuseAction::Squeeze(Challenge::Mu),
            12 => FuseAction::Squeeze(Challenge::Nu),
            13 => FuseAction::Compute(Round::OuterError),
            14 => FuseAction::Absorb(Round::OuterError),
            15 => FuseAction::Squeeze(Challenge::MuPrime),
            16 => FuseAction::Squeeze(Challenge::NuPrime),
            17 => FuseAction::Compute(Round::Ab),
            18 => FuseAction::Absorb(Round::Ab),
            19 => FuseAction::Squeeze(Challenge::X),
            20 => FuseAction::Compute(Round::Query),
            21 => FuseAction::Absorb(Round::Query),
            22 => FuseAction::Squeeze(Challenge::Alpha),
            23 => FuseAction::Compute(Round::F),
            24 => FuseAction::Absorb(Round::F),
            25 => FuseAction::Squeeze(Challenge::U),
            26 => FuseAction::Compute(Round::Eval),
            27 => FuseAction::Absorb(Round::Eval),
            28 => FuseAction::Squeeze(Challenge::PreBeta),
            29 => FuseAction::ComputeP,
            30 => FuseAction::InternalCircuits,
            31 => FuseAction::Build,
            _ => FuseAction::Done,
        }
    }

    /// Goes on to the next action. A challenge is expected just where one is due; any other
    /// event is refused, and changes nothing.
    pub fn step(&mut self, event: FuseEvent<F>) -> (r: Result<FuseAction, OutOfOrder>)
        requires
            old(self).wf(),
        ensures
            final(self).wf(),
            r is Ok <==> match event {
                FuseEvent::Taken => !(old(self).due() is Squeeze) && !(old(self).due() is Done),
                FuseEvent::Challenged(_) => old(self).due() is Squeeze,
            },
            r is Err ==> *final(self) == *old(self),
            r is Ok ==> stepped(*old(self), event, *final(self)),
            r matches Ok(action) ==> {
                &&& action == final(self).due()
                &&& final(self).position == old(self).position + 1
                &&& forall|c: Challenge|
                    #[trigger] final(self).given(c) == match event {
                        FuseEvent::Challenged(v) => if old(self).due() == FuseAction::Squeeze(c) {
                            Some(v)
                        } else {
                            old(self).given(c)
                        },
                        FuseEvent::Taken => old(self).given(c),
                    }
            },
    {
        match (self.action(), event) {
            (FuseAction::Squeeze(c), FuseEvent::Challenged(v)) => {
                match c {
                    Challenge::W => self.w = Some(v),
                    Challenge::Y => self.y = Some(v),
                    Challenge::Z => self.z = Some(v),
                    Challenge::Mu => self.mu = Some(v),
                    Challenge::Nu => self.nu = Some(v),
                    Challenge::MuPrime => self.mu_prime = Some(v),
                    Challenge::NuPrime => self.nu_prime = Some(v),
                    Challenge::X => self.x = Some(v),
                    Challenge::Alpha => self.alpha = Some(v),
                    Challenge::U => self.u = Some(v),
                    Challenge::PreBeta => self.pre_beta = Some(v),
                }
            },
            (FuseAction::Squeeze(_), FuseEvent::Taken) => {
                return Err(OutOfOrder);
            },
            (FuseAction::Done, _) => {
                return Err(OutOfOrder);
            },
            (_, FuseEvent::Challenged(_)) => {
                return Err(OutOfOrder);
            },
            (_, FuseEvent::Taken) => {},
        }
        proof {
            assert forall|c: Challenge| (#[trigger] squeezed_at(c) == old(self).position) <==> old(
                self,
            ).due() == FuseAction::Squeeze(c) by {
                lemma_squeezed(c);
            }
        }
        self.position = self.position + 1;
        proof {
            assert(schedule().len() == FUSE_ACTIONS);
            assert forall|c: Challenge| #[trigger] self.given(c) is Some <==> squeezed_at(c)
                < self.position by {
                assert(old(self).given(c) is Some <==> squeezed_at(c) < old(self).position);
                assert((squeezed_at(c) == old(self).position) <==> old(self).due()
                    == FuseAction::Squeeze(c));
            }
        }
        Ok(self.action())
    }
}


/// The commitment that a round lets the transcript absorb, if it is known.
pub open spec fn round_commitment<'params, C: Cycle, R: Rank, A: MsmFacade>(
    builder: ProofBuilder<'params, C, R, A>,
    round: Round,
) -> Option<C::NestedCurve> {
    match round {
        Round::Preamble => builder.bridge_preamble_commitment,
        Round::SPrime => builder.bridge_s_prime_commitment,
        Round::InnerError => builder.bridge_inner_error_commitment,
        Round::OuterError => builder.bridge_outer_error_commitment,
        Round::Ab => builder.bridge_ab_commitment,
        Round::Query => builder.bridge_query_commitment,
        Round::F => builder.bridge_f_commitment,
        Round::Eval => builder.bridge_eval_commitment,
    }
}

/// The bridge of a round, if it is known.
pub open spec fn round_bridge<'params, C: Cycle, R: Rank, A: MsmFacade>(
    builder: ProofBuilder<'params, C, R, A>,
    round: Round,
) -> Option<Polynomial<C::ScalarField, R>> {
    match round {
        Round::Preamble => builder.bridge_preamble_rx,
        Round::SPrime => builder.bridge_s_prime_rx,
        Round::InnerError => builder.bridge_inner_error_rx,
        Round::OuterError => builder.bridge_outer_error_rx,
        Round::Ab => builder.bridge_ab_rx,
        Round::Query => builder.bridge_query_rx,
        Round::F => builder.bridge_f_rx,
        Round::Eval => builder.bridge_eval_rx,
    }
}

/// The commitment of a round is computed from its bridge when it is first asked for.
pub open spec fn derived(round: Round) -> bool {
    match round {
        Round::OuterError | Round::Ab | Round::Query | Round::Eval => true,
        _ => false,
    }
}

/// The commitment of a round is one to its bridge, if both are known and it was stored along
/// with the bridge.
pub open spec fn stored_truly<'params, C: Cycle, R: Rank, A: MsmFacade>(
    builder: ProofBuilder<'params, C, R, A>,
    round: Round,
) -> bool {
    match (derived(round), round_commitment(builder, round), round_bridge(builder, round)) {
        (false, Some(c), Some(bridge)) => builder::nested_commitment::<C, R>(
            builder.params,
            c,
            bridge,
        ),
        _ => true,
    }
}

/// The builder with another commitment of a round, and other counters.
pub open spec fn with_round_commitment<'params, C: Cycle, R: Rank, A: MsmFacade>(
    builder: ProofBuilder<'params, C, R, A>,
    round: Round,
    c: C::NestedCurve,
    stats: AccelMsmStats,
) -> ProofBuilder<'params, C, R, A> {
    match round {
        Round::Preamble => (ProofBuilder {
            bridge_preamble_commitment: Some(c),
            stats,
            ..builder
        }),
        Round::SPrime => (ProofBuilder {
            bridge_s_prime_commitment: Some(c),
            stats,
            ..builder
        }),
        Round::InnerError => (ProofBuilder {
            bridge_inner_error_commitment: Some(c),
            stats,
            ..builder
        }),
        Round::OuterError => (ProofBuilder {
            bridge_outer_error_commitment: Some(c),
            stats,
            ..builder
        }),
        Round::Ab => (ProofBuilder {
            bridge_ab_commitment: Some(c),
            stats,
            ..builder
        }),
        Round::Query => (ProofBuilder {
            bridge_query_commitment: Some(c),
            stats,
            ..builder
        }),
        Round::F => (ProofBuilder {
            bridge_f_commitment: Some(c),
            stats,
            ..builder
        }),
        Round::Eval => (ProofBuilder {
            bridge_eval_commitment: Some(c),
            stats,
            ..builder
        }),
    }
}

/// The commitment that a round lets the transcript absorb. Its bridge must have been
/// stored. Nothing changes but that commitment and the counters.
pub fn absorb<'params, C: Cycle, R: Rank, A: MsmFacade>(
    builder: &mut ProofBuilder<'params, C, R, A>,
    round: Round,
) -> (r: C::NestedCurve)
    requires
        old(builder).wf(),
        old(builder).nested_fits(),
        round_bridge(*old(builder), round) is Some,
    ensures
        final(builder).wf(),
        *final(builder) == with_round_commitment(*old(builder), round, r, final(builder).stats),
        old(builder).nested_step(
            round_commitment(*old(builder), round),
            &round_bridge(*old(builder), round)->Some_0,
            r,
            old(builder).stats,
            final(builder).stats,
        ),
        derived(round) && old(builder).exact() ==> builder::nested_commitment::<C, R>(
            old(builder).params,
            r,
            round_bridge(*old(builder), round)->Some_0,
        ),
{
    match round {
        Round::Preamble => builder.bridge_preamble_commitment(),
        Round::SPrime => builder.bridge_s_prime_commitment(),
        Round::InnerError => builder.bridge_inner_error_commitment(),
        Round::OuterError => builder.bridge_outer_error_commitment(),
        Round::Ab => builder.bridge_ab_commitment(),
        Round::Query => builder.bridge_query_commitment(),
        Round::F => builder.bridge_f_commitment(),
        Round::Eval => builder.bridge_eval_commitment(),
    }
}

/// A challenge that a builder holds, if it was stored.
pub open spec fn known_challenge<'params, C: Cycle, R: Rank, A: MsmFacade>(
    builder: ProofBuilder<'params, C, R, A>,
    c: Challenge,
) -> Option<C::CircuitField> {
    match c {
        Challenge::W => builder.w,
        Challenge::Y => builder.y,
        Challenge::Z => builder.z,
        Challenge::Mu => builder.mu,
        Challenge::Nu => builder.nu,
        Challenge::MuPrime => builder.mu_prime,
        Challenge::NuPrime => builder.nu_prime,
        Challenge::X => builder.x,
        Challenge::Alpha => builder.alpha,
        Challenge::U => builder.u,
        Challenge::PreBeta => builder.pre_beta,
    }
}

/// The builder holds the challenges of the fusion.
pub open spec fn holds_challenges<'params, C: Cycle, R: Rank, A: MsmFacade>(
    builder: ProofBuilder<'params, C, R, A>,
    fusion: Fusion<C::CircuitField>,
) -> bool {
    forall|c: Challenge| #[trigger] known_challenge(builder, c) == fusion.given(c)
}

/// Stores the challenges of a fusion, all of which must have been given, and the stage
/// polynomials of the children.
pub fn store_challenges<'params, C: Cycle, R: Rank, A: MsmFacade>(
    fusion: &Fusion<C::CircuitField>,
    builder: &mut ProofBuilder<'params, C, R, A>,
    left: ChildStageRx<C::ScalarField, R>,
    right: ChildStageRx<C::ScalarField, R>,
)
    requires
        fusion.wf(),
        fusion.position > squeezed_at(Challenge::PreBeta),
        old(builder).wf(),
        old(builder).w is None,
        old(builder).y is None,
        old(builder).z is None,
        old(builder).mu is None,
        old(builder).nu is None,
        old(builder).mu_prime is None,
        old(builder).nu_prime is None,
        old(builder).x is None,
        old(builder).alpha is None,
        old(builder).u is None,
        old(builder).pre_beta is None,
        old(builder).child_left_stage_rx is None,
        old(builder).child_right_stage_rx is None,
    ensures
        final(builder).wf(),
        holds_challenges(*final(builder), *fusion),
        *final(builder) == (ProofBuilder {
            w: fusion.w,
            y: fusion.y,
            z: fusion.z,
            mu: fusion.mu,
            nu: fusion.nu,
            mu_prime: fusion.mu_prime,
            nu_prime: fusion.nu_prime,
            x: fusion.x,
            alpha: fusion.alpha,
            u: fusion.u,
            pre_beta: fusion.pre_beta,
            child_left_stage_rx: Some(left),
            child_right_stage_rx: Some(right),
            ..*old(builder)
        }),
{
    proof {
        assert forall|c: Challenge| #[trigger] fusion.given(c) is Some by {}
        assert(fusion.given(Challenge::W) is Some);
        assert(fusion.given(Challenge::Y) is Some);
        assert(fusion.given(Challenge::Z) is Some);
        assert(fusion.given(Challenge::Mu) is Some);
        assert(fusion.given(Challenge::Nu) is Some);
        assert(fusion.given(Challenge::MuPrime) is Some);
        assert(fusion.given(Challenge::NuPrime) is Some);
        assert(fusion.given(Challenge::X) is Some);
        assert(fusion.given(Challenge::Alpha) is Some);
        assert(fusion.given(Challenge::U) is Some);
        assert(fusion.given(Challenge::PreBeta) is Some);
    }
    builder.set_w(fusion.w.unwrap());
    builder.set_y(fusion.y.unwrap());
    builder.set_z(fusion.z.unwrap());
    builder.set_mu(fusion.mu.unwrap());
    builder.set_nu(fusion.nu.unwrap());
    builder.set_mu_prime(fusion.mu_prime.unwrap());
    builder.set_nu_prime(fusion.nu_prime.unwrap());
    builder.set_x(fusion.x.unwrap());
    builder.set_alpha(fusion.alpha.unwrap());
    builder.set_u(fusion.u.unwrap());
    builder.set_pre_beta(fusion.pre_beta.unwrap());
    builder.set_child_left_stage_rx(left);
    builder.set_child_right_stage_rx(right);
}

/// No challenge is given before what was computed until then was absorbed: between the
/// computation of a round and any later challenge, the commitment of the round is absorbed.
pub proof fn lemma_bound(i: int, j: int, round: Round)
    requires
        i < j,
        action_at(i) == FuseAction::Compute(round),
        action_at(j) is Squeeze,
    ensures
        exists|k: int| i < k < j && #[trigger] action_at(k) == FuseAction::Absorb(round),
{
    assert(schedule().len() == 32);
    assert(i <= 7 || 8 <= i <= 15 || 16 <= i <= 23 || 24 <= i);
    assert(action_at(i + 1) == FuseAction::Absorb(round));
}

} // verus!
