//! The step-by-step construction of a proof.
//!
//! Polynomials are stored as they become known. A commitment is computed when it is
//! first asked for, and kept. Each of the commitments to the folded polynomials comes
//! with its polynomial, since it is computed from other commitments.
use crate::accel;
use crate::accel::{AccelMsmConfig, AccelMsmStats, MsmFacade, ProverAccelConfig};
use crate::curve::CurveAffine;
use crate::cycle::{Cycle, FixedGenerators};
use crate::field::Field;
use crate::pcd::{Cached, ChildStageRx, CircuitIndex, Proof};
use crate::poly;
use crate::rank::Rank;
use crate::sparse::commit;
use crate::sparse::Polynomial;
use vstd::arithmetic::power::*;
use vstd::prelude::*;

verus! {

/// The bridges whose polynomials are derived from commitments that the builder holds.
#[derive(Clone, Copy, Debug, PartialEq, Eq, Structural)]
pub enum CachedBridge {
    OuterError,
    Ab,
    Query,
    Eval,
}

/// The power of the shared alpha that a derived bridge is made with. Each has its own.
pub open spec fn bridge_power(bridge: CachedBridge) -> nat {
    match bridge {
        CachedBridge::OuterError => 1,
        CachedBridge::Ab => 2,
        CachedBridge::Query => 3,
        CachedBridge::Eval => 4,
    }
}

/// A proof under construction.
///
/// What is called native is over the circuit field and committed to on the host curve.
/// Bridges, which carry commitments of the host curve, and what is called nested are over
/// the other field and committed to on the nested curve.
pub struct ProofBuilder<'params, C: Cycle, R: Rank, A: MsmFacade> {
    /// The generators and permutations.
    pub params: &'params C::Params,
    /// What may be accelerated for this proof.
    pub accel_config: Option<ProverAccelConfig>,
    /// The settings of the process, which hold where this proof has none of its own.
    pub ambient: Option<AccelMsmConfig>,
    /// What accelerates.
    pub facade: &'params A,
    /// The counters of the multiplications for this proof.
    pub stats: AccelMsmStats,
    /// The shared alpha, of which each derived bridge takes a power.
    pub bridge_alpha: C::ScalarField,
    pub circuit_id: Option<CircuitIndex>,
    pub left_header: Option<Vec<C::CircuitField>>,
    pub right_header: Option<Vec<C::CircuitField>>,
    pub native_application_rx: Option<Polynomial<C::CircuitField, R>>,
    pub native_preamble_rx: Option<Polynomial<C::CircuitField, R>>,
    pub native_inner_error_rx: Option<Polynomial<C::CircuitField, R>>,
    pub native_outer_error_rx: Option<Polynomial<C::CircuitField, R>>,
    pub native_a_poly: Option<Polynomial<C::CircuitField, R>>,
    pub native_b_poly: Option<Polynomial<C::CircuitField, R>>,
    pub native_query_rx: Option<Polynomial<C::CircuitField, R>>,
    pub native_registry_xy_poly: Option<Polynomial<C::CircuitField, R>>,
    pub native_eval_rx: Option<Polynomial<C::CircuitField, R>>,
    pub native_p_poly: Option<Polynomial<C::CircuitField, R>>,
    pub native_hashes_1_rx: Option<Polynomial<C::CircuitField, R>>,
    pub native_hashes_2_rx: Option<Polynomial<C::CircuitField, R>>,
    pub native_inner_collapse_rx: Option<Polynomial<C::CircuitField, R>>,
    pub native_outer_collapse_rx: Option<Polynomial<C::CircuitField, R>>,
    pub native_compute_v_rx: Option<Polynomial<C::CircuitField, R>>,
    pub bridge_preamble_rx: Option<Polynomial<C::ScalarField, R>>,
    pub bridge_preamble_commitment: Option<C::NestedCurve>,
    pub bridge_s_prime_rx: Option<Polynomial<C::ScalarField, R>>,
    pub bridge_s_prime_commitment: Option<C::NestedCurve>,
    pub bridge_inner_error_rx: Option<Polynomial<C::ScalarField, R>>,
    pub bridge_inner_error_commitment: Option<C::NestedCurve>,
    pub bridge_f_rx: Option<Polynomial<C::ScalarField, R>>,
    pub bridge_f_commitment: Option<C::NestedCurve>,
    pub bridge_outer_error_rx: Option<Polynomial<C::ScalarField, R>>,
    pub bridge_ab_rx: Option<Polynomial<C::ScalarField, R>>,
    pub bridge_query_rx: Option<Polynomial<C::ScalarField, R>>,
    pub bridge_eval_rx: Option<Polynomial<C::ScalarField, R>>,
    pub nested_endoscaling_step_rxs: Option<Vec<Polynomial<C::ScalarField, R>>>,
    pub nested_endoscalar_rx: Option<Polynomial<C::ScalarField, R>>,
    pub nested_points_rx: Option<Polynomial<C::ScalarField, R>>,
    pub nested_endoscaling_step_commitments: Option<Vec<C::NestedCurve>>,
    pub nested_endoscalar_commitment: Option<C::NestedCurve>,
    pub nested_points_commitment: Option<C::NestedCurve>,
    pub w: Option<C::CircuitField>,
    pub y: Option<C::CircuitField>,
    pub z: Option<C::CircuitField>,
    pub mu: Option<C::CircuitField>,
    pub nu: Option<C::CircuitField>,
    pub mu_prime: Option<C::CircuitField>,
    pub nu_prime: Option<C::CircuitField>,
    pub x: Option<C::CircuitField>,
    pub alpha: Option<C::CircuitField>,
    pub u: Option<C::CircuitField>,
    pub pre_beta: Option<C::CircuitField>,
    pub native_application_commitment: Option<C::HostCurve>,
    pub native_preamble_commitment: Option<C::HostCurve>,
    pub native_inner_error_commitment: Option<C::HostCurve>,
    pub native_outer_error_commitment: Option<C::HostCurve>,
    pub native_a_commitment: Option<C::HostCurve>,
    pub native_b_commitment: Option<C::HostCurve>,
    pub native_query_commitment: Option<C::HostCurve>,
    pub native_registry_xy_commitment: Option<C::HostCurve>,
    pub native_eval_commitment: Option<C::HostCurve>,
    pub native_p_commitment: Option<C::HostCurve>,
    pub native_hashes_1_commitment: Option<C::HostCurve>,
    pub native_hashes_2_commitment: Option<C::HostCurve>,
    pub native_inner_collapse_commitment: Option<C::HostCurve>,
    pub native_outer_collapse_commitment: Option<C::HostCurve>,
    pub native_compute_v_commitment: Option<C::HostCurve>,
    pub bridge_outer_error_commitment: Option<C::NestedCurve>,
    pub bridge_ab_commitment: Option<C::NestedCurve>,
    pub bridge_query_commitment: Option<C::NestedCurve>,
    pub bridge_eval_commitment: Option<C::NestedCurve>,
    pub child_left_stage_rx: Option<ChildStageRx<C::ScalarField, R>>,
    pub child_right_stage_rx: Option<ChildStageRx<C::ScalarField, R>>,
}

/// The commitment is that to the polynomial, with the generators of the host curve.
pub open spec fn host_commitment<C: Cycle, R: Rank>(
    params: &C::Params,
    c: C::HostCurve,
    poly: Polynomial<C::CircuitField, R>,
) -> bool {
    c.dlog() == commit::commitment(poly@, C::host(params).bases())
}

/// The commitment is that to the polynomial, with the generators of the nested curve.
pub open spec fn nested_commitment<C: Cycle, R: Rank>(
    params: &C::Params,
    c: C::NestedCurve,
    poly: Polynomial<C::ScalarField, R>,
) -> bool {
    c.dlog() == commit::commitment(poly@, C::nested(params).bases())
}

/// A polynomial, where there is one, is in order, and so is what is kept as its
/// commitment: where no accelerator interferes, it is that to the polynomial.
pub open spec fn host_slot<C: Cycle, R: Rank>(
    params: &C::Params,
    exact: bool,
    poly: Option<Polynomial<C::CircuitField, R>>,
    kept: Option<C::HostCurve>,
) -> bool {
    &&& poly matches Some(p) ==> p.wf()
    &&& kept matches Some(c) ==> poly is Some && (exact ==> host_commitment::<C, R>(
        params,
        c,
        poly->Some_0,
    ))
}

/// A polynomial, where there is one, is in order, and so is what is kept as its
/// commitment: where no accelerator interferes, it is that to the polynomial.
pub open spec fn nested_slot<C: Cycle, R: Rank>(
    params: &C::Params,
    exact: bool,
    poly: Option<Polynomial<C::ScalarField, R>>,
    kept: Option<C::NestedCurve>,
) -> bool {
    &&& poly matches Some(p) ==> p.wf()
    &&& kept matches Some(c) ==> poly is Some && (exact ==> nested_commitment::<C, R>(
        params,
        c,
        poly->Some_0,
    ))
}

/// Where a polynomial and a commitment are both known, the one is the commitment to the other.
pub open spec fn host_pair<C: Cycle, R: Rank>(
    params: &C::Params,
    poly: Option<Polynomial<C::CircuitField, R>>,
    c: Option<C::HostCurve>,
) -> bool {
    match (poly, c) {
        (Some(p), Some(c)) => host_commitment::<C, R>(params, c, p),
        _ => true,
    }
}

/// Where a polynomial and a commitment are both known, the one is the commitment to the other.
pub open spec fn nested_pair<C: Cycle, R: Rank>(
    params: &C::Params,
    poly: Option<Polynomial<C::ScalarField, R>>,
    c: Option<C::NestedCurve>,
) -> bool {
    match (poly, c) {
        (Some(p), Some(c)) => nested_commitment::<C, R>(params, c, p),
        _ => true,
    }
}

/// The commitments are those to the polynomials, one for each.
pub open spec fn nested_commitments<C: Cycle, R: Rank>(
    params: &C::Params,
    cs: Seq<C::NestedCurve>,
    polys: Seq<Polynomial<C::ScalarField, R>>,
) -> bool {
    &&& cs.len() == polys.len()
    &&& forall|i: int|
        0 <= i < cs.len() ==> nested_commitment::<C, R>(params, #[trigger] cs[i], polys[i])
}

/// The polynomials, where there are any, are in order, and so are what is kept as their
/// commitments.
pub open spec fn nested_slots<C: Cycle, R: Rank>(
    params: &C::Params,
    exact: bool,
    polys: Option<Vec<Polynomial<C::ScalarField, R>>>,
    kept: Option<Vec<C::NestedCurve>>,
) -> bool {
    &&& polys matches Some(ps) ==> forall|i: int| 0 <= i < ps.len() ==> (#[trigger] ps@[i]).wf()
    &&& kept matches Some(cs) ==> polys is Some && cs.len() == polys->Some_0.len() && (exact
        ==> nested_commitments::<C, R>(params, cs@, polys->Some_0@))
}

/// A commitment to `poly` with the generators of the host curve may have the logarithm
/// `dlog`, and move the counters from `before` to `after`.
pub open spec fn host_commits_with<C: Cycle, R: Rank, A: MsmFacade>(
    params: &C::Params,
    settings: Option<AccelMsmConfig>,
    facade: &A,
    dlog: int,
    poly: &Polynomial<C::CircuitField, R>,
    before: AccelMsmStats,
    after: AccelMsmStats,
) -> bool {
    accel::multiplied_with(
        facade,
        settings,
        commit::commitment_offer(poly.layout(), C::host(params).bases()),
        commit::commitment(poly@, C::host(params).bases()),
        dlog,
        before,
        after,
    )
}

/// A commitment to `poly` with the generators of the nested curve may have the logarithm
/// `dlog`, and move the counters from `before` to `after`.
pub open spec fn nested_commits_with<C: Cycle, R: Rank, A: MsmFacade>(
    params: &C::Params,
    settings: Option<AccelMsmConfig>,
    facade: &A,
    dlog: int,
    poly: &Polynomial<C::ScalarField, R>,
    before: AccelMsmStats,
    after: AccelMsmStats,
) -> bool {
    accel::multiplied_with(
        facade,
        settings,
        commit::commitment_offer(poly.layout(), C::nested(params).bases()),
        commit::commitment(poly@, C::nested(params).bases()),
        dlog,
        before,
        after,
    )
}

/// Commitments to the polynomials, one after the other, may be these, and move the counters
/// through `trace`.
pub open spec fn nested_trace<C: Cycle, R: Rank, A: MsmFacade>(
    params: &C::Params,
    settings: Option<AccelMsmConfig>,
    facade: &A,
    cs: Seq<C::NestedCurve>,
    polys: Seq<Polynomial<C::ScalarField, R>>,
    trace: Seq<AccelMsmStats>,
) -> bool {
    &&& cs.len() == polys.len()
    &&& trace.len() == cs.len() + 1
    &&& forall|i: int|
        0 <= i < cs.len() ==> nested_commits_with::<C, R, A>(
            params,
            settings,
            facade,
            (#[trigger] cs[i]).dlog(),
            &polys[i],
            trace[i],
            trace[i + 1],
        )
}

/// Commitments to the polynomials, one after the other, may be these, and move the counters
/// from `before` to `after`.
pub open spec fn nested_run_with<C: Cycle, R: Rank, A: MsmFacade>(
    params: &C::Params,
    settings: Option<AccelMsmConfig>,
    facade: &A,
    cs: Seq<C::NestedCurve>,
    polys: Seq<Polynomial<C::ScalarField, R>>,
    before: AccelMsmStats,
    after: AccelMsmStats,
) -> bool {
    exists|trace: Seq<AccelMsmStats>|
        #[trigger] nested_trace::<C, R, A>(params, settings, facade, cs, polys, trace)
            && trace.first()
            == before && trace.last() == after
}

impl<'params, C: Cycle, R: Rank, A: MsmFacade> ProofBuilder<'params, C, R, A> {
    /// The settings for multiplications: those of this proof, or else of the process.
    pub open spec fn settings_spec(&self) -> Option<AccelMsmConfig> {
        match self.accel_config {
            Some(config) => Some(config.msm()),
            None => self.ambient,
        }
    }

    /// No accelerator gives results but true ones.
    pub open spec fn exact(&self) -> bool {
        self.settings_spec() matches Some(config) ==> accel::truthful(self.facade, config.backend)
    }

    /// There are enough generators of the host curve.
    pub open spec fn host_fits(&self) -> bool {
        C::host(self.params).bases().len() >= 4 * R::gates()
    }

    /// There are enough generators of the nested curve.
    pub open spec fn nested_fits(&self) -> bool {
        C::nested(self.params).bases().len() >= 4 * R::gates()
    }

    /// Polynomials and commitments are in order.
    pub open spec fn wf(&self) -> bool {
        let (params, exact) = (self.params, self.exact());
        &&& host_slot::<C, R>(
            params,
            exact,
            self.native_application_rx,
            self.native_application_commitment,
        )
        &&& host_slot::<C, R>(
            params,
            exact,
            self.native_preamble_rx,
            self.native_preamble_commitment,
        )
        &&& host_slot::<C, R>(
            params,
            exact,
            self.native_inner_error_rx,
            self.native_inner_error_commitment,
        )
        &&& host_slot::<C, R>(
            params,
            exact,
            self.native_outer_error_rx,
            self.native_outer_error_commitment,
        )
        &&& host_slot::<C, R>(
            params,
            exact,
            self.native_query_rx,
            self.native_query_commitment,
        )
        &&& host_slot::<C, R>(
            params,
            exact,
            self.native_registry_xy_poly,
            self.native_registry_xy_commitment,
        )
        &&& host_slot::<C, R>(
            params,
            exact,
            self.native_eval_rx,
            self.native_eval_commitment,
        )
        &&& host_slot::<C, R>(
            params,
            exact,
            self.native_hashes_1_rx,
            self.native_hashes_1_commitment,
        )
        &&& host_slot::<C, R>(
            params,
            exact,
            self.native_hashes_2_rx,
            self.native_hashes_2_commitment,
        )
        &&& host_slot::<C, R>(
            params,
            exact,
            self.native_inner_collapse_rx,
            self.native_inner_collapse_commitment,
        )
        &&& host_slot::<C, R>(
            params,
            exact,
            self.native_outer_collapse_rx,
            self.native_outer_collapse_commitment,
        )
        &&& host_slot::<C, R>(
            params,
            exact,
            self.native_compute_v_rx,
            self.native_compute_v_commitment,
        )
        &&& self.native_a_poly matches Some(p) ==> p.wf()
        &&& self.native_a_poly is Some <==> self.native_a_commitment is Some
        &&& self.native_b_poly matches Some(p) ==> p.wf()
        &&& self.native_b_poly is Some <==> self.native_b_commitment is Some
        &&& self.native_p_poly matches Some(p) ==> p.wf()
        &&& self.native_p_poly is Some <==> self.native_p_commitment is Some
        &&& self.bridge_preamble_rx matches Some(p) ==> p.wf()
        &&& self.bridge_preamble_rx is Some <==> self.bridge_preamble_commitment is Some
        &&& self.bridge_s_prime_rx matches Some(p) ==> p.wf()
        &&& self.bridge_s_prime_rx is Some <==> self.bridge_s_prime_commitment is Some
        &&& self.bridge_inner_error_rx matches Some(p) ==> p.wf()
        &&& self.bridge_inner_error_rx is Some <==> self.bridge_inner_error_commitment is Some
        &&& self.bridge_f_rx matches Some(p) ==> p.wf()
        &&& self.bridge_f_rx is Some <==> self.bridge_f_commitment is Some
        &&& nested_slot::<C, R>(
            params,
            exact,
            self.bridge_outer_error_rx,
            self.bridge_outer_error_commitment,
        )
        &&& nested_slot::<C, R>(
            params,
            exact,
            self.bridge_ab_rx,
            self.bridge_ab_commitment,
        )
        &&& nested_slot::<C, R>(
            params,
            exact,
            self.bridge_query_rx,
            self.bridge_query_commitment,
        )
        &&& nested_slot::<C, R>(
            params,
            exact,
            self.bridge_eval_rx,
            self.bridge_eval_commitment,
        )
        &&& nested_slots::<C, R>(
            params,
            exact,
            self.nested_endoscaling_step_rxs,
            self.nested_endoscaling_step_commitments,
        )
        &&& nested_slot::<C, R>(
            params,
            exact,
            self.nested_endoscalar_rx,
            self.nested_endoscalar_commitment,
        )
        &&& nested_slot::<C, R>(
            params,
            exact,
            self.nested_points_rx,
            self.nested_points_commitment,
        )
    }

    /// Each commitment that was stored along with its polynomial is the commitment to it.
    pub open spec fn opened(&self) -> bool {
        &&& host_pair::<C, R>(self.params, self.native_a_poly, self.native_a_commitment)
        &&& host_pair::<C, R>(self.params, self.native_b_poly, self.native_b_commitment)
        &&& host_pair::<C, R>(self.params, self.native_p_poly, self.native_p_commitment)
        &&& nested_pair::<C, R>(
            self.params,
            self.bridge_preamble_rx,
            self.bridge_preamble_commitment,
        )
        &&& nested_pair::<C, R>(
            self.params,
            self.bridge_s_prime_rx,
            self.bridge_s_prime_commitment,
        )
        &&& nested_pair::<C, R>(
            self.params,
            self.bridge_inner_error_rx,
            self.bridge_inner_error_commitment,
        )
        &&& nested_pair::<C, R>(
            self.params,
            self.bridge_f_rx,
            self.bridge_f_commitment,
        )
    }

    /// A commitment to `poly` with the generators of the host curve may have the
    /// logarithm `dlog`, and move the counters from `before` to `after`.
    pub open spec fn host_commits(
        &self,
        dlog: int,
        poly: &Polynomial<C::CircuitField, R>,
        before: AccelMsmStats,
        after: AccelMsmStats,
    ) -> bool {
        host_commits_with::<C, R, A>(
            self.params,
            self.settings_spec(),
            self.facade,
            dlog,
            poly,
            before,
            after,
        )
    }

    /// A commitment to `poly` with the generators of the nested curve may have the
    /// logarithm `dlog`, and move the counters from `before` to `after`.
    pub open spec fn nested_commits(
        &self,
        dlog: int,
        poly: &Polynomial<C::ScalarField, R>,
        before: AccelMsmStats,
        after: AccelMsmStats,
    ) -> bool {
        nested_commits_with::<C, R, A>(
            self.params,
            self.settings_spec(),
            self.facade,
            dlog,
            poly,
            before,
            after,
        )
    }

    /// Asked for the commitment to `poly`, the builder gives `c`: what it has `kept`, without
    /// touching the counters, or else a commitment that it computes.
    pub open spec fn host_step(
        &self,
        kept: Option<C::HostCurve>,
        poly: &Polynomial<C::CircuitField, R>,
        c: C::HostCurve,
        before: AccelMsmStats,
        after: AccelMsmStats,
    ) -> bool {
        match kept {
            Some(k) => c == k && after == before,
            None => self.host_commits(c.dlog(), poly, before, after),
        }
    }

    /// Asked for the commitment to `poly`, the builder gives `c`: what it has `kept`, without
    /// touching the counters, or else a commitment that it computes.
    pub open spec fn nested_step(
        &self,
        kept: Option<C::NestedCurve>,
        poly: &Polynomial<C::ScalarField, R>,
        c: C::NestedCurve,
        before: AccelMsmStats,
        after: AccelMsmStats,
    ) -> bool {
        match kept {
            Some(k) => c == k && after == before,
            None => self.nested_commits(c.dlog(), poly, before, after),
        }
    }

    /// Asked for the commitments to the polynomials, the builder gives `cs`: what it has
    /// `kept`, without touching the counters, or else commitments that it computes.
    pub open spec fn nested_steps(
        &self,
        kept: Option<Vec<C::NestedCurve>>,
        polys: Seq<Polynomial<C::ScalarField, R>>,
        cs: Seq<C::NestedCurve>,
        before: AccelMsmStats,
        after: AccelMsmStats,
    ) -> bool {
        match kept {
            Some(k) => cs == k@ && after == before,
            None => self.nested_run(cs, polys, before, after),
        }
    }

    /// Asked for the query and the registry commitment, the builder gives `c0` and `c1`.
    pub open spec fn query_steps(
        &self,
        c0: C::HostCurve,
        c1: C::HostCurve,
        after: AccelMsmStats,
    ) -> bool {
        exists|mid: AccelMsmStats|
            #[trigger] self.host_step(
                self.native_query_commitment,
                &self.native_query_rx->Some_0,
                c0,
                self.stats,
                mid,
            ) && self.host_step(
                self.native_registry_xy_commitment,
                &self.native_registry_xy_poly->Some_0,
                c1,
                mid,
                after,
            )
    }

    /// Commitments to the polynomials, one after the other, may be these, and move the
    /// counters from `before` to `after`.
    pub open spec fn nested_run(
        &self,
        cs: Seq<C::NestedCurve>,
        polys: Seq<Polynomial<C::ScalarField, R>>,
        before: AccelMsmStats,
        after: AccelMsmStats,
    ) -> bool {
        nested_run_with::<C, R, A>(
            self.params,
            self.settings_spec(),
            self.facade,
            cs,
            polys,
            before,
            after,
        )
    }

    /// A builder that holds nothing yet. It multiplies with the settings of the process; a
    /// process without settings does not accelerate.
    pub fn new(
        params: &'params C::Params,
        bridge_alpha: C::ScalarField,
        ambient: Option<AccelMsmConfig>,
        facade: &'params A,
    ) -> (r: Self)
        ensures
            r.wf(),
            r.is_empty(),
            r.opened(),
            r.params == params,
            r.bridge_alpha == bridge_alpha,
            r.accel_config == None::<ProverAccelConfig>,
            r.ambient == ambient,
            r.facade == facade,
            r.stats == (AccelMsmStats {
                candidates: 0,
                facade_results: 0,
                fallbacks: 0,
                total_candidate_points: 0,
            }),
    {
        ProofBuilder {
            params,
            accel_config: None,
            ambient,
            facade,
            stats: AccelMsmStats::default(),
            bridge_alpha,
            circuit_id: None,
            left_header: None,
            right_header: None,
            native_application_rx: None,
            native_preamble_rx: None,
            native_inner_error_rx: None,
            native_outer_error_rx: None,
            native_a_poly: None,
            native_b_poly: None,
            native_query_rx: None,
            native_registry_xy_poly: None,
            native_eval_rx: None,
            native_p_poly: None,
            native_hashes_1_rx: None,
            native_hashes_2_rx: None,
            native_inner_collapse_rx: None,
            native_outer_collapse_rx: None,
            native_compute_v_rx: None,
            bridge_preamble_rx: None,
            bridge_preamble_commitment: None,
            bridge_s_prime_rx: None,
            bridge_s_prime_commitment: None,
            bridge_inner_error_rx: None,
            bridge_inner_error_commitment: None,
            bridge_f_rx: None,
            bridge_f_commitment: None,
            bridge_outer_error_rx: None,
            bridge_ab_rx: None,
            bridge_query_rx: None,
            bridge_eval_rx: None,
            nested_endoscaling_step_rxs: None,
            nested_endoscalar_rx: None,
            nested_points_rx: None,
            nested_endoscaling_step_commitments: None,
            nested_endoscalar_commitment: None,
            nested_points_commitment: None,
            w: None,
            y: None,
            z: None,
            mu: None,
            nu: None,
            mu_prime: None,
            nu_prime: None,
            x: None,
            alpha: None,
            u: None,
            pre_beta: None,
            native_application_commitment: None,
            native_preamble_commitment: None,
            native_inner_error_commitment: None,
            native_outer_error_commitment: None,
            native_a_commitment: None,
            native_b_commitment: None,
            native_query_commitment: None,
            native_registry_xy_commitment: None,
            native_eval_commitment: None,
            native_p_commitment: None,
            native_hashes_1_commitment: None,
            native_hashes_2_commitment: None,
            native_inner_collapse_commitment: None,
            native_outer_collapse_commitment: None,
            native_compute_v_commitment: None,
            bridge_outer_error_commitment: None,
            bridge_ab_commitment: None,
            bridge_query_commitment: None,
            bridge_eval_commitment: None,
            child_left_stage_rx: None,
            child_right_stage_rx: None,
        }
    }

    /// A builder that holds nothing yet, with settings of its own for the accelerator, where
    /// there are any.
    pub fn new_with_accel_config(
        params: &'params C::Params,
        bridge_alpha: C::ScalarField,
        accel_config: Option<ProverAccelConfig>,
        ambient: Option<AccelMsmConfig>,
        facade: &'params A,
    ) -> (r: Self)
        ensures
            r.wf(),
            r.is_empty(),
            r.opened(),
            r.params == params,
            r.bridge_alpha == bridge_alpha,
            r.accel_config == accel_config,
            r.ambient == ambient,
            r.facade == facade,
            r.stats == (AccelMsmStats {
                candidates: 0,
                facade_results: 0,
                fallbacks: 0,
                total_candidate_points: 0,
            }),
    {
        let mut builder = Self::new(params, bridge_alpha, ambient, facade);
        builder.accel_config = accel_config;
        builder
    }

    /// Nothing has been stored or computed.
    pub open spec fn is_empty(&self) -> bool {
        &&& self.circuit_id is None
        &&& self.left_header is None
        &&& self.right_header is None
        &&& self.native_application_rx is None
        &&& self.native_preamble_rx is None
        &&& self.native_inner_error_rx is None
        &&& self.native_outer_error_rx is None
        &&& self.native_a_poly is None
        &&& self.native_b_poly is None
        &&& self.native_query_rx is None
        &&& self.native_registry_xy_poly is None
        &&& self.native_eval_rx is None
        &&& self.native_p_poly is None
        &&& self.native_hashes_1_rx is None
        &&& self.native_hashes_2_rx is None
        &&& self.native_inner_collapse_rx is None
        &&& self.native_outer_collapse_rx is None
        &&& self.native_compute_v_rx is None
        &&& self.bridge_preamble_rx is None
        &&& self.bridge_preamble_commitment is None
        &&& self.bridge_s_prime_rx is None
        &&& self.bridge_s_prime_commitment is None
        &&& self.bridge_inner_error_rx is None
        &&& self.bridge_inner_error_commitment is None
        &&& self.bridge_f_rx is None
        &&& self.bridge_f_commitment is None
        &&& self.bridge_outer_error_rx is None
        &&& self.bridge_ab_rx is None
        &&& self.bridge_query_rx is None
        &&& self.bridge_eval_rx is None
        &&& self.nested_endoscaling_step_rxs is None
        &&& self.nested_endoscalar_rx is None
        &&& self.nested_points_rx is None
        &&& self.nested_endoscaling_step_commitments is None
        &&& self.nested_endoscalar_commitment is None
        &&& self.nested_points_commitment is None
        &&& self.w is None
        &&& self.y is None
        &&& self.z is None
        &&& self.mu is None
        &&& self.nu is None
        &&& self.mu_prime is None
        &&& self.nu_prime is None
        &&& self.x is None
        &&& self.alpha is None
        &&& self.u is None
        &&& self.pre_beta is None
        &&& self.native_application_commitment is None
        &&& self.native_preamble_commitment is None
        &&& self.native_inner_error_commitment is None
        &&& self.native_outer_error_commitment is None
        &&& self.native_a_commitment is None
        &&& self.native_b_commitment is None
        &&& self.native_query_commitment is None
        &&& self.native_registry_xy_commitment is None
        &&& self.native_eval_commitment is None
        &&& self.native_p_commitment is None
        &&& self.native_hashes_1_commitment is None
        &&& self.native_hashes_2_commitment is None
        &&& self.native_inner_collapse_commitment is None
        &&& self.native_outer_collapse_commitment is None
        &&& self.native_compute_v_commitment is None
        &&& self.bridge_outer_error_commitment is None
        &&& self.bridge_ab_commitment is None
        &&& self.bridge_query_commitment is None
        &&& self.bridge_eval_commitment is None
        &&& self.child_left_stage_rx is None
        &&& self.child_right_stage_rx is None
    }

    /// The settings for multiplications: those of this proof, or else of the process.
    pub fn settings(&self) -> (r: Option<AccelMsmConfig>)
        ensures
            r == self.settings_spec(),
            self.accel_config matches Some(own) ==> r == Some(
                AccelMsmConfig { backend: own.backend, min_msm_size: own.min_msm_size },
            ),
            self.accel_config is None ==> r == self.ambient,
    {
        match self.accel_config {
            Some(config) => Some(config.msm_config()),
            None => self.ambient,
        }
    }

    /// The parameters of the cycle.
    pub fn params(&self) -> (r: &C::Params)
        ensures
            r == self.params,
    {
        self.params
    }

    /// Commits to `poly` with the generators of the host curve, as the parts of a
    /// builder tell.
    fn commit_native_with(
        params: &C::Params,
        settings: Option<AccelMsmConfig>,
        facade: &A,
        stats: &mut AccelMsmStats,
        poly: &Polynomial<C::CircuitField, R>,
    ) -> (r: C::HostCurve)
        requires
            poly.wf(),
            C::host(params).bases().len() >= 4 * R::gates(),
        ensures
            accel::multiplied_with(
                facade,
                settings,
                commit::commitment_offer(poly.layout(), C::host(params).bases()),
                commit::commitment(poly@, C::host(params).bases()),
                r.dlog(),
                *old(stats),
                *final(stats),
            ),
            (settings matches Some(config) ==> accel::truthful(facade, config.backend))
                ==> host_commitment::<C, R>(params, r, *poly),
    {
        let ghost bases = C::host(params).bases();
        let r = poly.commit_to_affine(C::host_generators(params), settings, facade, stats);
        proof {
            commit::lemma_commitment_offer(poly.layout(), 4 * R::gates(), bases);
            if let Some(config) = settings {
                if accel::truthful(facade, config.backend) {
                    accel::lemma_truthful(
                        facade,
                        config,
                        commit::commitment_offer(poly.layout(), bases),
                        commit::commitment(poly@, bases),
                        r.dlog(),
                        *old(stats),
                        *stats,
                    );
                }
            }
        }
        r
    }

    /// Commits to `poly` with the generators of the host curve.
    pub fn commit_native(&mut self, poly: &Polynomial<C::CircuitField, R>) -> (r: C::HostCurve)
        requires
            poly.wf(),
            old(self).host_fits(),
        ensures
            old(self).host_commits(
                r.dlog(),
                poly,
                old(self).stats,
                final(self).stats,
            ),
            old(self).exact() ==> host_commitment::<C, R>(old(self).params, r, *poly),
            *final(self) == (ProofBuilder { stats: final(self).stats, ..*old(self) }),
    {
        let settings = self.settings();
        Self::commit_native_with(
            self.params,
            settings,
            self.facade,
            &mut self.stats,
            poly,
        )
    }

    /// Commits to `poly` with the generators of the nested curve, as the parts of a
    /// builder tell.
    fn commit_nested_with(
        params: &C::Params,
        settings: Option<AccelMsmConfig>,
        facade: &A,
        stats: &mut AccelMsmStats,
        poly: &Polynomial<C::ScalarField, R>,
    ) -> (r: C::NestedCurve)
        requires
            poly.wf(),
            C::nested(params).bases().len() >= 4 * R::gates(),
        ensures
            accel::multiplied_with(
                facade,
                settings,
                commit::commitment_offer(poly.layout(), C::nested(params).bases()),
                commit::commitment(poly@, C::nested(params).bases()),
                r.dlog(),
                *old(stats),
                *final(stats),
            ),
            (settings matches Some(config) ==> accel::truthful(facade, config.backend))
                ==> nested_commitment::<C, R>(params, r, *poly),
    {
        let ghost bases = C::nested(params).bases();
        let r = poly.commit_to_affine(C::nested_generators(params), settings, facade, stats);
        proof {
            commit::lemma_commitment_offer(poly.layout(), 4 * R::gates(), bases);
            if let Some(config) = settings {
                if accel::truthful(facade, config.backend) {
                    accel::lemma_truthful(
                        facade,
                        config,
                        commit::commitment_offer(poly.layout(), bases),
                        commit::commitment(poly@, bases),
                        r.dlog(),
                        *old(stats),
                        *stats,
                    );
                }
            }
        }
        r
    }

    /// Commits to `poly` with the generators of the nested curve.
    pub fn commit_nested(&mut self, poly: &Polynomial<C::ScalarField, R>) -> (r: C::NestedCurve)
        requires
            poly.wf(),
            old(self).nested_fits(),
        ensures
            old(self).nested_commits(
                r.dlog(),
                poly,
                old(self).stats,
                final(self).stats,
            ),
            old(self).exact() ==> nested_commitment::<C, R>(old(self).params, r, *poly),
            *final(self) == (ProofBuilder { stats: final(self).stats, ..*old(self) }),
    {
        let settings = self.settings();
        Self::commit_nested_with(
            self.params,
            settings,
            self.facade,
            &mut self.stats,
            poly,
        )
    }

    /// Commits to `poly` with the generators of the host curve, in coordinates that are
    /// fast to compute with.
    pub fn commit_native_projective(
        &mut self,
        poly: &Polynomial<C::CircuitField, R>,
    ) -> (r: <C::HostCurve as CurveAffine>::Curve)
        requires
            poly.wf(),
            old(self).host_fits(),
        ensures
            old(self).host_commits(
                C::HostCurve::curve_dlog(&r),
                poly,
                old(self).stats,
                final(self).stats,
            ),
            old(self).exact() ==> C::HostCurve::curve_dlog(&r) == commit::commitment(
                poly@,
                C::host(old(self).params).bases(),
            ),
            *final(self) == (ProofBuilder { stats: final(self).stats, ..*old(self) }),
    {
        let settings = self.settings();
        let generators = C::host_generators(self.params);
        let r = poly.commit(generators, settings, self.facade, &mut self.stats);
        proof {
            let bases = C::host(self.params).bases();
            commit::lemma_commitment_offer(poly.layout(), 4 * R::gates(), bases);
            if let Some(config) = settings {
                if accel::truthful(self.facade, config.backend) {
                    accel::lemma_truthful(
                        self.facade,
                        config,
                        commit::commitment_offer(poly.layout(), bases),
                        commit::commitment(poly@, bases),
                        C::HostCurve::curve_dlog(&r),
                        old(self).stats,
                        self.stats,
                    );
                }
            }
        }
        r
    }

    /// The sum of the bases, each multiplied by its scalar.
    pub fn commit_native_msm_projective(
        &mut self,
        coeffs: &Vec<C::CircuitField>,
        bases: &Vec<C::HostCurve>,
    ) -> (r: <C::HostCurve as CurveAffine>::Curve)
        requires
            coeffs.len() == bases.len(),
        ensures
            accel::multiplied_with(
                old(self).facade,
                old(self).settings_spec(),
                accel::offer(coeffs@, bases@),
                accel::value(accel::offer(coeffs@, bases@)),
                C::HostCurve::curve_dlog(&r),
                old(self).stats,
                final(self).stats,
            ),
            *final(self) == (ProofBuilder { stats: final(self).stats, ..*old(self) }),
    {
        let settings = self.settings();
        accel::mul(coeffs, bases, settings, self.facade, &mut self.stats)
    }

    /// Stores the index of the application's circuit, which must not have been stored.
    pub fn set_circuit_id(&mut self, v: CircuitIndex)
        requires
            old(self).wf(),
            old(self).circuit_id is None,
        ensures
            final(self).wf(),
            *final(self) == (ProofBuilder { circuit_id: Some(v), ..*old(self) }),
    {
        self.circuit_id = Some(v);
    }

    /// Stores the header of the left child, which must not have been stored.
    pub fn set_left_header(&mut self, v: Vec<C::CircuitField>)
        requires
            old(self).wf(),
            old(self).left_header is None,
        ensures
            final(self).wf(),
            *final(self) == (ProofBuilder { left_header: Some(v), ..*old(self) }),
    {
        self.left_header = Some(v);
    }

    /// Stores the header of the right child, which must not have been stored.
    pub fn set_right_header(&mut self, v: Vec<C::CircuitField>)
        requires
            old(self).wf(),
            old(self).right_header is None,
        ensures
            final(self).wf(),
            *final(self) == (ProofBuilder { right_header: Some(v), ..*old(self) }),
    {
        self.right_header = Some(v);
    }

    /// The header of the left child, which must have been stored.
    pub fn left_header(&self) -> (r: &[C::CircuitField])
        requires
            self.left_header is Some,
        ensures
            r@ == self.left_header->Some_0@,
    {
        self.left_header.as_ref().unwrap().as_slice()
    }

    /// The header of the right child, which must have been stored.
    pub fn right_header(&self) -> (r: &[C::CircuitField])
        requires
            self.right_header is Some,
        ensures
            r@ == self.right_header->Some_0@,
    {
        self.right_header.as_ref().unwrap().as_slice()
    }

    /// Stores the application polynomial, which must not have been stored.
    pub fn set_native_application_rx(&mut self, v: Polynomial<C::CircuitField, R>)
        requires
            old(self).wf(),
            old(self).native_application_rx is None,
            v.wf(),
        ensures
            final(self).wf(),
            *final(self) == (ProofBuilder { native_application_rx: Some(v), ..*old(self) }),
    {
        self.native_application_rx = Some(v);
    }

    /// Stores the preamble polynomial, which must not have been stored.
    pub fn set_native_preamble_rx(&mut self, v: Polynomial<C::CircuitField, R>)
        requires
            old(self).wf(),
            old(self).native_preamble_rx is None,
            v.wf(),
        ensures
            final(self).wf(),
            *final(self) == (ProofBuilder { native_preamble_rx: Some(v), ..*old(self) }),
    {
        self.native_preamble_rx = Some(v);
    }

    /// Stores the inner error polynomial, which must not have been stored.
    pub fn set_native_inner_error_rx(&mut self, v: Polynomial<C::CircuitField, R>)
        requires
            old(self).wf(),
            old(self).native_inner_error_rx is None,
            v.wf(),
        ensures
            final(self).wf(),
            *final(self) == (ProofBuilder { native_inner_error_rx: Some(v), ..*old(self) }),
    {
        self.native_inner_error_rx = Some(v);
    }

    /// Stores the outer error polynomial, which must not have been stored.
    pub fn set_native_outer_error_rx(&mut self, v: Polynomial<C::CircuitField, R>)
        requires
            old(self).wf(),
            old(self).native_outer_error_rx is None,
            v.wf(),
        ensures
            final(self).wf(),
            *final(self) == (ProofBuilder { native_outer_error_rx: Some(v), ..*old(self) }),
    {
        self.native_outer_error_rx = Some(v);
    }

    /// Stores the query polynomial, which must not have been stored.
    pub fn set_native_query_rx(&mut self, v: Polynomial<C::CircuitField, R>)
        requires
            old(self).wf(),
            old(self).native_query_rx is None,
            v.wf(),
        ensures
            final(self).wf(),
            *final(self) == (ProofBuilder { native_query_rx: Some(v), ..*old(self) }),
    {
        self.native_query_rx = Some(v);
    }

    /// Stores the registry polynomial, which must not have been stored.
    pub fn set_native_registry_xy_poly(&mut self, v: Polynomial<C::CircuitField, R>)
        requires
            old(self).wf(),
            old(self).native_registry_xy_poly is None,
            v.wf(),
        ensures
            final(self).wf(),
            *final(self) == (ProofBuilder { native_registry_xy_poly: Some(v), ..*old(self) }),
    {
        self.native_registry_xy_poly = Some(v);
    }

    /// Stores the evaluation polynomial, which must not have been stored.
    pub fn set_native_eval_rx(&mut self, v: Polynomial<C::CircuitField, R>)
        requires
            old(self).wf(),
            old(self).native_eval_rx is None,
            v.wf(),
        ensures
            final(self).wf(),
            *final(self) == (ProofBuilder { native_eval_rx: Some(v), ..*old(self) }),
    {
        self.native_eval_rx = Some(v);
    }

    /// Stores the first hashes polynomial, which must not have been stored.
    pub fn set_native_hashes_1_rx(&mut self, v: Polynomial<C::CircuitField, R>)
        requires
            old(self).wf(),
            old(self).native_hashes_1_rx is None,
            v.wf(),
        ensures
            final(self).wf(),
            *final(self) == (ProofBuilder { native_hashes_1_rx: Some(v), ..*old(self) }),
    {
        self.native_hashes_1_rx = Some(v);
    }

    /// Stores the second hashes polynomial, which must not have been stored.
    pub fn set_native_hashes_2_rx(&mut self, v: Polynomial<C::CircuitField, R>)
        requires
            old(self).wf(),
            old(self).native_hashes_2_rx is None,
            v.wf(),
        ensures
            final(self).wf(),
            *final(self) == (ProofBuilder { native_hashes_2_rx: Some(v), ..*old(self) }),
    {
        self.native_hashes_2_rx = Some(v);
    }

    /// Stores the inner collapse polynomial, which must not have been stored.
    pub fn set_native_inner_collapse_rx(&mut self, v: Polynomial<C::CircuitField, R>)
        requires
            old(self).wf(),
            old(self).native_inner_collapse_rx is None,
            v.wf(),
        ensures
            final(self).wf(),
            *final(self) == (ProofBuilder { native_inner_collapse_rx: Some(v), ..*old(self) }),
    {
        self.native_inner_collapse_rx = Some(v);
    }

    /// Stores the outer collapse polynomial, which must not have been stored.
    pub fn set_native_outer_collapse_rx(&mut self, v: Polynomial<C::CircuitField, R>)
        requires
            old(self).wf(),
            old(self).native_outer_collapse_rx is None,
            v.wf(),
        ensures
            final(self).wf(),
            *final(self) == (ProofBuilder { native_outer_collapse_rx: Some(v), ..*old(self) }),
    {
        self.native_outer_collapse_rx = Some(v);
    }

    /// Stores the evaluation check polynomial, which must not have been stored.
    pub fn set_native_compute_v_rx(&mut self, v: Polynomial<C::CircuitField, R>)
        requires
            old(self).wf(),
            old(self).native_compute_v_rx is None,
            v.wf(),
        ensures
            final(self).wf(),
            *final(self) == (ProofBuilder { native_compute_v_rx: Some(v), ..*old(self) }),
    {
        self.native_compute_v_rx = Some(v);
    }

    /// Stores the first folded polynomial with its commitment, neither of which must have been
    /// stored.
    pub fn set_native_a_poly(
        &mut self,
        poly: Polynomial<C::CircuitField, R>,
        commitment: C::HostCurve,
    )
        requires
            old(self).wf(),
            old(self).native_a_poly is None,
            poly.wf(),
        ensures
            final(self).wf(),
            *final(self) == (ProofBuilder {
                native_a_poly: Some(poly),
                native_a_commitment: Some(commitment),
                ..*old(self)
            }),
    {
        self.native_a_poly = Some(poly);
        self.native_a_commitment = Some(commitment);
    }

    /// Stores the second folded polynomial with its commitment, neither of which must have been
    /// stored.
    pub fn set_native_b_poly(
        &mut self,
        poly: Polynomial<C::CircuitField, R>,
        commitment: C::HostCurve,
    )
        requires
            old(self).wf(),
            old(self).native_b_poly is None,
            poly.wf(),
        ensures
            final(self).wf(),
            *final(self) == (ProofBuilder {
                native_b_poly: Some(poly),
                native_b_commitment: Some(commitment),
                ..*old(self)
            }),
    {
        self.native_b_poly = Some(poly);
        self.native_b_commitment = Some(commitment);
    }

    /// Stores the final polynomial with its commitment, neither of which must have been
    /// stored.
    pub fn set_native_p_poly(
        &mut self,
        poly: Polynomial<C::CircuitField, R>,
        commitment: C::HostCurve,
    )
        requires
            old(self).wf(),
            old(self).native_p_poly is None,
            poly.wf(),
        ensures
            final(self).wf(),
            *final(self) == (ProofBuilder {
                native_p_poly: Some(poly),
                native_p_commitment: Some(commitment),
                ..*old(self)
            }),
    {
        self.native_p_poly = Some(poly);
        self.native_p_commitment = Some(commitment);
    }

    /// The first folded polynomial, which must have been stored.
    pub fn native_a_poly(&self) -> (r: &Polynomial<C::CircuitField, R>)
        requires
            self.native_a_poly is Some,
        ensures
            *r == self.native_a_poly->Some_0,
    {
        self.native_a_poly.as_ref().unwrap()
    }

    /// The second folded polynomial, which must have been stored.
    pub fn native_b_poly(&self) -> (r: &Polynomial<C::CircuitField, R>)
        requires
            self.native_b_poly is Some,
        ensures
            *r == self.native_b_poly->Some_0,
    {
        self.native_b_poly.as_ref().unwrap()
    }

    /// The registry polynomial, which must have been stored.
    pub fn native_registry_xy_poly(&self) -> (r: &Polynomial<C::CircuitField, R>)
        requires
            self.native_registry_xy_poly is Some,
        ensures
            *r == self.native_registry_xy_poly->Some_0,
    {
        self.native_registry_xy_poly.as_ref().unwrap()
    }

    /// The final polynomial, which must have been stored.
    pub fn native_p_poly(&self) -> (r: &Polynomial<C::CircuitField, R>)
        requires
            self.native_p_poly is Some,
        ensures
            *r == self.native_p_poly->Some_0,
    {
        self.native_p_poly.as_ref().unwrap()
    }

    /// The polynomial of the points, which must have been stored.
    pub fn nested_points_rx(&self) -> (r: &Polynomial<C::ScalarField, R>)
        requires
            self.nested_points_rx is Some,
        ensures
            *r == self.nested_points_rx->Some_0,
    {
        self.nested_points_rx.as_ref().unwrap()
    }

    /// The registry transition bridge, which must have been stored.
    pub fn bridge_s_prime_rx(&self) -> (r: &Polynomial<C::ScalarField, R>)
        requires
            self.bridge_s_prime_rx is Some,
        ensures
            *r == self.bridge_s_prime_rx->Some_0,
    {
        self.bridge_s_prime_rx.as_ref().unwrap()
    }

    /// The inner error bridge, which must have been stored.
    pub fn bridge_inner_error_rx(&self) -> (r: &Polynomial<C::ScalarField, R>)
        requires
            self.bridge_inner_error_rx is Some,
        ensures
            *r == self.bridge_inner_error_rx->Some_0,
    {
        self.bridge_inner_error_rx.as_ref().unwrap()
    }

    /// The commitment to the application polynomial, which must have been stored. It is
    /// computed
    /// once.
    pub fn native_application_commitment(&mut self) -> (r: C::HostCurve)
        requires
            old(self).wf(),
            old(self).host_fits(),
            old(self).native_application_rx is Some,
        ensures
            final(self).wf(),
            *final(self) == (ProofBuilder {
                native_application_commitment: Some(r),
                stats: final(self).stats,
                ..*old(self)
            }),
            old(self).host_step(
                old(self).native_application_commitment,
                &old(self).native_application_rx->Some_0,
                r,
                old(self).stats,
                final(self).stats,
            ),
            old(self).exact() ==> host_commitment::<C, R>(
                old(self).params,
                r,
                old(self).native_application_rx->Some_0,
            ),
    {
        if let Some(c) = self.native_application_commitment {
            return c;
        }
        let settings = self.settings();
        let r = Self::commit_native_with(
            self.params,
            settings,
            self.facade,
            &mut self.stats,
            self.native_application_rx.as_ref().unwrap(),
        );
        self.native_application_commitment = Some(r);
        r
    }

    /// The commitment to the preamble polynomial, which must have been stored. It is computed
    /// once.
    pub fn native_preamble_commitment(&mut self) -> (r: C::HostCurve)
        requires
            old(self).wf(),
            old(self).host_fits(),
            old(self).native_preamble_rx is Some,
        ensures
            final(self).wf(),
            *final(self) == (ProofBuilder {
                native_preamble_commitment: Some(r),
                stats: final(self).stats,
                ..*old(self)
            }),
            old(self).host_step(
                old(self).native_preamble_commitment,
                &old(self).native_preamble_rx->Some_0,
                r,
                old(self).stats,
                final(self).stats,
            ),
            old(self).exact() ==> host_commitment::<C, R>(
                old(self).params,
                r,
                old(self).native_preamble_rx->Some_0,
            ),
    {
        if let Some(c) = self.native_preamble_commitment {
            return c;
        }
        let settings = self.settings();
        let r = Self::commit_native_with(
            self.params,
            settings,
            self.facade,
            &mut self.stats,
            self.native_preamble_rx.as_ref().unwrap(),
        );
        self.native_preamble_commitment = Some(r);
        r
    }

    /// The commitment to the inner error polynomial, which must have been stored. It is
    /// computed
    /// once.
    pub fn native_inner_error_commitment(&mut self) -> (r: C::HostCurve)
        requires
            old(self).wf(),
            old(self).host_fits(),
            old(self).native_inner_error_rx is Some,
        ensures
            final(self).wf(),
            *final(self) == (ProofBuilder {
                native_inner_error_commitment: Some(r),
                stats: final(self).stats,
                ..*old(self)
            }),
            old(self).host_step(
                old(self).native_inner_error_commitment,
                &old(self).native_inner_error_rx->Some_0,
                r,
                old(self).stats,
                final(self).stats,
            ),
            old(self).exact() ==> host_commitment::<C, R>(
                old(self).params,
                r,
                old(self).native_inner_error_rx->Some_0,
            ),
    {
        if let Some(c) = self.native_inner_error_commitment {
            return c;
        }
        let settings = self.settings();
        let r = Self::commit_native_with(
            self.params,
            settings,
            self.facade,
            &mut self.stats,
            self.native_inner_error_rx.as_ref().unwrap(),
        );
        self.native_inner_error_commitment = Some(r);
        r
    }

    /// The commitment to the outer error polynomial, which must have been stored. It is
    /// computed
    /// once.
    pub fn native_outer_error_commitment(&mut self) -> (r: C::HostCurve)
        requires
            old(self).wf(),
            old(self).host_fits(),
            old(self).native_outer_error_rx is Some,
        ensures
            final(self).wf(),
            *final(self) == (ProofBuilder {
                native_outer_error_commitment: Some(r),
                stats: final(self).stats,
                ..*old(self)
            }),
            old(self).host_step(
                old(self).native_outer_error_commitment,
                &old(self).native_outer_error_rx->Some_0,
                r,
                old(self).stats,
                final(self).stats,
            ),
            old(self).exact() ==> host_commitment::<C, R>(
                old(self).params,
                r,
                old(self).native_outer_error_rx->Some_0,
            ),
    {
        if let Some(c) = self.native_outer_error_commitment {
            return c;
        }
        let settings = self.settings();
        let r = Self::commit_native_with(
            self.params,
            settings,
            self.facade,
            &mut self.stats,
            self.native_outer_error_rx.as_ref().unwrap(),
        );
        self.native_outer_error_commitment = Some(r);
        r
    }

    /// The commitment to the query polynomial, which must have been stored. It is computed
    /// once.
    pub fn native_query_commitment(&mut self) -> (r: C::HostCurve)
        requires
            old(self).wf(),
            old(self).host_fits(),
            old(self).native_query_rx is Some,
        ensures
            final(self).wf(),
            *final(self) == (ProofBuilder {
                native_query_commitment: Some(r),
                stats: final(self).stats,
                ..*old(self)
            }),
            old(self).host_step(
                old(self).native_query_commitment,
                &old(self).native_query_rx->Some_0,
                r,
                old(self).stats,
                final(self).stats,
            ),
            old(self).exact() ==> host_commitment::<C, R>(
                old(self).params,
                r,
                old(self).native_query_rx->Some_0,
            ),
    {
        if let Some(c) = self.native_query_commitment {
            return c;
        }
        let settings = self.settings();
        let r = Self::commit_native_with(
            self.params,
            settings,
            self.facade,
            &mut self.stats,
            self.native_query_rx.as_ref().unwrap(),
        );
        self.native_query_commitment = Some(r);
        r
    }

    /// The commitment to the registry polynomial, which must have been stored. It is computed
    /// once.
    pub fn native_registry_xy_commitment(&mut self) -> (r: C::HostCurve)
        requires
            old(self).wf(),
            old(self).host_fits(),
            old(self).native_registry_xy_poly is Some,
        ensures
            final(self).wf(),
            *final(self) == (ProofBuilder {
                native_registry_xy_commitment: Some(r),
                stats: final(self).stats,
                ..*old(self)
            }),
            old(self).host_step(
                old(self).native_registry_xy_commitment,
                &old(self).native_registry_xy_poly->Some_0,
                r,
                old(self).stats,
                final(self).stats,
            ),
            old(self).exact() ==> host_commitment::<C, R>(
                old(self).params,
                r,
                old(self).native_registry_xy_poly->Some_0,
            ),
    {
        if let Some(c) = self.native_registry_xy_commitment {
            return c;
        }
        let settings = self.settings();
        let r = Self::commit_native_with(
            self.params,
            settings,
            self.facade,
            &mut self.stats,
            self.native_registry_xy_poly.as_ref().unwrap(),
        );
        self.native_registry_xy_commitment = Some(r);
        r
    }

    /// The commitment to the evaluation polynomial, which must have been stored. It is computed
    /// once.
    pub fn native_eval_commitment(&mut self) -> (r: C::HostCurve)
        requires
            old(self).wf(),
            old(self).host_fits(),
            old(self).native_eval_rx is Some,
        ensures
            final(self).wf(),
            *final(self) == (ProofBuilder {
                native_eval_commitment: Some(r),
                stats: final(self).stats,
                ..*old(self)
            }),
            old(self).host_step(
                old(self).native_eval_commitment,
                &old(self).native_eval_rx->Some_0,
                r,
                old(self).stats,
                final(self).stats,
            ),
            old(self).exact() ==> host_commitment::<C, R>(
                old(self).params,
                r,
                old(self).native_eval_rx->Some_0,
            ),
    {
        if let Some(c) = self.native_eval_commitment {
            return c;
        }
        let settings = self.settings();
        let r = Self::commit_native_with(
            self.params,
            settings,
            self.facade,
            &mut self.stats,
            self.native_eval_rx.as_ref().unwrap(),
        );
        self.native_eval_commitment = Some(r);
        r
    }

    /// The commitment to the first hashes polynomial, which must have been stored. It is
    /// computed
    /// once.
    pub fn native_hashes_1_commitment(&mut self) -> (r: C::HostCurve)
        requires
            old(self).wf(),
            old(self).host_fits(),
            old(self).native_hashes_1_rx is Some,
        ensures
            final(self).wf(),
            *final(self) == (ProofBuilder {
                native_hashes_1_commitment: Some(r),
                stats: final(self).stats,
                ..*old(self)
            }),
            old(self).host_step(
                old(self).native_hashes_1_commitment,
                &old(self).native_hashes_1_rx->Some_0,
                r,
                old(self).stats,
                final(self).stats,
            ),
            old(self).exact() ==> host_commitment::<C, R>(
                old(self).params,
                r,
                old(self).native_hashes_1_rx->Some_0,
            ),
    {
        if let Some(c) = self.native_hashes_1_commitment {
            return c;
        }
        let settings = self.settings();
        let r = Self::commit_native_with(
            self.params,
            settings,
            self.facade,
            &mut self.stats,
            self.native_hashes_1_rx.as_ref().unwrap(),
        );
        self.native_hashes_1_commitment = Some(r);
        r
    }

    /// The commitment to the second hashes polynomial, which must have been stored. It is
    /// computed
    /// once.
    pub fn native_hashes_2_commitment(&mut self) -> (r: C::HostCurve)
        requires
            old(self).wf(),
            old(self).host_fits(),
            old(self).native_hashes_2_rx is Some,
        ensures
            final(self).wf(),
            *final(self) == (ProofBuilder {
                native_hashes_2_commitment: Some(r),
                stats: final(self).stats,
                ..*old(self)
            }),
            old(self).host_step(
                old(self).native_hashes_2_commitment,
                &old(self).native_hashes_2_rx->Some_0,
                r,
                old(self).stats,
                final(self).stats,
            ),
            old(self).exact() ==> host_commitment::<C, R>(
                old(self).params,
                r,
                old(self).native_hashes_2_rx->Some_0,
            ),
    {
        if let Some(c) = self.native_hashes_2_commitment {
            return c;
        }
        let settings = self.settings();
        let r = Self::commit_native_with(
            self.params,
            settings,
            self.facade,
            &mut self.stats,
            self.native_hashes_2_rx.as_ref().unwrap(),
        );
        self.native_hashes_2_commitment = Some(r);
        r
    }

    /// The commitment to the inner collapse polynomial, which must have been stored. It is
    /// computed
    /// once.
    pub fn native_inner_collapse_commitment(&mut self) -> (r: C::HostCurve)
        requires
            old(self).wf(),
            old(self).host_fits(),
            old(self).native_inner_collapse_rx is Some,
        ensures
            final(self).wf(),
            *final(self) == (ProofBuilder {
                native_inner_collapse_commitment: Some(r),
                stats: final(self).stats,
                ..*old(self)
            }),
            old(self).host_step(
                old(self).native_inner_collapse_commitment,
                &old(self).native_inner_collapse_rx->Some_0,
                r,
                old(self).stats,
                final(self).stats,
            ),
            old(self).exact() ==> host_commitment::<C, R>(
                old(self).params,
                r,
                old(self).native_inner_collapse_rx->Some_0,
            ),
    {
        if let Some(c) = self.native_inner_collapse_commitment {
            return c;
        }
        let settings = self.settings();
        let r = Self::commit_native_with(
            self.params,
            settings,
            self.facade,
            &mut self.stats,
            self.native_inner_collapse_rx.as_ref().unwrap(),
        );
        self.native_inner_collapse_commitment = Some(r);
        r
    }

    /// The commitment to the outer collapse polynomial, which must have been stored. It is
    /// computed
    /// once.
    pub fn native_outer_collapse_commitment(&mut self) -> (r: C::HostCurve)
        requires
            old(self).wf(),
            old(self).host_fits(),
            old(self).native_outer_collapse_rx is Some,
        ensures
            final(self).wf(),
            *final(self) == (ProofBuilder {
                native_outer_collapse_commitment: Some(r),
                stats: final(self).stats,
                ..*old(self)
            }),
            old(self).host_step(
                old(self).native_outer_collapse_commitment,
                &old(self).native_outer_collapse_rx->Some_0,
                r,
                old(self).stats,
                final(self).stats,
            ),
            old(self).exact() ==> host_commitment::<C, R>(
                old(self).params,
                r,
                old(self).native_outer_collapse_rx->Some_0,
            ),
    {
        if let Some(c) = self.native_outer_collapse_commitment {
            return c;
        }
        let settings = self.settings();
        let r = Self::commit_native_with(
            self.params,
            settings,
            self.facade,
            &mut self.stats,
            self.native_outer_collapse_rx.as_ref().unwrap(),
        );
        self.native_outer_collapse_commitment = Some(r);
        r
    }

    /// The commitment to the evaluation check polynomial, which must have been stored. It is
    /// computed
    /// once.
    pub fn native_compute_v_commitment(&mut self) -> (r: C::HostCurve)
        requires
            old(self).wf(),
            old(self).host_fits(),
            old(self).native_compute_v_rx is Some,
        ensures
            final(self).wf(),
            *final(self) == (ProofBuilder {
                native_compute_v_commitment: Some(r),
                stats: final(self).stats,
                ..*old(self)
            }),
            old(self).host_step(
                old(self).native_compute_v_commitment,
                &old(self).native_compute_v_rx->Some_0,
                r,
                old(self).stats,
                final(self).stats,
            ),
            old(self).exact() ==> host_commitment::<C, R>(
                old(self).params,
                r,
                old(self).native_compute_v_rx->Some_0,
            ),
    {
        if let Some(c) = self.native_compute_v_commitment {
            return c;
        }
        let settings = self.settings();
        let r = Self::commit_native_with(
            self.params,
            settings,
            self.facade,
            &mut self.stats,
            self.native_compute_v_rx.as_ref().unwrap(),
        );
        self.native_compute_v_commitment = Some(r);
        r
    }

    /// The commitment to the first folded polynomial, which must have been stored.
    pub fn native_a_commitment(&self) -> (r: C::HostCurve)
        requires
            self.native_a_commitment is Some,
        ensures
            r == self.native_a_commitment->Some_0,
    {
        self.native_a_commitment.unwrap()
    }

    /// The commitment to the second folded polynomial, which must have been stored.
    pub fn native_b_commitment(&self) -> (r: C::HostCurve)
        requires
            self.native_b_commitment is Some,
        ensures
            r == self.native_b_commitment->Some_0,
    {
        self.native_b_commitment.unwrap()
    }

    /// The commitment to the final polynomial, which must have been stored.
    pub fn native_p_commitment(&self) -> (r: C::HostCurve)
        requires
            self.native_p_commitment is Some,
        ensures
            r == self.native_p_commitment->Some_0,
    {
        self.native_p_commitment.unwrap()
    }

    /// Stores the preamble bridge with its commitment, neither of which must have been stored.
    pub fn set_bridge_preamble_rx(
        &mut self,
        rx: Polynomial<C::ScalarField, R>,
        commitment: C::NestedCurve,
    )
        requires
            old(self).wf(),
            old(self).bridge_preamble_rx is None,
            rx.wf(),
        ensures
            final(self).wf(),
            *final(self) == (ProofBuilder {
                bridge_preamble_rx: Some(rx),
                bridge_preamble_commitment: Some(commitment),
                ..*old(self)
            }),
    {
        self.bridge_preamble_rx = Some(rx);
        self.bridge_preamble_commitment = Some(commitment);
    }

    /// The commitment to the preamble bridge, which must have been stored.
    pub fn bridge_preamble_commitment(&self) -> (r: C::NestedCurve)
        requires
            self.bridge_preamble_commitment is Some,
        ensures
            r == self.bridge_preamble_commitment->Some_0,
    {
        self.bridge_preamble_commitment.unwrap()
    }

    /// Stores the registry transition bridge with its commitment, neither of which must have
    /// been stored.
    pub fn set_bridge_s_prime_rx(
        &mut self,
        rx: Polynomial<C::ScalarField, R>,
        commitment: C::NestedCurve,
    )
        requires
            old(self).wf(),
            old(self).bridge_s_prime_rx is None,
            rx.wf(),
        ensures
            final(self).wf(),
            *final(self) == (ProofBuilder {
                bridge_s_prime_rx: Some(rx),
                bridge_s_prime_commitment: Some(commitment),
                ..*old(self)
            }),
    {
        self.bridge_s_prime_rx = Some(rx);
        self.bridge_s_prime_commitment = Some(commitment);
    }

    /// The commitment to the registry transition bridge, which must have been stored.
    pub fn bridge_s_prime_commitment(&self) -> (r: C::NestedCurve)
        requires
            self.bridge_s_prime_commitment is Some,
        ensures
            r == self.bridge_s_prime_commitment->Some_0,
    {
        self.bridge_s_prime_commitment.unwrap()
    }

    /// Stores the inner error bridge with its commitment, neither of which must have been
    /// stored.
    pub fn set_bridge_inner_error_rx(
        &mut self,
        rx: Polynomial<C::ScalarField, R>,
        commitment: C::NestedCurve,
    )
        requires
            old(self).wf(),
            old(self).bridge_inner_error_rx is None,
            rx.wf(),
        ensures
            final(self).wf(),
            *final(self) == (ProofBuilder {
                bridge_inner_error_rx: Some(rx),
                bridge_inner_error_commitment: Some(commitment),
                ..*old(self)
            }),
    {
        self.bridge_inner_error_rx = Some(rx);
        self.bridge_inner_error_commitment = Some(commitment);
    }

    /// The commitment to the inner error bridge, which must have been stored.
    pub fn bridge_inner_error_commitment(&self) -> (r: C::NestedCurve)
        requires
            self.bridge_inner_error_commitment is Some,
        ensures
            r == self.bridge_inner_error_commitment->Some_0,
    {
        self.bridge_inner_error_commitment.unwrap()
    }

    /// Stores the quotient bridge with its commitment, neither of which must have been stored.
    pub fn set_bridge_f_rx(&mut self, rx: Polynomial<C::ScalarField, R>, commitment: C::NestedCurve)
        requires
            old(self).wf(),
            old(self).bridge_f_rx is None,
            rx.wf(),
        ensures
            final(self).wf(),
            *final(self) == (ProofBuilder {
                bridge_f_rx: Some(rx),
                bridge_f_commitment: Some(commitment),
                ..*old(self)
            }),
    {
        self.bridge_f_rx = Some(rx);
        self.bridge_f_commitment = Some(commitment);
    }

    /// The commitment to the quotient bridge, which must have been stored.
    pub fn bridge_f_commitment(&self) -> (r: C::NestedCurve)
        requires
            self.bridge_f_commitment is Some,
        ensures
            r == self.bridge_f_commitment->Some_0,
    {
        self.bridge_f_commitment.unwrap()
    }

    /// The power of the shared alpha that a derived bridge is made with.
    pub fn bridge_alpha_power(&self, bridge: CachedBridge) -> (r: C::ScalarField)
        ensures
            r.val() == pow(self.bridge_alpha.val(), bridge_power(bridge))
                % C::ScalarField::modulus(),
    {
        let n: u64 = match bridge {
            CachedBridge::OuterError => 1,
            CachedBridge::Ab => 2,
            CachedBridge::Query => 3,
            CachedBridge::Eval => 4,
        };
        self.bridge_alpha.pow_vartime(n)
    }

    /// What the outer error bridge is derived from: its power of the shared alpha, and the
    /// commitments that it holds.
    pub fn bridge_outer_error_witness(&mut self) -> (r: (C::ScalarField, C::HostCurve))
        requires
            old(self).wf(),
            old(self).host_fits(),
            old(self).native_outer_error_rx is Some,
        ensures
            r.0.val() == pow(old(self).bridge_alpha.val(), bridge_power(CachedBridge::OuterError))
                % C::ScalarField::modulus(),
            final(self).wf(),
            *final(self) == (ProofBuilder {
                native_outer_error_commitment: Some(r.1),
                stats: final(self).stats,
                ..*old(self)
            }),
            old(self).exact() ==> host_commitment::<C, R>(
                old(self).params,
                r.1,
                old(self).native_outer_error_rx->Some_0,
            ),
            old(self).host_step(
                old(self).native_outer_error_commitment,
                &old(self).native_outer_error_rx->Some_0,
                r.1,
                old(self).stats,
                final(self).stats,
            ),
    {
        let outer_error = self.native_outer_error_commitment();
        (self.bridge_alpha_power(CachedBridge::OuterError), outer_error)
    }

    /// Stores the derived outer error bridge, which must not have been stored.
    pub fn set_bridge_outer_error_rx(&mut self, v: Polynomial<C::ScalarField, R>)
        requires
            old(self).wf(),
            old(self).bridge_outer_error_rx is None,
            v.wf(),
        ensures
            final(self).wf(),
            *final(self) == (ProofBuilder { bridge_outer_error_rx: Some(v), ..*old(self) }),
    {
        self.bridge_outer_error_rx = Some(v);
    }

    /// The derived outer error bridge, which must have been stored.
    pub fn bridge_outer_error_rx(&self) -> (r: &Polynomial<C::ScalarField, R>)
        requires
            self.bridge_outer_error_rx is Some,
        ensures
            *r == self.bridge_outer_error_rx->Some_0,
    {
        self.bridge_outer_error_rx.as_ref().unwrap()
    }

    /// The commitment to the derived outer error bridge, which must have been stored. It is
    /// computed once.
    pub fn bridge_outer_error_commitment(&mut self) -> (r: C::NestedCurve)
        requires
            old(self).wf(),
            old(self).nested_fits(),
            old(self).bridge_outer_error_rx is Some,
        ensures
            final(self).wf(),
            *final(self) == (ProofBuilder {
                bridge_outer_error_commitment: Some(r),
                stats: final(self).stats,
                ..*old(self)
            }),
            old(self).nested_step(
                old(self).bridge_outer_error_commitment,
                &old(self).bridge_outer_error_rx->Some_0,
                r,
                old(self).stats,
                final(self).stats,
            ),
            old(self).exact() ==> nested_commitment::<C, R>(
                old(self).params,
                r,
                old(self).bridge_outer_error_rx->Some_0,
            ),
    {
        if let Some(c) = self.bridge_outer_error_commitment {
            return c;
        }
        let settings = self.settings();
        let r = Self::commit_nested_with(
            self.params,
            settings,
            self.facade,
            &mut self.stats,
            self.bridge_outer_error_rx.as_ref().unwrap(),
        );
        self.bridge_outer_error_commitment = Some(r);
        r
    }

    /// What the folded bridge is derived from: its power of the shared alpha, and the
    /// commitments that it holds.
    pub fn bridge_ab_witness(&self) -> (r: (C::ScalarField, C::HostCurve, C::HostCurve))
        requires
            self.native_a_commitment is Some,
            self.native_b_commitment is Some,
        ensures
            r.0.val() == pow(self.bridge_alpha.val(), bridge_power(CachedBridge::Ab))
                % C::ScalarField::modulus(),
            r.1 == self.native_a_commitment->Some_0,
            r.2 == self.native_b_commitment->Some_0,
    {
        let a = self.native_a_commitment();
        let b = self.native_b_commitment();
        (self.bridge_alpha_power(CachedBridge::Ab), a, b)
    }

    /// Stores the derived folded bridge, which must not have been stored.
    pub fn set_bridge_ab_rx(&mut self, v: Polynomial<C::ScalarField, R>)
        requires
            old(self).wf(),
            old(self).bridge_ab_rx is None,
            v.wf(),
        ensures
            final(self).wf(),
            *final(self) == (ProofBuilder { bridge_ab_rx: Some(v), ..*old(self) }),
    {
        self.bridge_ab_rx = Some(v);
    }

    /// The derived folded bridge, which must have been stored.
    pub fn bridge_ab_rx(&self) -> (r: &Polynomial<C::ScalarField, R>)
        requires
            self.bridge_ab_rx is Some,
        ensures
            *r == self.bridge_ab_rx->Some_0,
    {
        self.bridge_ab_rx.as_ref().unwrap()
    }

    /// The commitment to the derived folded bridge, which must have been stored. It is
    /// computed once.
    pub fn bridge_ab_commitment(&mut self) -> (r: C::NestedCurve)
        requires
            old(self).wf(),
            old(self).nested_fits(),
            old(self).bridge_ab_rx is Some,
        ensures
            final(self).wf(),
            *final(self) == (ProofBuilder {
                bridge_ab_commitment: Some(r),
                stats: final(self).stats,
                ..*old(self)
            }),
            old(self).nested_step(
                old(self).bridge_ab_commitment,
                &old(self).bridge_ab_rx->Some_0,
                r,
                old(self).stats,
                final(self).stats,
            ),
            old(self).exact() ==> nested_commitment::<C, R>(
                old(self).params,
                r,
                old(self).bridge_ab_rx->Some_0,
            ),
    {
        if let Some(c) = self.bridge_ab_commitment {
            return c;
        }
        let settings = self.settings();
        let r = Self::commit_nested_with(
            self.params,
            settings,
            self.facade,
            &mut self.stats,
            self.bridge_ab_rx.as_ref().unwrap(),
        );
        self.bridge_ab_commitment = Some(r);
        r
    }

    /// What the query bridge is derived from: its power of the shared alpha, and the
    /// commitments that it holds.
    pub fn bridge_query_witness(&mut self) -> (r: (C::ScalarField, C::HostCurve, C::HostCurve))
        requires
            old(self).wf(),
            old(self).host_fits(),
            old(self).native_query_rx is Some,
            old(self).native_registry_xy_poly is Some,
        ensures
            r.0.val() == pow(old(self).bridge_alpha.val(), bridge_power(CachedBridge::Query))
                % C::ScalarField::modulus(),
            final(self).wf(),
            *final(self) == (ProofBuilder {
                native_query_commitment: Some(r.1),
                native_registry_xy_commitment: Some(r.2),
                stats: final(self).stats,
                ..*old(self)
            }),
            old(self).exact() ==> host_commitment::<C, R>(
                old(self).params,
                r.1,
                old(self).native_query_rx->Some_0,
            ),
            old(self).exact() ==> host_commitment::<C, R>(
                old(self).params,
                r.2,
                old(self).native_registry_xy_poly->Some_0,
            ),
            old(self).query_steps(r.1, r.2, final(self).stats),
    {
        let query = self.native_query_commitment();
        let ghost mid = self.stats;
        let registry_xy = self.native_registry_xy_commitment();
        proof {
            assert(old(self).host_step(
                old(self).native_query_commitment,
                &old(self).native_query_rx->Some_0,
                query,
                old(self).stats,
                mid,
            ));
            assert(old(self).host_step(
                old(self).native_registry_xy_commitment,
                &old(self).native_registry_xy_poly->Some_0,
                registry_xy,
                mid,
                self.stats,
            ));
        }
        (self.bridge_alpha_power(CachedBridge::Query), query, registry_xy)
    }

    /// Stores the derived query bridge, which must not have been stored.
    pub fn set_bridge_query_rx(&mut self, v: Polynomial<C::ScalarField, R>)
        requires
            old(self).wf(),
            old(self).bridge_query_rx is None,
            v.wf(),
        ensures
            final(self).wf(),
            *final(self) == (ProofBuilder { bridge_query_rx: Some(v), ..*old(self) }),
    {
        self.bridge_query_rx = Some(v);
    }

    /// The derived query bridge, which must have been stored.
    pub fn bridge_query_rx(&self) -> (r: &Polynomial<C::ScalarField, R>)
        requires
            self.bridge_query_rx is Some,
        ensures
            *r == self.bridge_query_rx->Some_0,
    {
        self.bridge_query_rx.as_ref().unwrap()
    }

    /// The commitment to the derived query bridge, which must have been stored. It is
    /// computed once.
    pub fn bridge_query_commitment(&mut self) -> (r: C::NestedCurve)
        requires
            old(self).wf(),
            old(self).nested_fits(),
            old(self).bridge_query_rx is Some,
        ensures
            final(self).wf(),
            *final(self) == (ProofBuilder {
                bridge_query_commitment: Some(r),
                stats: final(self).stats,
                ..*old(self)
            }),
            old(self).nested_step(
                old(self).bridge_query_commitment,
                &old(self).bridge_query_rx->Some_0,
                r,
                old(self).stats,
                final(self).stats,
            ),
            old(self).exact() ==> nested_commitment::<C, R>(
                old(self).params,
                r,
                old(self).bridge_query_rx->Some_0,
            ),
    {
        if let Some(c) = self.bridge_query_commitment {
            return c;
        }
        let settings = self.settings();
        let r = Self::commit_nested_with(
            self.params,
            settings,
            self.facade,
            &mut self.stats,
            self.bridge_query_rx.as_ref().unwrap(),
        );
        self.bridge_query_commitment = Some(r);
        r
    }

    /// What the evaluation bridge is derived from: its power of the shared alpha, and the
    /// commitments that it holds.
    pub fn bridge_eval_witness(&mut self) -> (r: (C::ScalarField, C::HostCurve))
        requires
            old(self).wf(),
            old(self).host_fits(),
            old(self).native_eval_rx is Some,
        ensures
            r.0.val() == pow(old(self).bridge_alpha.val(), bridge_power(CachedBridge::Eval))
                % C::ScalarField::modulus(),
            final(self).wf(),
            *final(self) == (ProofBuilder {
                native_eval_commitment: Some(r.1),
                stats: final(self).stats,
                ..*old(self)
            }),
            old(self).exact() ==> host_commitment::<C, R>(
                old(self).params,
                r.1,
                old(self).native_eval_rx->Some_0,
            ),
            old(self).host_step(
                old(self).native_eval_commitment,
                &old(self).native_eval_rx->Some_0,
                r.1,
                old(self).stats,
                final(self).stats,
            ),
    {
        let eval = self.native_eval_commitment();
        (self.bridge_alpha_power(CachedBridge::Eval), eval)
    }

    /// Stores the derived evaluation bridge, which must not have been stored.
    pub fn set_bridge_eval_rx(&mut self, v: Polynomial<C::ScalarField, R>)
        requires
            old(self).wf(),
            old(self).bridge_eval_rx is None,
            v.wf(),
        ensures
            final(self).wf(),
            *final(self) == (ProofBuilder { bridge_eval_rx: Some(v), ..*old(self) }),
    {
        self.bridge_eval_rx = Some(v);
    }

    /// The derived evaluation bridge, which must have been stored.
    pub fn bridge_eval_rx(&self) -> (r: &Polynomial<C::ScalarField, R>)
        requires
            self.bridge_eval_rx is Some,
        ensures
            *r == self.bridge_eval_rx->Some_0,
    {
        self.bridge_eval_rx.as_ref().unwrap()
    }

    /// The commitment to the derived evaluation bridge, which must have been stored. It is
    /// computed once.
    pub fn bridge_eval_commitment(&mut self) -> (r: C::NestedCurve)
        requires
            old(self).wf(),
            old(self).nested_fits(),
            old(self).bridge_eval_rx is Some,
        ensures
            final(self).wf(),
            *final(self) == (ProofBuilder {
                bridge_eval_commitment: Some(r),
                stats: final(self).stats,
                ..*old(self)
            }),
            old(self).nested_step(
                old(self).bridge_eval_commitment,
                &old(self).bridge_eval_rx->Some_0,
                r,
                old(self).stats,
                final(self).stats,
            ),
            old(self).exact() ==> nested_commitment::<C, R>(
                old(self).params,
                r,
                old(self).bridge_eval_rx->Some_0,
            ),
    {
        if let Some(c) = self.bridge_eval_commitment {
            return c;
        }
        let settings = self.settings();
        let r = Self::commit_nested_with(
            self.params,
            settings,
            self.facade,
            &mut self.stats,
            self.bridge_eval_rx.as_ref().unwrap(),
        );
        self.bridge_eval_commitment = Some(r);
        r
    }

    /// Stores the polynomials of the endoscaling steps, which must not have been stored.
    pub fn set_nested_endoscaling_step_rxs(&mut self, v: Vec<Polynomial<C::ScalarField, R>>)
        requires
            old(self).wf(),
            old(self).nested_endoscaling_step_rxs is None,
            forall|i: int| 0 <= i < v.len() ==> (#[trigger] v@[i]).wf(),
        ensures
            final(self).wf(),
            *final(self) == (ProofBuilder { nested_endoscaling_step_rxs: Some(v), ..*old(self) }),
    {
        self.nested_endoscaling_step_rxs = Some(v);
    }

    /// Stores the polynomial of the endoscalar, which must not have been stored.
    pub fn set_nested_endoscalar_rx(&mut self, v: Polynomial<C::ScalarField, R>)
        requires
            old(self).wf(),
            old(self).nested_endoscalar_rx is None,
            v.wf(),
        ensures
            final(self).wf(),
            *final(self) == (ProofBuilder { nested_endoscalar_rx: Some(v), ..*old(self) }),
    {
        self.nested_endoscalar_rx = Some(v);
    }

    /// Stores the polynomial of the points, which must not have been stored.
    pub fn set_nested_points_rx(&mut self, v: Polynomial<C::ScalarField, R>)
        requires
            old(self).wf(),
            old(self).nested_points_rx is None,
            v.wf(),
        ensures
            final(self).wf(),
            *final(self) == (ProofBuilder { nested_points_rx: Some(v), ..*old(self) }),
    {
        self.nested_points_rx = Some(v);
    }

    /// Computes the commitments to the polynomials of the endoscaling steps, which must have
    /// been stored, unless they are known.
    fn fill_endoscaling_step_commitments(&mut self)
        requires
            old(self).wf(),
            old(self).nested_fits(),
            old(self).nested_endoscaling_step_rxs is Some,
        ensures
            final(self).wf(),
            final(self).nested_endoscaling_step_commitments is Some,
            *final(self) == (ProofBuilder {
                nested_endoscaling_step_commitments:
                    final(self).nested_endoscaling_step_commitments,
                stats: final(self).stats,
                ..*old(self)
            }),
            old(self).nested_endoscaling_step_commitments is Some ==> *final(self) == *old(self),
            old(self).nested_endoscaling_step_commitments is None ==> old(self).nested_run(
                final(self).nested_endoscaling_step_commitments->Some_0@,
                old(self).nested_endoscaling_step_rxs->Some_0@,
                old(self).stats,
                final(self).stats,
            ),
    {
        if self.nested_endoscaling_step_commitments.is_some() {
            return;
        }
        let ghost before = *self;
        let rxs = self.nested_endoscaling_step_rxs.as_ref().unwrap();
        let mut stats: AccelMsmStats = self.stats;
        let ghost mut trace = seq![stats];
        let mut commitments: Vec<C::NestedCurve> = Vec::with_capacity(rxs.len());
        while commitments.len() < rxs.len()
            invariant
                *self == before,
                before.wf(),
                before.nested_fits(),
                before.nested_endoscaling_step_rxs == Some(*rxs),
                forall|i: int| 0 <= i < rxs.len() ==> (#[trigger] rxs@[i]).wf(),
                commitments.len() <= rxs.len(),
                trace.first() == before.stats,
                trace.last() == stats,
                nested_trace::<C, R, A>(
                    before.params,
                    before.settings_spec(),
                    before.facade,
                    commitments@,
                    rxs@.take(commitments.len() as int),
                    trace,
                ),
                before.exact() ==> forall|i: int|
                    0 <= i < commitments.len() ==> nested_commitment::<C, R>(
                        before.params,
                        #[trigger] commitments@[i],
                        rxs@[i],
                    ),
            decreases rxs.len() - commitments.len(),
        {
            let i: usize = commitments.len();
            let ghost (done, earlier) = (commitments@, trace);
            let c = Self::commit_nested_with(
                self.params,
                self.settings(),
                self.facade,
                &mut stats,
                &rxs[i],
            );
            commitments.push(c);
            proof {
                trace = trace.push(stats);
                let polys = rxs@.take(i + 1);
                assert forall|k: int| 0 <= k < commitments.len() implies nested_commits_with::<
                    C,
                    R,
                    A,
                >(
                    before.params,
                    before.settings_spec(),
                    before.facade,
                    (#[trigger] commitments@[k]).dlog(),
                    &polys[k],
                    trace[k],
                    trace[k + 1],
                ) by {
                    if k < i {
                        assert(commitments@[k] == done[k]);
                        assert(polys[k] == rxs@.take(i as int)[k]);
                        assert(trace[k] == earlier[k] && trace[k + 1] == earlier[k + 1]);
                    }
                }
            }
        }
        assert(rxs@.take(commitments.len() as int) =~= rxs@);
        self.stats = stats;
        self.nested_endoscaling_step_commitments = Some(commitments);
    }

    /// The commitments to the polynomials of the endoscaling steps, which must have been
    /// stored. They are computed once.
    pub fn nested_endoscaling_step_commitments(&mut self) -> (r: &[C::NestedCurve])
        requires
            old(self).wf(),
            old(self).nested_fits(),
            old(self).nested_endoscaling_step_rxs is Some,
        ensures
            final(self).wf(),
            final(self).nested_endoscaling_step_commitments is Some,
            r@ == final(self).nested_endoscaling_step_commitments->Some_0@,
            *final(self) == (ProofBuilder {
                nested_endoscaling_step_commitments:
                    final(self).nested_endoscaling_step_commitments,
                stats: final(self).stats,
                ..*old(self)
            }),
            old(self).nested_endoscaling_step_commitments is Some ==> *final(self) == *old(self),
            old(self).nested_endoscaling_step_commitments is None ==> old(self).nested_run(
                final(self).nested_endoscaling_step_commitments->Some_0@,
                old(self).nested_endoscaling_step_rxs->Some_0@,
                old(self).stats,
                final(self).stats,
            ),
            r.len() == old(self).nested_endoscaling_step_rxs->Some_0.len(),
            old(self).exact() ==> nested_commitments::<C, R>(
                old(self).params,
                r@,
                old(self).nested_endoscaling_step_rxs->Some_0@,
            ),
    {
        self.fill_endoscaling_step_commitments();
        self.nested_endoscaling_step_commitments.as_ref().unwrap().as_slice()
    }

    /// The commitment to the polynomial of the endoscalar, which must have been stored. It is
    /// computed once.
    pub fn nested_endoscalar_commitment(&mut self) -> (r: C::NestedCurve)
        requires
            old(self).wf(),
            old(self).nested_fits(),
            old(self).nested_endoscalar_rx is Some,
        ensures
            final(self).wf(),
            *final(self) == (ProofBuilder {
                nested_endoscalar_commitment: Some(r),
                stats: final(self).stats,
                ..*old(self)
            }),
            old(self).nested_step(
                old(self).nested_endoscalar_commitment,
                &old(self).nested_endoscalar_rx->Some_0,
                r,
                old(self).stats,
                final(self).stats,
            ),
            old(self).exact() ==> nested_commitment::<C, R>(
                old(self).params,
                r,
                old(self).nested_endoscalar_rx->Some_0,
            ),
    {
        if let Some(c) = self.nested_endoscalar_commitment {
            return c;
        }
        let settings = self.settings();
        let r = Self::commit_nested_with(
            self.params,
            settings,
            self.facade,
            &mut self.stats,
            self.nested_endoscalar_rx.as_ref().unwrap(),
        );
        self.nested_endoscalar_commitment = Some(r);
        r
    }

    /// The commitment to the polynomial of the points, which must have been stored. It is
    /// computed once.
    pub fn nested_points_commitment(&mut self) -> (r: C::NestedCurve)
        requires
            old(self).wf(),
            old(self).nested_fits(),
            old(self).nested_points_rx is Some,
        ensures
            final(self).wf(),
            *final(self) == (ProofBuilder {
                nested_points_commitment: Some(r),
                stats: final(self).stats,
                ..*old(self)
            }),
            old(self).nested_step(
                old(self).nested_points_commitment,
                &old(self).nested_points_rx->Some_0,
                r,
                old(self).stats,
                final(self).stats,
            ),
            old(self).exact() ==> nested_commitment::<C, R>(
                old(self).params,
                r,
                old(self).nested_points_rx->Some_0,
            ),
    {
        if let Some(c) = self.nested_points_commitment {
            return c;
        }
        let settings = self.settings();
        let r = Self::commit_nested_with(
            self.params,
            settings,
            self.facade,
            &mut self.stats,
            self.nested_points_rx.as_ref().unwrap(),
        );
        self.nested_points_commitment = Some(r);
        r
    }

    /// Stores the challenge `w`, which must not have been stored.
    pub fn set_w(&mut self, v: C::CircuitField)
        requires
            old(self).wf(),
            old(self).w is None,
        ensures
            final(self).wf(),
            *final(self) == (ProofBuilder { w: Some(v), ..*old(self) }),
    {
        self.w = Some(v);
    }

    /// Stores the challenge `y`, which must not have been stored.
    pub fn set_y(&mut self, v: C::CircuitField)
        requires
            old(self).wf(),
            old(self).y is None,
        ensures
            final(self).wf(),
            *final(self) == (ProofBuilder { y: Some(v), ..*old(self) }),
    {
        self.y = Some(v);
    }

    /// Stores the challenge `z`, which must not have been stored.
    pub fn set_z(&mut self, v: C::CircuitField)
        requires
            old(self).wf(),
            old(self).z is None,
        ensures
            final(self).wf(),
            *final(self) == (ProofBuilder { z: Some(v), ..*old(self) }),
    {
        self.z = Some(v);
    }

    /// Stores the challenge `mu`, which must not have been stored.
    pub fn set_mu(&mut self, v: C::CircuitField)
        requires
            old(self).wf(),
            old(self).mu is None,
        ensures
            final(self).wf(),
            *final(self) == (ProofBuilder { mu: Some(v), ..*old(self) }),
    {
        self.mu = Some(v);
    }

    /// Stores the challenge `nu`, which must not have been stored.
    pub fn set_nu(&mut self, v: C::CircuitField)
        requires
            old(self).wf(),
            old(self).nu is None,
        ensures
            final(self).wf(),
            *final(self) == (ProofBuilder { nu: Some(v), ..*old(self) }),
    {
        self.nu = Some(v);
    }

    /// Stores the challenge `mu_prime`, which must not have been stored.
    pub fn set_mu_prime(&mut self, v: C::CircuitField)
        requires
            old(self).wf(),
            old(self).mu_prime is None,
        ensures
            final(self).wf(),
            *final(self) == (ProofBuilder { mu_prime: Some(v), ..*old(self) }),
    {
        self.mu_prime = Some(v);
    }

    /// Stores the challenge `nu_prime`, which must not have been stored.
    pub fn set_nu_prime(&mut self, v: C::CircuitField)
        requires
            old(self).wf(),
            old(self).nu_prime is None,
        ensures
            final(self).wf(),
            *final(self) == (ProofBuilder { nu_prime: Some(v), ..*old(self) }),
    {
        self.nu_prime = Some(v);
    }

    /// Stores the challenge `x`, which must not have been stored.
    pub fn set_x(&mut self, v: C::CircuitField)
        requires
            old(self).wf(),
            old(self).x is None,
        ensures
            final(self).wf(),
            *final(self) == (ProofBuilder { x: Some(v), ..*old(self) }),
    {
        self.x = Some(v);
    }

    /// Stores the challenge `alpha`, which must not have been stored.
    pub fn set_alpha(&mut self, v: C::CircuitField)
        requires
            old(self).wf(),
            old(self).alpha is None,
        ensures
            final(self).wf(),
            *final(self) == (ProofBuilder { alpha: Some(v), ..*old(self) }),
    {
        self.alpha = Some(v);
    }

    /// Stores the challenge `u`, which must not have been stored.
    pub fn set_u(&mut self, v: C::CircuitField)
        requires
            old(self).wf(),
            old(self).u is None,
        ensures
            final(self).wf(),
            *final(self) == (ProofBuilder { u: Some(v), ..*old(self) }),
    {
        self.u = Some(v);
    }

    /// Stores the challenge `pre_beta`, which must not have been stored.
    pub fn set_pre_beta(&mut self, v: C::CircuitField)
        requires
            old(self).wf(),
            old(self).pre_beta is None,
        ensures
            final(self).wf(),
            *final(self) == (ProofBuilder { pre_beta: Some(v), ..*old(self) }),
    {
        self.pre_beta = Some(v);
    }

    /// Stores the stage polynomials of the left child, which must not have been stored.
    pub fn set_child_left_stage_rx(&mut self, v: ChildStageRx<C::ScalarField, R>)
        requires
            old(self).wf(),
            old(self).child_left_stage_rx is None,
        ensures
            final(self).wf(),
            *final(self) == (ProofBuilder { child_left_stage_rx: Some(v), ..*old(self) }),
    {
        self.child_left_stage_rx = Some(v);
    }

    /// Stores the stage polynomials of the right child, which must not have been stored.
    pub fn set_child_right_stage_rx(&mut self, v: ChildStageRx<C::ScalarField, R>)
        requires
            old(self).wf(),
            old(self).child_right_stage_rx is None,
        ensures
            final(self).wf(),
            *final(self) == (ProofBuilder { child_right_stage_rx: Some(v), ..*old(self) }),
    {
        self.child_right_stage_rx = Some(v);
    }

    /// The challenge `w`, which must have been stored.
    pub fn w(&self) -> (r: C::CircuitField)
        requires
            self.w is Some,
        ensures
            r == self.w->Some_0,
    {
        self.w.unwrap()
    }

    /// The challenge `y`, which must have been stored.
    pub fn y(&self) -> (r: C::CircuitField)
        requires
            self.y is Some,
        ensures
            r == self.y->Some_0,
    {
        self.y.unwrap()
    }

    /// The challenge `z`, which must have been stored.
    pub fn z(&self) -> (r: C::CircuitField)
        requires
            self.z is Some,
        ensures
            r == self.z->Some_0,
    {
        self.z.unwrap()
    }

    /// The challenge `mu`, which must have been stored.
    pub fn mu(&self) -> (r: C::CircuitField)
        requires
            self.mu is Some,
        ensures
            r == self.mu->Some_0,
    {
        self.mu.unwrap()
    }

    /// The challenge `nu`, which must have been stored.
    pub fn nu(&self) -> (r: C::CircuitField)
        requires
            self.nu is Some,
        ensures
            r == self.nu->Some_0,
    {
        self.nu.unwrap()
    }

    /// The challenge `mu_prime`, which must have been stored.
    pub fn mu_prime(&self) -> (r: C::CircuitField)
        requires
            self.mu_prime is Some,
        ensures
            r == self.mu_prime->Some_0,
    {
        self.mu_prime.unwrap()
    }

    /// The challenge `nu_prime`, which must have been stored.
    pub fn nu_prime(&self) -> (r: C::CircuitField)
        requires
            self.nu_prime is Some,
        ensures
            r == self.nu_prime->Some_0,
    {
        self.nu_prime.unwrap()
    }

    /// The challenge `x`, which must have been stored.
    pub fn x(&self) -> (r: C::CircuitField)
        requires
            self.x is Some,
        ensures
            r == self.x->Some_0,
    {
        self.x.unwrap()
    }

    /// The challenge `alpha`, which must have been stored.
    pub fn alpha(&self) -> (r: C::CircuitField)
        requires
            self.alpha is Some,
        ensures
            r == self.alpha->Some_0,
    {
        self.alpha.unwrap()
    }

    /// The challenge `u`, which must have been stored.
    pub fn u(&self) -> (r: C::CircuitField)
        requires
            self.u is Some,
        ensures
            r == self.u->Some_0,
    {
        self.u.unwrap()
    }

    /// The challenge `pre_beta`, which must have been stored.
    pub fn pre_beta(&self) -> (r: C::CircuitField)
        requires
            self.pre_beta is Some,
        ensures
            r == self.pre_beta->Some_0,
    {
        self.pre_beta.unwrap()
    }

    /// The inner product of the first folded polynomial and the reversal of the second.
    pub fn c(&self) -> (r: C::CircuitField)
        requires
            self.wf(),
            self.native_a_poly is Some,
            self.native_b_poly is Some,
        ensures
            r.val() == poly::revdot(self.native_a_poly->Some_0@, self.native_b_poly->Some_0@)
                % C::CircuitField::modulus(),
            self.claims_c(r.val()),
    {
        self.native_a_poly().revdot(self.native_b_poly())
    }

    /// The value that the final polynomial is claimed to have at `u`, if both are known.
    pub open spec fn claims_v(&self, v: int) -> bool {
        match (self.native_p_poly, self.u) {
            (Some(p), Some(u)) => v == poly::eval(p@, u.val()) % C::CircuitField::modulus(),
            _ => false,
        }
    }

    /// The inner product that is claimed of the folded polynomials, if both are known.
    pub open spec fn claims_c(&self, c: int) -> bool {
        match (self.native_a_poly, self.native_b_poly) {
            (Some(a), Some(b)) => c == poly::revdot(a@, b@) % C::CircuitField::modulus(),
            _ => false,
        }
    }

    /// The value of the final polynomial at `u`.
    pub fn v(&self) -> (r: C::CircuitField)
        requires
            self.wf(),
            self.native_p_poly is Some,
            self.u is Some,
        ensures
            r.val() == poly::eval(self.native_p_poly->Some_0@, self.u->Some_0.val())
                % C::CircuitField::modulus(),
            self.claims_v(r.val()),
    {
        self.native_p_poly().eval(self.u())
    }

    /// Everything that is not computed from something else has been stored.
    pub open spec fn complete(&self) -> bool {
        &&& self.circuit_id is Some
        &&& self.left_header is Some
        &&& self.right_header is Some
        &&& self.native_application_rx is Some
        &&& self.native_preamble_rx is Some
        &&& self.native_inner_error_rx is Some
        &&& self.native_outer_error_rx is Some
        &&& self.native_a_poly is Some
        &&& self.native_b_poly is Some
        &&& self.native_query_rx is Some
        &&& self.native_registry_xy_poly is Some
        &&& self.native_eval_rx is Some
        &&& self.native_p_poly is Some
        &&& self.native_hashes_1_rx is Some
        &&& self.native_hashes_2_rx is Some
        &&& self.native_inner_collapse_rx is Some
        &&& self.native_outer_collapse_rx is Some
        &&& self.native_compute_v_rx is Some
        &&& self.bridge_preamble_rx is Some
        &&& self.bridge_s_prime_rx is Some
        &&& self.bridge_inner_error_rx is Some
        &&& self.bridge_f_rx is Some
        &&& self.bridge_outer_error_rx is Some
        &&& self.bridge_ab_rx is Some
        &&& self.bridge_query_rx is Some
        &&& self.bridge_eval_rx is Some
        &&& self.nested_endoscaling_step_rxs is Some
        &&& self.nested_endoscalar_rx is Some
        &&& self.nested_points_rx is Some
        &&& self.w is Some
        &&& self.y is Some
        &&& self.z is Some
        &&& self.mu is Some
        &&& self.nu is Some
        &&& self.mu_prime is Some
        &&& self.nu_prime is Some
        &&& self.x is Some
        &&& self.alpha is Some
        &&& self.u is Some
        &&& self.pre_beta is Some
        &&& self.child_left_stage_rx is Some
        &&& self.child_right_stage_rx is Some
    }

    /// The builder is `before`, but for commitments that it did not hold.
    pub open spec fn filled_from(&self, before: &Self) -> bool {
        &&& *self == (ProofBuilder {
            native_application_commitment: self.native_application_commitment,
            native_preamble_commitment: self.native_preamble_commitment,
            native_inner_error_commitment: self.native_inner_error_commitment,
            native_outer_error_commitment: self.native_outer_error_commitment,
            native_query_commitment: self.native_query_commitment,
            native_registry_xy_commitment: self.native_registry_xy_commitment,
            native_eval_commitment: self.native_eval_commitment,
            native_hashes_1_commitment: self.native_hashes_1_commitment,
            native_hashes_2_commitment: self.native_hashes_2_commitment,
            native_inner_collapse_commitment: self.native_inner_collapse_commitment,
            native_outer_collapse_commitment: self.native_outer_collapse_commitment,
            native_compute_v_commitment: self.native_compute_v_commitment,
            bridge_outer_error_commitment: self.bridge_outer_error_commitment,
            bridge_ab_commitment: self.bridge_ab_commitment,
            bridge_query_commitment: self.bridge_query_commitment,
            bridge_eval_commitment: self.bridge_eval_commitment,
            nested_endoscaling_step_commitments: self.nested_endoscaling_step_commitments,
            nested_endoscalar_commitment: self.nested_endoscalar_commitment,
            nested_points_commitment: self.nested_points_commitment,
            stats: self.stats,
            ..*before
        })
        &&& before.native_application_commitment is Some
            ==> self.native_application_commitment == before.native_application_commitment
        &&& before.native_preamble_commitment is Some
            ==> self.native_preamble_commitment == before.native_preamble_commitment
        &&& before.native_inner_error_commitment is Some
            ==> self.native_inner_error_commitment == before.native_inner_error_commitment
        &&& before.native_outer_error_commitment is Some
            ==> self.native_outer_error_commitment == before.native_outer_error_commitment
        &&& before.native_query_commitment is Some
            ==> self.native_query_commitment == before.native_query_commitment
        &&& before.native_registry_xy_commitment is Some
            ==> self.native_registry_xy_commitment == before.native_registry_xy_commitment
        &&& before.native_eval_commitment is Some
            ==> self.native_eval_commitment == before.native_eval_commitment
        &&& before.native_hashes_1_commitment is Some
            ==> self.native_hashes_1_commitment == before.native_hashes_1_commitment
        &&& before.native_hashes_2_commitment is Some
            ==> self.native_hashes_2_commitment == before.native_hashes_2_commitment
        &&& before.native_inner_collapse_commitment is Some
            ==> self.native_inner_collapse_commitment == before.native_inner_collapse_commitment
        &&& before.native_outer_collapse_commitment is Some
            ==> self.native_outer_collapse_commitment == before.native_outer_collapse_commitment
        &&& before.native_compute_v_commitment is Some
            ==> self.native_compute_v_commitment == before.native_compute_v_commitment
        &&& before.bridge_outer_error_commitment is Some
            ==> self.bridge_outer_error_commitment == before.bridge_outer_error_commitment
        &&& before.bridge_ab_commitment is Some
            ==> self.bridge_ab_commitment == before.bridge_ab_commitment
        &&& before.bridge_query_commitment is Some
            ==> self.bridge_query_commitment == before.bridge_query_commitment
        &&& before.bridge_eval_commitment is Some
            ==> self.bridge_eval_commitment == before.bridge_eval_commitment
        &&& before.nested_endoscaling_step_commitments is Some
            ==> self.nested_endoscaling_step_commitments
            == before.nested_endoscaling_step_commitments
        &&& before.nested_endoscalar_commitment is Some
            ==> self.nested_endoscalar_commitment == before.nested_endoscalar_commitment
        &&& before.nested_points_commitment is Some
            ==> self.nested_points_commitment == before.nested_points_commitment
    }

    /// Computes the commitments to the polynomials over the circuit field that are not known.
    /// What it returns are the counters before and after each.
    fn fill_native(&mut self) -> (t: Ghost<Seq<AccelMsmStats>>)
        requires
            old(self).wf(),
            old(self).host_fits(),
            old(self).complete(),
        ensures
            final(self).wf(),
            final(self).filled_from(old(self)),
            t@.len() == 13,
            t@[0] == old(self).stats,
            t@[12] == final(self).stats,
            final(self).bridge_outer_error_commitment == old(self).bridge_outer_error_commitment,
            final(self).bridge_ab_commitment == old(self).bridge_ab_commitment,
            final(self).bridge_query_commitment == old(self).bridge_query_commitment,
            final(self).bridge_eval_commitment == old(self).bridge_eval_commitment,
            final(self).nested_endoscaling_step_commitments
                == old(self).nested_endoscaling_step_commitments,
            final(self).nested_endoscalar_commitment == old(self).nested_endoscalar_commitment,
            final(self).nested_points_commitment == old(self).nested_points_commitment,
            final(self).native_application_commitment is Some,
            old(self).host_step(
                old(self).native_application_commitment,
                &old(self).native_application_rx->Some_0,
                final(self).native_application_commitment->Some_0,
                t@[0],
                t@[1],
            ),
            final(self).native_preamble_commitment is Some,
            old(self).host_step(
                old(self).native_preamble_commitment,
                &old(self).native_preamble_rx->Some_0,
                final(self).native_preamble_commitment->Some_0,
                t@[1],
                t@[2],
            ),
            final(self).native_inner_error_commitment is Some,
            old(self).host_step(
                old(self).native_inner_error_commitment,
                &old(self).native_inner_error_rx->Some_0,
                final(self).native_inner_error_commitment->Some_0,
                t@[2],
                t@[3],
            ),
            final(self).native_outer_error_commitment is Some,
            old(self).host_step(
                old(self).native_outer_error_commitment,
                &old(self).native_outer_error_rx->Some_0,
                final(self).native_outer_error_commitment->Some_0,
                t@[3],
                t@[4],
            ),
            final(self).native_query_commitment is Some,
            old(self).host_step(
                old(self).native_query_commitment,
                &old(self).native_query_rx->Some_0,
                final(self).native_query_commitment->Some_0,
                t@[4],
                t@[5],
            ),
            final(self).native_registry_xy_commitment is Some,
            old(self).host_step(
                old(self).native_registry_xy_commitment,
                &old(self).native_registry_xy_poly->Some_0,
                final(self).native_registry_xy_commitment->Some_0,
                t@[5],
                t@[6],
            ),
            final(self).native_eval_commitment is Some,
            old(self).host_step(
                old(self).native_eval_commitment,
                &old(self).native_eval_rx->Some_0,
                final(self).native_eval_commitment->Some_0,
                t@[6],
                t@[7],
            ),
            final(self).native_hashes_1_commitment is Some,
            old(self).host_step(
                old(self).native_hashes_1_commitment,
                &old(self).native_hashes_1_rx->Some_0,
                final(self).native_hashes_1_commitment->Some_0,
                t@[7],
                t@[8],
            ),
            final(self).native_hashes_2_commitment is Some,
            old(self).host_step(
                old(self).native_hashes_2_commitment,
                &old(self).native_hashes_2_rx->Some_0,
                final(self).native_hashes_2_commitment->Some_0,
                t@[8],
                t@[9],
            ),
            final(self).native_inner_collapse_commitment is Some,
            old(self).host_step(
                old(self).native_inner_collapse_commitment,
                &old(self).native_inner_collapse_rx->Some_0,
                final(self).native_inner_collapse_commitment->Some_0,
                t@[9],
                t@[10],
            ),
            final(self).native_outer_collapse_commitment is Some,
            old(self).host_step(
                old(self).native_outer_collapse_commitment,
                &old(self).native_outer_collapse_rx->Some_0,
                final(self).native_outer_collapse_commitment->Some_0,
                t@[10],
                t@[11],
            ),
            final(self).native_compute_v_commitment is Some,
            old(self).host_step(
                old(self).native_compute_v_commitment,
                &old(self).native_compute_v_rx->Some_0,
                final(self).native_compute_v_commitment->Some_0,
                t@[11],
                t@[12],
            ),
    {
        let ghost mut t = seq![self.stats];
        let _ = self.native_application_commitment();
        proof {
            t = t.push(self.stats);
        }
        let _ = self.native_preamble_commitment();
        proof {
            t = t.push(self.stats);
        }
        let _ = self.native_inner_error_commitment();
        proof {
            t = t.push(self.stats);
        }
        let _ = self.native_outer_error_commitment();
        proof {
            t = t.push(self.stats);
        }
        let _ = self.native_query_commitment();
        proof {
            t = t.push(self.stats);
        }
        let _ = self.native_registry_xy_commitment();
        proof {
            t = t.push(self.stats);
        }
        let _ = self.native_eval_commitment();
        proof {
            t = t.push(self.stats);
        }
        let _ = self.native_hashes_1_commitment();
        proof {
            t = t.push(self.stats);
        }
        let _ = self.native_hashes_2_commitment();
        proof {
            t = t.push(self.stats);
        }
        let _ = self.native_inner_collapse_commitment();
        proof {
            t = t.push(self.stats);
        }
        let _ = self.native_outer_collapse_commitment();
        proof {
            t = t.push(self.stats);
        }
        let _ = self.native_compute_v_commitment();
        proof {
            t = t.push(self.stats);
        }
        Ghost(t)
    }

    /// Computes the commitments to the polynomials over the other field that are not known.
    /// What it returns are the counters before and after each.
    fn fill_nested(&mut self) -> (t: Ghost<Seq<AccelMsmStats>>)
        requires
            old(self).wf(),
            old(self).nested_fits(),
            old(self).complete(),
        ensures
            final(self).wf(),
            final(self).filled_from(old(self)),
            t@.len() == 8,
            t@[0] == old(self).stats,
            t@[7] == final(self).stats,
            final(self).native_application_commitment == old(self).native_application_commitment,
            final(self).native_preamble_commitment == old(self).native_preamble_commitment,
            final(self).native_inner_error_commitment == old(self).native_inner_error_commitment,
            final(self).native_outer_error_commitment == old(self).native_outer_error_commitment,
            final(self).native_query_commitment == old(self).native_query_commitment,
            final(self).native_registry_xy_commitment == old(self).native_registry_xy_commitment,
            final(self).native_eval_commitment == old(self).native_eval_commitment,
            final(self).native_hashes_1_commitment == old(self).native_hashes_1_commitment,
            final(self).native_hashes_2_commitment == old(self).native_hashes_2_commitment,
            final(self).native_inner_collapse_commitment
                == old(self).native_inner_collapse_commitment,
            final(self).native_outer_collapse_commitment
                == old(self).native_outer_collapse_commitment,
            final(self).native_compute_v_commitment == old(self).native_compute_v_commitment,
            final(self).bridge_outer_error_commitment is Some,
            old(self).nested_step(
                old(self).bridge_outer_error_commitment,
                &old(self).bridge_outer_error_rx->Some_0,
                final(self).bridge_outer_error_commitment->Some_0,
                t@[0],
                t@[1],
            ),
            final(self).bridge_ab_commitment is Some,
            old(self).nested_step(
                old(self).bridge_ab_commitment,
                &old(self).bridge_ab_rx->Some_0,
                final(self).bridge_ab_commitment->Some_0,
                t@[1],
                t@[2],
            ),
            final(self).bridge_query_commitment is Some,
            old(self).nested_step(
                old(self).bridge_query_commitment,
                &old(self).bridge_query_rx->Some_0,
                final(self).bridge_query_commitment->Some_0,
                t@[2],
                t@[3],
            ),
            final(self).bridge_eval_commitment is Some,
            old(self).nested_step(
                old(self).bridge_eval_commitment,
                &old(self).bridge_eval_rx->Some_0,
                final(self).bridge_eval_commitment->Some_0,
                t@[3],
                t@[4],
            ),
            final(self).nested_endoscaling_step_commitments is Some,
            old(self).nested_steps(
                old(self).nested_endoscaling_step_commitments,
                old(self).nested_endoscaling_step_rxs->Some_0@,
                final(self).nested_endoscaling_step_commitments->Some_0@,
                t@[4],
                t@[5],
            ),
            final(self).nested_endoscalar_commitment is Some,
            old(self).nested_step(
                old(self).nested_endoscalar_commitment,
                &old(self).nested_endoscalar_rx->Some_0,
                final(self).nested_endoscalar_commitment->Some_0,
                t@[5],
                t@[6],
            ),
            final(self).nested_points_commitment is Some,
            old(self).nested_step(
                old(self).nested_points_commitment,
                &old(self).nested_points_rx->Some_0,
                final(self).nested_points_commitment->Some_0,
                t@[6],
                t@[7],
            ),
    {
        let ghost mut t = seq![self.stats];
        let _ = self.bridge_outer_error_commitment();
        proof {
            t = t.push(self.stats);
        }
        let _ = self.bridge_ab_commitment();
        proof {
            t = t.push(self.stats);
        }
        let _ = self.bridge_query_commitment();
        proof {
            t = t.push(self.stats);
        }
        let _ = self.bridge_eval_commitment();
        proof {
            t = t.push(self.stats);
        }
        self.fill_endoscaling_step_commitments();
        proof {
            t = t.push(self.stats);
        }
        let _ = self.nested_endoscalar_commitment();
        proof {
            t = t.push(self.stats);
        }
        let _ = self.nested_points_commitment();
        proof {
            t = t.push(self.stats);
        }
        Ghost(t)
    }

    /// The proof holds the commitments that the builder gives one after the other, and the
    /// counters go through `t`.
    pub open spec fn build_trace(&self, proof: Proof<C, R>, t: Seq<AccelMsmStats>) -> bool {
        &&& t.len() == 20
        &&& self.host_step(
            self.native_application_commitment,
            &self.native_application_rx->Some_0,
            proof.native_application_commitment.0,
            t[0],
            t[1],
        )
        &&& self.host_step(
            self.native_preamble_commitment,
            &self.native_preamble_rx->Some_0,
            proof.native_preamble_commitment.0,
            t[1],
            t[2],
        )
        &&& self.host_step(
            self.native_inner_error_commitment,
            &self.native_inner_error_rx->Some_0,
            proof.native_inner_error_commitment.0,
            t[2],
            t[3],
        )
        &&& self.host_step(
            self.native_outer_error_commitment,
            &self.native_outer_error_rx->Some_0,
            proof.native_outer_error_commitment.0,
            t[3],
            t[4],
        )
        &&& self.host_step(
            self.native_query_commitment,
            &self.native_query_rx->Some_0,
            proof.native_query_commitment.0,
            t[4],
            t[5],
        )
        &&& self.host_step(
            self.native_registry_xy_commitment,
            &self.native_registry_xy_poly->Some_0,
            proof.native_registry_xy_commitment.0,
            t[5],
            t[6],
        )
        &&& self.host_step(
            self.native_eval_commitment,
            &self.native_eval_rx->Some_0,
            proof.native_eval_commitment.0,
            t[6],
            t[7],
        )
        &&& self.host_step(
            self.native_hashes_1_commitment,
            &self.native_hashes_1_rx->Some_0,
            proof.native_hashes_1_commitment.0,
            t[7],
            t[8],
        )
        &&& self.host_step(
            self.native_hashes_2_commitment,
            &self.native_hashes_2_rx->Some_0,
            proof.native_hashes_2_commitment.0,
            t[8],
            t[9],
        )
        &&& self.host_step(
            self.native_inner_collapse_commitment,
            &self.native_inner_collapse_rx->Some_0,
            proof.native_inner_collapse_commitment.0,
            t[9],
            t[10],
        )
        &&& self.host_step(
            self.native_outer_collapse_commitment,
            &self.native_outer_collapse_rx->Some_0,
            proof.native_outer_collapse_commitment.0,
            t[10],
            t[11],
        )
        &&& self.host_step(
            self.native_compute_v_commitment,
            &self.native_compute_v_rx->Some_0,
            proof.native_compute_v_commitment.0,
            t[11],
            t[12],
        )
        &&& self.nested_step(
            self.bridge_outer_error_commitment,
            &self.bridge_outer_error_rx->Some_0,
            proof.bridge_outer_error_commitment.0,
            t[12],
            t[13],
        )
        &&& self.nested_step(
            self.bridge_ab_commitment,
            &self.bridge_ab_rx->Some_0,
            proof.bridge_ab_commitment.0,
            t[13],
            t[14],
        )
        &&& self.nested_step(
            self.bridge_query_commitment,
            &self.bridge_query_rx->Some_0,
            proof.bridge_query_commitment.0,
            t[14],
            t[15],
        )
        &&& self.nested_step(
            self.bridge_eval_commitment,
            &self.bridge_eval_rx->Some_0,
            proof.bridge_eval_commitment.0,
            t[15],
            t[16],
        )
        &&& self.nested_steps(
            self.nested_endoscaling_step_commitments,
            self.nested_endoscaling_step_rxs->Some_0@,
            proof.nested_endoscaling_step_commitments@.map_values(
                |c: Cached<C::NestedCurve>| c.0,
            ),
            t[16],
            t[17],
        )
        &&& self.nested_step(
            self.nested_endoscalar_commitment,
            &self.nested_endoscalar_rx->Some_0,
            proof.nested_endoscalar_commitment.0,
            t[17],
            t[18],
        )
        &&& self.nested_step(
            self.nested_points_commitment,
            &self.nested_points_rx->Some_0,
            proof.nested_points_commitment.0,
            t[18],
            t[19],
        )
    }

    /// The proof holds the commitments that the builder gives one after the other, which
    /// leaves the counters at `after`.
    pub open spec fn builds(&self, proof: Proof<C, R>, after: AccelMsmStats) -> bool {
        exists|t: Seq<AccelMsmStats>|
            #[trigger] self.build_trace(proof, t) && t.first() == self.stats && t.last() == after
    }

    /// The proof holds what has been stored.
    pub open spec fn kept_in(&self, proof: Proof<C, R>) -> bool {
        &&& proof.bridge_alpha == self.bridge_alpha
        &&& Some(proof.circuit_id) == self.circuit_id
        &&& Some(proof.left_header) == self.left_header
        &&& Some(proof.right_header) == self.right_header
        &&& Some(proof.native_application_rx) == self.native_application_rx
        &&& Some(proof.native_preamble_rx) == self.native_preamble_rx
        &&& Some(proof.native_inner_error_rx) == self.native_inner_error_rx
        &&& Some(proof.native_outer_error_rx) == self.native_outer_error_rx
        &&& Some(proof.native_a_poly) == self.native_a_poly
        &&& Some(proof.native_b_poly) == self.native_b_poly
        &&& Some(proof.native_query_rx) == self.native_query_rx
        &&& Some(proof.native_registry_xy_poly) == self.native_registry_xy_poly
        &&& Some(proof.native_eval_rx) == self.native_eval_rx
        &&& Some(proof.native_p_poly) == self.native_p_poly
        &&& Some(proof.native_hashes_1_rx) == self.native_hashes_1_rx
        &&& Some(proof.native_hashes_2_rx) == self.native_hashes_2_rx
        &&& Some(proof.native_inner_collapse_rx) == self.native_inner_collapse_rx
        &&& Some(proof.native_outer_collapse_rx) == self.native_outer_collapse_rx
        &&& Some(proof.native_compute_v_rx) == self.native_compute_v_rx
        &&& Some(proof.bridge_preamble_rx) == self.bridge_preamble_rx
        &&& Some(proof.bridge_preamble_commitment) == self.bridge_preamble_commitment
        &&& Some(proof.bridge_s_prime_rx) == self.bridge_s_prime_rx
        &&& Some(proof.bridge_s_prime_commitment) == self.bridge_s_prime_commitment
        &&& Some(proof.bridge_inner_error_rx) == self.bridge_inner_error_rx
        &&& Some(proof.bridge_inner_error_commitment) == self.bridge_inner_error_commitment
        &&& Some(proof.bridge_f_rx) == self.bridge_f_rx
        &&& Some(proof.bridge_f_commitment) == self.bridge_f_commitment
        &&& Some(proof.nested_endoscaling_step_rxs) == self.nested_endoscaling_step_rxs
        &&& Some(proof.nested_endoscalar_rx) == self.nested_endoscalar_rx
        &&& Some(proof.nested_points_rx) == self.nested_points_rx
        &&& Some(proof.w) == self.w
        &&& Some(proof.y) == self.y
        &&& Some(proof.z) == self.z
        &&& Some(proof.mu) == self.mu
        &&& Some(proof.nu) == self.nu
        &&& Some(proof.mu_prime) == self.mu_prime
        &&& Some(proof.nu_prime) == self.nu_prime
        &&& Some(proof.x) == self.x
        &&& Some(proof.alpha) == self.alpha
        &&& Some(proof.u) == self.u
        &&& Some(proof.pre_beta) == self.pre_beta
        &&& Some(proof.child_left_stage_rx) == self.child_left_stage_rx
        &&& Some(proof.child_right_stage_rx) == self.child_right_stage_rx
        &&& Some(proof.bridge_outer_error_rx.0) == self.bridge_outer_error_rx
        &&& Some(proof.bridge_ab_rx.0) == self.bridge_ab_rx
        &&& Some(proof.bridge_query_rx.0) == self.bridge_query_rx
        &&& Some(proof.bridge_eval_rx.0) == self.bridge_eval_rx
        &&& Some(proof.native_a_commitment.0) == self.native_a_commitment
        &&& Some(proof.native_b_commitment.0) == self.native_b_commitment
        &&& Some(proof.native_p_commitment.0) == self.native_p_commitment
    }

    /// Where no accelerator gives results but true ones, what the builder gives is the
    /// commitment to the polynomial.
    pub proof fn lemma_host_step(
        &self,
        kept: Option<C::HostCurve>,
        poly: Polynomial<C::CircuitField, R>,
        c: C::HostCurve,
        before: AccelMsmStats,
        after: AccelMsmStats,
    )
        requires
            self.exact(),
            self.host_fits(),
            host_slot::<C, R>(self.params, true, Some(poly), kept),
            self.host_step(kept, &poly, c, before, after),
        ensures
            host_commitment::<C, R>(self.params, c, poly),
    {
        let bases = C::host(self.params).bases();
        commit::lemma_commitment_offer(poly.layout(), 4 * R::gates(), bases);
        if let Some(config) = self.settings_spec() {
            if kept is None {
                accel::lemma_truthful(
                    self.facade,
                    config,
                    commit::commitment_offer(poly.layout(), bases),
                    commit::commitment(poly@, bases),
                    c.dlog(),
                    before,
                    after,
                );
            }
        }
    }

    /// Where no accelerator gives results but true ones, what the builder gives is the
    /// commitment to the polynomial.
    pub proof fn lemma_nested_step(
        &self,
        kept: Option<C::NestedCurve>,
        poly: Polynomial<C::ScalarField, R>,
        c: C::NestedCurve,
        before: AccelMsmStats,
        after: AccelMsmStats,
    )
        requires
            self.exact(),
            self.nested_fits(),
            nested_slot::<C, R>(self.params, true, Some(poly), kept),
            self.nested_step(kept, &poly, c, before, after),
        ensures
            nested_commitment::<C, R>(self.params, c, poly),
    {
        let bases = C::nested(self.params).bases();
        commit::lemma_commitment_offer(poly.layout(), 4 * R::gates(), bases);
        if let Some(config) = self.settings_spec() {
            if kept is None {
                accel::lemma_truthful(
                    self.facade,
                    config,
                    commit::commitment_offer(poly.layout(), bases),
                    commit::commitment(poly@, bases),
                    c.dlog(),
                    before,
                    after,
                );
            }
        }
    }

    /// Where no accelerator gives results but true ones, each commitment of a built proof that
    /// can be computed from a polynomial is the commitment to it.
    pub proof fn lemma_built(&self, proof: Proof<C, R>, after: AccelMsmStats)
        requires
            self.wf(),
            self.exact(),
            self.host_fits(),
            self.nested_fits(),
            self.kept_in(proof),
            self.builds(proof, after),
        ensures
            proof.committed(self.params),
    {
        let t = choose|t: Seq<AccelMsmStats>|
            #[trigger] self.build_trace(proof, t) && t.first() == self.stats && t.last() == after;
        self.lemma_host_step(
            self.native_application_commitment,
            proof.native_application_rx,
            proof.native_application_commitment.0,
            t[0],
            t[1],
        );
        self.lemma_host_step(
            self.native_preamble_commitment,
            proof.native_preamble_rx,
            proof.native_preamble_commitment.0,
            t[1],
            t[2],
        );
        self.lemma_host_step(
            self.native_inner_error_commitment,
            proof.native_inner_error_rx,
            proof.native_inner_error_commitment.0,
            t[2],
            t[3],
        );
        self.lemma_host_step(
            self.native_outer_error_commitment,
            proof.native_outer_error_rx,
            proof.native_outer_error_commitment.0,
            t[3],
            t[4],
        );
        self.lemma_host_step(
            self.native_query_commitment,
            proof.native_query_rx,
            proof.native_query_commitment.0,
            t[4],
            t[5],
        );
        self.lemma_host_step(
            self.native_registry_xy_commitment,
            proof.native_registry_xy_poly,
            proof.native_registry_xy_commitment.0,
            t[5],
            t[6],
        );
        self.lemma_host_step(
            self.native_eval_commitment,
            proof.native_eval_rx,
            proof.native_eval_commitment.0,
            t[6],
            t[7],
        );
        self.lemma_host_step(
            self.native_hashes_1_commitment,
            proof.native_hashes_1_rx,
            proof.native_hashes_1_commitment.0,
            t[7],
            t[8],
        );
        self.lemma_host_step(
            self.native_hashes_2_commitment,
            proof.native_hashes_2_rx,
            proof.native_hashes_2_commitment.0,
            t[8],
            t[9],
        );
        self.lemma_host_step(
            self.native_inner_collapse_commitment,
            proof.native_inner_collapse_rx,
            proof.native_inner_collapse_commitment.0,
            t[9],
            t[10],
        );
        self.lemma_host_step(
            self.native_outer_collapse_commitment,
            proof.native_outer_collapse_rx,
            proof.native_outer_collapse_commitment.0,
            t[10],
            t[11],
        );
        self.lemma_host_step(
            self.native_compute_v_commitment,
            proof.native_compute_v_rx,
            proof.native_compute_v_commitment.0,
            t[11],
            t[12],
        );
        self.lemma_nested_step(
            self.bridge_outer_error_commitment,
            proof.bridge_outer_error_rx.0,
            proof.bridge_outer_error_commitment.0,
            t[12],
            t[13],
        );
        self.lemma_nested_step(
            self.bridge_ab_commitment,
            proof.bridge_ab_rx.0,
            proof.bridge_ab_commitment.0,
            t[13],
            t[14],
        );
        self.lemma_nested_step(
            self.bridge_query_commitment,
            proof.bridge_query_rx.0,
            proof.bridge_query_commitment.0,
            t[14],
            t[15],
        );
        self.lemma_nested_step(
            self.bridge_eval_commitment,
            proof.bridge_eval_rx.0,
            proof.bridge_eval_commitment.0,
            t[15],
            t[16],
        );
        self.lemma_nested_steps(proof, t[16], t[17]);
        self.lemma_nested_step(
            self.nested_endoscalar_commitment,
            proof.nested_endoscalar_rx,
            proof.nested_endoscalar_commitment.0,
            t[17],
            t[18],
        );
        self.lemma_nested_step(
            self.nested_points_commitment,
            proof.nested_points_rx,
            proof.nested_points_commitment.0,
            t[18],
            t[19],
        );
    }

    /// Where no accelerator gives results but true ones, the commitments to the endoscaling
    /// steps are those to their polynomials.
    proof fn lemma_nested_steps(
        &self,
        proof: Proof<C, R>,
        before: AccelMsmStats,
        after: AccelMsmStats,
    )
        requires
            self.wf(),
            self.exact(),
            self.nested_fits(),
            self.kept_in(proof),
            self.nested_steps(
                self.nested_endoscaling_step_commitments,
                self.nested_endoscaling_step_rxs->Some_0@,
                proof.nested_endoscaling_step_commitments@.map_values(
                    |c: Cached<C::NestedCurve>| c.0,
                ),
                before,
                after,
            ),
        ensures
            nested_commitments::<C, R>(
                self.params,
                proof.nested_endoscaling_step_commitments@.map_values(
                    |c: Cached<C::NestedCurve>| c.0,
                ),
                proof.nested_endoscaling_step_rxs@,
            ),
    {
        let cs = proof.nested_endoscaling_step_commitments@.map_values(
            |c: Cached<C::NestedCurve>| c.0,
        );
        let polys = proof.nested_endoscaling_step_rxs@;
        if self.nested_endoscaling_step_commitments is None {
            let trace = choose|trace: Seq<AccelMsmStats>|
                #[trigger] nested_trace::<C, R, A>(
                    self.params,
                    self.settings_spec(),
                    self.facade,
                    cs,
                    polys,
                    trace,
                ) && trace.first() == before && trace.last() == after;
            assert forall|i: int| 0 <= i < cs.len() implies nested_commitment::<C, R>(
                self.params,
                #[trigger] cs[i],
                polys[i],
            ) by {
                assert(self.nested_endoscaling_step_rxs->Some_0@[i].wf());
                self.lemma_nested_step(None, polys[i], cs[i], trace[i], trace[i + 1]);
            }
        }
    }

    /// The proof, and the counters. Everything must have been stored but what is computed from
    /// something else; commitments that have not been asked for are computed now.
    pub fn build(self) -> (r: (Proof<C, R>, AccelMsmStats))
        requires
            self.wf(),
            self.host_fits(),
            self.nested_fits(),
            self.complete(),
        ensures
            self.kept_in(r.0),
            self.builds(r.0, r.1),
            self.exact() ==> r.0.committed(self.params),
            self.opened() ==> r.0.opened(self.params),
    {
        let mut b = self;
        let first = b.fill_native();
        let ghost middle = b;
        let second = b.fill_nested();
        let stats: AccelMsmStats = b.stats;
        let mut steps: Vec<Cached<C::NestedCurve>> = Vec::new();
        let kept = b.nested_endoscaling_step_commitments.unwrap();
        while steps.len() < kept.len()
            invariant
                steps.len() <= kept.len(),
                forall|i: int| 0 <= i < steps.len() ==> #[trigger] steps@[i] == Cached(kept@[i]),
            decreases kept.len() - steps.len(),
        {
            let i: usize = steps.len();
            steps.push(Cached(kept[i]));
        }
        proof {
            assert(steps@ =~= kept@.map_values(|c: C::NestedCurve| Cached(c)));
            assert(steps@.map_values(|c: Cached<C::NestedCurve>| c.0) =~= kept@);
        }
        let built = Proof {
            bridge_alpha: b.bridge_alpha,
            circuit_id: b.circuit_id.unwrap(),
            left_header: b.left_header.unwrap(),
            right_header: b.right_header.unwrap(),
            native_application_rx: b.native_application_rx.unwrap(),
            native_preamble_rx: b.native_preamble_rx.unwrap(),
            native_inner_error_rx: b.native_inner_error_rx.unwrap(),
            native_outer_error_rx: b.native_outer_error_rx.unwrap(),
            native_a_poly: b.native_a_poly.unwrap(),
            native_b_poly: b.native_b_poly.unwrap(),
            native_query_rx: b.native_query_rx.unwrap(),
            native_registry_xy_poly: b.native_registry_xy_poly.unwrap(),
            native_eval_rx: b.native_eval_rx.unwrap(),
            native_p_poly: b.native_p_poly.unwrap(),
            native_hashes_1_rx: b.native_hashes_1_rx.unwrap(),
            native_hashes_2_rx: b.native_hashes_2_rx.unwrap(),
            native_inner_collapse_rx: b.native_inner_collapse_rx.unwrap(),
            native_outer_collapse_rx: b.native_outer_collapse_rx.unwrap(),
            native_compute_v_rx: b.native_compute_v_rx.unwrap(),
            bridge_preamble_rx: b.bridge_preamble_rx.unwrap(),
            bridge_preamble_commitment: b.bridge_preamble_commitment.unwrap(),
            bridge_s_prime_rx: b.bridge_s_prime_rx.unwrap(),
            bridge_s_prime_commitment: b.bridge_s_prime_commitment.unwrap(),
            bridge_inner_error_rx: b.bridge_inner_error_rx.unwrap(),
            bridge_inner_error_commitment: b.bridge_inner_error_commitment.unwrap(),
            bridge_f_rx: b.bridge_f_rx.unwrap(),
            bridge_f_commitment: b.bridge_f_commitment.unwrap(),
            nested_endoscaling_step_rxs: b.nested_endoscaling_step_rxs.unwrap(),
            nested_endoscalar_rx: b.nested_endoscalar_rx.unwrap(),
            nested_points_rx: b.nested_points_rx.unwrap(),
            w: b.w.unwrap(),
            y: b.y.unwrap(),
            z: b.z.unwrap(),
            mu: b.mu.unwrap(),
            nu: b.nu.unwrap(),
            mu_prime: b.mu_prime.unwrap(),
            nu_prime: b.nu_prime.unwrap(),
            x: b.x.unwrap(),
            alpha: b.alpha.unwrap(),
            u: b.u.unwrap(),
            pre_beta: b.pre_beta.unwrap(),
            child_left_stage_rx: b.child_left_stage_rx.unwrap(),
            child_right_stage_rx: b.child_right_stage_rx.unwrap(),
            bridge_outer_error_rx: Cached(b.bridge_outer_error_rx.unwrap()),
            bridge_ab_rx: Cached(b.bridge_ab_rx.unwrap()),
            bridge_query_rx: Cached(b.bridge_query_rx.unwrap()),
            bridge_eval_rx: Cached(b.bridge_eval_rx.unwrap()),
            native_application_commitment: Cached(b.native_application_commitment.unwrap()),
            native_preamble_commitment: Cached(b.native_preamble_commitment.unwrap()),
            native_inner_error_commitment: Cached(b.native_inner_error_commitment.unwrap()),
            native_outer_error_commitment: Cached(b.native_outer_error_commitment.unwrap()),
            native_a_commitment: Cached(b.native_a_commitment.unwrap()),
            native_b_commitment: Cached(b.native_b_commitment.unwrap()),
            native_query_commitment: Cached(b.native_query_commitment.unwrap()),
            native_registry_xy_commitment: Cached(b.native_registry_xy_commitment.unwrap()),
            native_eval_commitment: Cached(b.native_eval_commitment.unwrap()),
            native_p_commitment: Cached(b.native_p_commitment.unwrap()),
            native_hashes_1_commitment: Cached(b.native_hashes_1_commitment.unwrap()),
            native_hashes_2_commitment: Cached(b.native_hashes_2_commitment.unwrap()),
            native_inner_collapse_commitment: Cached(b.native_inner_collapse_commitment.unwrap()),
            native_outer_collapse_commitment: Cached(b.native_outer_collapse_commitment.unwrap()),
            native_compute_v_commitment: Cached(b.native_compute_v_commitment.unwrap()),
            bridge_outer_error_commitment: Cached(b.bridge_outer_error_commitment.unwrap()),
            bridge_ab_commitment: Cached(b.bridge_ab_commitment.unwrap()),
            bridge_query_commitment: Cached(b.bridge_query_commitment.unwrap()),
            bridge_eval_commitment: Cached(b.bridge_eval_commitment.unwrap()),
            nested_endoscalar_commitment: Cached(b.nested_endoscalar_commitment.unwrap()),
            nested_points_commitment: Cached(b.nested_points_commitment.unwrap()),
            nested_endoscaling_step_commitments: steps,
        };
        proof {
            let t = first@.drop_last() + second@;
            assert(self.build_trace(built, t));
        }
        (built, stats)
    }
}

} // verus!
