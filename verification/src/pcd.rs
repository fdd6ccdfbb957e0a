//! Proofs.
use crate::builder;
use crate::curve::CurveAffine;
use crate::cycle::Cycle;
use crate::rank::Rank;
use crate::sparse::Polynomial;
use vstd::prelude::*;

verus! {

/// The index of a circuit in the registry.
#[derive(Clone, Copy, Debug, PartialEq, Eq, Structural)]
pub struct CircuitIndex(pub u32);

/// A value that can be computed from the rest of a proof.
pub struct Cached<T>(pub T);

/// The stage polynomials of a child proof, which claims about copied circuits refer to.
pub struct ChildStageRx<F, R: Rank> {
    pub rxs: Vec<Polynomial<F, R>>,
}

/// A proof that two child proofs were fused by a step of the application.
pub struct Proof<C: Cycle, R: Rank> {
    pub bridge_alpha: C::ScalarField,
    pub circuit_id: CircuitIndex,
    pub left_header: Vec<C::CircuitField>,
    pub right_header: Vec<C::CircuitField>,
    pub native_application_rx: Polynomial<C::CircuitField, R>,
    pub native_preamble_rx: Polynomial<C::CircuitField, R>,
    pub native_inner_error_rx: Polynomial<C::CircuitField, R>,
    pub native_outer_error_rx: Polynomial<C::CircuitField, R>,
    pub native_a_poly: Polynomial<C::CircuitField, R>,
    pub native_b_poly: Polynomial<C::CircuitField, R>,
    pub native_query_rx: Polynomial<C::CircuitField, R>,
    pub native_registry_xy_poly: Polynomial<C::CircuitField, R>,
    pub native_eval_rx: Polynomial<C::CircuitField, R>,
    pub native_p_poly: Polynomial<C::CircuitField, R>,
    pub native_hashes_1_rx: Polynomial<C::CircuitField, R>,
    pub native_hashes_2_rx: Polynomial<C::CircuitField, R>,
    pub native_inner_collapse_rx: Polynomial<C::CircuitField, R>,
    pub native_outer_collapse_rx: Polynomial<C::CircuitField, R>,
    pub native_compute_v_rx: Polynomial<C::CircuitField, R>,
    pub bridge_preamble_rx: Polynomial<C::ScalarField, R>,
    pub bridge_preamble_commitment: C::NestedCurve,
    pub bridge_s_prime_rx: Polynomial<C::ScalarField, R>,
    pub bridge_s_prime_commitment: C::NestedCurve,
    pub bridge_inner_error_rx: Polynomial<C::ScalarField, R>,
    pub bridge_inner_error_commitment: C::NestedCurve,
    pub bridge_f_rx: Polynomial<C::ScalarField, R>,
    pub bridge_f_commitment: C::NestedCurve,
    pub nested_endoscaling_step_rxs: Vec<Polynomial<C::ScalarField, R>>,
    pub nested_endoscalar_rx: Polynomial<C::ScalarField, R>,
    pub nested_points_rx: Polynomial<C::ScalarField, R>,
    pub w: C::CircuitField,
    pub y: C::CircuitField,
    pub z: C::CircuitField,
    pub mu: C::CircuitField,
    pub nu: C::CircuitField,
    pub mu_prime: C::CircuitField,
    pub nu_prime: C::CircuitField,
    pub x: C::CircuitField,
    pub alpha: C::CircuitField,
    pub u: C::CircuitField,
    pub pre_beta: C::CircuitField,
    pub child_left_stage_rx: ChildStageRx<C::ScalarField, R>,
    pub child_right_stage_rx: ChildStageRx<C::ScalarField, R>,
    pub bridge_outer_error_rx: Cached<Polynomial<C::ScalarField, R>>,
    pub bridge_ab_rx: Cached<Polynomial<C::ScalarField, R>>,
    pub bridge_query_rx: Cached<Polynomial<C::ScalarField, R>>,
    pub bridge_eval_rx: Cached<Polynomial<C::ScalarField, R>>,
    pub native_application_commitment: Cached<C::HostCurve>,
    pub native_preamble_commitment: Cached<C::HostCurve>,
    pub native_inner_error_commitment: Cached<C::HostCurve>,
    pub native_outer_error_commitment: Cached<C::HostCurve>,
    pub native_a_commitment: Cached<C::HostCurve>,
    pub native_b_commitment: Cached<C::HostCurve>,
    pub native_query_commitment: Cached<C::HostCurve>,
    pub native_registry_xy_commitment: Cached<C::HostCurve>,
    pub native_eval_commitment: Cached<C::HostCurve>,
    pub native_p_commitment: Cached<C::HostCurve>,
    pub native_hashes_1_commitment: Cached<C::HostCurve>,
    pub native_hashes_2_commitment: Cached<C::HostCurve>,
    pub native_inner_collapse_commitment: Cached<C::HostCurve>,
    pub native_outer_collapse_commitment: Cached<C::HostCurve>,
    pub native_compute_v_commitment: Cached<C::HostCurve>,
    pub bridge_outer_error_commitment: Cached<C::NestedCurve>,
    pub bridge_ab_commitment: Cached<C::NestedCurve>,
    pub bridge_query_commitment: Cached<C::NestedCurve>,
    pub bridge_eval_commitment: Cached<C::NestedCurve>,
    pub nested_endoscalar_commitment: Cached<C::NestedCurve>,
    pub nested_points_commitment: Cached<C::NestedCurve>,
    pub nested_endoscaling_step_commitments: Vec<Cached<C::NestedCurve>>,
}

impl<C: Cycle, R: Rank> Proof<C, R> {
    /// Each commitment that can be computed from a polynomial of the proof is the
    /// commitment to it.
    pub open spec fn committed(&self, params: &C::Params) -> bool {
        &&& builder::host_commitment::<C, R>(
            params,
            self.native_application_commitment.0,
            self.native_application_rx,
        )
        &&& builder::host_commitment::<C, R>(
            params,
            self.native_preamble_commitment.0,
            self.native_preamble_rx,
        )
        &&& builder::host_commitment::<C, R>(
            params,
            self.native_inner_error_commitment.0,
            self.native_inner_error_rx,
        )
        &&& builder::host_commitment::<C, R>(
            params,
            self.native_outer_error_commitment.0,
            self.native_outer_error_rx,
        )
        &&& builder::host_commitment::<C, R>(
            params,
            self.native_query_commitment.0,
            self.native_query_rx,
        )
        &&& builder::host_commitment::<C, R>(
            params,
            self.native_registry_xy_commitment.0,
            self.native_registry_xy_poly,
        )
        &&& builder::host_commitment::<C, R>(
            params,
            self.native_eval_commitment.0,
            self.native_eval_rx,
        )
        &&& builder::host_commitment::<C, R>(
            params,
            self.native_hashes_1_commitment.0,
            self.native_hashes_1_rx,
        )
        &&& builder::host_commitment::<C, R>(
            params,
            self.native_hashes_2_commitment.0,
            self.native_hashes_2_rx,
        )
        &&& builder::host_commitment::<C, R>(
            params,
            self.native_inner_collapse_commitment.0,
            self.native_inner_collapse_rx,
        )
        &&& builder::host_commitment::<C, R>(
            params,
            self.native_outer_collapse_commitment.0,
            self.native_outer_collapse_rx,
        )
        &&& builder::host_commitment::<C, R>(
            params,
            self.native_compute_v_commitment.0,
            self.native_compute_v_rx,
        )
        &&& builder::nested_commitment::<C, R>(
            params,
            self.bridge_outer_error_commitment.0,
            self.bridge_outer_error_rx.0,
        )
        &&& builder::nested_commitment::<C, R>(
            params,
            self.bridge_ab_commitment.0,
            self.bridge_ab_rx.0,
        )
        &&& builder::nested_commitment::<C, R>(
            params,
            self.bridge_query_commitment.0,
            self.bridge_query_rx.0,
        )
        &&& builder::nested_commitment::<C, R>(
            params,
            self.bridge_eval_commitment.0,
            self.bridge_eval_rx.0,
        )
        &&& builder::nested_commitments::<C, R>(
            params,
            self.nested_endoscaling_step_commitments@.map_values(|c: Cached<C::NestedCurve>| c.0),
            self.nested_endoscaling_step_rxs@,
        )
        &&& builder::nested_commitment::<C, R>(
            params,
            self.nested_endoscalar_commitment.0,
            self.nested_endoscalar_rx,
        )
        &&& builder::nested_commitment::<C, R>(
            params,
            self.nested_points_commitment.0,
            self.nested_points_rx,
        )
    }

    /// Each commitment that was stored along with its polynomial is the commitment to it.
    pub open spec fn opened(&self, params: &C::Params) -> bool {
        &&& builder::host_commitment::<C, R>(params, self.native_a_commitment.0, self.native_a_poly)
        &&& builder::host_commitment::<C, R>(params, self.native_b_commitment.0, self.native_b_poly)
        &&& builder::host_commitment::<C, R>(params, self.native_p_commitment.0, self.native_p_poly)
        &&& builder::nested_commitment::<C, R>(
            params,
            self.bridge_preamble_commitment,
            self.bridge_preamble_rx,
        )
        &&& builder::nested_commitment::<C, R>(
            params,
            self.bridge_s_prime_commitment,
            self.bridge_s_prime_rx,
        )
        &&& builder::nested_commitment::<C, R>(
            params,
            self.bridge_inner_error_commitment,
            self.bridge_inner_error_rx,
        )
        &&& builder::nested_commitment::<C, R>(
            params,
            self.bridge_f_commitment,
            self.bridge_f_rx,
        )
    }

    /// The polynomials that commitments can be computed from are the same in both.
    pub open spec fn same_polynomials(&self, other: &Self) -> bool {
        &&& self.native_application_rx == other.native_application_rx
        &&& self.native_preamble_rx == other.native_preamble_rx
        &&& self.native_inner_error_rx == other.native_inner_error_rx
        &&& self.native_outer_error_rx == other.native_outer_error_rx
        &&& self.native_query_rx == other.native_query_rx
        &&& self.native_registry_xy_poly == other.native_registry_xy_poly
        &&& self.native_eval_rx == other.native_eval_rx
        &&& self.native_hashes_1_rx == other.native_hashes_1_rx
        &&& self.native_hashes_2_rx == other.native_hashes_2_rx
        &&& self.native_inner_collapse_rx == other.native_inner_collapse_rx
        &&& self.native_outer_collapse_rx == other.native_outer_collapse_rx
        &&& self.native_compute_v_rx == other.native_compute_v_rx
        &&& self.bridge_outer_error_rx.0 == other.bridge_outer_error_rx.0
        &&& self.bridge_ab_rx.0 == other.bridge_ab_rx.0
        &&& self.bridge_query_rx.0 == other.bridge_query_rx.0
        &&& self.bridge_eval_rx.0 == other.bridge_eval_rx.0
        &&& self.nested_endoscaling_step_rxs@ == other.nested_endoscaling_step_rxs@
        &&& self.nested_endoscalar_rx == other.nested_endoscalar_rx
        &&& self.nested_points_rx == other.nested_points_rx
    }

    /// The commitments that can be computed from polynomials are the same points in both.
    pub open spec fn same_commitments(&self, other: &Self) -> bool {
        &&& self.native_application_commitment.0.dlog()
            == other.native_application_commitment.0.dlog()
        &&& self.native_preamble_commitment.0.dlog() == other.native_preamble_commitment.0.dlog()
        &&& self.native_inner_error_commitment.0.dlog()
            == other.native_inner_error_commitment.0.dlog()
        &&& self.native_outer_error_commitment.0.dlog()
            == other.native_outer_error_commitment.0.dlog()
        &&& self.native_query_commitment.0.dlog() == other.native_query_commitment.0.dlog()
        &&& self.native_registry_xy_commitment.0.dlog()
            == other.native_registry_xy_commitment.0.dlog()
        &&& self.native_eval_commitment.0.dlog() == other.native_eval_commitment.0.dlog()
        &&& self.native_hashes_1_commitment.0.dlog() == other.native_hashes_1_commitment.0.dlog()
        &&& self.native_hashes_2_commitment.0.dlog() == other.native_hashes_2_commitment.0.dlog()
        &&& self.native_inner_collapse_commitment.0.dlog()
            == other.native_inner_collapse_commitment.0.dlog()
        &&& self.native_outer_collapse_commitment.0.dlog()
            == other.native_outer_collapse_commitment.0.dlog()
        &&& self.native_compute_v_commitment.0.dlog() == other.native_compute_v_commitment.0.dlog()
        &&& self.bridge_outer_error_commitment.0.dlog()
            == other.bridge_outer_error_commitment.0.dlog()
        &&& self.bridge_ab_commitment.0.dlog() == other.bridge_ab_commitment.0.dlog()
        &&& self.bridge_query_commitment.0.dlog() == other.bridge_query_commitment.0.dlog()
        &&& self.bridge_eval_commitment.0.dlog() == other.bridge_eval_commitment.0.dlog()
        &&& self.nested_endoscaling_step_commitments.len()
            == other.nested_endoscaling_step_commitments.len()
        &&& forall|i: int|
            0 <= i < self.nested_endoscaling_step_commitments.len() ==>
            #[trigger] self.nested_endoscaling_step_commitments@[i].0.dlog()
                == other.nested_endoscaling_step_commitments@[i].0.dlog()
        &&& self.nested_endoscalar_commitment.0.dlog()
            == other.nested_endoscalar_commitment.0.dlog()
        &&& self.nested_points_commitment.0.dlog() == other.nested_points_commitment.0.dlog()
    }
}

} // verus!
