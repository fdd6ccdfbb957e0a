use ragu::accel::{
    AccelBackend, AccelError, AccelMsmConfig, AccelMsmStats, MsmFacade, NoAccelerator,
    ProverAccelConfig,
};
use ragu::builder::{CachedBridge, ProofBuilder};
use ragu::curve::CurveAffine;
use ragu::cycle::{
    Cycle, FixedGenerators, GeneratorSet, Pasta, PastaParams, PoseidonConstants,
    PoseidonPermutation,
};
use ragu::field::{Field, PrimeField};
use ragu::fp::Fp;
use ragu::fq::Fq;
use ragu::fuse::{
    absorb, bridge_s_prime_witness, compute_bridge_f, compute_bridge_preamble,
    compute_bridge_s_prime, compute_native_ab, compute_native_f, compute_native_preamble,
    compute_native_s_prime, fold_commitments, fold_factors, gather_terms, native_f_queries,
    store_challenges, Challenge, FuseAction, FuseEvent, Fusion, OutOfOrder, QueryPoints,
    RegistryWy, Round,
};
use ragu::msm::cpu_mul;
use ragu::pallas::PallasAffine;
use ragu::pcd::{ChildStageRx, CircuitIndex, Proof};
use ragu::quotients::{combine_quotients, Query};
use ragu::rank::{ProductionRank, Rank, TestRank};
use ragu::sparse::Polynomial;
use ragu::util::{eval, factor};
use ragu::vesta::VestaAffine;

type R = TestRank;
type NativePoly = Polynomial<Fp, R>;
type NestedPoly = Polynomial<Fq, R>;

fn f(v: u64) -> Fp {
    Fp::from_u64(v)
}

fn poseidon<F: PrimeField>() -> PoseidonConstants<F> {
    let row = || vec![F::from_u64(1), F::from_u64(2), F::from_u64(3)];
    PoseidonConstants::new(3, 2, 8, 56, 5, vec![row(), row()], vec![row(), row(), row()]).unwrap()
}

fn params() -> PastaParams {
    let n = R::num_coeffs() as u64;
    PastaParams {
        nested: GeneratorSet {
            g: (0..n)
                .map(|i| PallasAffine::to_affine(&PallasAffine::generator().mul(&Fq::from_u64(i + 2))))
                .collect(),
            h: PallasAffine::generator(),
        },
        host: GeneratorSet {
            g: (0..n)
                .map(|i| VestaAffine::to_affine(&VestaAffine::generator().mul(&f(i + 2))))
                .collect(),
            h: VestaAffine::generator(),
        },
        circuit_poseidon: poseidon(),
        scalar_poseidon: poseidon(),
    }
}

fn native(seed: u64) -> NativePoly {
    Polynomial::from_coeffs((0..128).map(|i| f(seed * 1000 + i)).collect())
}

fn nested(seed: u64) -> NestedPoly {
    Polynomial::from_coeffs((0..9).map(|i| Fq::from_u64(seed * 1000 + i)).collect())
}

fn host(p: &PastaParams, poly: &NativePoly) -> VestaAffine {
    let mut stats = AccelMsmStats::default();
    poly.commit_to_affine(&p.host, None, &NoAccelerator, &mut stats)
}

fn inner(p: &PastaParams, poly: &NestedPoly) -> PallasAffine {
    let mut stats = AccelMsmStats::default();
    poly.commit_to_affine(&p.nested, None, &NoAccelerator, &mut stats)
}

type Builder<'a> = ProofBuilder<'a, Pasta, R, NoAccelerator>;

/// A builder that holds everything but the challenges and the derived bridges.
fn filled<'a>(p: &'a PastaParams, seed: u64) -> Builder<'a> {
    filled_with(p, seed, Builder::new(p, Fq::from_u64(3), None, &NoAccelerator))
}

fn filled_with<'a, A: MsmFacade>(
    p: &'a PastaParams,
    seed: u64,
    builder: ProofBuilder<'a, Pasta, R, A>,
) -> ProofBuilder<'a, Pasta, R, A> {
    let mut b = builder;
    b.set_circuit_id(CircuitIndex(4));
    b.set_left_header(vec![f(1)]);
    b.set_right_header(vec![f(2), f(3)]);
    b.set_native_application_rx(native(seed + 1));
    compute_native_preamble(&mut b, native(seed + 2));
    b.set_native_inner_error_rx(native(seed + 3));
    b.set_native_outer_error_rx(native(seed + 4));
    b.set_native_query_rx(native(seed + 5));
    b.set_native_registry_xy_poly(native(seed + 6));
    b.set_native_eval_rx(native(seed + 7));
    b.set_native_hashes_1_rx(native(seed + 8));
    b.set_native_hashes_2_rx(native(seed + 9));
    b.set_native_inner_collapse_rx(native(seed + 10));
    b.set_native_outer_collapse_rx(native(seed + 11));
    b.set_native_compute_v_rx(native(seed + 12));
    let terms = vec![(1, f(5)), (0, f(7)), (1, f(6))];
    let known = vec![p.host.g[3], p.host.g[4]];
    compute_native_ab(&mut b, native(seed + 13), &terms, &known, native(seed + 14));
    b.set_native_p_poly(native(seed + 15), VestaAffine::generator());
    compute_bridge_preamble(&mut b, nested(1));
    compute_bridge_s_prime(&mut b, nested(2));
    let c = b.commit_nested(&nested(3));
    b.set_bridge_inner_error_rx(nested(3), c);
    compute_bridge_f(&mut b, nested(4));
    b.set_nested_endoscaling_step_rxs(vec![nested(5), nested(6)]);
    b.set_nested_endoscalar_rx(nested(7));
    b.set_nested_points_rx(nested(8));
    b
}

fn add_bridges<A: MsmFacade>(b: &mut ProofBuilder<'_, Pasta, R, A>) {
    b.set_bridge_outer_error_rx(nested(11));
    b.set_bridge_ab_rx(nested(12));
    b.set_bridge_query_rx(nested(13));
    b.set_bridge_eval_rx(nested(14));
}

fn finished_fusion() -> Fusion<Fp> {
    let mut fusion = Fusion::new();
    let mut value = 0;
    loop {
        let event = match fusion.action() {
            FuseAction::Squeeze(_) => {
                value += 1;
                FuseEvent::Challenged(f(value))
            }
            FuseAction::Done => break,
            _ => FuseEvent::Taken,
        };
        fusion.step(event).unwrap();
    }
    fusion
}

fn proven(p: &PastaParams, seed: u64) -> Proof<Pasta, R> {
    let mut b = filled(p, seed);
    add_bridges(&mut b);
    store_challenges(
        &finished_fusion(),
        &mut b,
        ChildStageRx { rxs: vec![nested(21)] },
        ChildStageRx { rxs: vec![] },
    );
    b.build().0
}

#[test]
fn native_msm_projective_uses_explicit_accel_config() {
    let params = params();
    let mut builder = ProofBuilder::<Pasta, ProductionRank, NoAccelerator>::new_with_accel_config(
        &params,
        <Pasta as Cycle>::ScalarField::one(),
        Some(ProverAccelConfig {
            backend: AccelBackend::Avx512,
            min_msm_size: 1,
            min_fft_log2: 14,
            allow_gpu_witness_buffers: false,
        }),
        None,
        &NoAccelerator,
    );
    let scalars = vec![f(3), f(5)];
    let bases = vec![
        Pasta::host_generators(&params).g()[0],
        Pasta::host_generators(&params).g()[1],
    ];
    let expected = cpu_mul(&scalars, &bases);

    let actual = builder.commit_native_msm_projective(&scalars, &bases);

    assert_eq!(VestaAffine::to_affine(&actual), VestaAffine::to_affine(&expected));
    let stats = builder.stats;
    assert_eq!(stats.candidates, 1);
    assert_eq!(stats.fallbacks, 1);
    assert_eq!(stats.facade_results, 0);
}

#[test]
fn built_proofs_hold_what_was_stored() {
    let p = params();
    let built = proven(&p, 100);
    assert_eq!(built.bridge_alpha, Fq::from_u64(3));
    assert_eq!(built.circuit_id, CircuitIndex(4));
    assert_eq!(built.left_header, vec![f(1)]);
    assert_eq!(built.right_header, vec![f(2), f(3)]);
    assert_eq!(built.native_application_rx.to_dense(), native(101).to_dense());
    assert_eq!(built.native_compute_v_rx.to_dense(), native(112).to_dense());
    assert_eq!(built.native_application_commitment.0, host(&p, &native(101)));
    assert_eq!(built.native_preamble_commitment.0, host(&p, &native(102)));
    assert_eq!(built.native_inner_error_commitment.0, host(&p, &native(103)));
    assert_eq!(built.native_outer_error_commitment.0, host(&p, &native(104)));
    assert_eq!(built.native_query_commitment.0, host(&p, &native(105)));
    assert_eq!(built.native_registry_xy_commitment.0, host(&p, &native(106)));
    assert_eq!(built.native_eval_commitment.0, host(&p, &native(107)));
    assert_eq!(built.native_hashes_1_commitment.0, host(&p, &native(108)));
    assert_eq!(built.native_hashes_2_commitment.0, host(&p, &native(109)));
    assert_eq!(built.native_inner_collapse_commitment.0, host(&p, &native(110)));
    assert_eq!(built.native_outer_collapse_commitment.0, host(&p, &native(111)));
    assert_eq!(built.native_compute_v_commitment.0, host(&p, &native(112)));
    assert_eq!(built.native_p_commitment.0, VestaAffine::generator());
    assert_eq!(built.native_b_commitment.0, host(&p, &native(114)));
    // 7 * 5 + 11 * 6
    assert_eq!(
        built.native_a_commitment.0,
        VestaAffine::to_affine(&VestaAffine::generator().mul(&f(101)))
    );
    assert_eq!(built.bridge_preamble_commitment, inner(&p, &nested(1)));
    assert_eq!(built.bridge_s_prime_commitment, inner(&p, &nested(2)));
    assert_eq!(built.bridge_inner_error_commitment, inner(&p, &nested(3)));
    assert_eq!(built.bridge_f_commitment, inner(&p, &nested(4)));
    assert_eq!(built.bridge_outer_error_commitment.0, inner(&p, &nested(11)));
    assert_eq!(built.bridge_ab_commitment.0, inner(&p, &nested(12)));
    assert_eq!(built.bridge_query_commitment.0, inner(&p, &nested(13)));
    assert_eq!(built.bridge_eval_commitment.0, inner(&p, &nested(14)));
    assert_eq!(built.nested_endoscalar_commitment.0, inner(&p, &nested(7)));
    assert_eq!(built.nested_points_commitment.0, inner(&p, &nested(8)));
    let steps: Vec<PallasAffine> = built
        .nested_endoscaling_step_commitments
        .iter()
        .map(|c| c.0)
        .collect();
    assert_eq!(steps, vec![inner(&p, &nested(5)), inner(&p, &nested(6))]);
    assert_eq!((built.w, built.y, built.z), (f(1), f(2), f(3)));
    assert_eq!((built.mu, built.nu), (f(4), f(5)));
    assert_eq!((built.mu_prime, built.nu_prime), (f(6), f(7)));
    assert_eq!((built.x, built.alpha), (f(8), f(9)));
    assert_eq!((built.u, built.pre_beta), (f(10), f(11)));
    assert_eq!(built.child_left_stage_rx.rxs.len(), 1);
    assert_eq!(built.child_right_stage_rx.rxs.len(), 0);
}

#[test]
fn commitments_are_computed_once() {
    let p = params();
    let config = ProverAccelConfig {
        backend: AccelBackend::Cuda,
        min_msm_size: 0,
        min_fft_log2: 14,
        allow_gpu_witness_buffers: false,
    };
    let mut b = ProofBuilder::<Pasta, R, NoAccelerator>::new_with_accel_config(
        &p,
        Fq::one(),
        Some(config),
        None,
        &NoAccelerator,
    );
    assert_eq!(b.stats, AccelMsmStats::default());
    b.set_native_query_rx(native(1));
    let first = b.native_query_commitment();
    assert_eq!(b.stats.candidates, 1);
    let second = b.native_query_commitment();
    assert_eq!(b.stats.candidates, 1);
    assert_eq!(first, second);
    assert_eq!(first, host(&p, &native(1)));
    b.set_nested_endoscaling_step_rxs(vec![nested(5), nested(6), nested(7)]);
    assert_eq!(b.nested_endoscaling_step_commitments().len(), 3);
    assert_eq!(b.stats.candidates, 4);
    assert_eq!(b.nested_endoscaling_step_commitments()[2], inner(&p, &nested(7)));
    assert_eq!(b.stats.candidates, 4);
    assert_eq!(b.stats.fallbacks, 4);
    let direct = b.commit_native(&native(2));
    assert_eq!(direct, host(&p, &native(2)));
    let projective = b.commit_native_projective(&native(2));
    assert_eq!(VestaAffine::to_affine(&projective), direct);
    assert_eq!(b.stats.candidates, 6);
}

#[test]
fn bridges_have_their_own_alphas() {
    let p = params();
    let mut b = filled(&p, 100);
    let powers: Vec<Fq> = [
        CachedBridge::OuterError,
        CachedBridge::Ab,
        CachedBridge::Query,
        CachedBridge::Eval,
    ]
    .iter()
    .map(|&i| b.bridge_alpha_power(i))
    .collect();
    let q = |v: u64| Fq::from_u64(v);
    assert_eq!(powers, vec![q(3), q(9), q(27), q(81)]);
    assert_eq!(b.bridge_outer_error_witness(), (q(3), host(&p, &native(104))));
    let ab = b.bridge_ab_witness();
    assert_eq!((ab.0, ab.2), (q(9), host(&p, &native(114))));
    assert_eq!(ab.1, b.native_a_commitment());
    assert_eq!(
        b.bridge_query_witness(),
        (q(27), host(&p, &native(105)), host(&p, &native(106)))
    );
    assert_eq!(b.bridge_eval_witness(), (q(81), host(&p, &native(107))));
}

#[test]
fn claims_of_a_builder() {
    let p = params();
    let mut b = filled(&p, 100);
    assert_eq!(b.c(), native(113).revdot(&native(114)));
    b.set_u(f(17));
    assert_eq!(b.v(), native(115).eval(f(17)));
    assert_eq!(b.left_header().to_vec(), vec![f(1)]);
    assert_eq!(b.right_header().to_vec(), vec![f(2), f(3)]);
    assert_eq!(b.u(), f(17));
    assert!(std::ptr::eq(b.params(), &p));
}

fn fold(terms: &Vec<(usize, Fp)>, known: &Vec<VestaAffine>) -> VestaAffine {
    let mut stats = AccelMsmStats::default();
    let sum = fold_commitments(terms, known, None, &NoAccelerator, &mut stats);
    assert_eq!(stats, AccelMsmStats::default());
    VestaAffine::to_affine(&sum)
}

/// An accelerator that computes what the processor computes.
struct Helper;

impl MsmFacade for Helper {
    fn try_msm<C: CurveAffine>(
        &self,
        coeffs: &Vec<C::Scalar>,
        bases: &Vec<C>,
        _backend: AccelBackend,
    ) -> Result<Option<C::Curve>, AccelError> {
        Ok(Some(cpu_mul(coeffs, bases)))
    }
}

#[test]
fn honest_accelerators_change_no_proof() {
    let p = params();
    let plain = proven(&p, 100);
    let mut b = filled_with(&p, 100, ProofBuilder::<Pasta, R, Helper>::new(
        &p,
        Fq::from_u64(3),
        Some(AccelMsmConfig { backend: AccelBackend::Auto, min_msm_size: 0 }),
        &Helper,
    ));
    add_bridges(&mut b);
    store_challenges(
        &finished_fusion(),
        &mut b,
        ChildStageRx { rxs: vec![] },
        ChildStageRx { rxs: vec![] },
    );
    // The second folded polynomial, four bridges, and the combination of commitments.
    assert_eq!(b.stats.candidates, 6);
    let (helped, stats) = b.build();
    assert_eq!(stats.candidates, 6 + 12 + 4 + 2 + 2);
    assert_eq!(stats.facade_results, stats.candidates);
    assert_eq!(helped.native_query_commitment.0, plain.native_query_commitment.0);
    assert_eq!(helped.native_compute_v_commitment.0, plain.native_compute_v_commitment.0);
    assert_eq!(helped.native_a_commitment.0, plain.native_a_commitment.0);
    assert_eq!(helped.native_b_commitment.0, plain.native_b_commitment.0);
    assert_eq!(helped.bridge_ab_commitment.0, plain.bridge_ab_commitment.0);
    assert_eq!(helped.nested_points_commitment.0, plain.nested_points_commitment.0);
    assert_eq!(
        helped.nested_endoscaling_step_commitments[1].0,
        plain.nested_endoscaling_step_commitments[1].0
    );
}

#[test]
fn settings_of_a_proof_come_before_those_of_the_process() {
    let p = params();
    let ambient = AccelMsmConfig { backend: AccelBackend::Auto, min_msm_size: 7 };
    let own = ProverAccelConfig {
        backend: AccelBackend::Cuda,
        min_msm_size: 9,
        min_fft_log2: 14,
        allow_gpu_witness_buffers: false,
    };
    let fresh = Builder::new(&p, Fq::one(), Some(ambient), &NoAccelerator);
    assert_eq!(fresh.settings(), Some(ambient));
    assert_eq!(fresh.stats, AccelMsmStats::default());
    let new = |config, ambient| {
        Builder::new_with_accel_config(&p, Fq::one(), config, ambient, &NoAccelerator).settings()
    };
    assert_eq!(new(None, None), None);
    assert_eq!(new(None, Some(ambient)), Some(ambient));
    assert_eq!(new(Some(own), Some(ambient)), Some(own.msm_config()));
}

#[test]
fn terms_are_gathered() {
    let terms = vec![(7, f(1)), (3, f(10)), (7, f(2)), (5, f(4)), (3, f(11))];
    assert_eq!(
        gather_terms(&terms),
        vec![(7, f(3)), (3, f(21)), (5, f(4))]
    );
    assert_eq!(gather_terms::<Fp>(&vec![]), vec![]);
    let cs: Vec<VestaAffine> = params().host.g[..8].to_vec();
    // Generators are multiples by 2, 3, ...: 3 * 9 + 21 * 5 + 4 * 7
    assert_eq!(
        fold(&terms, &cs),
        VestaAffine::to_affine(&VestaAffine::generator().mul(&f(160)))
    );
}

#[test]
fn factors_of_a_fold() {
    let (inv, both) = fold_factors(f(8), f(9));
    assert_eq!(inv.mul(&f(8)), Fp::one());
    assert_eq!(both, f(72));
}

#[test]
fn registry_transitions() {
    let p = params();
    let mut b = filled(&p, 100);
    let s = compute_native_s_prime(&mut b, native(31), native(32));
    assert_eq!(s.registry_wx0_commitment, host(&p, &native(31)));
    assert_eq!(s.registry_wx1_commitment, host(&p, &native(32)));
    assert_eq!(s.registry_wx1_poly.to_dense(), native(32).to_dense());
    assert_eq!(
        bridge_s_prime_witness(&mut b, &s),
        (host(&p, &native(31)), host(&p, &native(32)), host(&p, &native(102)))
    );
}

#[test]
fn commitments_fold_like_polynomials() {
    let p = params();
    let polys = [native(1), native(2), native(3)];
    let known: Vec<VestaAffine> = polys.iter().map(|q| host(&p, q)).collect();
    let terms = vec![(2, f(5)), (0, f(7).neg()), (2, f(6)), (1, f(1))];
    let mut sum = NativePoly::new();
    for (i, c) in &terms {
        let mut q = polys[*i].clone();
        q.scale(*c);
        sum.add_assign(&q);
    }
    assert_eq!(
        fold(&terms, &known),
        host(&p, &sum)
    );
}

#[test]
fn quotients_are_combined() {
    let polys = [native(1), native(2), native(3)];
    let points = [f(5), f(6), f(7)];
    let queries: Vec<Query<Fp, R>> = (0..3)
        .map(|i| Query { poly: &polys[i], point: points[i] })
        .collect();
    let alpha = f(11);
    let r = combine_quotients(&queries, alpha);
    let y = f(1234);
    let mut expected = Fp::zero();
    for i in 0..3 {
        let q = factor(&polys[i].to_dense(), points[i]);
        expected = alpha.mul(&expected).add(&eval(&q, y));
    }
    assert_eq!(r.eval(y), expected);
    assert_eq!(r.to_dense()[127], Fp::zero());
    // Each quotient times the distance is the difference of values.
    let q = combine_quotients(&queries[..1].iter().map(|q| Query { poly: q.poly, point: q.point }).collect(), alpha);
    assert_eq!(
        q.eval(y).mul(&y.sub(&points[0])),
        polys[0].eval(y).sub(&polys[0].eval(points[0]))
    );
}

#[test]
fn quotient_polynomial_of_a_fusion() {
    let p = params();
    let (left, right) = (proven(&p, 200), proven(&p, 300));
    let mut b = filled(&p, 100);
    let s = compute_native_s_prime(&mut b, native(31), native(32));
    let wy = RegistryWy::<Pasta, R> { poly: native(33), commitment: host(&p, &native(33)) };
    let points = QueryPoints {
        w: f(901),
        y: f(902),
        z: f(903),
        x: f(904),
        left_circuit: f(905),
        right_circuit: f(906),
        internal: vec![f(907), f(908)],
    };
    let (l, r) = (vec![&left.native_query_rx], vec![&right.native_eval_rx, &right.native_query_rx]);
    let queries: Vec<(Vec<Fp>, Fp)> = native_f_queries(
        &points,
        &s,
        &wy,
        b.native_registry_xy_poly(),
        b.native_a_poly(),
        b.native_b_poly(),
        &left,
        &right,
        &l,
        &r,
    )
    .iter()
    .map(|q| (q.poly.to_dense(), q.point))
    .collect();
    let xz = f(904 * 903);
    let d = |seed: u64| native(seed).to_dense();
    let expected = vec![
        (d(215), f(10)),
        (d(315), f(10)),
        (d(206), f(901)),
        (d(306), f(901)),
        (d(31), f(2)),
        (d(32), f(2)),
        (d(31), f(902)),
        (d(32), f(902)),
        (d(33), f(8)),
        (d(33), f(8)),
        (d(33), f(904)),
        (d(106), f(901)),
        (d(106), f(905)),
        (d(106), f(906)),
        (d(213), xz),
        (d(214), f(904)),
        (d(313), xz),
        (d(314), f(904)),
        (d(113), xz),
        (d(114), f(904)),
        (d(205), xz),
        (d(307), xz),
        (d(305), xz),
        (d(106), f(907)),
        (d(106), f(908)),
    ];
    assert_eq!(queries, expected);
    let alpha = f(77);
    let got = compute_native_f(&points, alpha, &s, &wy, &mut b, &left, &right, &l, &r);
    let y = f(4321);
    let value = expected.iter().fold(Fp::zero(), |acc, (c, x)| {
        alpha.mul(&acc).add(&eval(&factor(c, *x), y))
    });
    assert_eq!(got.poly.eval(y), value);
    assert_eq!(got.commitment, host(&p, &got.poly));
}

#[test]
fn fusion_goes_by_its_schedule() {
    let mut fusion = Fusion::<Fp>::new();
    let mut seen = vec![fusion.action()];
    let mut value = 0;
    while fusion.action() != FuseAction::Done {
        let event = match fusion.action() {
            FuseAction::Squeeze(_) => {
                assert_eq!(fusion.step(FuseEvent::Taken), Err(OutOfOrder));
                value += 1;
                FuseEvent::Challenged(f(value))
            }
            _ => {
                assert_eq!(fusion.step(FuseEvent::Challenged(f(0))), Err(OutOfOrder));
                FuseEvent::Taken
            }
        };
        let next = fusion.step(event).unwrap();
        assert_eq!(next, fusion.action());
        seen.push(next);
    }
    assert_eq!(fusion.step(FuseEvent::Taken), Err(OutOfOrder));
    assert_eq!(fusion.step(FuseEvent::Challenged(f(0))), Err(OutOfOrder));
    assert_eq!(
        seen,
        vec![
            FuseAction::Application,
            FuseAction::Compute(Round::Preamble),
            FuseAction::Absorb(Round::Preamble),
            FuseAction::Squeeze(Challenge::W),
            FuseAction::Compute(Round::SPrime),
            FuseAction::Absorb(Round::SPrime),
            FuseAction::Squeeze(Challenge::Y),
            FuseAction::Squeeze(Challenge::Z),
            FuseAction::Compute(Round::InnerError),
            FuseAction::Absorb(Round::InnerError),
            FuseAction::SaveState,
            FuseAction::Squeeze(Challenge::Mu),
            FuseAction::Squeeze(Challenge::Nu),
            FuseAction::Compute(Round::OuterError),
            FuseAction::Absorb(Round::OuterError),
            FuseAction::Squeeze(Challenge::MuPrime),
            FuseAction::Squeeze(Challenge::NuPrime),
            FuseAction::Compute(Round::Ab),
            FuseAction::Absorb(Round::Ab),
            FuseAction::Squeeze(Challenge::X),
            FuseAction::Compute(Round::Query),
            FuseAction::Absorb(Round::Query),
            FuseAction::Squeeze(Challenge::Alpha),
            FuseAction::Compute(Round::F),
            FuseAction::Absorb(Round::F),
            FuseAction::Squeeze(Challenge::U),
            FuseAction::Compute(Round::Eval),
            FuseAction::Absorb(Round::Eval),
            FuseAction::Squeeze(Challenge::PreBeta),
            FuseAction::ComputeP,
            FuseAction::InternalCircuits,
            FuseAction::Build,
            FuseAction::Done,
        ]
    );
    assert_eq!(fusion.w, Some(f(1)));
    assert_eq!(fusion.pre_beta, Some(f(11)));
}

#[test]
fn rounds_absorb_their_commitments() {
    let p = params();
    let mut b = filled(&p, 100);
    add_bridges(&mut b);
    for (round, seed) in [
        (Round::Preamble, 1),
        (Round::SPrime, 2),
        (Round::InnerError, 3),
        (Round::OuterError, 11),
        (Round::Ab, 12),
        (Round::Query, 13),
        (Round::F, 4),
        (Round::Eval, 14),
    ] {
        assert_eq!(absorb(&mut b, round), inner(&p, &nested(seed)));
        assert_eq!(absorb(&mut b, round), inner(&p, &nested(seed)));
        assert_eq!(b.stats, AccelMsmStats::default());
    }

    // An accelerator with true results changes none of them.
    let ambient = Some(AccelMsmConfig { backend: AccelBackend::Cuda, min_msm_size: 0 });
    let builder = ProofBuilder::<Pasta, R, Helper>::new(&p, Fq::from_u64(3), ambient, &Helper);
    let mut helped = filled_with(&p, 100, builder);
    add_bridges(&mut helped);
    let before = helped.stats.candidates;
    for round in [Round::Preamble, Round::OuterError, Round::F, Round::Eval] {
        assert_eq!(absorb(&mut helped, round), absorb(&mut b, round));
    }
    assert_eq!(helped.stats.candidates, before + 2);
    assert_eq!(helped.stats.facade_results, helped.stats.candidates);
}

#[test]
fn constants_of_a_permutation_fit_together() {
    let row = |n: usize| vec![f(1); n];
    let new = |rate, full, rounds: Vec<Vec<Fp>>, mds: Vec<Vec<Fp>>| {
        PoseidonConstants::new(2, rate, full, 3, 5, rounds, mds)
    };
    let good = new(1, 4, vec![row(2)], vec![row(2), row(2)]).unwrap();
    assert_eq!((good.t(), good.rate(), good.full_rounds()), (2, 1, 4));
    assert_eq!((good.partial_rounds(), good.alpha()), (3, 5));
    assert_eq!(good.round_constants().len(), 1);
    assert_eq!(good.mds_matrix().len(), 2);
    assert!(new(2, 4, vec![], vec![row(2), row(2)]).is_none());
    assert!(new(1, 3, vec![], vec![row(2), row(2)]).is_none());
    assert!(new(1, 4, vec![row(3)], vec![row(2), row(2)]).is_none());
    assert!(new(1, 4, vec![], vec![row(2)]).is_none());
    assert!(new(1, 4, vec![], vec![row(2), row(1)]).is_none());
    let p = params();
    assert_eq!(Pasta::circuit_poseidon(&p).t(), 3);
    assert_eq!(Pasta::scalar_poseidon(&p).rate(), 2);
    assert_eq!(Pasta::nested_generators(&p).g().len(), 128);
}
