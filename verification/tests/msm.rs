use ff::PrimeField as _;
use pasta_curves::arithmetic::CurveExt as _;
use pasta_curves::group::{Curve as _, CurveAffine as _, Group as _};
use ragu::accel::{
    accel_msm_stats, merge_accel_msm_stats, mul, mul_with_accel_config,
    record_accel_msm_candidate, record_accel_msm_facade_result, record_accel_msm_fallback,
    reset_accel_msm_stats, settle_msm,
    AccelBackend, AccelError, AccelMsmConfig, AccelMsmStats, MsmFacade, NoAccelerator,
    ProverAccelConfig,
};
use ragu::curve::CurveAffine;
use ragu::cycle::{FixedGenerators, GeneratorSet};
use ragu::field::{Field, PrimeField};
use ragu::fp::Fp;
use ragu::fq::Fq;
use ragu::msm::{batch_to_affine, bucket_lookup, cpu_mul};
use ragu::pallas::PallasAffine;
use ragu::vesta::VestaAffine;

fn affine(p: &ragu::vesta::Vesta) -> VestaAffine {
    VestaAffine::to_affine(p)
}

fn vesta_bases(n: u64, from: u64) -> Vec<VestaAffine> {
    (0..n)
        .map(|i| affine(&VestaAffine::generator().mul(&Fp::from_u64(i + from))))
        .collect()
}

#[test]
fn test_bucket_lookup_thresholds() {
    for n in 0..8886111 {
        let expected = {
            if n < 4 {
                1
            } else if n < 32 {
                3
            } else {
                (f64::from(n as u32)).ln().ceil() as usize
            }
        };
        let actual = bucket_lookup(n);
        if expected != actual {
            panic!("n = {}: expected {}, got {}", n, expected, actual);
        }
    }
}

#[test]
fn test_mul() {
    let generator = Fp::from_repr(pasta_curves::Fp::MULTIPLICATIVE_GENERATOR.to_repr()).unwrap();
    let mut coeffs = vec![];
    for i in 0..1000 {
        coeffs.push(Fp::from_u64(i).mul(&generator));
    }

    let mut bases = vec![];
    for i in 0..1000 {
        bases.push(affine(&VestaAffine::generator().mul(&Fp::from_u64(i))));
    }

    let expected = coeffs
        .iter()
        .zip(bases.iter())
        .fold(VestaAffine::curve_identity(), |acc, (scalar, point)| {
            VestaAffine::curve_add(&acc, &point.mul(scalar))
        });

    let mut stats = AccelMsmStats::default();
    let actual = mul(&coeffs, &bases, None, &NoAccelerator, &mut stats);
    assert_eq!(affine(&actual), affine(&expected));
    assert_eq!(stats, AccelMsmStats::default());
    let settings = AccelMsmConfig::from_settings(AccelBackend::Auto, Some("1000"));
    let actual = mul(&coeffs, &bases, Some(settings), &NoAccelerator, &mut stats);
    assert_eq!(affine(&actual), affine(&expected));
    assert_eq!((stats.candidates, stats.fallbacks), (1, 1));
    assert_eq!(stats.total_candidate_points, 1000);
}

#[test]
fn multiplication_agrees_with_the_outside_arithmetic() {
    for n in [0usize, 1, 3, 5, 40, 160] {
        let coeffs: Vec<Fp> = (0..n as u64)
            .map(|i| Fp::from_u64(i * i + 1).neg())
            .collect();
        let bases = vesta_bases(n as u64, 11);
        let expected = (0..n as u64).fold(pasta_curves::Eq::identity(), |acc, i| {
            acc + pasta_curves::EqAffine::generator()
                * (pasta_curves::Fp::from(i + 11) * -pasta_curves::Fp::from(i * i + 1))
        });
        let (x, y, _) = expected.to_affine().to_curve().jacobian_coordinates();
        let expected = VestaAffine::from_xy(
            Fq::from_repr(x.to_repr()).unwrap(),
            Fq::from_repr(y.to_repr()).unwrap(),
        );
        assert_eq!(Some(affine(&cpu_mul(&coeffs, &bases))), expected);
    }
}

#[test]
fn test_accel_msm_matches_cpu_mul_for_pasta_curves() {
    let eq_coeffs = (0..64).map(|i| Fp::from_u64(i + 1)).collect::<Vec<_>>();
    let eq_bases = vesta_bases(64, 7);
    let settings = [
        None,
        Some(AccelMsmConfig::from_settings(AccelBackend::Auto, None)),
        Some(AccelMsmConfig::from_settings(AccelBackend::Auto, Some("64"))),
    ];
    for config in settings {
        for facade in [Helper { replies: false }, Helper { replies: true }] {
            let mut stats = AccelMsmStats::default();
            assert_eq!(
                affine(&mul(&eq_coeffs, &eq_bases, config, &facade, &mut stats)),
                affine(&cpu_mul(&eq_coeffs, &eq_bases))
            );
            let offered = config.map_or(false, |c| c.min_msm_size == 64);
            assert_eq!(stats.candidates, offered as u64);
            assert_eq!(stats.facade_results, (offered && facade.replies) as u64);
            assert_eq!(stats.fallbacks, (offered && !facade.replies) as u64);
        }
    }

    let ep_coeffs = (0..64).map(|i| Fq::from_u64(i + 1)).collect::<Vec<_>>();
    let ep_bases = (0..64)
        .map(|i| PallasAffine::to_affine(&PallasAffine::generator().mul(&Fq::from_u64(i + 7))))
        .collect::<Vec<_>>();
    let mut stats = AccelMsmStats::default();
    for facade in [Helper { replies: false }, Helper { replies: true }] {
        assert_eq!(
            PallasAffine::to_affine(&mul(
                &ep_coeffs, &ep_bases, settings[2], &facade, &mut stats
            )),
            PallasAffine::to_affine(&cpu_mul(&ep_coeffs, &ep_bases))
        );
    }
    assert_eq!(stats.candidates, 2);
    assert_eq!(stats.total_candidate_points, 128);
    // The sum of (i + 1) (i + 7) for i below 64.
    assert_eq!(
        PallasAffine::to_affine(&cpu_mul(&ep_coeffs, &ep_bases)),
        PallasAffine::to_affine(&PallasAffine::generator().mul(&Fq::from_u64(101920)))
    );
}

#[test]
fn test_accel_msm_records_forced_backend_fallback() {
    let mut counters = AccelMsmStats::default();
    reset_accel_msm_stats(&mut counters);

    let coeffs = (0..64).map(|i| Fp::from_u64(i + 1)).collect::<Vec<_>>();
    let bases = vesta_bases(64, 7);

    assert_eq!(
        affine(&mul_with_accel_config(
            &coeffs,
            &bases,
            AccelMsmConfig {
                backend: AccelBackend::Cuda,
                min_msm_size: 1,
            },
            &NoAccelerator,
            &mut counters,
        )),
        affine(&cpu_mul(&coeffs, &bases))
    );

    let stats = accel_msm_stats(&counters);
    assert_eq!(stats.candidates, 1);
    assert_eq!(stats.facade_results, 0);
    assert_eq!(stats.fallbacks, 1);
    assert_eq!(stats.total_candidate_points, 64);
}

#[test]
fn small_multiplications_are_no_candidates() {
    let mut counters = AccelMsmStats::default();
    let coeffs = (0..4).map(|i| Fp::from_u64(i + 1)).collect::<Vec<_>>();
    let bases = vesta_bases(4, 7);
    let config = AccelMsmConfig {
        backend: AccelBackend::Auto,
        min_msm_size: 5,
    };
    let r = mul_with_accel_config(&coeffs, &bases, config, &NoAccelerator, &mut counters);
    assert_eq!(affine(&r), affine(&cpu_mul(&coeffs, &bases)));
    assert_eq!(counters, AccelMsmStats::default());
}

/// An accelerator that computes what the processor computes, if it replies at all.
struct Helper {
    replies: bool,
}

impl MsmFacade for Helper {
    fn try_msm<C: CurveAffine>(
        &self,
        coeffs: &Vec<C::Scalar>,
        bases: &Vec<C>,
        _backend: AccelBackend,
    ) -> Result<Option<C::Curve>, AccelError> {
        if self.replies {
            Ok(Some(cpu_mul(coeffs, bases)))
        } else {
            Err(AccelError)
        }
    }
}

/// An accelerator whose results are wrong.
struct Doubler;

impl MsmFacade for Doubler {
    fn try_msm<C: CurveAffine>(
        &self,
        coeffs: &Vec<C::Scalar>,
        bases: &Vec<C>,
        _backend: AccelBackend,
    ) -> Result<Option<C::Curve>, AccelError> {
        Ok(Some(C::curve_double(&cpu_mul(coeffs, bases))))
    }
}

#[test]
fn results_of_an_accelerator_are_taken() {
    let mut counters = AccelMsmStats::default();
    let coeffs = vec![Fp::from_u64(3)];
    let bases = vesta_bases(1, 1);
    let config = AccelMsmConfig {
        backend: AccelBackend::Avx512,
        min_msm_size: 0,
    };
    let r = mul_with_accel_config(&coeffs, &bases, config, &Doubler, &mut counters);
    assert_eq!(affine(&r), affine(&VestaAffine::generator().mul(&Fp::from_u64(6))));
    assert_eq!(counters.candidates, 1);
    assert_eq!(counters.facade_results, 1);
    assert_eq!(counters.fallbacks, 0);
    assert_eq!(counters.total_candidate_points, 1);
}

#[test]
fn replies_are_settled() {
    let mut counters = AccelMsmStats::default();
    let coeffs = vec![Fp::from_u64(3)];
    let bases = vesta_bases(1, 1);
    let exact = affine(&cpu_mul(&coeffs, &bases));
    let r = settle_msm(&coeffs, &bases, Err(AccelError), &mut counters);
    assert_eq!(affine(&r), exact);
    let r = settle_msm(&coeffs, &bases, Ok(None), &mut counters);
    assert_eq!(affine(&r), exact);
    assert_eq!(counters.fallbacks, 2);
    let reply = Ok(Some(VestaAffine::curve_identity()));
    let r = settle_msm(&coeffs, &bases, reply, &mut counters);
    assert_eq!(affine(&r), VestaAffine::identity());
    assert_eq!(counters.facade_results, 1);
}

#[test]
fn counters_start_again() {
    let mut counters = AccelMsmStats {
        candidates: u64::MAX,
        facade_results: u64::MAX,
        fallbacks: u64::MAX,
        total_candidate_points: u64::MAX,
    };
    record_accel_msm_candidate(&mut counters, 3);
    assert_eq!(counters.candidates, 0);
    assert_eq!(counters.total_candidate_points, 2);
    record_accel_msm_facade_result(&mut counters);
    record_accel_msm_fallback(&mut counters);
    assert_eq!((counters.facade_results, counters.fallbacks), (0, 0));
    reset_accel_msm_stats(&mut counters);
    assert_eq!(counters, AccelMsmStats::default());
    let part = AccelMsmStats {
        candidates: 3,
        facade_results: 1,
        fallbacks: 2,
        total_candidate_points: u64::MAX,
    };
    merge_accel_msm_stats(&mut counters, &part);
    assert_eq!(counters, part);
    merge_accel_msm_stats(&mut counters, &part);
    assert_eq!(counters.candidates, 6);
    assert_eq!(counters.total_candidate_points, u64::MAX - 1);
}

#[test]
fn sizes_are_read_from_settings() {
    let size = |s: Option<&str>| AccelMsmConfig::from_settings(AccelBackend::Cuda, s).min_msm_size;
    assert_eq!(AccelMsmConfig::DEFAULT_MIN_MSM_SIZE, 4096);
    assert_eq!(size(None), 4096);
    assert_eq!(size(Some("17")), 17);
    assert_eq!(size(Some("+017")), 17);
    assert_eq!(size(Some("0")), 0);
    for bad in ["", "+", "-1", " 17", "17 ", "1_7", "0x11", "99999999999999999999999"] {
        assert_eq!(size(Some(bad)), 4096);
    }
    let config = AccelMsmConfig::from_settings(AccelBackend::Auto, None);
    assert_eq!(config.backend, AccelBackend::Auto);
}

#[test]
fn prover_settings_for_multiplications() {
    let config = ProverAccelConfig {
        backend: AccelBackend::Avx512,
        min_msm_size: 12,
        min_fft_log2: 14,
        allow_gpu_witness_buffers: false,
    };
    let msm = config.msm_config();
    assert_eq!(msm.backend, AccelBackend::Avx512);
    assert_eq!(msm.min_msm_size, 12);
}

#[test]
fn points_of_vesta() {
    let g = VestaAffine::generator();
    let id = VestaAffine::identity();
    let k = |v: u64| affine(&g.mul(&Fp::from_u64(v)));
    assert_eq!(k(0), id);
    assert_eq!(k(1), g);
    assert_eq!(affine(&g.add(&k(2))), k(3));
    assert_eq!(affine(&g.add(&g)), k(2));
    assert_eq!(affine(&g.add(&id)), g);
    assert_eq!(affine(&VestaAffine::curve_add_affine(&k(5).to_curve(), &k(6))), k(11));
    assert_eq!(affine(&VestaAffine::curve_add(&g.mul(&Fp::from_u64(5)), &g.mul(&Fp::from_u64(9)))), k(14));
    assert_eq!(affine(&VestaAffine::curve_double(&g.mul(&Fp::from_u64(21)))), k(42));
    assert_eq!(affine(&VestaAffine::curve_identity()), id);
    // The order of the group is that of the scalar field.
    assert_eq!(affine(&VestaAffine::curve_add_affine(&g.mul(&Fp::one().neg()), &g)), id);
    let (x, y) = g.coordinates().unwrap();
    assert_eq!((x, y), (Fq::one().neg(), Fq::from_u64(2)));
    assert_eq!(VestaAffine::from_xy(x, y), Some(g));
    assert_eq!(VestaAffine::from_xy(x, x), None);
    assert_eq!(VestaAffine::from_xy(Fq::zero(), Fq::zero()), Some(id));
    assert!(id.coordinates().is_none());
}

#[test]
fn points_of_pallas() {
    let to = |c: &ragu::pallas::Pallas| PallasAffine::to_affine(c);
    let g = PallasAffine::generator();
    let id = PallasAffine::identity();
    let k = |v: u64| to(&g.mul(&Fq::from_u64(v)));
    assert_eq!(k(0), id);
    assert_eq!(k(1), g);
    assert_eq!(to(&g.add(&k(2))), k(3));
    assert_eq!(to(&PallasAffine::curve_add_affine(&k(5).to_curve(), &k(6))), k(11));
    assert_eq!(to(&PallasAffine::curve_add(&g.mul(&Fq::from_u64(5)), &g.mul(&Fq::from_u64(9)))), k(14));
    assert_eq!(to(&PallasAffine::curve_double(&g.mul(&Fq::from_u64(21)))), k(42));
    assert_eq!(to(&PallasAffine::curve_add_affine(&g.mul(&Fq::one().neg()), &g)), id);
    let (x, y) = g.coordinates().unwrap();
    assert_eq!((x, y), (Fp::one().neg(), Fp::from_u64(2)));
    assert_eq!(PallasAffine::from_xy(x, y), Some(g));
    assert_eq!(PallasAffine::from_xy(x, x), None);
    assert_eq!(PallasAffine::from_xy(Fp::zero(), Fp::zero()), Some(id));
}

#[test]
fn batches_become_affine() {
    let g = VestaAffine::generator();
    let points = [
        g.mul(&Fp::from_u64(9)),
        VestaAffine::curve_identity(),
        VestaAffine::curve_double(&g.mul(&Fp::from_u64(4))),
    ];
    let got = batch_to_affine::<VestaAffine, 3>(points);
    assert_eq!(got, [affine(&points[0]), VestaAffine::identity(), affine(&points[2])]);
    assert_eq!(batch_to_affine::<VestaAffine, 0>([]), []);
    let h = PallasAffine::generator();
    let points = [h.mul(&Fq::from_u64(9)), h.mul(&Fq::from_u64(0))];
    let got = batch_to_affine::<PallasAffine, 2>(points);
    assert_eq!(got, [PallasAffine::to_affine(&points[0]), PallasAffine::identity()]);
}

#[test]
fn short_commitments() {
    let bases = vesta_bases(2, 3);
    let set = GeneratorSet { g: bases.clone(), h: vesta_bases(1, 50)[0] };
    assert_eq!(set.g()[1], bases[1]);
    let c = set.short_commit(Fp::from_u64(10), Fp::from_u64(2));
    // 10 * 3 + 2 * 50
    assert_eq!(c, affine(&VestaAffine::generator().mul(&Fp::from_u64(130))));
}
