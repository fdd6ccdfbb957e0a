use ragu::accel::{
    accel_msm_stats, reset_accel_msm_stats, AccelBackend, AccelError, AccelMsmConfig,
    AccelMsmStats, MsmFacade, NoAccelerator,
};
use ragu::curve::CurveAffine;
use ragu::cycle::{FixedGenerators, GeneratorSet};
use ragu::domain::Domain;
use ragu::field::{Field, PrimeField};
use ragu::fp::Fp;
use ragu::msm::cpu_mul;
use ragu::rank::{ProductionRank, Rank, TestRank};
use ragu::sparse::wires::{tz, WireView};
use ragu::sparse::Polynomial;
use ragu::util::{dot, eval};
use ragu::vesta::VestaAffine;
use rand::rngs::StdRng;
use rand::SeedableRng;

type R = TestRank;
type Poly = Polynomial<Fp, R>;

fn f(v: u64) -> Fp {
    Fp::from_u64(v)
}

fn rng(seed: u64) -> StdRng {
    StdRng::seed_from_u64(seed)
}

/// Coefficients with gaps of every length up to twelve.
fn gappy(seed: u64) -> Vec<Fp> {
    let mut rng = rng(seed);
    let mut c = vec![Fp::zero(); R::num_coeffs()];
    let (mut i, mut gap) = ((seed % 7) as usize, 0);
    while i < c.len() {
        c[i] = Fp::random(&mut rng);
        gap = (gap + 1) % 13;
        i += 1 + gap;
    }
    c
}

fn samples() -> Vec<Poly> {
    let mut v = vec![
        Poly::new(),
        Poly::random(&mut rng(1)),
        Poly::from_coeffs(gappy(2)),
        Poly::from_coeffs(gappy(3)),
        Poly::from_coeffs(vec![f(1), f(2), f(3)]),
    ];
    let mut view = WireView::<_, R, _>::trace();
    view.a = (0..5).map(|i| f(i)).collect();
    view.b = (0..9).map(|i| f(i * i)).collect();
    view.c = vec![Fp::zero(); 3];
    view.d = vec![f(8), Fp::zero(), f(9)];
    v.push(view.build());
    let mut view = WireView::<_, R, _>::wiring();
    view.a = (0..32).map(|i| f(i + 1)).collect();
    view.c = vec![f(4)];
    v.push(view.build());
    v
}

fn generators() -> GeneratorSet<VestaAffine> {
    let g = (0..R::num_coeffs() as u64 + 3)
        .map(|i| VestaAffine::to_affine(&VestaAffine::generator().mul(&f(i * 31 + 5))))
        .collect();
    GeneratorSet {
        g,
        h: VestaAffine::generator(),
    }
}

/// The commitment of a process that does not accelerate.
fn committed(p: &Poly, generators: &GeneratorSet<VestaAffine>) -> VestaAffine {
    let mut stats = AccelMsmStats::default();
    let c = p.commit_to_affine(generators, None, &NoAccelerator, &mut stats);
    assert_eq!(stats, AccelMsmStats::default());
    c
}

/// An accelerator whose results are wrong.
struct Doubler;

impl MsmFacade for Doubler {
    fn try_msm<C: CurveAffine>(
        &self,
        coeffs: &Vec<C::Scalar>,
        bases: &Vec<C>,
        _backend: AccelBackend,
    ) -> Result<Option<C::Curve>, AccelError> {
        Ok(Some(C::curve_double(&cpu_mul(coeffs, bases))))
    }
}

fn plus(a: &Poly, b: &Poly) -> Poly {
    let mut s = a.clone();
    s.add_assign(b);
    s
}

fn minus(a: &Poly, b: &Poly) -> Poly {
    let mut s = a.clone();
    s.sub_assign(b);
    s
}

#[test]
fn commit_with_accel_config_records_forced_backend_fallback() {
    let generators = generators();
    let coeffs = (0..R::num_coeffs())
        .map(|i| f(i as u64 + 1))
        .collect::<Vec<_>>();
    let poly = Poly::from_coeffs(coeffs.clone());

    let expected = VestaAffine::to_affine(&cpu_mul(
        &coeffs,
        &generators.g()[..coeffs.len()].to_vec(),
    ));

    let mut counters = AccelMsmStats::default();
    reset_accel_msm_stats(&mut counters);

    let actual: VestaAffine = poly.commit_to_affine_with_accel_config(
        &generators,
        AccelMsmConfig {
            backend: AccelBackend::Cuda,
            min_msm_size: 1,
        },
        &NoAccelerator,
        &mut counters,
    );

    assert_eq!(actual, expected);

    let stats = accel_msm_stats(&counters);
    assert_eq!(stats.candidates, 1);
    assert_eq!(stats.facade_results, 0);
    assert_eq!(stats.fallbacks, 1);
    assert_eq!(stats.total_candidate_points, coeffs.len() as u64);
}

#[test]
fn forced_fallback_commits_as_the_processor_does() {
    let generators = generators();
    for (i, poly) in samples().iter().enumerate() {
        let expected: VestaAffine = committed(poly, &generators);
        for min_msm_size in [0, 1, 5, 60, 4096] {
            let mut counters = AccelMsmStats::default();
            let actual: VestaAffine = poly.commit_to_affine_with_accel_config(
                &generators,
                AccelMsmConfig {
                    backend: AccelBackend::Cuda,
                    min_msm_size,
                },
                &NoAccelerator,
                &mut counters,
            );
            assert_eq!(actual, expected, "polynomial {}", i);
            assert!(counters.candidates <= 1);
            assert_eq!(counters.facade_results, 0);
            assert_eq!(counters.fallbacks, counters.candidates);
        }
    }
}

enum CoeffSeed {
    Zero,
    Small(u8),
    Large(u64),
    Negated(u64),
}

fn coeff_from_seed(seed: &CoeffSeed) -> Fp {
    match seed {
        CoeffSeed::Zero => Fp::zero(),
        CoeffSeed::Small(value) => f(*value as u64),
        CoeffSeed::Large(value) => f(*value),
        CoeffSeed::Negated(value) => f(*value).neg(),
    }
}

#[test]
fn accelerated_commitments_of_seeded_polynomials() {
    let generators = generators();
    for round in 0..8u64 {
        let seeds: Vec<CoeffSeed> = (0..16 * round)
            .map(|i| match (i * i + round) % 7 {
                0 => CoeffSeed::Small((i % 256) as u8),
                1 => CoeffSeed::Large(u64::MAX - i),
                2 => CoeffSeed::Negated(i),
                _ => CoeffSeed::Zero,
            })
            .collect();
        let poly = Poly::from_coeffs(seeds.iter().map(coeff_from_seed).collect());
        let expected: VestaAffine = committed(&poly, &generators);
        let mut counters = AccelMsmStats::default();
        let actual: VestaAffine = poly.commit_to_affine_with_accel_config(
            &generators,
            AccelMsmConfig {
                backend: AccelBackend::Cuda,
                min_msm_size: 3 * round as usize,
            },
            &NoAccelerator,
            &mut counters,
        );
        assert_eq!(actual, expected);
        assert!(counters.candidates <= 1);
        assert_eq!(counters.facade_results, 0);
        assert_eq!(counters.fallbacks, counters.candidates);
    }
}

#[test]
fn commitments_go_by_the_settings_of_the_process() {
    let generators = generators();
    let poly = Poly::from_coeffs(vec![f(1), f(0), f(2)]);
    let exact = committed(&poly, &generators);
    let twice = VestaAffine::to_affine(&exact.mul(&f(2)));
    let settings = |size| Some(AccelMsmConfig::from_settings(AccelBackend::Auto, size));
    // Without settings the accelerator is not asked, nor for fewer points than they say.
    for (settings, asked) in [
        (None, false),
        (settings(None), false),
        (settings(Some("4")), false),
        (settings(Some("3")), true),
    ] {
        let mut stats = AccelMsmStats::default();
        let c: VestaAffine = poly.commit_to_affine(&generators, settings, &Doubler, &mut stats);
        assert_eq!(c, if asked { twice } else { exact });
        let projective = poly.commit(&generators, settings, &Doubler, &mut stats);
        assert_eq!(VestaAffine::to_affine(&projective), c);
        assert_eq!(stats.candidates, 2 * asked as u64);
        assert_eq!(stats.facade_results, 2 * asked as u64);
        assert_eq!(stats.fallbacks, 0);
        assert_eq!(stats.total_candidate_points, 6 * asked as u64);
    }
}

#[test]
fn commitments_add_up() {
    let generators = generators();
    let ps = samples();
    let (a, b) = (&ps[2], &ps[5]);
    let sum: VestaAffine = committed(&plus(a, b), &generators);
    let mut stats = AccelMsmStats::default();
    let parts = VestaAffine::curve_add(
        &a.commit(&generators, None, &NoAccelerator, &mut stats),
        &b.commit(&generators, None, &NoAccelerator, &mut stats),
    );
    assert_eq!(sum, VestaAffine::to_affine(&parts));
}

#[test]
fn zero_polynomial_operations() {
    let zero = Poly::new();
    let x = f(42);
    assert_eq!(zero.eval(x), Fp::zero());
    assert_eq!(zero.revdot(&zero), Fp::zero());

    let mut p = zero.clone();
    p.scale(f(5));
    assert_eq!(p.eval(x), Fp::zero());
    p.negate();
    assert_eq!(p.eval(x), Fp::zero());

    // add zero to zero
    let mut p = zero.clone();
    p.add_assign(&zero);
    assert_eq!(p.eval(x), Fp::zero());
}

#[test]
fn single_coefficient_at_degree_boundaries() {
    let val = f(7);
    let x = f(3);

    for degree in [
        0,
        1,
        R::n() - 1,
        R::n(),
        2 * R::n() - 1,
        2 * R::n(),
        3 * R::n(),
        R::num_coeffs() - 1,
    ] {
        let mut coeffs = vec![Fp::zero(); R::num_coeffs()];
        coeffs[degree] = val;
        let poly = Poly::from_coeffs(coeffs);
        assert_eq!(
            poly.eval(x),
            val.mul(&x.pow_vartime(u64::try_from(degree).unwrap())),
            "degree {degree}"
        );
    }
}

#[test]
fn only_a_wire_data() {
    let n = R::n();
    let mut view = WireView::<_, R, _>::trace();
    let mut rng = rng(10);
    let a_vals: Vec<Fp> = (0..n).map(|_| Fp::random(&mut rng)).collect();
    view.a = a_vals.clone();
    let poly = view.build();

    let mut expected = vec![Fp::zero(); R::num_coeffs()];
    for (i, val) in a_vals.iter().enumerate() {
        expected[2 * n - 1 - i] = *val;
    }
    let x = Fp::random(&mut rng);
    assert_eq!(poly.eval(x), eval(&expected, x));
}

#[test]
fn only_d_wire_data() {
    let n = R::n();
    let mut view = WireView::<_, R, _>::trace();
    let mut rng = rng(11);
    let d_vals: Vec<Fp> = (0..n).map(|_| Fp::random(&mut rng)).collect();
    view.d = d_vals.clone();
    let poly = view.build();

    let mut expected = vec![Fp::zero(); R::num_coeffs()];
    for (i, val) in d_vals.iter().enumerate() {
        expected[4 * n - 1 - i] = *val;
    }
    let x = Fp::random(&mut rng);
    assert_eq!(poly.eval(x), eval(&expected, x));
}

#[test]
fn alloc_optimization_pattern() {
    let n = R::n();
    let mut rng = rng(12);
    let mut view = WireView::<_, R, _>::trace();
    for i in 0..n {
        if i % 10 == 0 {
            view.a.push(Fp::random(&mut rng));
            view.b.push(Fp::zero());
            view.c.push(Fp::zero());
            view.d.push(Fp::random(&mut rng));
        } else {
            let a = Fp::random(&mut rng);
            let b = Fp::random(&mut rng);
            view.a.push(a);
            view.b.push(b);
            view.c.push(a.mul(&b));
            view.d.push(Fp::zero());
        }
    }
    let poly = view.build();

    let dense = poly.to_dense();
    let x = Fp::random(&mut rng);
    assert_eq!(poly.eval(x), eval(&dense, x));

    let d_region = &dense[3 * n..4 * n];
    let d_nonzero = d_region.iter().filter(|x| !x.is_zero()).count();
    let expected_allocs = (0..n).filter(|i| i % 10 == 0).count();
    assert_eq!(d_nonzero, expected_allocs);
}

#[test]
fn iter_coeffs_zero_polynomial() {
    let zero = Poly::new();
    assert_eq!(zero.iter_coeffs().len(), R::num_coeffs());
    let mut iter = zero.iter_coeffs();
    let mut count = 0;
    while let Some(c) = iter.next() {
        assert_eq!(c, Fp::zero());
        count += 1;
    }
    assert_eq!(count, R::num_coeffs());
    let mut iter = zero.iter_coeffs();
    while let Some(c) = iter.next_back() {
        assert_eq!(c, Fp::zero());
    }
    assert_eq!(iter.size_hint(), (0, Some(0)));
}

#[test]
fn iter_coeffs_single_block_at_end() {
    let val = f(7);
    let last = R::num_coeffs() - 1;
    let mut coeffs = vec![Fp::zero(); R::num_coeffs()];
    coeffs[last] = val;
    let poly = Poly::from_coeffs(coeffs);

    let mut fwd_iter = poly.iter_coeffs();
    let mut fwd: Vec<Fp> = vec![];
    while let Some(c) = fwd_iter.next() {
        fwd.push(c);
    }
    assert_eq!(fwd.len(), R::num_coeffs());
    assert_eq!(fwd[last], val);
    assert!(fwd[..last].iter().all(|c| *c == Fp::zero()));

    let mut rev_iter = poly.iter_coeffs();
    assert_eq!(rev_iter.next_back(), Some(val));
    while let Some(c) = rev_iter.next_back() {
        assert_eq!(c, Fp::zero());
    }
    assert_eq!(rev_iter.len(), 0);
}

#[test]
fn iter_coeffs_fully_drain_both_ends() {
    let mut coeffs = vec![Fp::zero(); R::num_coeffs()];
    coeffs[0] = f(1);
    coeffs[R::num_coeffs() - 1] = f(2);
    let poly = Poly::from_coeffs(coeffs.clone());

    let mut iter = poly.iter_coeffs();
    let total = R::num_coeffs();

    assert_eq!(iter.next(), Some(f(1)));
    assert_eq!(iter.len(), total - 1);

    assert_eq!(iter.next_back(), Some(f(2)));
    assert_eq!(iter.len(), total - 2);

    while let Some(c) = iter.next() {
        assert_eq!(c, Fp::zero());
    }
}

#[test]
fn coefficients_from_either_end() {
    for poly in samples() {
        let dense = poly.to_dense();
        let mut iter = poly.iter_coeffs();
        let (mut front, mut back) = (vec![], vec![]);
        loop {
            match iter.next() {
                Some(v) => front.push(v),
                None => break,
            }
            match iter.next_back() {
                Some(v) => back.push(v),
                None => break,
            }
            assert_eq!(iter.len(), dense.len() - front.len() - back.len());
        }
        back.reverse();
        front.extend(back);
        assert_eq!(front, dense);
    }
}

#[test]
fn product_identity() {
    let mut rng = rng(13);
    let mut view = WireView::<_, R, _>::trace();
    for _ in 0..R::n() {
        let a = Fp::random(&mut rng);
        let b = Fp::random(&mut rng);
        view.a.push(a);
        view.b.push(b);
        view.c.push(a.mul(&b));
    }
    let rx = view.build();

    let mut rzx = rx.clone();
    let z = Fp::random(&mut rng);
    rzx.dilate(z);
    rzx.add_assign(&tz::<Fp, R>(z));

    assert_eq!(rx.revdot(&rzx), Fp::zero());
}

#[test]
fn products_off() {
    let z = f(3);
    let dense = tz::<Fp, R>(z).to_dense();
    let n = R::n();
    for i in 0..n {
        let expected = z
            .pow_vartime((2 * n + i) as u64)
            .add(&z.pow_vartime((2 * n - 1 - i) as u64))
            .neg();
        assert_eq!(dense[4 * n - 1 - i], expected);
    }
    assert!(dense[..3 * n].iter().all(|c| c.is_zero()));
}

#[test]
fn ring_convolution() {
    let mut source = rng(14);

    let little = Domain::<Fp>::new(2);
    let big = Domain::<Fp>::new(3);

    let mut a_polys: Vec<Poly> = (0..4).map(|_| Poly::random(&mut source)).collect();
    let mut b_polys: Vec<Poly> = (0..4).map(|_| Poly::random(&mut source)).collect();

    little.ring_ifft::<Poly>(&mut a_polys);
    let a_polys_collapse = a_polys.clone();
    a_polys.resize(8, Default::default());
    big.ring_fft::<Poly>(&mut a_polys);

    little.ring_ifft::<Poly>(&mut b_polys);
    let b_polys_collapse = b_polys.clone();
    b_polys.resize(8, Default::default());
    big.ring_fft::<Poly>(&mut b_polys);

    let mut big_c = vec![];
    for (a, b) in a_polys.iter().zip(b_polys.iter()).take(8) {
        big_c.push(a.revdot(b));
    }

    big.ifft(&mut big_c);

    let x = Fp::random(&mut source);

    let mut cur = Fp::one();
    let mut a = Poly::new();
    let mut b = Poly::new();
    for i in 0..4 {
        let mut tmp = a_polys_collapse[i].clone();
        tmp.scale(cur);
        a.add_assign(&tmp);

        let mut tmp = b_polys_collapse[i].clone();
        tmp.scale(cur);
        b.add_assign(&tmp);

        cur = cur.mul(&x);
    }
    let mut cur = Fp::one();
    let mut cx = Fp::zero();
    for item in big_c.iter().take(8) {
        cx = cx.add(&item.mul(&cur));
        cur = cur.mul(&x);
    }

    assert_eq!(a.revdot(&b), cx);
}

#[test]
fn ring_transforms_invert_each_other() {
    let domain = Domain::<Fp>::new(2);
    let originals: Vec<Poly> = samples().into_iter().take(4).collect();
    let mut polys = originals.clone();
    domain.ring_fft::<Poly>(&mut polys);
    assert_ne!(polys[1].to_dense(), originals[1].to_dense());
    domain.ring_ifft::<Poly>(&mut polys);
    for (a, b) in originals.iter().zip(polys.iter()) {
        assert_eq!(a.to_dense(), b.to_dense());
    }
}

#[test]
fn transforms_are_values_at_powers() {
    let mut source = rng(15);
    for log in 0..6 {
        let domain = Domain::<Fp>::new(log);
        assert_eq!(domain.n(), 1 << log);
        assert_eq!(domain.log2_n(), log);
        let w = domain.omega();
        assert_eq!(w.pow_vartime(domain.n() as u64), Fp::one());
        let coeffs: Vec<Fp> = (0..domain.n()).map(|_| Fp::random(&mut source)).collect();
        let mut v = coeffs.clone();
        domain.fft(&mut v);
        for (j, value) in v.iter().enumerate() {
            assert_eq!(*value, eval(&coeffs, w.pow_vartime(j as u64)));
        }
        domain.ifft(&mut v);
        assert_eq!(v, coeffs);
    }
}

#[test]
fn dense_roundtrip() {
    for seed in 0..10 {
        let c = gappy(seed);
        let p = Poly::from_coeffs(c.clone());
        assert!(p.assert_invariants());
        assert_eq!(p.to_dense(), c);
    }
    let p = Poly::from_coeffs(vec![f(1), f(2)]);
    let dense = p.to_dense();
    assert_eq!(dense.len(), R::num_coeffs());
    assert_eq!(dense[..3], [f(1), f(2), Fp::zero()]);
    let full = gappy(4);
    assert_eq!(Poly::filled(full.clone()).to_dense(), full);
}

#[test]
fn stored_coefficients() {
    // What is stored shows in how many points a commitment takes.
    let generators = generators();
    let points = |p: &Poly| {
        let mut counters = AccelMsmStats::default();
        let config = AccelMsmConfig {
            backend: AccelBackend::Auto,
            min_msm_size: 0,
        };
        let _: VestaAffine =
            p.commit_to_affine_with_accel_config(&generators, config, &NoAccelerator, &mut counters);
        counters.total_candidate_points
    };
    let with = |at: &[usize]| {
        let mut c = vec![Fp::zero(); R::num_coeffs()];
        for &i in at {
            c[i] = f(5);
        }
        Poly::from_coeffs(c)
    };
    assert_eq!(points(&Poly::new()), 0);
    assert_eq!(points(&with(&[9])), 1);
    // Four zeros are kept inside a block, five split it.
    assert_eq!(points(&with(&[3, 8])), 6);
    assert_eq!(points(&with(&[3, 9])), 2);
    assert_eq!(points(&Poly::random(&mut rng(3))), 128);
    // Zeros of wires are kept.
    let mut view = WireView::<_, R, _>::trace();
    view.b = vec![Fp::zero(); 20];
    assert_eq!(points(&view.build()), 20);
    // Blocks that cancel out are pruned, blocks on their own pass through.
    let p = with(&[3, 8, 40]);
    assert_eq!(points(&minus(&p, &with(&[3, 8]))), 1);
    assert_eq!(points(&minus(&p, &p)), 0);
    assert_eq!(points(&minus(&p, &with(&[40, 41]))), 7);
    let mut p = p;
    p.scale(Fp::zero());
    assert_eq!(points(&p), 0);
    // That holds of blocks over all coefficients too.
    let full = Poly::from_coeffs(vec![Fp::one(); R::num_coeffs()]);
    assert_eq!(points(&full), 128);
    assert_eq!(points(&minus(&full, &full)), 0);
    assert_eq!(points(&plus(&full, &full)), 128);
    // A block of zeros does not survive a sum, with or without something beside it.
    let mut view = WireView::<_, R, _>::trace();
    view.b = vec![Fp::zero(); 20];
    let zeros = view.build();
    assert_eq!(points(&plus(&zeros, &Poly::new())), 0);
    assert_eq!(points(&plus(&zeros, &with(&[3]))), 1);
    // A sum stores nothing that neither part stores.
    assert_eq!(points(&plus(&with(&[3]), &with(&[5]))), 2);
    // Zeros inside a cluster are stored as they are in compressed form: up to four of them.
    let wide = |at: &[(usize, u64)]| {
        let mut c = vec![f(9); R::num_coeffs() / 2];
        for &(i, v) in at {
            c[i] = f(v);
        }
        Poly::from_coeffs(c)
    };
    let nines = wide(&[]);
    assert_eq!(points(&minus(&wide(&[(10, 14), (12, 14)]), &nines)), 3);
    assert_eq!(points(&minus(&wide(&[(10, 14), (15, 14)]), &nines)), 6);
    assert_eq!(points(&minus(&wide(&[(10, 14), (16, 14)]), &nines)), 2);
    // Blocks that are adjacent are one cluster; blocks further apart stay apart.
    assert_eq!(points(&plus(&with(&[3, 8]), &with(&[9, 10, 15]))), 8 + 5);
    assert_eq!(points(&plus(&with(&[3, 8]), &with(&[11, 16]))), 12);
    // A cluster of all coefficients is stored whole, zeros and all.
    let full_but = |at: usize| {
        let mut c = vec![f(2); R::num_coeffs()];
        for v in c.iter_mut().skip(at).take(9) {
            *v = f(1);
        }
        Poly::from_coeffs(c)
    };
    assert_eq!(points(&minus(&full_but(20), &full)), 128);
    assert_eq!(points(&Poly::fold(&[&with(&[3]), &with(&[5]), &with(&[3, 4])], f(2))), 3);
}

#[test]
fn values_match_dense_ones() {
    let mut source = rng(16);
    for p in samples() {
        assert!(p.assert_invariants());
        let x = Fp::random(&mut source);
        assert_eq!(p.eval(x), eval(&p.to_dense(), x));
        assert_eq!(p.eval(Fp::zero()), p.to_dense()[0]);
        for q in samples() {
            let mut rev = q.to_dense();
            rev.reverse();
            assert_eq!(p.revdot(&q), dot(&p.to_dense(), &rev));
        }
    }
}

#[test]
fn dilation_moves_the_point() {
    let mut source = rng(17);
    for p in samples() {
        let x = Fp::random(&mut source);
        let z = Fp::random(&mut source);
        let mut dilated = p.clone();
        dilated.dilate(z);
        assert!(dilated.assert_invariants());
        assert_eq!(dilated.eval(x), p.eval(x.mul(&z)));
        let mut constant = p.clone();
        constant.dilate(Fp::zero());
        assert_eq!(constant.eval(x), p.to_dense()[0]);
    }
}

#[test]
fn sums_and_differences() {
    let mut source = rng(18);
    for a in samples() {
        for b in samples() {
            let x = Fp::random(&mut source);
            let s = plus(&a, &b);
            let d = minus(&a, &b);
            assert!(s.assert_invariants() && d.assert_invariants());
            assert_eq!(s.eval(x), a.eval(x).add(&b.eval(x)));
            assert_eq!(d.eval(x), a.eval(x).sub(&b.eval(x)));
            for i in 0..R::num_coeffs() {
                assert_eq!(s.to_dense()[i], a.to_dense()[i].add(&b.to_dense()[i]));
            }
            assert_eq!(s.to_dense(), plus(&b, &a).to_dense());
            assert_eq!(minus(&s, &b).to_dense(), a.to_dense());
        }
        let mut twice = a.clone();
        twice += &a;
        twice -= &a;
        assert_eq!(twice.to_dense(), a.to_dense());
        assert!(minus(&a, &a).to_dense().iter().all(|c| c.is_zero()));
        let mut negated = a.clone();
        negated.negate();
        assert!(plus(&a, &negated).to_dense().iter().all(|c| c.is_zero()));
        negated.negate();
        assert_eq!(negated.to_dense(), a.to_dense());
    }
}

#[test]
fn multiples() {
    let mut source = rng(19);
    for p in samples() {
        let (c, x) = (Fp::random(&mut source), Fp::random(&mut source));
        let mut s = p.clone();
        s.scale(c);
        assert_eq!(s.eval(x), c.mul(&p.eval(x)));
        let mut n = p.clone();
        n.negate();
        assert_eq!(n.eval(x), p.eval(x).neg());
        let mut one = p.clone();
        one.scale(Fp::one());
        assert_eq!(one.to_dense(), p.to_dense());
        let mut zero = p.clone();
        zero.scale(Fp::zero());
        assert!(zero.to_dense().iter().all(|c| c.is_zero()));
    }
}

#[test]
fn folds() {
    let mut source = rng(20);
    let ps = samples();
    let (alpha, x) = (Fp::random(&mut source), Fp::random(&mut source));
    let folded = Poly::fold(&[&ps[1], &ps[2], &ps[5]], alpha);
    let expected = alpha
        .square()
        .mul(&ps[1].eval(x))
        .add(&alpha.mul(&ps[2].eval(x)))
        .add(&ps[5].eval(x));
    assert_eq!(folded.eval(x), expected);
    let single = Poly::fold(&[&ps[3]], alpha);
    assert_eq!(single.to_dense(), ps[3].to_dense());
    assert_eq!(Poly::fold(&[], alpha).eval(x), Fp::zero());
}

#[test]
fn commitments_match_dense_ones() {
    let generators = generators();
    for p in samples() {
        let sparse: VestaAffine = committed(&p, &generators);
        let dense = p.to_dense();
        let expected = cpu_mul(&dense, &generators.g()[..dense.len()].to_vec());
        assert_eq!(sparse, VestaAffine::to_affine(&expected));
        let mut stats = AccelMsmStats::default();
        let projective: ragu::vesta::Vesta =
            p.commit::<VestaAffine, _, _>(&generators, None, &NoAccelerator, &mut stats);
        assert_eq!(VestaAffine::to_affine(&projective), sparse);
    }
}

#[test]
fn wires_are_laid_out() {
    let n = R::n();
    let w = |k: u64, len: usize| (0..len as u64).map(|i| f(1000 * k + i)).collect::<Vec<_>>();
    for (la, lb, lc, ld) in [(32, 32, 32, 32), (3, 0, 7, 1), (0, 5, 0, 0), (1, 1, 1, 32)] {
        let (a, b, c, d) = (w(1, la), w(2, lb), w(3, lc), w(4, ld));
        let mut view = WireView::<_, R, _>::trace();
        view.a = a.clone();
        view.b = b.clone();
        view.c = c.clone();
        view.d = d.clone();
        let p = view.build();
        assert!(p.assert_invariants());
        let dense = p.to_dense();
        let mut expected = vec![Fp::zero(); 4 * n];
        for i in 0..lc {
            expected[i] = c[i];
        }
        for i in 0..la {
            expected[2 * n - 1 - i] = a[i];
        }
        for i in 0..lb {
            expected[2 * n + i] = b[i];
        }
        for i in 0..ld {
            expected[4 * n - 1 - i] = d[i];
        }
        assert_eq!(dense, expected);
        let mut view = WireView::<_, R, _>::wiring();
        view.a = a;
        view.b = b;
        view.c = c;
        view.d = d;
        let mut wiring = view.build().to_dense();
        wiring.reverse();
        assert_eq!(wiring, dense);
    }
}

#[test]
fn ranks() {
    assert_eq!((TestRank::n(), TestRank::num_coeffs()), (32, 128));
    assert_eq!(
        (ProductionRank::n(), ProductionRank::num_coeffs()),
        (2048, 8192)
    );
}
