use ff::{Field as _, PrimeField as _, WithSmallOrderMulGroup as _};
use ragu::field::{DeferredField, Field, PrimeField};
use ragu::fp::Fp;
use ragu::fq::Fq;
use ragu::util::{
    decomp_product_poly, dot, eval, factor, factor_iter, geosum, low_u64, poly_mul,
    poly_with_roots, SliceCoefficients,
};
use rand::rngs::StdRng;
use rand::SeedableRng;

fn f(v: u64) -> Fp {
    Fp::from_u64(v)
}

fn fs(vs: &[u64]) -> Vec<Fp> {
    vs.iter().map(|&v| f(v)).collect()
}

fn generator() -> Fp {
    Fp::from_repr(pasta_curves::Fp::MULTIPLICATIVE_GENERATOR.to_repr()).unwrap()
}

fn delta() -> Fp {
    Fp::from_repr(pasta_curves::Fp::DELTA.to_repr()).unwrap()
}

fn sample(n: usize, seed: u64) -> Vec<Fp> {
    let mut rng = StdRng::seed_from_u64(seed);
    (0..n).map(|_| Fp::random(&mut rng)).collect()
}

#[test]
fn test_poly_with_roots() {
    let roots = vec![f(1), f(2), f(3)];
    let poly = poly_with_roots(&roots);

    for &root in &roots {
        assert_eq!(eval(&poly, root), Fp::zero());
    }

    let non_root = f(5);
    assert_ne!(eval(&poly, non_root), Fp::zero());

    let expected_coeffs = vec![f(6).neg(), f(11), f(6).neg(), Fp::one()];
    assert_eq!(poly, expected_coeffs);

    let empty_roots: Vec<Fp> = vec![];
    let constant_poly = poly_with_roots(&empty_roots);
    assert_eq!(constant_poly, vec![Fp::one()]);
}

#[test]
fn roots_keep_their_multiplicity() {
    let roots = fs(&[4, 9, 4, 4, 1, 9, 0]);
    let poly = poly_with_roots(&roots);
    assert_eq!(poly.len(), roots.len() + 1);
    assert_eq!(poly[7], Fp::one());
    for (r, k) in [(4, 3), (9, 2), (1, 1), (0, 1)] {
        let mut q = poly.clone();
        for _ in 0..k {
            assert_eq!(eval(&q, f(r)), Fp::zero());
            q = factor(&q, f(r));
        }
        assert_ne!(eval(&q, f(r)), Fp::zero());
    }
}

#[test]
fn roots_in_any_order() {
    let roots = [4, 9, 4, 1, 0];
    let poly = poly_with_roots(&fs(&roots));
    for order in [[0, 1, 2, 3, 4], [4, 3, 2, 1, 0], [2, 0, 4, 1, 3]] {
        let permuted: Vec<u64> = order.iter().map(|&i: &usize| roots[i]).collect();
        assert_eq!(poly_with_roots(&fs(&permuted)), poly);
    }
    assert_ne!(poly_with_roots(&fs(&[4, 9, 9, 1, 0])), poly);
}

#[test]
fn decomp_product_poly_n_eq_1() {
    let a = vec![f(7)];
    let b = vec![f(11)];
    let (p, q) = decomp_product_poly(&a, &b);
    assert_eq!(p, vec![f(77)]);
    assert!(q.is_empty());
}

#[test]
fn decomp_product_poly_empty() {
    let (p, q) = decomp_product_poly::<Fp>(&[], &[]);
    assert!(p.is_empty());
    assert!(q.is_empty());
}

#[test]
fn decomposition_meets_its_identity() {
    for n in [1usize, 2, 3, 8, 13, 32] {
        let a = sample(n, 10 + n as u64);
        let b = sample(n, 90 + n as u64);
        let (p, q) = decomp_product_poly(&a, &b);
        assert_eq!(p.len(), n);
        assert_eq!(q.len(), n - 1);
        for x in [Fp::one(), Fp::one().neg(), f(12345), generator()] {
            let x_inv = x.invert().unwrap();
            let low = x.pow_vartime(n as u64 - 1).mul(&eval(&p, x_inv));
            let high = x.pow_vartime(n as u64).mul(&eval(&q, x));
            assert_eq!(eval(&a, x).mul(&eval(&b, x)), low.add(&high));
        }
        let mut rb = b.clone();
        rb.reverse();
        assert_eq!(p[0], dot(&a, &rb));
    }
}

#[test]
fn poly_mul_empty() {
    let mut out = vec![f(1)];
    poly_mul::<Fp>(&[], &[Fp::one()], &mut out);
    assert!(out.is_empty());
    poly_mul::<Fp>(&[Fp::one()], &[], &mut out);
    assert!(out.is_empty());
    poly_mul::<Fp>(&[], &[], &mut out);
    assert!(out.is_empty());
}

#[test]
fn poly_mul_by_one() {
    let a = vec![f(2), f(3), f(5)];
    let one = vec![Fp::one()];
    let mut out = Vec::new();
    poly_mul(&a, &one, &mut out);
    assert_eq!(out, a);
    poly_mul(&one, &a, &mut out);
    assert_eq!(out, a);
}

#[test]
fn poly_mul_is_a_convolution() {
    for (n, m) in [(1usize, 1usize), (3, 2), (8, 9), (31, 17)] {
        let a = sample(n, 1);
        let b = sample(m, 2);
        let mut c = vec![f(9); 100];
        poly_mul(&a, &b, &mut c);
        assert!(c.capacity() >= 2 * (n + m - 1).next_power_of_two());
        let mut expected = vec![Fp::zero(); n + m - 1];
        for i in 0..n {
            for j in 0..m {
                expected[i + j] = expected[i + j].add(&a[i].mul(&b[j]));
            }
        }
        assert_eq!(c, expected);
    }
}

#[test]
fn test_dot() {
    let d = delta();
    let powers = [
        Fp::one(),
        d,
        d.square(),
        d.square().mul(&d),
        d.square().square(),
    ];
    let coeffs = [f(1), f(2), f(3), f(4), f(5)];

    assert_eq!(dot(&powers, &coeffs), eval(&coeffs, d));
}

#[test]
fn test_factor() {
    let d = delta();
    let poly = vec![
        d,
        d.square(),
        f(348).mul(&d),
        f(438).mul(&generator()),
    ];
    let x = Fp::from_repr(pasta_curves::Fp::TWO_INV.to_repr()).unwrap();
    let v = eval(&poly, x);
    let quot = factor(&poly, x);
    let mut iter = factor_iter(SliceCoefficients::new(&poly), x);
    let mut quot_iter = Vec::new();
    while let Some(c) = iter.next() {
        quot_iter.push(c);
    }
    quot_iter.reverse();
    assert_eq!(quot, quot_iter);
    let y = d.add(&f(100));
    assert_eq!(
        eval(&quot, y).mul(&y.sub(&x)),
        eval(&poly, y).sub(&v)
    );
}

#[test]
fn factor_drops_the_remainder() {
    // 7 X + 2 = 7 (X - 3) + 23
    assert_eq!(factor(&fs(&[2, 7]), f(3)), fs(&[7]));
    // X^2 + 1 = (X + 2)(X - 2) + 5
    assert_eq!(factor(&fs(&[1, 0, 1]), f(2)), fs(&[2, 1]));
}

#[test]
fn test_geosum() {
    fn geosum_slow(r: Fp, m: usize) -> Fp {
        let mut sum = Fp::zero();
        let mut power = Fp::one();
        for _ in 0..m {
            sum = sum.add(&power);
            power = power.mul(&r);
        }
        sum
    }

    let r = f(42).mul(&generator());
    for m in 0..33 {
        assert_eq!(geosum(Fp::zero(), m), geosum_slow(Fp::zero(), m));
        assert_eq!(geosum(Fp::one(), m), geosum_slow(Fp::one(), m));
        assert_eq!(geosum(r, m), geosum_slow(r, m));
    }
    assert_eq!(geosum(f(2), 10), f(1023));
}

#[test]
fn test_batched_quotient_streaming() {
    let polys: Vec<Vec<Fp>> = vec![
        fs(&[1, 2, 3, 4]),
        fs(&[5, 6, 7, 8]),
        fs(&[9, 10, 11, 12]),
    ];
    let x = f(42);
    let alpha = f(7);

    let f_coeffs: Vec<Fp> = {
        let mut iters: Vec<_> = polys
            .iter()
            .map(|p| factor_iter(SliceCoefficients::new(p), x))
            .collect();

        let mut coeffs_rev = Vec::new();
        while let Some(first) = iters[0].next() {
            let c = iters[1..].iter_mut().fold(first, |acc, iter| {
                alpha.mul(&acc).add(&iter.next().unwrap())
            });
            coeffs_rev.push(c);
        }
        coeffs_rev.reverse();
        coeffs_rev
    };

    let f_expected: Vec<Fp> = {
        let quotients: Vec<Vec<Fp>> = polys.iter().map(|p| factor(p, x)).collect();

        let n = quotients.len();
        let max_len = quotients.iter().map(|q| q.len()).max().unwrap();
        let mut f = vec![Fp::zero(); max_len];
        for (i, q) in quotients.iter().enumerate() {
            let alpha_i = alpha.pow_vartime((n - 1 - i) as u64);
            for (j, c) in q.iter().enumerate() {
                f[j] = f[j].add(&alpha_i.mul(c));
            }
        }
        f
    };

    assert_eq!(f_coeffs, f_expected);

    let y = f(100);
    let f_at_y = eval(&f_coeffs, y);
    let n = polys.len();
    let expected_at_y = polys.iter().enumerate().fold(Fp::zero(), |acc, (i, p)| {
        let q_at_y = eval(&factor(p, x), y);
        acc.add(&alpha.pow_vartime((n - 1 - i) as u64).mul(&q_at_y))
    });
    assert_eq!(f_at_y, expected_at_y);
}

#[test]
fn low_bits() {
    assert_eq!(low_u64(&f(0)), 0);
    assert_eq!(low_u64(&f(u64::MAX)), u64::MAX);
    // 2^64 + 5
    assert_eq!(low_u64(&f(1 << 32).square().add(&f(5))), 5);
    // p - 1 ends in ...ed00000000
    assert_eq!(low_u64(&Fp::one().neg()), 0x992d30ed00000000);
    assert_eq!(low_u64(&Fq::one().neg()), 0x8c46eb2100000000);
}

#[test]
fn empty_sums() {
    assert_eq!(eval::<Fp>(&[], f(3)), Fp::zero());
    assert_eq!(dot::<Fp>(&[], &[]), Fp::zero());
    assert_eq!(eval(&fs(&[5, 4, 3]), f(10)), f(345));
}

#[test]
fn fp_arithmetic() {
    let (a, b) = (f(1000), f(7));
    assert_eq!(a.add(&b), f(1007));
    assert_eq!(a.sub(&b), f(993));
    assert_eq!(b.sub(&a), f(993).neg());
    assert_eq!(a.mul(&b), f(7000));
    assert_eq!(a.square(), f(1000000));
    assert_eq!(b.pow_vartime(5), f(16807));
    assert_eq!(b.pow_vartime(0), Fp::one());
    assert_eq!(b.neg().add(&b), Fp::zero());
    assert_eq!(b.invert().unwrap().mul(&b), Fp::one());
    assert!(Fp::zero().invert().is_none());
    assert!(Fp::zero().is_zero() && !a.is_zero());
    assert_eq!(Fp::num_bits(), 255);
    assert_eq!(Fp::s(), 32);
    let half_order = (0..31).fold(Fp::root_of_unity(), |x, _| x.square());
    assert_eq!(half_order, Fp::one().neg());
}

#[test]
fn fq_arithmetic() {
    let g = |v: u64| Fq::from_u64(v);
    let (a, b) = (g(1000), g(7));
    assert_eq!(a.add(&b), g(1007));
    assert_eq!(a.sub(&b), g(993));
    assert_eq!(b.sub(&a), g(993).neg());
    assert_eq!(a.mul(&b), g(7000));
    assert_eq!(a.square(), g(1000000));
    assert_eq!(b.pow_vartime(5), g(16807));
    assert_eq!(b.neg().add(&b), Fq::zero());
    assert_eq!(b.invert().unwrap().mul(&b), Fq::one());
    assert!(Fq::zero().invert().is_none());
    assert_eq!(Fq::num_bits(), 255);
    assert_eq!(Fq::s(), 32);
    let half_order = (0..31).fold(Fq::root_of_unity(), |x, _| x.square());
    assert_eq!(half_order, Fq::one().neg());
}

#[test]
fn canonical_encodings() {
    let top = Fp::one().neg().to_repr();
    assert_eq!(Fp::from_repr(top), Some(Fp::one().neg()));
    let mut modulus = top;
    modulus[0] += 1;
    assert_eq!(Fp::from_repr(modulus), None);
    assert_eq!(Fp::from_repr([255; 32]), None);
    assert_eq!(f(258).to_repr()[..3], [2, 1, 0]);
    let top = Fq::one().neg().to_repr();
    assert_eq!(Fq::from_repr(top), Some(Fq::one().neg()));
    let mut modulus = top;
    modulus[0] += 1;
    assert_eq!(Fq::from_repr(modulus), None);
}

#[test]
fn sums_of_products() {
    let a = sample(20, 5);
    let b = sample(20, 6);
    let mut acc = Fp::accumulator();
    for i in 0..20 {
        Fp::mul_accumulate(&mut acc, &a[i], &b[i]);
    }
    assert_eq!(Fp::reduce(acc), dot(&a, &b));
    let mut acc = Fq::accumulator();
    Fq::mul_accumulate(&mut acc, &Fq::from_u64(6), &Fq::from_u64(7));
    Fq::mul_accumulate(&mut acc, &Fq::one().neg(), &Fq::from_u64(2));
    assert_eq!(Fq::reduce(acc), Fq::from_u64(40));
}

#[test]
fn random_elements_differ() {
    let a = sample(2, 77);
    assert_ne!(a[0], a[1]);
    let mut rng = StdRng::seed_from_u64(3);
    assert_ne!(Fq::random(&mut rng), Fq::random(&mut rng));
}
