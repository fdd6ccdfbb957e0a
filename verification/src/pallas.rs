//! The Pallas curve, `y^2 = x^3 + 5`.
//!
//! A point is held as the canonical encodings of its coordinates. The curve
//! arithmetic is that of `pasta_curves`.
use crate::bytes;
use crate::curve;
use crate::curve::CurveAffine;
use crate::field::{Field, PrimeField};
use crate::fp;
use crate::fp::Fp;
use crate::fq;
use crate::fq::Fq;
use ff::PrimeField as _;
use pasta_curves::arithmetic::{CurveAffine as _, CurveExt as _};
use pasta_curves::group::{Curve as _, CurveAffine as _, Group as _};
use vstd::prelude::*;

verus! {

/// An encoding of affine coordinates.
type Xy = ([u8; 32], [u8; 32]);

/// An encoding of Jacobian coordinates.
type Xyz = ([u8; 32], [u8; 32], [u8; 32]);

/// The affine coordinates of the multiple by `k` of the generator of `pasta_curves`'
/// Pallas, `(0, 0)` for the identity.
pub uninterp spec fn pallas_multiple(k: nat) -> (nat, nat);

/// `k` is the discrete logarithm of the point with these affine coordinates: of all
/// multiples of the generator, just the one by `k` has them.
pub open spec fn pallas_log(x: nat, y: nat, k: nat) -> bool {
    &&& k < fq::fq_modulus()
    &&& forall|j: nat|
        j < fq::fq_modulus() ==> (#[trigger] pallas_multiple(j) == (x, y) <==> j == k)
}

/// `k` is the discrete logarithm of the point with these Jacobian coordinates.
pub open spec fn pallas_curve_log(x: nat, y: nat, z: nat, k: nat) -> bool {
    &&& k < fq::fq_modulus()
    &&& forall|j: nat|
        j < fq::fq_modulus() ==> (curve::represents(
            x,
            y,
            z,
            #[trigger] pallas_multiple(j),
            fp::fp_modulus(),
        ) <==> j == k)
}

/// `y^2 = x^3 + 5`.
pub open spec fn pallas_equation(x: int, y: int) -> bool {
    (y * y) % fp::fp_modulus() == (x * x * x + 5) % fp::fp_modulus()
}

/// `k` is the discrete logarithm of the encoded point.
spec fn affine_log(a: Xy, k: nat) -> bool {
    &&& bytes::le_nat(a.0@) < fp::fp_modulus()
    &&& bytes::le_nat(a.1@) < fp::fp_modulus()
    &&& pallas_log(bytes::le_nat(a.0@), bytes::le_nat(a.1@), k)
}

/// `k` is the discrete logarithm of the encoded point.
spec fn jacobian_log(a: Xyz, k: nat) -> bool {
    &&& bytes::le_nat(a.0@) < fp::fp_modulus()
    &&& bytes::le_nat(a.1@) < fp::fp_modulus()
    &&& bytes::le_nat(a.2@) < fp::fp_modulus()
    &&& pallas_curve_log(bytes::le_nat(a.0@), bytes::le_nat(a.1@), bytes::le_nat(a.2@), k)
}

/// The encoded coordinates are those of a point.
spec fn affine_point(a: Xy) -> bool {
    exists|k: nat| affine_log(a, k)
}

/// The encoded coordinates are those of a point.
spec fn jacobian_point(a: Xyz) -> bool {
    exists|k: nat| jacobian_log(a, k)
}

/// The discrete logarithm of the encoded point.
spec fn affine_dlog(a: Xy) -> int {
    (choose|k: nat| affine_log(a, k)) as int % fq::fq_modulus()
}

/// The discrete logarithm of the encoded point.
spec fn jacobian_dlog(a: Xyz) -> int {
    (choose|k: nat| jacobian_log(a, k)) as int % fq::fq_modulus()
}

/// `CurveAffine::identity` of `EpAffine`: the point without coordinates, which is
/// held as `(0, 0)` and is the multiple of the generator by zero.
#[verifier::external_body]
fn pallas_identity() -> (r: Xy)
    ensures
        bytes::le_nat(r.0@) == 0,
        bytes::le_nat(r.1@) == 0,
        affine_log(r, 0),
{
    let (x, y, _) = pasta_curves::EpAffine::identity().to_curve().jacobian_coordinates();
    (x.to_repr(), y.to_repr())
}

/// `CurveAffine::generator` of `EpAffine`: the point `(-1, 2)`, its multiple by one.
#[verifier::external_body]
fn pallas_generator() -> (r: Xy)
    ensures
        (bytes::le_nat(r.0@), bytes::le_nat(r.1@)) == pallas_multiple(1),
        bytes::le_nat(r.0@) == fp::fp_modulus() - 1,
        bytes::le_nat(r.1@) == 2,
        affine_log(r, 1),
{
    let (x, y, _) = pasta_curves::EpAffine::generator().to_curve().jacobian_coordinates();
    (x.to_repr(), y.to_repr())
}

/// `CurveAffine::from_xy` of `EpAffine`: whether there is a point with these
/// coordinates. `(0, 0)` stands for the identity, and is the only pair that does not
/// meet the equation. The group has prime order, so each of its points is a multiple
/// of the generator by one number below the order.
#[verifier::external_body]
fn pallas_from_xy(a: Xy) -> (r: bool)
    requires
        bytes::le_nat(a.0@) < fp::fp_modulus(),
        bytes::le_nat(a.1@) < fp::fp_modulus(),
    ensures
        r <==> pallas_equation(bytes::le_nat(a.0@) as int, bytes::le_nat(a.1@) as int) || (
        bytes::le_nat(a.0@) == 0 && bytes::le_nat(a.1@) == 0),
        r ==> affine_point(a),
{
    let x = pasta_curves::Fp::from_repr(a.0).unwrap();
    let y = pasta_curves::Fp::from_repr(a.1).unwrap();
    pasta_curves::EpAffine::from_xy(x, y).is_some().into()
}

/// `EpAffine + EpAffine` of `pasta_curves`: the discrete logarithms are added.
#[verifier::external_body]
fn pallas_add_affine(a: Xy, b: Xy) -> (r: Xyz)
    requires
        affine_point(a),
        affine_point(b),
    ensures
        jacobian_point(r),
        jacobian_dlog(r) == (affine_dlog(a) + affine_dlog(b)) % fq::fq_modulus(),
{
    let f = |b: [u8; 32]| pasta_curves::Fp::from_repr(b).unwrap();
    let a = pasta_curves::EpAffine::from_xy(f(a.0), f(a.1)).unwrap();
    let b = pasta_curves::EpAffine::from_xy(f(b.0), f(b.1)).unwrap();
    let (x, y, z) = (a + b).jacobian_coordinates();
    (x.to_repr(), y.to_repr(), z.to_repr())
}

/// `Ep + Ep` of `pasta_curves`: the discrete logarithms are added.
#[verifier::external_body]
fn pallas_add(a: Xyz, b: Xyz) -> (r: Xyz)
    requires
        jacobian_point(a),
        jacobian_point(b),
    ensures
        jacobian_point(r),
        jacobian_dlog(r) == (jacobian_dlog(a) + jacobian_dlog(b)) % fq::fq_modulus(),
{
    let f = |b: [u8; 32]| pasta_curves::Fp::from_repr(b).unwrap();
    let a = pasta_curves::Ep::new_jacobian(f(a.0), f(a.1), f(a.2)).unwrap();
    let b = pasta_curves::Ep::new_jacobian(f(b.0), f(b.1), f(b.2)).unwrap();
    let (x, y, z) = (a + b).jacobian_coordinates();
    (x.to_repr(), y.to_repr(), z.to_repr())
}

/// `Ep + EpAffine` of `pasta_curves`: the discrete logarithms are added.
#[verifier::external_body]
fn pallas_add_mixed(a: Xyz, b: Xy) -> (r: Xyz)
    requires
        jacobian_point(a),
        affine_point(b),
    ensures
        jacobian_point(r),
        jacobian_dlog(r) == (jacobian_dlog(a) + affine_dlog(b)) % fq::fq_modulus(),
{
    let f = |b: [u8; 32]| pasta_curves::Fp::from_repr(b).unwrap();
    let a = pasta_curves::Ep::new_jacobian(f(a.0), f(a.1), f(a.2)).unwrap();
    let b = pasta_curves::EpAffine::from_xy(f(b.0), f(b.1)).unwrap();
    let (x, y, z) = (a + b).jacobian_coordinates();
    (x.to_repr(), y.to_repr(), z.to_repr())
}

/// `Group::double` of `Ep`: the discrete logarithm is doubled.
#[verifier::external_body]
fn pallas_double(a: Xyz) -> (r: Xyz)
    requires
        jacobian_point(a),
    ensures
        jacobian_point(r),
        jacobian_dlog(r) == (2 * jacobian_dlog(a)) % fq::fq_modulus(),
{
    let f = |b: [u8; 32]| pasta_curves::Fp::from_repr(b).unwrap();
    let a = pasta_curves::Ep::new_jacobian(f(a.0), f(a.1), f(a.2)).unwrap();
    let (x, y, z) = a.double().jacobian_coordinates();
    (x.to_repr(), y.to_repr(), z.to_repr())
}

/// `EpAffine * Fq` of `pasta_curves`: the discrete logarithm is multiplied by the
/// scalar.
#[verifier::external_body]
fn pallas_mul(a: Xy, scalar: [u8; 32]) -> (r: Xyz)
    requires
        affine_point(a),
        bytes::le_nat(scalar@) < fq::fq_modulus(),
    ensures
        jacobian_point(r),
        jacobian_dlog(r) == (bytes::le_nat(scalar@) * affine_dlog(a)) % fq::fq_modulus(),
{
    let f = |b: [u8; 32]| pasta_curves::Fp::from_repr(b).unwrap();
    let a = pasta_curves::EpAffine::from_xy(f(a.0), f(a.1)).unwrap();
    let scalar = pasta_curves::Fq::from_repr(scalar).unwrap();
    let (x, y, z) = (a * scalar).jacobian_coordinates();
    (x.to_repr(), y.to_repr(), z.to_repr())
}

/// `Curve::to_affine` of `Ep`: the same point, so the same discrete logarithm.
#[verifier::external_body]
fn pallas_to_affine(a: Xyz) -> (r: Xy)
    requires
        jacobian_point(a),
    ensures
        affine_point(r),
        affine_dlog(r) == jacobian_dlog(a),
{
    let f = |b: [u8; 32]| pasta_curves::Fp::from_repr(b).unwrap();
    let a = pasta_curves::Ep::new_jacobian(f(a.0), f(a.1), f(a.2)).unwrap();
    let (x, y, _) = a.to_affine().to_curve().jacobian_coordinates();
    (x.to_repr(), y.to_repr())
}

/// `Curve::batch_normalize` of `Ep`: the same points in the same order.
#[verifier::external_body]
fn pallas_batch_normalize(points: &Vec<Pallas>) -> (r: Vec<Xy>)
    requires
        forall|i: int| 0 <= i < points.len() ==> jacobian_point((#[trigger] points@[i]).xyz),
    ensures
        r.len() == points.len(),
        forall|i: int|
            0 <= i < r.len() ==> affine_point(#[trigger] r@[i]) && affine_dlog(r@[i])
                == jacobian_dlog(points@[i].xyz),
{
    let f = |b: [u8; 32]| pasta_curves::Fp::from_repr(b).unwrap();
    let g = |a: Xyz| pasta_curves::Ep::new_jacobian(f(a.0), f(a.1), f(a.2)).unwrap();
    let from: Vec<pasta_curves::Ep> = points.iter().map(|a| g(a.xyz)).collect();
    let mut to = vec![pasta_curves::EpAffine::identity(); from.len()];
    pasta_curves::Ep::batch_normalize(&from, &mut to);
    let c = |a: &pasta_curves::EpAffine| a.to_curve().jacobian_coordinates();
    to.iter().map(|a| (c(a).0.to_repr(), c(a).1.to_repr())).collect()
}

/// A point of Pallas in affine coordinates.
#[derive(Clone, Copy, Debug, PartialEq, Eq)]
pub struct PallasAffine {
    xy: Xy,
}

/// A point of Pallas in Jacobian coordinates.
#[derive(Clone, Copy, Debug)]
pub struct Pallas {
    xyz: Xyz,
}

impl PallasAffine {
    #[verifier::type_invariant]
    spec fn is_point(self) -> bool {
        affine_point(self.xy)
    }
}

impl Pallas {
    #[verifier::type_invariant]
    spec fn is_point(self) -> bool {
        jacobian_point(self.xyz)
    }
}

/// A discrete logarithm is what `dlog` chooses.
proof fn lemma_affine_dlog(a: Xy, k: nat)
    requires
        affine_log(a, k),
    ensures
        affine_point(a),
        affine_dlog(a) == k,
        pallas_multiple(k) == (bytes::le_nat(a.0@), bytes::le_nat(a.1@)),
{
    let c = choose|c: nat| affine_log(a, c);
    assert(affine_log(a, c));
    assert(pallas_multiple(k) == (bytes::le_nat(a.0@), bytes::le_nat(a.1@)));
    assert(k == c);
}

/// A discrete logarithm is what `dlog` chooses.
proof fn lemma_jacobian_dlog(a: Xyz, k: nat)
    requires
        jacobian_log(a, k),
    ensures
        jacobian_point(a),
        jacobian_dlog(a) == k,
{
    let c = choose|c: nat| jacobian_log(a, c);
    assert(jacobian_log(a, c));
    let (x, y, z) = (bytes::le_nat(a.0@), bytes::le_nat(a.1@), bytes::le_nat(a.2@));
    assert(curve::represents(x, y, z, pallas_multiple(k), fp::fp_modulus()));
    assert(k == c);
}

/// Affine coordinates with one behind them, or zero for the identity, are Jacobian
/// coordinates of the same point.
proof fn lemma_lift(a: Xyz, k: nat)
    requires
        affine_log((a.0, a.1), k),
        bytes::le_nat(a.2@) == if bytes::le_nat(a.0@) == 0 && bytes::le_nat(a.1@) == 0 {
            0nat
        } else {
            1
        },
    ensures
        jacobian_log(a, k),
{
    let p = fp::fp_modulus();
    let (x, y, z) = (bytes::le_nat(a.0@), bytes::le_nat(a.1@), bytes::le_nat(a.2@));
    assert forall|j: nat| j < fq::fq_modulus() implies (curve::represents(
        x,
        y,
        z,
        #[trigger] pallas_multiple(j),
        p,
    ) <==> j == k) by {
        let m = pallas_multiple(j);
        assert(m == (x, y) <==> j == k);
        if z == 1 {
            assert(m.0 * 1 * 1 == m.0 && m.1 * 1 * 1 * 1 == m.1);
            if m.0 < p {
                vstd::arithmetic::div_mod::lemma_small_mod(m.0, p as nat);
            }
            if m.1 < p {
                vstd::arithmetic::div_mod::lemma_small_mod(m.1, p as nat);
            }
        }
    }
}

impl CurveAffine for PallasAffine {
    type Scalar = Fq;

    type Base = Fp;

    type Curve = Pallas;

    closed spec fn dlog(&self) -> int {
        affine_dlog(self.xy)
    }

    closed spec fn curve_dlog(c: &Pallas) -> int {
        jacobian_dlog(c.xyz)
    }

    open spec fn point(dlog: int) -> (int, int) {
        (pallas_multiple(dlog as nat).0 as int, pallas_multiple(dlog as nat).1 as int)
    }

    open spec fn base_point() -> (int, int) {
        (fp::fp_modulus() - 1, 2)
    }

    open spec fn on_curve(x: int, y: int) -> bool {
        pallas_equation(x, y)
    }

    proof fn lemma_dlog(&self) {
    }

    proof fn lemma_curve_dlog(c: &Pallas) {
    }

    fn identity() -> (r: Self) {
        let xy = pallas_identity();
        proof {
            lemma_affine_dlog(xy, 0);
        }
        PallasAffine { xy }
    }

    fn generator() -> (r: Self) {
        let xy = pallas_generator();
        proof {
            lemma_affine_dlog(xy, 1);
        }
        PallasAffine { xy }
    }

    fn from_xy(x: Fp, y: Fp) -> (r: Option<Self>) {
        proof {
            x.lemma_range();
            y.lemma_range();
        }
        let xy: Xy = (x.to_repr(), y.to_repr());
        if pallas_from_xy(xy) {
            proof {
                lemma_affine_dlog(xy, choose|k: nat| affine_log(xy, k));
            }
            Some(PallasAffine { xy })
        } else {
            None
        }
    }

    fn coordinates(&self) -> (r: Option<(Fp, Fp)>) {
        proof {
            use_type_invariant(self);
            lemma_affine_dlog(self.xy, choose|k: nat| affine_log(self.xy, k));
        }
        if bytes::all_zero(&self.xy.0) && bytes::all_zero(&self.xy.1) {
            return None;
        }
        match (Fp::from_repr(self.xy.0), Fp::from_repr(self.xy.1)) {
            (Some(x), Some(y)) => Some((x, y)),
            _ => None,
        }
    }

    fn to_curve(&self) -> (r: Pallas) {
        proof {
            use_type_invariant(self);
        }
        let identity = bytes::all_zero(&self.xy.0) && bytes::all_zero(&self.xy.1);
        let z = if identity {
            Fp::zero()
        } else {
            Fp::one()
        };
        let xyz: Xyz = (self.xy.0, self.xy.1, z.to_repr());
        proof {
            let k = choose|k: nat| affine_log(self.xy, k);
            lemma_affine_dlog(self.xy, k);
            lemma_lift(xyz, k);
            lemma_jacobian_dlog(xyz, k);
        }
        Pallas { xyz }
    }

    fn to_affine(c: &Pallas) -> (r: Self) {
        proof {
            use_type_invariant(c);
        }
        PallasAffine { xy: pallas_to_affine(c.xyz) }
    }

    fn batch_normalize(c: &Vec<Pallas>) -> (r: Vec<Self>) {
        let mut i: usize = 0;
        while i < c.len()
            invariant
                i <= c.len(),
                forall|j: int| 0 <= j < i ==> jacobian_point((#[trigger] c@[j]).xyz),
            decreases c.len() - i,
        {
            let point = &c[i];
            proof {
                use_type_invariant(point);
            }
            i = i + 1;
        }
        let affine = pallas_batch_normalize(c);
        let mut r: Vec<Self> = Vec::with_capacity(affine.len());
        while r.len() < affine.len()
            invariant
                affine.len() == c.len(),
                r.len() <= affine.len(),
                forall|j: int|
                    0 <= j < affine.len() ==> affine_point(#[trigger] affine@[j]) && affine_dlog(
                        affine@[j],
                    ) == jacobian_dlog(c@[j].xyz),
                forall|j: int|
                    0 <= j < r.len() ==> (#[trigger] r@[j]).dlog() == Self::curve_dlog(&c@[j]),
            decreases affine.len() - r.len(),
        {
            let xy: Xy = affine[r.len()];
            r.push(PallasAffine { xy });
        }
        r
    }

    fn curve_identity() -> (r: Pallas) {
        Self::identity().to_curve()
    }

    fn add(&self, other: &Self) -> (r: Pallas) {
        proof {
            use_type_invariant(self);
            use_type_invariant(other);
        }
        Pallas { xyz: pallas_add_affine(self.xy, other.xy) }
    }

    fn curve_add(a: &Pallas, b: &Pallas) -> (r: Pallas) {
        proof {
            use_type_invariant(a);
            use_type_invariant(b);
        }
        Pallas { xyz: pallas_add(a.xyz, b.xyz) }
    }

    fn curve_add_affine(a: &Pallas, b: &Self) -> (r: Pallas) {
        proof {
            use_type_invariant(a);
            use_type_invariant(b);
        }
        Pallas { xyz: pallas_add_mixed(a.xyz, b.xy) }
    }

    fn curve_double(a: &Pallas) -> (r: Pallas) {
        proof {
            use_type_invariant(a);
        }
        Pallas { xyz: pallas_double(a.xyz) }
    }

    fn mul(&self, scalar: &Fq) -> (r: Pallas) {
        proof {
            use_type_invariant(self);
            scalar.lemma_range();
        }
        Pallas { xyz: pallas_mul(self.xy, scalar.to_repr()) }
    }
}

} // verus!
