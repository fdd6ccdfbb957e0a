//! The Vesta curve, `y^2 = x^3 + 5`.
//!
//! A point is held as the canonical encodings of its coordinates. The curve
//! arithmetic is that of `pasta_curves`.
use crate::bytes;
use crate::curve;
use crate::curve::CurveAffine;
use crate::field::{Field, PrimeField};
use crate::fp;
use crate::fp::Fp;
use crate::fq;
use crate::fq::Fq;
use ff::PrimeField as _;
use pasta_curves::arithmetic::{CurveAffine as _, CurveExt as _};
use pasta_curves::group::{Curve as _, CurveAffine as _, Group as _};
use vstd::prelude::*;

verus! {

/// An encoding of affine coordinates.
type Xy = ([u8; 32], [u8; 32]);

/// An encoding of Jacobian coordinates.
type Xyz = ([u8; 32], [u8; 32], [u8; 32]);

/// The affine coordinates of the multiple by `k` of the generator of `pasta_curves`'
/// Vesta, `(0, 0)` for the identity.
pub uninterp spec fn vesta_multiple(k: nat) -> (nat, nat);

/// `k` is the discrete logarithm of the point with these affine coordinates: of all
/// multiples of the generator, just the one by `k` has them.
pub open spec fn vesta_log(x: nat, y: nat, k: nat) -> bool {
    &&& k < fp::fp_modulus()
    &&& forall|j: nat|
        j < fp::fp_modulus() ==> (#[trigger] vesta_multiple(j) == (x, y) <==> j == k)
}

/// `k` is the discrete logarithm of the point with these Jacobian coordinates.
pub open spec fn vesta_curve_log(x: nat, y: nat, z: nat, k: nat) -> bool {
    &&& k < fp::fp_modulus()
    &&& forall|j: nat|
        j < fp::fp_modulus() ==> (curve::represents(
            x,
            y,
            z,
            #[trigger] vesta_multiple(j),
            fq::fq_modulus(),
        ) <==> j == k)
}

/// `y^2 = x^3 + 5`.
pub open spec fn vesta_equation(x: int, y: int) -> bool {
    (y * y) % fq::fq_modulus() == (x * x * x + 5) % fq::fq_modulus()
}

/// `k` is the discrete logarithm of the encoded point.
spec fn affine_log(a: Xy, k: nat) -> bool {
    &&& bytes::le_nat(a.0@) < fq::fq_modulus()
    &&& bytes::le_nat(a.1@) < fq::fq_modulus()
    &&& vesta_log(bytes::le_nat(a.0@), bytes::le_nat(a.1@), k)
}

/// `k` is the discrete logarithm of the encoded point.
spec fn jacobian_log(a: Xyz, k: nat) -> bool {
    &&& bytes::le_nat(a.0@) < fq::fq_modulus()
    &&& bytes::le_nat(a.1@) < fq::fq_modulus()
    &&& bytes::le_nat(a.2@) < fq::fq_modulus()
    &&& vesta_curve_log(bytes::le_nat(a.0@), bytes::le_nat(a.1@), bytes::le_nat(a.2@), k)
}

/// The encoded coordinates are those of a point.
spec fn affine_point(a: Xy) -> bool {
    exists|k: nat| affine_log(a, k)
}

/// The encoded coordinates are those of a point.
spec fn jacobian_point(a: Xyz) -> bool {
    exists|k: nat| jacobian_log(a, k)
}

/// The discrete logarithm of the encoded point.
spec fn affine_dlog(a: Xy) -> int {
    (choose|k: nat| affine_log(a, k)) as int % fp::fp_modulus()
}

/// The discrete logarithm of the encoded point.
spec fn jacobian_dlog(a: Xyz) -> int {
    (choose|k: nat| jacobian_log(a, k)) as int % fp::fp_modulus()
}

/// `CurveAffine::identity` of `EqAffine`: the point without coordinates, which is
/// held as `(0, 0)` and is the multiple of the generator by zero.
#[verifier::external_body]
fn vesta_identity() -> (r: Xy)
    ensures
        bytes::le_nat(r.0@) == 0,
        bytes::le_nat(r.1@) == 0,
        affine_log(r, 0),
{
    let (x, y, _) = pasta_curves::EqAffine::identity().to_curve().jacobian_coordinates();
    (x.to_repr(), y.to_repr())
}

/// `CurveAffine::generator` of `EqAffine`: the point `(-1, 2)`, its multiple by one.
#[verifier::external_body]
fn vesta_generator() -> (r: Xy)
    ensures
        (bytes::le_nat(r.0@), bytes::le_nat(r.1@)) == vesta_multiple(1),
        bytes::le_nat(r.0@) == fq::fq_modulus() - 1,
        bytes::le_nat(r.1@) == 2,
        affine_log(r, 1),
{
    let (x, y, _) = pasta_curves::EqAffine::generator().to_curve().jacobian_coordinates();
    (x.to_repr(), y.to_repr())
}

/// `CurveAffine::from_xy` of `EqAffine`: whether there is a point with these
/// coordinates. `(0, 0)` stands for the identity, and is the only pair that does not
/// meet the equation. The group has prime order, so each of its points is a multiple
/// of the generator by one number below the order.
#[verifier::external_body]
fn vesta_from_xy(a: Xy) -> (r: bool)
    requires
        bytes::le_nat(a.0@) < fq::fq_modulus(),
        bytes::le_nat(a.1@) < fq::fq_modulus(),
    ensures
        r <==> vesta_equation(bytes::le_nat(a.0@) as int, bytes::le_nat(a.1@) as int) || (
        bytes::le_nat(a.0@) == 0 && bytes::le_nat(a.1@) == 0),
        r ==> affine_point(a),
{
    let x = pasta_curves::Fq::from_repr(a.0).unwrap();
    let y = pasta_curves::Fq::from_repr(a.1).unwrap();
    pasta_curves::EqAffine::from_xy(x, y).is_some().into()
}

/// `EqAffine + EqAffine` of `pasta_curves`: the discrete logarithms are added.
#[verifier::external_body]
fn vesta_add_affine(a: Xy, b: Xy) -> (r: Xyz)
    requires
        affine_point(a),
        affine_point(b),
    ensures
        jacobian_point(r),
        jacobian_dlog(r) == (affine_dlog(a) + affine_dlog(b)) % fp::fp_modulus(),
{
    let f = |b: [u8; 32]| pasta_curves::Fq::from_repr(b).unwrap();
    let a = pasta_curves::EqAffine::from_xy(f(a.0), f(a.1)).unwrap();
    let b = pasta_curves::EqAffine::from_xy(f(b.0), f(b.1)).unwrap();
    let (x, y, z) = (a + b).jacobian_coordinates();
    (x.to_repr(), y.to_repr(), z.to_repr())
}

/// `Eq + Eq` of `pasta_curves`: the discrete logarithms are added.
#[verifier::external_body]
fn vesta_add(a: Xyz, b: Xyz) -> (r: Xyz)
    requires
        jacobian_point(a),
        jacobian_point(b),
    ensures
        jacobian_point(r),
        jacobian_dlog(r) == (jacobian_dlog(a) + jacobian_dlog(b)) % fp::fp_modulus(),
{
    let f = |b: [u8; 32]| pasta_curves::Fq::from_repr(b).unwrap();
    let a = pasta_curves::Eq::new_jacobian(f(a.0), f(a.1), f(a.2)).unwrap();
    let b = pasta_curves::Eq::new_jacobian(f(b.0), f(b.1), f(b.2)).unwrap();
    let (x, y, z) = (a + b).jacobian_coordinates();
    (x.to_repr(), y.to_repr(), z.to_repr())
}

/// `Eq + EqAffine` of `pasta_curves`: the discrete logarithms are added.
#[verifier::external_body]
fn vesta_add_mixed(a: Xyz, b: Xy) -> (r: Xyz)
    requires
        jacobian_point(a),
        affine_point(b),
    ensures
        jacobian_point(r),
        jacobian_dlog(r) == (jacobian_dlog(a) + affine_dlog(b)) % fp::fp_modulus(),
{
    let f = |b: [u8; 32]| pasta_curves::Fq::from_repr(b).unwrap();
    let a = pasta_curves::Eq::new_jacobian(f(a.0), f(a.1), f(a.2)).unwrap();
    let b = pasta_curves::EqAffine::from_xy(f(b.0), f(b.1)).unwrap();
    let (x, y, z) = (a + b).jacobian_coordinates();
    (x.to_repr(), y.to_repr(), z.to_repr())
}

/// `Group::double` of `Eq`: the discrete logarithm is doubled.
#[verifier::external_body]
fn vesta_double(a: Xyz) -> (r: Xyz)
    requires
        jacobian_point(a),
    ensures
        jacobian_point(r),
        jacobian_dlog(r) == (2 * jacobian_dlog(a)) % fp::fp_modulus(),
{
    let f = |b: [u8; 32]| pasta_curves::Fq::from_repr(b).unwrap();
    let a = pasta_curves::Eq::new_jacobian(f(a.0), f(a.1), f(a.2)).unwrap();
    let (x, y, z) = a.double().jacobian_coordinates();
    (x.to_repr(), y.to_repr(), z.to_repr())
}

/// `EqAffine * Fp` of `pasta_curves`: the discrete logarithm is multiplied by the
/// scalar.
#[verifier::external_body]
fn vesta_mul(a: Xy, scalar: [u8; 32]) -> (r: Xyz)
    requires
        affine_point(a),
        bytes::le_nat(scalar@) < fp::fp_modulus(),
    ensures
        jacobian_point(r),
        jacobian_dlog(r) == (bytes::le_nat(scalar@) * affine_dlog(a)) % fp::fp_modulus(),
{
    let f = |b: [u8; 32]| pasta_curves::Fq::from_repr(b).unwrap();
    let a = pasta_curves::EqAffine::from_xy(f(a.0), f(a.1)).unwrap();
    let scalar = pasta_curves::Fp::from_repr(scalar).unwrap();
    let (x, y, z) = (a * scalar).jacobian_coordinates();
    (x.to_repr(), y.to_repr(), z.to_repr())
}

/// `Curve::to_affine` of `Eq`: the same point, so the same discrete logarithm.
#[verifier::external_body]
fn vesta_to_affine(a: Xyz) -> (r: Xy)
    requires
        jacobian_point(a),
    ensures
        affine_point(r),
        affine_dlog(r) == jacobian_dlog(a),
{
    let f = |b: [u8; 32]| pasta_curves::Fq::from_repr(b).unwrap();
    let a = pasta_curves::Eq::new_jacobian(f(a.0), f(a.1), f(a.2)).unwrap();
    let (x, y, _) = a.to_affine().to_curve().jacobian_coordinates();
    (x.to_repr(), y.to_repr())
}

/// `Curve::batch_normalize` of `Eq`: the same points in the same order.
#[verifier::external_body]
fn vesta_batch_normalize(points: &Vec<Vesta>) -> (r: Vec<Xy>)
    requires
        forall|i: int| 0 <= i < points.len() ==> jacobian_point((#[trigger] points@[i]).xyz),
    ensures
        r.len() == points.len(),
        forall|i: int|
            0 <= i < r.len() ==> affine_point(#[trigger] r@[i]) && affine_dlog(r@[i])
                == jacobian_dlog(points@[i].xyz),
{
    let f = |b: [u8; 32]| pasta_curves::Fq::from_repr(b).unwrap();
    let g = |a: Xyz| pasta_curves::Eq::new_jacobian(f(a.0), f(a.1), f(a.2)).unwrap();
    let from: Vec<pasta_curves::Eq> = points.iter().map(|a| g(a.xyz)).collect();
    let mut to = vec![pasta_curves::EqAffine::identity(); from.len()];
    pasta_curves::Eq::batch_normalize(&from, &mut to);
    let c = |a: &pasta_curves::EqAffine| a.to_curve().jacobian_coordinates();
    to.iter().map(|a| (c(a).0.to_repr(), c(a).1.to_repr())).collect()
}

/// A point of Vesta in affine coordinates.
#[derive(Clone, Copy, Debug, PartialEq, Eq)]
pub struct VestaAffine {
    xy: Xy,
}

/// A point of Vesta in Jacobian coordinates.
#[derive(Clone, Copy, Debug)]
pub struct Vesta {
    xyz: Xyz,
}

impl VestaAffine {
    #[verifier::type_invariant]
    spec fn is_point(self) -> bool {
        affine_point(self.xy)
    }
}

impl Vesta {
    #[verifier::type_invariant]
    spec fn is_point(self) -> bool {
        jacobian_point(self.xyz)
    }
}

/// A discrete logarithm is what `dlog` chooses.
proof fn lemma_affine_dlog(a: Xy, k: nat)
    requires
        affine_log(a, k),
    ensures
        affine_point(a),
        affine_dlog(a) == k,
        vesta_multiple(k) == (bytes::le_nat(a.0@), bytes::le_nat(a.1@)),
{
    let c = choose|c: nat| affine_log(a, c);
    assert(affine_log(a, c));
    assert(vesta_multiple(k) == (bytes::le_nat(a.0@), bytes::le_nat(a.1@)));
    assert(k == c);
}

/// A discrete logarithm is what `dlog` chooses.
proof fn lemma_jacobian_dlog(a: Xyz, k: nat)
    requires
        jacobian_log(a, k),
    ensures
        jacobian_point(a),
        jacobian_dlog(a) == k,
{
    let c = choose|c: nat| jacobian_log(a, c);
    assert(jacobian_log(a, c));
    let (x, y, z) = (bytes::le_nat(a.0@), bytes::le_nat(a.1@), bytes::le_nat(a.2@));
    assert(curve::represents(x, y, z, vesta_multiple(k), fq::fq_modulus()));
    assert(k == c);
}

/// Affine coordinates with one behind them, or zero for the identity, are Jacobian
/// coordinates of the same point.
proof fn lemma_lift(a: Xyz, k: nat)
    requires
        affine_log((a.0, a.1), k),
        bytes::le_nat(a.2@) == if bytes::le_nat(a.0@) == 0 && bytes::le_nat(a.1@) == 0 {
            0nat
        } else {
            1
        },
    ensures
        jacobian_log(a, k),
{
    let p = fq::fq_modulus();
    let (x, y, z) = (bytes::le_nat(a.0@), bytes::le_nat(a.1@), bytes::le_nat(a.2@));
    assert forall|j: nat| j < fp::fp_modulus() implies (curve::represents(
        x,
        y,
        z,
        #[trigger] vesta_multiple(j),
        p,
    ) <==> j == k) by {
        let m = vesta_multiple(j);
        assert(m == (x, y) <==> j == k);
        if z == 1 {
            assert(m.0 * 1 * 1 == m.0 && m.1 * 1 * 1 * 1 == m.1);
            if m.0 < p {
                vstd::arithmetic::div_mod::lemma_small_mod(m.0, p as nat);
            }
            if m.1 < p {
                vstd::arithmetic::div_mod::lemma_small_mod(m.1, p as nat);
            }
        }
    }
}

impl CurveAffine for VestaAffine {
    type Scalar = Fp;

    type Base = Fq;

    type Curve = Vesta;

    closed spec fn dlog(&self) -> int {
        affine_dlog(self.xy)
    }

    closed spec fn curve_dlog(c: &Vesta) -> int {
        jacobian_dlog(c.xyz)
    }

    open spec fn point(dlog: int) -> (int, int) {
        (vesta_multiple(dlog as nat).0 as int, vesta_multiple(dlog as nat).1 as int)
    }

    open spec fn base_point() -> (int, int) {
        (fq::fq_modulus() - 1, 2)
    }

    open spec fn on_curve(x: int, y: int) -> bool {
        vesta_equation(x, y)
    }

    proof fn lemma_dlog(&self) {
    }

    proof fn lemma_curve_dlog(c: &Vesta) {
    }

    fn identity() -> (r: Self) {
        let xy = vesta_identity();
        proof {
            lemma_affine_dlog(xy, 0);
        }
        VestaAffine { xy }
    }

    fn generator() -> (r: Self) {
        let xy = vesta_generator();
        proof {
            lemma_affine_dlog(xy, 1);
        }
        VestaAffine { xy }
    }

    fn from_xy(x: Fq, y: Fq) -> (r: Option<Self>) {
        proof {
            x.lemma_range();
            y.lemma_range();
        }
        let xy: Xy = (x.to_repr(), y.to_repr());
        if vesta_from_xy(xy) {
            proof {
                lemma_affine_dlog(xy, choose|k: nat| affine_log(xy, k));
            }
            Some(VestaAffine { xy })
        } else {
            None
        }
    }

    fn coordinates(&self) -> (r: Option<(Fq, Fq)>) {
        proof {
            use_type_invariant(self);
            lemma_affine_dlog(self.xy, choose|k: nat| affine_log(self.xy, k));
        }
        if bytes::all_zero(&self.xy.0) && bytes::all_zero(&self.xy.1) {
            return None;
        }
        match (Fq::from_repr(self.xy.0), Fq::from_repr(self.xy.1)) {
            (Some(x), Some(y)) => Some((x, y)),
            _ => None,
        }
    }

    fn to_curve(&self) -> (r: Vesta) {
        proof {
            use_type_invariant(self);
        }
        let identity = bytes::all_zero(&self.xy.0) && bytes::all_zero(&self.xy.1);
        let z = if identity {
            Fq::zero()
        } else {
            Fq::one()
        };
        let xyz: Xyz = (self.xy.0, self.xy.1, z.to_repr());
        proof {
            let k = choose|k: nat| affine_log(self.xy, k);
            lemma_affine_dlog(self.xy, k);
            lemma_lift(xyz, k);
            lemma_jacobian_dlog(xyz, k);
        }
        Vesta { xyz }
    }

    fn to_affine(c: &Vesta) -> (r: Self) {
        proof {
            use_type_invariant(c);
        }
        VestaAffine { xy: vesta_to_affine(c.xyz) }
    }

    fn batch_normalize(c: &Vec<Vesta>) -> (r: Vec<Self>) {
        let mut i: usize = 0;
        while i < c.len()
            invariant
                i <= c.len(),
                forall|j: int| 0 <= j < i ==> jacobian_point((#[trigger] c@[j]).xyz),
            decreases c.len() - i,
        {
            let point = &c[i];
            proof {
                use_type_invariant(point);
            }
            i = i + 1;
        }
        let affine = vesta_batch_normalize(c);
        let mut r: Vec<Self> = Vec::with_capacity(affine.len());
        while r.len() < affine.len()
            invariant
                affine.len() == c.len(),
                r.len() <= affine.len(),
                forall|j: int|
                    0 <= j < affine.len() ==> affine_point(#[trigger] affine@[j]) && affine_dlog(
                        affine@[j],
                    ) == jacobian_dlog(c@[j].xyz),
                forall|j: int|
                    0 <= j < r.len() ==> (#[trigger] r@[j]).dlog() == Self::curve_dlog(&c@[j]),
            decreases affine.len() - r.len(),
        {
            let xy: Xy = affine[r.len()];
            r.push(VestaAffine { xy });
        }
        r
    }

    fn curve_identity() -> (r: Vesta) {
        Self::identity().to_curve()
    }

    fn add(&self, other: &Self) -> (r: Vesta) {
        proof {
            use_type_invariant(self);
            use_type_invariant(other);
        }
        Vesta { xyz: vesta_add_affine(self.xy, other.xy) }
    }

    fn curve_add(a: &Vesta, b: &Vesta) -> (r: Vesta) {
        proof {
            use_type_invariant(a);
            use_type_invariant(b);
        }
        Vesta { xyz: vesta_add(a.xyz, b.xyz) }
    }

    fn curve_add_affine(a: &Vesta, b: &Self) -> (r: Vesta) {
        proof {
            use_type_invariant(a);
            use_type_invariant(b);
        }
        Vesta { xyz: vesta_add_mixed(a.xyz, b.xy) }
    }

    fn curve_double(a: &Vesta) -> (r: Vesta) {
        proof {
            use_type_invariant(a);
        }
        Vesta { xyz: vesta_double(a.xyz) }
    }

    fn mul(&self, scalar: &Fp) -> (r: Vesta) {
        proof {
            use_type_invariant(self);
            scalar.lemma_range();
        }
        Vesta { xyz: vesta_mul(self.xy, scalar.to_repr()) }
    }
}

} // verus!
