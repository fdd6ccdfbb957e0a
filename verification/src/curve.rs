//! Prime-order elliptic curve groups.
//!
//! A group of prime order is cyclic, so a point is spoken of through its discrete
//! logarithm to the curve's generator, an integer modulo the group's order. What a
//! computation on points does is then a statement about integers.
use crate::field::{Field, PrimeField};
use vstd::prelude::*;

verus! {

/// The Jacobian coordinates `(x, y, z)` stand for the affine point `(ax, ay)`, where
/// `(0, 0)` is the identity.
pub open spec fn represents(x: nat, y: nat, z: nat, affine: (nat, nat), p: int) -> bool {
    if affine == (0nat, 0nat) {
        z == 0
    } else {
        &&& z != 0
        &&& affine.0 < p
        &&& affine.1 < p
        &&& x == (affine.0 * z * z) as int % p
        &&& y == (affine.1 * z * z * z) as int % p
    }
}

/// A point of a curve of prime order, in affine coordinates.
pub trait CurveAffine: Copy {
    /// The field of the scalars, which has as many elements as the curve has points.
    type Scalar: PrimeField;

    /// The field of the coordinates.
    type Base: PrimeField;

    /// A point in coordinates that are fast to compute with.
    type Curve: Copy;

    /// The discrete logarithm.
    spec fn dlog(&self) -> int;

    /// The discrete logarithm of a point in the other coordinates.
    spec fn curve_dlog(c: &Self::Curve) -> int;

    /// The coordinates of the point with the given logarithm, both zero for the identity.
    spec fn point(dlog: int) -> (int, int);

    /// The coordinates of the generator.
    spec fn base_point() -> (int, int);

    /// The coordinates are those of a point of the curve other than the identity.
    spec fn on_curve(x: int, y: int) -> bool;

    /// Discrete logarithms are in range.
    proof fn lemma_dlog(&self)
        ensures
            0 <= self.dlog() < Self::Scalar::modulus(),
    ;

    /// Discrete logarithms are in range.
    proof fn lemma_curve_dlog(c: &Self::Curve)
        ensures
            0 <= Self::curve_dlog(c) < Self::Scalar::modulus(),
    ;

    /// The identity.
    fn identity() -> (r: Self)
        ensures
            r.dlog() == 0,
            Self::point(0) == (0int, 0int),
    ;

    /// The generator.
    fn generator() -> (r: Self)
        ensures
            r.dlog() == 1,
            Self::point(1) == Self::base_point(),
    ;

    /// The point with the coordinates `x` and `y`, if there is one.
    fn from_xy(x: Self::Base, y: Self::Base) -> (r: Option<Self>)
        ensures
            r is Some <==> Self::on_curve(x.val(), y.val()) || (x.val() == 0 && y.val() == 0),
            r matches Some(a) ==> Self::point(a.dlog()) == (x.val(), y.val()),
    ;

    /// The coordinates, which the identity has not.
    fn coordinates(&self) -> (r: Option<(Self::Base, Self::Base)>)
        ensures
            r is None <==> Self::point(self.dlog()) == (0int, 0int),
            r matches Some(c) ==> (c.0.val(), c.1.val()) == Self::point(self.dlog()),
    ;

    /// The same point in the other coordinates.
    fn to_curve(&self) -> (r: Self::Curve)
        ensures
            Self::curve_dlog(&r) == self.dlog(),
    ;

    /// The same point in affine coordinates.
    fn to_affine(c: &Self::Curve) -> (r: Self)
        ensures
            r.dlog() == Self::curve_dlog(c),
    ;

    /// The same points in affine coordinates, at the cost of one inversion.
    fn batch_normalize(c: &Vec<Self::Curve>) -> (r: Vec<Self>)
        ensures
            r.len() == c.len(),
            forall|i: int|
                0 <= i < r.len() ==> (#[trigger] r@[i]).dlog() == Self::curve_dlog(&c@[i]),
    ;

    /// The identity, in the other coordinates.
    fn curve_identity() -> (r: Self::Curve)
        ensures
            Self::curve_dlog(&r) == 0,
    ;

    /// The sum of two points.
    fn add(&self, other: &Self) -> (r: Self::Curve)
        ensures
            Self::curve_dlog(&r) == (self.dlog() + other.dlog()) % Self::Scalar::modulus(),
    ;

    /// The sum of two points.
    fn curve_add(a: &Self::Curve, b: &Self::Curve) -> (r: Self::Curve)
        ensures
            Self::curve_dlog(&r) == (Self::curve_dlog(a) + Self::curve_dlog(b))
                % Self::Scalar::modulus(),
    ;

    /// The sum of two points.
    fn curve_add_affine(a: &Self::Curve, b: &Self) -> (r: Self::Curve)
        ensures
            Self::curve_dlog(&r) == (Self::curve_dlog(a) + b.dlog()) % Self::Scalar::modulus(),
    ;

    /// The sum of a point and itself.
    fn curve_double(a: &Self::Curve) -> (r: Self::Curve)
        ensures
            Self::curve_dlog(&r) == (2 * Self::curve_dlog(a)) % Self::Scalar::modulus(),
    ;

    /// The multiple of the point by `scalar`.
    fn mul(&self, scalar: &Self::Scalar) -> (r: Self::Curve)
        ensures
            Self::curve_dlog(&r) == (scalar.val() * self.dlog()) % Self::Scalar::modulus(),
    ;
}

/// The discrete logarithms of a sequence of points.
pub open spec fn dlogs<C: CurveAffine>(s: Seq<C>) -> Seq<int> {
    Seq::new(s.len(), |i: int| s[i].dlog())
}

} // verus!
