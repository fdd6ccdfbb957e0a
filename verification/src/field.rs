//! Prime fields.
//!
//! An element is spoken of through its canonical representative, an integer of
//! `[0, modulus)`. Contracts state what an operation does to representatives, so
//! that what is proved of a computation is a statement about integers modulo the
//! field's size.
use crate::bytes;
use pasta_curves::deferred::Product;
use rand::rngs::StdRng;
use vstd::arithmetic::power::*;
use vstd::arithmetic::power2::*;
use vstd::prelude::*;

verus! {

/// The seedable generator of `rand`, carried through to the calls that sample.
#[verifier::external_type_specification]
#[verifier::external_body]
pub struct ExStdRng(rand::rngs::StdRng);

/// The wide accumulator of `pasta_curves`, which sums products before it reduces
/// them.
#[verifier::external_type_specification]
#[verifier::external_body]
#[verifier::reject_recursive_types(F)]
pub struct ExProduct<F>(pasta_curves::deferred::Product<F>);

/// An element of a field with a prime number of elements.
pub trait Field: Copy {
    /// The number of elements.
    spec fn modulus() -> int;

    /// The canonical representative.
    spec fn val(&self) -> int;

    /// The field is not the field of two elements.
    proof fn lemma_modulus()
        ensures
            Self::modulus() > 2,
            Self::modulus() % 2 == 1,
    ;

    /// Representatives are in range.
    proof fn lemma_range(&self)
        ensures
            0 <= self.val() < Self::modulus(),
    ;

    /// The additive identity.
    fn zero() -> (r: Self)
        ensures
            r.val() == 0,
    ;

    /// The multiplicative identity.
    fn one() -> (r: Self)
        ensures
            r.val() == 1,
    ;

    /// Whether this is the additive identity.
    fn is_zero(&self) -> (r: bool)
        ensures
            r <==> self.val() == 0,
    ;

    /// The sum of two elements.
    fn add(&self, other: &Self) -> (r: Self)
        ensures
            r.val() == (self.val() + other.val()) % Self::modulus(),
    ;

    /// The difference of two elements.
    fn sub(&self, other: &Self) -> (r: Self)
        ensures
            r.val() == (self.val() - other.val()) % Self::modulus(),
    ;

    /// The product of two elements.
    fn mul(&self, other: &Self) -> (r: Self)
        ensures
            r.val() == (self.val() * other.val()) % Self::modulus(),
    ;

    /// The additive inverse.
    fn neg(&self) -> (r: Self)
        ensures
            r.val() == (-self.val()) % Self::modulus(),
    ;

    /// The product of the element with itself.
    fn square(&self) -> (r: Self)
        ensures
            r.val() == (self.val() * self.val()) % Self::modulus(),
    ;

    /// The element to the power of `exp`.
    fn pow_vartime(&self, exp: u64) -> (r: Self)
        ensures
            r.val() == pow(self.val(), exp as nat) % Self::modulus(),
    ;

    /// The multiplicative inverse, which every element but zero has.
    fn invert(&self) -> (r: Option<Self>)
        ensures
            r is None <==> self.val() == 0,
            r matches Some(i) ==> (self.val() * i.val()) % Self::modulus() == 1,
    ;

    /// Whether a draw may give this element and take the generator from one state to another.
    spec fn draws(before: StdRng, r: Self, after: StdRng) -> bool;

    /// An element drawn from `rng`. Which one is not stated: it is chance.
    fn random(rng: &mut StdRng) -> (r: Self)
        ensures
            Self::draws(*old(rng), r, *final(rng)),
    ;
}

/// A prime field whose elements have a canonical encoding and whose
/// multiplicative group has a subgroup of size a high power of two.
pub trait PrimeField: Field {
    /// The power of two that divides the size of the multiplicative group.
    spec fn two_adicity() -> nat;

    /// The root of unity whose order is two to the power of the two-adicity.
    spec fn root() -> int;

    /// The element congruent to `v`.
    fn from_u64(v: u64) -> (r: Self)
        ensures
            r.val() == (v as int) % Self::modulus(),
    ;

    /// The element with the little-endian encoding `repr`, if that is canonical.
    fn from_repr(repr: [u8; 32]) -> (r: Option<Self>)
        ensures
            r is Some <==> bytes::le_nat(repr@) < Self::modulus(),
            r matches Some(x) ==> x.val() == bytes::le_nat(repr@),
    ;

    /// The canonical little-endian encoding.
    fn to_repr(&self) -> (r: [u8; 32])
        ensures
            bytes::le_nat(r@) == self.val(),
    ;

    /// How many bits a representative takes.
    fn num_bits() -> (r: usize)
        ensures
            0 < r <= 256,
            pow2((r - 1) as nat) < Self::modulus() <= pow2(r as nat),
    ;

    /// The two-adicity of the field.
    fn s() -> (r: u32)
        ensures
            r == Self::two_adicity(),
            0 < r < 64,
    ;

    /// The root of unity whose order is two to the power of the two-adicity: its power at
    /// half the order is minus one.
    fn root_of_unity() -> (r: Self)
        ensures
            r.val() == Self::root(),
            pow(r.val(), pow2((Self::two_adicity() - 1) as nat)) % Self::modulus()
                == Self::modulus() - 1,
    ;
}

/// A field whose products can be summed before they are reduced.
pub trait DeferredField: PrimeField {
    /// A sum of products that has not been reduced yet.
    type Accumulator;

    /// The sum of the products that went into the accumulator, as a representative.
    spec fn total(acc: &Self::Accumulator) -> int;

    /// How often the accumulator has overflowed, which each product makes happen at most
    /// once.
    spec fn overflows(acc: &Self::Accumulator) -> nat;

    /// The accumulator without products.
    fn accumulator() -> (acc: Self::Accumulator)
        ensures
            Self::total(&acc) == 0,
            Self::overflows(&acc) == 0,
    ;

    /// Adds the product of `a` and `b`.
    fn mul_accumulate(acc: &mut Self::Accumulator, a: &Self, b: &Self)
        requires
            Self::overflows(old(acc)) < u64::MAX,
        ensures
            Self::total(final(acc)) == (Self::total(old(acc)) + a.val() * b.val())
                % Self::modulus(),
            Self::overflows(final(acc)) <= Self::overflows(old(acc)) + 1,
    ;

    /// The sum of the products as a field element.
    fn reduce(acc: Self::Accumulator) -> (r: Self)
        ensures
            r.val() == Self::total(&acc),
    ;
}

/// Draws from a generator, one after the other, gave these elements, and took the generator
/// through these states.
pub open spec fn drawn_through<F: Field>(states: Seq<StdRng>, c: Seq<F>) -> bool {
    &&& states.len() == c.len() + 1
    &&& forall|k: int| 0 <= k < c.len() ==> F::draws(states[k], #[trigger] c[k], states[k + 1])
}

/// Draws from a generator, one after the other, may give these elements and take the generator
/// from one state to the other.
pub open spec fn drawn<F: Field>(before: StdRng, c: Seq<F>, after: StdRng) -> bool {
    exists|states: Seq<StdRng>| #[trigger]
        drawn_through(states, c) && states.first() == before && states.last() == after
}

/// The representatives of a sequence of elements.
pub open spec fn vals<F: Field>(s: Seq<F>) -> Seq<int> {
    Seq::new(s.len(), |i: int| s[i].val())
}

} // verus!
