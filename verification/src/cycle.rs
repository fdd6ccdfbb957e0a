//! Cycles of curves, and the generators that commitments are made with.
use crate::curve::CurveAffine;
use crate::field::{DeferredField, Field};
use crate::fp::Fp;
use crate::fq::Fq;
use crate::modular;
use crate::pallas::PallasAffine;
use crate::vesta::VestaAffine;
use vstd::prelude::*;

verus! {

/// Fixed generators of a curve. Nobody knows a relation between their discrete
/// logarithms.
pub trait FixedGenerators<C: CurveAffine> {
    /// The generators that vectors are committed with.
    spec fn bases(&self) -> Seq<C>;

    /// The generator that blinds.
    spec fn blinding(&self) -> C;

    /// The generators that vectors are committed with, such as the coefficients of a
    /// polynomial.
    fn g(&self) -> (r: &[C])
        ensures
            r@ == self.bases(),
    ;

    /// The generator that blinds.
    fn h(&self) -> (r: &C)
        ensures
            *r == self.blinding(),
    ;

    /// Commits to a single value.
    fn short_commit(&self, value: C::Scalar, blind: C::Scalar) -> (r: C)
        requires
            self.bases().len() > 0,
        ensures
            r.dlog() == (value.val() * self.bases()[0].dlog() + blind.val()
                * self.blinding().dlog()) % C::Scalar::modulus(),
    {
        let ghost q = C::Scalar::modulus();
        let shown = self.g()[0].mul(&value);
        let hidden = self.h().mul(&blind);
        let sum = C::curve_add(&shown, &hidden);
        proof {
            C::Scalar::lemma_modulus();
            let a = value.val() * self.bases()[0].dlog();
            let b = blind.val() * self.blinding().dlog();
            modular::lemma_rem(a, q);
            modular::lemma_rem(b, q);
            modular::lemma_add(a % q, a, b % q, b, q);
        }
        C::to_affine(&sum)
    }
}

/// Generators that are held in memory.
pub struct GeneratorSet<C: CurveAffine> {
    pub g: Vec<C>,
    pub h: C,
}

impl<C: CurveAffine> FixedGenerators<C> for GeneratorSet<C> {
    open spec fn bases(&self) -> Seq<C> {
        self.g@
    }

    open spec fn blinding(&self) -> C {
        self.h
    }

    fn g(&self) -> (r: &[C]) {
        self.g.as_slice()
    }

    fn h(&self) -> (r: &C) {
        &self.h
    }
}

/// The parameters of a Poseidon permutation over a field.
pub trait PoseidonPermutation<F: Field> {
    /// The parameters are those of a permutation of states of `width` elements.
    spec fn shaped(&self, width: nat) -> bool;

    /// The size of the state.
    fn t(&self) -> (r: usize)
        ensures
            self.shaped(r as nat),
    ;

    /// How many elements can be absorbed or squeezed between two permutations. It is
    /// smaller than the size of the state.
    fn rate(&self) -> (r: usize)
        ensures
            forall|width: nat| #[trigger] self.shaped(width) ==> r < width,
    ;

    /// The number of rounds that apply the power map to every element: an even number,
    /// half of them at the start and half at the end.
    fn full_rounds(&self) -> (r: usize)
        ensures
            r % 2 == 0,
    ;

    /// The number of rounds that apply the power map to the first element only.
    fn partial_rounds(&self) -> usize;

    /// The exponent of the power map.
    fn alpha(&self) -> isize;

    /// The constants of each round, one for each element of the state.
    fn round_constants(&self) -> (r: &Vec<Vec<F>>)
        ensures
            forall|width: nat, i: int|
                #[trigger] self.shaped(width) && 0 <= i < r.len() ==> (#[trigger] r@[i]).len()
                    == width,
    ;

    /// The rows of the matrix that mixes the state.
    fn mds_matrix(&self) -> (r: &Vec<Vec<F>>)
        ensures
            forall|width: nat| #[trigger] self.shaped(width) ==> r.len() == width,
            forall|width: nat, i: int|
                #[trigger] self.shaped(width) && 0 <= i < r.len() ==> (#[trigger] r@[i]).len()
                    == width,
    ;
}

/// A cycle of curves: the scalar field of each is the base field of the other.
pub trait Cycle {
    /// The field that circuits are written over.
    type CircuitField: DeferredField;

    /// The other field.
    type ScalarField: DeferredField;

    /// The curve for keys and signatures.
    type NestedCurve: CurveAffine<Scalar = Self::ScalarField, Base = Self::CircuitField>;

    /// The curve that commits to vectors over the circuit field.
    type HostCurve: CurveAffine<Scalar = Self::CircuitField, Base = Self::ScalarField>;

    /// Generators of the nested curve.
    type NestedGenerators: FixedGenerators<Self::NestedCurve>;

    /// Generators of the host curve.
    type HostGenerators: FixedGenerators<Self::HostCurve>;

    /// The permutation over the circuit field.
    type CircuitPoseidon: PoseidonPermutation<Self::CircuitField>;

    /// The permutation over the other field.
    type ScalarPoseidon: PoseidonPermutation<Self::ScalarField>;

    /// What holds the generators and the permutations.
    type Params;

    /// The generators of the nested curve.
    spec fn nested(params: &Self::Params) -> Self::NestedGenerators;

    /// The generators of the host curve.
    spec fn host(params: &Self::Params) -> Self::HostGenerators;

    /// The generators of the nested curve.
    fn nested_generators(params: &Self::Params) -> (r: &Self::NestedGenerators)
        ensures
            *r == Self::nested(params),
    ;

    /// The generators of the host curve.
    fn host_generators(params: &Self::Params) -> (r: &Self::HostGenerators)
        ensures
            *r == Self::host(params),
    ;

    /// The permutation over the circuit field.
    fn circuit_poseidon(params: &Self::Params) -> &Self::CircuitPoseidon;

    /// The permutation over the other field.
    fn scalar_poseidon(params: &Self::Params) -> &Self::ScalarPoseidon;
}

/// The constants of a Poseidon permutation, held in memory.
pub struct PoseidonConstants<F> {
    t: usize,
    rate: usize,
    full_rounds: usize,
    partial_rounds: usize,
    alpha: isize,
    round_constants: Vec<Vec<F>>,
    mds_matrix: Vec<Vec<F>>,
}

/// Every row has `width` elements.
pub open spec fn rows_of<F>(rows: Seq<Vec<F>>, width: int) -> bool {
    forall|i: int| 0 <= i < rows.len() ==> (#[trigger] rows[i]).len() == width
}

impl<F> PoseidonConstants<F> {
    #[verifier::type_invariant]
    spec fn consistent(self) -> bool {
        &&& self.rate < self.t
        &&& self.full_rounds % 2 == 0
        &&& rows_of(self.round_constants@, self.t as int)
        &&& rows_of(self.mds_matrix@, self.t as int)
        &&& self.mds_matrix.len() == self.t
    }

    /// Whether every row has `width` elements.
    fn rows_fit(rows: &Vec<Vec<F>>, width: usize) -> (r: bool)
        ensures
            r <==> rows_of(rows@, width as int),
    {
        let mut i: usize = 0;
        while i < rows.len()
            invariant
                i <= rows.len(),
                forall|j: int| 0 <= j < i ==> (#[trigger] rows@[j]).len() == width,
            decreases rows.len() - i,
        {
            if rows[i].len() != width {
                return false;
            }
            i = i + 1;
        }
        true
    }

    /// The given constants, if they fit together: the rate is smaller than the state, the
    /// number of full rounds is even, and each round and each of the rows of the square
    /// matrix has an element for each of the state.
    pub fn new(
        t: usize,
        rate: usize,
        full_rounds: usize,
        partial_rounds: usize,
        alpha: isize,
        round_constants: Vec<Vec<F>>,
        mds_matrix: Vec<Vec<F>>,
    ) -> (r: Option<Self>)
        ensures
            r is Some <==> rate < t && full_rounds % 2 == 0 && rows_of(
                round_constants@,
                t as int,
            ) && rows_of(mds_matrix@, t as int) && mds_matrix.len() == t,
            r matches Some(c) ==> c.parts() == (
                t,
                rate,
                full_rounds,
                partial_rounds,
                alpha,
                round_constants,
                mds_matrix,
            ),
    {
        if rate < t && full_rounds % 2 == 0 && Self::rows_fit(&round_constants, t)
            && Self::rows_fit(&mds_matrix, t) && mds_matrix.len() == t {
            Some(
                PoseidonConstants {
                    t,
                    rate,
                    full_rounds,
                    partial_rounds,
                    alpha,
                    round_constants,
                    mds_matrix,
                },
            )
        } else {
            None
        }
    }

    /// The constants.
    pub closed spec fn parts(&self) -> (
        usize,
        usize,
        usize,
        usize,
        isize,
        Vec<Vec<F>>,
        Vec<Vec<F>>,
    ) {
        (
            self.t,
            self.rate,
            self.full_rounds,
            self.partial_rounds,
            self.alpha,
            self.round_constants,
            self.mds_matrix,
        )
    }
}

impl<F: Field> PoseidonPermutation<F> for PoseidonConstants<F> {
    open spec fn shaped(&self, width: nat) -> bool {
        width == self.parts().0
    }

    fn t(&self) -> (r: usize)
        ensures
            r == self.parts().0,
    {
        self.t
    }

    fn rate(&self) -> (r: usize)
        ensures
            r == self.parts().1,
    {
        proof {
            use_type_invariant(self);
        }
        self.rate
    }

    fn full_rounds(&self) -> (r: usize)
        ensures
            r == self.parts().2,
    {
        proof {
            use_type_invariant(self);
        }
        self.full_rounds
    }

    fn partial_rounds(&self) -> (r: usize)
        ensures
            r == self.parts().3,
    {
        self.partial_rounds
    }

    fn alpha(&self) -> (r: isize)
        ensures
            r == self.parts().4,
    {
        self.alpha
    }

    fn round_constants(&self) -> (r: &Vec<Vec<F>>)
        ensures
            *r == self.parts().5,
    {
        proof {
            use_type_invariant(self);
        }
        &self.round_constants
    }

    fn mds_matrix(&self) -> (r: &Vec<Vec<F>>)
        ensures
            *r == self.parts().6,
    {
        proof {
            use_type_invariant(self);
        }
        &self.mds_matrix
    }
}

/// The cycle of Pallas and Vesta.
#[derive(Clone, Copy, Debug)]
pub struct Pasta;

/// Generators and permutations for the cycle of Pallas and Vesta.
pub struct PastaParams {
    pub nested: GeneratorSet<PallasAffine>,
    pub host: GeneratorSet<VestaAffine>,
    pub circuit_poseidon: PoseidonConstants<Fp>,
    pub scalar_poseidon: PoseidonConstants<Fq>,
}

impl Cycle for Pasta {
    type CircuitField = Fp;

    type ScalarField = Fq;

    type NestedCurve = PallasAffine;

    type HostCurve = VestaAffine;

    type NestedGenerators = GeneratorSet<PallasAffine>;

    type HostGenerators = GeneratorSet<VestaAffine>;

    type CircuitPoseidon = PoseidonConstants<Fp>;

    type ScalarPoseidon = PoseidonConstants<Fq>;

    type Params = PastaParams;

    open spec fn nested(params: &PastaParams) -> GeneratorSet<PallasAffine> {
        params.nested
    }

    open spec fn host(params: &PastaParams) -> GeneratorSet<VestaAffine> {
        params.host
    }

    fn nested_generators(params: &PastaParams) -> (r: &GeneratorSet<PallasAffine>) {
        &params.nested
    }

    fn host_generators(params: &PastaParams) -> (r: &GeneratorSet<VestaAffine>) {
        &params.host
    }

    fn circuit_poseidon(params: &PastaParams) -> (r: &PoseidonConstants<Fp>)
        ensures
            *r == params.circuit_poseidon,
    {
        &params.circuit_poseidon
    }

    fn scalar_poseidon(params: &PastaParams) -> (r: &PoseidonConstants<Fq>)
        ensures
            *r == params.scalar_poseidon,
    {
        &params.scalar_poseidon
    }
}

} // verus!
