//! The scalar field of Pallas, which is the base field of Vesta.
use crate::bytes;
use crate::field::{DeferredField, Field, PrimeField};
use crate::modular;
use ff::{Field as _, PrimeField as _};
use pasta_curves::deferred::{DeferredField as _, Product};
use rand::rngs::StdRng;
use vstd::arithmetic::div_mod::*;
use vstd::arithmetic::mul::*;
use vstd::arithmetic::power::*;
use vstd::arithmetic::power2::*;
use vstd::prelude::*;

verus! {

/// The field element of `pasta_curves`, which its accumulator is generic over.
#[verifier::external_type_specification]
#[verifier::external_body]
pub struct ExPallasScalar(pasta_curves::pallas::Scalar);

/// The number of elements of the field.
pub open spec fn fq_modulus() -> int {
    0x40000000000000000000000000000000224698fc0994a8dd8c46eb2100000001int
}

/// The root of unity of order `2^32` that `pasta_curves` gives.
pub open spec fn fq_root() -> int {
    0x2de6a9b8746d3f589e5c4dfd492ae26e9bb97ea3c106f049a70e2c1102b6d05fint
}

/// Squaring doubles the exponent: from the power `x` at `2^e` to the power `y` at twice
/// that, where `x * x` is `q` times the modulus and `y`.
proof fn lemma_squared(x: int, q: int, y: int, e: nat)
    requires
        modular::cong(pow(fq_root(), pow2(e)), x, fq_modulus()),
        x * x == q * fq_modulus() + y,
    ensures
        modular::cong(pow(fq_root(), pow2(e + 1)), y, fq_modulus()),
{
    let p = fq_modulus();
    let w = pow(fq_root(), pow2(e));
    lemma2_to64();
    lemma_pow2_adds(1, e);
    lemma_pow_adds(fq_root(), pow2(e), pow2(e));
    modular::lemma_mul(w, x, w, x, p);
    lemma_mul_is_commutative(q, p);
    lemma_mod_multiples_vanish(q, y, p);
}

/// The power of the root at half its order is minus one.
pub proof fn lemma_fq_root()
    ensures
        pow(fq_root(), pow2(31)) % fq_modulus() == fq_modulus() - 1,
{
    lemma2_to64();
    lemma_pow1(fq_root());
    lemma_squared(
        0x2de6a9b8746d3f589e5c4dfd492ae26e9bb97ea3c106f049a70e2c1102b6d05fint,
        0x20eb9e010392accb2a2907200ca14510b5fedb160a60f39164b2a249e2f51a01int,
        0x2454cd742eed7ef67537dcfa8861545dad889b9cbf75b98fa2e3cb0189b96940int,
        0,
    );
    lemma_squared(
        0x2454cd742eed7ef67537dcfa8861545dad889b9cbf75b98fa2e3cb0189b96940int,
        0x149fd78099537dce3f827f684aec1a4b612b28221c766a7d54aff29879904403int,
        0x29839b52d5dcf6b3b46faf306087325a425f8ef6d5daf4fc666cd37450354bfdint,
        1,
    );
    lemma_squared(
        0x29839b52d5dcf6b3b46faf306087325a425f8ef6d5daf4fc666cd37450354bfdint,
        0x1aedada3761443c54aae252673f2fb203dc4c837180a13a41211a4d1b5954deaint,
        0x391c568ae730f9186fab3b892a14f4c2c54fa59855d303e08f56c7e2f7baea1fint,
        2,
    );
    lemma_squared(
        0x391c568ae730f9186fab3b892a14f4c2c54fa59855d303e08f56c7e2f7baea1fint,
        0x32f686b39a6001596014490001b14bcf2ad06d222d1250e9beceadc218d98638int,
        0x3259338dfd6b479b91721c69a97084189cf843b3fae516cae8316602c44f2989int,
        3,
    );
    lemma_squared(
        0x3259338dfd6b479b91721c69a97084189cf843b3fae516cae8316602c44f2989int,
        0x279bdce16867f929c237290490efd2010e0d54f40e694314609d097658ec5f03int,
        0x243373110039bf0838d3712a5c7d21d6ae7fcf04a0373d1b8232185f185ecc4eint,
        4,
    );
    lemma_squared(
        0x243373110039bf0838d3712a5c7d21d6ae7fcf04a0373d1b8232185f185ecc4eint,
        0x147a0acf523a70455a3bacfc936ed54041ce97b214b29fe23332aaf16955758eint,
        0xf769a6248dc291bfebb3fe0a98b24be3b1462bcca508eefde7fff0de2fef236int,
        5,
    );
    lemma_squared(
        0xf769a6248dc291bfebb3fe0a98b24be3b1462bcca508eefde7fff0de2fef236int,
        0x3bc7428d0fd74afb1aa09e7d4cbbbf4f5dc0c8b5a156351bb0bcf391d8ce77fint,
        0x2d68745baaeb95e8f869d3029268c3aed8040159ef7b5d4413d61370c2c53be5int,
        6,
    );
    lemma_squared(
        0x2d68745baaeb95e8f869d3029268c3aed8040159ef7b5d4413d61370c2c53be5int,
        0x20378e1be5d39758a851eb435dcf1892acab4984d0c32acfe6633cb1d0d01fdbint,
        0x144e6eba6d684acf84e02261743f788b2ae72b37bffdb012102c8c2f7fa53afeint,
        7,
    );
    lemma_squared(
        0x144e6eba6d684acf84e02261743f788b2ae72b37bffdb012102c8c2f7fa53afeint,
        0x67165532a5ed41b37440f8dd9a7adcd47d2247dce7961dcf4f7b7721af9c567int,
        0x3d98188dbd8b6cf4a8efd19190dd6201e860361e5f94fcfd89d1db8020a4e9dint,
        8,
    );
    lemma_squared(
        0x3d98188dbd8b6cf4a8efd19190dd6201e860361e5f94fcfd89d1db8020a4e9dint,
        0x3b475842dc01a609dd97daa0337a555ebb01c674f31f537b8c7b0b6879d7f9int,
        0x347db234f82ecdd103d137276806465f588fade0760e9fd69a9dd83047ee3450int,
        9,
    );
    lemma_squared(
        0x347db234f82ecdd103d137276806465f588fade0760e9fd69a9dd83047ee3450int,
        0x2b0d3874226c55a305fed90fc1a9f0cb95c6bf46814bf1f9bbfaeaef70a554edint,
        0x4a1bc274fdb738d084628c5e2a550aeb86bd32a2a7411da94e2302d3ecb4413int,
        10,
    );
    lemma_squared(
        0x4a1bc274fdb738d084628c5e2a550aeb86bd32a2a7411da94e2302d3ecb4413int,
        0x55d03db8ec43ddfc908053ef3b1fdf63f8141f481c9e8750af8455bc88d100int,
        0x19e9df871f6c4b14a3615751d1f43923b5f9ce8d08f92d2629c2afb67fb34869int,
        11,
    );
    lemma_squared(
        0x19e9df871f6c4b14a3615751d1f43923b5f9ce8d08f92d2629c2afb67fb34869int,
        0xa7e0d442d1c276e196bda950ef431e1732f7cbc3f3c8d89773a2a788387b275int,
        0x36c0b9b7293f1cd86391fec69fb965c54c0c9a15318bbb448c3a502501c9889cint,
        12,
    );
    lemma_squared(
        0x36c0b9b7293f1cd86391fec69fb965c54c0c9a15318bbb448c3a502501c9889cint,
        0x2ed77dc17b7aedff14a0da375fb3c8053ea08a39d8f85e2678ad981c5e8bc61cint,
        0x18c8fb7d71146b9efc57b4553b1d6ac967ed98779b8f28bf8d205918a75258f4int,
        13,
    );
    lemma_squared(
        0x18c8fb7d71146b9efc57b4553b1d6ac967ed98779b8f28bf8d205918a75258f4int,
        0x99933c5c10ef52e8aa27e4e09890ee4e11c09848e51d1d1c421d4c738f02a89int,
        0xfd6d647f549f3c7a5ddc35793aaf9765a029f199cb10369f40dccdb3a487e07int,
        14,
    );
    lemma_squared(
        0xfd6d647f549f3c7a5ddc35793aaf9765a029f199cb10369f40dccdb3a487e07int,
        0x3eb859d89a4921a535bbeb2c335860015e6e04b6f01b5dad7f378104fc98498int,
        0x385e22fc1565ebd8a13142cc27b8876f05ec017404d761eff3a89df3fe315f99int,
        15,
    );
    lemma_squared(
        0x385e22fc1565ebd8a13142cc27b8876f05ec017404d761eff3a89df3fe315f99int,
        0x31a547affd10efc4baceafe92ac161511670f1ea06992f90a3d82e188457370cint,
        0x130d1d6482b9c33536e280ae674431f85f4a103ef6af12c7ac4cdf0ad3edb265int,
        16,
    );
    lemma_squared(
        0x130d1d6482b9c33536e280ae674431f85f4a103ef6af12c7ac4cdf0ad3edb265int,
        0x5abcc23abf31bb0cea3ccabaaa08ae80efdb680eee8d8af3d3fc0a7e0a2dcf2int,
        0x1e5587687024253bb079b38d9c5371594958e496c605d3bd898b34d068afbee7int,
        17,
    );
    lemma_squared(
        0x1e5587687024253bb079b38d9c5371594958e496c605d3bd898b34d068afbee7int,
        0xe60a13eb5090670930a44d38e3428b678acffbaa21e1965ad1b4f892640f74aint,
        0xc4f5749d933a822edb1d70943daf2379fa2a51688418060e615350f17ecbd27int,
        18,
    );
    lemma_squared(
        0xc4f5749d933a822edb1d70943daf2379fa2a51688418060e615350f17ecbd27int,
        0x25e2317a6d0b24eff767b76a3e59d9415834d6c2d7e48a27663171fb7a37681int,
        0xd22c941a0b04b71d4ce80179437306907072be91feb7c9acf2eecbb96072570int,
        19,
    );
    lemma_squared(
        0xd22c941a0b04b71d4ce80179437306907072be91feb7c9acf2eecbb96072570int,
        0x2b234aaf7e2d695bad59e337856b69e70f828bc5468701c1b533f6ddd764b4aint,
        0x3a3b5103f6d0105d125b967f811966337bc1e694ef9d23f5fab7afba742345b6int,
        20,
    );
    lemma_squared(
        0x3a3b5103f6d0105d125b967f811966337bc1e694ef9d23f5fab7afba742345b6int,
        0x34fbb9d0f5363644619f1b0c00e3639b9fdaea6dcf8fb36b831c18d35167c0faint,
        0xd54c4d29ccd1de47f696cf29c89c9412a5e63e992d309699776a573c157dc6aint,
        21,
    );
    lemma_squared(
        0xd54c4d29ccd1de47f696cf29c89c9412a5e63e992d309699776a573c157dc6aint,
        0x2c6e03c95dba41224e78407e6844c2700967490e12b169bb1fa4bf8cf6c39dfint,
        0xa76b3aee2746ca7248fbe7424b30fd0e56f60e1b61014b337c6cd0392662205int,
        22,
    );
    lemma_squared(
        0xa76b3aee2746ca7248fbe7424b30fd0e56f60e1b61014b337c6cd0392662205int,
        0x1b5f44f341f8fe29de092147f46181b753f5b42ae0e145f2bda3fc6695a62a9int,
        0xa81955d1b842bf9baa32f613be2e8a90afad96d7d4dabe3fb0d5b1b6b26f170int,
        23,
    );
    lemma_squared(
        0xa81955d1b842bf9baa32f613be2e8a90afad96d7d4dabe3fb0d5b1b6b26f170int,
        0x1b9850c94864a22c1c29183db61b7387c156cbaf1db4bd2c6177571270c9f40int,
        0xac2b27df9801aeeb00395097a12eba4f672421e7eec3017abae64af09e771c0int,
        24,
    );
    lemma_squared(
        0xac2b27df9801aeeb00395097a12eba4f672421e7eec3017abae64af09e771c0int,
        0x1cf28136b7e54dcdceeedbb0a4e379e086b37444a3a61ddec40d527922a8287int,
        0x396578a156cd522a7133d40f77cca3c06bceb1fdb09aa3cf2e36062f68e08d79int,
        25,
    );
    lemma_squared(
        0x396578a156cd522a7133d40f77cca3c06bceb1fdb09aa3cf2e36062f68e08d79int,
        0x33795fc103364ea212788ae19fd0eccfe02b385011d178ddd664f4b9a06b7f45int,
        0x3ccd3ef9d021fce51160f869c45a2797f50c987af189da55a42622b9918303ecint,
        26,
    );
    lemma_squared(
        0x3ccd3ef9d021fce51160f869c45a2797f50c987af189da55a42622b9918303ecint,
        0x39c3684c1494e645a35dccf6761426a4ac83a4f95653cddf90d215eef4cf06f5int,
        0x196249e6016990925bb6031a1cc6ac5dace79f8e05d27d7beb49261266c85a9bint,
        27,
    );
    lemma_squared(
        0x196249e6016990925bb6031a1cc6ac5dace79f8e05d27d7beb49261266c85a9bint,
        0xa1160ae56d2ba10107407a4836bbd2614229fa92d4742542144bcbc75f7d935int,
        0x3a57bee9fb370430aa5f610ed09c17fe7e538bca7c94ad2b1ba3a33bc04980a4int,
        28,
    );
    lemma_squared(
        0x3a57bee9fb370430aa5f610ed09c17fe7e538bca7c94ad2b1ba3a33bc04980a4int,
        0x352f82555cf7502f44a741527d6bede469e655d20426cddd1c061434536daff9int,
        0x3691ce115adfa1187d65aa6313c354eb4a146505975fd3435d2f235b4abeb917int,
        29,
    );
    lemma_squared(
        0x3691ce115adfa1187d65aa6313c354eb4a146505975fd3435d2f235b4abeb917int,
        0x2e8757e99f7ce2dfaf7702f172028c3a3de9c7ae9651ce4813fde9208ff64011int,
        0x40000000000000000000000000000000224698fc0994a8dd8c46eb2100000000int,
        30,
    );
    lemma_small_mod((fq_modulus() - 1) as nat, fq_modulus() as nat);
}

/// What `DeferredField::reduce` of `Fq` makes of an accumulator, as a representative.
pub uninterp spec fn fq_total(acc: Product<pasta_curves::pallas::Scalar>) -> int;

/// The carry of an accumulator of `Fq`: how often the sum of its products went past the
/// limbs that hold it.
pub uninterp spec fn fq_carry(acc: Product<pasta_curves::pallas::Scalar>) -> nat;

/// An element of the scalar field of Pallas, held as its canonical little-endian
/// encoding.
#[derive(Clone, Copy, Debug, PartialEq, Eq)]
pub struct Fq {
    repr: [u8; 32],
}

impl Fq {
    #[verifier::type_invariant]
    spec fn canonical(self) -> bool {
        bytes::le_nat(self.repr@) < fq_modulus()
    }
}

/// `Fq + Fq` of `pasta_curves`, on encodings: the sum modulo the field's size.
#[verifier::external_body]
fn fq_add(a: [u8; 32], b: [u8; 32]) -> (r: [u8; 32])
    requires
        bytes::le_nat(a@) < fq_modulus(),
        bytes::le_nat(b@) < fq_modulus(),
    ensures
        bytes::le_nat(r@) == (bytes::le_nat(a@) + bytes::le_nat(b@)) as int % fq_modulus(),
{
    let a = pasta_curves::Fq::from_repr(a).unwrap();
    let b = pasta_curves::Fq::from_repr(b).unwrap();
    (a + b).to_repr()
}

/// `Fq - Fq` of `pasta_curves`, on encodings: the difference modulo the field's
/// size.
#[verifier::external_body]
fn fq_sub(a: [u8; 32], b: [u8; 32]) -> (r: [u8; 32])
    requires
        bytes::le_nat(a@) < fq_modulus(),
        bytes::le_nat(b@) < fq_modulus(),
    ensures
        bytes::le_nat(r@) == (bytes::le_nat(a@) - bytes::le_nat(b@)) % fq_modulus(),
{
    let a = pasta_curves::Fq::from_repr(a).unwrap();
    let b = pasta_curves::Fq::from_repr(b).unwrap();
    (a - b).to_repr()
}

/// `Fq * Fq` of `pasta_curves`, on encodings: the product modulo the field's
/// size.
#[verifier::external_body]
fn fq_mul(a: [u8; 32], b: [u8; 32]) -> (r: [u8; 32])
    requires
        bytes::le_nat(a@) < fq_modulus(),
        bytes::le_nat(b@) < fq_modulus(),
    ensures
        bytes::le_nat(r@) == (bytes::le_nat(a@) * bytes::le_nat(b@)) as int % fq_modulus(),
{
    let a = pasta_curves::Fq::from_repr(a).unwrap();
    let b = pasta_curves::Fq::from_repr(b).unwrap();
    (a * b).to_repr()
}

/// `-Fq` of `pasta_curves`, on encodings: the negation modulo the field's size.
#[verifier::external_body]
fn fq_neg(a: [u8; 32]) -> (r: [u8; 32])
    requires
        bytes::le_nat(a@) < fq_modulus(),
    ensures
        bytes::le_nat(r@) == (-(bytes::le_nat(a@) as int)) % fq_modulus(),
{
    (-pasta_curves::Fq::from_repr(a).unwrap()).to_repr()
}

/// `ff::Field::square` of `Fq`, on encodings: the product of the element with
/// itself.
#[verifier::external_body]
fn fq_square(a: [u8; 32]) -> (r: [u8; 32])
    requires
        bytes::le_nat(a@) < fq_modulus(),
    ensures
        bytes::le_nat(r@) == (bytes::le_nat(a@) * bytes::le_nat(a@)) as int % fq_modulus(),
{
    ff::Field::square(&pasta_curves::Fq::from_repr(a).unwrap()).to_repr()
}

/// `ff::Field::pow_vartime` of `Fq` with an exponent of one word, on encodings:
/// the power modulo the field's size.
#[verifier::external_body]
fn fq_pow_vartime(a: [u8; 32], exp: u64) -> (r: [u8; 32])
    requires
        bytes::le_nat(a@) < fq_modulus(),
    ensures
        bytes::le_nat(r@) == pow(bytes::le_nat(a@) as int, exp as nat) % fq_modulus(),
{
    pasta_curves::Fq::from_repr(a).unwrap().pow_vartime([exp]).to_repr()
}

/// `ff::Field::invert` of `Fq`, on encodings: none for zero, else the element
/// whose product with `a` is one.
#[verifier::external_body]
fn fq_invert(a: [u8; 32]) -> (r: Option<[u8; 32]>)
    requires
        bytes::le_nat(a@) < fq_modulus(),
    ensures
        r is None <==> bytes::le_nat(a@) == 0,
        r matches Some(i) ==> bytes::le_nat(i@) < fq_modulus() && (bytes::le_nat(a@)
            * bytes::le_nat(i@)) as int % fq_modulus() == 1,
{
    let inverse: Option<pasta_curves::Fq> = pasta_curves::Fq::from_repr(a).unwrap().invert().into();
    inverse.map(|i| i.to_repr())
}

/// `Fq::from(u64)`, as an encoding: the element congruent to `v`.
#[verifier::external_body]
fn fq_from_u64(v: u64) -> (r: [u8; 32])
    ensures
        bytes::le_nat(r@) == (v as int) % fq_modulus(),
{
    pasta_curves::Fq::from(v).to_repr()
}

/// Whether `ff::PrimeField::from_repr` of `Fq` accepts `repr`: it does if and only
/// if the number is smaller than the modulus.
#[verifier::external_body]
fn fq_is_canonical(repr: [u8; 32]) -> (r: bool)
    ensures
        r <==> bytes::le_nat(repr@) < fq_modulus(),
{
    pasta_curves::Fq::from_repr(repr).is_some().into()
}

/// `ff::Field::random` of `Fq`, as an encoding. The element is left to chance:
/// only that the encoding is canonical is stated.
#[verifier::external_body]
fn fq_random(rng: &mut StdRng) -> (r: [u8; 32])
    ensures
        bytes::le_nat(r@) < fq_modulus(),
{
    pasta_curves::Fq::random(rng).to_repr()
}

/// `ff::PrimeField::ROOT_OF_UNITY` of `Fq`, as an encoding.
#[verifier::external_body]
fn fq_root_of_unity() -> (r: [u8; 32])
    ensures
        bytes::le_nat(r@) == fq_root(),
{
    pasta_curves::Fq::ROOT_OF_UNITY.to_repr()
}

/// `Default` of the accumulator of `Fq`: zero, without a carry.
#[verifier::external_body]
fn fq_accumulator() -> (acc: Product<pasta_curves::pallas::Scalar>)
    ensures
        fq_total(acc) == 0,
        fq_carry(acc) == 0,
{
    Product::default()
}

/// `DeferredField::mul_accumulate` of `Fq`: adds the product of the two elements, which
/// raises the carry by one or not at all. The carry must not overflow.
#[verifier::external_body]
fn fq_mul_accumulate(acc: &mut Product<pasta_curves::pallas::Scalar>, a: [u8; 32], b: [u8; 32])
    requires
        bytes::le_nat(a@) < fq_modulus(),
        bytes::le_nat(b@) < fq_modulus(),
        fq_carry(*old(acc)) < u64::MAX,
    ensures
        fq_total(*final(acc)) == (fq_total(*old(acc)) + bytes::le_nat(a@) * bytes::le_nat(b@))
            % fq_modulus(),
        fq_carry(*final(acc)) <= fq_carry(*old(acc)) + 1,
{
    let a = pasta_curves::Fq::from_repr(a).unwrap();
    let b = pasta_curves::Fq::from_repr(b).unwrap();
    pasta_curves::Fq::mul_accumulate(acc, &a, &b)
}

/// `DeferredField::reduce` of `Fq`, as an encoding: the sum of the products modulo the
/// field's size.
#[verifier::external_body]
fn fq_reduce(acc: Product<pasta_curves::pallas::Scalar>) -> (r: [u8; 32])
    ensures
        bytes::le_nat(r@) == fq_total(acc),
        bytes::le_nat(r@) < fq_modulus(),
{
    pasta_curves::Fq::reduce(acc).to_repr()
}

impl Field for Fq {
    open spec fn modulus() -> int {
        fq_modulus()
    }

    closed spec fn val(&self) -> int {
        bytes::le_nat(self.repr@) as int % fq_modulus()
    }

    proof fn lemma_modulus() {
    }

    proof fn lemma_range(&self) {
    }

    fn zero() -> (r: Self) {
        let repr: [u8; 32] = [0u8; 32];
        proof {
            bytes::lemma_zeros(repr@);
        }
        Fq { repr }
    }

    fn one() -> (r: Self) {
        Fq { repr: fq_from_u64(1) }
    }

    fn is_zero(&self) -> (r: bool) {
        proof {
            use_type_invariant(self);
        }
        bytes::all_zero(&self.repr)
    }

    fn add(&self, other: &Self) -> (r: Self) {
        proof {
            use_type_invariant(self);
            use_type_invariant(other);
        }
        Fq { repr: fq_add(self.repr, other.repr) }
    }

    fn sub(&self, other: &Self) -> (r: Self) {
        proof {
            use_type_invariant(self);
            use_type_invariant(other);
        }
        Fq { repr: fq_sub(self.repr, other.repr) }
    }

    fn mul(&self, other: &Self) -> (r: Self) {
        proof {
            use_type_invariant(self);
            use_type_invariant(other);
        }
        Fq { repr: fq_mul(self.repr, other.repr) }
    }

    fn neg(&self) -> (r: Self) {
        proof {
            use_type_invariant(self);
        }
        Fq { repr: fq_neg(self.repr) }
    }

    fn square(&self) -> (r: Self) {
        proof {
            use_type_invariant(self);
        }
        Fq { repr: fq_square(self.repr) }
    }

    fn pow_vartime(&self, exp: u64) -> (r: Self) {
        proof {
            use_type_invariant(self);
        }
        Fq { repr: fq_pow_vartime(self.repr, exp) }
    }

    fn invert(&self) -> (r: Option<Self>) {
        proof {
            use_type_invariant(self);
        }
        match fq_invert(self.repr) {
            Some(repr) => Some(Fq { repr }),
            None => None,
        }
    }

    /// Any element may come of any state: which one does is chance.
    closed spec fn draws(before: StdRng, r: Self, after: StdRng) -> bool {
        0 <= r.val() < fq_modulus()
    }

    fn random(rng: &mut StdRng) -> (r: Self) {
        Fq { repr: fq_random(rng) }
    }
}

impl PrimeField for Fq {
    open spec fn two_adicity() -> nat {
        32
    }

    open spec fn root() -> int {
        fq_root()
    }

    fn from_u64(v: u64) -> (r: Self) {
        Fq { repr: fq_from_u64(v) }
    }

    fn from_repr(repr: [u8; 32]) -> (r: Option<Self>) {
        if fq_is_canonical(repr) {
            Some(Fq { repr })
        } else {
            None
        }
    }

    fn to_repr(&self) -> (r: [u8; 32]) {
        proof {
            use_type_invariant(self);
        }
        self.repr
    }

    fn num_bits() -> (r: usize) {
        proof {
            bytes::lemma_pow2_255();
            lemma_pow2_unfold(255);
        }
        255
    }

    fn s() -> (r: u32) {
        32
    }

    fn root_of_unity() -> (r: Self) {
        proof {
            lemma_fq_root();
        }
        Fq { repr: fq_root_of_unity() }
    }
}

impl DeferredField for Fq {
    type Accumulator = Product<pasta_curves::pallas::Scalar>;

    open spec fn total(acc: &Product<pasta_curves::pallas::Scalar>) -> int {
        fq_total(*acc)
    }

    open spec fn overflows(acc: &Product<pasta_curves::pallas::Scalar>) -> nat {
        fq_carry(*acc)
    }

    fn accumulator() -> (acc: Product<pasta_curves::pallas::Scalar>) {
        fq_accumulator()
    }

    fn mul_accumulate(acc: &mut Product<pasta_curves::pallas::Scalar>, a: &Self, b: &Self) {
        proof {
            use_type_invariant(a);
            use_type_invariant(b);
        }
        fq_mul_accumulate(acc, a.repr, b.repr);
    }

    fn reduce(acc: Product<pasta_curves::pallas::Scalar>) -> (r: Self) {
        Fq { repr: fq_reduce(acc) }
    }
}

} // verus!
