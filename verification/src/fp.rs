//! The base field of Pallas, which is the scalar field of Vesta.
use crate::bytes;
use crate::field::{DeferredField, Field, PrimeField};
use crate::modular;
use ff::{Field as _, PrimeField as _};
use pasta_curves::deferred::{DeferredField as _, Product};
use rand::rngs::StdRng;
use vstd::arithmetic::div_mod::*;
use vstd::arithmetic::mul::*;
use vstd::arithmetic::power::*;
use vstd::arithmetic::power2::*;
use vstd::prelude::*;

verus! {

/// The field element of `pasta_curves`, which its accumulator is generic over.
#[verifier::external_type_specification]
#[verifier::external_body]
pub struct ExPallasBase(pasta_curves::pallas::Base);

/// The number of elements of the field.
pub open spec fn fp_modulus() -> int {
    0x40000000000000000000000000000000224698fc094cf91b992d30ed00000001int
}

/// The root of unity of order `2^32` that `pasta_curves` gives.
pub open spec fn fp_root() -> int {
    0x2bce74deac30ebda362120830561f81aea322bf2b7bb7584bdad6fabd87ea32fint
}

/// Squaring doubles the exponent: from the power `x` at `2^e` to the power `y` at twice
/// that, where `x * x` is `q` times the modulus and `y`.
proof fn lemma_squared(x: int, q: int, y: int, e: nat)
    requires
        modular::cong(pow(fp_root(), pow2(e)), x, fp_modulus()),
        x * x == q * fp_modulus() + y,
    ensures
        modular::cong(pow(fp_root(), pow2(e + 1)), y, fp_modulus()),
{
    let p = fp_modulus();
    let w = pow(fp_root(), pow2(e));
    lemma2_to64();
    lemma_pow2_adds(1, e);
    lemma_pow_adds(fp_root(), pow2(e), pow2(e));
    modular::lemma_mul(w, x, w, x, p);
    lemma_mul_is_commutative(q, p);
    lemma_mod_multiples_vanish(q, y, p);
}

/// The power of the root at half its order is minus one.
pub proof fn lemma_fp_root()
    ensures
        pow(fp_root(), pow2(31)) % fp_modulus() == fp_modulus() - 1,
{
    lemma2_to64();
    lemma_pow1(fp_root());
    lemma_squared(
        0x2bce74deac30ebda362120830561f81aea322bf2b7bb7584bdad6fabd87ea32fint,
        0x1dfc070c66406ec93f1b501b05c7727efaa12f4860c06c9d7b9532d8ad5ec966int,
        0x2c4273e5d2eb1de98c9176cb401abf06c4938ab16ac69c2b9645ee87acea193bint,
        0,
    );
    lemma_squared(
        0x2c4273e5d2eb1de98c9176cb401abf06c4938ab16ac69c2b9645ee87acea193bint,
        0x1e9ba45bdde77557e021a3e992d36e34dea05d8eda8a1a532bbac3217077f7dcint,
        0x2e99e0eeba6afb04d748bb4c8f7746167a3163883882dd3401793e65f9e09bbdint,
        1,
    );
    lemma_squared(
        0x2e99e0eeba6afb04d748bb4c8f7746167a3163883882dd3401793e65f9e09bbdint,
        0x21eea551b7efabc09c693ddb5c3c374ef48f1237d9f10e4e07b6cb252de4449cint,
        0x223b10e2909d647727473e05119a70bf69fe5716194f8d1100e79397659a24edint,
        2,
    );
    lemma_squared(
        0x223b10e2909d647727473e05119a70bf69fe5716194f8d1100e79397659a24edint,
        0x124ef873dfd6474d2603019279439e58a5c6760979af22921bc8431e5cb15764int,
        0x88ef444b9a63e67dce3f521ea318e20d55a3e3fa4f0d2de615bd0d717c62c05int,
        3,
    );
    lemma_squared(
        0x88ef444b9a63e67dce3f521ea318e20d55a3e3fa4f0d2de615bd0d717c62c05int,
        0x124fc60c3adb2af1bc08a743f40c575c063423a7f4c928394479931df246046int,
        0x38bbffdbaedf01944c6fb4257565f4a05376d4d8ce7e86f50d96bb7262957d3int,
        4,
    );
    lemma_squared(
        0x38bbffdbaedf01944c6fb4257565f4a05376d4d8ce7e86f50d96bb7262957d3int,
        0x324b27ff9ca9b58878fa59b0e979dfc65818f5f3c6cbb01dc08aeaebd0cf08int,
        0x2b32b23c415d3e576c4d05c1b1d89d9ba57789d36d6a6e3726a28916f7e648e1int,
        5,
    );
    lemma_squared(
        0x2b32b23c415d3e576c4d05c1b1d89d9ba57789d36d6a6e3726a28916f7e648e1int,
        0x1d2847a9665ad1c85e7dd4e7c4da3b7c4cc70564c50c61731f67a5bf84dd0beeint,
        0x365bd233e19a77476101c7698b1c063f5b7353922f426d682549375fb22e49d3int,
        6,
    );
    lemma_squared(
        0x365bd233e19a77476101c7698b1c063f5b7353922f426d682549375fb22e49d3int,
        0x2e2b767402a2db1ffee4ef6c3e426e6266053c13afe0d55049dc9cead778be80int,
        0x31951d72cbf5ee0d78d9867098e13b79fb81505e6db526ce5190e23731a54569int,
        7,
    );
    lemma_squared(
        0x31951d72cbf5ee0d78d9867098e13b79fb81505e6db526ce5190e23731a54569int,
        0x2669b084f4631c6115a3df6592631b6bd12ef67b7b7f382dfd50991801383860int,
        0x1c6a098fa72833f405a8dc469477bbe65b995f8670713a0fc3831c6abcf38cb1int,
        8,
    );
    lemma_squared(
        0x1c6a098fa72833f405a8dc469477bbe65b995f8670713a0fc3831c6abcf38cb1int,
        0xc9d780d5f8a8c159c21348accfda2450e872da6d5e6d4fb9e2e4f33a5fb6155int,
        0xd8c20d3f81693b34d98347484bde7a92c9244a2a37a6ded9bfb7e07b75cb10cint,
        9,
    );
    lemma_squared(
        0xd8c20d3f81693b34d98347484bde7a92c9244a2a37a6ded9bfb7e07b75cb10cint,
        0x2de2025ccfd44e9323983b9253edbf017d94cab657d3a442d57d638f8018402int,
        0x44694ccde4116800af467b81f89c782f175600cc0aed539085db943eb10148eint,
        10,
    );
    lemma_squared(
        0x44694ccde4116800af467b81f89c782f175600cc0aed539085db943eb10148eint,
        0x49207075e464ea2449f4d4247dd5aef92696477115fd7f5254a98495d7aba9int,
        0x3a4a077c9c0654e7e98d9f1c0b146bf64171285db283f84b463f4019b18ed31bint,
        11,
    );
    lemma_squared(
        0x3a4a077c9c0654e7e98d9f1c0b146bf64171285db283f84b463f4019b18ed31bint,
        0x351683332bd47d482717642db33791a6e1f65bbd70298bd6dfafba926223695aint,
        0x1c6807d58325da33dfb456db63dcf180e1491c6808fe947b90d867fbd3e61b7fint,
        12,
    );
    lemma_squared(
        0x1c6807d58325da33dfb456db63dcf180e1491c6808fe947b90d867fbd3e61b7fint,
        0xc9baff449a0d6f0d4c3a3fa4b7e7da96042ef3e5850716b2141b72dcd21a63dint,
        0x14078ea8cdee85a0950d9a272227e4f52c624e853d02ad879ec22f8bf80662c4int,
        13,
    );
    lemma_squared(
        0x14078ea8cdee85a0950d9a272227e4f52c624e853d02ad879ec22f8bf80662c4int,
        0x644ba0df3a0eebfc41ebcccbd9413f8052c137746db55cdc253a30418f51ee0int,
        0xf971f9f81878a727f025b2aca0774ead6d1be12fb8a867820245ff86e558730int,
        14,
    );
    lemma_squared(
        0xf971f9f81878a727f025b2aca0774ead6d1be12fb8a867820245ff86e558730int,
        0x3cc3bac0d02d37ee58ec6f66b2b24558dacc5ff8e132eeb4d03a4d64671d9e6int,
        0x23222d06029d21a655392ad9dda387278c1c46359289a4d3d465aafc06d1cf1aint,
        15,
    );
    lemma_squared(
        0x23222d06029d21a655392ad9dda387278c1c46359289a4d3d465aafc06d1cf1aint,
        0x1349737e88eb17ff22d49e87bff7ad6faea519de63bc6265c64b650acae2ff66int,
        0x2fd0767705fa5b03402039fc9e89ad1de3c85d25401fd8dd898dce603d1c0f3eint,
        16,
    );
    lemma_squared(
        0x2fd0767705fa5b03402039fc9e89ad1de3c85d25401fd8dd898dce603d1c0f3eint,
        0x23b8d501b1b65461c67d88c14d63248cba97b2ef7e5040ef01abe1d096b29440int,
        0x1aa07732b05972abcadc042243371883e38cca91106ecac1e26a77c64bc5bec4int,
        17,
    );
    lemma_squared(
        0x1aa07732b05972abcadc042243371883e38cca91106ecac1e26a77c64bc5bec4int,
        0xb13f32e0abb145b03e789f4400ed15dea1004661a645ca89fda116036a2333eint,
        0x3b402c2cbd0a0660626f1948867533cfd2a80abd33d0e808075a3efc92d52d2int,
        18,
    );
    lemma_squared(
        0x3b402c2cbd0a0660626f1948867533cfd2a80abd33d0e808075a3efc92d52d2int,
        0x36da91caf48233025b2e37eba89d1231b14c335f78d5617854f50d6daf0443int,
        0x28961bbd9c63b7bd7c75f72e02a9727d14d99e7985184470d34cd1b8ef03001int,
        19,
    );
    lemma_squared(
        0x28961bbd9c63b7bd7c75f72e02a9727d14d99e7985184470d34cd1b8ef03001int,
        0x19bd02bf184fe6cf71eeb1350cc4f61f53a5f96937f004c10b6520793ee7eeint,
        0x181b50ad5f32119e31cbd395426d600b7a9b88bcaaa1c24eef28545aada17813int,
        20,
    );
    lemma_squared(
        0x181b50ad5f32119e31cbd395426d600b7a9b88bcaaa1c24eef28545aada17813int,
        0x914882a7f612319e32669de6e83956a342a3f4847366cf188e7784c897c4fe7int,
        0x1421deb15f5ce205068512b010382353dc0aa1b40386a1c14774c65664bb8182int,
        21,
    );
    lemma_squared(
        0x1421deb15f5ce205068512b010382353dc0aa1b40386a1c14774c65664bb8182int,
        0x6553d1b8964d634a11f33bc6969ead943fc2a1d848e69ffbb3f3d829186c020int,
        0xcb8102d0128ebb25343154773101eaf1a9daef679667eb4bd1e06b973e985e4int,
        22,
    );
    lemma_squared(
        0xcb8102d0128ebb25343154773101eaf1a9daef679667eb4bd1e06b973e985e4int,
        0x287176de74ca3e83801e7a35c7aff0d0021fea412c97a4a7df04903e238af47int,
        0x21d0b0a3be45b5ee2ff5140e6007a63bc5ac7dc51c50ed52ebf2f918f4d603c9int,
        23,
    );
    lemma_squared(
        0x21d0b0a3be45b5ee2ff5140e6007a63bc5ac7dc51c50ed52ebf2f918f4d603c9int,
        0x11dddea6ec12e22aff0f66ddf2a693c8fd5f447064e682c9527bb1247346040eint,
        0xa31cd9ef8679794deeb656fd6b01c97550149e556476b314244fb708d44fc3int,
        24,
    );
    lemma_squared(
        0xa31cd9ef8679794deeb656fd6b01c97550149e556476b314244fb708d44fc3int,
        0x19fb7031dacb034885089b60042c4295dc3c94f7dc1ef913bd6660bd4ffcfint,
        0x1868ca50534a180d97ff23a878e088b0b9569c85b0a15d666c23ded157fceebaint,
        25,
    );
    lemma_squared(
        0x1868ca50534a180d97ff23a878e088b0b9569c85b0a15d666c23ded157fceebaint,
        0x94f43504311b56cbba3cd93b7d957da470ee4310eb397cfd0b724eeb632e658int,
        0xcc3380dc616f2e1daf29ad1560833ed3baea3393eceb7bc8fa36376929b78ccint,
        26,
    );
    lemma_squared(
        0xcc3380dc616f2e1daf29ad1560833ed3baea3393eceb7bc8fa36376929b78ccint,
        0x28b887eef4fd48bc9e522677d275a9d7ec266ccbb825e7c86ce4cd1410d7623int,
        0x17e6c570737897f385e789dcbc7a09bd4f82ab3e1182aecd80ec9d0beefa6c6dint,
        27,
    );
    lemma_squared(
        0x17e6c570737897f385e789dcbc7a09bd4f82ab3e1182aecd80ec9d0beefa6c6dint,
        0x8ed1e064c55ac6e8c6e2542004ecb39c62c929566a9c9dec13ff5832e4560bbint,
        0x3f8f1cc60c6da729d26301123de65ed9c73bfb511bf223ac1d15074e708ac5aeint,
        28,
    );
    lemma_squared(
        0x3f8f1cc60c6da729d26301123de65ed9c73bfb511bf223ac1d15074e708ac5aeint,
        0x3f1f00aa8a6f1ada343fd9f3e2e0de287d6fe25fccf84f93d040fd7c5f6f8b69int,
        0x36bdcc7b0f28b5df31744fb72326829dff98203a45f8ebf0e047f48898cdb6dbint,
        29,
    );
    lemma_squared(
        0x36bdcc7b0f28b5df31744fb72326829dff98203a45f8ebf0e047f48898cdb6dbint,
        0x2ed27bededb7a89ca13179cd6b3c50bac12c737c95776f5d18b0c8d06d5a1f59int,
        0x40000000000000000000000000000000224698fc094cf91b992d30ed00000000int,
        30,
    );
    lemma_small_mod((fp_modulus() - 1) as nat, fp_modulus() as nat);
}

/// What `DeferredField::reduce` of `Fp` makes of an accumulator, as a representative.
pub uninterp spec fn fp_total(acc: Product<pasta_curves::pallas::Base>) -> int;

/// The carry of an accumulator of `Fp`: how often the sum of its products went past the
/// limbs that hold it.
pub uninterp spec fn fp_carry(acc: Product<pasta_curves::pallas::Base>) -> nat;

/// An element of the base field of Pallas, held as its canonical little-endian
/// encoding.
#[derive(Clone, Copy, Debug, PartialEq, Eq)]
pub struct Fp {
    repr: [u8; 32],
}

impl Fp {
    #[verifier::type_invariant]
    spec fn canonical(self) -> bool {
        bytes::le_nat(self.repr@) < fp_modulus()
    }
}

/// `Fp + Fp` of `pasta_curves`, on encodings: the sum modulo the field's size.
#[verifier::external_body]
fn fp_add(a: [u8; 32], b: [u8; 32]) -> (r: [u8; 32])
    requires
        bytes::le_nat(a@) < fp_modulus(),
        bytes::le_nat(b@) < fp_modulus(),
    ensures
        bytes::le_nat(r@) == (bytes::le_nat(a@) + bytes::le_nat(b@)) as int % fp_modulus(),
{
    let a = pasta_curves::Fp::from_repr(a).unwrap();
    let b = pasta_curves::Fp::from_repr(b).unwrap();
    (a + b).to_repr()
}

/// `Fp - Fp` of `pasta_curves`, on encodings: the difference modulo the field's
/// size.
#[verifier::external_body]
fn fp_sub(a: [u8; 32], b: [u8; 32]) -> (r: [u8; 32])
    requires
        bytes::le_nat(a@) < fp_modulus(),
        bytes::le_nat(b@) < fp_modulus(),
    ensures
        bytes::le_nat(r@) == (bytes::le_nat(a@) - bytes::le_nat(b@)) % fp_modulus(),
{
    let a = pasta_curves::Fp::from_repr(a).unwrap();
    let b = pasta_curves::Fp::from_repr(b).unwrap();
    (a - b).to_repr()
}

/// `Fp * Fp` of `pasta_curves`, on encodings: the product modulo the field's
/// size.
#[verifier::external_body]
fn fp_mul(a: [u8; 32], b: [u8; 32]) -> (r: [u8; 32])
    requires
        bytes::le_nat(a@) < fp_modulus(),
        bytes::le_nat(b@) < fp_modulus(),
    ensures
        bytes::le_nat(r@) == (bytes::le_nat(a@) * bytes::le_nat(b@)) as int % fp_modulus(),
{
    let a = pasta_curves::Fp::from_repr(a).unwrap();
    let b = pasta_curves::Fp::from_repr(b).unwrap();
    (a * b).to_repr()
}

/// `-Fp` of `pasta_curves`, on encodings: the negation modulo the field's size.
#[verifier::external_body]
fn fp_neg(a: [u8; 32]) -> (r: [u8; 32])
    requires
        bytes::le_nat(a@) < fp_modulus(),
    ensures
        bytes::le_nat(r@) == (-(bytes::le_nat(a@) as int)) % fp_modulus(),
{
    (-pasta_curves::Fp::from_repr(a).unwrap()).to_repr()
}

/// `ff::Field::square` of `Fp`, on encodings: the product of the element with
/// itself.
#[verifier::external_body]
fn fp_square(a: [u8; 32]) -> (r: [u8; 32])
    requires
        bytes::le_nat(a@) < fp_modulus(),
    ensures
        bytes::le_nat(r@) == (bytes::le_nat(a@) * bytes::le_nat(a@)) as int % fp_modulus(),
{
    ff::Field::square(&pasta_curves::Fp::from_repr(a).unwrap()).to_repr()
}

/// `ff::Field::pow_vartime` of `Fp` with an exponent of one word, on encodings:
/// the power modulo the field's size.
#[verifier::external_body]
fn fp_pow_vartime(a: [u8; 32], exp: u64) -> (r: [u8; 32])
    requires
        bytes::le_nat(a@) < fp_modulus(),
    ensures
        bytes::le_nat(r@) == pow(bytes::le_nat(a@) as int, exp as nat) % fp_modulus(),
{
    pasta_curves::Fp::from_repr(a).unwrap().pow_vartime([exp]).to_repr()
}

/// `ff::Field::invert` of `Fp`, on encodings: none for zero, else the element
/// whose product with `a` is one.
#[verifier::external_body]
fn fp_invert(a: [u8; 32]) -> (r: Option<[u8; 32]>)
    requires
        bytes::le_nat(a@) < fp_modulus(),
    ensures
        r is None <==> bytes::le_nat(a@) == 0,
        r matches Some(i) ==> bytes::le_nat(i@) < fp_modulus() && (bytes::le_nat(a@)
            * bytes::le_nat(i@)) as int % fp_modulus() == 1,
{
    let inverse: Option<pasta_curves::Fp> = pasta_curves::Fp::from_repr(a).unwrap().invert().into();
    inverse.map(|i| i.to_repr())
}

/// `Fp::from(u64)`, as an encoding: the element congruent to `v`.
#[verifier::external_body]
fn fp_from_u64(v: u64) -> (r: [u8; 32])
    ensures
        bytes::le_nat(r@) == (v as int) % fp_modulus(),
{
    pasta_curves::Fp::from(v).to_repr()
}

/// Whether `ff::PrimeField::from_repr` of `Fp` accepts `repr`: it does if and only
/// if the number is smaller than the modulus.
#[verifier::external_body]
fn fp_is_canonical(repr: [u8; 32]) -> (r: bool)
    ensures
        r <==> bytes::le_nat(repr@) < fp_modulus(),
{
    pasta_curves::Fp::from_repr(repr).is_some().into()
}

/// `ff::Field::random` of `Fp`, as an encoding. The element is left to chance:
/// only that the encoding is canonical is stated.
#[verifier::external_body]
fn fp_random(rng: &mut StdRng) -> (r: [u8; 32])
    ensures
        bytes::le_nat(r@) < fp_modulus(),
{
    pasta_curves::Fp::random(rng).to_repr()
}

/// `ff::PrimeField::ROOT_OF_UNITY` of `Fp`, as an encoding.
#[verifier::external_body]
fn fp_root_of_unity() -> (r: [u8; 32])
    ensures
        bytes::le_nat(r@) == fp_root(),
{
    pasta_curves::Fp::ROOT_OF_UNITY.to_repr()
}

/// `Default` of the accumulator of `Fp`: zero, without a carry.
#[verifier::external_body]
fn fp_accumulator() -> (acc: Product<pasta_curves::pallas::Base>)
    ensures
        fp_total(acc) == 0,
        fp_carry(acc) == 0,
{
    Product::default()
}

/// `DeferredField::mul_accumulate` of `Fp`: adds the product of the two elements, which
/// raises the carry by one or not at all. The carry must not overflow.
#[verifier::external_body]
fn fp_mul_accumulate(acc: &mut Product<pasta_curves::pallas::Base>, a: [u8; 32], b: [u8; 32])
    requires
        bytes::le_nat(a@) < fp_modulus(),
        bytes::le_nat(b@) < fp_modulus(),
        fp_carry(*old(acc)) < u64::MAX,
    ensures
        fp_total(*final(acc)) == (fp_total(*old(acc)) + bytes::le_nat(a@) * bytes::le_nat(b@))
            % fp_modulus(),
        fp_carry(*final(acc)) <= fp_carry(*old(acc)) + 1,
{
    let a = pasta_curves::Fp::from_repr(a).unwrap();
    let b = pasta_curves::Fp::from_repr(b).unwrap();
    pasta_curves::Fp::mul_accumulate(acc, &a, &b)
}

/// `DeferredField::reduce` of `Fp`, as an encoding: the sum of the products modulo the
/// field's size.
#[verifier::external_body]
fn fp_reduce(acc: Product<pasta_curves::pallas::Base>) -> (r: [u8; 32])
    ensures
        bytes::le_nat(r@) == fp_total(acc),
        bytes::le_nat(r@) < fp_modulus(),
{
    pasta_curves::Fp::reduce(acc).to_repr()
}

impl Field for Fp {
    open spec fn modulus() -> int {
        fp_modulus()
    }

    closed spec fn val(&self) -> int {
        bytes::le_nat(self.repr@) as int % fp_modulus()
    }

    proof fn lemma_modulus() {
    }

    proof fn lemma_range(&self) {
    }

    fn zero() -> (r: Self) {
        let repr: [u8; 32] = [0u8; 32];
        proof {
            bytes::lemma_zeros(repr@);
        }
        Fp { repr }
    }

    fn one() -> (r: Self) {
        Fp { repr: fp_from_u64(1) }
    }

    fn is_zero(&self) -> (r: bool) {
        proof {
            use_type_invariant(self);
        }
        bytes::all_zero(&self.repr)
    }

    fn add(&self, other: &Self) -> (r: Self) {
        proof {
            use_type_invariant(self);
            use_type_invariant(other);
        }
        Fp { repr: fp_add(self.repr, other.repr) }
    }

    fn sub(&self, other: &Self) -> (r: Self) {
        proof {
            use_type_invariant(self);
            use_type_invariant(other);
        }
        Fp { repr: fp_sub(self.repr, other.repr) }
    }

    fn mul(&self, other: &Self) -> (r: Self) {
        proof {
            use_type_invariant(self);
            use_type_invariant(other);
        }
        Fp { repr: fp_mul(self.repr, other.repr) }
    }

    fn neg(&self) -> (r: Self) {
        proof {
            use_type_invariant(self);
        }
        Fp { repr: fp_neg(self.repr) }
    }

    fn square(&self) -> (r: Self) {
        proof {
            use_type_invariant(self);
        }
        Fp { repr: fp_square(self.repr) }
    }

    fn pow_vartime(&self, exp: u64) -> (r: Self) {
        proof {
            use_type_invariant(self);
        }
        Fp { repr: fp_pow_vartime(self.repr, exp) }
    }

    fn invert(&self) -> (r: Option<Self>) {
        proof {
            use_type_invariant(self);
        }
        match fp_invert(self.repr) {
            Some(repr) => Some(Fp { repr }),
            None => None,
        }
    }

    /// Any element may come of any state: which one does is chance.
    closed spec fn draws(before: StdRng, r: Self, after: StdRng) -> bool {
        0 <= r.val() < fp_modulus()
    }

    fn random(rng: &mut StdRng) -> (r: Self) {
        Fp { repr: fp_random(rng) }
    }
}

impl PrimeField for Fp {
    open spec fn two_adicity() -> nat {
        32
    }

    open spec fn root() -> int {
        fp_root()
    }

    fn from_u64(v: u64) -> (r: Self) {
        Fp { repr: fp_from_u64(v) }
    }

    fn from_repr(repr: [u8; 32]) -> (r: Option<Self>) {
        if fp_is_canonical(repr) {
            Some(Fp { repr })
        } else {
            None
        }
    }

    fn to_repr(&self) -> (r: [u8; 32]) {
        proof {
            use_type_invariant(self);
        }
        self.repr
    }

    fn num_bits() -> (r: usize) {
        proof {
            bytes::lemma_pow2_255();
            lemma_pow2_unfold(255);
        }
        255
    }

    fn s() -> (r: u32) {
        32
    }

    fn root_of_unity() -> (r: Self) {
        proof {
            lemma_fp_root();
        }
        Fp { repr: fp_root_of_unity() }
    }
}

impl DeferredField for Fp {
    type Accumulator = Product<pasta_curves::pallas::Base>;

    open spec fn total(acc: &Product<pasta_curves::pallas::Base>) -> int {
        fp_total(*acc)
    }

    open spec fn overflows(acc: &Product<pasta_curves::pallas::Base>) -> nat {
        fp_carry(*acc)
    }

    fn accumulator() -> (acc: Product<pasta_curves::pallas::Base>) {
        fp_accumulator()
    }

    fn mul_accumulate(acc: &mut Product<pasta_curves::pallas::Base>, a: &Self, b: &Self) {
        proof {
            use_type_invariant(a);
            use_type_invariant(b);
        }
        fp_mul_accumulate(acc, a.repr, b.repr);
    }

    fn reduce(acc: Product<pasta_curves::pallas::Base>) -> (r: Self) {
        Fp { repr: fp_reduce(acc) }
    }
}

} // verus!
