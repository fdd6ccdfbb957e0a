//! Congruences between integers.
use vstd::arithmetic::div_mod::*;
use vstd::arithmetic::mul::*;
use vstd::arithmetic::power::*;
use vstd::prelude::*;

verus! {

/// `a` and `b` leave one remainder modulo `m`.
pub open spec fn cong(a: int, b: int, m: int) -> bool {
    a % m == b % m
}

/// A number is congruent to its remainder.
pub proof fn lemma_rem(a: int, m: int)
    requires
        m > 0,
    ensures
        cong(a % m, a, m),
        0 <= a % m < m,
{
    lemma_mod_twice(a, m);
    lemma_mod_bound(a, m);
}

/// A number in range that is congruent to `b` is the remainder of `b`.
pub proof fn lemma_is_rem(a: int, b: int, m: int)
    requires
        0 <= a < m,
        cong(a, b, m),
    ensures
        a == b % m,
{
    lemma_small_mod(a as nat, m as nat);
}

/// Congruences can be added.
pub proof fn lemma_add(a: int, b: int, c: int, d: int, m: int)
    requires
        m > 0,
        cong(a, b, m),
        cong(c, d, m),
    ensures
        cong(a + c, b + d, m),
{
    lemma_add_mod_noop(a, c, m);
    lemma_add_mod_noop(b, d, m);
}

/// Congruences can be subtracted.
pub proof fn lemma_sub(a: int, b: int, c: int, d: int, m: int)
    requires
        m > 0,
        cong(a, b, m),
        cong(c, d, m),
    ensures
        cong(a - c, b - d, m),
{
    lemma_sub_mod_noop(a, c, m);
    lemma_sub_mod_noop(b, d, m);
}

/// Congruences can be multiplied.
pub proof fn lemma_mul(a: int, b: int, c: int, d: int, m: int)
    requires
        m > 0,
        cong(a, b, m),
        cong(c, d, m),
    ensures
        cong(a * c, b * d, m),
{
    lemma_mul_mod_noop(a, c, m);
    lemma_mul_mod_noop(b, d, m);
}

/// Congruent numbers have congruent powers.
pub proof fn lemma_pow(a: int, b: int, e: nat, m: int)
    requires
        m > 0,
        cong(a, b, m),
    ensures
        cong(pow(a, e), pow(b, e), m),
    decreases e,
{
    reveal(pow);
    if e > 0 {
        lemma_pow(a, b, (e - 1) as nat, m);
        lemma_mul(a, b, pow(a, (e - 1) as nat), pow(b, (e - 1) as nat), m);
    }
}

/// Equal numbers are congruent, and a multiple of the modulus can be dropped.
pub proof fn lemma_drop(a: int, k: int, m: int)
    requires
        m > 0,
    ensures
        cong(a + k * m, a, m),
{
    lemma_mod_multiples_vanish(k, a, m);
    lemma_mul_is_commutative(k, m);
}


/// Congruent numbers have congruent sums, the sum reduced.
pub proof fn lemma_add_rem(a: int, b: int, c: int, d: int, m: int)
    requires
        m > 0,
        cong(a, b, m),
        cong(c, d, m),
    ensures
        cong((a + c) % m, b + d, m),
{
    lemma_add(a, b, c, d, m);
    lemma_rem(a + c, m);
}

/// Congruent numbers have congruent differences, the difference reduced.
pub proof fn lemma_sub_rem(a: int, b: int, c: int, d: int, m: int)
    requires
        m > 0,
        cong(a, b, m),
        cong(c, d, m),
    ensures
        cong((a - c) % m, b - d, m),
{
    lemma_sub(a, b, c, d, m);
    lemma_rem(a - c, m);
}

/// Congruent numbers have congruent products, the product reduced.
pub proof fn lemma_mul_rem(a: int, b: int, c: int, d: int, m: int)
    requires
        m > 0,
        cong(a, b, m),
        cong(c, d, m),
    ensures
        cong((a * c) % m, b * d, m),
{
    lemma_mul(a, b, c, d, m);
    lemma_rem(a * c, m);
}

} // verus!
