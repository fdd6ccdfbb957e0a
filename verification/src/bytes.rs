//! Little-endian byte strings as natural numbers.
use vstd::arithmetic::power2::*;
use vstd::prelude::*;

verus! {

/// The number that the bytes of `s` stand for, least significant byte first.
pub open spec fn le_nat(s: Seq<u8>) -> nat
    decreases s.len(),
{
    if s.len() == 0 {
        0
    } else {
        s[0] as nat + 256 * le_nat(s.skip(1))
    }
}

/// A string of zero bytes stands for zero.
pub proof fn lemma_zeros(s: Seq<u8>)
    requires
        forall|i: int| 0 <= i < s.len() ==> s[i] == 0,
    ensures
        le_nat(s) == 0,
    decreases s.len(),
{
    if s.len() > 0 {
        lemma_zeros(s.skip(1));
    }
}

/// A string of `n` bytes stands for a number of at most `8 * n` bits.
pub proof fn lemma_bound(s: Seq<u8>)
    ensures
        le_nat(s) < pow2(8 * s.len()),
    decreases s.len(),
{
    lemma2_to64();
    if s.len() > 0 {
        lemma_bound(s.skip(1));
        lemma_pow2_adds(8, (8 * (s.len() - 1)) as nat);
    }
}

/// Strings of one length that stand for one number are equal.
pub proof fn lemma_injective(s: Seq<u8>, t: Seq<u8>)
    requires
        s.len() == t.len(),
        le_nat(s) == le_nat(t),
    ensures
        s == t,
    decreases s.len(),
{
    if s.len() > 0 {
        lemma_injective(s.skip(1), t.skip(1));
        assert forall|i: int| 0 <= i < s.len() implies s[i] == t[i] by {
            if i > 0 {
                assert(s[i] == s.skip(1)[i - 1]);
                assert(t[i] == t.skip(1)[i - 1]);
            }
        }
    }
    assert(s =~= t);
}

/// Cutting a string cuts its number at the matching bit.
pub proof fn lemma_split(s: Seq<u8>, k: int)
    requires
        0 <= k <= s.len(),
    ensures
        le_nat(s) == le_nat(s.take(k)) + pow2((8 * k) as nat) * le_nat(s.skip(k)),
    decreases k,
{
    lemma2_to64();
    if k == 0 {
        assert(s.skip(0) =~= s);
        let (p, h) = (pow2(0), le_nat(s));
        assert(p * h == h) by (nonlinear_arith)
            requires
                p == 1,
        ;
    } else {
        lemma_split(s.skip(1), k - 1);
        lemma_pow2_adds(8, (8 * (k - 1)) as nat);
        assert(s.take(k).skip(1) =~= s.skip(1).take(k - 1));
        assert(s.skip(1).skip(k - 1) =~= s.skip(k));
        let (p, q) = (pow2((8 * (k - 1)) as nat), pow2((8 * k) as nat));
        let h = le_nat(s.skip(k));
        assert(256 * (p * h) == q * h) by (nonlinear_arith)
            requires
                q == 256 * p,
        ;
        assert(s.take(k)[0] == s[0]);
    }
}

/// `2^255`, written out.
pub proof fn lemma_pow2_255()
    ensures
        pow2(255) == 0x8000000000000000000000000000000000000000000000000000000000000000int,
{
    lemma2_to64();
    lemma2_to64_rest();
    lemma_pow2_adds(60, 60);
    lemma_pow2_adds(120, 120);
    lemma_pow2_adds(240, 15);
    let (a, b, c, d) = (
        pow2(60) as int,
        pow2(120) as int,
        pow2(240) as int,
        pow2(15) as int,
    );
    assert(b == 0x1000000000000000000000000000000int) by (nonlinear_arith)
        requires
            a == 0x1000000000000000int,
            b == a * a,
    ;
    assert(c == 0x1000000000000000000000000000000000000000000000000000000000000int)
        by (nonlinear_arith)
        requires
            b == 0x1000000000000000000000000000000int,
            c == b * b,
    ;
    assert(c * d == 0x8000000000000000000000000000000000000000000000000000000000000000int)
        by (nonlinear_arith)
        requires
            c == 0x1000000000000000000000000000000000000000000000000000000000000int,
            d == 0x8000,
    ;
}

/// Whether every byte of an encoding is zero.
pub fn all_zero(s: &[u8; 32]) -> (r: bool)
    ensures
        r <==> le_nat(s@) == 0,
{
    let zero: [u8; 32] = [0u8; 32];
    proof {
        lemma_zeros(zero@);
        if le_nat(s@) == 0 {
            lemma_injective(s@, zero@);
        }
    }
    let mut i: usize = 0;
    while i < 32
        invariant
            i <= 32,
            forall|j: int| 0 <= j < i ==> s@[j] == 0,
            le_nat(s@) == 0 ==> s@ == zero@,
            forall|j: int| 0 <= j < 32 ==> zero@[j] == 0,
        decreases 32 - i,
    {
        if s[i] != 0 {
            return false;
        }
        i = i + 1;
    }
    proof {
        lemma_zeros(s@);
    }
    true
}

} // verus!
