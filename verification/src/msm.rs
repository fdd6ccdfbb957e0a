//! Multiscalar multiplication with buckets.
//!
//! The scalars are cut into windows of a few bits. Inside a window, the points whose
//! scalars have one value there share a bucket, and the buckets are summed by parts,
//! which weighs each by its value without a multiplication.
use crate::bytes;
use crate::curve::CurveAffine;
use crate::field::{Field, PrimeField};
use crate::modular;
use crate::poly;
use crate::sums;
use vstd::arithmetic::div_mod::*;
use vstd::arithmetic::mul::*;
use vstd::arithmetic::power2::*;
use vstd::bits::*;
use vstd::prelude::*;

verus! {

/// How many bits a window has for `n` scalars: about the natural logarithm of `n`.
pub open spec fn window_bits(n: nat) -> nat {
    if n < 4 {
        1
    } else if n < 32 {
        3
    } else if n < 55 {
        4
    } else if n < 149 {
        5
    } else if n < 404 {
        6
    } else if n < 1097 {
        7
    } else if n < 2981 {
        8
    } else if n < 8104 {
        9
    } else if n < 22027 {
        10
    } else if n < 59875 {
        11
    } else if n < 162755 {
        12
    } else if n < 442414 {
        13
    } else if n < 1202605 {
        14
    } else if n < 3269018 {
        15
    } else {
        16
    }
}

/// The bits of a number in one window.
pub open spec fn digit(a: int, segment: nat, c: nat) -> int {
    (a / pow2(segment * c) as int) % (pow2(c) as int)
}

/// How many bits a window has for `n` scalars.
pub fn bucket_lookup(n: usize) -> (r: usize)
    ensures
        r == window_bits(n as nat),
{
    let thresholds: [usize; 15] = [
        4,
        4,
        32,
        55,
        149,
        404,
        1097,
        2981,
        8104,
        22027,
        59875,
        162755,
        442414,
        1202605,
        3269018,
    ];
    let mut cur: usize = 1;
    while cur <= 15
        invariant
            1 <= cur <= 16,
            thresholds@ == seq![
                4usize,
                4,
                32,
                55,
                149,
                404,
                1097,
                2981,
                8104,
                22027,
                59875,
                162755,
                442414,
                1202605,
                3269018,
            ],
            cur >= 2 ==> n >= thresholds@[cur - 2],
        decreases 16 - cur,
    {
        if n < thresholds[cur - 1] {
            return cur;
        }
        cur = cur + 1;
    }
    cur
}

/// The bits in one window of a number that is encoded in little-endian order.
fn get_at(segment: usize, c: usize, repr: &[u8; 32]) -> (r: usize)
    requires
        1 <= c <= 16,
        segment <= 256,
    ensures
        r == digit(bytes::le_nat(repr@) as int, segment as nat, c as nat),
        r < pow2(c as nat),
{
    let ghost n = bytes::le_nat(repr@) as int;
    let ghost cp = pow2(c as nat) as int;
    proof {
        lemma_pow2_pos(c as nat);
        assert(segment * c <= 256 * 16) by (nonlinear_arith)
            requires
                segment <= 256,
                c <= 16,
        ;
        assert(segment as nat * c as nat == segment * c);
    }
    let skip_bits: usize = segment * c;
    let skip_bytes: usize = skip_bits / 8;
    if skip_bytes >= 32 {
        proof {
            bytes::lemma_bound(repr@);
            if skip_bits > 256 {
                lemma_pow2_strictly_increases(256, skip_bits as nat);
            }
            lemma_basic_div(n, pow2(skip_bits as nat) as int);
            lemma_small_mod(0, cp as nat);
        }
        return 0;
    }
    let len: usize = if skip_bytes + 4 <= 32 {
        4
    } else {
        32 - skip_bytes
    };
    let ghost high = repr@.skip(skip_bytes as int);
    let ghost part = high.take(len as int);
    let mut tmp: u32 = 0;
    let mut i: usize = len;
    assert(part.skip(len as int) =~= Seq::<u8>::empty());
    while i > 0
        invariant
            i <= len <= 4,
            skip_bytes + len <= 32,
            high == repr@.skip(skip_bytes as int),
            part == high.take(len as int),
            tmp == bytes::le_nat(part.skip(i as int)),
        decreases i,
    {
        i = i - 1;
        proof {
            let s = part.skip(i as int);
            assert(s.skip(1) =~= part.skip(i + 1));
            assert(s[0] == repr@[skip_bytes + i]);
            bytes::lemma_bound(s);
            lemma2_to64();
            if s.len() < 4 {
                lemma_pow2_strictly_increases(8 * s.len(), 32);
            }
        }
        tmp = repr[skip_bytes + i] as u32 + 256 * tmp;
    }
    let shift: u32 = (skip_bits - 8 * skip_bytes) as u32;
    let modulus: u32 = 1u32 << (c as u32);
    proof {
        lemma2_to64();
        lemma_pow2_strictly_increases(c as nat, 31);
        lemma_u32_shl_is_mul(1, c as u32);
        assert(modulus == cp);
    }
    let r: u32 = (tmp >> shift) % modulus;
    proof {
        lemma_u32_shr_is_div(tmp, shift);
        assert(part.skip(0) =~= part);
        lemma_digit(repr@, skip_bytes as int, shift as nat, len as int, c as nat);
        lemma_mod_bound((tmp >> shift) as int, cp);
    }
    r as usize
}

/// A window of bits is found in the bytes that hold it.
proof fn lemma_digit(s: Seq<u8>, skip: int, shift: nat, len: int, c: nat)
    requires
        0 <= skip,
        shift < 8,
        1 <= c <= 16,
        0 <= len,
        skip + len <= s.len(),
        len == 4 || skip + len == s.len(),
    ensures
        (bytes::le_nat(s) as int / pow2((8 * skip + shift) as nat) as int) % (pow2(c) as int) == (
        bytes::le_nat(s.skip(skip).take(len)) as int / pow2(shift) as int) % (pow2(c) as int),
{
    let n = bytes::le_nat(s) as int;
    let lo = bytes::le_nat(s.take(skip)) as int;
    let high = s.skip(skip);
    let hi = bytes::le_nat(high) as int;
    let v = bytes::le_nat(high.take(len)) as int;
    let rest = bytes::le_nat(high.skip(len)) as int;
    let b = pow2((8 * skip) as nat) as int;
    let d = pow2(shift) as int;
    let w = pow2((8 * len) as nat) as int;
    let cp = pow2(c) as int;
    lemma_pow2_pos((8 * skip) as nat);
    lemma_pow2_pos(shift);
    lemma_pow2_pos(c);
    bytes::lemma_split(s, skip);
    bytes::lemma_bound(s.take(skip));
    bytes::lemma_split(high, len);
    lemma_pow2_adds((8 * skip) as nat, shift);
    lemma_div_denominator(n, b, d);
    assert(n / b == hi) by {
        lemma_fundamental_div_mod_converse(n, b, hi, lo);
    }
    if len == 4 {
        let e = (32 - shift - c) as nat;
        let k = pow2(e) as int;
        lemma_pow2_adds(e, c);
        lemma_pow2_adds(e + c, shift);
        assert(w == k * cp * d);
        let j = k * cp * rest;
        assert(w * rest == j * d) by (nonlinear_arith)
            requires
                w == k * cp * d,
                j == k * cp * rest,
        ;
        lemma_hoist_over_denominator(v, j, d as nat);
        assert(hi / d == v / d + j);
        assert(j == cp * (k * rest)) by (nonlinear_arith)
            requires
                j == k * cp * rest,
        ;
        lemma_mod_multiples_vanish(k * rest, v / d, cp);
    } else {
        assert(high.skip(len) =~= Seq::<u8>::empty());
        assert(rest == 0);
        assert(w * 0 == 0);
    }
}


/// The points of one window whose scalars have one value there.
enum Bucket<C: CurveAffine> {
    Empty,
    Affine(C),
    Projective(C::Curve),
}

impl<C: CurveAffine> Bucket<C> {
    /// The discrete logarithm of the sum of the points.
    spec fn dlog(&self) -> int {
        match *self {
            Bucket::Empty => 0,
            Bucket::Affine(a) => a.dlog(),
            Bucket::Projective(a) => C::curve_dlog(&a),
        }
    }

    /// The bucket with one more point.
    fn with(&self, other: &C) -> (r: Self)
        ensures
            modular::cong(r.dlog(), self.dlog() + other.dlog(), C::Scalar::modulus()),
    {
        proof {
            C::Scalar::lemma_modulus();
            modular::lemma_rem(self.dlog() + other.dlog(), C::Scalar::modulus());
        }
        match *self {
            Bucket::Empty => Bucket::Affine(*other),
            Bucket::Affine(a) => Bucket::Projective(a.add(other)),
            Bucket::Projective(a) => Bucket::Projective(C::curve_add_affine(&a, other)),
        }
    }

    /// The sum of `other` and the points.
    fn add(&self, other: C::Curve) -> (r: C::Curve)
        ensures
            modular::cong(
                C::curve_dlog(&r),
                self.dlog() + C::curve_dlog(&other),
                C::Scalar::modulus(),
            ),
    {
        proof {
            C::Scalar::lemma_modulus();
            modular::lemma_rem(self.dlog() + C::curve_dlog(&other), C::Scalar::modulus());
        }
        match *self {
            Bucket::Empty => other,
            Bucket::Affine(a) => C::curve_add_affine(&other, &a),
            Bucket::Projective(a) => C::curve_add(&other, &a),
        }
    }
}

/// The discrete logarithms of the sums in the buckets.
spec fn bucket_dlogs<C: CurveAffine>(buckets: Seq<Bucket<C>>) -> Seq<int> {
    Seq::new(buckets.len(), |i: int| buckets[i].dlog())
}

/// The sum of the values, each weighted by its position, from one on.
spec fn weighted(v: Seq<int>) -> int {
    sums::sigma(v.len(), |i: int| (i + 1) * v[i])
}

/// The weighted sum changes with a value by the change times its position.
proof fn lemma_weighted_update(v: Seq<int>, k: int, x: int)
    requires
        0 <= k < v.len(),
    ensures
        weighted(v.update(k, x)) == weighted(v) + (k + 1) * (x - v[k]),
{
    let w = v.update(k, x);
    let f = |i: int| (i + 1) * v[i];
    let g = |i: int| if i == k {
        (k + 1) * (x - v[k])
    } else {
        0
    };
    let h = |i: int| (i + 1) * w[i];
    assert forall|i: int| 0 <= i < v.len() implies #[trigger] h(i) == f(i) + g(i) by {
        if i == k {
            assert((k + 1) * x == (k + 1) * v[k] + (k + 1) * (x - v[k])) by (nonlinear_arith);
        }
    }
    sums::lemma_plus(v.len(), f, g, h);
    sums::lemma_single(v.len(), g, k);
}

/// Summation by parts: the weighted sum is the weighted sum of what comes behind the
/// first value, and the plain sum of all.
proof fn lemma_by_parts(v: Seq<int>)
    requires
        v.len() > 0,
    ensures
        sums::sum(v) == v[0] + sums::sum(v.skip(1)),
        weighted(v) == weighted(v.skip(1)) + sums::sum(v),
{
    let t = v.skip(1);
    let n = (v.len() - 1) as nat;
    let one = |i: int| v[i];
    let tail = |i: int| t[i];
    sums::lemma_first(v.len(), one, tail);
    let f = |i: int| (i + 1) * v[i];
    let g = |i: int| (i + 2) * v[i + 1];
    let h = |i: int| (i + 1) * t[i];
    sums::lemma_first(v.len(), f, g);
    assert forall|i: int| 0 <= i < n implies #[trigger] g(i) == h(i) + tail(i) by {
        let x = t[i];
        assert((i + 2) * x == (i + 1) * x + x) by (nonlinear_arith);
    }
    sums::lemma_plus(n, h, tail, g);
}

/// The sum over the points of one window, each multiplied by the bits of its scalar
/// there.
spec fn window_dlog(a: Seq<int>, g: Seq<int>, segment: nat, c: nat) -> int {
    sums::sigma(a.len(), |i: int| digit(a[i], segment, c) * g[i])
}

/// The numbers that encodings stand for.
spec fn repr_vals(reprs: Seq<[u8; 32]>) -> Seq<int> {
    Seq::new(reprs.len(), |i: int| bytes::le_nat(reprs[i]@) as int)
}

/// The sum over the points of one window, each multiplied by the bits of its scalar
/// there.
fn window_sum<C: CurveAffine>(
    segment: usize,
    c: usize,
    coeffs: &Vec<[u8; 32]>,
    bases: &Vec<C>,
) -> (r: C::Curve)
    requires
        1 <= c <= 16,
        segment <= 256,
        coeffs.len() == bases.len(),
    ensures
        modular::cong(
            C::curve_dlog(&r),
            window_dlog(
                repr_vals(coeffs@),
                crate::curve::dlogs(bases@),
                segment as nat,
                c as nat,
            ),
            C::Scalar::modulus(),
        ),
{
    let ghost q = C::Scalar::modulus();
    let ghost a = repr_vals(coeffs@);
    let ghost g = crate::curve::dlogs(bases@);
    let ghost f = |i: int| digit(a[i], segment as nat, c as nat) * g[i];
    proof {
        C::Scalar::lemma_modulus();
        lemma2_to64();
        lemma_pow2_pos(c as nat);
        if c < 16 {
            lemma_pow2_strictly_increases(c as nat, 16);
        }
        lemma_usize_shl_is_mul(1, c);
    }
    let count: usize = (1usize << c) - 1;
    let mut buckets: Vec<Bucket<C>> = Vec::with_capacity(count);
    while buckets.len() < count
        invariant
            buckets.len() <= count,
            forall|i: int| 0 <= i < buckets.len() ==> (#[trigger] buckets@[i]).dlog() == 0,
        decreases count - buckets.len(),
    {
        buckets.push(Bucket::Empty);
    }
    let mut i: usize = 0;
    proof {
        let v = bucket_dlogs(buckets@);
        let z = |i: int| (i + 1) * v[i];
        assert forall|i: int| 0 <= i < v.len() implies #[trigger] z(i) == 0 by {
            assert((i + 1) * 0 == 0);
        }
        sums::lemma_zero(v.len(), z);
    }
    while i < coeffs.len()
        invariant
            1 <= c <= 16,
            segment <= 256,
            i <= coeffs.len(),
            coeffs.len() == bases.len(),
            q == C::Scalar::modulus(),
            q > 2,
            a == repr_vals(coeffs@),
            g == crate::curve::dlogs(bases@),
            f == (|i: int| digit(a[i], segment as nat, c as nat) * g[i]),
            count == pow2(c as nat) - 1,
            buckets.len() == count,
            modular::cong(weighted(bucket_dlogs(buckets@)), sums::sigma(i as nat, f), q),
        decreases coeffs.len() - i,
    {
        let d: usize = get_at(segment, c, &coeffs[i]);
        assert(a[i as int] == bytes::le_nat(coeffs@[i as int]@));
        if d != 0 {
            let ghost before = buckets@;
            let ghost v = bucket_dlogs(before);
            let bucket = buckets[d - 1].with(&bases[i]);
            buckets.set(d - 1, bucket);
            proof {
                let k = d - 1;
                let x = bucket.dlog();
                assert(bucket_dlogs(buckets@) =~= v.update(k, x));
                lemma_weighted_update(v, k, x);
                let y = g[i as int];
                assert(y == bases@[i as int].dlog());
                modular::lemma_sub(x, v[k] + y, v[k], v[k], q);
                modular::lemma_mul(d as int, d as int, x - v[k], y, q);
                modular::lemma_add(weighted(v), sums::sigma(i as nat, f), d * (x - v[k]), d * y, q);
            }
        } else {
            assert(0 * g[i as int] == 0);
        }
        i = i + 1;
    }
    let ghost v = bucket_dlogs(buckets@);
    let mut running_sum = C::curve_identity();
    let mut sum = C::curve_identity();
    let mut j: usize = count;
    proof {
        assert(v.skip(count as int) =~= Seq::<int>::empty());
    }
    while j > 0
        invariant
            q == C::Scalar::modulus(),
            q > 2,
            j <= count,
            buckets.len() == count,
            v == bucket_dlogs(buckets@),
            modular::cong(C::curve_dlog(&running_sum), sums::sum(v.skip(j as int)), q),
            modular::cong(C::curve_dlog(&sum), weighted(v.skip(j as int)), q),
        decreases j,
    {
        j = j - 1;
        let ghost (r0, s0) = (C::curve_dlog(&running_sum), C::curve_dlog(&sum));
        running_sum = buckets[j].add(running_sum);
        sum = C::curve_add(&sum, &running_sum);
        proof {
            let t = v.skip(j as int);
            assert(t.skip(1) =~= v.skip(j + 1));
            lemma_by_parts(t);
            let x = v[j as int];
            modular::lemma_add(x, x, r0, sums::sum(t.skip(1)), q);
            modular::lemma_add_rem(
                s0,
                weighted(t.skip(1)),
                C::curve_dlog(&running_sum),
                sums::sum(t),
                q,
            );
        }
    }
    proof {
        assert(v.skip(0) =~= v);
    }
    sum
}

/// The sum of the points, each multiplied by its scalar without the bits of the first
/// `segment` windows.
spec fn upper_dlog(a: Seq<int>, g: Seq<int>, segment: nat, c: nat) -> int {
    sums::sigma(a.len(), |i: int| (a[i] / pow2(segment * c) as int) * g[i])
}

/// A window of bits goes in front of those above it.
proof fn lemma_upper(a: Seq<int>, g: Seq<int>, segment: nat, c: nat)
    requires
        a.len() == g.len(),
        forall|i: int| 0 <= i < a.len() ==> #[trigger] a[i] >= 0,
    ensures
        upper_dlog(a, g, segment, c) == window_dlog(a, g, segment, c) + pow2(c) * upper_dlog(
            a,
            g,
            segment + 1,
            c,
        ),
{
    let n = a.len();
    let b = pow2(segment * c) as int;
    let cp = pow2(c) as int;
    lemma_pow2_pos(segment * c);
    lemma_pow2_pos(c);
    lemma_pow2_adds(segment * c, c);
    assert((segment + 1) * c == segment * c + c) by (nonlinear_arith);
    let whole = |i: int| (a[i] / b) * g[i];
    let low = |i: int| digit(a[i], segment, c) * g[i];
    let up = |i: int| (a[i] / pow2((segment + 1) * c) as int) * g[i];
    let high = |i: int| cp * ((a[i] / pow2((segment + 1) * c) as int) * g[i]);
    assert forall|i: int| 0 <= i < n implies #[trigger] whole(i) == low(i) + high(i) by {
        let x = a[i] / b;
        lemma_fundamental_div_mod(x, cp);
        lemma_div_denominator(a[i], b, cp);
        let (h, l, y) = (x / cp, x % cp, g[i]);
        assert((cp * h + l) * y == l * y + cp * (h * y)) by (nonlinear_arith);
    }
    sums::lemma_plus(n, low, high, whole);
    sums::lemma_scale(n, cp, up, high);
}

/// The sum of the bases, each multiplied by its scalar, on the processor.
pub fn cpu_mul<C: CurveAffine>(coeffs: &Vec<C::Scalar>, bases: &Vec<C>) -> (r: C::Curve)
    requires
        coeffs.len() == bases.len(),
    ensures
        C::curve_dlog(&r) == poly::dot(
            crate::field::vals(coeffs@),
            crate::curve::dlogs(bases@),
        ) % C::Scalar::modulus(),
{
    let ghost q = C::Scalar::modulus();
    let ghost a = crate::field::vals(coeffs@);
    let ghost g = crate::curve::dlogs(bases@);
    let mut reprs: Vec<[u8; 32]> = Vec::with_capacity(coeffs.len());
    while reprs.len() < coeffs.len()
        invariant
            reprs.len() <= coeffs.len(),
            forall|i: int|
                0 <= i < reprs.len() ==> bytes::le_nat((#[trigger] reprs@[i])@) == coeffs@[i].val(),
        decreases coeffs.len() - reprs.len(),
    {
        reprs.push(coeffs[reprs.len()].to_repr());
    }
    let c: usize = bucket_lookup(coeffs.len());
    let bits: usize = C::Scalar::num_bits();
    let segments: usize = (bits + c - 1) / c;
    proof {
        C::Scalar::lemma_modulus();
        assert(repr_vals(reprs@) =~= a);
        assert(segments <= 256 && segments * c >= bits) by (nonlinear_arith)
            requires
                1 <= c <= 16,
                0 < bits <= 256,
                segments == (bits + c - 1) / c as int,
        ;
    }
    let mut window_sums: Vec<C::Curve> = Vec::with_capacity(segments);
    while window_sums.len() < segments
        invariant
            1 <= c <= 16,
            segments <= 256,
            window_sums.len() <= segments,
            reprs.len() == bases.len(),
            repr_vals(reprs@) == a,
            g == crate::curve::dlogs(bases@),
            q == C::Scalar::modulus(),
            forall|s: int|
                0 <= s < window_sums.len() ==> modular::cong(
                    C::curve_dlog(&#[trigger] window_sums@[s]),
                    window_dlog(a, g, s as nat, c as nat),
                    q,
                ),
        decreases segments - window_sums.len(),
    {
        let sum = window_sum(window_sums.len(), c, &reprs, bases);
        window_sums.push(sum);
    }
    let mut acc = C::curve_identity();
    let mut s: usize = segments;
    proof {
        lemma_pow2_pos((segments as nat) * (c as nat));
        let b = pow2((segments as nat) * (c as nat)) as int;
        if bits < segments * c {
            lemma_pow2_strictly_increases(bits as nat, (segments as nat) * (c as nat));
        }
        let up = |i: int| (a[i] / b) * g[i];
        assert forall|i: int| 0 <= i < a.len() implies #[trigger] up(i) == 0 by {
            coeffs@[i].lemma_range();
            lemma_basic_div(a[i], b);
            assert(0 * g[i] == 0);
        }
        sums::lemma_zero(a.len(), up);
    }
    while s > 0
        invariant
            1 <= c <= 16,
            s <= segments,
            window_sums.len() == segments,
            a.len() == g.len(),
            forall|i: int| 0 <= i < a.len() ==> #[trigger] a[i] >= 0,
            q == C::Scalar::modulus(),
            q > 2,
            forall|s: int|
                0 <= s < window_sums.len() ==> modular::cong(
                    C::curve_dlog(&#[trigger] window_sums@[s]),
                    window_dlog(a, g, s as nat, c as nat),
                    q,
                ),
            modular::cong(C::curve_dlog(&acc), upper_dlog(a, g, s as nat, c as nat), q),
        decreases s,
    {
        s = s - 1;
        let ghost up = upper_dlog(a, g, (s + 1) as nat, c as nat);
        let mut d: usize = 0;
        proof {
            lemma2_to64();
        }
        while d < c
            invariant
                d <= c,
                q == C::Scalar::modulus(),
                q > 2,
                modular::cong(C::curve_dlog(&acc), pow2(d as nat) * up, q),
            decreases c - d,
        {
            let ghost before = C::curve_dlog(&acc);
            acc = C::curve_double(&acc);
            proof {
                let p = pow2(d as nat) as int;
                modular::lemma_mul_rem(2, 2, before, p * up, q);
                lemma_pow2_adds(1, d as nat);
                lemma2_to64();
                assert(2 * (p * up) == (2 * p) * up) by (nonlinear_arith);
            }
            d = d + 1;
        }
        let ghost before = C::curve_dlog(&acc);
        acc = C::curve_add(&acc, &window_sums[s]);
        proof {
            lemma_upper(a, g, s as nat, c as nat);
            modular::lemma_add_rem(
                before,
                pow2(c as nat) * up,
                C::curve_dlog(&window_sums@[s as int]),
                window_dlog(a, g, s as nat, c as nat),
                q,
            );
        }
    }
    proof {
        lemma2_to64();
        assert(0 * (c as nat) == 0);
        let whole = |i: int| (a[i] / pow2(0 * (c as nat)) as int) * g[i];
        let f = |i: int| a[i] * g[i];
        assert forall|i: int| 0 <= i < a.len() implies #[trigger] whole(i) == f(i) by {
            lemma_div_basics(a[i]);
        }
        sums::lemma_ext(a.len(), whole, f);
        C::lemma_curve_dlog(&acc);
        modular::lemma_is_rem(C::curve_dlog(&acc), poly::dot(a, g), q);
    }
    acc
}

/// The points in affine coordinates, at the cost of one inversion.
pub fn batch_to_affine<C: CurveAffine, const N: usize>(projectives: [C::Curve; N]) -> (r: [C; N])
    ensures
        forall|i: int| 0 <= i < N ==> (#[trigger] r@[i]).dlog() == C::curve_dlog(&projectives@[i]),
{
    let mut points: Vec<C::Curve> = Vec::with_capacity(N);
    while points.len() < N
        invariant
            points.len() <= N,
            points@ == projectives@.take(points.len() as int),
        decreases N - points.len(),
    {
        let i: usize = points.len();
        points.push(projectives[i]);
        proof {
            assert(points@ =~= projectives@.take(i + 1));
        }
    }
    let normal = C::batch_normalize(&points);
    let mut affines: [C; N] = [C::identity(); N];
    let mut i: usize = 0;
    while i < N
        invariant
            i <= N,
            normal.len() == N,
            points.len() == N,
            points@ == projectives@.take(N as int),
            forall|j: int|
                0 <= j < N ==> (#[trigger] normal@[j]).dlog() == C::curve_dlog(&points@[j]),
            forall|j: int|
                0 <= j < i ==> (#[trigger] affines@[j]).dlog() == C::curve_dlog(&projectives@[j]),
        decreases N - i,
    {
        affines[i] = normal[i];
        i = i + 1;
    }
    affines
}

} // verus!
