//! Operations on dense coefficient vectors.
use crate::bytes;
use crate::domain;
use crate::domain::Domain;
use crate::field::{Field, PrimeField};
use crate::modular;
use crate::poly;
use crate::product;
use crate::sums;
use vstd::arithmetic::div_mod::*;
use vstd::arithmetic::mul::*;
use vstd::arithmetic::power::*;
use vstd::arithmetic::power2::*;
use vstd::prelude::*;

verus! {

/// The low 64 bits of the canonical representative of `f`.
pub fn low_u64<F: PrimeField>(f: &F) -> (r: u64)
    ensures
        r == f.val() % 0x1_0000_0000_0000_0000,
{
    let repr = f.to_repr();
    let mut low: u64 = 0;
    let mut i: usize = 8;
    proof {
        assert(repr@.subrange(8, 8) =~= Seq::<u8>::empty());
        lemma2_to64();
    }
    while i > 0
        invariant
            i <= 8,
            low == bytes::le_nat(repr@.subrange(i as int, 8)),
            low < pow2((8 * (8 - i)) as nat),
        decreases i,
    {
        i = i - 1;
        proof {
            let s = repr@.subrange(i as int, 8);
            assert(s.skip(1) =~= repr@.subrange(i + 1, 8));
            bytes::lemma_bound(s);
            lemma2_to64();
            lemma2_to64_rest();
            lemma_pow2_adds(8, (8 * (8 - i - 1)) as nat);
            assert((8 * s.len()) == 8 * (8 - i));
            if i > 0 {
                lemma_pow2_strictly_increases((8 * (8 - i)) as nat, 64);
            }
        }
        low = repr[i] as u64 + 256 * low;
    }
    proof {
        bytes::lemma_split(repr@, 8);
        lemma2_to64_rest();
        assert(repr@.take(8) =~= repr@.subrange(0, 8));
        let h = bytes::le_nat(repr@.skip(8)) as int;
        modular::lemma_drop(low as int, h, 0x1_0000_0000_0000_0000);
        assert(pow2(64) == 0x1_0000_0000_0000_0000);
        lemma_mul_is_commutative(pow2(64) as int, h);
        assert(f.val() == low + h * 0x1_0000_0000_0000_0000);
    }
    low
}

/// Evaluates at `x` the polynomial with coefficients `coeffs`, in ascending order
/// of degree.
pub fn eval<F: Field>(coeffs: &[F], x: F) -> (r: F)
    ensures
        r.val() == poly::eval(crate::field::vals(coeffs@), x.val()) % F::modulus(),
{
    let ghost c = crate::field::vals(coeffs@);
    let ghost p = F::modulus();
    let mut result = F::zero();
    let mut i: usize = coeffs.len();
    proof {
        F::lemma_modulus();
        assert(c.skip(c.len() as int) =~= Seq::<int>::empty());
    }
    while i > 0
        invariant
            i <= coeffs.len(),
            c == crate::field::vals(coeffs@),
            p == F::modulus(),
            p > 0,
            modular::cong(result.val(), poly::eval(c.skip(i as int), x.val()), p),
        decreases i,
    {
        i = i - 1;
        let ghost before = result.val();
        result = result.mul(&x);
        let ghost scaled = result.val();
        result = result.add(&coeffs[i]);
        proof {
            let t = c.skip(i as int);
            assert(t.skip(1) =~= c.skip(i + 1));
            poly::lemma_horner(t, x.val());
            let e = poly::eval(c.skip(i + 1), x.val());
            modular::lemma_rem(before * x.val(), p);
            modular::lemma_mul(before, e, x.val(), x.val(), p);
            lemma_mul_is_commutative(e, x.val());
            modular::lemma_rem(scaled + c[i as int], p);
            modular::lemma_add(scaled, x.val() * e, c[i as int], c[i as int], p);
        }
    }
    proof {
        assert(c.skip(0) =~= c);
        result.lemma_range();
        modular::lemma_is_rem(result.val(), poly::eval(c, x.val()), p);
    }
    result
}

/// The inner product of two vectors of one length.
pub fn dot<F: Field>(a: &[F], b: &[F]) -> (r: F)
    requires
        a.len() == b.len(),
    ensures
        r.val() == poly::dot(crate::field::vals(a@), crate::field::vals(b@)) % F::modulus(),
{
    let ghost p = F::modulus();
    let ghost f = |i: int| crate::field::vals(a@)[i] * crate::field::vals(b@)[i];
    let mut acc = F::zero();
    let mut i: usize = 0;
    proof {
        F::lemma_modulus();
    }
    while i < a.len()
        invariant
            i <= a.len(),
            a.len() == b.len(),
            p == F::modulus(),
            p > 0,
            f == (|i: int| crate::field::vals(a@)[i] * crate::field::vals(b@)[i]),
            modular::cong(acc.val(), sums::sigma(i as nat, f), p),
        decreases a.len() - i,
    {
        let ghost before = acc.val();
        let product = a[i].mul(&b[i]);
        acc = acc.add(&product);
        proof {
            modular::lemma_rem(a[i as int].val() * b[i as int].val(), p);
            modular::lemma_rem(before + product.val(), p);
            modular::lemma_add(before, sums::sigma(i as nat, f), product.val(), f(i as int), p);
        }
        i = i + 1;
    }
    proof {
        acc.lemma_range();
        modular::lemma_is_rem(acc.val(), sums::sigma(i as nat, f), p);
    }
    acc
}

/// Coefficients that can be taken one by one from the end, the highest degree first.
pub trait Coefficients<F: Field> {
    /// The source is in order.
    spec fn in_order(&self) -> bool;

    /// The coefficients that have not been taken.
    spec fn left(&self) -> Seq<int>;

    /// Takes the coefficient of the highest degree that is left.
    fn take_last(&mut self) -> (r: Option<F>)
        requires
            old(self).in_order(),
        ensures
            final(self).in_order(),
            r is None <==> old(self).left().len() == 0,
            r is None ==> final(self).left() == old(self).left(),
            r matches Some(v) ==> v.val() == old(self).left().last() && final(self).left()
                == old(self).left().drop_last(),
    ;

    /// How many coefficients are left.
    fn count_left(&self) -> (r: usize)
        requires
            self.in_order(),
        ensures
            r == self.left().len(),
    ;
}

/// The coefficients in a slice.
pub struct SliceCoefficients<'a, F> {
    a: &'a [F],
    left: usize,
}

impl<'a, F: Field> SliceCoefficients<'a, F> {
    /// All coefficients in `a`, in ascending order of degree.
    pub fn new(a: &'a [F]) -> (r: Self)
        ensures
            r.in_order(),
            r.left() == crate::field::vals(a@),
    {
        let r = SliceCoefficients { a, left: a.len() };
        proof {
            assert(r.left() =~= crate::field::vals(a@));
        }
        r
    }
}

impl<'a, F: Field> Coefficients<F> for SliceCoefficients<'a, F> {
    closed spec fn in_order(&self) -> bool {
        self.left <= self.a.len()
    }

    closed spec fn left(&self) -> Seq<int> {
        crate::field::vals(self.a@).take(self.left as int)
    }

    fn take_last(&mut self) -> (r: Option<F>) {
        if self.left == 0 {
            return None;
        }
        self.left = self.left - 1;
        proof {
            assert(self.left() =~= old(self).left().drop_last());
        }
        Some(self.a[self.left])
    }

    fn count_left(&self) -> (r: usize) {
        self.left
    }
}

/// The coefficients of a quotient by a linear term, from the highest degree down.
pub struct FactorIter<F, I> {
    source: I,
    neg_b: F,
    carry: F,
    root: Ghost<int>,
    all: Ghost<Seq<int>>,
}

impl<F: Field, I: Coefficients<F>> FactorIter<F, I> {
    /// What the fields of an iterator have to do with each other.
    pub closed spec fn wf(&self) -> bool {
        &&& self.source.in_order()
        &&& self.source.left().len() <= self.all@.len()
        &&& self.source.left() == self.all@.take(self.source.left().len() as int)
        &&& modular::cong(self.neg_b.val(), -self.root@, F::modulus())
        &&& modular::cong(
            self.carry.val(),
            -self.root@ * poly::eval(self.all@.skip(self.source.left().len() as int), self.root@),
            F::modulus(),
        )
    }

    /// All coefficients of the quotient, in ascending order of degree.
    pub closed spec fn quotient(&self) -> Seq<int> {
        poly::quotient(self.all@, self.root@)
    }

    /// How many coefficients have not been yielded.
    pub closed spec fn remaining(&self) -> int {
        if self.source.left().len() == 0 {
            0
        } else {
            self.source.left().len() - 1
        }
    }

    /// Yields the next coefficient, if there is one left.
    pub fn next(&mut self) -> (r: Option<F>)
        requires
            old(self).wf(),
        ensures
            final(self).wf(),
            final(self).quotient() == old(self).quotient(),
            r is None <==> old(self).remaining() == 0,
            r is None ==> final(self).remaining() == 0,
            r matches Some(c) ==> final(self).remaining() == old(self).remaining() - 1 && c.val()
                == old(self).quotient()[old(self).remaining() - 1] % F::modulus(),
    {
        if self.source.count_left() <= 1 {
            return None;
        }
        let ghost c = self.all@;
        let ghost b = self.root@;
        let ghost p = F::modulus();
        let ghost n = self.source.left().len() as int;
        let ghost left = self.source.left();
        let ghost e = poly::eval(c.skip(n), b);
        let ghost old_carry = self.carry.val();
        let current = self.source.take_last().unwrap();
        let lead = current.sub(&self.carry);
        self.carry = lead.mul(&self.neg_b);
        proof {
            F::lemma_modulus();
            assert(c.take(n).drop_last() =~= c.take(n - 1));
            assert(left.last() == c[n - 1]);
            let t = c.skip(n - 1);
            assert(t.skip(1) =~= c.skip(n));
            poly::lemma_horner(t, b);
            modular::lemma_rem(t[0] - old_carry, p);
            modular::lemma_sub(t[0], t[0], old_carry, -b * e, p);
            assert(t[0] - (-b * e) == t[0] + b * e) by (nonlinear_arith);
            lead.lemma_range();
            modular::lemma_is_rem(lead.val(), poly::eval(t, b), p);
            modular::lemma_rem(lead.val() * self.neg_b.val(), p);
            modular::lemma_mul(lead.val(), poly::eval(t, b), self.neg_b.val(), -b, p);
            lemma_mul_is_commutative(poly::eval(t, b), -b);
        }
        Some(lead)
    }
}

/// The coefficients of `a / (X - b)`, highest degree first. Where `b` is no root
/// of `a`, the remainder is dropped. A constant cannot be divided: `a` needs two
/// coefficients or more.
pub fn factor_iter<F: Field, I: Coefficients<F>>(a: I, b: F) -> (r: FactorIter<F, I>)
    requires
        a.in_order(),
        a.left().len() >= 2,
    ensures
        r.wf(),
        r.quotient() == poly::quotient(a.left(), b.val()),
        r.remaining() == a.left().len() - 1,
{
    let ghost c = a.left();
    let neg_b = b.neg();
    let carry = F::zero();
    proof {
        F::lemma_modulus();
        modular::lemma_rem(-b.val(), F::modulus());
        assert(c.take(c.len() as int) =~= c);
        assert(c.skip(c.len() as int) =~= Seq::<int>::empty());
        assert(-b.val() * 0 == 0);
    }
    FactorIter { source: a, neg_b, carry, root: Ghost(b.val()), all: Ghost(c) }
}

/// The coefficients of `a / (X - b)`, in ascending order of degree. Where `b` is no
/// root of `a`, the remainder is dropped. A constant cannot be divided: `a` needs two
/// coefficients or more.
pub fn factor<F: Field>(a: &[F], b: F) -> (r: Vec<F>)
    requires
        a.len() >= 2,
    ensures
        r.len() == a.len() - 1,
        forall|i: int|
            0 <= i < r.len() ==> #[trigger] r[i].val() == poly::quotient(
                crate::field::vals(a@),
                b.val(),
            )[i] % F::modulus(),
{
    let ghost q = poly::quotient(crate::field::vals(a@), b.val());
    let mut iter = factor_iter(SliceCoefficients::new(a), b);
    let mut down: Vec<F> = Vec::new();
    let n: usize = a.len() - 1;
    while down.len() < n
        invariant
            iter.wf(),
            iter.quotient() == q,
            q.len() == n,
            down.len() <= n,
            iter.remaining() == n - down.len(),
            forall|i: int|
                0 <= i < down.len() ==> #[trigger] down[i].val() == q[n - 1 - i] % F::modulus(),
        decreases n - down.len(),
    {
        match iter.next() {
            Some(c) => down.push(c),
            None => {},
        }
    }
    reversed(&down)
}

/// The elements of `v` from the last to the first.
pub fn reversed<F: Copy>(v: &Vec<F>) -> (r: Vec<F>)
    ensures
        r@ == v@.reverse(),
{
    let mut r: Vec<F> = Vec::new();
    let mut i: usize = v.len();
    while i > 0
        invariant
            i <= v.len(),
            r.len() == v.len() - i,
            forall|j: int| 0 <= j < r.len() ==> #[trigger] r[j] == v[v.len() - 1 - j],
        decreases i,
    {
        i = i - 1;
        r.push(v[i]);
    }
    assert(r@ =~= v@.reverse());
    r
}

/// `1 + r + ... + r^(m - 1)`.
pub fn geosum<F: Field>(r: F, m: usize) -> (sum: F)
    ensures
        sum.val() == poly::geo(r.val(), m as nat) % F::modulus(),
{
    let ghost x = r.val();
    let ghost p = F::modulus();
    let mut r: F = r;
    let mut left: usize = m;
    let mut block = F::one();
    let mut sum = F::zero();
    let mut step = F::one();
    let ghost mut low: nat = 0;
    let ghost mut size: nat = 1;
    proof {
        F::lemma_modulus();
        lemma_pow0(x);
        lemma_pow1(x);
        let f = |i: int| pow(x, i as nat);
        assert(sums::sigma(1, f) == sums::sigma(0, f) + f(0));
        assert(m == low + size * left);
    }
    while left > 0
        invariant
            p == F::modulus(),
            p > 2,
            m == low + size * left,
            modular::cong(r.val(), pow(x, size), p),
            modular::cong(block.val(), poly::geo(x, size), p),
            modular::cong(sum.val(), poly::geo(x, low), p),
            modular::cong(step.val(), pow(x, low), p),
        decreases left,
    {
        assert((left & 1) == left % 2) by (bit_vector);
        assert((left >> 1) == left / 2) by (bit_vector);
        let ghost (r0, b0) = (r.val(), block.val());
        let ghost half = (left / 2) as int;
        if (left & 1) == 1 {
            let ghost (s0, t0) = (sum.val(), step.val());
            let term = step.mul(&block);
            sum = sum.add(&term);
            step = step.mul(&r);
            proof {
                modular::lemma_rem(t0 * b0, p);
                modular::lemma_mul(t0, pow(x, low), b0, poly::geo(x, size), p);
                modular::lemma_rem(s0 + term.val(), p);
                modular::lemma_add(
                    s0,
                    poly::geo(x, low),
                    term.val(),
                    pow(x, low) * poly::geo(x, size),
                    p,
                );
                poly::lemma_geo_add(x, low, size);
                modular::lemma_rem(t0 * r0, p);
                modular::lemma_mul(t0, pow(x, low), r0, pow(x, size), p);
                lemma_pow_adds(x, low, size);
                assert(low + size * left == (low + size) + (2 * size) * half) by (nonlinear_arith)
                    requires
                        left == 2 * half + 1,
                ;
                low = low + size;
            }
        } else {
            proof {
                assert(size * left == (2 * size) * half) by (nonlinear_arith)
                    requires
                        left == 2 * half,
                ;
            }
        }
        let grown = r.mul(&block);
        block = block.add(&grown);
        r = r.square();
        left = left >> 1;
        proof {
            modular::lemma_rem(r0 * b0, p);
            modular::lemma_mul(r0, pow(x, size), b0, poly::geo(x, size), p);
            modular::lemma_rem(b0 + grown.val(), p);
            modular::lemma_add(
                b0,
                poly::geo(x, size),
                grown.val(),
                pow(x, size) * poly::geo(x, size),
                p,
            );
            poly::lemma_geo_add(x, size, size);
            modular::lemma_rem(r0 * r0, p);
            modular::lemma_mul(r0, pow(x, size), r0, pow(x, size), p);
            lemma_pow_adds(x, size, size);
            size = 2 * size;
        }
    }
    proof {
        assert(size * 0 == 0);
        sum.lemma_range();
        modular::lemma_is_rem(sum.val(), poly::geo(x, low), p);
    }
    sum
}


/// `v`, with zeros behind it up to a length of `n`.
fn padded<F: Field>(v: &[F], n: usize) -> (r: Vec<F>)
    requires
        v.len() <= n,
    ensures
        r.len() == n,
        forall|i: int|
            0 <= i < n ==> (#[trigger] r@[i]).val() == product::coeff(crate::field::vals(v@), i),
{
    let mut r: Vec<F> = Vec::with_capacity(n);
    while r.len() < n
        invariant
            v.len() <= n,
            r.len() <= n,
            forall|i: int|
                0 <= i < r.len() ==> (#[trigger] r@[i]).val() == product::coeff(
                    crate::field::vals(v@),
                    i,
                ),
        decreases n - r.len(),
    {
        let i: usize = r.len();
        let value = if i < v.len() {
            v[i]
        } else {
            F::zero()
        };
        r.push(value);
    }
    r
}

/// Writes the coefficients of the product of two polynomials into `out`, by transforms.
/// Where one of them has no coefficients, neither has the product. `out` keeps its memory,
/// and has room for two transforms of the product.
pub fn poly_mul<F: PrimeField>(a: &[F], b: &[F], out: &mut Vec<F>)
    requires
        a.len() == 0 || b.len() == 0 || a.len() + b.len() - 1 <= pow2(F::two_adicity()),
        a.len() == 0 || b.len() == 0 || 4 * (a.len() + b.len()) <= usize::MAX,
    ensures
        final(out).len() == product::product(
            crate::field::vals(a@),
            crate::field::vals(b@),
        ).len(),
        forall|k: int|
            0 <= k < final(out).len() ==> (#[trigger] final(out)@[k]).val() == product::product(
                crate::field::vals(a@),
                crate::field::vals(b@),
            )[k] % F::modulus(),
{
    let ghost (av, bv) = (crate::field::vals(a@), crate::field::vals(b@));
    let ghost p = F::modulus();
    if a.len() == 0 || b.len() == 0 {
        out.clear();
        return;
    }
    let result_len: usize = a.len() + b.len() - 1;
    let mut n: usize = 1;
    let mut log: u32 = 0;
    proof {
        F::lemma_modulus();
        lemma2_to64();
    }
    let s: u32 = F::s();
    while n < result_len
        invariant
            n == pow2(log as nat),
            log <= s,
            s < 64,
            1 <= result_len <= pow2(s as nat),
            4 * result_len <= usize::MAX,
            n < 2 * result_len,
        decreases s - log,
    {
        proof {
            lemma2_to64();
            lemma_pow2_adds(1, log as nat);
        }
        n = 2 * n;
        log = log + 1;
    }
    let domain = Domain::<F>::new(log);
    let ghost w = domain.root();
    let mut lo = padded(a, n);
    let mut hi = padded(b, n);
    let ghost (pa, pb) = (crate::field::vals(lo@), crate::field::vals(hi@));
    domain.fft(&mut lo);
    domain.fft(&mut hi);
    let mut values: Vec<F> = Vec::with_capacity(n);
    while values.len() < n
        invariant
            lo.len() == n,
            hi.len() == n,
            values.len() <= n,
            p == F::modulus(),
            forall|j: int|
                0 <= j < values.len() ==> (#[trigger] values@[j]).val() == (lo@[j].val()
                    * hi@[j].val()) % p,
        decreases n - values.len(),
    {
        let j: usize = values.len();
        values.push(lo[j].mul(&hi[j]));
    }
    let ghost evals = values@;
    domain.ifft(&mut values);
    proof {
        let c = crate::field::vals(values@);
        let full = product::product(av, bv);
        let d = Seq::new(n as nat, |k: int| product::coeff(full, k));
        assert forall|j: int| 0 <= j < n implies modular::cong(
            #[trigger] poly::eval(c, pow(w, j as nat)),
            poly::eval(d, pow(w, j as nat)),
            p,
        ) by {
            let x = pow(w, j as nat);
            poly::lemma_eval_pad(av, pa, x);
            poly::lemma_eval_pad(bv, pb, x);
            poly::lemma_eval_pad(full, d, x);
            product::lemma_product_eval(av, bv, x);
            let (ea, eb) = (poly::eval(av, x), poly::eval(bv, x));
            assert(lo@[j].val() == ea % p);
            assert(hi@[j].val() == eb % p);
            modular::lemma_rem(ea, p);
            modular::lemma_rem(eb, p);
            modular::lemma_mul_rem(ea % p, ea, eb % p, eb, p);
            assert(evals[j].val() == poly::eval(c, x) % p);
            modular::lemma_rem(poly::eval(c, x), p);
        }
        domain::lemma_determined(c, d, w, log as nat, p);
        assert forall|k: int| 0 <= k < result_len implies (#[trigger] values@[k]).val() == full[k]
            % p by {
            assert(modular::cong(c[k], d[k], p));
            values@[k].lemma_range();
            modular::lemma_is_rem(c[k], full[k], p);
        }
    }
    out.clear();
    out.reserve(2 * n);
    while out.len() < result_len
        invariant
            result_len <= values.len(),
            out.len() <= result_len,
            out@ == values@.take(out.len() as int),
        decreases result_len - out.len(),
    {
        let k: usize = out.len();
        out.push(values[k]);
        proof {
            assert(out@ =~= values@.take(k + 1));
        }
    }
}

/// Cuts the product of two polynomials of `n` coefficients each in two: the lower `n`
/// coefficients from the highest to the lowest, the first of which is the inner product
/// of `a` and the reversal of `b`, and the upper `n - 1`.
pub fn decomp_product_poly<F: PrimeField>(a: &[F], b: &[F]) -> (r: (Vec<F>, Vec<F>))
    requires
        a.len() == b.len(),
        2 * a.len() - 1 <= pow2(F::two_adicity()),
        8 * a.len() <= usize::MAX,
    ensures
        r.0.len() == a.len(),
        r.1.len() == if a.len() == 0 {
            0
        } else {
            a.len() - 1
        },
        forall|i: int|
            0 <= i < r.0.len() ==> (#[trigger] r.0@[i]).val() == product::product(
                crate::field::vals(a@),
                crate::field::vals(b@),
            )[a.len() - 1 - i] % F::modulus(),
        forall|i: int|
            0 <= i < r.1.len() ==> (#[trigger] r.1@[i]).val() == product::product(
                crate::field::vals(a@),
                crate::field::vals(b@),
            )[a.len() + i] % F::modulus(),
        a.len() > 0 ==> r.0@[0].val() == poly::revdot(
            crate::field::vals(a@),
            crate::field::vals(b@),
        ) % F::modulus(),
{
    let ghost (av, bv) = (crate::field::vals(a@), crate::field::vals(b@));
    if a.len() == 0 {
        return (Vec::new(), Vec::new());
    }
    let n: usize = a.len();
    let mut c: Vec<F> = Vec::new();
    poly_mul(a, b, &mut c);
    let ghost full = c@;
    let q = c.split_off(n);
    let p = reversed(&c);
    proof {
        product::lemma_middle(av, bv);
        assert(p@[0] == full[n - 1]);
    }
    (p, q)
}

/// The representatives of several lists of coefficients, and the roots of each.
spec fn have_roots<F: Field>(polys: Seq<Vec<F>>, segs: Seq<Seq<int>>) -> bool {
    &&& polys.len() == segs.len()
    &&& forall|i: int|
        0 <= i < polys.len() ==> poly::cong(
            crate::field::vals((#[trigger] polys[i])@),
            product::with_roots(segs[i]),
            F::modulus(),
        )
}

/// The coefficients of the monic polynomial that has the given roots, each as often as it
/// is given, and no others.
pub fn poly_with_roots<F: PrimeField>(roots: &[F]) -> (r: Vec<F>)
    requires
        roots.len() + 1 <= pow2(F::two_adicity()),
        4 * (roots.len() + 2) <= usize::MAX,
    ensures
        r.len() == roots.len() + 1,
        forall|i: int|
            0 <= i < r.len() ==> (#[trigger] r@[i]).val() == product::with_roots(
                crate::field::vals(roots@),
            )[i] % F::modulus(),
{
    let ghost p = F::modulus();
    let ghost v = crate::field::vals(roots@);
    proof {
        F::lemma_modulus();
        lemma_small_mod(1, p as nat);
    }
    if roots.len() == 0 {
        let mut r: Vec<F> = Vec::new();
        r.push(F::one());
        return r;
    }
    let mut polys: Vec<Vec<F>> = Vec::with_capacity(roots.len());
    let ghost mut segs: Seq<Seq<int>> = Seq::empty();
    proof {
        assert(segs.flatten() =~= v.take(0)) by {
            reveal(Seq::flatten);
        }
    }
    while polys.len() < roots.len()
        invariant
            p == F::modulus(),
            p > 2,
            v == crate::field::vals(roots@),
            polys.len() <= roots.len(),
            have_roots(polys@, segs),
            segs.flatten() == v.take(polys.len() as int),
        decreases roots.len() - polys.len(),
    {
        let i: usize = polys.len();
        let ghost before = polys@;
        let mut linear: Vec<F> = Vec::with_capacity(2);
        linear.push(roots[i].neg());
        linear.push(F::one());
        polys.push(linear);
        proof {
            let s = seq![v[i as int]];
            let c = crate::field::vals(linear@);
            lemma_linear(v[i as int]);
            modular::lemma_rem(-v[i as int], p);
            assert(poly::cong(c, product::with_roots(s), p));
            segs.lemma_flatten_push(s);
            assert(segs.flatten() + s =~= v.take(i + 1));
            segs = segs.push(s);
        }
    }
    assert(v.take(v.len() as int) =~= v);
    let mut out: Vec<F> = Vec::new();
    while polys.len() > 1
        invariant
            p == F::modulus(),
            p > 2,
            v == crate::field::vals(roots@),
            polys.len() >= 1,
            polys.len() <= roots.len(),
            roots.len() + 1 <= pow2(F::two_adicity()),
            4 * (roots.len() + 2) <= usize::MAX,
            have_roots(polys@, segs),
            segs.flatten() == v,
        decreases polys.len(),
    {
        let count: usize = polys.len();
        let mut next: Vec<Vec<F>> = Vec::with_capacity(count);
        let ghost mut merged: Seq<Seq<int>> = Seq::empty();
        let mut i: usize = 0;
        proof {
            assert(merged.flatten() =~= segs.take(0).flatten()) by {
                assert(segs.take(0) =~= merged);
            }
        }
        while i + 1 < count
            invariant
                p == F::modulus(),
                p > 2,
                v == crate::field::vals(roots@),
                v.len() == roots.len(),
                roots.len() + 1 <= pow2(F::two_adicity()),
                4 * (roots.len() + 2) <= usize::MAX,
                count == polys.len(),
                count <= roots.len(),
                have_roots(polys@, segs),
                segs.flatten() == v,
                i <= count,
                i % 2 == 0,
                next.len() == i / 2,
                have_roots(next@, merged),
                merged.flatten() == segs.take(i as int).flatten(),
            decreases count - i,
        {
            let ghost (s, t) = (segs[i as int], segs[i + 1]);
            proof {
                product::lemma_monic(s);
                product::lemma_monic(t);
                lemma_pair_fits(segs, i as int);
                assert(poly::cong(crate::field::vals(polys@[i as int]@), product::with_roots(s), p));
                assert(poly::cong(crate::field::vals(polys@[i + 1]@), product::with_roots(t), p));
            }
            poly_mul(polys[i].as_slice(), polys[i + 1].as_slice(), &mut out);
            let ghost before = next@;
            proof {
                let (a, b) = (crate::field::vals(polys@[i as int]@), crate::field::vals(polys@[i + 1]@));
                let (c, d) = (product::with_roots(s), product::with_roots(t));
                product::lemma_product_cong(a, b, c, d, p);
                product::lemma_roots_concat(s, t);
                let o = crate::field::vals(out@);
                assert forall|k: int| 0 <= k < o.len() implies modular::cong(
                    #[trigger] o[k],
                    product::with_roots(s + t)[k],
                    p,
                ) by {
                    modular::lemma_rem(product::product(a, b)[k], p);
                    assert(modular::cong(product::product(a, b)[k], product::product(c, d)[k], p));
                }
                merged.lemma_flatten_push(s + t);
                let head = segs.take(i as int);
                head.lemma_flatten_push(s);
                head.push(s).lemma_flatten_push(t);
                assert(segs.take(i + 2) =~= head.push(s).push(t));
                assert(head.flatten() + (s + t) =~= (head.flatten() + s) + t);
                merged = merged.push(s + t);
            }
            next.push(copy_vec(&out));
            i = i + 2;
        }
        if i < count {
            let last = copy_vec(&polys[i]);
            next.push(last);
            proof {
                let s = segs[i as int];
                assert(poly::cong(crate::field::vals(polys@[i as int]@), product::with_roots(s), p));
                merged.lemma_flatten_push(s);
                segs.take(i as int).lemma_flatten_push(s);
                assert(segs.take(i + 1) =~= segs.take(i as int).push(s));
                merged = merged.push(s);
            }
        }
        proof {
            assert(segs.take(count as int) =~= segs);
            segs = merged;
        }
        polys = next;
    }
    proof {
        let s = segs[0];
        assert(segs =~= Seq::<Seq<int>>::empty().push(s));
        Seq::<Seq<int>>::empty().lemma_flatten_push(s);
        assert(Seq::<Seq<int>>::empty().flatten() =~= Seq::<int>::empty());
        assert(v =~= s);
        product::lemma_monic(v);
        let c = crate::field::vals(polys@[0]@);
        assert(poly::cong(c, product::with_roots(v), p));
        assert forall|i: int| 0 <= i < c.len() implies (#[trigger] polys@[0]@[i]).val()
            == product::with_roots(v)[i] % p by {
            assert(modular::cong(c[i], product::with_roots(v)[i], p));
            polys@[0]@[i].lemma_range();
            modular::lemma_is_rem(c[i], product::with_roots(v)[i], p);
        }
    }
    copy_vec(&polys[0])
}

/// The polynomial with one root.
proof fn lemma_linear(r: int)
    ensures
        product::with_roots(seq![r]) == seq![-r, 1],
{
    let x = seq![-r, 1];
    assert(seq![r].drop_last() =~= Seq::<int>::empty());
    assert(product::with_roots(Seq::<int>::empty()) =~= seq![1]);
    product::lemma_commutes(seq![1], x);
    product::lemma_times_one(x);
}

/// Two neighbours in a list of lists are no longer than all of them together.
proof fn lemma_pair_fits(segs: Seq<Seq<int>>, i: int)
    requires
        0 <= i,
        i + 1 < segs.len(),
    ensures
        segs[i].len() + segs[i + 1].len() <= segs.flatten().len(),
{
    let head = segs.take(i);
    let (s, t) = (segs[i], segs[i + 1]);
    let rest = segs.skip(i + 2);
    head.lemma_flatten_push(s);
    head.push(s).lemma_flatten_push(t);
    assert(segs =~= head.push(s).push(t) + rest);
    lemma_flatten_concat(head.push(s).push(t), rest);
}

/// The lists of two lists of lists, one behind the other.
proof fn lemma_flatten_concat(a: Seq<Seq<int>>, b: Seq<Seq<int>>)
    ensures
        (a + b).flatten() == a.flatten() + b.flatten(),
    decreases b.len(),
{
    if b.len() == 0 {
        assert(a + b =~= a);
        assert(b.flatten() =~= Seq::<int>::empty());
        assert(a.flatten() + b.flatten() =~= a.flatten());
    } else {
        let c = b.drop_last();
        let x = b.last();
        lemma_flatten_concat(a, c);
        (a + c).lemma_flatten_push(x);
        c.lemma_flatten_push(x);
        assert(a + b =~= (a + c).push(x));
        assert(b =~= c.push(x));
        assert((a.flatten() + c.flatten()) + x =~= a.flatten() + (c.flatten() + x));
    }
}

/// A copy of a list.
fn copy_vec<F: Copy>(v: &Vec<F>) -> (r: Vec<F>)
    ensures
        r@ == v@,
{
    let mut r: Vec<F> = Vec::with_capacity(v.len());
    while r.len() < v.len()
        invariant
            r.len() <= v.len(),
            r@ == v@.take(r.len() as int),
        decreases v.len() - r.len(),
    {
        let i: usize = r.len();
        r.push(v[i]);
        proof {
            assert(r@ =~= v@.take(i + 1));
        }
    }
    assert(r@ =~= v@);
    r
}

} // verus!
