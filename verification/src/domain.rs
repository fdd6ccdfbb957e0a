//! Fast Fourier transforms over the roots of unity of a field.
use crate::field::{Field, PrimeField};
use crate::modular;
use crate::poly;
use vstd::arithmetic::div_mod::*;
use vstd::arithmetic::mul::*;
use vstd::arithmetic::power::*;
use vstd::arithmetic::power2::*;
use vstd::prelude::*;

verus! {

/// What a transform can be applied to: values that can be added, subtracted, and
/// multiplied by elements of a field. A value is spoken of through its coordinates.
pub trait Ring {
    /// The values.
    type R;

    /// The field.
    type F: PrimeField;

    /// The value is in order.
    spec fn valid(r: &Self::R) -> bool;

    /// The number of coordinates.
    spec fn dims() -> nat;

    /// The coordinate at `k`.
    spec fn coord(r: &Self::R, k: int) -> int;

    /// Coordinates are representatives.
    proof fn lemma_coord(r: &Self::R, k: int)
        ensures
            0 <= Self::coord(r, k) < Self::F::modulus(),
    ;

    /// A copy of a value.
    fn copy(r: &Self::R) -> (c: Self::R)
        requires
            Self::valid(r),
        ensures
            Self::valid(&c),
            forall|k: int|
                0 <= k < Self::dims() ==> #[trigger] Self::coord(&c, k) == Self::coord(r, k),
    ;

    /// Multiplies a value by `by`.
    fn scale_assign(r: &mut Self::R, by: Self::F)
        requires
            Self::valid(old(r)),
        ensures
            Self::valid(final(r)),
            forall|k: int|
                0 <= k < Self::dims() ==> #[trigger] Self::coord(final(r), k) == (Self::coord(
                    old(r),
                    k,
                ) * by.val()) % Self::F::modulus(),
    ;

    /// Adds `other` to a value.
    fn add_assign(r: &mut Self::R, other: &Self::R)
        requires
            Self::valid(old(r)),
            Self::valid(other),
        ensures
            Self::valid(final(r)),
            forall|k: int|
                0 <= k < Self::dims() ==> #[trigger] Self::coord(final(r), k) == (Self::coord(
                    old(r),
                    k,
                ) + Self::coord(other, k)) % Self::F::modulus(),
    ;

    /// Subtracts `other` from a value.
    fn sub_assign(r: &mut Self::R, other: &Self::R)
        requires
            Self::valid(old(r)),
            Self::valid(other),
        ensures
            Self::valid(final(r)),
            forall|k: int|
                0 <= k < Self::dims() ==> #[trigger] Self::coord(final(r), k) == (Self::coord(
                    old(r),
                    k,
                ) - Self::coord(other, k)) % Self::F::modulus(),
    ;
}

/// The field itself.
pub struct Scalars<F> {
    field: core::marker::PhantomData<F>,
}

impl<F: PrimeField> Ring for Scalars<F> {
    type R = F;

    type F = F;

    open spec fn valid(r: &F) -> bool {
        true
    }

    open spec fn dims() -> nat {
        1
    }

    open spec fn coord(r: &F, k: int) -> int {
        r.val()
    }

    proof fn lemma_coord(r: &F, k: int) {
        r.lemma_range();
    }

    fn copy(r: &F) -> (c: F) {
        *r
    }

    fn scale_assign(r: &mut F, by: F) {
        *r = r.mul(&by);
    }

    fn add_assign(r: &mut F, other: &F) {
        *r = r.add(other);
    }

    fn sub_assign(r: &mut F, other: &F) {
        *r = r.sub(other);
    }
}

/// All values are in order.
pub open spec fn all_valid<T: Ring>(v: Seq<T::R>) -> bool {
    forall|i: int| 0 <= i < v.len() ==> T::valid(&#[trigger] v[i])
}

/// The coordinates at `k` of a sequence of values.
pub open spec fn column<T: Ring>(v: Seq<T::R>, k: int) -> Seq<int> {
    Seq::new(v.len(), |i: int| T::coord(&v[i], k))
}

/// The root of unity of the domain of `2^log` points: the field's root of unity, squared until
/// it has that order.
pub open spec fn root_of_order<F: PrimeField>(log: nat) -> int {
    pow(F::root(), pow2((F::two_adicity() - log) as nat)) % F::modulus()
}

/// `w` is a root of unity of order `n`, a power of two: its power at half the order is
/// minus one.
pub open spec fn is_root(w: int, n: nat, p: int) -> bool {
    n >= 2 ==> n % 2 == 0 && modular::cong(pow(w, n / 2), -1, p)
}

/// In every coordinate, `evals` are the values at the powers of `w` of the polynomial
/// with the coefficients `coeffs`.
pub open spec fn transformed<T: Ring>(coeffs: Seq<T::R>, evals: Seq<T::R>, w: int) -> bool {
    &&& evals.len() == coeffs.len()
    &&& forall|j: int, k: int|
        0 <= j < evals.len() && 0 <= k < T::dims() ==> #[trigger] T::coord(&evals[j], k)
            == poly::eval(column::<T>(coeffs, k), pow(w, j as nat)) % T::F::modulus()
}


/// A root of unity and its square.
proof fn lemma_root_square(w: int, w2: int, n: nat, p: int)
    requires
        p > 0,
        n % 2 == 0,
        n / 2 == 1 || (n / 2) % 2 == 0,
        is_root(w, n, p),
        modular::cong(w2, w * w, p),
    ensures
        is_root(w2, n / 2, p),
{
    let h = n / 2;
    if h >= 2 {
        lemma_pow1(w);
        lemma_pow_adds(w, 1, 1);
        lemma_pow_multiplies(w, 2, h / 2);
        modular::lemma_pow(w2, w * w, h / 2, p);
    }
}

/// The values of a polynomial at `w^j` and at its negation, from those of its halves.
proof fn lemma_butterfly(c: Seq<int>, w: int, w2: int, j: int, p: int)
    requires
        p > 0,
        c.len() >= 2,
        is_root(w, c.len(), p),
        modular::cong(w2, w * w, p),
        0 <= j < c.len() / 2,
    ensures
        ({
            let h = (c.len() / 2) as int;
            let e = poly::eval(poly::evens(c), pow(w2, j as nat));
            let o = poly::eval(poly::odds(c), pow(w2, j as nat));
            let x = pow(w, j as nat);
            &&& modular::cong(poly::eval(c, x), e + x * o, p)
            &&& modular::cong(poly::eval(c, pow(w, (j + h) as nat)), e - x * o, p)
        }),
{
    let h = (c.len() / 2) as int;
    let x = pow(w, j as nat);
    let y = pow(w, (j + h) as nat);
    let (ev, od) = (poly::evens(c), poly::odds(c));
    let z = pow(w2, j as nat);
    lemma_pow_distributes(w, w, j as nat);
    modular::lemma_pow(w2, w * w, j as nat, p);
    poly::lemma_eval_cong(ev, ev, x * x, z, p);
    poly::lemma_eval_cong(od, od, x * x, z, p);
    let (e, o) = (poly::eval(ev, x * x), poly::eval(od, x * x));
    let (e2, o2) = (poly::eval(ev, z), poly::eval(od, z));
    poly::lemma_even_odd(c, x);
    modular::lemma_mul(x, x, o, o2, p);
    modular::lemma_add(e, e2, x * o, x * o2, p);
    lemma_pow_adds(w, j as nat, h as nat);
    modular::lemma_mul(x, x, pow(w, h as nat), -1, p);
    assert(x * -1 == -x) by (nonlinear_arith);
    poly::lemma_eval_cong(c, c, y, -x, p);
    poly::lemma_even_odd(c, -x);
    assert((-x) * (-x) == x * x) by (nonlinear_arith);
    assert((-x) * o == -(x * o)) by (nonlinear_arith);
    modular::lemma_sub(e, e2, x * o, x * o2, p);
}

/// Half of a power of two.
proof fn lemma_halved(n: nat, log: nat)
    requires
        n == pow2(log),
        log > 0,
    ensures
        n % 2 == 0,
        n / 2 == pow2((log - 1) as nat),
        n / 2 == 1 || (n / 2) % 2 == 0,
        n >= 2,
{
    lemma2_to64();
    lemma_pow2_adds(1, (log - 1) as nat);
    lemma_pow2_pos((log - 1) as nat);
    if log > 1 {
        lemma_pow2_adds(1, (log - 2) as nat);
    }
}

/// Every other value, from `first` on.
fn every_other<T: Ring>(v: &Vec<T::R>, first: usize) -> (r: Vec<T::R>)
    requires
        v.len() % 2 == 0,
        first <= 1,
        all_valid::<T>(v@),
    ensures
        r.len() == v.len() / 2,
        all_valid::<T>(r@),
        forall|i: int, k: int|
            0 <= i < r.len() && 0 <= k < T::dims() ==> #[trigger] T::coord(&r@[i], k) == T::coord(
                &v@[2 * i + first],
                k,
            ),
{
    let h: usize = v.len() / 2;
    let mut r: Vec<T::R> = Vec::with_capacity(h);
    while r.len() < h
        invariant
            h == v.len() / 2,
            v.len() % 2 == 0,
            first <= 1,
            all_valid::<T>(v@),
            r.len() <= h,
            all_valid::<T>(r@),
            forall|i: int, k: int|
                0 <= i < r.len() && 0 <= k < T::dims() ==> #[trigger] T::coord(&r@[i], k)
                    == T::coord(&v@[2 * i + first], k),
        decreases h - r.len(),
    {
        let i: usize = 2 * r.len() + first;
        let value = T::copy(&v[i]);
        r.push(value);
    }
    r
}

/// The values at the powers of `w` of the polynomial with the given coefficients.
fn fft_halves<T: Ring>(v: &Vec<T::R>, w: T::F, log: u32) -> (r: Vec<T::R>)
    requires
        v.len() == pow2(log as nat),
        is_root(w.val(), v.len() as nat, T::F::modulus()),
        all_valid::<T>(v@),
    ensures
        all_valid::<T>(r@),
        transformed::<T>(v@, r@, w.val()),
    decreases log,
{
    let ghost p = T::F::modulus();
    let ghost x = w.val();
    proof {
        T::F::lemma_modulus();
        lemma2_to64();
    }
    if log == 0 {
        let mut r: Vec<T::R> = Vec::new();
        let value = T::copy(&v[0]);
        r.push(value);
        proof {
            assert forall|j: int, k: int| 0 <= j < r.len() && 0 <= k < T::dims() implies
                #[trigger] T::coord(&r@[j], k) == poly::eval(
                column::<T>(v@, k),
                pow(x, j as nat),
            ) % p by {
                let c = column::<T>(v@, k);
                lemma_pow0(x);
                poly::lemma_horner(c, 1);
                assert(c.skip(1) =~= Seq::<int>::empty());
                T::lemma_coord(&v@[0], k);
                lemma_small_mod(c[0] as nat, p as nat);
            }
        }
        return r;
    }
    let ghost n = v.len() as nat;
    let h: usize = v.len() / 2;
    proof {
        lemma_halved(n, log as nat);
    }
    let even = every_other::<T>(v, 0);
    let odd = every_other::<T>(v, 1);
    let w2 = w.square();
    proof {
        modular::lemma_rem(x * x, p);
        lemma_root_square(x, w2.val(), n, p);
    }
    let e = fft_halves::<T>(&even, w2, log - 1);
    let o = fft_halves::<T>(&odd, w2, log - 1);
    let mut low: Vec<T::R> = Vec::with_capacity(v.len());
    let mut high: Vec<T::R> = Vec::with_capacity(h);
    let mut power = T::F::one();
    let mut j: usize = 0;
    proof {
        lemma_pow0(x);
        assert forall|k: int| 0 <= k < T::dims() implies #[trigger] column::<T>(even@, k)
            == poly::evens(column::<T>(v@, k)) by {
            assert(column::<T>(even@, k) =~= poly::evens(column::<T>(v@, k)));
        }
        assert forall|k: int| 0 <= k < T::dims() implies #[trigger] column::<T>(odd@, k)
            == poly::odds(column::<T>(v@, k)) by {
            assert(column::<T>(odd@, k) =~= poly::odds(column::<T>(v@, k)));
        }
    }
    while j < h
        invariant
            p == T::F::modulus(),
            p > 2,
            x == w.val(),
            n == v.len(),
            h == n / 2,
            n % 2 == 0,
            n >= 2,
            is_root(x, n, p),
            modular::cong(w2.val(), x * x, p),
            e.len() == h,
            o.len() == h,
            all_valid::<T>(e@),
            all_valid::<T>(o@),
            transformed::<T>(even@, e@, w2.val()),
            transformed::<T>(odd@, o@, w2.val()),
            forall|k: int|
                0 <= k < T::dims() ==> #[trigger] column::<T>(even@, k) == poly::evens(
                    column::<T>(v@, k),
                ),
            forall|k: int|
                0 <= k < T::dims() ==> #[trigger] column::<T>(odd@, k) == poly::odds(
                    column::<T>(v@, k),
                ),
            j <= h,
            low.len() == j,
            high.len() == j,
            modular::cong(power.val(), pow(x, j as nat), p),
            all_valid::<T>(low@),
            all_valid::<T>(high@),
            forall|i: int, k: int|
                0 <= i < j && 0 <= k < T::dims() ==> #[trigger] T::coord(&low@[i], k) == poly::eval(
                    column::<T>(v@, k),
                    pow(x, i as nat),
                ) % p,
            forall|i: int, k: int|
                0 <= i < j && 0 <= k < T::dims() ==> #[trigger] T::coord(&high@[i], k)
                    == poly::eval(column::<T>(v@, k), pow(x, (i + h) as nat)) % p,
        decreases h - j,
    {
        let mut turned = T::copy(&o[j]);
        T::scale_assign(&mut turned, power);
        let mut plus = T::copy(&e[j]);
        T::add_assign(&mut plus, &turned);
        let mut minus = T::copy(&e[j]);
        T::sub_assign(&mut minus, &turned);
        proof {
            assert forall|k: int|
                #![trigger T::coord(&plus, k)]
                #![trigger T::coord(&minus, k)]
                0 <= k < T::dims() implies T::coord(&plus, k) == poly::eval(
                column::<T>(v@, k),
                pow(x, j as nat),
            ) % p && T::coord(&minus, k) == poly::eval(
                column::<T>(v@, k),
                pow(x, (j + h) as nat),
            ) % p by {
                let c = column::<T>(v@, k);
                lemma_butterfly(c, x, w2.val(), j as int, p);
                let y = pow(x, j as nat);
                let ee = poly::eval(poly::evens(c), pow(w2.val(), j as nat));
                let oo = poly::eval(poly::odds(c), pow(w2.val(), j as nat));
                let (a, b) = (T::coord(&e@[j as int], k), T::coord(&o@[j as int], k));
                assert(column::<T>(even@, k) == poly::evens(c));
                assert(column::<T>(odd@, k) == poly::odds(c));
                assert(a == ee % p && b == oo % p);
                modular::lemma_rem(ee, p);
                modular::lemma_rem(oo, p);
                modular::lemma_mul_rem(b, oo, power.val(), y, p);
                lemma_mul_is_commutative(oo, y);
                let t = T::coord(&turned, k);
                modular::lemma_add_rem(a, ee, t, y * oo, p);
                modular::lemma_sub_rem(a, ee, t, y * oo, p);
                T::lemma_coord(&plus, k);
                T::lemma_coord(&minus, k);
                modular::lemma_is_rem(T::coord(&plus, k), poly::eval(c, y), p);
                modular::lemma_is_rem(
                    T::coord(&minus, k),
                    poly::eval(c, pow(x, (j + h) as nat)),
                    p,
                );
            }
        }
        low.push(plus);
        high.push(minus);
        let ghost before = power.val();
        power = power.mul(&w);
        proof {
            modular::lemma_mul_rem(before, pow(x, j as nat), x, x, p);
            lemma_pow_adds(x, j as nat, 1);
            lemma_pow1(x);
        }
        j = j + 1;
    }
    let ghost (lo, hi) = (low@, high@);
    low.append(&mut high);
    proof {
        assert(low@ =~= lo + hi);
        assert forall|i: int, k: int| 0 <= i < low.len() && 0 <= k < T::dims() implies
            #[trigger] T::coord(&low@[i], k) == poly::eval(
            column::<T>(v@, k),
            pow(x, i as nat),
        ) % p by {
            if i < h {
                assert(low@[i] == lo[i]);
            } else {
                assert(low@[i] == hi[i - h]);
                assert(T::coord(&hi[i - h], k) == poly::eval(
                    column::<T>(v@, k),
                    pow(x, (i - h + h) as nat),
                ) % p);
            }
        }
        assert forall|i: int| 0 <= i < low.len() implies T::valid(&#[trigger] low@[i]) by {
            if i < h {
                assert(low@[i] == lo[i]);
            } else {
                assert(low@[i] == hi[i - h]);
            }
        }
    }
    low
}


/// The two halves of a transform, put together again: with `2 * half` and `x * y`
/// congruent to one, `(a + b) half + x (a - b) half y` is `a`, and the difference is
/// `b`.
proof fn lemma_unbutterfly(a: int, b: int, half: int, x: int, y: int, p: int)
    requires
        p > 1,
        modular::cong(2 * half, 1, p),
        modular::cong(x * y, 1, p),
    ensures
        modular::cong((a + b) * half + x * ((a - b) * (half * y)), a, p),
        modular::cong((a + b) * half - x * ((a - b) * (half * y)), b, p),
{
    let s = (a + b) * half;
    let d = (a - b) * half;
    let t = x * ((a - b) * (half * y));
    assert(t == d * (x * y)) by (nonlinear_arith)
        requires
            d == (a - b) * half,
            t == x * ((a - b) * (half * y)),
    ;
    modular::lemma_mul(d, d, x * y, 1, p);
    assert(d * 1 == d);
    modular::lemma_add(s, s, t, d, p);
    modular::lemma_sub(s, s, t, d, p);
    assert(s + d == a * (2 * half)) by (nonlinear_arith)
        requires
            s == (a + b) * half,
            d == (a - b) * half,
    ;
    assert(s - d == b * (2 * half)) by (nonlinear_arith)
        requires
            s == (a + b) * half,
            d == (a - b) * half,
    ;
    modular::lemma_mul(a, a, 2 * half, 1, p);
    modular::lemma_mul(b, b, 2 * half, 1, p);
    assert(a * 1 == a && b * 1 == b);
}

/// Powers of inverse numbers are inverse.
proof fn lemma_inverse_pow(a: int, b: int, e: nat, p: int)
    requires
        p > 1,
        modular::cong(a * b, 1, p),
    ensures
        modular::cong(pow(a, e) * pow(b, e), 1, p),
{
    lemma_pow_distributes(a, b, e);
    modular::lemma_pow(a * b, 1, e, p);
    lemma1_pow(e);
}

/// The two sequences of values, taken in turn.
fn interleave<T: Ring>(even: &Vec<T::R>, odd: &Vec<T::R>) -> (r: Vec<T::R>)
    requires
        even.len() == odd.len(),
        even.len() + odd.len() <= usize::MAX,
        all_valid::<T>(even@),
        all_valid::<T>(odd@),
    ensures
        r.len() == 2 * even.len(),
        all_valid::<T>(r@),
        forall|k: int|
            0 <= k < T::dims() ==> #[trigger] poly::evens(column::<T>(r@, k)) == column::<T>(
                even@,
                k,
            ),
        forall|k: int|
            0 <= k < T::dims() ==> #[trigger] poly::odds(column::<T>(r@, k)) == column::<T>(
                odd@,
                k,
            ),
{
    let mut r: Vec<T::R> = Vec::with_capacity(even.len() + odd.len());
    let mut i: usize = 0;
    while i < even.len()
        invariant
            i <= even.len(),
            even.len() == odd.len(),
            all_valid::<T>(even@),
            all_valid::<T>(odd@),
            r.len() == 2 * i,
            all_valid::<T>(r@),
            forall|j: int, k: int|
                0 <= j < i && 0 <= k < T::dims() ==> #[trigger] T::coord(&even@[j], k) == T::coord(
                    &r@[2 * j],
                    k,
                ),
            forall|j: int, k: int|
                0 <= j < i && 0 <= k < T::dims() ==> #[trigger] T::coord(&odd@[j], k) == T::coord(
                    &r@[2 * j + 1],
                    k,
                ),
        decreases even.len() - i,
    {
        let value = T::copy(&even[i]);
        r.push(value);
        let value = T::copy(&odd[i]);
        r.push(value);
        i = i + 1;
    }
    proof {
        assert forall|k: int| 0 <= k < T::dims() implies #[trigger] poly::evens(
            column::<T>(r@, k),
        ) == column::<T>(even@, k) by {
            assert(poly::evens(column::<T>(r@, k)) =~= column::<T>(even@, k));
        }
        assert forall|k: int| 0 <= k < T::dims() implies #[trigger] poly::odds(column::<T>(r@, k))
            == column::<T>(odd@, k) by {
            assert(poly::odds(column::<T>(r@, k)) =~= column::<T>(odd@, k));
        }
    }
    r
}

/// The coefficients of the polynomial with the given values at the powers of `w`.
fn ifft_halves<T: Ring>(v: &Vec<T::R>, w: T::F, w_inv: T::F, half: T::F, log: u32) -> (r: Vec<T::R>)
    requires
        v.len() == pow2(log as nat),
        is_root(w.val(), v.len() as nat, T::F::modulus()),
        modular::cong(w.val() * w_inv.val(), 1, T::F::modulus()),
        modular::cong(2 * half.val(), 1, T::F::modulus()),
        all_valid::<T>(v@),
    ensures
        all_valid::<T>(r@),
        transformed::<T>(r@, v@, w.val()),
    decreases log,
{
    let ghost p = T::F::modulus();
    let ghost (x, y, f) = (w.val(), w_inv.val(), half.val());
    proof {
        T::F::lemma_modulus();
        lemma2_to64();
    }
    if log == 0 {
        let mut r: Vec<T::R> = Vec::new();
        let value = T::copy(&v[0]);
        r.push(value);
        proof {
            assert forall|j: int, k: int| 0 <= j < v.len() && 0 <= k < T::dims() implies
                #[trigger] T::coord(&v@[j], k) == poly::eval(
                column::<T>(r@, k),
                pow(x, j as nat),
            ) % p by {
                let c = column::<T>(r@, k);
                lemma_pow0(x);
                poly::lemma_horner(c, 1);
                assert(c.skip(1) =~= Seq::<int>::empty());
                T::lemma_coord(&v@[0], k);
                lemma_small_mod(T::coord(&v@[0], k) as nat, p as nat);
            }
        }
        return r;
    }
    let ghost n = v.len() as nat;
    let h: usize = v.len() / 2;
    proof {
        lemma_halved(n, log as nat);
    }
    let mut e: Vec<T::R> = Vec::with_capacity(h);
    let mut o: Vec<T::R> = Vec::with_capacity(h);
    let mut power = half;
    let mut j: usize = 0;
    proof {
        lemma_pow0(y);
        assert(f * 1 == f);
    }
    while j < h
        invariant
            p == T::F::modulus(),
            p > 2,
            f == half.val(),
            y == w_inv.val(),
            n == v.len(),
            h == n / 2,
            n % 2 == 0,
            j <= h,
            e.len() == j,
            o.len() == j,
            all_valid::<T>(v@),
            all_valid::<T>(e@),
            all_valid::<T>(o@),
            modular::cong(power.val(), f * pow(y, j as nat), p),
            forall|i: int, k: int|
                0 <= i < j && 0 <= k < T::dims() ==> modular::cong(
                    #[trigger] T::coord(&e@[i], k),
                    (T::coord(&v@[i], k) + T::coord(&v@[i + h], k)) * f,
                    p,
                ),
            forall|i: int, k: int|
                0 <= i < j && 0 <= k < T::dims() ==> modular::cong(
                    #[trigger] T::coord(&o@[i], k),
                    (T::coord(&v@[i], k) - T::coord(&v@[i + h], k)) * (f * pow(y, i as nat)),
                    p,
                ),
        decreases h - j,
    {
        let mut plus = T::copy(&v[j]);
        T::add_assign(&mut plus, &v[j + h]);
        let ghost sum = plus;
        T::scale_assign(&mut plus, half);
        let mut minus = T::copy(&v[j]);
        T::sub_assign(&mut minus, &v[j + h]);
        let ghost difference = minus;
        T::scale_assign(&mut minus, power);
        proof {
            assert forall|k: int|
                #![trigger T::coord(&plus, k)]
                #![trigger T::coord(&minus, k)]
                0 <= k < T::dims() implies modular::cong(
                T::coord(&plus, k),
                (T::coord(&v@[j as int], k) + T::coord(&v@[j + h], k)) * f,
                p,
            ) && modular::cong(
                T::coord(&minus, k),
                (T::coord(&v@[j as int], k) - T::coord(&v@[j + h], k)) * (f * pow(y, j as nat)),
                p,
            ) by {
                let (a, b) = (T::coord(&v@[j as int], k), T::coord(&v@[j + h], k));
                let q = f * pow(y, j as nat);
                modular::lemma_rem(a + b, p);
                modular::lemma_mul_rem(T::coord(&sum, k), a + b, f, f, p);
                modular::lemma_rem(a - b, p);
                modular::lemma_mul_rem(T::coord(&difference, k), a - b, power.val(), q, p);
            }
        }
        e.push(plus);
        o.push(minus);
        let ghost before = power.val();
        power = power.mul(&w_inv);
        proof {
            let q = pow(y, j as nat);
            modular::lemma_mul_rem(before, f * q, y, y, p);
            lemma_pow_adds(y, j as nat, 1);
            lemma_pow1(y);
            assert((f * q) * y == f * (q * y)) by (nonlinear_arith);
        }
        j = j + 1;
    }
    let w2 = w.square();
    let w2_inv = w_inv.square();
    proof {
        modular::lemma_rem(x * x, p);
        lemma_root_square(x, w2.val(), n, p);
        modular::lemma_rem(y * y, p);
        modular::lemma_mul(w2.val(), x * x, w2_inv.val(), y * y, p);
        modular::lemma_mul(x * y, 1, x * y, 1, p);
        assert((x * x) * (y * y) == (x * y) * (x * y)) by (nonlinear_arith);
    }
    let even = ifft_halves::<T>(&e, w2, w2_inv, half, log - 1);
    let odd = ifft_halves::<T>(&o, w2, w2_inv, half, log - 1);
    let r = interleave::<T>(&even, &odd);
    proof {
        assert forall|i: int, k: int| 0 <= i < v.len() && 0 <= k < T::dims() implies
            #[trigger] T::coord(&v@[i], k) == poly::eval(
            column::<T>(r@, k),
            pow(x, i as nat),
        ) % p by {
            let c = column::<T>(r@, k);
            let m = if i < h {
                i
            } else {
                i - h
            };
            let (a, b) = (T::coord(&v@[m], k), T::coord(&v@[m + h], k));
            let xm = pow(x, m as nat);
            let ym = pow(y, m as nat);
            lemma_butterfly(c, x, w2.val(), m, p);
            assert(poly::evens(c) == column::<T>(even@, k));
            assert(poly::odds(c) == column::<T>(odd@, k));
            let ee = poly::eval(poly::evens(c), pow(w2.val(), m as nat));
            let oo = poly::eval(poly::odds(c), pow(w2.val(), m as nat));
            assert(T::coord(&e@[m], k) == ee % p);
            assert(T::coord(&o@[m], k) == oo % p);
            modular::lemma_rem(ee, p);
            modular::lemma_rem(oo, p);
            let g = (a - b) * (f * ym);
            modular::lemma_mul(xm, xm, oo, g, p);
            modular::lemma_add(ee, (a + b) * f, xm * oo, xm * g, p);
            modular::lemma_sub(ee, (a + b) * f, xm * oo, xm * g, p);
            lemma_inverse_pow(x, y, m as nat, p);
            lemma_unbutterfly(a, b, f, xm, ym, p);
            T::lemma_coord(&v@[i], k);
            modular::lemma_is_rem(T::coord(&v@[i], k), poly::eval(c, pow(x, i as nat)), p);
        }
    }
    r
}

/// A number whose double is congruent to zero is, for an odd modulus.
proof fn lemma_halve(a: int, p: int)
    requires
        p > 2,
        p % 2 == 1,
        modular::cong(2 * a, 0, p),
    ensures
        modular::cong(a, 0, p),
{
    let f = (p + 1) / 2;
    modular::lemma_mul(f, f, 2 * a, 0, p);
    assert(f * 0 == 0);
    assert(f * (2 * a) == a + p * a) by (nonlinear_arith)
        requires
            2 * f == p + 1,
    ;
    lemma_mod_multiples_vanish(a, a, p);
}

/// A polynomial of fewer than `n` coefficients is determined by its values at the powers
/// of a root of unity of order `n`.
pub proof fn lemma_determined(c: Seq<int>, d: Seq<int>, w: int, log: nat, p: int)
    requires
        p > 2,
        p % 2 == 1,
        c.len() == pow2(log),
        d.len() == c.len(),
        is_root(w, c.len(), p),
        forall|j: int|
            0 <= j < c.len() ==> modular::cong(
                #[trigger] poly::eval(c, pow(w, j as nat)),
                poly::eval(d, pow(w, j as nat)),
                p,
            ),
    ensures
        poly::cong(c, d, p),
    decreases log,
{
    lemma2_to64();
    if log == 0 {
        lemma_pow0(w);
        assert(modular::cong(poly::eval(c, pow(w, 0)), poly::eval(d, pow(w, 0)), p));
        poly::lemma_horner(c, 1);
        poly::lemma_horner(d, 1);
        assert(c.skip(1) =~= Seq::<int>::empty());
        assert(d.skip(1) =~= Seq::<int>::empty());
    } else {
        let n = c.len();
        let h = (n / 2) as int;
        let w2 = w * w;
        lemma_halved(n, log);
        lemma_root_square(w, w2, n, p);
        let (ce, co, de, dd) = (poly::evens(c), poly::odds(c), poly::evens(d), poly::odds(d));
        assert forall|j: int| 0 <= j < h implies modular::cong(
            #[trigger] poly::eval(ce, pow(w2, j as nat)),
            poly::eval(de, pow(w2, j as nat)),
            p,
        ) && modular::cong(
            poly::eval(co, pow(w2, j as nat)),
            poly::eval(dd, pow(w2, j as nat)),
            p,
        ) by {
            let x = pow(w, j as nat);
            let (ec, oc) = (poly::eval(ce, pow(w2, j as nat)), poly::eval(co, pow(w2, j as nat)));
            let (ed, od) = (poly::eval(de, pow(w2, j as nat)), poly::eval(dd, pow(w2, j as nat)));
            lemma_butterfly(c, w, w2, j, p);
            lemma_butterfly(d, w, w2, j, p);
            assert(modular::cong(
                poly::eval(c, pow(w, j as nat)),
                poly::eval(d, pow(w, j as nat)),
                p,
            ));
            assert(modular::cong(
                poly::eval(c, pow(w, (j + h) as nat)),
                poly::eval(d, pow(w, (j + h) as nat)),
                p,
            ));
            let (pc, mc) = (ec + x * oc, ec - x * oc);
            let (pd, md) = (ed + x * od, ed - x * od);
            assert(modular::cong(pc, pd, p));
            assert(modular::cong(mc, md, p));
            modular::lemma_sub(pc, pd, pd, pd, p);
            modular::lemma_sub(mc, md, md, md, p);
            modular::lemma_add(pc - pd, 0, mc - md, 0, p);
            assert((pc - pd) + (mc - md) == 2 * (ec - ed)) by (nonlinear_arith)
                requires
                    pc == ec + x * oc,
                    mc == ec - x * oc,
                    pd == ed + x * od,
                    md == ed - x * od,
            ;
            lemma_halve(ec - ed, p);
            modular::lemma_add(ec - ed, 0, ed, ed, p);
            modular::lemma_sub(pc - pd, 0, mc - md, 0, p);
            assert((pc - pd) - (mc - md) == 2 * (x * (oc - od))) by (nonlinear_arith)
                requires
                    pc == ec + x * oc,
                    mc == ec - x * oc,
                    pd == ed + x * od,
                    md == ed - x * od,
            ;
            lemma_halve(x * (oc - od), p);
            let y = -pow(w, (h - j) as nat);
            lemma_pow_adds(w, j as nat, (h - j) as nat);
            assert(x * y == -pow(w, h as nat)) by (nonlinear_arith)
                requires
                    pow(w, h as nat) == x * pow(w, (h - j) as nat),
                    y == -pow(w, (h - j) as nat),
            ;
            modular::lemma_sub(0, 0, pow(w, h as nat), -1, p);
            modular::lemma_mul(y, y, x * (oc - od), 0, p);
            assert(y * 0 == 0);
            assert(y * (x * (oc - od)) == (x * y) * (oc - od)) by (nonlinear_arith);
            modular::lemma_mul(x * y, 1, oc - od, oc - od, p);
            modular::lemma_add(oc - od, 0, od, od, p);
        }
        assert forall|j: int| 0 <= j < h implies modular::cong(
            #[trigger] poly::eval(co, pow(w2, j as nat)),
            poly::eval(dd, pow(w2, j as nat)),
            p,
        ) by {
            assert(modular::cong(
                poly::eval(ce, pow(w2, j as nat)),
                poly::eval(de, pow(w2, j as nat)),
                p,
            ));
        }
        lemma_determined(ce, de, w2, (log - 1) as nat, p);
        lemma_determined(co, dd, w2, (log - 1) as nat, p);
        assert forall|i: int| 0 <= i < n implies modular::cong(#[trigger] c[i], d[i], p) by {
            if i % 2 == 0 {
                assert(modular::cong(ce[i / 2], de[i / 2], p));
            } else {
                assert(modular::cong(co[i / 2], dd[i / 2], p));
            }
        }
    }
}


/// The powers of a root of unity whose order is a power of two, which polynomials are
/// evaluated at.
pub struct Domain<F: PrimeField> {
    log2_n: u32,
    n: usize,
    omega: F,
    omega_inv: F,
    half: F,
}

impl<F: PrimeField> Domain<F> {
    #[verifier::type_invariant]
    spec fn consistent(self) -> bool {
        &&& self.n == pow2(self.log2_n as nat)
        &&& is_root(self.omega.val(), self.n as nat, F::modulus())
        &&& modular::cong(self.omega.val() * self.omega_inv.val(), 1, F::modulus())
        &&& modular::cong(2 * self.half.val(), 1, F::modulus())
    }

    /// The logarithm of the number of points.
    pub closed spec fn log(&self) -> nat {
        self.log2_n as nat
    }

    /// The root of unity.
    pub closed spec fn root(&self) -> int {
        self.omega.val()
    }

    /// The domain of `2^log2_n` points.
    pub fn new(log2_n: u32) -> (r: Self)
        requires
            log2_n <= F::two_adicity(),
            pow2(log2_n as nat) <= usize::MAX,
        ensures
            r.log() == log2_n,
            is_root(r.root(), pow2(log2_n as nat), F::modulus()),
            r.root() == pow(F::root(), pow2((F::two_adicity() - log2_n) as nat)) % F::modulus(),
            r.root() == root_of_order::<F>(log2_n as nat),
    {
        let ghost p = F::modulus();
        let s: u32 = F::s();
        let root = F::root_of_unity();
        let ghost x = root.val();
        let mut omega = root;
        let mut k: u32 = s;
        proof {
            F::lemma_modulus();
            lemma2_to64();
            lemma_pow1(x);
        }
        while k > log2_n
            invariant
                log2_n <= k <= s,
                s == F::two_adicity(),
                p == F::modulus(),
                p > 2,
                x == root.val(),
                modular::cong(omega.val(), pow(x, pow2((s - k) as nat)), p),
            decreases k - log2_n,
        {
            let ghost before = omega.val();
            omega = omega.square();
            proof {
                let e = pow2((s - k) as nat);
                modular::lemma_mul_rem(before, pow(x, e), before, pow(x, e), p);
                lemma_pow_adds(x, e, e);
                lemma_pow2_adds(1, (s - k) as nat);
                lemma2_to64();
            }
            k = k - 1;
        }
        let mut n: usize = 1;
        let mut i: u32 = 0;
        while i < log2_n
            invariant
                i <= log2_n,
                n == pow2(i as nat),
                pow2(log2_n as nat) <= usize::MAX,
            decreases log2_n - i,
        {
            proof {
                lemma2_to64();
                lemma_pow2_adds(1, i as nat);
                if i + 1 < log2_n {
                    lemma_pow2_strictly_increases((i + 1) as nat, log2_n as nat);
                }
            }
            n = 2 * n;
            i = i + 1;
        }
        proof {
            let w = omega.val();
            let e = pow2((s - log2_n) as nat);
            omega.lemma_range();
            lemma_mod_multiples_vanish(1, -1, p);
            lemma_small_mod((p - 1) as nat, p as nat);
            if log2_n >= 1 {
                lemma_halved(n as nat, log2_n as nat);
                lemma_pow2_adds((s - log2_n) as nat, (log2_n - 1) as nat);
                lemma_pow_multiplies(x, e, pow2((log2_n - 1) as nat));
                modular::lemma_pow(w, pow(x, e), pow2((log2_n - 1) as nat), p);
            }
            lemma_root_nonzero(x, w, e, s as nat, p);
            modular::lemma_is_rem(w, pow(x, e), p);
        }
        let two = F::from_u64(2);
        proof {
            lemma_small_mod(2, p as nat);
        }
        let half = two.invert().unwrap();
        let omega_inv = omega.invert().unwrap();
        proof {
            lemma_small_mod(1, p as nat);
        }
        Domain { log2_n, n, omega, omega_inv, half }
    }

    /// The number of points.
    pub fn n(&self) -> (r: usize)
        ensures
            r == pow2(self.log()),
    {
        proof {
            use_type_invariant(self);
        }
        self.n
    }

    /// The logarithm of the number of points.
    pub fn log2_n(&self) -> (r: u32)
        ensures
            r == self.log(),
    {
        self.log2_n
    }

    /// The root of unity.
    pub fn omega(&self) -> (r: F)
        ensures
            r.val() == self.root(),
    {
        self.omega
    }

    /// Turns the coefficients of a polynomial into its values at the points of the domain.
    pub fn fft(&self, v: &mut Vec<F>)
        requires
            old(v).len() == pow2(self.log()),
        ensures
            final(v).len() == old(v).len(),
            forall|j: int|
                0 <= j < final(v).len() ==> (#[trigger] final(v)@[j]).val() == poly::eval(
                    crate::field::vals(old(v)@),
                    pow(self.root(), j as nat),
                ) % F::modulus(),
    {
        let ghost before = v@;
        self.ring_fft::<Scalars<F>>(v);
        proof {
            assert(column::<Scalars<F>>(before, 0) =~= crate::field::vals(before));
            assert forall|j: int| 0 <= j < v.len() implies (#[trigger] v@[j]).val() == poly::eval(
                crate::field::vals(before),
                pow(self.root(), j as nat),
            ) % F::modulus() by {
                assert(Scalars::<F>::coord(&v@[j], 0) == v@[j].val());
            }
        }
    }

    /// Turns the values of a polynomial at the points of the domain into its coefficients.
    pub fn ifft(&self, v: &mut Vec<F>)
        requires
            old(v).len() == pow2(self.log()),
        ensures
            final(v).len() == old(v).len(),
            forall|j: int|
                0 <= j < old(v).len() ==> (#[trigger] old(v)@[j]).val() == poly::eval(
                    crate::field::vals(final(v)@),
                    pow(self.root(), j as nat),
                ) % F::modulus(),
    {
        let ghost before = v@;
        self.ring_ifft::<Scalars<F>>(v);
        proof {
            assert(column::<Scalars<F>>(v@, 0) =~= crate::field::vals(v@));
            assert forall|j: int| 0 <= j < v.len() implies (#[trigger] before[j]).val()
                == poly::eval(crate::field::vals(v@), pow(self.root(), j as nat))
                % F::modulus() by {
                assert(Scalars::<F>::coord(&before[j], 0) == before[j].val());
            }
        }
    }

    /// Turns coefficients into values at the points of the domain, in every coordinate.
    pub fn ring_fft<T: Ring<F = F>>(&self, v: &mut Vec<T::R>)
        requires
            old(v).len() == pow2(self.log()),
            all_valid::<T>(old(v)@),
        ensures
            all_valid::<T>(final(v)@),
            transformed::<T>(old(v)@, final(v)@, self.root()),
    {
        proof {
            use_type_invariant(self);
        }
        *v = fft_halves::<T>(v, self.omega, self.log2_n);
    }

    /// Turns values at the points of the domain into coefficients, in every coordinate.
    pub fn ring_ifft<T: Ring<F = F>>(&self, v: &mut Vec<T::R>)
        requires
            old(v).len() == pow2(self.log()),
            all_valid::<T>(old(v)@),
        ensures
            all_valid::<T>(final(v)@),
            transformed::<T>(final(v)@, old(v)@, self.root()),
    {
        proof {
            use_type_invariant(self);
        }
        *v = ifft_halves::<T>(v, self.omega, self.omega_inv, self.half, self.log2_n);
    }
}

/// A power of a root of unity is not zero.
proof fn lemma_root_nonzero(x: int, w: int, e: nat, s: nat, p: int)
    requires
        p > 2,
        s > 0,
        pow(x, pow2((s - 1) as nat)) % p == p - 1,
        0 <= w < p,
        modular::cong(w, pow(x, e), p),
    ensures
        w != 0,
{
    if w == 0 {
        let h = pow2((s - 1) as nat);
        lemma_pow2_pos((s - 1) as nat);
        modular::lemma_pow(pow(x, e), 0, h, p);
        lemma0_pow(h);
        lemma_pow_multiplies(x, e, h);
        lemma_pow_multiplies(x, h, e);
        lemma_mul_is_commutative(e as int, h as int);
        lemma_mod_multiples_vanish(1, -1, p);
        lemma_small_mod((p - 1) as nat, p as nat);
        modular::lemma_pow(pow(x, h), -1, e, p);
        lemma_minus_one_pow(e);
        lemma_small_mod(0, p as nat);
        lemma_small_mod(1, p as nat);
    }
}

/// A power of minus one is one or minus one.
proof fn lemma_minus_one_pow(e: nat)
    ensures
        pow(-1, e) == 1 || pow(-1, e) == -1,
    decreases e,
{
    reveal(pow);
    if e > 0 {
        lemma_minus_one_pow((e - 1) as nat);
    }
}

} // verus!
