//! Polynomials that are laid out from the wires of gates.
use crate::field::Field;
use crate::layout;
use crate::modular;
use crate::product;
use crate::rank::Rank;
use crate::sparse::runs;
use crate::sparse::Polynomial;
use crate::util::reversed;
use vstd::arithmetic::div_mod::*;
use vstd::arithmetic::mul::*;
use vstd::arithmetic::power::*;
use vstd::prelude::*;

verus! {

/// The orientation of the polynomial of an execution trace.
pub struct Trace;

/// The orientation of the polynomial of the wiring, in which degrees run the other way.
pub struct Wiring;

/// The values of the four wires of each gate, to be laid out as a polynomial in one of
/// two orientations.
pub struct WireView<F, R: Rank, P> {
    pub a: Vec<F>,
    pub b: Vec<F>,
    pub c: Vec<F>,
    pub d: Vec<F>,
    pub rank: core::marker::PhantomData<R>,
    pub orientation: core::marker::PhantomData<P>,
}

/// The coefficient of degree `k` of the trace of `n` gates: the `c` wires in ascending
/// order, the `a` wires in descending order, the `b` wires in ascending order, and the
/// `d` wires in descending order. Wires that are not given are zero.
pub open spec fn traced(a: Seq<int>, b: Seq<int>, c: Seq<int>, d: Seq<int>, n: int, k: int) -> int {
    if k < n {
        product::coeff(c, k)
    } else if k < 2 * n {
        product::coeff(a, 2 * n - 1 - k)
    } else if k < 3 * n {
        product::coeff(b, k - 2 * n)
    } else {
        product::coeff(d, 4 * n - 1 - k)
    }
}

/// The blocks of a trace: one for each kind of wire, zeros included, without the empty
/// ones.
pub open spec fn trace_layout(
    a: Seq<int>,
    b: Seq<int>,
    c: Seq<int>,
    d: Seq<int>,
    n: int,
) -> Seq<layout::Block> {
    block_of_wires(0, c) + block_of_wires(2 * n - a.len(), a.reverse()) + block_of_wires(2 * n, b)
        + block_of_wires(4 * n - d.len(), d.reverse())
}

/// The block of one kind of wire, if there are any.
pub open spec fn block_of_wires(start: int, w: Seq<int>) -> Seq<layout::Block> {
    if w.len() == 0 {
        Seq::empty()
    } else {
        seq![(start, w)]
    }
}

/// Appends the wires as a block, if there are any.
fn push_wires<F: Field>(blocks: &mut Vec<(usize, Vec<F>)>, start: usize, w: Vec<F>)
    ensures
        runs::lay(final(blocks)@) == runs::lay(old(blocks)@) + block_of_wires(
            start as int,
            crate::field::vals(w@),
        ),
{
    if w.len() > 0 {
        blocks.push((start, w));
    }
    proof {
        assert(runs::lay(blocks@) =~= runs::lay(old(blocks)@) + block_of_wires(
            start as int,
            crate::field::vals(w@),
        ));
    }
}

/// The coefficients of a single block.
proof fn lemma_block_of_wires(start: int, w: Seq<int>, e: int)
    requires
        0 <= start,
        start + w.len() <= e,
    ensures
        layout::wf(block_of_wires(start, w), e),
        forall|k: int|
            #[trigger] layout::coeff(block_of_wires(start, w), k) == product::coeff(w, k - start),
{
    let l = block_of_wires(start, w);
    assert forall|k: int| #[trigger] layout::coeff(l, k) == product::coeff(w, k - start) by {
        assert(layout::coeff(Seq::<layout::Block>::empty(), k) == 0);
        if l.len() > 0 {
            assert(l.drop_last() =~= Seq::<layout::Block>::empty());
            assert(l.last() == (start, w));
        }
    }
}

/// The blocks of a trace are in order and hold its coefficients.
pub proof fn lemma_trace_layout(a: Seq<int>, b: Seq<int>, c: Seq<int>, d: Seq<int>, n: int)
    requires
        a.len() <= n,
        b.len() <= n,
        c.len() <= n,
        d.len() <= n,
    ensures
        layout::wf(trace_layout(a, b, c, d, n), 4 * n),
        forall|k: int|
            0 <= k < 4 * n ==> #[trigger] layout::coeff(trace_layout(a, b, c, d, n), k) == traced(
                a,
                b,
                c,
                d,
                n,
                k,
            ),
{
    let lc = block_of_wires(0, c);
    let la = block_of_wires(2 * n - a.len(), a.reverse());
    let lb = block_of_wires(2 * n, b);
    let ld = block_of_wires(4 * n - d.len(), d.reverse());
    lemma_block_of_wires(0, c, n);
    lemma_block_of_wires(2 * n - a.len(), a.reverse(), 2 * n);
    lemma_block_of_wires(2 * n, b, 3 * n);
    lemma_block_of_wires(4 * n - d.len(), d.reverse(), 4 * n);
    layout::lemma_concat(lc, la, n, 2 * n);
    layout::lemma_concat(lc + la, lb, 2 * n, 3 * n);
    layout::lemma_concat(lc + la + lb, ld, 3 * n, 4 * n);
    assert forall|k: int| 0 <= k < 4 * n implies #[trigger] layout::coeff(
        trace_layout(a, b, c, d, n),
        k,
    ) == traced(a, b, c, d, n, k) by {
        assert(layout::coeff(lc + la, k) == if k < n {
            layout::coeff(lc, k)
        } else {
            layout::coeff(la, k)
        });
        assert(layout::coeff(lc + la + lb, k) == if k < 2 * n {
            layout::coeff(lc + la, k)
        } else {
            layout::coeff(lb, k)
        });
    }
}

/// Lays out the wires as a trace.
fn build_trace<F: Field, R: Rank>(a: &Vec<F>, b: Vec<F>, c: Vec<F>, d: &Vec<F>) -> (r: Polynomial<
    F,
    R,
>)
    requires
        a.len() <= R::gates(),
        b.len() <= R::gates(),
        c.len() <= R::gates(),
        d.len() <= R::gates(),
    ensures
        r.wf(),
        r.layout() == trace_layout(
            crate::field::vals(a@),
            crate::field::vals(b@),
            crate::field::vals(c@),
            crate::field::vals(d@),
            R::gates() as int,
        ),
        forall|k: int|
            0 <= k < 4 * R::gates() ==> #[trigger] r@[k] == traced(
                crate::field::vals(a@),
                crate::field::vals(b@),
                crate::field::vals(c@),
                crate::field::vals(d@),
                R::gates() as int,
                k,
            ),
{
    let ghost (av, bv) = (crate::field::vals(a@), crate::field::vals(b@));
    let ghost (cv, dv) = (crate::field::vals(c@), crate::field::vals(d@));
    let n: usize = R::n();
    let size: usize = R::num_coeffs();
    proof {
        R::lemma_gates();
        lemma_trace_layout(av, bv, cv, dv, n as int);
    }
    let mut blocks: Vec<(usize, Vec<F>)> = Vec::with_capacity(4);
    let ra = reversed(a);
    let rd = reversed(d);
    proof {
        assert(runs::lay(blocks@) =~= Seq::<layout::Block>::empty());
        assert(crate::field::vals(ra@) =~= av.reverse());
        assert(crate::field::vals(rd@) =~= dv.reverse());
    }
    push_wires(&mut blocks, 0, c);
    push_wires(&mut blocks, 2 * n - a.len(), ra);
    push_wires(&mut blocks, 2 * n, b);
    push_wires(&mut blocks, size - d.len(), rd);
    proof {
        assert(runs::lay(blocks@) =~= trace_layout(av, bv, cv, dv, n as int));
    }
    Polynomial::from_blocks(blocks)
}

impl<F: Field, R: Rank> WireView<F, R, Trace> {
    /// No wires yet, in the orientation of a trace.
    pub fn trace() -> (r: Self)
        ensures
            r.a@.len() == 0,
            r.b@.len() == 0,
            r.c@.len() == 0,
            r.d@.len() == 0,
    {
        WireView {
            a: Vec::new(),
            b: Vec::new(),
            c: Vec::new(),
            d: Vec::new(),
            rank: core::marker::PhantomData,
            orientation: core::marker::PhantomData,
        }
    }

    /// Lays out the wires. Each kind has at most one wire for each gate.
    pub fn build(self) -> (r: Polynomial<F, R>)
        requires
            self.a.len() <= R::gates(),
            self.b.len() <= R::gates(),
            self.c.len() <= R::gates(),
            self.d.len() <= R::gates(),
        ensures
            r.wf(),
            r.layout() == trace_layout(
                crate::field::vals(self.a@),
                crate::field::vals(self.b@),
                crate::field::vals(self.c@),
                crate::field::vals(self.d@),
                R::gates() as int,
            ),
            forall|k: int|
                0 <= k < 4 * R::gates() ==> #[trigger] r@[k] == traced(
                    crate::field::vals(self.a@),
                    crate::field::vals(self.b@),
                    crate::field::vals(self.c@),
                    crate::field::vals(self.d@),
                    R::gates() as int,
                    k,
                ),
    {
        build_trace(&self.a, self.b, self.c, &self.d)
    }
}

impl<F: Field, R: Rank> WireView<F, R, Wiring> {
    /// No wires yet, in the orientation of the wiring.
    pub fn wiring() -> (r: Self)
        ensures
            r.a@.len() == 0,
            r.b@.len() == 0,
            r.c@.len() == 0,
            r.d@.len() == 0,
    {
        WireView {
            a: Vec::new(),
            b: Vec::new(),
            c: Vec::new(),
            d: Vec::new(),
            rank: core::marker::PhantomData,
            orientation: core::marker::PhantomData,
        }
    }

    /// Lays out the wires. Each kind has at most one wire for each gate. The polynomial is
    /// the reversal of the trace of the same wires.
    pub fn build(self) -> (r: Polynomial<F, R>)
        requires
            self.a.len() <= R::gates(),
            self.b.len() <= R::gates(),
            self.c.len() <= R::gates(),
            self.d.len() <= R::gates(),
        ensures
            r.wf(),
            r.layout() == trace_layout(
                crate::field::vals(self.b@),
                crate::field::vals(self.a@),
                crate::field::vals(self.d@),
                crate::field::vals(self.c@),
                R::gates() as int,
            ),
            forall|k: int|
                0 <= k < 4 * R::gates() ==> #[trigger] r@[k] == traced(
                    crate::field::vals(self.a@),
                    crate::field::vals(self.b@),
                    crate::field::vals(self.c@),
                    crate::field::vals(self.d@),
                    R::gates() as int,
                    4 * R::gates() - 1 - k,
                ),
    {
        build_trace(&self.b, self.a, self.d, &self.c)
    }
}

/// The coefficient of degree `k` of the polynomial that takes the products off: for the
/// `i`-th of `n` gates, the one of degree `4n - 1 - i` is minus the sum of the powers of
/// `z` at `2n + i` and `2n - 1 - i`. The others are zero.
pub open spec fn tz_coeff(z: int, n: int, k: int) -> int {
    if k < 3 * n {
        0
    } else {
        -(pow(z, (6 * n - 1 - k) as nat) + pow(z, (k - 2 * n) as nat))
    }
}

/// The polynomial that takes the products of the gates off.
pub fn tz<F: Field, R: Rank>(z: F) -> (r: Polynomial<F, R>)
    ensures
        r.wf(),
        forall|k: int|
            0 <= k < 4 * R::gates() ==> #[trigger] r@[k] == tz_coeff(
                z.val(),
                R::gates() as int,
                k,
            ) % F::modulus(),
{
    let ghost p = F::modulus();
    let ghost x = z.val();
    let n: usize = R::n();
    let size: usize = R::num_coeffs();
    proof {
        R::lemma_gates();
        F::lemma_modulus();
        lemma_pow0(x);
    }
    let mut powers: Vec<F> = Vec::with_capacity(3 * n);
    let mut power = F::one();
    while powers.len() < 3 * n
        invariant
            p == F::modulus(),
            p > 2,
            x == z.val(),
            3 * n <= usize::MAX,
            powers.len() <= 3 * n,
            modular::cong(power.val(), pow(x, powers.len() as nat), p),
            forall|i: int|
                0 <= i < powers.len() ==> modular::cong(
                    (#[trigger] powers@[i]).val(),
                    pow(x, i as nat),
                    p,
                ),
        decreases 3 * n - powers.len(),
    {
        let ghost before = power.val();
        let ghost e = powers.len() as nat;
        powers.push(power);
        power = power.mul(&z);
        proof {
            modular::lemma_mul_rem(before, pow(x, e), x, x, p);
            lemma_pow_adds(x, e, 1);
            lemma_pow1(x);
        }
    }
    let mut data: Vec<F> = Vec::with_capacity(n);
    while data.len() < n
        invariant
            p == F::modulus(),
            p > 2,
            n > 0,
            3 * n <= usize::MAX,
            powers.len() == 3 * n,
            data.len() <= n,
            forall|i: int|
                0 <= i < powers.len() ==> modular::cong(
                    (#[trigger] powers@[i]).val(),
                    pow(x, i as nat),
                    p,
                ),
            forall|j: int|
                0 <= j < data.len() ==> (#[trigger] data@[j]).val() == tz_coeff(
                    x,
                    n as int,
                    3 * n + j,
                ) % p,
        decreases n - data.len(),
    {
        let j: usize = data.len();
        let up = powers[n + j];
        let down = powers[3 * n - 1 - j];
        let sum = down.add(&up);
        let value = sum.neg();
        proof {
            let (a, b) = (pow(x, (3 * n - 1 - j) as nat), pow(x, (n + j) as nat));
            assert(modular::cong(down.val(), a, p));
            assert(modular::cong(up.val(), b, p));
            modular::lemma_add_rem(down.val(), a, up.val(), b, p);
            modular::lemma_sub_rem(0, 0, sum.val(), a + b, p);
            value.lemma_range();
            modular::lemma_is_rem(value.val(), -(a + b), p);
            assert(6 * n - 1 - (3 * n + j) == 3 * n - 1 - j);
            assert((3 * n + j) - 2 * n == n + j);
        }
        data.push(value);
    }
    let ghost dv = crate::field::vals(data@);
    let mut blocks: Vec<(usize, Vec<F>)> = Vec::with_capacity(1);
    blocks.push((3 * n, data));
    proof {
        let l = runs::lay(blocks@);
        assert(l =~= block_of_wires(3 * n, dv));
        lemma_block_of_wires(3 * n, dv, 4 * n);
        lemma_small_mod(0, p as nat);
        assert forall|k: int| 0 <= k < 4 * n implies #[trigger] layout::coeff(l, k) == tz_coeff(
            x,
            n as int,
            k,
        ) % p by {
            assert(layout::coeff(block_of_wires(3 * n, dv), k) == product::coeff(dv, k - 3 * n));
            if k >= 3 * n {
                assert(dv[k - 3 * n] == data@[k - 3 * n].val());
            }
        }
    }
    Polynomial::from_blocks(blocks)
}

} // verus!
