//! Sparse polynomials.
//!
//! A [`Polynomial`] stores blocks of adjacent coefficients, in order and without
//! overlap. The coefficients between blocks are zero, so that memory and the cost
//! of a commitment grow with what is stored and not with the degree.
pub mod commit;
pub mod iter;
pub mod wires;
mod merge;
mod runs;

use crate::domain::Ring;
use crate::field::{DeferredField, Field, PrimeField};
use crate::layout;
use crate::modular;
use crate::poly;
use crate::rank::Rank;
use crate::sparse::iter::CoeffIter;
use crate::sparse::merge::Merge;
use crate::sparse::runs::{copy_block, extend_runs};
use crate::sums;
use rand::rngs::StdRng;
use vstd::arithmetic::div_mod::*;
use vstd::arithmetic::mul::*;
use vstd::arithmetic::power::*;
use vstd::prelude::*;

verus! {

/// A sparse polynomial of the size that its rank sets.
///
/// Its view is the sequence of all its coefficients.
#[derive(Debug)]
pub struct Polynomial<T, R: Rank> {
    blocks: Vec<(usize, Vec<T>)>,
    rank: core::marker::PhantomData<R>,
}

impl<F: Field, R: Rank> View for Polynomial<F, R> {
    type V = Seq<int>;

    /// All `4n` coefficients, in ascending order of their degree.
    open spec fn view(&self) -> Seq<int> {
        layout::dense(self.layout(), 4 * R::gates())
    }
}

impl<F: Field, R: Rank> Polynomial<F, R> {
    /// The stored blocks.
    pub closed spec fn layout(&self) -> Seq<layout::Block> {
        runs::lay(self.blocks@)
    }

    /// The blocks are in order, none is empty, no two overlap, and all fit.
    pub open spec fn wf(&self) -> bool {
        layout::wf(self.layout(), 4 * R::gates() as int)
    }

    /// The coefficient at `k` is a representative.
    pub proof fn lemma_range(&self, k: int)
        ensures
            0 <= layout::coeff(self.layout(), k) < F::modulus(),
    {
        runs::lemma_lay_range(self.blocks@, k);
    }
}

impl<F: Field, R: Rank> Default for Polynomial<F, R> {
    fn default() -> (r: Self)
        ensures
            r.wf(),
            r.layout() == Seq::<layout::Block>::empty(),
            forall|k: int| 0 <= k < 4 * R::gates() ==> #[trigger] r@[k] == 0,
    {
        Polynomial::new()
    }
}

impl<F: Field, R: Rank> Clone for Polynomial<F, R> {
    fn clone(&self) -> (r: Self)
        ensures
            r.layout() == self.layout(),
    {
        let mut blocks: Vec<(usize, Vec<F>)> = Vec::with_capacity(self.blocks.len());
        let mut i: usize = 0;
        while i < self.blocks.len()
            invariant
                i <= self.blocks.len(),
                runs::lay(blocks@) == runs::lay(self.blocks@).take(i as int),
            decreases self.blocks.len() - i,
        {
            let ghost before = blocks@;
            let block = copy_block(&self.blocks[i]);
            blocks.push(block);
            proof {
                assert(runs::lay(blocks@) =~= runs::lay(before).push(runs::lay(self.blocks@)[i as int]));
                assert(runs::lay(self.blocks@).take(i + 1) =~= runs::lay(self.blocks@).take(i as int).push(
                    runs::lay(self.blocks@)[i as int],
                ));
            }
            i = i + 1;
        }
        proof {
            assert(runs::lay(self.blocks@).take(i as int) =~= runs::lay(self.blocks@));
        }
        Polynomial { blocks, rank: core::marker::PhantomData }
    }
}

impl<F: Field, R: Rank> Polynomial<F, R> {
    /// Whether the blocks are in order, none is empty, no two overlap, and all fit.
    pub fn assert_invariants(&self) -> (ok: bool)
        ensures
            ok <==> self.wf(),
    {
        let n: usize = R::num_coeffs();
        let ghost l = self.layout();
        let mut prev_end: usize = 0;
        let mut i: usize = 0;
        while i < self.blocks.len()
            invariant
                n == 4 * R::gates(),
                l == runs::lay(self.blocks@),
                i <= self.blocks.len(),
                layout::wf(l.take(i as int), n as int),
                i == 0 ==> prev_end == 0,
                i > 0 ==> prev_end == layout::end(l[i - 1]),
            decreases self.blocks.len() - i,
        {
            let start: usize = self.blocks[i].0;
            let len: usize = self.blocks[i].1.len();
            let ghost b = l[i as int];
            assert(b == (
                self.blocks@[i as int].0 as int,
                crate::field::vals(self.blocks@[i as int].1@),
            ));
            if len == 0 || len > n || start > n - len {
                return false;
            }
            if i > 0 && start < prev_end {
                assert(layout::end(l[i - 1]) > l[i as int].0);
                return false;
            }
            proof {
                let t = l.take(i as int);
                let u = l.take(i + 1);
                assert forall|x: int, y: int| 0 <= x < y < u.len() implies layout::end(
                    #[trigger] u[x],
                ) <= (#[trigger] u[y]).0 by {
                    if y < i {
                        assert(u[x] == t[x] && u[y] == t[y]);
                    } else if x < i - 1 {
                        assert(layout::end(t[x]) <= t[i - 1].0);
                    }
                }
                assert forall|x: int| 0 <= x < u.len() implies 0 <= (#[trigger] u[x]).0
                    && u[x].1.len() > 0 && layout::end(u[x]) <= n by {
                    if x < i {
                        assert(u[x] == t[x]);
                    }
                }
            }
            prev_end = start + len;
            i = i + 1;
        }
        assert(l.take(i as int) =~= l);
        true
    }

    /// A polynomial of the given blocks, which have to be in order, not empty, apart,
    /// and inside the rank's size.
    fn from_blocks(blocks: Vec<(usize, Vec<F>)>) -> (r: Self)
        requires
            layout::wf(runs::lay(blocks@), 4 * R::gates() as int),
        ensures
            r.wf(),
            r.layout() == runs::lay(blocks@),
    {
        Polynomial { blocks, rank: core::marker::PhantomData }
    }

    /// The zero polynomial, which stores nothing.
    pub fn new() -> (r: Self)
        ensures
            r.wf(),
            r.layout() == Seq::<layout::Block>::empty(),
            forall|k: int| 0 <= k < 4 * R::gates() ==> #[trigger] r@[k] == 0,
    {
        let blocks: Vec<(usize, Vec<F>)> = Vec::new();
        proof {
            R::lemma_gates();
            assert(runs::lay(blocks@) =~= Seq::<layout::Block>::empty());
        }
        Self::from_blocks(blocks)
    }

    /// The polynomial with the coefficients `coeffs`, in ascending order of degree, and
    /// zeros behind them. Zeros at the ends are not stored, nor are gaps of more than
    /// `GAP_TOLERANCE` zeros.
    pub fn from_coeffs(coeffs: Vec<F>) -> (r: Self)
        requires
            coeffs.len() <= 4 * R::gates(),
        ensures
            r.wf(),
            layout::compressed(r.layout(), 0, crate::field::vals(coeffs@)),
            forall|k: int|
                0 <= k < 4 * R::gates() ==> #[trigger] r@[k] == if k < coeffs.len() {
                    coeffs@[k].val()
                } else {
                    0
                },
    {
        let ghost c = crate::field::vals(coeffs@);
        proof {
            R::lemma_gates();
        }
        let mut blocks: Vec<(usize, Vec<F>)> = Vec::new();
        extend_runs(&mut blocks, 0, &coeffs);
        proof {
            assert(blocks@.skip(0) =~= blocks@);
            let l = runs::lay(blocks@);
            layout::lemma_compressed_wf(l, 0, c);
            assert forall|k: int| 0 <= k < 4 * R::gates() implies #[trigger] layout::coeff(l, k)
                == if k < coeffs.len() {
                coeffs@[k].val()
            } else {
                0
            } by {
                layout::lemma_compressed_coeff(l, 0, c, k);
            }
        }
        Self::from_blocks(blocks)
    }

    /// The polynomial that stores all of its coefficients, zeros among them, in one
    /// block.
    pub fn filled(coeffs: Vec<F>) -> (r: Self)
        requires
            coeffs.len() == 4 * R::gates(),
        ensures
            r.wf(),
            r.layout() == seq![(0int, crate::field::vals(coeffs@))],
            r@ == crate::field::vals(coeffs@),
    {
        let ghost c = crate::field::vals(coeffs@);
        proof {
            R::lemma_gates();
        }
        let mut blocks: Vec<(usize, Vec<F>)> = Vec::new();
        blocks.push((0, coeffs));
        proof {
            let l = runs::lay(blocks@);
            assert(l =~= seq![(0int, c)]);
            assert forall|k: int| 0 <= k < c.len() implies layout::coeff(l, k) == #[trigger] c[k] by {
                assert(layout::holds(l, 0, k));
                layout::lemma_coeff_in(l, c.len() as int, 0, k);
            }
            assert(layout::dense(l, 4 * R::gates()) =~= c);
        }
        Self::from_blocks(blocks)
    }

    /// A polynomial whose coefficients, all of which it stores, are drawn from `rng`.
    pub fn random(rng: &mut StdRng) -> (r: Self)
        ensures
            r.wf(),
            r.layout() == seq![(0int, r@)],
            exists|c: Seq<F>| #[trigger]
                crate::field::drawn(*old(rng), c, *final(rng)) && r@ == crate::field::vals(c),
    {
        let n: usize = R::num_coeffs();
        let mut coeffs: Vec<F> = Vec::with_capacity(n);
        let ghost mut states = seq![*rng];
        while coeffs.len() < n
            invariant
                coeffs.len() <= n,
                crate::field::drawn_through(states, coeffs@),
                states.first() == *old(rng),
                states.last() == *rng,
            decreases n - coeffs.len(),
        {
            let c = F::random(rng);
            coeffs.push(c);
            proof {
                states = states.push(*rng);
            }
        }
        proof {
            assert(crate::field::drawn(*old(rng), coeffs@, *rng));
        }
        let ghost drawn = coeffs@;
        let r = Self::filled(coeffs);
        proof {
            assert(r@ =~= crate::field::vals(drawn));
        }
        r
    }

    /// Applies `op` to every stored coefficient.
    fn apply_all(&mut self, op: impl Fn(F) -> F, Ghost(f): Ghost<spec_fn(int) -> int>)
        requires
            old(self).wf(),
            forall|x: F| call_requires(op, (x,)),
            forall|x: F, y: F| call_ensures(op, (x,), y) ==> y.val() == f(x.val()),
        ensures
            final(self).layout() == layout::mapped(old(self).layout(), |k: int, v: int| f(v)),
    {
        let ghost m = layout::mapped(self.layout(), |k: int, v: int| f(v));
        let mut out: Vec<(usize, Vec<F>)> = Vec::with_capacity(self.blocks.len());
        let mut i: usize = 0;
        while i < self.blocks.len()
            invariant
                m == layout::mapped(runs::lay(self.blocks@), |k: int, v: int| f(v)),
                i <= self.blocks.len(),
                runs::lay(out@) == m.take(i as int),
                forall|x: F| call_requires(op, (x,)),
                forall|x: F, y: F| call_ensures(op, (x,), y) ==> y.val() == f(x.val()),
            decreases self.blocks.len() - i,
        {
            let data = &self.blocks[i].1;
            let mut mapped: Vec<F> = Vec::with_capacity(data.len());
            while mapped.len() < data.len()
                invariant
                    mapped.len() <= data.len(),
                    forall|x: F| call_requires(op, (x,)),
                    forall|x: F, y: F| call_ensures(op, (x,), y) ==> y.val() == f(x.val()),
                    forall|j: int|
                        0 <= j < mapped.len() ==> (#[trigger] mapped@[j]).val() == f(data@[j].val()),
                decreases data.len() - mapped.len(),
            {
                mapped.push(op(data[mapped.len()]));
            }
            let ghost before = out@;
            out.push((self.blocks[i].0, mapped));
            proof {
                assert(crate::field::vals(mapped@) =~= m[i as int].1);
                assert(runs::lay(out@) =~= runs::lay(before).push(m[i as int]));
                assert(m.take(i + 1) =~= m.take(i as int).push(m[i as int]));
            }
            i = i + 1;
        }
        assert(m.take(i as int) =~= m);
        self.blocks = out;
    }

    /// Multiplies every coefficient by `by`. Multiplied by zero, the polynomial stores
    /// nothing.
    pub fn scale(&mut self, by: F)
        requires
            old(self).wf(),
        ensures
            final(self).wf(),
            final(self).layout() == if by.val() == 0 {
                Seq::<layout::Block>::empty()
            } else {
                layout::mapped(
                    old(self).layout(),
                    |k: int, v: int| (v * by.val()) % F::modulus(),
                )
            },
            forall|k: int|
                0 <= k < 4 * R::gates() ==> #[trigger] final(self)@[k] == (old(self)@[k]
                    * by.val()) % F::modulus(),
    {
        let ghost l = self.layout();
        let ghost f = |v: int| (v * by.val()) % F::modulus();
        proof {
            F::lemma_modulus();
            lemma_small_mod(0, F::modulus() as nat);
        }
        if by.is_zero() {
            self.blocks = Vec::new();
            proof {
                assert(self.layout() =~= Seq::<layout::Block>::empty());
                assert forall|k: int| 0 <= k < 4 * R::gates() implies #[trigger] self@[k] == (
                layout::coeff(l, k) * by.val()) % F::modulus() by {
                    assert(layout::coeff(l, k) * 0 == 0);
                }
            }
        } else {
            let op = |x: F| -> (y: F)
                ensures
                    y.val() == f(x.val()),
            {
                x.mul(&by)
            };
            self.apply_all(op, Ghost(f));
            proof {
                let g = |k: int, v: int| (v * by.val()) % F::modulus();
                assert(0 * by.val() == 0);
                assert(self.layout() =~= layout::mapped(l, g)) by {
                    assert forall|i: int| 0 <= i < l.len() implies #[trigger] self.layout()[i]
                        == layout::mapped(l, g)[i] by {
                        assert(self.layout()[i].1 =~= layout::mapped(l, g)[i].1);
                    }
                }
                layout::lemma_mapped(l, 4 * R::gates() as int, g);
            }
        }
    }

    /// Negates every coefficient.
    pub fn negate(&mut self)
        requires
            old(self).wf(),
        ensures
            final(self).wf(),
            final(self).layout() == layout::mapped(
                old(self).layout(),
                |k: int, v: int| (-v) % F::modulus(),
            ),
            forall|k: int|
                0 <= k < 4 * R::gates() ==> #[trigger] final(self)@[k] == (-old(self)@[k])
                    % F::modulus(),
    {
        let ghost l = self.layout();
        let ghost f = |v: int| (-v) % F::modulus();
        let op = |x: F| -> (y: F)
            ensures
                y.val() == f(x.val()),
        {
            x.neg()
        };
        self.apply_all(op, Ghost(f));
        proof {
            F::lemma_modulus();
            lemma_small_mod(0, F::modulus() as nat);
            let g = |k: int, v: int| (-v) % F::modulus();
            assert(self.layout() =~= layout::mapped(l, g)) by {
                assert forall|i: int| 0 <= i < l.len() implies #[trigger] self.layout()[i]
                    == layout::mapped(l, g)[i] by {
                    assert(self.layout()[i].1 =~= layout::mapped(l, g)[i].1);
                }
            }
            layout::lemma_mapped(l, 4 * R::gates() as int, g);
        }
    }

    /// Adds the coefficients of `other`. Clusters of blocks that overlap or touch
    /// are compressed together; no block of the result is all zero, and none holds an index that
    /// neither polynomial stores.
    pub fn add_assign(&mut self, other: &Self)
        requires
            old(self).wf(),
            other.wf(),
        ensures
            final(self).wf(),
            forall|k: int|
                0 <= k < 4 * R::gates() ==> #[trigger] final(self)@[k] == (old(self)@[k]
                    + other@[k]) % F::modulus(),
            layout::pruned(
                final(self).layout(),
                old(self).layout(),
                other.layout(),
                4 * R::gates() as int,
            ),
            layout::merge_of(
                final(self).layout(),
                old(self).layout(),
                other.layout(),
                4 * R::gates() as int,
            ),
    {
        self.combine_assign(other, Merge::Add);
    }

    /// Subtracts the coefficients of `other`. Clusters of blocks that overlap or
    /// touch are compressed together; no block of the result is all zero, and none holds an index
    /// that neither polynomial stores.
    pub fn sub_assign(&mut self, other: &Self)
        requires
            old(self).wf(),
            other.wf(),
        ensures
            final(self).wf(),
            forall|k: int|
                0 <= k < 4 * R::gates() ==> #[trigger] final(self)@[k] == (old(self)@[k]
                    - other@[k]) % F::modulus(),
            layout::pruned(
                final(self).layout(),
                old(self).layout(),
                other.layout(),
                4 * R::gates() as int,
            ),
            layout::merge_of(
                final(self).layout(),
                old(self).layout(),
                other.layout(),
                4 * R::gates() as int,
            ),
    {
        self.combine_assign(other, Merge::Sub);
    }

    /// The coefficients from the lowest degree to the highest, zeros of gaps included.
    pub fn iter_coeffs<'a>(&'a self) -> (r: CoeffIter<'a, F>)
        requires
            self.wf(),
        ensures
            r.wf(),
            r.remaining() == self@,
    {
        CoeffIter::new(&self.blocks, R::num_coeffs())
    }

    /// All coefficients, in ascending order of degree.
    pub fn to_dense(&self) -> (r: Vec<F>)
        requires
            self.wf(),
        ensures
            crate::field::vals(r@) == self@,
    {
        let mut r: Vec<F> = Vec::new();
        let mut iter = self.iter_coeffs();
        loop
            invariant
                iter.wf(),
                crate::field::vals(r@) + iter.remaining() == self@,
            ensures
                crate::field::vals(r@) == self@,
            decreases iter.remaining().len(),
        {
            let ghost left = iter.remaining();
            let ghost before = crate::field::vals(r@);
            match iter.next() {
                Some(v) => {
                    r.push(v);
                    proof {
                        assert(crate::field::vals(r@) =~= before.push(v.val()));
                        assert(before.push(left[0]) + left.skip(1) =~= before + left);
                    }
                },
                None => {
                    proof {
                        assert(before + left =~= before);
                    }
                    break;
                },
            }
        }
        r
    }

    /// The polynomials weighted by descending powers of `scale_factor`: the first one by
    /// the highest power, the last one by one. No block of the result is all zero, and none
    /// holds an index that no polynomial stores.
    pub fn fold(polys: &[&Self], scale_factor: F) -> (r: Self)
        requires
            forall|i: int| 0 <= i < polys.len() ==> (#[trigger] polys@[i]).wf(),
        ensures
            r.wf(),
            forall|k: int|
                0 <= k < 4 * R::gates() ==> #[trigger] r@[k] == poly::eval(
                    column(polys@, k).reverse(),
                    scale_factor.val(),
                ) % F::modulus(),
            forall|i: int|
                0 <= i < r.layout().len() ==> layout::nonzero((#[trigger] r.layout()[i]).1),
            forall|k: int| #[trigger] layout::held(r.layout(), k) ==> stored_by_any(polys@, k),
            folded_into(r.layout(), polys@, scale_factor.val()),
    {
        let ghost p = F::modulus();
        let ghost a = scale_factor.val();
        let mut acc = Self::new();
        let mut i: usize = 0;
        let ghost mut trace = seq![acc.layout()];
        proof {
            assert forall|k: int| !#[trigger] layout::held(acc.layout(), k) by {
                if layout::held(acc.layout(), k) {
                    let t = layout::block_of(acc.layout(), k);
                    assert(layout::holds(acc.layout(), t, k));
                }
            }
            F::lemma_modulus();
            lemma_small_mod(0, p as nat);
            assert forall|k: int| 0 <= k < 4 * R::gates() implies #[trigger] acc@[k] == poly::eval(
                column(polys@.take(0), k).reverse(),
                a,
            ) % p by {
                assert(column(polys@.take(0), k).reverse() =~= Seq::<int>::empty());
            }
        }
        while i < polys.len()
            invariant
                i <= polys.len(),
                p == F::modulus(),
                p > 2,
                a == scale_factor.val(),
                forall|i: int| 0 <= i < polys.len() ==> (#[trigger] polys@[i]).wf(),
                acc.wf(),
                forall|k: int|
                    0 <= k < 4 * R::gates() ==> #[trigger] acc@[k] == poly::eval(
                        column(polys@.take(i as int), k).reverse(),
                        a,
                    ) % p,
                forall|t: int|
                    0 <= t < acc.layout().len() ==> layout::nonzero((#[trigger] acc.layout()[t]).1),
                forall|k: int| #[trigger]
                    layout::held(acc.layout(), k) ==> stored_by_any(polys@.take(i as int), k),
                trace.len() == i + 1,
                trace[0] == Seq::<layout::Block>::empty(),
                trace[i as int] == acc.layout(),
                forall|t: int|
                    0 <= t < i ==> sum_of::<F, R>(
                        #[trigger] trace[t + 1],
                        scaled_layout::<F>(trace[t], a),
                        polys@[t].layout(),
                    ),
            decreases polys.len() - i,
        {
            let ghost start = acc@;
            let ghost before = acc.layout();
            acc.scale(scale_factor);
            let ghost scaled = acc@;
            let ghost middle = acc.layout();
            acc.add_assign(polys[i]);
            proof {
                let size = 4 * R::gates() as int;
                let now = acc.layout();
                let earlier = trace;
                trace = trace.push(now);
                assert(sum_of::<F, R>(now, middle, polys@[i as int].layout())) by {
                    assert forall|k: int| 0 <= k < size implies #[trigger] layout::coeff(now, k)
                        == (layout::coeff(middle, k) + layout::coeff(
                        polys@[i as int].layout(),
                        k,
                    )) % F::modulus() by {
                        assert(acc@[k] == (scaled[k] + polys@[i as int]@[k]) % F::modulus());
                    }
                }
                assert(middle =~= scaled_layout::<F>(earlier[i as int], a));
                assert forall|t: int| 0 <= t < i + 1 implies sum_of::<F, R>(
                    #[trigger] trace[t + 1],
                    scaled_layout::<F>(trace[t], a),
                    polys@[t].layout(),
                ) by {
                    if t < i {
                        assert(trace[t + 1] == earlier[t + 1] && trace[t] == earlier[t]);
                    }
                }
                assert forall|t: int| 0 <= t < now.len() implies layout::nonzero(
                    (#[trigger] now[t]).1,
                ) by {
                    assert(layout::merged_block(now[t], middle, polys@[i as int].layout(), size));
                }
                assert forall|k: int| #[trigger] layout::held(now, k) implies stored_by_any(
                    polys@.take(i + 1),
                    k,
                ) by {
                    layout::lemma_pruned_held(now, middle, polys@[i as int].layout(), size, k);
                    let next = polys@.take(i + 1);
                    if layout::held(polys@[i as int].layout(), k) {
                        assert(layout::held(next[i as int].layout(), k));
                    } else {
                        if a == 0 {
                            let t = layout::block_of(middle, k);
                            assert(layout::holds(middle, t, k));
                        } else {
                            let f = |k: int, v: int| (v * scale_factor.val()) % F::modulus();
                            layout::lemma_mapped_held(before, f, k);
                        }
                        assert(stored_by_any(polys@.take(i as int), k));
                        let t = choose|t: int|
                            0 <= t < i && #[trigger] layout::held(
                                polys@.take(i as int)[t].layout(),
                                k,
                            );
                        assert(layout::held(next[t].layout(), k));
                    }
                }
                assert forall|k: int| 0 <= k < 4 * R::gates() implies #[trigger] acc@[k]
                    == poly::eval(column(polys@.take(i + 1), k).reverse(), a) % p by {
                    let c = column(polys@.take(i as int), k).reverse();
                    let d = column(polys@.take(i + 1), k).reverse();
                    let e = poly::eval(c, a);
                    let x = polys@[i as int]@[k];
                    assert(d.skip(1) =~= c);
                    assert(d[0] == x);
                    poly::lemma_horner(d, a);
                    assert(start[k] == e % p);
                    modular::lemma_rem(e, p);
                    modular::lemma_mul_rem(start[k], e, a, a, p);
                    assert(scaled[k] == (start[k] * a) % p);
                    modular::lemma_add_rem(scaled[k], e * a, x, x, p);
                    lemma_mul_is_commutative(e, a);
                    modular::lemma_rem(scaled[k] + x, p);
                    modular::lemma_is_rem(acc@[k], poly::eval(d, a), p);
                }
            }
            i = i + 1;
        }
        assert(polys@.take(i as int) =~= polys@);
        assert(fold_trace(trace, polys@, a));
        acc
    }
}

/// The blocks of a polynomial that was multiplied by `by`.
pub open spec fn scaled_layout<F: Field>(l: Seq<layout::Block>, by: int) -> Seq<layout::Block> {
    if by == 0 {
        Seq::empty()
    } else {
        layout::mapped(l, |k: int, v: int| (v * by) % F::modulus())
    }
}

/// The blocks `l` are those of the sum of two polynomials with the blocks `a` and `b`.
pub open spec fn sum_of<F: Field, R: Rank>(
    l: Seq<layout::Block>,
    a: Seq<layout::Block>,
    b: Seq<layout::Block>,
) -> bool {
    &&& layout::wf(l, 4 * R::gates() as int)
    &&& forall|k: int|
        0 <= k < 4 * R::gates() ==> #[trigger] layout::coeff(l, k) == (layout::coeff(a, k)
            + layout::coeff(b, k)) % F::modulus()
    &&& layout::pruned(l, a, b, 4 * R::gates() as int)
    &&& layout::merge_of(l, a, b, 4 * R::gates() as int)
}

/// The blocks of the partial folds of the polynomials, from none of them to all.
pub open spec fn fold_trace<F: Field, R: Rank>(
    trace: Seq<Seq<layout::Block>>,
    polys: Seq<&Polynomial<F, R>>,
    by: int,
) -> bool {
    &&& trace.len() == polys.len() + 1
    &&& trace[0] == Seq::<layout::Block>::empty()
    &&& forall|t: int|
        0 <= t < polys.len() ==> sum_of::<F, R>(
            #[trigger] trace[t + 1],
            scaled_layout::<F>(trace[t], by),
            polys[t].layout(),
        )
}

/// The blocks `l` are those of the fold: one polynomial after the other is added to what is
/// there, multiplied by `by`.
pub open spec fn folded_into<F: Field, R: Rank>(
    l: Seq<layout::Block>,
    polys: Seq<&Polynomial<F, R>>,
    by: int,
) -> bool {
    exists|trace: Seq<Seq<layout::Block>>| #[trigger]
        fold_trace(trace, polys, by) && trace.last() == l
}

/// Some of the polynomials stores the coefficient at `k`.
pub open spec fn stored_by_any<F: Field, R: Rank>(polys: Seq<&Polynomial<F, R>>, k: int) -> bool {
    exists|i: int| 0 <= i < polys.len() && #[trigger] layout::held(polys[i].layout(), k)
}

/// The coefficients of the polynomials at one index.
pub open spec fn column<F: Field, R: Rank>(polys: Seq<&Polynomial<F, R>>, k: int) -> Seq<int> {
    Seq::new(polys.len(), |i: int| polys[i]@[k])
}

impl<F: Field, R: Rank> Polynomial<F, R> {
    /// The value at `z`, by Horner's rule on the blocks from the last to the first.
    pub fn eval(&self, z: F) -> (r: F)
        requires
            self.wf(),
        ensures
            r.val() == poly::eval(self@, z.val()) % F::modulus(),
    {
        let n: usize = R::num_coeffs();
        let ghost l = self.layout();
        let ghost c = self@;
        let ghost p = F::modulus();
        let ghost x = z.val();
        let mut result = F::zero();
        let mut prev_start: usize = n;
        let mut i: usize = self.blocks.len();
        proof {
            R::lemma_gates();
            F::lemma_modulus();
            assert(c.skip(n as int) =~= Seq::<int>::empty());
        }
        while i > 0
            invariant
                n == 4 * R::gates(),
                n <= usize::MAX,
                p == F::modulus(),
                p > 2,
                l == runs::lay(self.blocks@),
                layout::wf(l, n as int),
                c == layout::dense(l, n as nat),
                x == z.val(),
                i <= self.blocks.len(),
                prev_start <= n,
                runs::parted(l, i as int, prev_start as int),
                modular::cong(result.val(), poly::eval(c.skip(prev_start as int), x), p),
            decreases i,
        {
            i = i - 1;
            let start: usize = self.blocks[i].0;
            let data = &self.blocks[i].1;
            assert(l[i as int] == (start as int, crate::field::vals(data@)));
            let end: usize = start + data.len();
            result = shift(result, z, prev_start - end);
            proof {
                let g = (prev_start - end) as nat;
                let t = c.skip(end as int);
                assert forall|k: int| 0 <= k < g implies #[trigger] t[k] == 0 by {
                    layout::lemma_coeff_out(l, end + k);
                }
                poly::lemma_eval_zeros(t, g, x);
                assert(t.skip(g as int) =~= c.skip(prev_start as int));
            }
            let mut j: usize = data.len();
            while j > 0
                invariant
                    n == 4 * R::gates(),
                    p == F::modulus(),
                    p > 2,
                    x == z.val(),
                    i < l.len(),
                    l[i as int] == (start as int, crate::field::vals(data@)),
                    layout::wf(l, n as int),
                    c == layout::dense(l, n as nat),
                    j <= data.len(),
                    modular::cong(result.val(), poly::eval(c.skip(start + j), x), p),
                decreases j,
            {
                j = j - 1;
                let ghost before = result.val();
                result = result.mul(&z);
                let ghost scaled = result.val();
                result = result.add(&data[j]);
                proof {
                    let k = start + j;
                    let t = c.skip(k);
                    assert(layout::holds(l, i as int, k));
                    layout::lemma_coeff_in(l, n as int, i as int, k);
                    assert(t.skip(1) =~= c.skip(k + 1));
                    poly::lemma_horner(t, x);
                    let e = poly::eval(c.skip(k + 1), x);
                    modular::lemma_mul_rem(before, e, x, x, p);
                    lemma_mul_is_commutative(e, x);
                    modular::lemma_add_rem(scaled, x * e, c[k], c[k], p);
                }
            }
            prev_start = start;
        }
        result = shift(result, z, prev_start);
        proof {
            assert forall|k: int| 0 <= k < prev_start implies #[trigger] c[k] == 0 by {
                layout::lemma_coeff_out(l, k);
            }
            poly::lemma_eval_zeros(c, prev_start as nat, x);
            result.lemma_range();
            modular::lemma_is_rem(result.val(), poly::eval(c, x), p);
        }
        result
    }

    /// Turns `p(X)` into `p(zX)`: the coefficient of degree `k` is multiplied by `z^k`.
    pub fn dilate(&mut self, z: F)
        requires
            old(self).wf(),
        ensures
            final(self).wf(),
            final(self).layout() == layout::mapped(
                old(self).layout(),
                |k: int, v: int| (v * pow(z.val(), k as nat)) % F::modulus(),
            ),
            forall|k: int|
                0 <= k < 4 * R::gates() ==> #[trigger] final(self)@[k] == (old(self)@[k] * pow(
                    z.val(),
                    k as nat,
                )) % F::modulus(),
    {
        let ghost l = self.layout();
        let ghost p = F::modulus();
        let ghost x = z.val();
        let ghost f = |k: int, v: int| (v * pow(x, k as nat)) % p;
        let ghost m = layout::mapped(l, f);
        let ghost n = 4 * R::gates() as int;
        let mut power = F::one();
        let mut prev_end: usize = 0;
        let mut out: Vec<(usize, Vec<F>)> = Vec::with_capacity(self.blocks.len());
        let mut i: usize = 0;
        proof {
            R::lemma_gates();
            F::lemma_modulus();
            lemma_pow0(x);
        }
        while i < self.blocks.len()
            invariant
                n <= usize::MAX,
                p == F::modulus(),
                p > 2,
                x == z.val(),
                l == runs::lay(self.blocks@),
                layout::wf(l, n),
                f == (|k: int, v: int| (v * pow(x, k as nat)) % p),
                m == layout::mapped(l, f),
                i <= self.blocks.len(),
                runs::parted(l, i as int, prev_end as int),
                modular::cong(power.val(), pow(x, prev_end as nat), p),
                runs::lay(out@) == m.take(i as int),
            decreases self.blocks.len() - i,
        {
            let start: usize = self.blocks[i].0;
            let data = &self.blocks[i].1;
            assert(l[i as int] == (start as int, crate::field::vals(data@)));
            power = shift(power, z, start - prev_end);
            proof {
                lemma_pow_adds(x, (start - prev_end) as nat, prev_end as nat);
            }
            let mut scaled: Vec<F> = Vec::with_capacity(data.len());
            let mut j: usize = 0;
            while j < data.len()
                invariant
                    p == F::modulus(),
                    p > 2,
                    x == z.val(),
                    j <= data.len(),
                    scaled.len() == j,
                    f == (|k: int, v: int| (v * pow(x, k as nat)) % p),
                    modular::cong(power.val(), pow(x, (start + j) as nat), p),
                    forall|t: int|
                        0 <= t < j ==> (#[trigger] scaled@[t]).val() == f(start + t, data@[t].val()),
                decreases data.len() - j,
            {
                let ghost before = power.val();
                scaled.push(data[j].mul(&power));
                power = power.mul(&z);
                proof {
                    let v = data@[j as int].val();
                    modular::lemma_mul(v, v, before, pow(x, (start + j) as nat), p);
                    modular::lemma_mul_rem(before, pow(x, (start + j) as nat), x, x, p);
                    reveal(pow);
                    lemma_mul_is_commutative(x, pow(x, (start + j) as nat));
                }
                j = j + 1;
            }
            let ghost before = out@;
            out.push((start, scaled));
            proof {
                assert(crate::field::vals(scaled@) =~= m[i as int].1);
                assert(runs::lay(out@) =~= runs::lay(before).push(m[i as int]));
                assert(m.take(i + 1) =~= m.take(i as int).push(m[i as int]));
                runs::lemma_parted(l, n, i as int, i + 1, prev_end as int, layout::end(l[i as int]));
            }
            prev_end = start + data.len();
            i = i + 1;
        }
        proof {
            assert(m.take(i as int) =~= m);
            assert forall|k: int| #[trigger] f(k, 0) == 0 by {
                assert(0 * pow(x, k as nat) == 0);
                lemma_small_mod(0, p as nat);
            }
            layout::lemma_mapped(l, n, f);
            assert(f =~= (|k: int, v: int| (v * pow(z.val(), k as nat)) % F::modulus()));
        }
        self.blocks = out;
    }

    /// The inner product with the reversal of `other`: the sum over `k` of the
    /// coefficient of degree `k` times that of degree `4n - 1 - k` of `other`. The
    /// blocks of both are walked together, and the products are reduced once, at the
    /// end.
    pub fn revdot(&self, other: &Self) -> (r: F) where F: DeferredField
        requires
            self.wf(),
            other.wf(),
        ensures
            r.val() == poly::revdot(self@, other@) % F::modulus(),
    {
        let n: usize = R::num_coeffs();
        let ghost a = self.layout();
        let ghost b = other.layout();
        let ghost (ac, bc) = (self@, other@);
        let ghost g = |k: int| ac[k] * bc[ac.len() - 1 - k];
        let ghost mut f: int = 0;
        let mut acc = F::accumulator();
        let mut ai: usize = 0;
        let mut bi: usize = other.blocks.len();
        proof {
            R::lemma_gates();
            F::lemma_modulus();
        }
        while ai < self.blocks.len() && bi > 0
            invariant
                n == 4 * R::gates(),
                n <= usize::MAX,
                a == runs::lay(self.blocks@),
                b == runs::lay(other.blocks@),
                ac == layout::dense(a, n as nat),
                bc == layout::dense(b, n as nat),
                g == (|k: int| ac[k] * bc[ac.len() - 1 - k]),
                layout::wf(a, n as int),
                layout::wf(b, n as int),
                ai <= a.len(),
                bi <= b.len(),
                0 <= f <= n,
                F::modulus() > 2,
                F::overflows(&acc) <= f,
                modular::cong(F::total(&acc), sums::sigma(f as nat, g), F::modulus()),
                forall|t: int| 0 <= t < ai ==> layout::end(#[trigger] a[t]) <= f,
                forall|t: int| bi <= t < b.len() ==> n - f <= (#[trigger] b[t]).0,
                ai < a.len() ==> f <= layout::end(a[ai as int]),
                bi > 0 ==> f <= n - b[bi - 1].0,
                ai < a.len() && bi > 0 ==> f <= a[ai as int].0 || f <= n - layout::end(b[bi - 1]),
            decreases (a.len() - ai) + bi,
        {
            let a_start: usize = self.blocks[ai].0;
            let a_data = &self.blocks[ai].1;
            let b_start: usize = other.blocks[bi - 1].0;
            let b_data = &other.blocks[bi - 1].1;
            assert(a[ai as int] == (a_start as int, crate::field::vals(a_data@)));
            assert(b[bi - 1] == (b_start as int, crate::field::vals(b_data@)));
            let a_end: usize = a_start + a_data.len();
            let rev_lo: usize = n - b_start - b_data.len();
            let rev_hi: usize = n - b_start;
            let lo: usize = if a_start > rev_lo {
                a_start
            } else {
                rev_lo
            };
            let hi: usize = if a_end < rev_hi {
                a_end
            } else {
                rev_hi
            };
            proof {
                assert forall|k: int| f <= k < lo && k < hi implies #[trigger] g(k) == 0 by {
                    if k < a_start {
                        assert forall|t: int| !layout::holds(a, t, k) by {
                            if ai < t < a.len() {
                                assert(layout::end(a[ai as int]) <= a[t].0);
                            }
                        }
                        layout::lemma_coeff_out(a, k);
                        assert(0 * bc[n - 1 - k] == 0);
                    } else {
                        let rk = n - 1 - k;
                        assert forall|t: int| !layout::holds(b, t, rk) by {
                            if 0 <= t < bi - 1 {
                                assert(layout::end(b[t]) <= b[bi - 1].0);
                            }
                        }
                        layout::lemma_coeff_out(b, rk);
                        assert(ac[k] * 0 == 0);
                    }
                }
            }
            if lo < hi {
                let mut k: usize = lo;
                proof {
                    sums::lemma_zero_tail(f as nat, lo as nat, g);
                }
                while k < hi
                    invariant
                        n == 4 * R::gates(),
                        n <= usize::MAX,
                        lo <= k <= hi <= n,
                        a_start <= lo,
                        hi <= a_start + a_data.len(),
                        n - b_start - b_data.len() <= lo,
                        hi <= n - b_start,
                        ai < a.len(),
                        0 < bi <= b.len(),
                        a[ai as int] == (a_start as int, crate::field::vals(a_data@)),
                        b[bi - 1] == (b_start as int, crate::field::vals(b_data@)),
                        layout::wf(a, n as int),
                        layout::wf(b, n as int),
                        ac == layout::dense(a, n as nat),
                        bc == layout::dense(b, n as nat),
                        g == (|k: int| ac[k] * bc[ac.len() - 1 - k]),
                        F::modulus() > 2,
                        F::overflows(&acc) <= k,
                        modular::cong(F::total(&acc), sums::sigma(k as nat, g), F::modulus()),
                    decreases hi - k,
                {
                    let ghost before = F::total(&acc);
                    F::mul_accumulate(&mut acc, &a_data[k - a_start], &b_data[n - 1 - k - b_start]);
                    proof {
                        assert(layout::holds(a, ai as int, k as int));
                        layout::lemma_coeff_in(a, n as int, ai as int, k as int);
                        assert(layout::holds(b, bi - 1, n - 1 - k));
                        layout::lemma_coeff_in(b, n as int, bi - 1, n - 1 - k);
                        modular::lemma_add_rem(
                            before,
                            sums::sigma(k as nat, g),
                            g(k as int),
                            g(k as int),
                            F::modulus(),
                        );
                    }
                    k = k + 1;
                }
            } else {
                proof {
                    sums::lemma_zero_tail(f as nat, hi as nat, g);
                }
            }
            proof {
                f = hi as int;
                assert forall|t: int| ai < t < a.len() implies a_end <= (#[trigger] a[t]).0 by {
                    assert(layout::end(a[ai as int]) <= a[t].0);
                }
                assert forall|t: int| 0 <= t < bi - 1 implies layout::end(#[trigger] b[t])
                    <= b_start by {
                    assert(layout::end(b[t]) <= b[bi - 1].0);
                }
                assert forall|t: int| 0 <= t < ai implies layout::end(#[trigger] a[t]) <= f by {
                    assert(layout::end(a[t]) <= a[ai as int].0);
                }
            }
            if a_end <= rev_hi {
                ai = ai + 1;
            }
            if rev_hi <= a_end {
                bi = bi - 1;
            }
        }
        proof {
            assert forall|k: int| f <= k < n implies #[trigger] g(k) == 0 by {
                if ai == a.len() {
                    layout::lemma_coeff_out(a, k);
                    assert(0 * bc[n - 1 - k] == 0);
                } else {
                    layout::lemma_coeff_out(b, n - 1 - k);
                    assert(ac[k] * 0 == 0);
                }
            }
            sums::lemma_zero_tail(f as nat, n as nat, g);
        }
        let r = F::reduce(acc);
        proof {
            r.lemma_range();
            modular::lemma_is_rem(r.val(), poly::revdot(ac, bc), F::modulus());
        }
        r
    }
}

/// Multiplies `v` by `z^gap`.
fn shift<F: Field>(v: F, z: F, gap: usize) -> (r: F)
    ensures
        forall|e: int|
            #[trigger] modular::cong(v.val(), e, F::modulus()) ==> modular::cong(
                r.val(),
                pow(z.val(), gap as nat) * e,
                F::modulus(),
            ),
{
    let ghost p = F::modulus();
    proof {
        F::lemma_modulus();
    }
    if gap > 0 {
        let power = z.pow_vartime(gap as u64);
        let r = v.mul(&power);
        proof {
            let q = pow(z.val(), gap as nat);
            assert forall|e: int| #[trigger] modular::cong(v.val(), e, p) implies modular::cong(
                r.val(),
                q * e,
                p,
            ) by {
                modular::lemma_rem(q, p);
                modular::lemma_mul_rem(v.val(), e, power.val(), q, p);
                lemma_mul_is_commutative(e, q);
            }
        }
        r
    } else {
        proof {
            lemma_pow0(z.val());
            assert forall|e: int| #[trigger] modular::cong(v.val(), e, p) implies modular::cong(
                v.val(),
                pow(z.val(), 0) * e,
                p,
            ) by {
                assert(1 * e == e);
            }
        }
        v
    }
}


impl<F: PrimeField, R: Rank> Ring for Polynomial<F, R> {
    type R = Self;

    type F = F;

    open spec fn valid(r: &Self) -> bool {
        r.wf()
    }

    open spec fn dims() -> nat {
        4 * R::gates()
    }

    open spec fn coord(r: &Self, k: int) -> int {
        layout::coeff(r.layout(), k)
    }

    proof fn lemma_coord(r: &Self, k: int) {
        r.lemma_range(k);
    }

    fn copy(r: &Self) -> (c: Self) {
        r.clone()
    }

    fn scale_assign(r: &mut Self, by: F) {
        r.scale(by);
        proof {
            assert forall|k: int| 0 <= k < 4 * R::gates() implies #[trigger] layout::coeff(
                r.layout(),
                k,
            ) == (layout::coeff(old(r).layout(), k) * by.val()) % F::modulus() by {
                assert(r@[k] == (old(r)@[k] * by.val()) % F::modulus());
            }
        }
    }

    fn add_assign(r: &mut Self, other: &Self) {
        r.combine_assign(other, Merge::Add);
        proof {
            assert forall|k: int| 0 <= k < 4 * R::gates() implies #[trigger] layout::coeff(
                r.layout(),
                k,
            ) == (layout::coeff(old(r).layout(), k) + layout::coeff(other.layout(), k))
                % F::modulus() by {
                assert(r@[k] == (old(r)@[k] + other@[k]) % F::modulus());
            }
        }
    }

    fn sub_assign(r: &mut Self, other: &Self) {
        r.combine_assign(other, Merge::Sub);
        proof {
            assert forall|k: int| 0 <= k < 4 * R::gates() implies #[trigger] layout::coeff(
                r.layout(),
                k,
            ) == (layout::coeff(old(r).layout(), k) - layout::coeff(other.layout(), k))
                % F::modulus() by {
                assert(r@[k] == (old(r)@[k] - other@[k]) % F::modulus());
            }
        }
    }
}


impl<'a, F: Field, R: Rank> core::ops::AddAssign<&'a Polynomial<F, R>> for Polynomial<F, R> {
    fn add_assign(&mut self, rhs: &'a Polynomial<F, R>)
        requires
            old(self).wf(),
            rhs.wf(),
        ensures
            final(self).wf(),
            forall|k: int|
                0 <= k < 4 * R::gates() ==> #[trigger] final(self)@[k] == (old(self)@[k]
                    + rhs@[k]) % F::modulus(),
            layout::pruned(
                final(self).layout(),
                old(self).layout(),
                rhs.layout(),
                4 * R::gates() as int,
            ),
            layout::merge_of(
                final(self).layout(),
                old(self).layout(),
                rhs.layout(),
                4 * R::gates() as int,
            ),
    {
        Polynomial::add_assign(self, rhs);
    }
}

impl<'a, F: Field, R: Rank> core::ops::SubAssign<&'a Polynomial<F, R>> for Polynomial<F, R> {
    fn sub_assign(&mut self, rhs: &'a Polynomial<F, R>)
        requires
            old(self).wf(),
            rhs.wf(),
        ensures
            final(self).wf(),
            forall|k: int|
                0 <= k < 4 * R::gates() ==> #[trigger] final(self)@[k] == (old(self)@[k]
                    - rhs@[k]) % F::modulus(),
            layout::pruned(
                final(self).layout(),
                old(self).layout(),
                rhs.layout(),
                4 * R::gates() as int,
            ),
            layout::merge_of(
                final(self).layout(),
                old(self).layout(),
                rhs.layout(),
                4 * R::gates() as int,
            ),
    {
        Polynomial::sub_assign(self, rhs);
    }
}

} // verus!
