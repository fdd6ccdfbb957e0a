//! The combination of many quotients of polynomials by linear terms into one polynomial.
use crate::field::Field;
use crate::modular;
use crate::poly;
use crate::product;
use crate::rank::Rank;
use crate::sparse::iter::CoeffIter;
use crate::sparse::Polynomial;
use crate::sums;
use crate::util::{factor_iter, reversed, FactorIter};
use vstd::arithmetic::mul::*;
use vstd::arithmetic::power::*;
use vstd::prelude::*;

verus! {

/// A polynomial and the point at which its value is claimed.
pub struct Query<'a, F: Field, R: Rank> {
    pub poly: &'a Polynomial<F, R>,
    pub point: F,
}

/// The coefficients of a polynomial, and a point.
pub type QuerySpec = (Seq<int>, int);

impl<'a, F: Field, R: Rank> View for Query<'a, F, R> {
    type V = QuerySpec;

    /// The coefficients and the point.
    open spec fn view(&self) -> QuerySpec {
        (self.poly@, self.point.val())
    }
}

/// The coefficients and the points of a list of queries.
pub open spec fn views<'a, F: Field, R: Rank>(qs: Seq<Query<'a, F, R>>) -> Seq<QuerySpec> {
    Seq::new(qs.len(), |i: int| qs[i]@)
}

/// The coefficients at `k` of the quotients.
pub open spec fn quotient_column(qs: Seq<QuerySpec>, k: int) -> Seq<int> {
    Seq::new(qs.len(), |i: int| product::coeff(poly::quotient(qs[i].0, qs[i].1), k))
}

/// The coefficient at `k` of the sum of the quotients, weighted by descending powers of
/// `alpha`: the first one by the highest power, the last one by one.
pub open spec fn combined(qs: Seq<QuerySpec>, alpha: int, k: int) -> int {
    poly::eval(quotient_column(qs, k).reverse(), alpha)
}

/// The sum of the quotients of the polynomials by `X` minus their points, without the
/// remainders, weighted by descending powers of `alpha`. The quotients are computed
/// together, one degree at a time, and never held whole.
pub fn combine_quotients<'a, F: Field, R: Rank>(queries: &Vec<Query<'a, F, R>>, alpha: F) -> (r:
    Polynomial<F, R>)
    requires
        queries.len() > 0,
        forall|i: int| 0 <= i < queries.len() ==> (#[trigger] queries@[i]).poly.wf(),
    ensures
        r.wf(),
        forall|k: int|
            0 <= k < 4 * R::gates() ==> #[trigger] r@[k] == combined(
                views(queries@),
                alpha.val(),
                k,
            ) % F::modulus(),
{
    let ghost p = F::modulus();
    let ghost a = alpha.val();
    let ghost qs = views(queries@);
    let n: usize = R::num_coeffs();
    proof {
        R::lemma_gates();
        F::lemma_modulus();
    }
    let mut iters: Vec<FactorIter<F, CoeffIter<'a, F>>> = Vec::with_capacity(queries.len());
    while iters.len() < queries.len()
        invariant
            n == 4 * R::gates(),
            n > 0,
            qs == views(queries@),
            iters.len() <= queries.len(),
            forall|i: int| 0 <= i < queries.len() ==> (#[trigger] queries@[i]).poly.wf(),
            forall|i: int|
                0 <= i < iters.len() ==> {
                    &&& (#[trigger] iters@[i]).wf()
                    &&& iters@[i].quotient() == poly::quotient(qs[i].0, qs[i].1)
                    &&& iters@[i].remaining() == n - 1
                },
        decreases queries.len() - iters.len(),
    {
        let i: usize = iters.len();
        let query = &queries[i];
        let iter = factor_iter(query.poly.iter_coeffs(), query.point);
        iters.push(iter);
    }
    let mut down: Vec<F> = Vec::with_capacity(n);
    while down.len() < n - 1
        invariant
            n == 4 * R::gates(),
            n > 0,
            p == F::modulus(),
            p > 2,
            a == alpha.val(),
            qs == views(queries@),
            qs.len() > 0,
            iters.len() == qs.len(),
            down.len() <= n - 1,
            forall|i: int| 0 <= i < qs.len() ==> (#[trigger] qs[i]).0.len() == n,
            forall|i: int|
                0 <= i < iters.len() ==> {
                    &&& (#[trigger] iters@[i]).wf()
                    &&& iters@[i].quotient() == poly::quotient(qs[i].0, qs[i].1)
                    &&& iters@[i].remaining() == n - 1 - down.len()
                },
            forall|j: int|
                0 <= j < down.len() ==> (#[trigger] down@[j]).val() == combined(qs, a, n - 2 - j)
                    % p,
        decreases n - 1 - down.len(),
    {
        let ghost d = n - 2 - down.len();
        let ghost column = quotient_column(qs, d);
        let mut acc = F::zero();
        let mut i: usize = 0;
        proof {
            assert(column.take(0).reverse() =~= Seq::<int>::empty());
        }
        while i < iters.len()
            invariant
                n == 4 * R::gates(),
                n > 0,
                p == F::modulus(),
                p > 2,
                a == alpha.val(),
                qs == views(queries@),
                iters.len() == qs.len(),
                i <= iters.len(),
                down.len() < n - 1,
                d == n - 2 - down.len(),
                column == quotient_column(qs, d),
                forall|i: int| 0 <= i < qs.len() ==> (#[trigger] qs[i]).0.len() == n,
                forall|t: int|
                    0 <= t < iters.len() ==> {
                        &&& (#[trigger] iters@[t]).wf()
                        &&& iters@[t].quotient() == poly::quotient(qs[t].0, qs[t].1)
                        &&& iters@[t].remaining() == n - 1 - down.len() - if t < i {
                            1int
                        } else {
                            0
                        }
                    },
                modular::cong(acc.val(), poly::eval(column.take(i as int).reverse(), a), p),
            decreases iters.len() - i,
        {
            let ghost before = acc.val();
            let c = iters[i].next().unwrap();
            let scaled = alpha.mul(&acc);
            acc = scaled.add(&c);
            proof {
                let x = column[i as int];
                let t0 = column.take(i as int).reverse();
                let t1 = column.take(i + 1).reverse();
                let e = poly::eval(t0, a);
                assert(t1.skip(1) =~= t0);
                assert(t1[0] == x);
                poly::lemma_horner(t1, a);
                assert(qs[i as int].0.len() == n);
                assert(c.val() == x % p);
                modular::lemma_rem(x, p);
                modular::lemma_mul_rem(a, a, before, e, p);
                modular::lemma_add_rem(scaled.val(), a * e, c.val(), x, p);
            }
            i = i + 1;
        }
        proof {
            assert(column.take(i as int) =~= column);
            acc.lemma_range();
            modular::lemma_is_rem(acc.val(), combined(qs, a, d), p);
        }
        down.push(acc);
    }
    let coeffs = reversed(&down);
    proof {
        assert forall|k: int| 0 <= k < n - 1 implies (#[trigger] coeffs@[k]).val() == combined(
            qs,
            a,
            k,
        ) % p by {
            assert(coeffs@[k] == down@[n - 2 - k]);
        }
        let column = quotient_column(qs, n - 1);
        let zeros = column.reverse();
        let f = |i: int| zeros[i] * pow(a, i as nat);
        assert forall|i: int| 0 <= i < zeros.len() implies #[trigger] f(i) == 0 by {
            assert(qs[zeros.len() - 1 - i].0.len() == n);
            assert(0 * pow(a, i as nat) == 0);
        }
        sums::lemma_zero(zeros.len(), f);
        vstd::arithmetic::div_mod::lemma_small_mod(0, p as nat);
    }
    Polynomial::from_coeffs(coeffs)
}

} // verus!
