//! Finite sums of integers.
use crate::modular;
use vstd::prelude::*;

verus! {

/// `f(0) + f(1) + ... + f(n - 1)`.
pub open spec fn sigma(n: nat, f: spec_fn(int) -> int) -> int
    decreases n,
{
    if n == 0 {
        0
    } else {
        sigma((n - 1) as nat, f) + f(n - 1)
    }
}

/// The sum of a sequence.
pub open spec fn sum(s: Seq<int>) -> int {
    sigma(s.len(), |i: int| s[i])
}

/// Sums of equal terms are equal.
pub proof fn lemma_ext(n: nat, f: spec_fn(int) -> int, g: spec_fn(int) -> int)
    requires
        forall|i: int| 0 <= i < n ==> #[trigger] f(i) == g(i),
    ensures
        sigma(n, f) == sigma(n, g),
    decreases n,
{
    if n > 0 {
        lemma_ext((n - 1) as nat, f, g);
        assert(f(n - 1) == g(n - 1));
    }
}

/// Sums of congruent terms are congruent.
pub proof fn lemma_cong(n: nat, f: spec_fn(int) -> int, g: spec_fn(int) -> int, m: int)
    requires
        m > 0,
        forall|i: int| 0 <= i < n ==> modular::cong(#[trigger] f(i), g(i), m),
    ensures
        modular::cong(sigma(n, f), sigma(n, g), m),
    decreases n,
{
    if n > 0 {
        lemma_cong((n - 1) as nat, f, g, m);
        assert(modular::cong(f(n - 1), g(n - 1), m));
        modular::lemma_add(
            sigma((n - 1) as nat, f),
            sigma((n - 1) as nat, g),
            f(n - 1),
            g(n - 1),
            m,
        );
    }
}

/// A sum of zeros is zero.
pub proof fn lemma_zero(n: nat, f: spec_fn(int) -> int)
    requires
        forall|i: int| 0 <= i < n ==> #[trigger] f(i) == 0,
    ensures
        sigma(n, f) == 0,
    decreases n,
{
    if n > 0 {
        lemma_zero((n - 1) as nat, f);
        assert(f(n - 1) == 0);
    }
}

/// Where only the term at `k` is not zero, the sum is that term.
pub proof fn lemma_single(n: nat, f: spec_fn(int) -> int, k: int)
    requires
        0 <= k < n,
        forall|i: int| 0 <= i < n && i != k ==> #[trigger] f(i) == 0,
    ensures
        sigma(n, f) == f(k),
    decreases n,
{
    if k == n - 1 {
        lemma_zero((n - 1) as nat, f);
    } else {
        lemma_single((n - 1) as nat, f, k);
        assert(f(n - 1) == 0);
    }
}

/// A sum of sums of two terms is the sum of the two sums.
pub proof fn lemma_plus(
    n: nat,
    f: spec_fn(int) -> int,
    g: spec_fn(int) -> int,
    h: spec_fn(int) -> int,
)
    requires
        forall|i: int| 0 <= i < n ==> #[trigger] h(i) == f(i) + g(i),
    ensures
        sigma(n, h) == sigma(n, f) + sigma(n, g),
    decreases n,
{
    if n > 0 {
        lemma_plus((n - 1) as nat, f, g, h);
        assert(h(n - 1) == f(n - 1) + g(n - 1));
    }
}

/// A common factor can be taken out of a sum.
pub proof fn lemma_scale(n: nat, k: int, f: spec_fn(int) -> int, g: spec_fn(int) -> int)
    requires
        forall|i: int| 0 <= i < n ==> #[trigger] g(i) == k * f(i),
    ensures
        sigma(n, g) == k * sigma(n, f),
    decreases n,
{
    if n > 0 {
        lemma_scale((n - 1) as nat, k, f, g);
        assert(g(n - 1) == k * f(n - 1));
        let (s, t) = (sigma((n - 1) as nat, f), f(n - 1));
        assert(k * (s + t) == k * s + k * t) by (nonlinear_arith);
    } else {
        assert(k * 0 == 0);
    }
}

/// A sum can be cut in two.
pub proof fn lemma_cut(n: nat, m: nat, f: spec_fn(int) -> int, g: spec_fn(int) -> int)
    requires
        forall|i: int| 0 <= i < m ==> #[trigger] g(i) == f(n + i),
    ensures
        sigma(n + m, f) == sigma(n, f) + sigma(m, g),
    decreases m,
{
    if m > 0 {
        lemma_cut(n, (m - 1) as nat, f, g);
        assert(g(m - 1) == f(n + m - 1));
    }
}

/// The first term can be taken out of a sum.
pub proof fn lemma_first(n: nat, f: spec_fn(int) -> int, g: spec_fn(int) -> int)
    requires
        n > 0,
        forall|i: int| 0 <= i < n - 1 ==> #[trigger] g(i) == f(i + 1),
    ensures
        sigma(n, f) == f(0) + sigma((n - 1) as nat, g),
{
    lemma_cut(1, (n - 1) as nat, f, g);
    assert(sigma(1, f) == sigma(0, f) + f(0));
}

/// A sum can be taken from the end.
pub proof fn lemma_reverse(n: nat, f: spec_fn(int) -> int, g: spec_fn(int) -> int)
    requires
        forall|i: int| 0 <= i < n ==> #[trigger] g(i) == f(n - 1 - i),
    ensures
        sigma(n, g) == sigma(n, f),
    decreases n,
{
    if n > 0 {
        let h = |i: int| g(i + 1);
        lemma_first(n, g, h);
        assert(g(0) == f(n - 1));
        assert forall|i: int| 0 <= i < n - 1 implies #[trigger] h(i) == f((n - 1) - 1 - i) by {
            assert(g(i + 1) == f(n - 1 - (i + 1)));
        }
        lemma_reverse((n - 1) as nat, f, h);
    }
}

/// A double sum can be taken in either order.
pub proof fn lemma_swap(n: nat, m: nat, f: spec_fn(int, int) -> int)
    ensures
        sigma(n, |i: int| sigma(m, |j: int| f(i, j))) == sigma(
            m,
            |j: int| sigma(n, |i: int| f(i, j)),
        ),
    decreases n,
{
    let rows = |i: int| sigma(m, |j: int| f(i, j));
    let cols = |j: int| sigma(n, |i: int| f(i, j));
    if n == 0 {
        lemma_zero(m, cols);
    } else {
        lemma_swap((n - 1) as nat, m, f);
        let less = |j: int| sigma((n - 1) as nat, |i: int| f(i, j));
        let row = |j: int| f(n - 1, j);
        assert forall|j: int| 0 <= j < m implies #[trigger] cols(j) == less(j) + row(j) by {
            let g = |i: int| f(i, j);
            assert(sigma(n, g) == sigma((n - 1) as nat, g) + g(n - 1));
        }
        lemma_plus(m, less, row, cols);
        assert(rows(n - 1) == sigma(m, row));
    }
}

/// Terms at the end that are zero can be left out.
pub proof fn lemma_zero_tail(n: nat, m: nat, f: spec_fn(int) -> int)
    requires
        n <= m,
        forall|i: int| n <= i < m ==> #[trigger] f(i) == 0,
    ensures
        sigma(m, f) == sigma(n, f),
    decreases m,
{
    if n < m {
        lemma_zero_tail(n, (m - 1) as nat, f);
        assert(f(m - 1) == 0);
    }
}


/// Where only the terms of a window are not zero, the sum is that of the window.
pub proof fn lemma_window(
    n: nat,
    start: nat,
    len: nat,
    f: spec_fn(int) -> int,
    g: spec_fn(int) -> int,
)
    requires
        start + len <= n,
        forall|i: int| 0 <= i < n && !(start <= i < start + len) ==> #[trigger] f(i) == 0,
        forall|i: int| 0 <= i < len ==> #[trigger] g(i) == f(start + i),
    ensures
        sigma(n, f) == sigma(len, g),
{
    lemma_zero_tail(start + len, n, f);
    lemma_cut(start, len, f, g);
    lemma_zero(start, f);
}


/// A sum of terms that are no larger is no larger.
pub proof fn lemma_le(n: nat, f: spec_fn(int) -> int, g: spec_fn(int) -> int)
    requires
        forall|i: int| 0 <= i < n ==> #[trigger] f(i) <= g(i),
    ensures
        sigma(n, f) <= sigma(n, g),
    decreases n,
{
    if n > 0 {
        lemma_le((n - 1) as nat, f, g);
        assert(f(n - 1) <= g(n - 1));
    }
}

} // verus!
