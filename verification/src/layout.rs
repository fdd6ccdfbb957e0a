//! Which coefficients of a sparse polynomial are stored, and in which blocks.
use crate::poly;
use crate::sums;
use vstd::prelude::*;

verus! {

/// How many zeros in a row a block may hold between two other coefficients.
pub const GAP_TOLERANCE: usize = 4;

/// A block: the index of its first coefficient, and its coefficients.
pub type Block = (int, Seq<int>);

/// The index behind the last coefficient of a block.
pub open spec fn end(b: Block) -> int {
    b.0 + b.1.len()
}

/// The block at `i` holds the coefficient at `k`.
pub open spec fn holds(l: Seq<Block>, i: int, k: int) -> bool {
    0 <= i < l.len() && l[i].0 <= k < end(l[i])
}

/// Some block holds the coefficient at `k`.
pub open spec fn held(l: Seq<Block>, k: int) -> bool {
    exists|i: int| holds(l, i, k)
}

/// The block that holds the coefficient at `k`, where one does.
pub open spec fn block_of(l: Seq<Block>, k: int) -> int {
    choose|i: int| holds(l, i, k)
}

/// The blocks are in order, none is empty, no two overlap, and all end at or before
/// `n`. Blocks may be adjacent.
pub open spec fn wf(l: Seq<Block>, n: int) -> bool {
    &&& forall|i: int|
        0 <= i < l.len() ==> 0 <= (#[trigger] l[i]).0 && l[i].1.len() > 0 && end(l[i]) <= n
    &&& forall|i: int, j: int| 0 <= i < j < l.len() ==> end(#[trigger] l[i]) <= (#[trigger] l[j]).0
}

/// The coefficient at `k`: what the block that holds `k` has for it, and zero where
/// none does.
pub open spec fn coeff(l: Seq<Block>, k: int) -> int
    decreases l.len(),
{
    if l.len() == 0 {
        0
    } else if l.last().0 <= k < end(l.last()) {
        l.last().1[k - l.last().0]
    } else {
        coeff(l.drop_last(), k)
    }
}

/// The first `n` coefficients.
pub open spec fn dense(l: Seq<Block>, n: nat) -> Seq<int> {
    Seq::new(n, |k: int| coeff(l, k))
}

/// How many coefficients are stored.
pub open spec fn stored(l: Seq<Block>) -> nat
    decreases l.len(),
{
    if l.len() == 0 {
        0
    } else {
        stored(l.drop_last()) + l.last().1.len()
    }
}

/// The stored coefficients, in order.
pub open spec fn stored_values(l: Seq<Block>) -> Seq<int>
    decreases l.len(),
{
    if l.len() == 0 {
        Seq::empty()
    } else {
        stored_values(l.drop_last()) + l.last().1
    }
}

/// What `d` holds at the indices of the stored coefficients, in order.
pub open spec fn stored_at(l: Seq<Block>, d: Seq<int>) -> Seq<int>
    decreases l.len(),
{
    if l.len() == 0 {
        Seq::empty()
    } else {
        stored_at(l.drop_last(), d) + d.subrange(l.last().0, end(l.last()))
    }
}

/// One where a block holds the coefficient at `k`, else zero.
pub open spec fn is_held(l: Seq<Block>, k: int) -> int {
    if held(l, k) {
        1
    } else {
        0
    }
}

/// Some coefficient of `s` from `j` to `j + GAP_TOLERANCE` is not zero.
pub open spec fn has_nonzero(s: Seq<int>, j: int) -> bool {
    exists|t: int| j <= t <= j + GAP_TOLERANCE && #[trigger] s[t] != 0
}

/// A block that neither starts nor ends with a zero, nor has more than
/// `GAP_TOLERANCE` zeros in a row.
pub open spec fn tight(s: Seq<int>) -> bool {
    &&& s.len() > 0
    &&& s[0] != 0
    &&& s[s.len() - 1] != 0
    &&& forall|j: int| 0 <= j && j + GAP_TOLERANCE < s.len() ==> #[trigger] has_nonzero(s, j)
}

/// The blocks `l` hold the coefficients `c`, the first of which has index `base`, in
/// compressed form: each block is tight, two blocks are further apart than
/// `GAP_TOLERANCE`, and only zeros are left out.
pub open spec fn compressed(l: Seq<Block>, base: int, c: Seq<int>) -> bool {
    &&& forall|i: int|
        0 <= i < l.len() ==> tight((#[trigger] l[i]).1) && base <= l[i].0 && end(l[i]) <= base
            + c.len()
    &&& forall|i: int|
        0 <= i < l.len() ==> (#[trigger] l[i]).1 == c.subrange(l[i].0 - base, end(l[i]) - base)
    &&& forall|i: int, j: int|
        0 <= i < j < l.len() ==> end(#[trigger] l[i]) + GAP_TOLERANCE < (#[trigger] l[j]).0
    &&& forall|k: int| base <= k < base + c.len() && !#[trigger] held(l, k) ==> c[k - base] == 0
}

/// The blocks with `f` applied to every index and its coefficient.
pub open spec fn mapped(l: Seq<Block>, f: spec_fn(int, int) -> int) -> Seq<Block> {
    Seq::new(
        l.len(),
        |i: int| (l[i].0, Seq::new(l[i].1.len(), |j: int| f(l[i].0 + j, l[i].1[j]))),
    )
}

/// Some coefficient of a block is not zero.
pub open spec fn nonzero(s: Seq<int>) -> bool {
    exists|t: int| 0 <= t < s.len() && #[trigger] s[t] != 0
}

/// A block of one list or the other holds the coefficient at `k`.
pub open spec fn held_by_either(kept: Seq<Block>, other: Seq<Block>, k: int) -> bool {
    held(kept, k) || held(other, k)
}

/// The block `b` may stand in the merge of the blocks `kept` and `other`. It is not all zero.
/// It holds no index that neither list holds. And it is one of the blocks `kept`, or it is
/// tight, or it holds all of the `n` coefficients, which is so only where the two lists
/// together hold them all.
pub open spec fn merged_block(b: Block, kept: Seq<Block>, other: Seq<Block>, n: int) -> bool {
    &&& nonzero(b.1)
    &&& forall|k: int| b.0 <= k < end(b) ==> #[trigger] held_by_either(kept, other, k)
    &&& kept.contains(b) || tight(b.1) || (b.0 == 0 && b.1.len() == n)
}

/// Every block of `l` may stand in the merge of the blocks `kept` and `other`.
pub open spec fn pruned(l: Seq<Block>, kept: Seq<Block>, other: Seq<Block>, n: int) -> bool {
    forall|i: int| 0 <= i < l.len() ==> merged_block(#[trigger] l[i], kept, other, n)
}

/// The block, if it is not all zero.
pub open spec fn unless_zero(b: Block) -> Seq<Block> {
    if nonzero(b.1) {
        seq![b]
    } else {
        Seq::empty()
    }
}

/// The blocks that are not all zero.
pub open spec fn drop_zero(l: Seq<Block>) -> Seq<Block>
    decreases l.len(),
{
    if l.len() == 0 {
        Seq::empty()
    } else {
        drop_zero(l.drop_last()) + unless_zero(l.last())
    }
}

/// The block lies between two indices.
pub open spec fn inside(b: Block, s: int, e: int) -> bool {
    s <= b.0 && end(b) <= e
}

/// The blocks that lie between two indices.
pub open spec fn within(l: Seq<Block>, s: int, e: int) -> Seq<Block>
    decreases l.len(),
{
    if l.len() == 0 {
        Seq::empty()
    } else if inside(l.last(), s, e) {
        within(l.drop_last(), s, e).push(l.last())
    } else {
        within(l.drop_last(), s, e)
    }
}

/// The coefficients between two indices.
pub open spec fn coeffs_of(l: Seq<Block>, s: int, e: int) -> Seq<int> {
    Seq::new((e - s) as nat, |k: int| coeff(l, s + k))
}

/// A cluster of two lists of blocks: indices in a row that one list or the other holds, and
/// beside which neither holds any. Blocks that overlap or are adjacent are in one cluster.
pub open spec fn cluster(kept: Seq<Block>, other: Seq<Block>, s: int, e: int) -> bool {
    &&& s < e
    &&& forall|k: int| s <= k < e ==> #[trigger] held_by_either(kept, other, k)
    &&& !held_by_either(kept, other, s - 1)
    &&& !held_by_either(kept, other, e)
}

/// How the merge `l` stores a cluster. Where none of the blocks is from `other`, those of
/// `kept` stay as they are, unless they are all zero. Where the cluster has all of the `n`
/// coefficients, and they are not all zero, it is stored as one block. Else its coefficients
/// are stored in compressed form.
pub open spec fn cluster_merged(
    l: Seq<Block>,
    kept: Seq<Block>,
    other: Seq<Block>,
    n: int,
    s: int,
    e: int,
) -> bool {
    if within(other, s, e).len() == 0 {
        within(l, s, e) == drop_zero(within(kept, s, e))
    } else if s == 0 && e == n && nonzero(coeffs_of(l, s, e)) {
        within(l, s, e) == seq![(s, coeffs_of(l, s, e))]
    } else {
        compressed(within(l, s, e), s, coeffs_of(l, s, e))
    }
}

/// How the merge `l` stores the blocks `kept` and `other`: cluster by cluster. Where nothing
/// is `kept`, each of the other blocks is stored in compressed form by itself.
pub open spec fn merge_of(l: Seq<Block>, kept: Seq<Block>, other: Seq<Block>, n: int) -> bool {
    if kept.len() == 0 {
        forall|i: int|
            0 <= i < other.len() ==> compressed(
                within(l, (#[trigger] other[i]).0, end(other[i])),
                other[i].0,
                coeffs_of(l, other[i].0, end(other[i])),
            )
    } else {
        forall|s: int, e: int| #[trigger]
            cluster(kept, other, s, e) ==> cluster_merged(l, kept, other, n, s, e)
    }
}

/// Blocks that may stand in a merge, one after the other.
pub proof fn lemma_pruned_append(
    a: Seq<Block>,
    b: Seq<Block>,
    kept: Seq<Block>,
    other: Seq<Block>,
    n: int,
)
    requires
        pruned(a, kept, other, n),
        pruned(b, kept, other, n),
    ensures
        pruned(a + b, kept, other, n),
{
    let l = a + b;
    assert forall|i: int| 0 <= i < l.len() implies merged_block(
        #[trigger] l[i],
        kept,
        other,
        n,
    ) by {
        if i < a.len() {
            assert(l[i] == a[i]);
        } else {
            assert(l[i] == b[i - a.len()]);
        }
    }
}

/// The coefficient at an index that a block holds.
pub proof fn lemma_coeff_in(l: Seq<Block>, n: int, i: int, k: int)
    requires
        wf(l, n),
        holds(l, i, k),
    ensures
        coeff(l, k) == l[i].1[k - l[i].0],
    decreases l.len(),
{
    if i < l.len() - 1 {
        assert(end(l[i]) <= l[l.len() - 1].0);
        lemma_wf_drop_last(l, n);
        assert(l.drop_last()[i] == l[i]);
        lemma_coeff_in(l.drop_last(), n, i, k);
    }
}

/// The coefficient at an index that no block holds.
pub proof fn lemma_coeff_out(l: Seq<Block>, k: int)
    requires
        !held(l, k),
    ensures
        coeff(l, k) == 0,
    decreases l.len(),
{
    if l.len() > 0 {
        assert(!holds(l, l.len() - 1, k));
        assert forall|i: int| !holds(l.drop_last(), i, k) by {
            assert(!holds(l, i, k));
        }
        assert(!held(l.drop_last(), k));
        lemma_coeff_out(l.drop_last(), k);
    }
}

/// Leaving out the last block keeps the others in order.
pub proof fn lemma_wf_drop_last(l: Seq<Block>, n: int)
    requires
        wf(l, n),
        l.len() > 0,
    ensures
        wf(l.drop_last(), n),
{
    assert forall|i: int| 0 <= i < l.len() - 1 implies 0 <= (#[trigger] l.drop_last()[i]).0
        && l.drop_last()[i].1.len() > 0 && end(l.drop_last()[i]) <= n by {
        assert(l.drop_last()[i] == l[i]);
    }
    assert forall|i: int, j: int| 0 <= i < j < l.len() - 1 implies end(
        #[trigger] l.drop_last()[i],
    ) <= (#[trigger] l.drop_last()[j]).0 by {
        assert(l.drop_last()[i] == l[i] && l.drop_last()[j] == l[j]);
    }
}

/// Blocks that lie side by side with other blocks: each index is looked up on its
/// own side.
pub proof fn lemma_concat(a: Seq<Block>, b: Seq<Block>, m: int, n: int)
    requires
        wf(a, m),
        wf(b, n),
        m <= n,
        forall|i: int| 0 <= i < b.len() ==> m <= (#[trigger] b[i]).0,
    ensures
        wf(a + b, n),
        forall|k: int|
            #[trigger] coeff(a + b, k) == if k < m {
                coeff(a, k)
            } else {
                coeff(b, k)
            },
{
    let l = a + b;
    assert forall|i: int| 0 <= i < l.len() implies 0 <= (#[trigger] l[i]).0 && l[i].1.len() > 0
        && end(l[i]) <= n by {
        if i < a.len() {
            assert(l[i] == a[i]);
        } else {
            assert(l[i] == b[i - a.len()]);
        }
    }
    assert forall|i: int, j: int| 0 <= i < j < l.len() implies end(#[trigger] l[i]) <= (
    #[trigger] l[j]).0 by {
        if j < a.len() {
            assert(l[i] == a[i] && l[j] == a[j]);
        } else {
            assert(l[j] == b[j - a.len()]);
            if i < a.len() {
                assert(l[i] == a[i]);
            } else {
                assert(l[i] == b[i - a.len()]);
            }
        }
    }
    assert forall|k: int| #[trigger] coeff(l, k) == if k < m {
        coeff(a, k)
    } else {
        coeff(b, k)
    } by {
        let side = if k < m {
            a
        } else {
            b
        };
        let off = if k < m {
            0
        } else {
            a.len() as int
        };
        if held(side, k) {
            let i = block_of(side, k);
            assert(holds(side, i, k));
            lemma_coeff_in(side, n, i, k);
            assert(l[i + off] == side[i]);
            assert(holds(l, i + off, k));
            lemma_coeff_in(l, n, i + off, k);
        } else {
            lemma_coeff_out(side, k);
            if held(l, k) {
                let i = block_of(l, k);
                assert(holds(l, i, k));
                if i < a.len() {
                    assert(l[i] == a[i]);
                    assert(holds(side, i, k));
                } else {
                    assert(l[i] == b[i - a.len()]);
                    assert(holds(side, i - a.len(), k));
                }
            }
            lemma_coeff_out(l, k);
        }
    }
}

/// Blocks that end by `m` end by a later index.
pub proof fn lemma_wf_mono(l: Seq<Block>, m: int, n: int)
    requires
        wf(l, m),
        m <= n,
    ensures
        wf(l, n),
{
}

/// Part of the blocks are in order.
pub proof fn lemma_part(l: Seq<Block>, n: int, a: int, b: int)
    requires
        wf(l, n),
        0 <= a <= b <= l.len(),
    ensures
        wf(l.subrange(a, b), n),
{
    let s = l.subrange(a, b);
    assert forall|i: int| 0 <= i < s.len() implies 0 <= (#[trigger] s[i]).0 && s[i].1.len() > 0
        && end(s[i]) <= n by {
        assert(s[i] == l[a + i]);
    }
    assert forall|i: int, j: int| 0 <= i < j < s.len() implies end(#[trigger] s[i]) <= (
    #[trigger] s[j]).0 by {
        assert(s[i] == l[a + i] && s[j] == l[a + j]);
    }
}

/// Where no other block holds an index, part of the blocks tell its coefficient.
pub proof fn lemma_part_coeff(l: Seq<Block>, n: int, a: int, b: int, k: int)
    requires
        wf(l, n),
        0 <= a <= b <= l.len(),
        forall|i: int| holds(l, i, k) ==> a <= i < b,
    ensures
        coeff(l.subrange(a, b), k) == coeff(l, k),
{
    let s = l.subrange(a, b);
    lemma_part(l, n, a, b);
    if held(l, k) {
        let i = block_of(l, k);
        assert(holds(l, i, k));
        lemma_coeff_in(l, n, i, k);
        assert(s[i - a] == l[i]);
        assert(holds(s, i - a, k));
        lemma_coeff_in(s, n, i - a, k);
    } else {
        lemma_coeff_out(l, k);
        if held(s, k) {
            let i = block_of(s, k);
            assert(holds(s, i, k));
            assert(s[i] == l[a + i]);
            assert(holds(l, a + i, k));
        }
        lemma_coeff_out(s, k);
    }
}

/// A single coefficient other than zero is a tight block.
pub proof fn lemma_tight_single(x: int)
    requires
        x != 0,
    ensures
        tight(seq![x]),
{
}

/// A tight block stays tight where up to `GAP_TOLERANCE` zeros and then a
/// coefficient other than zero follow.
pub proof fn lemma_tight_extend(s: Seq<int>, t: Seq<int>)
    requires
        tight(s),
        s.len() < t.len() <= s.len() + GAP_TOLERANCE + 1,
        t.take(s.len() as int) == s,
        t[t.len() - 1] != 0,
    ensures
        tight(t),
{
    assert(forall|i: int| 0 <= i < s.len() ==> s[i] == t.take(s.len() as int)[i]);
    assert(t[0] == s[0]);
    assert forall|j: int| 0 <= j && j + GAP_TOLERANCE < t.len() implies #[trigger] has_nonzero(
        t,
        j,
    ) by {
        if j + GAP_TOLERANCE < s.len() {
            assert(has_nonzero(s, j));
            let i = choose|i: int| j <= i <= j + GAP_TOLERANCE && s[i] != 0;
            assert(t[i] == s[i]);
        } else if j < s.len() {
            assert(t[s.len() - 1] == s[s.len() - 1]);
        } else {
            assert(t[t.len() - 1] != 0);
        }
    }
}

/// Zeros behind the last block are left out.
pub proof fn lemma_compressed_zeros(l: Seq<Block>, base: int, c: Seq<int>, d: Seq<int>)
    requires
        compressed(l, base, c),
        c.len() <= d.len(),
        d.take(c.len() as int) == c,
        forall|k: int| c.len() <= k < d.len() ==> #[trigger] d[k] == 0,
    ensures
        compressed(l, base, d),
{
    assert(forall|k: int| 0 <= k < c.len() ==> c[k] == d.take(c.len() as int)[k]);
    assert forall|i: int| 0 <= i < l.len() implies (#[trigger] l[i]).1 == d.subrange(
        l[i].0 - base,
        end(l[i]) - base,
    ) by {
        assert(l[i].1 =~= d.subrange(l[i].0 - base, end(l[i]) - base));
    }
    assert forall|k: int| base <= k < base + d.len() && !#[trigger] held(l, k) implies d[k - base]
        == 0 by {
        if k < base + c.len() {
            assert(c[k - base] == 0);
            assert(d[k - base] == c[k - base]);
        }
    }
}

/// A tight block can follow at a distance.
pub proof fn lemma_compressed_push(l: Seq<Block>, base: int, c: Seq<int>, b: Block, d: Seq<int>)
    requires
        compressed(l, base, c),
        tight(b.1),
        b.0 == base + c.len(),
        forall|i: int| 0 <= i < l.len() ==> end(#[trigger] l[i]) + GAP_TOLERANCE < b.0,
        d == c + b.1,
    ensures
        compressed(l.push(b), base, d),
{
    let m = l.push(b);
    assert forall|i: int| 0 <= i < m.len() implies tight((#[trigger] m[i]).1) && base <= m[i].0
        && end(m[i]) <= base + d.len() && m[i].1 == d.subrange(m[i].0 - base, end(m[i]) - base) by {
        if i < l.len() {
            assert(m[i] == l[i]);
            assert(l[i].1 =~= d.subrange(l[i].0 - base, end(l[i]) - base));
        } else {
            assert(b.1 =~= d.subrange(b.0 - base, end(b) - base));
        }
    }
    assert forall|i: int, j: int| 0 <= i < j < m.len() implies end(#[trigger] m[i]) + GAP_TOLERANCE
        < (#[trigger] m[j]).0 by {
        assert(m[i] == l[i]);
        if j < l.len() {
            assert(m[j] == l[j]);
        }
    }
    assert forall|k: int| base <= k < base + d.len() && !#[trigger] held(m, k) implies d[k - base]
        == 0 by {
        if k < base + c.len() {
            if held(l, k) {
                let i = block_of(l, k);
                assert(holds(m, i, k));
            }
            assert(c[k - base] == 0);
        } else {
            assert(holds(m, l.len() as int, k));
        }
    }
}

/// Blocks in compressed form are in order.
pub proof fn lemma_compressed_wf(l: Seq<Block>, base: int, c: Seq<int>)
    requires
        compressed(l, base, c),
        base >= 0,
    ensures
        wf(l, base + c.len()),
{
    assert forall|i: int| 0 <= i < l.len() implies 0 <= (#[trigger] l[i]).0 && l[i].1.len() > 0
        && end(l[i]) <= base + c.len() by {
        assert(tight(l[i].1));
    }
}

/// Blocks in compressed form hold the coefficients.
pub proof fn lemma_compressed_coeff(l: Seq<Block>, base: int, c: Seq<int>, k: int)
    requires
        compressed(l, base, c),
        base >= 0,
    ensures
        coeff(l, k) == if base <= k < base + c.len() {
            c[k - base]
        } else {
            0
        },
{
    lemma_compressed_wf(l, base, c);
    if held(l, k) {
        let i = block_of(l, k);
        assert(holds(l, i, k));
        lemma_coeff_in(l, base + c.len(), i, k);
        let s = c.subrange(l[i].0 - base, end(l[i]) - base);
        assert(l[i].1 == s);
        assert(s[k - l[i].0] == c[k - base]);
    } else {
        lemma_coeff_out(l, k);
        if base <= k < base + c.len() {
            assert(c[k - base] == 0);
        }
    }
}

/// Blocks to whose coefficients a function that keeps zero is applied.
pub proof fn lemma_mapped(l: Seq<Block>, n: int, f: spec_fn(int, int) -> int)
    requires
        wf(l, n),
        forall|k: int| #[trigger] f(k, 0) == 0,
    ensures
        wf(mapped(l, f), n),
        forall|k: int| #[trigger] coeff(mapped(l, f), k) == f(k, coeff(l, k)),
{
    let m = mapped(l, f);
    assert forall|i: int| 0 <= i < m.len() implies 0 <= (#[trigger] m[i]).0 && m[i].1.len() > 0
        && end(m[i]) <= n by {
        assert(end(m[i]) == end(l[i]));
    }
    assert forall|i: int, j: int| 0 <= i < j < m.len() implies end(#[trigger] m[i]) <= (
    #[trigger] m[j]).0 by {
        assert(end(m[i]) == end(l[i]) && m[j].0 == l[j].0);
    }
    assert forall|k: int| #[trigger] coeff(m, k) == f(k, coeff(l, k)) by {
        if held(l, k) {
            let i = block_of(l, k);
            assert(holds(l, i, k));
            assert(holds(m, i, k));
            lemma_coeff_in(l, n, i, k);
            lemma_coeff_in(m, n, i, k);
        } else {
            lemma_coeff_out(l, k);
            if held(m, k) {
                let i = block_of(m, k);
                assert(holds(m, i, k));
                assert(holds(l, i, k));
            }
            lemma_coeff_out(m, k);
        }
    }
}

/// As many values are stored as there are indices, each of which has a value.
pub proof fn lemma_stored_len(l: Seq<Block>, n: int, d: Seq<int>)
    requires
        wf(l, n),
        n <= d.len(),
    ensures
        stored_values(l).len() == stored(l),
        stored_at(l, d).len() == stored(l),
    decreases l.len(),
{
    if l.len() > 0 {
        lemma_wf_drop_last(l, n);
        lemma_stored_len(l.drop_last(), n, d);
        assert(l.last() == l[l.len() - 1]);
    }
}

/// An inner product with the coefficients is that of the stored ones with what stands at
/// their indices.
pub proof fn lemma_stored_dot(l: Seq<Block>, n: nat, d: Seq<int>)
    requires
        wf(l, n as int),
        n <= d.len(),
    ensures
        poly::dot(stored_values(l), stored_at(l, d)) == poly::dot(dense(l, n), d),
    decreases l.len(),
{
    let c = dense(l, n);
    let all = |k: int| c[k] * d[k];
    if l.len() == 0 {
        assert forall|k: int| 0 <= k < n implies #[trigger] all(k) == 0 by {
            assert(0 * d[k] == 0);
        }
        sums::lemma_zero(n, all);
    } else {
        let m = l.drop_last();
        let b = l[l.len() - 1];
        let (x, u) = (stored_values(m), stored_at(m, d));
        let v = d.subrange(b.0, end(b));
        lemma_wf_drop_last(l, n as int);
        lemma_stored_dot(m, n, d);
        lemma_stored_len(m, n as int, d);
        let cm = dense(m, n);
        let rest = |k: int| cm[k] * d[k];
        let here = |k: int|
            if b.0 <= k < end(b) {
                b.1[k - b.0] * d[k]
            } else {
                0
            };
        assert forall|k: int| 0 <= k < n implies #[trigger] all(k) == rest(k) + here(k) by {
            if b.0 <= k < end(b) {
                assert forall|i: int| !holds(m, i, k) by {
                    if 0 <= i < m.len() {
                        assert(end(l[i]) <= b.0);
                    }
                }
                lemma_coeff_out(m, k);
                assert(0 * d[k] == 0);
            }
        }
        sums::lemma_plus(n, rest, here, all);
        let block = |i: int| b.1[i] * v[i];
        assert forall|i: int| 0 <= i < b.1.len() implies #[trigger] block(i) == here(b.0 + i) by {
            assert(v[i] == d[b.0 + i]);
        }
        sums::lemma_window(n, b.0 as nat, b.1.len(), here, block);
        let (y, w) = (stored_values(l), stored_at(l, d));
        let f = |i: int| y[i] * w[i];
        let head = |i: int| x[i] * u[i];
        sums::lemma_cut(x.len(), b.1.len(), f, block);
        sums::lemma_ext(x.len(), head, f);
    }
}

/// What is stored is as much as is held.
pub proof fn lemma_stored_count(l: Seq<Block>, n: nat)
    requires
        wf(l, n as int),
    ensures
        stored(l) == sums::sigma(n, |k: int| is_held(l, k)),
    decreases l.len(),
{
    let all = |k: int| is_held(l, k);
    if l.len() == 0 {
        assert forall|k: int| 0 <= k < n implies #[trigger] all(k) == 0 by {
            if held(l, k) {
                let i = block_of(l, k);
                assert(holds(l, i, k));
            }
        }
        sums::lemma_zero(n, all);
    } else {
        let m = l.drop_last();
        let b = l[l.len() - 1];
        lemma_wf_drop_last(l, n as int);
        lemma_stored_count(m, n);
        let rest = |k: int| is_held(m, k);
        let here = |k: int|
            if b.0 <= k < end(b) {
                1int
            } else {
                0
            };
        assert forall|k: int| 0 <= k < n implies #[trigger] all(k) == rest(k) + here(k) by {
            if b.0 <= k < end(b) {
                assert(holds(l, l.len() - 1, k));
                if held(m, k) {
                    let i = block_of(m, k);
                    assert(holds(m, i, k));
                    assert(m[i] == l[i]);
                    assert(end(l[i]) <= b.0);
                }
            } else if held(l, k) {
                let i = block_of(l, k);
                assert(holds(l, i, k));
                assert(holds(m, i, k));
            } else if held(m, k) {
                let i = block_of(m, k);
                assert(holds(m, i, k));
                assert(holds(l, i, k));
            }
        }
        sums::lemma_plus(n, rest, here, all);
        let one = |i: int| 1int;
        sums::lemma_window(n, b.0 as nat, b.1.len(), here, one);
        lemma_ones(b.1.len());
    }
}

/// A sum of ones.
proof fn lemma_ones(n: nat)
    ensures
        sums::sigma(n, |i: int| 1int) == n,
    decreases n,
{
    if n > 0 {
        lemma_ones((n - 1) as nat);
    }
}


/// A merge holds no index that neither of its parts holds.
pub proof fn lemma_pruned_held(
    l: Seq<Block>,
    kept: Seq<Block>,
    other: Seq<Block>,
    n: int,
    k: int,
)
    requires
        pruned(l, kept, other, n),
        held(l, k),
    ensures
        held(kept, k) || held(other, k),
{
    let i = block_of(l, k);
    assert(holds(l, i, k));
    assert(merged_block(l[i], kept, other, n));
    assert(held_by_either(kept, other, k));
}

/// Blocks to whose coefficients a function is applied hold what they held.
pub proof fn lemma_mapped_held(l: Seq<Block>, f: spec_fn(int, int) -> int, k: int)
    requires
        held(mapped(l, f), k),
    ensures
        held(l, k),
{
    let i = block_of(mapped(l, f), k);
    assert(holds(mapped(l, f), i, k));
    assert(holds(l, i, k));
}


/// The blocks of two lists that lie between two indices.
pub proof fn lemma_within_append(a: Seq<Block>, b: Seq<Block>, s: int, e: int)
    ensures
        within(a + b, s, e) == within(a, s, e) + within(b, s, e),
    decreases b.len(),
{
    if b.len() == 0 {
        assert(a + b =~= a);
        assert(within(a, s, e) + within(b, s, e) =~= within(a, s, e));
    } else {
        let c = b.drop_last();
        lemma_within_append(a, c, s, e);
        assert((a + b).drop_last() =~= a + c);
        assert((a + b).last() == b.last());
        assert((within(a, s, e) + within(c, s, e)).push(b.last()) =~= within(a, s, e) + within(
            c,
            s,
            e,
        ).push(b.last()));
    }
}

/// Where all blocks lie between two indices, they are those that do.
pub proof fn lemma_within_all(l: Seq<Block>, s: int, e: int)
    requires
        forall|i: int| 0 <= i < l.len() ==> inside(#[trigger] l[i], s, e),
    ensures
        within(l, s, e) == l,
    decreases l.len(),
{
    if l.len() > 0 {
        let m = l.drop_last();
        assert forall|i: int| 0 <= i < m.len() implies inside(#[trigger] m[i], s, e) by {
            assert(m[i] == l[i]);
        }
        lemma_within_all(m, s, e);
        assert(inside(l[l.len() - 1], s, e));
        assert(m.push(l.last()) =~= l);
    } else {
        assert(within(l, s, e) =~= l);
    }
}

/// Where no block lies between two indices, none does.
pub proof fn lemma_within_none(l: Seq<Block>, s: int, e: int)
    requires
        forall|i: int| 0 <= i < l.len() ==> !inside(#[trigger] l[i], s, e),
    ensures
        within(l, s, e) == Seq::<Block>::empty(),
    decreases l.len(),
{
    if l.len() > 0 {
        let m = l.drop_last();
        assert forall|i: int| 0 <= i < m.len() implies !inside(#[trigger] m[i], s, e) by {
            assert(m[i] == l[i]);
        }
        lemma_within_none(m, s, e);
        assert(!inside(l[l.len() - 1], s, e));
    }
}

/// The blocks between two indices are a part of the list.
pub proof fn lemma_within_part(l: Seq<Block>, n: int, s: int, e: int, i: int, j: int)
    requires
        wf(l, n),
        0 <= i <= j <= l.len(),
        forall|t: int| 0 <= t < i ==> end(#[trigger] l[t]) <= s,
        forall|t: int| i <= t < j ==> inside(#[trigger] l[t], s, e),
        forall|t: int| j <= t < l.len() ==> e <= (#[trigger] l[t]).0,
    ensures
        within(l, s, e) == l.subrange(i, j),
{
    let (a, b, c) = (l.take(i), l.subrange(i, j), l.skip(j));
    assert(l =~= (a + b) + c);
    lemma_within_append(a + b, c, s, e);
    lemma_within_append(a, b, s, e);
    assert forall|t: int| 0 <= t < a.len() implies !inside(#[trigger] a[t], s, e) by {
        assert(a[t] == l[t]);
    }
    assert forall|t: int| 0 <= t < b.len() implies inside(#[trigger] b[t], s, e) by {
        assert(b[t] == l[i + t]);
    }
    assert forall|t: int| 0 <= t < c.len() implies !inside(#[trigger] c[t], s, e) by {
        assert(c[t] == l[j + t]);
    }
    lemma_within_none(a, s, e);
    lemma_within_all(b, s, e);
    lemma_within_none(c, s, e);
    assert((Seq::<Block>::empty() + b) + Seq::<Block>::empty() =~= b);
}

/// What is left of blocks between two indices lies between them.
pub proof fn lemma_drop_zero_inside(l: Seq<Block>, s: int, e: int)
    requires
        forall|i: int| 0 <= i < l.len() ==> inside(#[trigger] l[i], s, e),
    ensures
        forall|i: int| 0 <= i < drop_zero(l).len() ==> inside(#[trigger] drop_zero(l)[i], s, e),
    decreases l.len(),
{
    if l.len() > 0 {
        let m = l.drop_last();
        assert forall|i: int| 0 <= i < m.len() implies inside(#[trigger] m[i], s, e) by {
            assert(m[i] == l[i]);
        }
        lemma_drop_zero_inside(m, s, e);
        assert(inside(l[l.len() - 1], s, e));
        let d = drop_zero(l);
        assert forall|i: int| 0 <= i < d.len() implies inside(#[trigger] d[i], s, e) by {
            if i < drop_zero(m).len() {
                assert(d[i] == drop_zero(m)[i]);
            }
        }
    }
}

/// Where no block is all zero, none is dropped.
pub proof fn lemma_drop_zero_none(l: Seq<Block>)
    requires
        forall|i: int| 0 <= i < l.len() ==> nonzero((#[trigger] l[i]).1),
    ensures
        drop_zero(l) == l,
    decreases l.len(),
{
    if l.len() > 0 {
        let m = l.drop_last();
        assert forall|i: int| 0 <= i < m.len() implies nonzero((#[trigger] m[i]).1) by {
            assert(m[i] == l[i]);
        }
        lemma_drop_zero_none(m);
        assert(nonzero(l[l.len() - 1].1));
        assert(m + unless_zero(l.last()) =~= l);
    } else {
        assert(drop_zero(l) =~= l);
    }
}

/// The clusters that end by `f` are merged.
pub open spec fn merged_until(
    l: Seq<Block>,
    kept: Seq<Block>,
    other: Seq<Block>,
    n: int,
    f: int,
) -> bool {
    forall|s: int, e: int| #[trigger]
        cluster(kept, other, s, e) && e <= f ==> cluster_merged(l, kept, other, n, s, e)
}

/// Blocks that are appended between two indices are those between them.
pub proof fn lemma_appended_part(o: Seq<Block>, b: Seq<Block>, f: int, s: int, e: int)
    requires
        wf(o, f),
        wf(b, e),
        0 <= f <= s <= e,
        forall|i: int| 0 <= i < b.len() ==> s <= (#[trigger] b[i]).0,
    ensures
        within(o + b, s, e) == b,
        coeffs_of(o + b, s, e) == coeffs_of(b, s, e),
{
    lemma_within_append(o, b, s, e);
    assert forall|i: int| 0 <= i < o.len() implies !inside(#[trigger] o[i], s, e) by {}
    assert forall|i: int| 0 <= i < b.len() implies inside(#[trigger] b[i], s, e) by {}
    lemma_within_none(o, s, e);
    lemma_within_all(b, s, e);
    assert(Seq::<Block>::empty() + b =~= b);
    lemma_concat(o, b, f, e);
    assert(coeffs_of(o + b, s, e) =~= coeffs_of(b, s, e));
}

/// One more cluster is merged.
pub proof fn lemma_cluster_appended(
    o: Seq<Block>,
    b: Seq<Block>,
    kept: Seq<Block>,
    other: Seq<Block>,
    n: int,
    f: int,
    s: int,
    e: int,
)
    requires
        wf(o, f),
        wf(b, e),
        0 <= f <= s,
        forall|i: int| 0 <= i < b.len() ==> s <= (#[trigger] b[i]).0,
        merged_until(o, kept, other, n, f),
        cluster(kept, other, s, e),
        forall|k: int| f <= k < s ==> !#[trigger] held_by_either(kept, other, k),
        cluster_merged(o + b, kept, other, n, s, e),
    ensures
        merged_until(o + b, kept, other, n, e),
{
    let l = o + b;
    lemma_concat(o, b, f, e);
    assert forall|s1: int, e1: int| #[trigger]
        cluster(kept, other, s1, e1) && e1 <= e implies cluster_merged(
        l,
        kept,
        other,
        n,
        s1,
        e1,
    ) by {
        if e1 <= f {
            lemma_within_append(o, b, s1, e1);
            assert forall|i: int| 0 <= i < b.len() implies !inside(#[trigger] b[i], s1, e1) by {}
            lemma_within_none(b, s1, e1);
            assert(within(o, s1, e1) + Seq::<Block>::empty() =~= within(o, s1, e1));
            assert(coeffs_of(l, s1, e1) =~= coeffs_of(o, s1, e1));
            assert(cluster_merged(o, kept, other, n, s1, e1));
        } else {
            assert(held_by_either(kept, other, e1 - 1));
            if e1 < e {
                assert(held_by_either(kept, other, e1));
            }
            if s1 > s {
                assert(held_by_either(kept, other, s1 - 1));
            }
            if s1 < s {
                assert(held_by_either(kept, other, s - 1));
            }
        }
    }
}

/// The blocks between two indices are blocks of the list, and in order.
pub proof fn lemma_within_wf(l: Seq<Block>, n: int, s: int, e: int)
    requires
        wf(l, n),
    ensures
        wf(within(l, s, e), n),
        forall|b: Block| #[trigger]
            within(l, s, e).contains(b) <==> l.contains(b) && inside(b, s, e),
    decreases l.len(),
{
    if l.len() > 0 {
        let rest = l.drop_last();
        lemma_wf_drop_last(l, n);
        lemma_within_wf(rest, n, s, e);
        let part = within(rest, s, e);
        let whole = within(l, s, e);
        assert forall|b: Block| l.contains(b) <==> rest.contains(b) || b == l.last() by {
            if l.contains(b) {
                let i = choose|i: int| 0 <= i < l.len() && l[i] == b;
                if i < rest.len() {
                    assert(rest[i] == b);
                }
            }
            if rest.contains(b) {
                let i = choose|i: int| 0 <= i < rest.len() && rest[i] == b;
                assert(l[i] == b);
            }
            assert(l[l.len() - 1] == l.last());
        }
        if inside(l.last(), s, e) {
            assert forall|b: Block| whole.contains(b) <==> part.contains(b) || b == l.last() by {
                if whole.contains(b) {
                    let i = choose|i: int| 0 <= i < whole.len() && whole[i] == b;
                    if i < part.len() {
                        assert(part[i] == b);
                    }
                }
                if part.contains(b) {
                    let i = choose|i: int| 0 <= i < part.len() && part[i] == b;
                    assert(whole[i] == b);
                }
                assert(whole[part.len() as int] == l.last());
            }
            assert forall|i: int| 0 <= i < part.len() implies end(#[trigger] part[i])
                <= l.last().0 by {
                assert(part.contains(part[i]));
                let j = choose|j: int| 0 <= j < rest.len() && rest[j] == part[i];
                assert(end(l[j]) <= l[l.len() - 1].0);
            }
        }
    }
}

/// At most one block holds an index.
pub proof fn lemma_holder(l: Seq<Block>, n: int, i: int, j: int, k: int)
    requires
        wf(l, n),
        holds(l, i, k),
        holds(l, j, k),
    ensures
        i == j,
{
    if i < j {
        assert(end(l[i]) <= l[j].0);
    } else if j < i {
        assert(end(l[j]) <= l[i].0);
    }
}

/// Two lists in order that have the same blocks are the same.
pub proof fn lemma_same_blocks(l: Seq<Block>, m: Seq<Block>, n: int)
    requires
        wf(l, n),
        wf(m, n),
        forall|b: Block| #[trigger] l.contains(b) <==> m.contains(b),
    ensures
        l == m,
    decreases l.len(),
{
    if l.len() == 0 {
        if m.len() > 0 {
            assert(m.contains(m[0]));
            assert(l.contains(m[0]));
        }
        assert(l =~= m);
    } else {
        assert(l.contains(l.last()));
        let j = choose|j: int| 0 <= j < m.len() && m[j] == l.last();
        assert(m.contains(m.last()));
        assert(l.contains(m.last()));
        let i = choose|i: int| 0 <= i < l.len() && l[i] == m.last();
        if j < m.len() - 1 {
            assert(end(m[j]) <= m[m.len() - 1].0);
            if i < l.len() - 1 {
                assert(end(l[i]) <= l[l.len() - 1].0);
            }
        }
        assert(l.last() == m.last());
        let (a, b) = (l.drop_last(), m.drop_last());
        lemma_wf_drop_last(l, n);
        lemma_wf_drop_last(m, n);
        assert forall|x: Block| a.contains(x) implies b.contains(x) by {
            let t = choose|t: int| 0 <= t < a.len() && a[t] == x;
            assert(l[t] == x);
            assert(l.contains(x));
            let u = choose|u: int| 0 <= u < m.len() && m[u] == x;
            assert(end(l[t]) <= l[l.len() - 1].0);
            assert(b[u] == x);
        }
        assert forall|x: Block| b.contains(x) implies a.contains(x) by {
            let t = choose|t: int| 0 <= t < b.len() && b[t] == x;
            assert(m[t] == x);
            assert(m.contains(x));
            assert(l.contains(x));
            let u = choose|u: int| 0 <= u < l.len() && l[u] == x;
            assert(end(m[t]) <= m[m.len() - 1].0);
            assert(a[u] == x);
        }
        lemma_same_blocks(a, b, n);
        assert(l =~= a.push(l.last()));
        assert(m =~= b.push(m.last()));
    }
}

/// What the blocks before the last hold in compressed form.
proof fn lemma_compressed_rest(l: Seq<Block>, base: int, c: Seq<int>)
    requires
        compressed(l, base, c),
        l.len() > 0,
    ensures
        compressed(l.drop_last(), base, c.take(l.last().0 - base)),
{
    let rest = l.drop_last();
    let d = c.take(l.last().0 - base);
    assert(l.last() == l[l.len() - 1]);
    assert forall|i: int| 0 <= i < rest.len() implies (#[trigger] rest[i]).1 == d.subrange(
        rest[i].0 - base,
        end(rest[i]) - base,
    ) && end(rest[i]) <= base + d.len() && tight(rest[i].1) && base <= rest[i].0 by {
        assert(rest[i] == l[i]);
        assert(end(l[i]) + GAP_TOLERANCE < l[l.len() - 1].0);
        assert(d.subrange(l[i].0 - base, end(l[i]) - base) =~= c.subrange(
            l[i].0 - base,
            end(l[i]) - base,
        ));
    }
    assert forall|k: int| base <= k < base + d.len() && !#[trigger] held(rest, k) implies d[k
        - base] == 0 by {
        if held(l, k) {
            let i = block_of(l, k);
            assert(holds(rest, i, k));
        }
    }
}

/// The last block of one compressed form starts no later than that of another.
proof fn lemma_compressed_last(l: Seq<Block>, m: Seq<Block>, base: int, c: Seq<int>)
    requires
        compressed(l, base, c),
        compressed(m, base, c),
        l.len() > 0,
    ensures
        m.len() > 0,
        end(l.last()) <= end(m.last()),
        m.last().0 <= l.last().0,
{
    let a = l[l.len() - 1];
    let last = end(a) - 1;
    assert(c[last - base] == a.1[a.1.len() - 1]);
    assert(held(m, last));
    let j = block_of(m, last);
    assert(holds(m, j, last));
    let b = m[m.len() - 1];
    if j < m.len() - 1 {
        assert(end(m[j]) + GAP_TOLERANCE < b.0);
    }
    assert(c[b.0 - base] == b.1[0]);
    assert(held(l, b.0));
    let i = block_of(l, b.0);
    assert(holds(l, i, b.0));
    if i < l.len() - 1 {
        assert(end(l[i]) + GAP_TOLERANCE < a.0);
    }
    if b.0 > a.0 {
        // What comes before the last block of `m`: more zeros than a block may have.
        let t = a.0;
        assert(c[t - base] == a.1[0]);
        let from = if a.0 < b.0 - GAP_TOLERANCE - 1 {
            b.0 - GAP_TOLERANCE - 1
        } else {
            a.0
        };
        assert forall|k: int| from <= k < b.0 implies !#[trigger] held(m, k) by {
            if held(m, k) {
                let i = block_of(m, k);
                assert(holds(m, i, k));
                if i < m.len() - 1 {
                    assert(end(m[i]) + GAP_TOLERANCE < b.0);
                }
            }
        }
        assert(!held(m, from));
        if from > a.0 {
            let s = from - a.0;
            assert(s + GAP_TOLERANCE < a.1.len());
            assert(has_nonzero(a.1, s));
            let u = choose|u: int| s <= u <= s + GAP_TOLERANCE && a.1[u] != 0;
            assert(a.1[u] == c[a.0 + u - base]);
            assert(!held(m, a.0 + u));
        }
    }
}

/// Coefficients have one compressed form.
pub proof fn lemma_compressed_unique(l: Seq<Block>, m: Seq<Block>, base: int, c: Seq<int>)
    requires
        compressed(l, base, c),
        compressed(m, base, c),
    ensures
        l == m,
    decreases l.len(),
{
    if l.len() == 0 {
        if m.len() > 0 {
            lemma_compressed_last(m, l, base, c);
        }
        assert(l =~= m);
    } else {
        lemma_compressed_last(l, m, base, c);
        lemma_compressed_last(m, l, base, c);
        let (a, b) = (l[l.len() - 1], m[m.len() - 1]);
        assert(a.1 == b.1);
        assert(a == b);
        lemma_compressed_rest(l, base, c);
        lemma_compressed_rest(m, base, c);
        lemma_compressed_unique(l.drop_last(), m.drop_last(), base, c.take(a.0 - base));
        assert(l =~= l.drop_last().push(a));
        assert(m =~= m.drop_last().push(b));
    }
}

/// The cluster around an index that one list or the other holds.
proof fn lemma_cluster_of(
    kept: Seq<Block>,
    other: Seq<Block>,
    n: int,
    from: int,
    to: int,
) -> (r: (int, int))
    requires
        wf(kept, n),
        wf(other, n),
        from < to,
        forall|k: int| from <= k < to ==> #[trigger] held_by_either(kept, other, k),
    ensures
        cluster(kept, other, r.0, r.1),
        0 <= r.0 <= from,
        to <= r.1 <= n,
    decreases from + n - to,
{
    lemma_held_range(kept, n, from);
    lemma_held_range(other, n, from);
    lemma_held_range(kept, n, to - 1);
    lemma_held_range(other, n, to - 1);
    assert(held_by_either(kept, other, from));
    assert(held_by_either(kept, other, to - 1));
    if held_by_either(kept, other, from - 1) {
        lemma_held_range(kept, n, from - 1);
        lemma_held_range(other, n, from - 1);
        lemma_cluster_of(kept, other, n, from - 1, to)
    } else if held_by_either(kept, other, to) {
        lemma_held_range(kept, n, to);
        lemma_held_range(other, n, to);
        lemma_cluster_of(kept, other, n, from, to + 1)
    } else {
        (from, to)
    }
}

/// Only indices of coefficients are held.
proof fn lemma_held_range(l: Seq<Block>, n: int, k: int)
    requires
        wf(l, n),
    ensures
        held(l, k) ==> 0 <= k < n,
{
    if held(l, k) {
        assert(holds(l, block_of(l, k), k));
    }
}

/// A block of one merge is one of another with the same coefficients.
proof fn lemma_merged_both(
    l: Seq<Block>,
    m: Seq<Block>,
    kept: Seq<Block>,
    other: Seq<Block>,
    n: int,
    i: int,
)
    requires
        wf(l, n),
        wf(m, n),
        wf(kept, n),
        wf(other, n),
        pruned(l, kept, other, n),
        merge_of(l, kept, other, n),
        merge_of(m, kept, other, n),
        forall|k: int| 0 <= k < n ==> #[trigger] coeff(l, k) == coeff(m, k),
        0 <= i < l.len(),
    ensures
        m.contains(l[i]),
{
    let b = l[i];
    assert(merged_block(b, kept, other, n));
    assert(l.contains(b));
    if kept.len() == 0 {
        let t = choose|t: int| 0 <= t < b.1.len() && b.1[t] != 0;
        let k = b.0 + t;
        assert(held_by_either(kept, other, k));
        assert(!held(kept, k));
        let j = block_of(other, k);
        assert(holds(other, j, k));
        let (s, e) = (other[j].0, end(other[j]));
        assert(holds(l, i, k));
        lemma_coeff_in(l, n, i, k);
        let part = within(l, s, e);
        lemma_within_wf(l, n, s, e);
        lemma_within_wf(m, n, s, e);
        assert(coeffs_of(l, s, e)[k - s] != 0);
        assert(held(part, k));
        let h = block_of(part, k);
        assert(holds(part, h, k));
        assert(part.contains(part[h]));
        let u = choose|u: int| 0 <= u < l.len() && l[u] == part[h];
        assert(holds(l, u, k));
        lemma_holder(l, n, i, u, k);
        assert(coeffs_of(l, s, e) =~= coeffs_of(m, s, e));
        lemma_compressed_unique(part, within(m, s, e), s, coeffs_of(l, s, e));
        assert(within(m, s, e).contains(b));
    } else {
        assert(b.1.len() > 0);
        let (s, e) = lemma_cluster_of(kept, other, n, b.0, end(b));
        lemma_within_wf(l, n, s, e);
        lemma_within_wf(m, n, s, e);
        assert(within(l, s, e).contains(b));
        assert(coeffs_of(l, s, e) =~= coeffs_of(m, s, e));
        assert(cluster_merged(l, kept, other, n, s, e));
        assert(cluster_merged(m, kept, other, n, s, e));
        if within(other, s, e).len() > 0 && !(s == 0 && e == n && nonzero(coeffs_of(l, s, e))) {
            lemma_compressed_unique(within(l, s, e), within(m, s, e), s, coeffs_of(l, s, e));
        }
        assert(within(m, s, e).contains(b));
    }
}

/// A merge is determined by what is merged and by its coefficients.
pub proof fn lemma_merge_unique(
    l: Seq<Block>,
    m: Seq<Block>,
    kept: Seq<Block>,
    other: Seq<Block>,
    n: int,
)
    requires
        wf(l, n),
        wf(m, n),
        wf(kept, n),
        wf(other, n),
        pruned(l, kept, other, n),
        pruned(m, kept, other, n),
        merge_of(l, kept, other, n),
        merge_of(m, kept, other, n),
        forall|k: int| 0 <= k < n ==> #[trigger] coeff(l, k) == coeff(m, k),
    ensures
        l == m,
{
    assert forall|b: Block| #[trigger] l.contains(b) <==> m.contains(b) by {
        if l.contains(b) {
            let i = choose|i: int| 0 <= i < l.len() && l[i] == b;
            lemma_merged_both(l, m, kept, other, n, i);
        }
        if m.contains(b) {
            let i = choose|i: int| 0 <= i < m.len() && m[i] == b;
            lemma_merged_both(m, l, kept, other, n, i);
        }
    }
    lemma_same_blocks(l, m, n);
}

} // verus!
