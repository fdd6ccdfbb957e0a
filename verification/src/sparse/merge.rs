//! The merge of two polynomials, cluster by cluster of blocks that touch.
use crate::field::Field;
use crate::layout;
use crate::rank::Rank;
use crate::sparse::runs;
use crate::sparse::runs::{copy_block, extend_runs, zeros};
use crate::sparse::Polynomial;
use vstd::prelude::*;

verus! {

/// What two polynomials are merged with.
#[derive(Clone, Copy)]
pub(super) enum Merge {
    Add,
    Sub,
}

impl Merge {
    /// The merged coefficient.
    pub(super) open spec fn of(self, a: int, b: int, p: int) -> int {
        match self {
            Merge::Add => (a + b) % p,
            Merge::Sub => (a - b) % p,
        }
    }

    /// Merges a coefficient with zero.
    proof fn lemma_zero(self, a: int, p: int)
        requires
            0 <= a < p,
        ensures
            self.of(a, 0, p) == a,
    {
        vstd::arithmetic::div_mod::lemma_small_mod(a as nat, p as nat);
    }

    /// Merges two coefficients.
    fn apply<F: Field>(self, a: &F, b: &F) -> (r: F)
        ensures
            r.val() == self.of(a.val(), b.val(), F::modulus()),
    {
        match self {
            Merge::Add => a.add(b),
            Merge::Sub => a.sub(b),
        }
    }
}

/// Where the next cluster of overlapping or adjacent blocks of two lists starts and
/// ends, and which blocks of each list come behind it.
fn next_cluster<F: Field>(
    lhs: &Vec<(usize, Vec<F>)>,
    rhs: &Vec<(usize, Vec<F>)>,
    li: usize,
    ri: usize,
    Ghost(n): Ghost<int>,
) -> (r: (usize, usize, usize, usize))
    requires
        n <= usize::MAX,
        layout::wf(runs::lay(lhs@), n),
        layout::wf(runs::lay(rhs@), n),
        li <= lhs.len(),
        ri <= rhs.len(),
        li < lhs.len() || ri < rhs.len(),
    ensures
        r.0 < r.1 <= n,
        li <= r.2 <= lhs.len(),
        ri <= r.3 <= rhs.len(),
        (li < r.2 && r.0 == runs::lay(lhs@)[li as int].0) || (ri < r.3 && r.0
            == runs::lay(rhs@)[ri as int].0),
        forall|i: int|
            li <= i < r.2 ==> r.0 <= (#[trigger] runs::lay(lhs@)[i]).0 && layout::end(runs::lay(lhs@)[i])
                <= r.1,
        forall|i: int|
            ri <= i < r.3 ==> r.0 <= (#[trigger] runs::lay(rhs@)[i]).0 && layout::end(runs::lay(rhs@)[i])
                <= r.1,
        forall|i: int| r.2 <= i < lhs.len() ==> r.1 < (#[trigger] runs::lay(lhs@)[i]).0,
        forall|i: int| r.3 <= i < rhs.len() ==> r.1 < (#[trigger] runs::lay(rhs@)[i]).0,
        forall|k: int|
            r.0 <= k < r.1 ==> #[trigger] layout::held_by_either(
                runs::lay(lhs@),
                runs::lay(rhs@),
                k,
            ),
{
    let ghost l = runs::lay(lhs@);
    let ghost r = runs::lay(rhs@);
    let start: usize = if li < lhs.len() {
        if ri < rhs.len() && rhs[ri].0 < lhs[li].0 {
            rhs[ri].0
        } else {
            lhs[li].0
        }
    } else {
        rhs[ri].0
    };
    let mut end: usize = start;
    let mut i: usize = li;
    let mut j: usize = ri;
    proof {
        assert(li < lhs.len() ==> l[li as int].0 == lhs[li as int].0);
        assert(ri < rhs.len() ==> r[ri as int].0 == rhs[ri as int].0);
        assert(li < lhs.len() ==> start <= l[li as int].0);
        assert(ri < rhs.len() ==> start <= r[ri as int].0);
    }
    loop
        invariant
            l == runs::lay(lhs@),
            r == runs::lay(rhs@),
            layout::wf(l, n),
            layout::wf(r, n),
            n <= usize::MAX,
            start <= end <= n,
            li <= i <= lhs.len(),
            ri <= j <= rhs.len(),
            i > li || j > ri ==> start < end,
            (li < lhs.len() && start == l[li as int].0) || (ri < rhs.len() && start
                == r[ri as int].0),
            i == li && j == ri ==> (li < lhs.len() && l[li as int].0 <= end) || (ri < rhs.len()
                && r[ri as int].0 <= end),
            li < lhs.len() ==> start <= l[li as int].0,
            ri < rhs.len() ==> start <= r[ri as int].0,
            forall|t: int| li <= t < i ==> layout::end(#[trigger] l[t]) <= end,
            forall|t: int| ri <= t < j ==> layout::end(#[trigger] r[t]) <= end,
            forall|k: int| start <= k < end ==> #[trigger] layout::held_by_either(l, r, k),
        ensures
            i > li || j > ri,
            i < lhs.len() ==> end < l[i as int].0,
            j < rhs.len() ==> end < r[j as int].0,
        decreases (lhs.len() - i) + (rhs.len() - j),
    {
        if i < lhs.len() && lhs[i].0 <= end {
            proof {
                assert(l[i as int] == (lhs[i as int].0 as int, crate::field::vals(lhs[i as int].1@)));
            }
            let e: usize = lhs[i].0 + lhs[i].1.len();
            proof {
                assert forall|k: int| end <= k < e implies #[trigger] layout::held_by_either(
                    l,
                    r,
                    k,
                ) by {
                    assert(layout::holds(l, i as int, k));
                }
            }
            if e > end {
                end = e;
            }
            i = i + 1;
        } else if j < rhs.len() && rhs[j].0 <= end {
            proof {
                assert(r[j as int] == (rhs[j as int].0 as int, crate::field::vals(rhs[j as int].1@)));
            }
            let e: usize = rhs[j].0 + rhs[j].1.len();
            proof {
                assert forall|k: int| end <= k < e implies #[trigger] layout::held_by_either(
                    l,
                    r,
                    k,
                ) by {
                    assert(layout::holds(r, j as int, k));
                }
            }
            if e > end {
                end = e;
            }
            j = j + 1;
        } else {
            proof {
                assert(i < lhs.len() ==> l[i as int].0 == lhs[i as int].0);
                assert(j < rhs.len() ==> r[j as int].0 == rhs[j as int].0);
            }
            break;
        }
    }
    proof {
        assert forall|t: int| li <= t < i implies start <= (#[trigger] l[t]).0 && layout::end(l[t])
            <= end by {
            if t > li {
                assert(layout::end(l[li as int]) <= l[t].0);
            }
        }
        assert forall|t: int| ri <= t < j implies start <= (#[trigger] r[t]).0 && layout::end(r[t])
            <= end by {
            if t > ri {
                assert(layout::end(r[ri as int]) <= r[t].0);
            }
        }
        assert forall|t: int| i <= t < lhs.len() implies end < (#[trigger] l[t]).0 by {
            if t > i {
                assert(layout::end(l[i as int]) <= l[t].0);
            }
        }
        assert forall|t: int| j <= t < rhs.len() implies end < (#[trigger] r[t]).0 by {
            if t > j {
                assert(layout::end(r[j as int]) <= r[t].0);
            }
        }
    }
    (start, end, i, j)
}

/// Copies `src` into `data` from `off` on.
fn overwrite<F: Field>(data: &mut Vec<F>, off: usize, src: &Vec<F>)
    requires
        off + src.len() <= old(data).len(),
    ensures
        final(data).len() == old(data).len(),
        forall|j: int|
            0 <= j < final(data).len() ==> (#[trigger] final(data)@[j]).val() == if off <= j < off
                + src.len() {
                src@[j - off].val()
            } else {
                old(data)@[j].val()
            },
{
    let ghost before = data@;
    let mut i: usize = 0;
    while i < src.len()
        invariant
            i <= src.len(),
            off + src.len() <= data.len(),
            data.len() == before.len(),
            forall|j: int|
                0 <= j < data.len() ==> (#[trigger] data@[j]).val() == if off <= j < off + i {
                    src@[j - off].val()
                } else {
                    before[j].val()
                },
        decreases src.len() - i,
    {
        data.set(off + i, src[i]);
        i = i + 1;
    }
}

/// Merges `src` into `data` from `off` on.
fn merge_into<F: Field>(data: &mut Vec<F>, off: usize, src: &Vec<F>, op: Merge)
    requires
        off + src.len() <= old(data).len(),
    ensures
        final(data).len() == old(data).len(),
        forall|j: int|
            0 <= j < final(data).len() ==> (#[trigger] final(data)@[j]).val() == if off <= j < off
                + src.len() {
                op.of(old(data)@[j].val(), src@[j - off].val(), F::modulus())
            } else {
                old(data)@[j].val()
            },
{
    let ghost before = data@;
    let mut i: usize = 0;
    while i < src.len()
        invariant
            i <= src.len(),
            off + src.len() <= data.len(),
            data.len() == before.len(),
            forall|j: int|
                0 <= j < data.len() ==> (#[trigger] data@[j]).val() == if off <= j < off + i {
                    op.of(before[j].val(), src@[j - off].val(), F::modulus())
                } else {
                    before[j].val()
                },
        decreases src.len() - i,
    {
        let merged = op.apply(&data[off + i], &src[i]);
        data.set(off + i, merged);
        i = i + 1;
    }
}

/// The coefficients of the blocks of `lhs` from `li` to `li_end`, merged with those of
/// the blocks of `rhs` from `ri` to `ri_end`, as one run from `start` to `end`.
fn merge_cluster<F: Field>(
    lhs: &Vec<(usize, Vec<F>)>,
    rhs: &Vec<(usize, Vec<F>)>,
    op: Merge,
    start: usize,
    end: usize,
    li: usize,
    li_end: usize,
    ri: usize,
    ri_end: usize,
    Ghost(n): Ghost<int>,
) -> (data: Vec<F>)
    requires
        n <= usize::MAX,
        layout::wf(runs::lay(lhs@), n),
        layout::wf(runs::lay(rhs@), n),
        start < end <= n,
        li <= li_end <= lhs.len(),
        ri <= ri_end <= rhs.len(),
        forall|i: int|
            li <= i < li_end ==> start <= (#[trigger] runs::lay(lhs@)[i]).0 && layout::end(runs::lay(lhs@)[i])
                <= end,
        forall|i: int|
            ri <= i < ri_end ==> start <= (#[trigger] runs::lay(rhs@)[i]).0 && layout::end(runs::lay(rhs@)[i])
                <= end,
    ensures
        data.len() == end - start,
        forall|j: int|
            0 <= j < data.len() ==> (#[trigger] data@[j]).val() == op.of(
                layout::coeff(runs::lay(lhs@).subrange(li as int, li_end as int), start + j),
                layout::coeff(runs::lay(rhs@).subrange(ri as int, ri_end as int), start + j),
                F::modulus(),
            ),
{
    let ghost l = runs::lay(lhs@);
    let ghost r = runs::lay(rhs@);
    let mut data: Vec<F> = zeros(end - start);
    let mut i: usize = li;
    assert(l.subrange(li as int, li as int) =~= Seq::<layout::Block>::empty());
    while i < li_end
        invariant
            l == runs::lay(lhs@),
            li <= i <= li_end <= lhs.len(),
            start < end,
            data.len() == end - start,
            layout::wf(l, n),
            forall|t: int|
                li <= t < li_end ==> start <= (#[trigger] l[t]).0 && layout::end(l[t]) <= end,
            forall|j: int|
                0 <= j < data.len() ==> (#[trigger] data@[j]).val() == layout::coeff(
                    l.subrange(li as int, i as int),
                    start + j,
                ),
        decreases li_end - i,
    {
        assert(l[i as int] == (lhs@[i as int].0 as int, crate::field::vals(lhs@[i as int].1@)));
        overwrite(&mut data, lhs[i].0 - start, &lhs[i].1);
        proof {
            let s = l.subrange(li as int, i + 1);
            assert(s.drop_last() =~= l.subrange(li as int, i as int));
            assert(s.last() == l[i as int]);
        }
        i = i + 1;
    }
    let ghost ls = l.subrange(li as int, li_end as int);
    let ghost p = F::modulus();
    assert(r.subrange(ri as int, ri as int) =~= Seq::<layout::Block>::empty());
    proof {
        assert(ls =~= runs::lay(lhs@.subrange(li as int, li_end as int)));
        assert forall|j: int| 0 <= j < data.len() implies (#[trigger] data@[j]).val() == op.of(
            layout::coeff(ls, start + j),
            0,
            p,
        ) by {
            runs::lemma_lay_range(lhs@.subrange(li as int, li_end as int), start + j);
            op.lemma_zero(layout::coeff(ls, start + j), p);
        }
    }
    let mut i: usize = ri;
    while i < ri_end
        invariant
            r == runs::lay(rhs@),
            p == F::modulus(),
            ri <= i <= ri_end <= rhs.len(),
            start < end,
            data.len() == end - start,
            layout::wf(r, n),
            ls == runs::lay(lhs@.subrange(li as int, li_end as int)),
            forall|t: int|
                ri <= t < ri_end ==> start <= (#[trigger] r[t]).0 && layout::end(r[t]) <= end,
            forall|j: int|
                0 <= j < data.len() ==> (#[trigger] data@[j]).val() == op.of(
                    layout::coeff(ls, start + j),
                    layout::coeff(r.subrange(ri as int, i as int), start + j),
                    p,
                ),
        decreases ri_end - i,
    {
        assert(r[i as int] == (rhs@[i as int].0 as int, crate::field::vals(rhs@[i as int].1@)));
        let ghost s0 = r.subrange(ri as int, i as int);
        let ghost s = r.subrange(ri as int, i + 1);
        let ghost before = data@;
        merge_into(&mut data, rhs[i].0 - start, &rhs[i].1, op);
        proof {
            assert(s.drop_last() =~= s0);
            assert(s.last() == r[i as int]);
            assert forall|j: int| 0 <= j < data.len() implies (#[trigger] data@[j]).val() == op.of(
                layout::coeff(ls, start + j),
                layout::coeff(s, start + j),
                p,
            ) by {
                let k = start + j;
                if r[i as int].0 <= k < layout::end(r[i as int]) {
                    if layout::held(s0, k) {
                        let t = layout::block_of(s0, k);
                        assert(layout::holds(s0, t, k));
                        assert(s0[t] == r[ri + t]);
                        assert(layout::end(r[ri + t]) <= r[i as int].0);
                    }
                    layout::lemma_coeff_out(s0, k);
                    runs::lemma_lay_range(lhs@.subrange(li as int, li_end as int), k);
                    op.lemma_zero(layout::coeff(ls, k), p);
                    assert(before[j].val() == layout::coeff(ls, k));
                }
            }
        }
        i = i + 1;
    }
    data
}

/// The coefficients of `o` before `f` are those of `l` and `r`, merged.
spec fn merged(
    o: Seq<layout::Block>,
    l: Seq<layout::Block>,
    r: Seq<layout::Block>,
    op: Merge,
    f: int,
    p: int,
) -> bool {
    forall|k: int|
        0 <= k < f ==> #[trigger] layout::coeff(o, k) == op.of(
            layout::coeff(l, k),
            layout::coeff(r, k),
            p,
        )
}

/// Appends merged blocks.
proof fn lemma_merged_append(
    o: Seq<layout::Block>,
    b: Seq<layout::Block>,
    l: Seq<layout::Block>,
    r: Seq<layout::Block>,
    op: Merge,
    f: int,
    start: int,
    e: int,
    p: int,
)
    requires
        p > 0,
        0 <= f <= start <= e,
        layout::wf(o, f),
        layout::wf(b, e),
        forall|t: int| 0 <= t < b.len() ==> start <= (#[trigger] b[t]).0,
        merged(o, l, r, op, f, p),
        forall|k: int|
            f <= k < start ==> #[trigger] layout::coeff(l, k) == 0 && layout::coeff(r, k) == 0,
        forall|k: int|
            start <= k < e ==> #[trigger] layout::coeff(b, k) == op.of(
                layout::coeff(l, k),
                layout::coeff(r, k),
                p,
            ),
    ensures
        layout::wf(o + b, e),
        merged(o + b, l, r, op, e, p),
{
    layout::lemma_concat(o, b, f, e);
    assert forall|k: int| 0 <= k < e implies #[trigger] layout::coeff(o + b, k) == op.of(
        layout::coeff(l, k),
        layout::coeff(r, k),
        p,
    ) by {
        if k < f {
            assert(layout::coeff(o, k) == op.of(layout::coeff(l, k), layout::coeff(r, k), p));
        } else if k < start {
            layout::lemma_coeff_out(b, k);
            op.lemma_zero(0, p);
        } else {
            assert(layout::coeff(b, k) == op.of(layout::coeff(l, k), layout::coeff(r, k), p));
        }
    }
}

/// A cluster that was compressed and appended.
proof fn lemma_runs_appended<F: Field>(
    before: Seq<(usize, Vec<F>)>,
    after: Seq<(usize, Vec<F>)>,
    kept: Seq<layout::Block>,
    other: Seq<layout::Block>,
    n: int,
    start: int,
    c: Seq<int>,
)
    requires
        before.len() <= after.len(),
        after.take(before.len() as int) == before,
        layout::compressed(runs::lay(after.skip(before.len() as int)), start, c),
        layout::pruned(runs::lay(before), kept, other, n),
        forall|k: int|
            start <= k < start + c.len() ==> #[trigger] layout::held_by_either(kept, other, k),
        0 <= start,
    ensures
        runs::lay(after) == runs::lay(before) + runs::lay(after.skip(before.len() as int)),
        layout::wf(runs::lay(after.skip(before.len() as int)), start + c.len()),
        forall|t: int|
            0 <= t < after.len() - before.len() ==> start <= (#[trigger] runs::lay(
                after.skip(before.len() as int),
            )[t]).0,
        forall|k: int|
            start <= k < start + c.len() ==> #[trigger] layout::coeff(
                runs::lay(after.skip(before.len() as int)),
                k,
            ) == c[k - start],
        layout::pruned(runs::lay(after), kept, other, n),
{
    let m = before.len() as int;
    let b = runs::lay(after.skip(m));
    assert forall|i: int| 0 <= i < m implies #[trigger] after[i] == before[i] by {
        assert(after.take(m)[i] == after[i]);
    }
    assert(runs::lay(after) =~= runs::lay(before) + b);
    layout::lemma_compressed_wf(b, start, c);
    assert forall|k: int| start <= k < start + c.len() implies #[trigger] layout::coeff(b, k)
        == c[k - start] by {
        layout::lemma_compressed_coeff(b, start, c, k);
    }
    assert forall|i: int| 0 <= i < b.len() implies layout::merged_block(
        #[trigger] b[i],
        kept,
        other,
        n,
    ) by {
        assert(layout::tight(b[i].1));
        assert(b[i].1[0] != 0);
    }
    layout::lemma_pruned_append(runs::lay(before), b, kept, other, n);
}

/// Nothing is left to merge that starts at or before `f`, unless nothing is merged yet.
spec fn cleared(
    l: Seq<layout::Block>,
    r: Seq<layout::Block>,
    i: int,
    j: int,
    f: int,
) -> bool {
    ||| i == 0 && j == 0
    ||| {
        &&& forall|t: int| i <= t < l.len() ==> f < (#[trigger] l[t]).0
        &&& forall|t: int| j <= t < r.len() ==> f < (#[trigger] r[t]).0
    }
}

/// What comes next, up to a gap in both lists, is a cluster.
proof fn lemma_cluster(
    l: Seq<layout::Block>,
    r: Seq<layout::Block>,
    n: int,
    i: int,
    j: int,
    i_end: int,
    j_end: int,
    f: int,
    s: int,
    e: int,
)
    requires
        layout::wf(l, n),
        layout::wf(r, n),
        0 <= i <= i_end <= l.len(),
        0 <= j <= j_end <= r.len(),
        runs::parted(l, i, f),
        runs::parted(r, j, f),
        cleared(l, r, i, j, f),
        (i < i_end && s == l[i].0) || (j < j_end && s == r[j].0),
        s < e,
        forall|t: int| i <= t < i_end ==> layout::inside(#[trigger] l[t], s, e),
        forall|t: int| j <= t < j_end ==> layout::inside(#[trigger] r[t], s, e),
        forall|t: int| i_end <= t < l.len() ==> e < (#[trigger] l[t]).0,
        forall|t: int| j_end <= t < r.len() ==> e < (#[trigger] r[t]).0,
        forall|k: int| s <= k < e ==> #[trigger] layout::held_by_either(l, r, k),
    ensures
        f <= s,
        layout::cluster(l, r, s, e),
        forall|k: int| f <= k < s ==> !#[trigger] layout::held_by_either(l, r, k),
        layout::within(l, s, e) == l.subrange(i, i_end),
        layout::within(r, s, e) == r.subrange(j, j_end),
{
    assert forall|k: int| (f <= k < s || k == s - 1 || k == e) implies !#[trigger]
        layout::held_by_either(l, r, k) by {
        if layout::held(l, k) {
            let t = layout::block_of(l, k);
            assert(layout::holds(l, t, k));
        }
        if layout::held(r, k) {
            let t = layout::block_of(r, k);
            assert(layout::holds(r, t, k));
        }
    }
    layout::lemma_within_part(l, n, s, e, i, i_end);
    layout::lemma_within_part(r, n, s, e, j, j_end);
}

/// A block of the left side that passes through, or is dropped because it is all zero.
proof fn lemma_block_passed<F: Field>(
    o: Seq<layout::Block>,
    lhs: Seq<(usize, Vec<F>)>,
    r: Seq<layout::Block>,
    op: Merge,
    i: int,
    j: int,
    f: int,
    n: int,
)
    requires
        0 <= f,
        0 <= i < lhs.len(),
        0 <= j <= r.len(),
        layout::wf(o, f),
        layout::wf(runs::lay(lhs), n),
        layout::wf(r, n),
        runs::parted(runs::lay(lhs), i, f),
        runs::parted(r, j, f),
        forall|t: int| j <= t < r.len() ==> layout::end(runs::lay(lhs)[i]) <= (#[trigger] r[t]).0,
        merged(o, runs::lay(lhs), r, op, f, F::modulus()),
        layout::pruned(o, runs::lay(lhs), r, n),
    ensures
        runs::parted(runs::lay(lhs), i + 1, layout::end(runs::lay(lhs)[i])),
        runs::parted(r, j, layout::end(runs::lay(lhs)[i])),
        layout::wf(o + layout::unless_zero(runs::lay(lhs)[i]), layout::end(runs::lay(lhs)[i])),
        merged(
            o + layout::unless_zero(runs::lay(lhs)[i]),
            runs::lay(lhs),
            r,
            op,
            layout::end(runs::lay(lhs)[i]),
            F::modulus(),
        ),
        layout::pruned(o + layout::unless_zero(runs::lay(lhs)[i]), runs::lay(lhs), r, n),
{
    F::lemma_modulus();
    let l = runs::lay(lhs);
    let e = layout::end(l[i]);
    let b = layout::unless_zero(l[i]);
    let p = F::modulus();
    runs::lemma_parted(l, n, i, i + 1, f, e);
    runs::lemma_parted(r, n, j, j, f, e);
    assert forall|k: int| l[i].0 <= k < e implies #[trigger] layout::coeff(b, k) == op.of(
        layout::coeff(l, k),
        layout::coeff(r, k),
        p,
    ) by {
        assert(layout::holds(l, i, k));
        layout::lemma_coeff_in(l, n, i, k);
        if layout::nonzero(l[i].1) {
            assert(layout::holds(b, 0, k));
            layout::lemma_coeff_in(b, n, 0, k);
        } else {
            layout::lemma_coeff_out(b, k);
            assert(l[i].1[k - l[i].0] == 0);
        }
        layout::lemma_coeff_out(r, k);
        runs::lemma_lay_range(lhs, k);
        op.lemma_zero(layout::coeff(l, k), p);
    }
    assert forall|k: int| f <= k < l[i].0 implies #[trigger] layout::coeff(l, k) == 0
        && layout::coeff(r, k) == 0 by {
        layout::lemma_coeff_out(l, k);
        layout::lemma_coeff_out(r, k);
    }
    lemma_merged_append(o, b, l, r, op, f, l[i].0, e, p);
    assert(l.contains(l[i]));
    assert forall|k: int| l[i].0 <= k < e implies #[trigger] layout::held_by_either(l, r, k) by {
        assert(layout::holds(l, i, k));
    }
    layout::lemma_pruned_append(o, b, l, r, n);
}

/// The blocks of `l` before `i` and those of `r` before `j`, which end by `f`, are merged
/// into `o`, and the others start behind.
spec fn frontier(
    o: Seq<layout::Block>,
    l: Seq<layout::Block>,
    r: Seq<layout::Block>,
    op: Merge,
    p: int,
    n: int,
    i: int,
    j: int,
    f: int,
) -> bool {
    &&& 0 <= f <= n
    &&& runs::parted(l, i, f)
    &&& runs::parted(r, j, f)
    &&& layout::wf(o, f)
    &&& merged(o, l, r, op, f, p)
    &&& layout::pruned(o, l, r, n)
}

/// At the start, nothing is merged.
proof fn lemma_none_merged(
    o: Seq<layout::Block>,
    l: Seq<layout::Block>,
    r: Seq<layout::Block>,
    n: int,
)
    requires
        layout::wf(l, n),
        layout::wf(r, n),
    ensures
        layout::merged_until(o, l, r, n, 0),
{
    assert forall|s: int, e: int| #[trigger]
        layout::cluster(l, r, s, e) && e <= 0 implies layout::cluster_merged(
        o,
        l,
        r,
        n,
        s,
        e,
    ) by {
        assert(layout::held_by_either(l, r, e - 1));
        if layout::held(l, e - 1) {
            let t = layout::block_of(l, e - 1);
            assert(layout::holds(l, t, e - 1));
        } else {
            let t = layout::block_of(r, e - 1);
            assert(layout::holds(r, t, e - 1));
        }
    }
}

/// Appends the blocks from `i` to `i_end` that are not all zero.
fn pass_blocks<F: Field>(
    out: &mut Vec<(usize, Vec<F>)>,
    lhs: &Vec<(usize, Vec<F>)>,
    i: usize,
    i_end: usize,
)
    requires
        i <= i_end <= lhs.len(),
    ensures
        runs::lay(final(out)@) == runs::lay(old(out)@) + layout::drop_zero(
            runs::lay(lhs@).subrange(i as int, i_end as int),
        ),
{
    let ghost l = runs::lay(lhs@);
    let ghost o = runs::lay(out@);
    let mut t: usize = i;
    proof {
        assert(l.subrange(i as int, i as int) =~= Seq::<layout::Block>::empty());
        assert(o + layout::drop_zero(l.subrange(i as int, i as int)) =~= o);
    }
    while t < i_end
        invariant
            i <= t <= i_end <= lhs.len(),
            l == runs::lay(lhs@),
            runs::lay(out@) == o + layout::drop_zero(l.subrange(i as int, t as int)),
        decreases i_end - t,
    {
        let ghost before = out@;
        assert(l[t as int].1 == crate::field::vals(lhs@[t as int].1@));
        if has_nonzero(&lhs[t].1) {
            let block = copy_block(&lhs[t]);
            out.push(block);
        }
        proof {
            let b = l[t as int];
            let s = l.subrange(i as int, t + 1);
            assert(runs::lay(out@) =~= runs::lay(before) + layout::unless_zero(b));
            assert(s.drop_last() =~= l.subrange(i as int, t as int));
            assert(s.last() == b);
            assert((o + layout::drop_zero(s.drop_last())) + layout::unless_zero(b) =~= o
                + layout::drop_zero(s));
        }
        t = t + 1;
    }
}

/// Appends the coefficients of a cluster, the first of which has index `start`: as one block,
/// where they are all of the `n` coefficients and not all zero, and else in compressed form.
fn store_cluster<F: Field>(
    out: &mut Vec<(usize, Vec<F>)>,
    n: usize,
    start: usize,
    data: Vec<F>,
)
    requires
        start + data.len() <= usize::MAX,
    ensures
        final(out).len() >= old(out).len(),
        final(out)@.take(old(out).len() as int) == old(out)@,
        stored_as(
            runs::lay(final(out)@.skip(old(out).len() as int)),
            n as int,
            start as int,
            crate::field::vals(data@),
        ),
{
    let ghost c = crate::field::vals(data@);
    let ghost before = out@;
    if start == 0 && data.len() == n && has_nonzero(&data) {
        out.push((start, data));
        proof {
            assert(out@.take(before.len() as int) =~= before);
            assert(runs::lay(out@.skip(before.len() as int)) =~= seq![(start as int, c)]);
        }
    } else {
        extend_runs(out, start, &data);
    }
}

/// How the coefficients of a cluster are stored.
spec fn stored_as(b: Seq<layout::Block>, n: int, start: int, c: Seq<int>) -> bool {
    if start == 0 && c.len() == n && layout::nonzero(c) {
        b == seq![(start, c)]
    } else {
        layout::compressed(b, start, c)
    }
}

/// The blocks of the left side from `i` to `i_end` pass through, or are dropped because they
/// are all zero.
proof fn lemma_blocks_passed<F: Field>(
    o: Seq<layout::Block>,
    lhs: Seq<(usize, Vec<F>)>,
    r: Seq<layout::Block>,
    op: Merge,
    i: int,
    i_end: int,
    j: int,
    f: int,
    n: int,
)
    requires
        0 <= i <= i_end <= lhs.len(),
        0 <= j <= r.len(),
        layout::wf(runs::lay(lhs), n),
        layout::wf(r, n),
        frontier(o, runs::lay(lhs), r, op, F::modulus(), n, i, j, f),
        forall|t: int, u: int|
            i <= t < i_end && j <= u < r.len() ==> layout::end(#[trigger] runs::lay(lhs)[t]) <= (
            #[trigger] r[u]).0,
    ensures
        frontier(
            o + layout::drop_zero(runs::lay(lhs).subrange(i, i_end)),
            runs::lay(lhs),
            r,
            op,
            F::modulus(),
            n,
            i_end,
            j,
            if i == i_end {
                f
            } else {
                layout::end(runs::lay(lhs)[i_end - 1])
            },
        ),
    decreases i_end - i,
{
    let l = runs::lay(lhs);
    let s = l.subrange(i, i_end);
    if i == i_end {
        assert(s =~= Seq::<layout::Block>::empty());
        assert(o + layout::drop_zero(s) =~= o);
    } else {
        let m = i_end - 1;
        lemma_blocks_passed::<F>(o, lhs, r, op, i, m, j, f, n);
        let before = l.subrange(i, m);
        let g = if i == m {
            f
        } else {
            layout::end(l[m - 1])
        };
        let o1 = o + layout::drop_zero(before);
        lemma_block_passed::<F>(o1, lhs, r, op, m, j, g, n);
        assert(s.drop_last() =~= before);
        assert(s.last() == l[m]);
        assert(o1 + layout::unless_zero(l[m]) =~= o + layout::drop_zero(s));
    }
}

/// A cluster of blocks of the left side alone is merged.
proof fn lemma_cluster_passed<F: Field>(
    o: Seq<layout::Block>,
    lhs: Seq<(usize, Vec<F>)>,
    r: Seq<layout::Block>,
    op: Merge,
    i: int,
    i_end: int,
    j: int,
    f: int,
    n: int,
    s: int,
    e: int,
)
    requires
        0 <= i < i_end <= lhs.len(),
        0 <= j <= r.len(),
        layout::wf(runs::lay(lhs), n),
        layout::wf(r, n),
        frontier(o, runs::lay(lhs), r, op, F::modulus(), n, i, j, f),
        layout::merged_until(o, runs::lay(lhs), r, n, f),
        f <= s,
        e <= n,
        layout::cluster(runs::lay(lhs), r, s, e),
        layout::within(runs::lay(lhs), s, e) == runs::lay(lhs).subrange(i, i_end),
        layout::within(r, s, e) == r.subrange(j, j),
        forall|k: int|
            f <= k < s ==> !#[trigger] layout::held_by_either(runs::lay(lhs), r, k),
        forall|t: int|
            i <= t < i_end ==> layout::inside(#[trigger] runs::lay(lhs)[t], s, e),
        forall|t: int| i_end <= t < lhs.len() ==> e < (#[trigger] runs::lay(lhs)[t]).0,
        forall|t: int| j <= t < r.len() ==> e < (#[trigger] r[t]).0,
    ensures
        frontier(
            o + layout::drop_zero(runs::lay(lhs).subrange(i, i_end)),
            runs::lay(lhs),
            r,
            op,
            F::modulus(),
            n,
            i_end,
            j,
            e,
        ),
        layout::merged_until(
            o + layout::drop_zero(runs::lay(lhs).subrange(i, i_end)),
            runs::lay(lhs),
            r,
            n,
            e,
        ),
{
    let l = runs::lay(lhs);
    let part = l.subrange(i, i_end);
    let b = layout::drop_zero(part);
    let g = layout::end(l[i_end - 1]);
    lemma_blocks_passed::<F>(o, lhs, r, op, i, i_end, j, f, n);
    assert(g == e) by {
        if g < e {
            assert(layout::held_by_either(l, r, g));
            if layout::held(l, g) {
                let t = layout::block_of(l, g);
                assert(layout::holds(l, t, g));
            } else {
                let t = layout::block_of(r, g);
                assert(layout::holds(r, t, g));
            }
        }
    }
    assert forall|t: int| 0 <= t < part.len() implies layout::inside(#[trigger] part[t], s, e) by {
        assert(part[t] == l[i + t]);
    }
    layout::lemma_drop_zero_inside(part, s, e);
    let whole = o + b;
    layout::lemma_part(whole, e, o.len() as int, whole.len() as int);
    assert(whole.subrange(o.len() as int, whole.len() as int) =~= b);
    layout::lemma_appended_part(o, b, f, s, e);
    layout::lemma_cluster_appended(o, b, l, r, n, f, s, e);
}

/// A cluster with blocks of the right side is merged.
proof fn lemma_cluster_stored(
    o: Seq<layout::Block>,
    b: Seq<layout::Block>,
    l: Seq<layout::Block>,
    r: Seq<layout::Block>,
    op: Merge,
    i: int,
    i_end: int,
    j: int,
    j_end: int,
    f: int,
    n: int,
    p: int,
    s: int,
    e: int,
    c: Seq<int>,
)
    requires
        p > 0,
        0 <= i <= i_end <= l.len(),
        0 <= j <= j_end <= r.len(),
        layout::wf(l, n),
        layout::wf(r, n),
        frontier(o, l, r, op, p, n, i, j, f),
        layout::merged_until(o, l, r, n, f),
        f <= s,
        e <= n,
        layout::cluster(l, r, s, e),
        layout::within(r, s, e).len() > 0,
        forall|k: int| f <= k < s ==> !#[trigger] layout::held_by_either(l, r, k),
        runs::parted(l, i_end, e),
        runs::parted(r, j_end, e),
        c.len() == e - s,
        forall|k: int|
            s <= k < e ==> #[trigger] c[k - s] == op.of(
                layout::coeff(l, k),
                layout::coeff(r, k),
                p,
            ),
        stored_as(b, n, s, c),
    ensures
        frontier(o + b, l, r, op, p, n, i_end, j_end, e),
        layout::merged_until(o + b, l, r, n, e),
{
    if s == 0 && e == n && layout::nonzero(c) {
        assert forall|k: int| s <= k < e implies #[trigger] layout::coeff(b, k) == c[k - s] by {
            assert(layout::coeff(Seq::<layout::Block>::empty(), k) == 0);
            assert(b.last() == (s, c));
        }
        assert(layout::wf(b, e));
        assert(layout::pruned(b, l, r, n));
    } else {
        layout::lemma_compressed_wf(b, s, c);
        assert forall|k: int| s <= k < e implies #[trigger] layout::coeff(b, k) == c[k - s] by {
            layout::lemma_compressed_coeff(b, s, c, k);
        }
        assert forall|t: int| 0 <= t < b.len() implies layout::merged_block(
            #[trigger] b[t],
            l,
            r,
            n,
        ) by {
            assert(layout::tight(b[t].1));
            assert(b[t].1[0] != 0);
        }
    }
    layout::lemma_pruned_append(o, b, l, r, n);
    assert forall|k: int| f <= k < s implies #[trigger] layout::coeff(l, k) == 0
        && layout::coeff(r, k) == 0 by {
        assert(!layout::held_by_either(l, r, k));
        layout::lemma_coeff_out(l, k);
        layout::lemma_coeff_out(r, k);
    }
    assert forall|k: int| s <= k < e implies #[trigger] layout::coeff(b, k) == op.of(
        layout::coeff(l, k),
        layout::coeff(r, k),
        p,
    ) by {
        assert(layout::coeff(b, k) == c[k - s]);
    }
    lemma_merged_append(o, b, l, r, op, f, s, e, p);
    layout::lemma_appended_part(o, b, f, s, e);
    assert(layout::coeffs_of(b, s, e) =~= c);
    layout::lemma_cluster_appended(o, b, l, r, n, f, s, e);
}

/// Where no block is all zero, none of those between two indices is.
proof fn lemma_within_nonzero(l: Seq<layout::Block>, s: int, e: int)
    requires
        forall|i: int| 0 <= i < l.len() ==> layout::nonzero((#[trigger] l[i]).1),
    ensures
        forall|i: int|
            0 <= i < layout::within(l, s, e).len() ==> layout::nonzero(
                (#[trigger] layout::within(l, s, e)[i]).1,
            ),
    decreases l.len(),
{
    if l.len() > 0 {
        let m = l.drop_last();
        assert forall|i: int| 0 <= i < m.len() implies layout::nonzero((#[trigger] m[i]).1) by {
            assert(m[i] == l[i]);
        }
        lemma_within_nonzero(m, s, e);
        let (w, x) = (layout::within(l, s, e), layout::within(m, s, e));
        assert(layout::nonzero(l[l.len() - 1].1));
        assert forall|i: int| 0 <= i < w.len() implies layout::nonzero((#[trigger] w[i]).1) by {
            if i < x.len() {
                assert(w[i] == x[i]);
            }
        }
    }
}

/// Whether some coefficient is not zero.
fn has_nonzero<F: Field>(data: &Vec<F>) -> (found: bool)
    ensures
        found <==> layout::nonzero(crate::field::vals(data@)),
{
    let ghost c = crate::field::vals(data@);
    let mut i: usize = 0;
    while i < data.len()
        invariant
            i <= data.len(),
            c == crate::field::vals(data@),
            forall|t: int| 0 <= t < i ==> #[trigger] c[t] == 0,
        decreases data.len() - i,
    {
        if !data[i].is_zero() {
            assert(c[i as int] != 0);
            return true;
        }
        i = i + 1;
    }
    false
}

/// Whether no block is all zero.
fn all_nonzero<F: Field>(blocks: &Vec<(usize, Vec<F>)>) -> (r: bool)
    ensures
        r <==> forall|i: int|
            0 <= i < blocks.len() ==> layout::nonzero((#[trigger] runs::lay(blocks@)[i]).1),
{
    let ghost l = runs::lay(blocks@);
    let mut i: usize = 0;
    while i < blocks.len()
        invariant
            i <= blocks.len(),
            l == runs::lay(blocks@),
            forall|t: int| 0 <= t < i ==> layout::nonzero((#[trigger] l[t]).1),
        decreases blocks.len() - i,
    {
        assert(l[i as int].1 == crate::field::vals(blocks@[i as int].1@));
        if !has_nonzero(&blocks[i].1) {
            return false;
        }
        i = i + 1;
    }
    true
}

impl<F: Field, R: Rank> Polynomial<F, R> {
    /// Merges another polynomial into this one. Blocks that are all zero are pruned, and so
    /// are the zeros of the blocks that changed.
    pub(super) fn combine_assign(&mut self, other: &Self, op: Merge)
        requires
            old(self).wf(),
            other.wf(),
        ensures
            final(self).wf(),
            forall|k: int|
                0 <= k < 4 * R::gates() ==> #[trigger] final(self)@[k] == op.of(
                    old(self)@[k],
                    other@[k],
                    F::modulus(),
                ),
            layout::pruned(
                final(self).layout(),
                old(self).layout(),
                other.layout(),
                4 * R::gates() as int,
            ),
            layout::merge_of(
                final(self).layout(),
                old(self).layout(),
                other.layout(),
                4 * R::gates() as int,
            ),
    {
        let n: usize = R::num_coeffs();
        let ghost p = F::modulus();
        let ghost l = self.layout();
        let ghost r = other.layout();
        proof {
            R::lemma_gates();
            F::lemma_modulus();
        }
        if other.blocks.len() == 0 && all_nonzero(&self.blocks) {
            proof {
                assert forall|i: int| 0 <= i < l.len() implies layout::merged_block(
                    #[trigger] l[i],
                    l,
                    r,
                    n as int,
                ) by {
                    assert(l.contains(l[i]));
                    assert forall|k: int|
                        l[i].0 <= k < layout::end(l[i]) implies #[trigger] layout::held_by_either(
                        l,
                        r,
                        k,
                    ) by {
                        assert(layout::holds(l, i, k));
                    }
                }
                assert forall|k: int| 0 <= k < 4 * R::gates() implies #[trigger] self@[k] == op.of(
                    self@[k],
                    other@[k],
                    p,
                ) by {
                    self.lemma_range(k);
                    op.lemma_zero(self@[k], p);
                    layout::lemma_coeff_out(r, k);
                }
                assert forall|s: int, e: int| #[trigger]
                    layout::cluster(l, r, s, e) implies layout::cluster_merged(
                    l,
                    l,
                    r,
                    n as int,
                    s,
                    e,
                ) by {
                    layout::lemma_within_none(r, s, e);
                    lemma_within_nonzero(l, s, e);
                    layout::lemma_drop_zero_none(layout::within(l, s, e));
                }
            }
            return;
        }
        let mut out: Vec<(usize, Vec<F>)> = Vec::new();
        let ghost mut f: int = 0;
        let rhs = &other.blocks;
        assert(runs::lay(out@) =~= Seq::<layout::Block>::empty());
        if self.blocks.len() == 0 {
            let mut ri: usize = 0;
            while ri < rhs.len()
                invariant
                    n == 4 * R::gates(),
                    n <= usize::MAX,
                    p == F::modulus(),
                    p > 2,
                    l.len() == 0,
                    r == runs::lay(rhs@),
                    layout::wf(r, n as int),
                    ri <= rhs.len(),
                    runs::parted(r, ri as int, f),
                    0 <= f <= n,
                    layout::wf(runs::lay(out@), f),
                    merged(runs::lay(out@), l, r, op, f, p),
                    layout::pruned(runs::lay(out@), l, r, n as int),
                    forall|i: int|
                        0 <= i < ri ==> layout::compressed(
                            layout::within(
                                runs::lay(out@),
                                (#[trigger] r[i]).0,
                                layout::end(r[i]),
                            ),
                            r[i].0,
                            layout::coeffs_of(runs::lay(out@), r[i].0, layout::end(r[i])),
                        ),
                decreases rhs.len() - ri,
            {
                assert(r[ri as int] == (
                    rhs@[ri as int].0 as int,
                    crate::field::vals(rhs@[ri as int].1@),
                ));
                let s: usize = rhs[ri].0;
                let mut v: Vec<F> = zeros(rhs[ri].1.len());
                merge_into(&mut v, 0, &rhs[ri].1, op);
                let ghost before = out@;
                extend_runs(&mut out, s, &v);
                proof {
                    let e = layout::end(r[ri as int]);
                    let c = crate::field::vals(v@);
                    let b = runs::lay(out@.skip(before.len() as int));
                    runs::lemma_parted(r, n as int, ri as int, ri + 1, f, e);
                    assert forall|k: int| s <= k < e implies #[trigger] layout::held_by_either(
                        l,
                        r,
                        k,
                    ) by {
                        assert(layout::holds(r, ri as int, k));
                    }
                    lemma_runs_appended(before, out@, l, r, n as int, s as int, c);
                    assert forall|k: int| s <= k < e implies #[trigger] layout::coeff(b, k)
                        == op.of(layout::coeff(l, k), layout::coeff(r, k), p) by {
                        assert(layout::holds(r, ri as int, k));
                        layout::lemma_coeff_in(r, n as int, ri as int, k);
                        layout::lemma_coeff_out(l, k);
                        assert(c[k - s] == v@[k - s].val());
                    }
                    assert forall|k: int| f <= k < s implies #[trigger] layout::coeff(l, k) == 0
                        && layout::coeff(r, k) == 0 by {
                        layout::lemma_coeff_out(l, k);
                        layout::lemma_coeff_out(r, k);
                    }
                    lemma_merged_append(runs::lay(before), b, l, r, op, f, s as int, e, p);
                    let o = runs::lay(before);
                    layout::lemma_appended_part(o, b, f, s as int, e);
                    assert(layout::coeffs_of(b, s as int, e) =~= c);
                    layout::lemma_concat(o, b, f, e);
                    assert forall|i: int| 0 <= i <= ri implies layout::compressed(
                        layout::within(o + b, (#[trigger] r[i]).0, layout::end(r[i])),
                        r[i].0,
                        layout::coeffs_of(o + b, r[i].0, layout::end(r[i])),
                    ) by {
                        if i < ri {
                            let (s1, e1) = (r[i].0, layout::end(r[i]));
                            layout::lemma_within_append(o, b, s1, e1);
                            assert forall|t: int| 0 <= t < b.len() implies !layout::inside(
                                #[trigger] b[t],
                                s1,
                                e1,
                            ) by {}
                            layout::lemma_within_none(b, s1, e1);
                            assert(layout::within(o, s1, e1) + Seq::<layout::Block>::empty()
                                =~= layout::within(o, s1, e1));
                            assert(layout::coeffs_of(o + b, s1, e1) =~= layout::coeffs_of(
                                o,
                                s1,
                                e1,
                            ));
                        }
                    }
                    f = e;
                }
                ri = ri + 1;
            }
        } else {
            let mut lhs: Vec<(usize, Vec<F>)> = Vec::new();
            core::mem::swap(&mut lhs, &mut self.blocks);
            let mut li: usize = 0;
            let mut ri: usize = 0;
            proof {
                lemma_none_merged(runs::lay(out@), l, r, n as int);
            }
            while li < lhs.len() || ri < rhs.len()
                invariant
                    n == 4 * R::gates(),
                    n <= usize::MAX,
                    p == F::modulus(),
                    p > 2,
                    l == runs::lay(lhs@),
                    r == runs::lay(rhs@),
                    layout::wf(l, n as int),
                    layout::wf(r, n as int),
                    li <= lhs.len(),
                    ri <= rhs.len(),
                    cleared(l, r, li as int, ri as int, f),
                    frontier(runs::lay(out@), l, r, op, p, n as int, li as int, ri as int, f),
                    layout::merged_until(runs::lay(out@), l, r, n as int, f),
                decreases (lhs.len() - li) + (rhs.len() - ri),
            {
                let (start, end, li_end, ri_end) = next_cluster(&lhs, rhs, li, ri, Ghost(n as int));
                let ghost before = runs::lay(out@);
                proof {
                    lemma_cluster(
                        l,
                        r,
                        n as int,
                        li as int,
                        ri as int,
                        li_end as int,
                        ri_end as int,
                        f,
                        start as int,
                        end as int,
                    );
                }
                if ri_end == ri {
                    pass_blocks(&mut out, &lhs, li, li_end);
                    proof {
                        lemma_cluster_passed::<F>(
                            before,
                            lhs@,
                            r,
                            op,
                            li as int,
                            li_end as int,
                            ri as int,
                            f,
                            n as int,
                            start as int,
                            end as int,
                        );
                    }
                } else {
                    let data = merge_cluster(
                        &lhs,
                        rhs,
                        op,
                        start,
                        end,
                        li,
                        li_end,
                        ri,
                        ri_end,
                        Ghost(n as int),
                    );
                    let ghost c = crate::field::vals(data@);
                    proof {
                        runs::lemma_parted(l, n as int, li as int, li_end as int, f, end as int);
                        runs::lemma_parted(r, n as int, ri as int, ri_end as int, f, end as int);
                        assert forall|k: int| start <= k < end implies #[trigger] c[k - start]
                            == op.of(layout::coeff(l, k), layout::coeff(r, k), p) by {
                            assert(c[k - start] == data@[k - start].val());
                            assert(layout::coeff(l, k) == layout::coeff(
                                l.subrange(li as int, li_end as int),
                                k,
                            ));
                            assert(layout::coeff(r, k) == layout::coeff(
                                r.subrange(ri as int, ri_end as int),
                                k,
                            ));
                        }
                    }
                    let ghost old_out = out@;
                    store_cluster(&mut out, n, start, data);
                    proof {
                        let b = runs::lay(out@.skip(old_out.len() as int));
                        assert forall|t: int| 0 <= t < old_out.len() implies #[trigger] out@[t]
                            == old_out[t] by {
                            assert(out@.take(old_out.len() as int)[t] == out@[t]);
                        }
                        assert(runs::lay(out@) =~= before + b);
                        assert(layout::within(r, start as int, end as int)[0] == r[ri as int]);
                        lemma_cluster_stored(
                            before,
                            b,
                            l,
                            r,
                            op,
                            li as int,
                            li_end as int,
                            ri as int,
                            ri_end as int,
                            f,
                            n as int,
                            p,
                            start as int,
                            end as int,
                            c,
                        );
                    }
                }
                li = li_end;
                ri = ri_end;
                proof {
                    f = end as int;
                }
            }
        }
        proof {
            let o = runs::lay(out@);
            if l.len() > 0 {
                assert forall|s: int, e: int| #[trigger]
                    layout::cluster(l, r, s, e) implies layout::cluster_merged(
                    o,
                    l,
                    r,
                    n as int,
                    s,
                    e,
                ) by {
                    assert(layout::held_by_either(l, r, e - 1));
                    if layout::held(l, e - 1) {
                        let t = layout::block_of(l, e - 1);
                        assert(layout::holds(l, t, e - 1));
                    } else {
                        let t = layout::block_of(r, e - 1);
                        assert(layout::holds(r, t, e - 1));
                    }
                }
            }
            assert forall|k: int| 0 <= k < n implies #[trigger] layout::coeff(o, k) == op.of(
                layout::coeff(l, k),
                layout::coeff(r, k),
                p,
            ) by {
                if k >= f {
                    layout::lemma_coeff_out(l, k);
                    layout::lemma_coeff_out(r, k);
                    layout::lemma_coeff_out(o, k);
                    op.lemma_zero(0, p);
                }
            }
        }
        self.blocks = out;
    }
}

} // verus!
