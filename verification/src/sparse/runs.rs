//! Blocks of coefficients, and how a run of coefficients is cut into them.
use crate::field::Field;
use crate::layout;
use crate::layout::GAP_TOLERANCE;
use vstd::prelude::*;

verus! {

/// The blocks of a list, with their coefficients as integers.
pub open spec fn lay<F: Field>(bs: Seq<(usize, Vec<F>)>) -> Seq<layout::Block> {
    Seq::new(bs.len(), |i: int| (bs[i].0 as int, crate::field::vals(bs[i].1@)))
}

/// The coefficients of a layout are representatives.
pub(super) proof fn lemma_lay_range<F: Field>(bs: Seq<(usize, Vec<F>)>, k: int)
    ensures
        0 <= layout::coeff(lay(bs), k) < F::modulus(),
    decreases bs.len(),
{
    F::lemma_modulus();
    let l = lay(bs);
    if bs.len() > 0 {
        assert(l.drop_last() =~= lay(bs.drop_last()));
        lemma_lay_range(bs.drop_last(), k);
        if l.last().0 <= k < layout::end(l.last()) {
            bs.last().1@[k - bs.last().0].lemma_range();
        }
    }
}

/// The blocks before `i` end at or before `f`, the others start at or behind it.
pub(super) open spec fn parted(l: Seq<layout::Block>, i: int, f: int) -> bool {
    &&& forall|t: int| 0 <= t < i ==> layout::end(#[trigger] l[t]) <= f
    &&& forall|t: int| i <= t < l.len() ==> f <= (#[trigger] l[t]).0
}

/// Between `f` and the first block behind it, no block holds anything; the blocks
/// from `i` to `j` are all that hold an index before `e`.
pub(super) proof fn lemma_parted(l: Seq<layout::Block>, n: int, i: int, j: int, f: int, e: int)
    requires
        layout::wf(l, n),
        parted(l, i, f),
        0 <= i <= j <= l.len(),
        forall|t: int| i <= t < j ==> layout::end(#[trigger] l[t]) <= e,
        forall|t: int| j <= t < l.len() ==> e <= (#[trigger] l[t]).0,
        f <= e,
    ensures
        parted(l, j, e),
        forall|k: int|
            f <= k < e ==> layout::coeff(l, k) == #[trigger] layout::coeff(l.subrange(i, j), k),
{
    assert forall|k: int| f <= k < e implies layout::coeff(l, k) == #[trigger] layout::coeff(
        l.subrange(i, j),
        k,
    ) by {
        assert forall|t: int| layout::holds(l, t, k) implies i <= t < j by {}
        layout::lemma_part_coeff(l, n, i, j, k);
    }
}

/// A copy of a block.
pub(super) fn copy_block<F: Field>(block: &(usize, Vec<F>)) -> (r: (usize, Vec<F>))
    ensures
        r.0 == block.0,
        r.1@ == block.1@,
{
    let mut data: Vec<F> = Vec::with_capacity(block.1.len());
    let mut i: usize = 0;
    while i < block.1.len()
        invariant
            i <= block.1.len(),
            data@ == block.1@.take(i as int),
        decreases block.1.len() - i,
    {
        data.push(block.1[i]);
        proof {
            assert(data@ =~= block.1@.take(i + 1));
        }
        i = i + 1;
    }
    proof {
        assert(data@ =~= block.1@);
    }
    (block.0, data)
}

/// `n` zeros.
pub(super) fn zeros<F: Field>(n: usize) -> (r: Vec<F>)
    ensures
        r.len() == n,
        forall|i: int| 0 <= i < n ==> (#[trigger] r@[i]).val() == 0,
{
    let mut r: Vec<F> = Vec::with_capacity(n);
    while r.len() < n
        invariant
            r.len() <= n,
            forall|i: int| 0 <= i < r.len() ==> (#[trigger] r@[i]).val() == 0,
        decreases n - r.len(),
    {
        r.push(F::zero());
    }
    r
}

/// Appends the coefficients `data`, the first of which has index `base`, to `out` in
/// compressed form: zeros at the ends are trimmed, up to [`GAP_TOLERANCE`] zeros in
/// a row are kept inside a block, and a longer gap splits it.
pub(super) fn extend_runs<F: Field>(out: &mut Vec<(usize, Vec<F>)>, base: usize, data: &Vec<F>)
    requires
        base + data.len() <= usize::MAX,
    ensures
        final(out).len() >= old(out).len(),
        final(out)@.take(old(out).len() as int) == old(out)@,
        layout::compressed(
            lay(final(out)@.skip(old(out).len() as int)),
            base as int,
            crate::field::vals(data@),
        ),
{
    let ghost before = out@;
    let ghost c = crate::field::vals(data@);
    let ghost mut done = Seq::<(usize, Vec<F>)>::empty();
    let mut run_start: Option<usize> = None;
    let mut run: Vec<F> = Vec::new();
    let mut zero_count: usize = 0;
    let mut i: usize = 0;
    proof {
        assert(out@ =~= before + done);
        assert(c.take(0) =~= Seq::<int>::empty());
        assert(lay(done) =~= Seq::<layout::Block>::empty());
    }
    while i < data.len()
        invariant
            i <= data.len(),
            base + data.len() <= usize::MAX,
            c == crate::field::vals(data@),
            out@ == before + done,
            run_start is None ==> {
                &&& run.len() == 0
                &&& zero_count == 0
                &&& layout::compressed(lay(done), base as int, c.take(i as int))
                &&& forall|j: int|
                    0 <= j < done.len() ==> layout::end(#[trigger] lay(done)[j]) + GAP_TOLERANCE
                        < base + i
            },
            run_start matches Some(s) ==> {
                &&& base <= s
                &&& s + run.len() + zero_count == base + i
                &&& zero_count <= GAP_TOLERANCE
                &&& layout::tight(crate::field::vals(run@))
                &&& crate::field::vals(run@) == c.subrange(s - base, s - base + run.len())
                &&& forall|k: int| s - base + run.len() <= k < i ==> #[trigger] c[k] == 0
                &&& layout::compressed(lay(done), base as int, c.take(s - base))
                &&& forall|j: int|
                    0 <= j < done.len() ==> layout::end(#[trigger] lay(done)[j]) + GAP_TOLERANCE < s
            },
        decreases data.len() - i,
    {
        let coeff = data[i];
        assert(c[i as int] == coeff.val());
        match run_start {
            None => {
                if coeff.is_zero() {
                    proof {
                        assert(c.take(i + 1).take(i as int) =~= c.take(i as int));
                        layout::lemma_compressed_zeros(
                            lay(done),
                            base as int,
                            c.take(i as int),
                            c.take(i + 1),
                        );
                    }
                } else {
                    run_start = Some(base + i);
                    run.push(coeff);
                    proof {
                        assert(crate::field::vals(run@) =~= seq![coeff.val()]);
                        assert(crate::field::vals(run@) =~= c.subrange(i as int, i + 1));
                        layout::lemma_tight_single(coeff.val());
                    }
                }
            },
            Some(s) => {
                if coeff.is_zero() {
                    zero_count = zero_count + 1;
                    if zero_count > GAP_TOLERANCE {
                        proof {
                            let b = (s as int, crate::field::vals(run@));
                            let m = s - base;
                            let e = m + run.len();
                            assert(c.take(m) + b.1 =~= c.take(e));
                            layout::lemma_compressed_push(
                                lay(done),
                                base as int,
                                c.take(m),
                                b,
                                c.take(e),
                            );
                            assert(c.take(i + 1).take(e) =~= c.take(e));
                            layout::lemma_compressed_zeros(
                                lay(done).push(b),
                                base as int,
                                c.take(e),
                                c.take(i + 1),
                            );
                            let block = (s, run);
                            assert(lay(done.push(block)) =~= lay(done).push(b));
                            assert(before + done.push(block) =~= (before + done).push(block));
                            done = done.push(block);
                        }
                        out.push((s, run));
                        run = Vec::new();
                        run_start = None;
                        zero_count = 0;
                    }
                } else {
                    let ghost held = run@;
                    let ghost m = s - base;
                    let mut z: usize = 0;
                    while z < zero_count
                        invariant
                            z <= zero_count,
                            run.len() == held.len() + z,
                            run@.take(held.len() as int) == held,
                            forall|j: int|
                                held.len() <= j < run.len() ==> (#[trigger] run@[j]).val() == 0,
                        decreases zero_count - z,
                    {
                        let ghost r = run@;
                        run.push(F::zero());
                        proof {
                            assert(run@.take(held.len() as int) =~= r.take(held.len() as int));
                        }
                        z = z + 1;
                    }
                    let ghost padded = run@;
                    run.push(coeff);
                    zero_count = 0;
                    proof {
                        let a = crate::field::vals(held);
                        let t = crate::field::vals(run@);
                        assert forall|j: int| 0 <= j < held.len() implies run@[j] == held[j] by {
                            assert(padded.take(held.len() as int)[j] == padded[j]);
                        }
                        assert(t.take(a.len() as int) =~= a);
                        layout::lemma_tight_extend(a, t);
                        assert forall|j: int| 0 <= j < t.len() implies t[j] == c[m + j] by {
                            if j < held.len() {
                                assert(a[j] == c.subrange(m, m + held.len())[j]);
                            } else if j < t.len() - 1 {
                                assert(run@[j] == padded[j]);
                                assert(c[m + j] == 0);
                            }
                        }
                        assert(t =~= c.subrange(m, m + run.len()));
                    }
                }
            },
        }
        i = i + 1;
    }
    if let Some(s) = run_start {
        proof {
            let b = (s as int, crate::field::vals(run@));
            let m = s - base;
            let e = m + run.len();
            assert(c.take(m) + b.1 =~= c.take(e));
            layout::lemma_compressed_push(lay(done), base as int, c.take(m), b, c.take(e));
            layout::lemma_compressed_zeros(lay(done).push(b), base as int, c.take(e), c);
            let block = (s, run);
            assert(lay(done.push(block)) =~= lay(done).push(b));
            assert(before + done.push(block) =~= (before + done).push(block));
            done = done.push(block);
        }
        out.push((s, run));
    }
    proof {
        assert(c.take(c.len() as int) =~= c);
        assert(out@.take(before.len() as int) =~= before);
        assert(out@.skip(before.len() as int) =~= done);
    }
}

} // verus!
