//! The coefficients of a polynomial one by one, from either end.
use crate::field::Field;
use crate::layout;
use crate::sparse::runs;
use crate::util::Coefficients;
use vstd::prelude::*;

verus! {

/// The coefficients of a polynomial that have not been yielded yet, from either end.
pub struct CoeffIter<'a, F> {
    blocks: &'a Vec<(usize, Vec<F>)>,
    front: usize,
    back: usize,
    /// No block before this one ends past `front`.
    front_block: usize,
    /// No block from this one on starts before `back`.
    back_block: usize,
}

impl<'a, F: Field> CoeffIter<'a, F> {
    /// What the fields of an iterator have to do with each other.
    pub closed spec fn wf(&self) -> bool {
        &&& layout::wf(runs::lay(self.blocks@), usize::MAX as int)
        &&& self.front <= self.back
        &&& self.front_block <= self.blocks.len()
        &&& self.back_block <= self.blocks.len()
        &&& forall|t: int|
            0 <= t < self.front_block ==> layout::end(#[trigger] runs::lay(self.blocks@)[t]) <= self.front
        &&& forall|t: int|
            self.back_block <= t < self.blocks.len() ==> self.back <= (#[trigger] runs::lay(
                self.blocks@,
            )[t]).0
    }

    /// The coefficients that have not been yielded.
    pub closed spec fn remaining(&self) -> Seq<int> {
        Seq::new(
            (self.back - self.front) as nat,
            |i: int| layout::coeff(runs::lay(self.blocks@), self.front + i),
        )
    }

    /// All of the first `n` coefficients of the blocks.
    pub(super) fn new(blocks: &'a Vec<(usize, Vec<F>)>, n: usize) -> (r: Self)
        requires
            layout::wf(runs::lay(blocks@), n as int),
        ensures
            r.wf(),
            r.remaining() == layout::dense(runs::lay(blocks@), n as nat),
    {
        let r = CoeffIter {
            blocks,
            front: 0,
            back: n,
            front_block: 0,
            back_block: blocks.len(),
        };
        proof {
            layout::lemma_wf_mono(runs::lay(blocks@), n as int, usize::MAX as int);
            assert(r.remaining() =~= layout::dense(runs::lay(blocks@), n as nat));
        }
        r
    }

    /// Yields the coefficient of the lowest degree that is left.
    pub fn next(&mut self) -> (r: Option<F>)
        requires
            old(self).wf(),
        ensures
            final(self).wf(),
            r is None <==> old(self).remaining().len() == 0,
            r is None ==> final(self).remaining() == old(self).remaining(),
            r matches Some(v) ==> v.val() == old(self).remaining()[0] && final(self).remaining()
                == old(self).remaining().skip(1),
    {
        if self.front >= self.back {
            return None;
        }
        let ghost l = runs::lay(self.blocks@);
        let blocks = self.blocks;
        let front: usize = self.front;
        let mut b: usize = self.front_block;
        while b < blocks.len()
            invariant
                l == runs::lay(blocks@),
                layout::wf(l, usize::MAX as int),
                b <= blocks.len(),
                forall|t: int| 0 <= t < b ==> layout::end(#[trigger] l[t]) <= front,
            ensures
                b < blocks.len() ==> front < layout::end(l[b as int]),
            decreases blocks.len() - b,
        {
            assert(l[b as int] == (
                blocks@[b as int].0 as int,
                crate::field::vals(blocks@[b as int].1@),
            ));
            if blocks[b].0 + blocks[b].1.len() > front {
                break;
            }
            b = b + 1;
        }
        self.front_block = b;
        let val = if b < blocks.len() {
            if front >= blocks[b].0 {
                proof {
                    assert(layout::holds(l, b as int, front as int));
                    layout::lemma_coeff_in(l, usize::MAX as int, b as int, front as int);
                }
                blocks[b].1[front - blocks[b].0]
            } else {
                proof {
                    layout::lemma_coeff_out(l, front as int);
                }
                F::zero()
            }
        } else {
            proof {
                layout::lemma_coeff_out(l, front as int);
            }
            F::zero()
        };
        self.front = front + 1;
        proof {
            assert(self.remaining() =~= old(self).remaining().skip(1));
        }
        Some(val)
    }

    /// Yields the coefficient of the highest degree that is left.
    pub fn next_back(&mut self) -> (r: Option<F>)
        requires
            old(self).wf(),
        ensures
            final(self).wf(),
            r is None <==> old(self).remaining().len() == 0,
            r is None ==> final(self).remaining() == old(self).remaining(),
            r matches Some(v) ==> v.val() == old(self).remaining().last()
                && final(self).remaining() == old(self).remaining().drop_last(),
    {
        if self.front >= self.back {
            return None;
        }
        let ghost l = runs::lay(self.blocks@);
        let blocks = self.blocks;
        let back: usize = self.back - 1;
        let mut b: usize = self.back_block;
        while b > 0 && blocks[b - 1].0 > back
            invariant
                l == runs::lay(blocks@),
                layout::wf(l, usize::MAX as int),
                b <= blocks.len(),
                forall|t: int| b <= t < blocks.len() ==> back < (#[trigger] l[t]).0,
            ensures
                b > 0 ==> l[b - 1].0 <= back,
            decreases b,
        {
            b = b - 1;
        }
        self.back_block = b;
        self.back = back;
        let val = if b > 0 {
            assert(l[b - 1] == (blocks@[b - 1].0 as int, crate::field::vals(blocks@[b - 1].1@)));
            if back < blocks[b - 1].0 + blocks[b - 1].1.len() {
                proof {
                    assert(layout::holds(l, b - 1, back as int));
                    layout::lemma_coeff_in(l, usize::MAX as int, b - 1, back as int);
                }
                blocks[b - 1].1[back - blocks[b - 1].0]
            } else {
                proof {
                    layout::lemma_coeff_out(l, back as int);
                }
                F::zero()
            }
        } else {
            proof {
                layout::lemma_coeff_out(l, back as int);
            }
            F::zero()
        };
        proof {
            assert(self.remaining() =~= old(self).remaining().drop_last());
        }
        Some(val)
    }

    /// How many coefficients are left.
    pub fn len(&self) -> (r: usize)
        requires
            self.wf(),
        ensures
            r == self.remaining().len(),
    {
        self.back - self.front
    }

    /// How many coefficients are left: a lower and an upper bound, which agree.
    pub fn size_hint(&self) -> (r: (usize, Option<usize>))
        requires
            self.wf(),
        ensures
            r.0 == self.remaining().len(),
            r.1 == Some(r.0),
    {
        let len: usize = self.back - self.front;
        (len, Some(len))
    }
}

impl<'a, F: Field> Coefficients<F> for CoeffIter<'a, F> {
    open spec fn in_order(&self) -> bool {
        self.wf()
    }

    open spec fn left(&self) -> Seq<int> {
        self.remaining()
    }

    fn take_last(&mut self) -> (r: Option<F>) {
        self.next_back()
    }

    fn count_left(&self) -> (r: usize) {
        self.len()
    }
}

} // verus!
