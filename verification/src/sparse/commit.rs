//! Commitments to polynomials.
use crate::accel;
use crate::accel::{mul_with_accel_config, AccelMsmConfig, AccelMsmStats, MsmFacade};
use crate::curve;
use crate::curve::CurveAffine;
use crate::cycle::FixedGenerators;
use crate::field::Field;
use crate::layout;
use crate::poly;
use crate::rank::Rank;
use crate::sparse::runs;
use crate::sparse::Polynomial;
use vstd::prelude::*;

verus! {

/// The discrete logarithm of the commitment to the coefficients `c`: the inner product
/// of the coefficients with the bases.
pub open spec fn commitment<C: CurveAffine>(c: Seq<int>, bases: Seq<C>) -> int {
    poly::dot(c, curve::dlogs(bases)) % C::Scalar::modulus()
}

/// The multiplication that a commitment takes: the stored coefficients and the bases at
/// their indices.
pub open spec fn commitment_offer<C: CurveAffine>(
    l: Seq<layout::Block>,
    bases: Seq<C>,
) -> accel::Offer {
    (
        layout::stored_values(l),
        layout::stored_at(l, curve::dlogs(bases)),
        C::Scalar::modulus(),
    )
}

/// A commitment to the blocks `l` of `n` coefficients is the result of the multiplication
/// that it takes.
pub proof fn lemma_commitment_offer<C: CurveAffine>(
    l: Seq<layout::Block>,
    n: nat,
    bases: Seq<C>,
)
    requires
        layout::wf(l, n as int),
        n <= bases.len(),
    ensures
        accel::value(commitment_offer(l, bases)) == commitment(layout::dense(l, n), bases),
{
    layout::lemma_stored_dot(l, n, curve::dlogs(bases));
}

impl<F: Field, R: Rank> Polynomial<F, R> {
    /// The stored coefficients, and the base of each.
    fn stored_terms<C: CurveAffine<Scalar = F>>(&self, g: &[C]) -> (r: (Vec<F>, Vec<C>))
        requires
            self.wf(),
            g.len() >= 4 * R::gates(),
        ensures
            r.0.len() == r.1.len(),
            crate::field::vals(r.0@) == layout::stored_values(self.layout()),
            curve::dlogs(r.1@) == layout::stored_at(self.layout(), curve::dlogs(g@)),
    {
        let ghost n = 4 * R::gates();
        let ghost l = self.layout();
        let ghost d = curve::dlogs(g@);
        let mut coeffs: Vec<F> = Vec::new();
        let mut bases: Vec<C> = Vec::new();
        let mut i: usize = 0;
        proof {
            R::lemma_gates();
            assert(crate::field::vals(coeffs@) =~= layout::stored_values(l.take(0)));
            assert(curve::dlogs(bases@) =~= layout::stored_at(l.take(0), d));
        }
        while i < self.blocks.len()
            invariant
                n == 4 * R::gates(),
                g.len() >= n,
                n <= usize::MAX,
                l == runs::lay(self.blocks@),
                layout::wf(l, n as int),
                d == curve::dlogs(g@),
                i <= self.blocks.len(),
                bases.len() == coeffs.len(),
                crate::field::vals(coeffs@) == layout::stored_values(l.take(i as int)),
                curve::dlogs(bases@) == layout::stored_at(l.take(i as int), d),
            decreases self.blocks.len() - i,
        {
            let start: usize = self.blocks[i].0;
            let data = &self.blocks[i].1;
            assert(l[i as int] == (start as int, crate::field::vals(data@)));
            let ghost (before, under) = (crate::field::vals(coeffs@), curve::dlogs(bases@));
            let mut j: usize = 0;
            while j < data.len()
                invariant
                    start + data.len() <= n <= g.len(),
                    n <= usize::MAX,
                    d == curve::dlogs(g@),
                    j <= data.len(),
                    before.len() + j == coeffs.len(),
                    under.len() == before.len(),
                    bases.len() == coeffs.len(),
                    forall|t: int|
                        0 <= t < coeffs.len() ==> (#[trigger] coeffs@[t]).val() == if t
                            < before.len() {
                            before[t]
                        } else {
                            data@[t - before.len()].val()
                        },
                    forall|t: int|
                        0 <= t < bases.len() ==> (#[trigger] bases@[t]).dlog() == if t
                            < before.len() {
                            under[t]
                        } else {
                            d[start + t - before.len()]
                        },
                decreases data.len() - j,
            {
                coeffs.push(data[j]);
                bases.push(g[start + j]);
                j = j + 1;
            }
            proof {
                let s = l.take(i + 1);
                assert(s.drop_last() =~= l.take(i as int));
                assert(s.last() == l[i as int]);
                assert(crate::field::vals(coeffs@) =~= layout::stored_values(s));
                assert(curve::dlogs(bases@) =~= layout::stored_at(s, d));
            }
            i = i + 1;
        }
        assert(l.take(i as int) =~= l);
        (coeffs, bases)
    }

    /// Commits to the polynomial, with the settings of the process. Only stored coefficients
    /// cost anything.
    pub fn commit<
        C: CurveAffine<Scalar = F>,
        G: FixedGenerators<C>,
        A: MsmFacade,
    >(
        &self,
        generators: &G,
        settings: Option<AccelMsmConfig>,
        facade: &A,
        stats: &mut AccelMsmStats,
    ) -> (r: C::Curve)
        requires
            self.wf(),
            generators.bases().len() >= 4 * R::gates(),
        ensures
            accel::multiplied_with(
                facade,
                settings,
                commitment_offer(self.layout(), generators.bases()),
                commitment(self@, generators.bases()),
                C::curve_dlog(&r),
                *old(stats),
                *final(stats),
            ),
    {
        let (coeffs, bases) = self.stored_terms(generators.g());
        proof {
            lemma_commitment_offer(self.layout(), 4 * R::gates(), generators.bases());
        }
        accel::mul(&coeffs, &bases, settings, facade, stats)
    }

    /// Commits to the polynomial, and offers the multiplication to an accelerator where
    /// enough coefficients are stored.
    pub fn commit_with_accel_config<
        C: CurveAffine<Scalar = F>,
        G: FixedGenerators<C>,
        A: MsmFacade,
    >(
        &self,
        generators: &G,
        config: AccelMsmConfig,
        facade: &A,
        stats: &mut AccelMsmStats,
    ) -> (r: C::Curve)
        requires
            self.wf(),
            generators.bases().len() >= 4 * R::gates(),
        ensures
            accel::multiplied(
                facade,
                config,
                commitment_offer(self.layout(), generators.bases()),
                commitment(self@, generators.bases()),
                C::curve_dlog(&r),
                *old(stats),
                *final(stats),
            ),
    {
        let (coeffs, bases) = self.stored_terms(generators.g());
        proof {
            lemma_commitment_offer(self.layout(), 4 * R::gates(), generators.bases());
        }
        mul_with_accel_config(&coeffs, &bases, config, facade, stats)
    }

    /// Commits to the polynomial, in affine coordinates, with the settings of the process.
    pub fn commit_to_affine<
        C: CurveAffine<Scalar = F>,
        G: FixedGenerators<C>,
        A: MsmFacade,
    >(
        &self,
        generators: &G,
        settings: Option<AccelMsmConfig>,
        facade: &A,
        stats: &mut AccelMsmStats,
    ) -> (r: C)
        requires
            self.wf(),
            generators.bases().len() >= 4 * R::gates(),
        ensures
            accel::multiplied_with(
                facade,
                settings,
                commitment_offer(self.layout(), generators.bases()),
                commitment(self@, generators.bases()),
                r.dlog(),
                *old(stats),
                *final(stats),
            ),
    {
        C::to_affine(&self.commit(generators, settings, facade, stats))
    }

    /// Commits to the polynomial, in affine coordinates, and offers the multiplication to
    /// an accelerator where enough coefficients are stored.
    pub fn commit_to_affine_with_accel_config<
        C: CurveAffine<Scalar = F>,
        G: FixedGenerators<C>,
        A: MsmFacade,
    >(
        &self,
        generators: &G,
        config: AccelMsmConfig,
        facade: &A,
        stats: &mut AccelMsmStats,
    ) -> (r: C)
        requires
            self.wf(),
            generators.bases().len() >= 4 * R::gates(),
        ensures
            accel::multiplied(
                facade,
                config,
                commitment_offer(self.layout(), generators.bases()),
                commitment(self@, generators.bases()),
                r.dlog(),
                *old(stats),
                *final(stats),
            ),
    {
        C::to_affine(&self.commit_with_accel_config(generators, config, facade, stats))
    }
}

} // verus!
