//! Multiscalar multiplication on an accelerator, where there is one.
//!
//! A multiplication that is large enough is offered to an accelerator. Where that
//! gives no result, the processor computes it, so that a missing accelerator costs
//! time and nothing else. Counters tell which way the multiplications went.
use crate::curve::CurveAffine;
use crate::field::Field;
use crate::msm::cpu_mul;
use crate::poly;
use vstd::prelude::*;

verus! {

/// What computes an accelerated multiplication.
#[derive(Clone, Copy, Debug, PartialEq, Eq, Structural)]
pub enum AccelBackend {
    /// Whichever the accelerator finds best.
    Auto,
    /// Vector instructions of the processor.
    Avx512,
    /// A graphics processor.
    Cuda,
}

/// An accelerator that failed.
#[derive(Clone, Copy, Debug, PartialEq, Eq, Structural)]
pub struct AccelError;

/// Counters of the multiplications that were large enough to be accelerated. A counter
/// that overflows starts again at zero.
#[derive(Clone, Copy, Debug, PartialEq, Eq, Structural)]
pub struct AccelMsmStats {
    /// Multiplications that were large enough.
    pub candidates: u64,
    /// Candidates for which the accelerator gave a result.
    pub facade_results: u64,
    /// Candidates that the processor computed.
    pub fallbacks: u64,
    /// Points of all candidates.
    pub total_candidate_points: u64,
}

/// When and where multiplications are accelerated.
#[derive(Clone, Copy, Debug, PartialEq, Eq, Structural)]
pub struct AccelMsmConfig {
    /// What computes.
    pub backend: AccelBackend,
    /// The number of points from which on a multiplication is a candidate.
    pub min_msm_size: usize,
}

/// The counter `n`, advanced by `by`.
pub open spec fn advanced(n: u64, by: int) -> int {
    (n + by) % 0x1_0000_0000_0000_0000
}

/// The number whose decimal digits are those of `n` and then those that `s` spells, if it
/// spells nothing else.
pub open spec fn digits(s: Seq<char>, n: nat) -> Option<nat>
    decreases s.len(),
{
    if s.len() == 0 {
        Some(n)
    } else if '0' <= s[0] && s[0] <= '9' {
        digits(s.skip(1), (10 * n + (s[0] as int - '0' as int)) as nat)
    } else {
        None
    }
}

/// The decimal number that `s` spells: one or more digits, with or without a plus sign
/// in front.
pub open spec fn decimal(s: Seq<char>) -> Option<nat> {
    let t = if s.len() > 0 && s[0] == '+' {
        s.skip(1)
    } else {
        s
    };
    if t.len() == 0 {
        None
    } else {
        digits(t, 0)
    }
}

/// `str::parse` to `usize`: the decimal number that the string spells, if it spells one
/// that fits.
#[verifier::external_body]
fn parse_usize(s: &str) -> (r: Option<usize>)
    ensures
        r == match decimal(s@) {
            Some(n) => if n <= usize::MAX {
                Some(n as usize)
            } else {
                None
            },
            None => None,
        },
{
    s.parse::<usize>().ok()
}

impl AccelMsmConfig {
    /// The size from which on multiplications are accelerated where nothing else is set.
    pub const DEFAULT_MIN_MSM_SIZE: usize = 4096;

    /// The configuration with the given backend, and with the size that the setting
    /// `min_msm` spells. Where there is no such setting, or it spells no size, the
    /// default applies.
    pub fn from_settings(backend: AccelBackend, min_msm: Option<&str>) -> (r: Self)
        ensures
            r.backend == backend,
            r.min_msm_size == match min_msm {
                Some(s) => match decimal(s@) {
                    Some(n) => if n <= usize::MAX {
                        n as usize
                    } else {
                        4096usize
                    },
                    None => 4096usize,
                },
                None => 4096usize,
            },
    {
        let min_msm_size: usize = match min_msm {
            Some(s) => match parse_usize(s) {
                Some(n) => n,
                None => Self::DEFAULT_MIN_MSM_SIZE,
            },
            None => Self::DEFAULT_MIN_MSM_SIZE,
        };
        AccelMsmConfig { backend, min_msm_size }
    }
}

impl Default for AccelMsmStats {
    fn default() -> (r: Self)
        ensures
            r == (AccelMsmStats {
                candidates: 0,
                facade_results: 0,
                fallbacks: 0,
                total_candidate_points: 0,
            }),
    {
        AccelMsmStats { candidates: 0, facade_results: 0, fallbacks: 0, total_candidate_points: 0 }
    }
}

/// The current counters.
pub fn accel_msm_stats(stats: &AccelMsmStats) -> (r: AccelMsmStats)
    ensures
        r == *stats,
{
    *stats
}

/// Sets the counters to zero.
pub fn reset_accel_msm_stats(stats: &mut AccelMsmStats)
    ensures
        *final(stats) == (AccelMsmStats {
            candidates: 0,
            facade_results: 0,
            fallbacks: 0,
            total_candidate_points: 0,
        }),
{
    *stats = AccelMsmStats::default();
}

/// Counts a candidate of `points` points.
pub fn record_accel_msm_candidate(stats: &mut AccelMsmStats, points: usize)
    ensures
        final(stats).candidates == advanced(old(stats).candidates, 1),
        final(stats).total_candidate_points == advanced(
            old(stats).total_candidate_points,
            points as int,
        ),
        final(stats).facade_results == old(stats).facade_results,
        final(stats).fallbacks == old(stats).fallbacks,
{
    stats.candidates = stats.candidates.wrapping_add(1);
    stats.total_candidate_points = stats.total_candidate_points.wrapping_add(points as u64);
}

/// Counts a candidate for which the accelerator gave a result.
pub fn record_accel_msm_facade_result(stats: &mut AccelMsmStats)
    ensures
        final(stats).facade_results == advanced(old(stats).facade_results, 1),
        *final(stats) == (AccelMsmStats {
            facade_results: final(stats).facade_results,
            ..*old(stats)
        }),
{
    stats.facade_results = stats.facade_results.wrapping_add(1);
}

/// Counts a candidate that the processor computed.
pub fn record_accel_msm_fallback(stats: &mut AccelMsmStats)
    ensures
        final(stats).fallbacks == advanced(old(stats).fallbacks, 1),
        *final(stats) == (AccelMsmStats { fallbacks: final(stats).fallbacks, ..*old(stats) }),
{
    stats.fallbacks = stats.fallbacks.wrapping_add(1);
}


/// Adds the counters `of` a part of the work to those of the whole.
pub fn merge_accel_msm_stats(stats: &mut AccelMsmStats, of: &AccelMsmStats)
    ensures
        final(stats).candidates == advanced(old(stats).candidates, of.candidates as int),
        final(stats).facade_results == advanced(
            old(stats).facade_results,
            of.facade_results as int,
        ),
        final(stats).fallbacks == advanced(old(stats).fallbacks, of.fallbacks as int),
        final(stats).total_candidate_points == advanced(
            old(stats).total_candidate_points,
            of.total_candidate_points as int,
        ),
{
    stats.candidates = stats.candidates.wrapping_add(of.candidates);
    stats.facade_results = stats.facade_results.wrapping_add(of.facade_results);
    stats.fallbacks = stats.fallbacks.wrapping_add(of.fallbacks);
    stats.total_candidate_points = stats.total_candidate_points.wrapping_add(
        of.total_candidate_points,
    );
}

/// A multiplication that is offered to an accelerator: the scalars, the logarithms of the
/// bases, and the order of the group.
pub type Offer = (Seq<int>, Seq<int>, int);

/// The multiplication of the bases by the scalars, as it is offered.
pub open spec fn offer<C: CurveAffine>(coeffs: Seq<C::Scalar>, bases: Seq<C>) -> Offer {
    (crate::field::vals(coeffs), crate::curve::dlogs(bases), C::Scalar::modulus())
}

/// The true result of a multiplication.
pub open spec fn value(offer: Offer) -> int {
    poly::dot(offer.0, offer.1) % offer.2
}

/// The logarithm of the result that a reply holds, if it holds one.
pub open spec fn reply_dlog<C: CurveAffine>(
    reply: Result<Option<C::Curve>, AccelError>,
) -> Option<int> {
    match reply {
        Ok(Some(p)) => Some(C::curve_dlog(&p)),
        _ => None,
    }
}

/// An accelerator that multiplications can be offered to.
pub trait MsmFacade {
    /// Whether a backend may reply to an offer with a result of the given logarithm, or
    /// without one. Where nothing is known of an accelerator, it may reply anything.
    open spec fn replies(&self, offer: Offer, backend: AccelBackend, reply: Option<int>) -> bool {
        true
    }

    /// The sum of the bases, each multiplied by its scalar, if the backend computes it.
    fn try_msm<C: CurveAffine>(
        &self,
        coeffs: &Vec<C::Scalar>,
        bases: &Vec<C>,
        backend: AccelBackend,
    ) -> (r: Result<Option<C::Curve>, AccelError>)
        requires
            coeffs.len() == bases.len(),
        ensures
            self.replies(offer(coeffs@, bases@), backend, reply_dlog::<C>(r)),
    ;
}

/// A backend gives no results.
pub open spec fn silent<A: MsmFacade>(facade: &A, backend: AccelBackend) -> bool {
    forall|offer: Offer, d: int| !#[trigger] facade.replies(offer, backend, Some(d))
}

/// A backend gives a result for everything that it is offered.
pub open spec fn diligent<A: MsmFacade>(facade: &A, backend: AccelBackend) -> bool {
    forall|offer: Offer| !#[trigger] facade.replies(offer, backend, None)
}

/// A backend gives no results but true ones.
pub open spec fn truthful<A: MsmFacade>(facade: &A, backend: AccelBackend) -> bool {
    forall|offer: Offer, d: int| #[trigger]
        facade.replies(offer, backend, Some(d)) ==> d == value(offer)
}

/// A machine without an accelerator.
#[derive(Clone, Copy, Debug)]
pub struct NoAccelerator;

impl MsmFacade for NoAccelerator {
    open spec fn replies(&self, offer: Offer, backend: AccelBackend, reply: Option<int>) -> bool {
        reply is None
    }

    fn try_msm<C: CurveAffine>(
        &self,
        coeffs: &Vec<C::Scalar>,
        bases: &Vec<C>,
        backend: AccelBackend,
    ) -> (r: Result<Option<C::Curve>, AccelError>)
        ensures
            r == Ok::<Option<C::Curve>, AccelError>(None),
    {
        Ok(None)
    }
}

/// A candidate of `points` points was counted, as one for which the accelerator gave a
/// result if `hit`, else as one that the processor computed.
pub open spec fn counted(
    before: AccelMsmStats,
    after: AccelMsmStats,
    points: int,
    hit: bool,
) -> bool {
    &&& after.candidates == advanced(before.candidates, 1)
    &&& after.total_candidate_points == advanced(before.total_candidate_points, points)
    &&& after.facade_results == advanced(
        before.facade_results,
        if hit {
            1
        } else {
            0
        },
    )
    &&& after.fallbacks == advanced(
        before.fallbacks,
        if hit {
            0
        } else {
            1
        },
    )
}

/// What an accelerator replied to a candidate becomes the result of the multiplication:
/// its result, where it has one, and else the processor's.
pub fn settle_msm<C: CurveAffine>(
    coeffs: &Vec<C::Scalar>,
    bases: &Vec<C>,
    reply: Result<Option<C::Curve>, AccelError>,
    stats: &mut AccelMsmStats,
) -> (r: C::Curve)
    requires
        coeffs.len() == bases.len(),
    ensures
        reply matches Ok(Some(result)) ==> {
            &&& r == result
            &&& final(stats).facade_results == advanced(old(stats).facade_results, 1)
            &&& *final(stats) == (AccelMsmStats {
                facade_results: final(stats).facade_results,
                ..*old(stats)
            })
        },
        !(reply matches Ok(Some(_))) ==> {
            &&& C::curve_dlog(&r) == poly::dot(
                crate::field::vals(coeffs@),
                crate::curve::dlogs(bases@),
            ) % C::Scalar::modulus()
            &&& final(stats).fallbacks == advanced(old(stats).fallbacks, 1)
            &&& *final(stats) == (AccelMsmStats {
                fallbacks: final(stats).fallbacks,
                ..*old(stats)
            })
        },
{
    match reply {
        Ok(Some(result)) => {
            record_accel_msm_facade_result(stats);
            result
        },
        Ok(None) | Err(_) => {
            record_accel_msm_fallback(stats);
            cpu_mul(coeffs, bases)
        },
    }
}

/// The sum of the bases, each multiplied by its scalar. Where there are enough of them,
/// the multiplication is offered to the accelerator.
pub fn mul_with_accel_config<C: CurveAffine, A: MsmFacade>(
    coeffs: &Vec<C::Scalar>,
    bases: &Vec<C>,
    config: AccelMsmConfig,
    facade: &A,
    stats: &mut AccelMsmStats,
) -> (r: C::Curve)
    requires
        coeffs.len() == bases.len(),
    ensures
        multiplied(
            facade,
            config,
            offer(coeffs@, bases@),
            value(offer(coeffs@, bases@)),
            C::curve_dlog(&r),
            *old(stats),
            *final(stats),
        ),
{
    if coeffs.len() >= config.min_msm_size {
        record_accel_msm_candidate(stats, coeffs.len());
        let reply = facade.try_msm(coeffs, bases, config.backend);
        return settle_msm(coeffs, bases, reply, stats);
    }
    cpu_mul(coeffs, bases)
}

/// The sum of the bases, each multiplied by its scalar, with the settings of the process. A
/// process without settings does not accelerate, and nothing is counted.
pub fn mul<C: CurveAffine, A: MsmFacade>(
    coeffs: &Vec<C::Scalar>,
    bases: &Vec<C>,
    settings: Option<AccelMsmConfig>,
    facade: &A,
    stats: &mut AccelMsmStats,
) -> (r: C::Curve)
    requires
        coeffs.len() == bases.len(),
    ensures
        multiplied_with(
            facade,
            settings,
            offer(coeffs@, bases@),
            value(offer(coeffs@, bases@)),
            C::curve_dlog(&r),
            *old(stats),
            *final(stats),
        ),
{
    match settings {
        Some(config) => mul_with_accel_config(coeffs, bases, config, facade, stats),
        None => cpu_mul(coeffs, bases),
    }
}

/// A multiplication whose true result is `exact` gave the point with the logarithm `dlog`,
/// and moved the counters from `before` to `after`. Where it is too small, it is not
/// offered, the result is the true one, and nothing is counted. Else it is offered as
/// `offer`: a result that the backend replies is taken and counted as such, and where the
/// reply holds none, the result is the true one, which is counted as a fallback.
pub open spec fn multiplied<A: MsmFacade>(
    facade: &A,
    config: AccelMsmConfig,
    offer: Offer,
    exact: int,
    dlog: int,
    before: AccelMsmStats,
    after: AccelMsmStats,
) -> bool {
    if offer.0.len() < config.min_msm_size {
        dlog == exact && after == before
    } else {
        exists|reply: Option<int>|
            #[trigger] facade.replies(offer, config.backend, reply) && (match reply {
                Some(d) => dlog == d && counted(before, after, offer.0.len() as int, true),
                None => dlog == exact && counted(before, after, offer.0.len() as int, false),
            })
    }
}

/// What `multiplied` says, with the settings of the process. Without settings, the result is
/// the true one, and nothing is counted.
pub open spec fn multiplied_with<A: MsmFacade>(
    facade: &A,
    settings: Option<AccelMsmConfig>,
    offer: Offer,
    exact: int,
    dlog: int,
    before: AccelMsmStats,
    after: AccelMsmStats,
) -> bool {
    match settings {
        Some(config) => multiplied(facade, config, offer, exact, dlog, before, after),
        None => dlog == exact && after == before,
    }
}

/// A backend that gives none but true results leaves every result what it is.
pub proof fn lemma_truthful<A: MsmFacade>(
    facade: &A,
    config: AccelMsmConfig,
    offer: Offer,
    exact: int,
    dlog: int,
    before: AccelMsmStats,
    after: AccelMsmStats,
)
    requires
        multiplied(facade, config, offer, exact, dlog, before, after),
        truthful(facade, config.backend),
        exact == value(offer),
    ensures
        dlog == exact,
{
    if offer.0.len() >= config.min_msm_size && dlog != exact {
        let reply = choose|reply: Option<int>|
            #[trigger] facade.replies(offer, config.backend, reply) && (match reply {
                Some(d) => dlog == d && counted(before, after, offer.0.len() as int, true),
                None => dlog == exact && counted(before, after, offer.0.len() as int, false),
            });
        assert(reply == Some(dlog));
        assert(facade.replies(offer, config.backend, Some(dlog)));
    }
}

/// What a prover may accelerate.
#[derive(Clone, Copy, Debug, PartialEq, Eq, Structural)]
pub struct ProverAccelConfig {
    /// What computes.
    pub backend: AccelBackend,
    /// The number of points from which on a multiplication is a candidate.
    pub min_msm_size: usize,
    /// The logarithm of the number of points from which on a transform is a candidate.
    pub min_fft_log2: u32,
    /// Whether witnesses may be held in the memory of a graphics processor.
    pub allow_gpu_witness_buffers: bool,
}

impl ProverAccelConfig {
    /// What holds for multiplications.
    pub open spec fn msm(&self) -> AccelMsmConfig {
        AccelMsmConfig { backend: self.backend, min_msm_size: self.min_msm_size }
    }

    /// What holds for multiplications.
    pub fn msm_config(&self) -> (r: AccelMsmConfig)
        ensures
            r == self.msm(),
            r.backend == self.backend,
            r.min_msm_size == self.min_msm_size,
    {
        AccelMsmConfig { backend: self.backend, min_msm_size: self.min_msm_size }
    }
}

} // verus!
