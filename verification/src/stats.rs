//! The validated run summary: sample counts, mean and deviation of the
//! reduced sample set, the validity predicate, and the run-to-run
//! deviance comparison.

use vstd::prelude::*;
use crate::MIN_SAMPLES;
use crate::TICK_LIMIT;
use crate::abacus::Abacus;
use crate::abacus::deviation_spec;
use crate::abacus::dist;
use crate::abacus::keep_valid;
use crate::abacus::lemma_sort_of_sorted;
use crate::abacus::lemma_uniform_mean_deviation;
use crate::abacus::lemma_uniform_uniq;
use crate::abacus::mean_spec;
use crate::abacus::pruned_of;
use crate::abacus::sort_of;
use crate::abacus::sorted;
use crate::error::BrunchError;

verus! {

/// What remains of a raw sample list after admission, sorting and
/// outlier pruning: the sequence the final statistics are computed over.
pub open spec fn reduced_of(src: Seq<u64>) -> Seq<u32> {
    pruned_of(sort_of(keep_valid(src)))
}

/// The finalized, validated summary of one benchmark run.
#[derive(Debug, Clone, Copy, PartialEq, Eq, Structural)]
pub struct Stats {
    /// Samples collected, before pruning.
    pub total: u32,
    /// Samples retained after outlier pruning.
    pub valid: u32,
    /// Population standard deviation of the retained samples, in ticks.
    pub deviation: u64,
    /// Mean of the retained samples, in ticks.
    pub mean: u64,
}

/// A statistically meaningful change between two runs: the current mean
/// moved outside the previous run's comparison envelope.
#[derive(Debug, Clone, Copy, PartialEq, Eq, Structural)]
pub struct Deviance {
    /// Whether the current run is slower than the previous one.
    pub slower: bool,
    /// Absolute difference of the two means, in ticks.
    pub diff: u64,
    /// The previous mean, the base the relative change is against.
    pub base: u64,
}

impl Stats {
    /// The validity predicate every stored record must satisfy.
    pub open spec fn valid_spec(self) -> bool {
        MIN_SAMPLES <= self.valid && self.valid <= self.total
    }

    /// Whether this record satisfies the validity predicate: enough
    /// retained samples, and no more retained than collected. The
    /// dispersion fields are unsigned integers, so finiteness and
    /// non-negativity hold by construction.
    pub fn is_valid(&self) -> (r: bool)
        ensures
            r == self.valid_spec(),
    {
        MIN_SAMPLES <= self.valid && self.valid <= self.total
    }

    /// Crunches a raw list of tick samples into a validated record.
    /// Fails with `TooSmall` when fewer than `MIN_SAMPLES` samples were
    /// collected, and with `TooWild` when pruning leaves fewer than
    /// `MIN_SAMPLES` of them.
    pub fn from_samples(samples: Vec<u64>) -> (r: Result<Stats, BrunchError>)
        requires
            samples@.len() <= 0xFFFF_FFFF,
        ensures
            samples@.len() < MIN_SAMPLES ==> r == Err::<Stats, BrunchError>(
                BrunchError::TooSmall(samples@.len() as u32),
            ),
            samples@.len() >= MIN_SAMPLES && reduced_of(samples@).len() < MIN_SAMPLES ==> r
                == Err::<Stats, BrunchError>(BrunchError::TooWild),
            samples@.len() >= MIN_SAMPLES && reduced_of(samples@).len() >= MIN_SAMPLES ==> r
                == Ok::<Stats, BrunchError>(
                Stats {
                    total: samples@.len() as u32,
                    valid: reduced_of(samples@).len() as u32,
                    deviation: deviation_spec(reduced_of(samples@)) as u64,
                    mean: mean_spec(reduced_of(samples@)) as u64,
                },
            ),
            r matches Ok(s) ==> s.valid_spec(),
    {
        let total = samples.len();
        if total < MIN_SAMPLES as usize {
            return Err(BrunchError::TooSmall(total as u32));
        }
        let mut calc = Abacus::from_ticks(&samples);
        calc.prune_outliers();
        proof {
            assert(calc@ == reduced_of(samples@));
        }
        let valid = calc.len();
        if valid < MIN_SAMPLES as usize {
            return Err(BrunchError::TooWild);
        }
        let mean = calc.mean();
        let deviation = calc.deviation();
        let out = Stats { total: total as u32, valid: valid as u32, deviation, mean };
        // Defensive re-validation, mirroring the construction contract.
        if out.is_valid() {
            Ok(out)
        } else {
            proof {
                assert(false);
            }
            Err(BrunchError::Overflow)
        }
    }

    /// Compares this run against a previous record: if the previous mean
    /// falls outside this run's two-standard-deviation envelope, the runs
    /// differ meaningfully and the direction and magnitude are returned.
    pub fn is_deviant(self, other: Stats) -> (r: Option<Deviance>)
        ensures
            (r is Some) <==> ((other.mean as int) < self.mean - 2 * self.deviation || (
            other.mean as int) > self.mean + 2 * self.deviation),
            r matches Some(d) ==> {
                &&& d.slower == (self.mean > other.mean)
                &&& d.diff == dist(self.mean as int, other.mean as int)
                &&& d.base == other.mean
            },
    {
        let below = (other.mean as u128) + 2 * (self.deviation as u128) < (self.mean as u128);
        let above = (self.mean as u128) + 2 * (self.deviation as u128) < (other.mean as u128);
        if below || above {
            if self.mean > other.mean {
                Some(Deviance { slower: true, diff: self.mean - other.mean, base: other.mean })
            } else {
                Some(Deviance { slower: false, diff: other.mean - self.mean, base: other.mean })
            }
        } else {
            None
        }
    }

    /// The retained and collected sample counts, in that order.
    pub fn samples(self) -> (r: (u32, u32))
        ensures
            r.0 == self.valid,
            r.1 == self.total,
    {
        (self.valid, self.total)
    }
}

/// Law: a run of at least `MIN_SAMPLES` identical in-range samples is
/// never rejected: nothing is pruned, the mean is the sample itself and
/// the deviation is zero. Together with the construction contract this
/// pins the outcome of `Stats::from_samples` on uniform input.
pub proof fn lemma_uniform_run(src: Seq<u64>, v: u64)
    requires
        MIN_SAMPLES <= src.len() <= 0xFFFF_FFFF,
        v <= TICK_LIMIT,
        forall|i: int| 0 <= i < src.len() ==> src[i] == v,
    ensures
        reduced_of(src).len() == src.len(),
        mean_spec(reduced_of(src)) == v as int,
        deviation_spec(reduced_of(src)) == 0,
{
    lemma_keep_valid_uniform(src, v);
    let f = keep_valid(src);
    assert(sorted(f));
    lemma_sort_of_sorted(f);
    lemma_uniform_uniq(f, v as u32);
    assert(pruned_of(f) == f);
    lemma_uniform_mean_deviation(f, v as u32);
}

/// Admission keeps a uniform in-range list whole.
proof fn lemma_keep_valid_uniform(src: Seq<u64>, v: u64)
    requires
        v <= TICK_LIMIT,
        forall|i: int| 0 <= i < src.len() ==> src[i] == v,
    ensures
        keep_valid(src).len() == src.len(),
        forall|i: int| 0 <= i < src.len() ==> keep_valid(src)[i] == v as u32,
    decreases src.len(),
{
    if src.len() > 0 {
        lemma_keep_valid_uniform(src.drop_last(), v);
    }
}

} // verus!
