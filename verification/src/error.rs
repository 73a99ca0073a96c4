//! The error types a benchmark run can surface.

use vstd::prelude::*;

verus! {

/// The error type for a benchmark run.
#[derive(Debug, Clone, Copy, PartialEq, Eq, Structural)]
pub enum BrunchError {
    /// Duplicate benchmark name.
    DupeName,
    /// No benches were specified.
    NoBench,
    /// A bench was missing its runner call.
    NoRun,
    /// General math failure; should be unreachable for sane inputs.
    Overflow,
    /// The benchmark completed too quickly to analyze.
    TooFast,
    /// Not enough samples were collected to analyze; carries the count.
    TooSmall(u32),
    /// The samples were too chaotic to analyze.
    TooWild,
}

/// The older, coarser error set kept for result tables.
#[derive(Debug, Clone, Copy, PartialEq, Eq, Structural)]
pub enum BenchError {
    /// High background noise.
    Inconsistent,
    /// No callback specified.
    MissingCallback,
    /// Completed too fast.
    TooFast,
    /// Took too long.
    TooSlow,
}

/// The message each `BenchError` renders as.
pub open spec fn bench_error_message(e: BenchError) -> Seq<char> {
    match e {
        BenchError::Inconsistent => "Results were too inconsistent."@,
        BenchError::MissingCallback => "No callback specified!"@,
        BenchError::TooFast => "The bench was too fast."@,
        BenchError::TooSlow => "The bench was too slow."@,
    }
}

impl BenchError {
    /// A human-readable description of the failure.
    pub fn as_str(&self) -> (r: &'static str)
        ensures
            r@ == bench_error_message(*self),
    {
        match self {
            BenchError::Inconsistent => "Results were too inconsistent.",
            BenchError::MissingCallback => "No callback specified!",
            BenchError::TooFast => "The bench was too fast.",
            BenchError::TooSlow => "The bench was too slow.",
        }
    }
}

} // verus!
