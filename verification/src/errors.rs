//! Failure conditions of a conversion.

use vstd::prelude::*;

verus! {

/// Why a conversion was abandoned.  Every failure is fatal: the library
/// never produces a partial chart.
#[derive(Clone, Copy, Debug, PartialEq, Eq, Structural)]
pub enum ChartError {
    /// A tempo or note record had too few fields, a field that is not a
    /// number, a lane coordinate outside the eight lanes, or a hold that
    /// does not end after it starts.
    MalformedInput,
    /// The tempo map is empty or does not open with a tempo-defining change.
    NoInitialTempo,
    /// The note timeline is empty.
    EmptyTimeline,
    /// The key layout is not exactly eight characters drawn from '1'..'8'.
    InvalidKeyLayout,
    /// Event timestamps are not in non-decreasing order, or a tempo event
    /// after the first one lies before the first note.
    UnorderedInput,
}

impl ChartError {
    /// A human-readable cause, for reporting the failure.
    pub fn message(&self) -> (r: &'static str)
        ensures
            (*self is MalformedInput) ==> r@ == "malformed record in input"@,
            (*self is NoInitialTempo) ==> r@ == "no initial tempo change"@,
            (*self is EmptyTimeline) ==> r@ == "no note events"@,
            (*self is InvalidKeyLayout) ==> r@ == "not a valid key config"@,
            (*self is UnorderedInput) ==> r@ == "events out of time order"@,
    {
        match self {
            ChartError::MalformedInput => "malformed record in input",
            ChartError::NoInitialTempo => "no initial tempo change",
            ChartError::EmptyTimeline => "no note events",
            ChartError::InvalidKeyLayout => "not a valid key config",
            ChartError::UnorderedInput => "events out of time order",
        }
    }
}

} // verus!
