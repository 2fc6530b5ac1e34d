use vstd::prelude::*;

verus! {

/// The ways in which aggregating an input can fail. Every one of them is
/// fatal: no partial report is ever produced.
#[derive(Clone, Copy, Debug, PartialEq, Eq, Structural)]
pub enum AggError {
    /// The input could not be obtained.
    InputUnavailable,
    /// A record ended before its field terminator.
    TruncatedRecord,
    /// A value does not follow the grammar `-? digit+ (. digit)?`, or does
    /// not fit in the fixed-point range.
    MalformedValue,
}

} // verus!
