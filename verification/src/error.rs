//! The error taxonomy of the scan: alignment failures, record format
//! failures, and counter overflow. All of them are unrecoverable for a run;
//! the caller aborts when one comes back.

use vstd::prelude::*;

verus! {

/// Why a chunk or a record was refused.
#[derive(Clone, Copy, Debug, PartialEq, Eq, Structural)]
pub enum ScanError {
    /// No record terminator was found in the lookback margin before a chunk:
    /// the margin is smaller than the record that straddles the boundary.
    Alignment,
    /// A record fragment holds no separator byte.
    MissingSeparator,
    /// The value bytes of a record are not a decimal literal of the accepted
    /// form (optional sign, digits, optionally a dot and one more digit).
    BadValue,
    /// The value is a well-formed literal but does not fit the fixed-point
    /// machine representation.
    ValueOutOfRange,
    /// A per-key observation counter cannot grow any further.
    CountOverflow,
}

} // verus!
