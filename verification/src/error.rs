//! Error type shared by configuration building and the codec.

use vstd::prelude::*;

verus! {

/// Every failure the codec can report.
#[derive(Clone, Copy, PartialEq, Eq, Debug)]
pub enum CodecError {
    /// A configuration option was out of range (bit depth outside `[1, 8]`).
    InvalidConfiguration,
    /// The payload needs more bit-groups than the carrier grid can supply
    /// under the chosen configuration. Carries the number of payload bits
    /// that were written before the positions ran out.
    CapacityExceeded { bits_written: u128 },
}

} // verus!
