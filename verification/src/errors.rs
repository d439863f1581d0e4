//! The error taxonomy: construction-time configuration misuse, and sizes
//! that cannot be represented on this machine.

use vstd::prelude::*;

verus! {

/// Why a filter could not be built or grown.
#[derive(Clone, Copy, Debug, PartialEq, Eq, Structural)]
pub enum FilterError {
    /// Configuration misuse at construction: a false-positive target outside
    /// `(0, 1)` in effect, a zero expected count, or a zero-sized bit array
    /// or hash-function count.
    InvalidConfiguration,
    /// The derived bit-array length, or a grown capacity, does not fit in a
    /// machine word; such a filter could never be allocated.
    CapacityOverflow,
}

} // verus!
