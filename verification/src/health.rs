//! Threshold checks on system metrics.
use vstd::prelude::*;

verus! {

/// How memory usage is computed.
#[derive(Clone, Copy, Debug, PartialEq, Eq, Structural)]
pub enum MemoryBasis {
    /// `(total - available) / total`.
    UsedFromAvailable,
}

} // verus!
