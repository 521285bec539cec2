use vstd::prelude::*;

verus! {

/// The failure conditions that clustering itself can report. Decoding,
/// configuration and output failures are handled by the surrounding
/// program, not by this library.
#[derive(Debug, PartialEq, Eq, Structural, Clone, Copy)]
pub enum ColorMapError {
    /// No opaque pixel survived masking: there is nothing to cluster.
    EmptyPalette,
    /// More centroids were requested than distinct opaque colors exist.
    InsufficientColors { k: usize, found: usize },
    /// The iteration cap was reached while buckets were still being
    /// reassigned.
    MaxIterations(i32),
}

} // verus!
