//! The errors a patch decode can end in.

use vstd::prelude::*;

verus! {

/// Why a byte stream failed to decode as an IPS patch.
///
/// Every variant describes a structural fault of the input bytes; none
/// is retryable. The `available` fields carry how many bytes were left
/// when a field needed more, for diagnostics.
#[derive(Debug, Clone, Copy, PartialEq, Eq, Structural)]
pub enum Error {
    /// The input is shorter than 5 bytes or does not start with `PATCH`.
    MissingHeader,
    /// Fewer than the 3 bytes of a record's `offset` field were left.
    TruncatedOffset { available: usize },
    /// Fewer than the 2 bytes of a record's `size` field were left.
    TruncatedSize { available: usize },
    /// Fewer than the 2 bytes of a run-length record's `rle_size` field were left.
    TruncatedRleSize { available: usize },
    /// The single `rle_value` byte of a run-length record was missing.
    TruncatedRleValue,
    /// Fewer than the `size` declared bytes of a literal record's payload were left.
    TruncatedData { available: usize, required: usize },
}

} // verus!
