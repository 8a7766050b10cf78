//! The messages that server and client exchange.
pub mod bit_io;
pub mod bundles;
pub mod codec;
pub mod decode_laws;
pub mod edit_lists;
pub mod error_laws;
pub mod format_laws;
pub mod hint_delta;
pub mod layout;
pub mod message;
pub mod shortest;
pub mod size_laws;
pub mod sparse;

use vstd::prelude::*;
use vstd::string::StringExecFns;

use crate::text;

verus! {

/// Why the decoder rejects a byte string.
#[derive(Debug, Clone, Copy, PartialEq, Eq, Structural)]
pub enum WireError {
    /// The bit stream ended before a field could be read in full.
    Truncated,
    /// A row's bucket is not below the number of buckets.
    BucketOutOfRange {
        /// The bucket value read from the stream.
        bucket: u32,
    },
    /// A run starts or ends outside the row.
    OffsetOutOfRange {
        /// The offending offset: the start, the end, or a cell offset past `u16`.
        offset: u32,
    },
    /// A delta code point is the reserved all-ones value.
    DeltaOutOfRange {
        /// The invalid code point.
        code: u64,
    },
    /// Rows are not in strictly ascending bucket order.
    NonCanonicalRows,
    /// A row's runs are not ascending, lie too close together, start or end with a
    /// zero delta, or bridge too long a stretch of zeros.
    NonCanonicalRuns,
    /// A padding bit after the last field is set.
    NonZeroPadding,
    /// Bytes remain after the padded encoding.
    TrailingBytes,
}

impl WireError {
    /// The text of the error.
    pub open spec fn text(self) -> Seq<char> {
        match self {
            WireError::Truncated => "hint-delta wire stream ended before a field was complete"@,
            WireError::BucketOutOfRange { bucket } => "hint-delta wire: bucket "@ + text::decimal(
                bucket as nat,
            ) + " out of range"@,
            WireError::OffsetOutOfRange { offset } => "hint-delta wire: offset "@ + text::decimal(
                offset as nat,
            ) + " out of range"@,
            WireError::DeltaOutOfRange { code } => "hint-delta wire: delta code point "@
                + text::decimal(code as nat) + " is the reserved value"@,
            WireError::NonCanonicalRows => "hint-delta wire: rows are not in canonical order"@,
            WireError::NonCanonicalRuns => "hint-delta wire: runs are not in canonical form"@,
            WireError::NonZeroPadding =>
                "hint-delta wire: non-zero padding bit after the last field"@,
            WireError::TrailingBytes =>
                "hint-delta wire: trailing bytes after the padded encoding"@,
        }
    }

    /// The text of the error.
    pub fn message(&self) -> (s: String)
        ensures
            s@ == self.text(),
    {
        match self {
            WireError::Truncated => String::from_str(
                "hint-delta wire stream ended before a field was complete",
            ),
            WireError::BucketOutOfRange { bucket } => text::with_number(
                "hint-delta wire: bucket ",
                *bucket as u64,
                " out of range",
            ),
            WireError::OffsetOutOfRange { offset } => text::with_number(
                "hint-delta wire: offset ",
                *offset as u64,
                " out of range",
            ),
            WireError::DeltaOutOfRange { code } => text::with_number(
                "hint-delta wire: delta code point ",
                *code,
                " is the reserved value",
            ),
            WireError::NonCanonicalRows => String::from_str(
                "hint-delta wire: rows are not in canonical order",
            ),
            WireError::NonCanonicalRuns => String::from_str(
                "hint-delta wire: runs are not in canonical form",
            ),
            WireError::NonZeroPadding => String::from_str(
                "hint-delta wire: non-zero padding bit after the last field",
            ),
            WireError::TrailingBytes => String::from_str(
                "hint-delta wire: trailing bytes after the padded encoding",
            ),
        }
    }
}

} // verus!
