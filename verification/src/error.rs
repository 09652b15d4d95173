//! The ways in which a stream or a coding step can refuse a request.

use vstd::prelude::*;

verus! {

/// Why an operation was refused. A refused operation changes nothing, with
/// the one exception that its own documentation names.
#[derive(Clone, Copy, Debug, PartialEq, Eq, Structural)]
pub enum CodingError {
    /// A write was asked of a stream that has been switched to reading.
    ReadOnly,
    /// A read was asked of a stream that was never switched to reading.
    NotStarted,
    /// A read was asked of a stream whose last bit has been consumed.
    Finished,
    /// More bits were asked for than the stream has left.
    InsufficientBits,
    /// The persisted form is empty: not even the header byte is there.
    MissingHeader,
    /// The high nibble of the header byte is not `0xE`.
    HeaderMismatch,
    /// The persisted form holds the header byte and no data.
    HeaderOnly,
    /// The header's count of valid bits in the last byte is not in `1..=8`.
    InvalidBitCount,
    /// The context does not satisfy `0 < count_mps < total_count`.
    InvalidContext,
    /// The interval is too narrow for the context: narrowing it for the
    /// symbol would leave nothing between its bounds.
    EmptyInterval,
    /// The decoder's tag lies outside its interval.
    TagOutOfInterval,
}

} // verus!
