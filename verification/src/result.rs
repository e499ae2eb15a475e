//! Error kinds reported by the frame decoder and the message assembler.

use vstd::prelude::*;

verus! {

/// Everything that can go wrong while decoding frames or assembling messages.
///
/// Each protocol violation gets its own variant so that callers can tell the
/// rejection states apart; none of them is retried by this crate.
#[derive(Clone, Copy, PartialEq, Eq, Structural, Debug)]
pub enum WebSocketError {
    /// The byte source cannot supply enough bytes right now; parsing state has
    /// been saved and a later call resumes exactly where decoding left off.
    NoDataAvailable,
    /// A `Continuation` frame arrived with no fragmented message in progress.
    UnexpectedContinuation,
    /// A new data-type frame arrived while a fragmented message was incomplete.
    UnexpectedDataFrame,
    /// A reserved header bit was set.
    ReservedBitsSet,
    /// An extended payload length was not minimally encoded.
    InvalidDataFrameLength,
    /// A control frame declared a payload longer than 125 bytes.
    ControlFrameTooLong,
    /// A control frame was fragmented (its FIN bit was clear).
    FragmentedControlFrame,
    /// The frame's masking did not match what this side of the connection
    /// expects (clients must mask, servers must not).
    MaskingMismatch,
}

pub type WebSocketResult<T> = Result<T, WebSocketError>;

} // verus!
