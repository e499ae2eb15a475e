//! Receive side of a WebSocket connection: an incremental frame decoder that
//! survives partial reads, and the message-assembly state machine that groups
//! frames into complete application messages while letting control frames
//! interleave with an in-progress fragmented message.

pub mod dataframe;
pub mod result;
pub mod source;
pub mod header;
pub mod decoder;
pub mod receiver;
pub mod laws;
