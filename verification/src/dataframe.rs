//! Frames and opcodes: the unit of WebSocket wire framing that the decoder
//! produces and the message assembler consumes.

use vstd::prelude::*;

verus! {

/// The closed enumeration of WebSocket opcodes. Values 8 through 15 are
/// control opcodes; all others are data opcodes.
#[derive(Clone, Copy, PartialEq, Eq, Structural, Debug)]
pub enum Opcode {
    Continuation,
    Text,
    Binary,
    /// A reserved data opcode, 3 through 7.
    ReservedData(u8),
    Close,
    Ping,
    Pong,
    /// A reserved control opcode, 11 through 15.
    ReservedControl(u8),
}

impl Opcode {
    /// The 4-bit wire value this opcode stands for.
    pub open spec fn spec_value(self) -> u8 {
        match self {
            Opcode::Continuation => 0,
            Opcode::Text => 1,
            Opcode::Binary => 2,
            Opcode::ReservedData(n) => n,
            Opcode::Close => 8,
            Opcode::Ping => 9,
            Opcode::Pong => 10,
            Opcode::ReservedControl(n) => n,
        }
    }

    /// A well-formed opcode keeps its reserved payload inside its range, so
    /// that each of the sixteen wire values has exactly one representation.
    pub open spec fn wf(self) -> bool {
        match self {
            Opcode::ReservedData(n) => 3 <= n <= 7,
            Opcode::ReservedControl(n) => 11 <= n <= 15,
            _ => true,
        }
    }

    /// The opcode a 4-bit wire value stands for.
    pub open spec fn spec_from_nibble(n: u8) -> Opcode {
        if n == 0 {
            Opcode::Continuation
        } else if n == 1 {
            Opcode::Text
        } else if n == 2 {
            Opcode::Binary
        } else if n <= 7 {
            Opcode::ReservedData(n)
        } else if n == 8 {
            Opcode::Close
        } else if n == 9 {
            Opcode::Ping
        } else if n == 10 {
            Opcode::Pong
        } else {
            Opcode::ReservedControl(n)
        }
    }

    /// Decode a 4-bit wire value.
    pub fn from_nibble(n: u8) -> (r: Opcode)
        requires
            n < 16,
        ensures
            r == Opcode::spec_from_nibble(n),
            r.wf(),
            r.spec_value() == n,
    {
        if n == 0 {
            Opcode::Continuation
        } else if n == 1 {
            Opcode::Text
        } else if n == 2 {
            Opcode::Binary
        } else if n <= 7 {
            Opcode::ReservedData(n)
        } else if n == 8 {
            Opcode::Close
        } else if n == 9 {
            Opcode::Ping
        } else if n == 10 {
            Opcode::Pong
        } else {
            Opcode::ReservedControl(n)
        }
    }

    /// Whether this opcode is a control opcode (wire value 8 through 15).
    pub open spec fn spec_is_control(self) -> bool {
        match self {
            Opcode::Close | Opcode::Ping | Opcode::Pong | Opcode::ReservedControl(_) => true,
            _ => false,
        }
    }

    /// Whether this opcode is a control opcode, the capability query the
    /// assembler branches on instead of comparing raw numbers.
    pub fn is_control(self) -> (r: bool)
        ensures
            r == self.spec_is_control(),
    {
        match self {
            Opcode::Close | Opcode::Ping | Opcode::Pong | Opcode::ReservedControl(_) => true,
            _ => false,
        }
    }
}

/// The mathematical view of one decoded frame.
pub struct FrameView {
    pub finished: bool,
    pub opcode: Opcode,
    pub payload: Seq<u8>,
}

/// One decoded WebSocket frame: the FIN bit, the opcode, and the full,
/// unmasked payload of this single frame. The decoder hands frames out
/// atomically; no half-populated frame escapes its API.
#[derive(Clone, PartialEq, Debug)]
pub struct DataFrame {
    /// The FIN bit: whether this frame ends its message.
    pub finished: bool,
    /// The frame's opcode.
    pub opcode: Opcode,
    /// The unmasked application payload of this single frame.
    pub payload: Vec<u8>,
}

impl View for DataFrame {
    type V = FrameView;

    open spec fn view(&self) -> FrameView {
        FrameView { finished: self.finished, opcode: self.opcode, payload: self.payload@ }
    }
}

/// The views of a vector of frames, in order.
pub open spec fn frames_view(frames: Seq<DataFrame>) -> Seq<FrameView> {
    frames.map(|i: int, f: DataFrame| f@)
}

} // verus!
