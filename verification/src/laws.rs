//! The message-assembly laws, stated and proved once and for all over the
//! spec-level machine that `Receiver::recv_message_dataframes` is proved
//! against. Together with the decoder's resumption contract these pin the
//! externally visible behaviour of the receive path.

use vstd::prelude::*;
use crate::dataframe::{FrameView, Opcode};
use crate::decoder::{ParseStep, spec_parse_frame};
use crate::header::{PacketState, ReaderState};
use crate::receiver::{
    MsgStep, msg_next_pending, spec_assemble, spec_recv_message,
};
use crate::result::WebSocketError;

verus! {

/// A complete, non-fragmented message: when nothing is pending and the
/// stream opens with one finished, non-`Continuation` frame, the call
/// returns exactly that one frame and leaves the pending buffer empty.
pub proof fn lemma_single_frame_message(
    ps: PacketState,
    rs: ReaderState,
    input: Seq<u8>,
    masked: bool,
    f: FrameView,
    n: int,
)
    requires
        ps.header.is_none(),
        rs.collected@.len() == 0,
        spec_parse_frame(input, masked) == ParseStep::Done(f, n),
        1 <= n <= input.len(),
        f.opcode != Opcode::Continuation,
        f.finished,
    ensures
        spec_recv_message(Seq::empty(), ps, rs, input, masked) == MsgStep::MsgDone(
            seq![f],
            Seq::empty(),
            n,
        ),
{
    crate::receiver::lemma_recv_message_fresh(Seq::empty(), ps, rs, input, masked);
}

/// A control frame arriving while a fragmented message is in progress is
/// returned immediately, alone, and the pending fragments are left exactly
/// as they were: the next call resumes the fragmented message as if the
/// control frame had not occurred, since the machine's only cross-call
/// state is that untouched buffer.
pub proof fn lemma_control_interleave(
    pending: Seq<FrameView>,
    ps: PacketState,
    rs: ReaderState,
    input: Seq<u8>,
    masked: bool,
    c: FrameView,
    n: int,
)
    requires
        ps.header.is_none(),
        rs.collected@.len() == 0,
        pending.len() > 0,
        spec_parse_frame(input, masked) == ParseStep::Done(c, n),
        1 <= n <= input.len(),
        c.opcode.spec_is_control(),
    ensures
        spec_recv_message(pending, ps, rs, input, masked) == MsgStep::MsgDone(
            seq![c],
            pending,
            n,
        ),
{
    crate::receiver::lemma_recv_message_fresh(pending, ps, rs, input, masked);
}

/// A `Continuation` frame with nothing to continue is always a protocol
/// error, and the (empty) pending buffer is not touched.
pub proof fn lemma_unexpected_continuation(
    ps: PacketState,
    rs: ReaderState,
    input: Seq<u8>,
    masked: bool,
    f: FrameView,
    n: int,
)
    requires
        ps.header.is_none(),
        rs.collected@.len() == 0,
        spec_parse_frame(input, masked) == ParseStep::Done(f, n),
        1 <= n <= input.len(),
        f.opcode == Opcode::Continuation,
    ensures
        spec_recv_message(Seq::empty(), ps, rs, input, masked) == MsgStep::MsgBad(
            WebSocketError::UnexpectedContinuation,
            Seq::empty(),
        ),
{
    crate::receiver::lemma_recv_message_fresh(Seq::empty(), ps, rs, input, masked);
}

/// A new data-opcode frame while a fragmented message is incomplete is
/// always a protocol error, and the pending fragments are left as they
/// were.
pub proof fn lemma_unexpected_data_frame(
    pending: Seq<FrameView>,
    ps: PacketState,
    rs: ReaderState,
    input: Seq<u8>,
    masked: bool,
    f: FrameView,
    n: int,
)
    requires
        ps.header.is_none(),
        rs.collected@.len() == 0,
        pending.len() > 0,
        spec_parse_frame(input, masked) == ParseStep::Done(f, n),
        1 <= n <= input.len(),
        f.opcode != Opcode::Continuation,
        !f.opcode.spec_is_control(),
    ensures
        spec_recv_message(pending, ps, rs, input, masked) == MsgStep::MsgBad(
            WebSocketError::UnexpectedDataFrame,
            pending,
        ),
{
    crate::receiver::lemma_recv_message_fresh(pending, ps, rs, input, masked);
}

/// The shape of every outcome that returns a frame group: either the group
/// is a single interrupting control frame and the pending fragments are
/// preserved in arrival order behind it, or it is a whole message — the
/// pending fragments followed by the newly decoded fragments, in arrival
/// order, all but the last unfinished, all after the first
/// `Continuation` — and the pending buffer is left empty.
pub proof fn lemma_message_group_shape(pending: Seq<FrameView>, input: Seq<u8>, masked: bool)
    requires
        forall|i: int| 0 <= i < pending.len() ==> !(#[trigger] pending[i]).finished,
    ensures
        spec_assemble(pending, input, masked) matches MsgStep::MsgDone(res, p2, n) ==> {
            ||| {
                &&& res.len() == 1
                &&& res[0].opcode.spec_is_control()
                &&& p2.len() >= pending.len()
                &&& p2.take(pending.len() as int) == pending
                &&& forall|i: int| 0 <= i < p2.len() ==> !(#[trigger] p2[i]).finished
            }
            ||| {
                &&& p2 == Seq::<FrameView>::empty()
                &&& res.len() >= pending.len()
                &&& res.take(pending.len() as int) == pending
                &&& res.len() > 0
                &&& res[res.len() - 1].finished
                &&& forall|i: int| 0 <= i < res.len() - 1 ==> !(#[trigger] res[i]).finished
                &&& forall|i: int|
                    pending.len() <= i < res.len() && i > 0 ==> (#[trigger] res[i]).opcode
                        == Opcode::Continuation
            }
        },
    decreases input.len(),
{
    match spec_parse_frame(input, masked) {
        ParseStep::Incomplete => {},
        ParseStep::Bad(_) => {},
        ParseStep::Done(f, n) => {
            if 1 <= n <= input.len() {
                let np = msg_next_pending(pending, f);
                if pending.len() == 0 {
                    if f.opcode != Opcode::Continuation && !f.finished {
                        lemma_message_group_shape(np, input.skip(n), masked);
                        match spec_assemble(np, input.skip(n), masked) {
                            MsgStep::MsgDone(res, p2, m) => {
                                assert(res.take(0) =~= Seq::<FrameView>::empty());
                                assert(p2.take(0) =~= Seq::<FrameView>::empty());
                                if res.len() == 1 && res[0].opcode.spec_is_control() {
                                } else {
                                    assert(res.take(np.len() as int) == np);
                                    assert(res[0] == np[0]);
                                }
                            },
                            _ => {},
                        }
                    } else if f.opcode != Opcode::Continuation && f.finished {
                        assert(seq![f].take(0) =~= Seq::<FrameView>::empty());
                    }
                } else {
                    if f.opcode == Opcode::Continuation && !f.finished {
                        lemma_message_group_shape(np, input.skip(n), masked);
                        assert(np.take(pending.len() as int) =~= pending);
                        match spec_assemble(np, input.skip(n), masked) {
                            MsgStep::MsgDone(res, p2, m) => {
                                if !(res.len() == 1 && res[0].opcode.spec_is_control()) {
                                    assert(res.take(np.len() as int).take(pending.len() as int)
                                        =~= res.take(pending.len() as int));
                                    assert(res.take(np.len() as int) == np);
                                    assert(res[pending.len() as int] == np[pending.len() as int]);
                                    assert(np[pending.len() as int] == f);
                                } else {
                                    assert(p2.take(np.len() as int).take(pending.len() as int)
                                        =~= p2.take(pending.len() as int));
                                }
                            },
                            _ => {},
                        }
                    } else if f.opcode == Opcode::Continuation && f.finished {
                        assert(pending.push(f).take(pending.len() as int) =~= pending);
                    } else if f.opcode.spec_is_control() {
                        assert(pending.take(pending.len() as int) =~= pending);
                    }
                }
            }
        },
    }
}

} // verus!
