//! The default implementation of a WebSocket Receiver: owns the decoder's
//! saved state and the pending-continuation buffer, and turns a stream of
//! frames into message-level frame groups, returning interleaved control
//! frames immediately without discarding fragmentation progress.
//!
//! The assembly behaviour is pinned by `spec_recv_message`, a spec-level
//! state machine over the pending buffer and the byte stream.

use vstd::prelude::*;
use crate::dataframe::{DataFrame, FrameView, Opcode, frames_view};
use crate::decoder::{
    ParseStep, decode_wf, read_dataframe, shift_step, spec_resume,
};
use crate::header::{PacketState, ReaderState, spec_header_size};
use crate::result::{WebSocketError, WebSocketResult};
use crate::source::ByteSource;
use uuid::Uuid;

verus! {

/// `uuid::Uuid` carried as an opaque per-connection identifier for
/// diagnostic correlation; it does not affect parsing logic.
#[verifier::external_type_specification]
#[verifier::external_body]
pub struct ExUuid(uuid::Uuid);

/// The outcome of one message-assembly call on a byte stream.
pub enum MsgStep {
    /// The stream ran dry; the pending buffer holds the fragments seen so
    /// far and the call reports that no data is available.
    MsgIncomplete(Seq<FrameView>),
    /// A rejection, with its kind and the pending buffer at that point.
    MsgBad(WebSocketError, Seq<FrameView>),
    /// The returned frame group, the pending buffer afterwards, and how many
    /// bytes of the stream were consumed.
    MsgDone(Seq<FrameView>, Seq<FrameView>, int),
}

/// Add `d` to the byte count of a finished assembly; other outcomes are
/// untouched.
pub open spec fn msg_shift(m: MsgStep, d: int) -> MsgStep {
    match m {
        MsgStep::MsgDone(res, p, n) => MsgStep::MsgDone(res, p, n + d),
        _ => m,
    }
}

/// One step of the assembly machine on a decoded frame `f` that consumed
/// `n` bytes, with `rest` the outcome of assembling the remainder of the
/// stream when the machine has to keep reading.
///
/// With no message in progress, a lone finished frame is returned by
/// itself (control frames included), a leading `Continuation` is rejected,
/// and an unfinished data frame opens a fragmented message. While a
/// fragmented message is in progress, `Continuation` frames accumulate
/// until a finished one completes the group, a control frame is returned
/// alone with the pending buffer untouched, and any other opcode is
/// rejected.
pub open spec fn msg_branch(pending: Seq<FrameView>, f: FrameView, n: int, rest: MsgStep) -> MsgStep {
    if pending.len() == 0 {
        if f.opcode == Opcode::Continuation {
            MsgStep::MsgBad(WebSocketError::UnexpectedContinuation, pending)
        } else if f.finished {
            MsgStep::MsgDone(seq![f], Seq::empty(), n)
        } else {
            msg_shift(rest, n)
        }
    } else {
        if f.opcode == Opcode::Continuation {
            if f.finished {
                MsgStep::MsgDone(pending.push(f), Seq::empty(), n)
            } else {
                msg_shift(rest, n)
            }
        } else if f.opcode.spec_is_control() {
            MsgStep::MsgDone(seq![f], pending, n)
        } else {
            MsgStep::MsgBad(WebSocketError::UnexpectedDataFrame, pending)
        }
    }
}

/// The pending buffer after the frame `f` is taken in, when the machine
/// keeps reading.
pub open spec fn msg_next_pending(pending: Seq<FrameView>, f: FrameView) -> Seq<FrameView> {
    if pending.len() == 0 {
        seq![f]
    } else {
        pending.push(f)
    }
}

/// The message-assembly state machine over the pending buffer, reading
/// frames off `input` with a fresh decoder: what one "read a message's
/// frames" call yields once the decoder holds no partial frame.
pub open spec fn spec_assemble(pending: Seq<FrameView>, input: Seq<u8>, masked: bool) -> MsgStep
    decreases input.len(),
{
    match crate::decoder::spec_parse_frame(input, masked) {
        ParseStep::Incomplete => MsgStep::MsgIncomplete(pending),
        ParseStep::Bad(e) => MsgStep::MsgBad(e, pending),
        ParseStep::Done(f, n) => {
            if !(1 <= n <= input.len()) {
                MsgStep::MsgIncomplete(pending)
            } else {
                msg_branch(
                    pending,
                    f,
                    n,
                    spec_assemble(msg_next_pending(pending, f), input.skip(n), masked),
                )
            }
        },
    }
}

/// What one "read a message's frames" call yields from the pending
/// fragments, the decoder's saved state, and the bytes `input`, expecting
/// `masked` frames: the first frame resumes the saved decoder state, and
/// the rest of the stream is assembled with a fresh one.
pub open spec fn spec_recv_message(
    pending: Seq<FrameView>,
    ps: PacketState,
    rs: ReaderState,
    input: Seq<u8>,
    masked: bool,
) -> MsgStep {
    match spec_resume(ps, rs, input, masked) {
        ParseStep::Incomplete => MsgStep::MsgIncomplete(pending),
        ParseStep::Bad(e) => MsgStep::MsgBad(e, pending),
        ParseStep::Done(f, n) => {
            if !(1 <= n <= input.len()) {
                MsgStep::MsgIncomplete(pending)
            } else {
                msg_branch(
                    pending,
                    f,
                    n,
                    spec_assemble(msg_next_pending(pending, f), input.skip(n), masked),
                )
            }
        },
    }
}

/// A completed or rejected parse does not change when more bytes arrive
/// behind it, and a completed parse never consumed more than was there.
pub proof fn lemma_resume_extends(
    ps: PacketState,
    rs: ReaderState,
    input: Seq<u8>,
    ext: Seq<u8>,
    masked: bool,
)
    requires
        decode_wf(ps, rs, masked),
    ensures
        spec_resume(ps, rs, input, masked) matches ParseStep::Done(f, n) ==> n <= input.len()
            && spec_resume(ps, rs, input + ext, masked) == spec_resume(ps, rs, input, masked),
        spec_resume(ps, rs, input, masked) is Bad ==> spec_resume(ps, rs, input + ext, masked)
            == spec_resume(ps, rs, input, masked),
{
    match ps.header {
        Option::Some(h) => {
            let need = h.len - ps.packet@.len();
            if input.len() >= need {
                assert((input + ext).take(need) =~= input.take(need));
            }
        },
        Option::None => {
            let s1 = rs.collected@ + input;
            let s2 = rs.collected@ + (input + ext);
            assert(s2 =~= s1 + ext);
            if s1.len() >= 2 {
                let hs = spec_header_size(s1[1]);
                assert(s2[1] == s1[1]);
                if s1.len() >= hs {
                    assert(s2.take(hs) =~= s1.take(hs));
                    let h = crate::header::spec_header_of(s1.take(hs));
                    if s1.len() >= hs + h.len {
                        assert(s2.subrange(hs, hs + h.len) =~= s1.subrange(hs, hs + h.len));
                    }
                }
            }
        },
    }
}

/// Under a well-formed saved state, a completed parse consumed at least one
/// byte and at most the bytes available.
pub proof fn lemma_resume_pos(ps: PacketState, rs: ReaderState, input: Seq<u8>, masked: bool)
    requires
        decode_wf(ps, rs, masked),
    ensures
        spec_resume(ps, rs, input, masked) matches ParseStep::Done(f, n) ==> 1 <= n
            <= input.len(),
{
}

/// Shifting an assembly outcome twice is shifting it once by the sum.
pub proof fn lemma_msg_shift_compose(m: MsgStep, d1: int, d2: int)
    ensures
        msg_shift(msg_shift(m, d1), d2) == msg_shift(m, d1 + d2),
{
}

/// Changing only the byte count handed to one assembly step shifts its
/// outcome by the same amount.
pub proof fn lemma_msg_branch_shift(
    pending: Seq<FrameView>,
    f: FrameView,
    n: int,
    d: int,
    rest: MsgStep,
)
    ensures
        msg_branch(pending, f, n + d, rest) == msg_shift(msg_branch(pending, f, n, rest), d),
{
    if pending.len() == 0 {
        if f.opcode != Opcode::Continuation && !f.finished {
            lemma_msg_shift_compose(rest, n, d);
        }
    } else {
        if f.opcode == Opcode::Continuation && !f.finished {
            lemma_msg_shift_compose(rest, n, d);
        }
    }
}

/// When the decoder ran dry over `rem` and saved its progress, assembling
/// from the saved state on whatever arrives next is assembling from the old
/// state on the concatenated stream: partial reads are transparent to the
/// state machine.
pub proof fn lemma_msg_state_shift(
    pending: Seq<FrameView>,
    ps: PacketState,
    rs: ReaderState,
    rem: Seq<u8>,
    masked: bool,
    ps2: PacketState,
    rs2: ReaderState,
)
    requires
        decode_wf(ps, rs, masked),
        decode_wf(ps2, rs2, masked),
        forall|more: Seq<u8>|
            spec_resume(ps2, rs2, more, masked) == shift_step(
                spec_resume(ps, rs, rem + more, masked),
                -(rem.len() as int),
            ),
    ensures
        forall|more: Seq<u8>|
            spec_recv_message(pending, ps2, rs2, more, masked) == msg_shift(
                spec_recv_message(pending, ps, rs, rem + more, masked),
                -(rem.len() as int),
            ),
{
    assert forall|more: Seq<u8>|
        spec_recv_message(pending, ps2, rs2, more, masked) == msg_shift(
            spec_recv_message(pending, ps, rs, rem + more, masked),
            -(rem.len() as int),
        ) by {
        let d = rem.len() as int;
        let step2 = spec_resume(ps2, rs2, more, masked);
        let step1 = spec_resume(ps, rs, rem + more, masked);
        assert(step2 == shift_step(step1, -d));
        match step2 {
            ParseStep::Incomplete => {},
            ParseStep::Bad(_) => {},
            ParseStep::Done(f, n2) => {
                lemma_resume_pos(ps2, rs2, more, masked);
                lemma_resume_pos(ps, rs, rem + more, masked);
                let n1 = n2 + d;
                assert(step1 == ParseStep::Done(f, n1));
                assert((rem + more).skip(n1) =~= more.skip(n2));
                let np = msg_next_pending(pending, f);
                let rest = spec_assemble(np, more.skip(n2), masked);
                lemma_msg_branch_shift(pending, f, n1, -d, rest);
            },
        }
    }
}

/// Equality of the two machine entries when the decoder holds nothing:
/// resuming an empty saved state is parsing afresh.
pub proof fn lemma_recv_message_fresh(
    pending: Seq<FrameView>,
    ps: PacketState,
    rs: ReaderState,
    input: Seq<u8>,
    masked: bool,
)
    requires
        ps.header.is_none(),
        rs.collected@.len() == 0,
    ensures
        spec_recv_message(pending, ps, rs, input, masked) == spec_assemble(
            pending,
            input,
            masked,
        ),
{
    assert(rs.collected@ + input =~= input);
}

/// One completed, unfinished continuation step keeps the running relation
/// between the machine on the whole stream and the machine on what is left:
/// after the frame `f` is appended to the pending buffer and the decoder is
/// fresh again, assembly of the rest stands in the same shifted
/// correspondence.
proof fn lemma_inv_step(
    p0: Seq<FrameView>,
    ps0: PacketState,
    rs0: ReaderState,
    input: Seq<u8>,
    m0: bool,
    bufv: Seq<FrameView>,
    pps: PacketState,
    prs: ReaderState,
    prem: Seq<u8>,
    pcon: int,
    f: FrameView,
    n: int,
    ps2: PacketState,
    rs2: ReaderState,
    rem2: Seq<u8>,
)
    requires
        decode_wf(pps, prs, m0),
        bufv.len() >= 1,
        spec_resume(pps, prs, prem, m0) == ParseStep::Done(f, n),
        1 <= n <= prem.len(),
        f.opcode == Opcode::Continuation,
        !f.finished,
        ps2.header.is_none(),
        rs2.collected@.len() == 0,
        rem2 == prem.skip(n),
        forall|more: Seq<u8>|
            spec_recv_message(bufv, pps, prs, prem + more, m0) == msg_shift(
                spec_recv_message(p0, ps0, rs0, input + more, m0),
                -pcon,
            ),
    ensures
        forall|more: Seq<u8>|
            spec_recv_message(bufv.push(f), ps2, rs2, rem2 + more, m0) == msg_shift(
                spec_recv_message(p0, ps0, rs0, input + more, m0),
                -(pcon + n),
            ),
{
    assert forall|more: Seq<u8>|
        spec_recv_message(bufv.push(f), ps2, rs2, rem2 + more, m0) == msg_shift(
            spec_recv_message(p0, ps0, rs0, input + more, m0),
            -(pcon + n),
        ) by {
        lemma_resume_extends(pps, prs, prem, more, m0);
        lemma_recv_message_fresh(bufv.push(f), ps2, rs2, rem2 + more, m0);
        assert((prem + more).skip(n) =~= rem2 + more);
        let a = spec_assemble(bufv.push(f), (prem + more).skip(n), m0);
        assert(spec_recv_message(bufv, pps, prs, prem + more, m0) == msg_shift(a, n));
        assert(spec_recv_message(bufv, pps, prs, prem + more, m0) == msg_shift(
            spec_recv_message(p0, ps0, rs0, input + more, m0),
            -pcon,
        ));
        lemma_msg_shift_compose(a, n, -n);
        lemma_msg_shift_zero(a);
        lemma_msg_shift_compose(spec_recv_message(p0, ps0, rs0, input + more, m0), -pcon, -n);
    }
}

/// When the stream ran dry mid-call, the saved decoder state carries the
/// running relation over to the next call: assembling from the final state
/// on whatever arrives next is assembling from the original state on the
/// whole concatenated stream.
proof fn lemma_inv_dry(
    p0: Seq<FrameView>,
    ps0: PacketState,
    rs0: ReaderState,
    input: Seq<u8>,
    m0: bool,
    bufv: Seq<FrameView>,
    pps: PacketState,
    prs: ReaderState,
    prem: Seq<u8>,
    pcon: int,
    ps2: PacketState,
    rs2: ReaderState,
)
    requires
        decode_wf(pps, prs, m0),
        decode_wf(ps2, rs2, m0),
        pcon + prem.len() == input.len(),
        forall|more: Seq<u8>|
            spec_recv_message(bufv, pps, prs, prem + more, m0) == msg_shift(
                spec_recv_message(p0, ps0, rs0, input + more, m0),
                -pcon,
            ),
        forall|more: Seq<u8>|
            spec_resume(ps2, rs2, more, m0) == shift_step(
                spec_resume(pps, prs, prem + more, m0),
                -(prem.len() as int),
            ),
    ensures
        forall|more: Seq<u8>|
            spec_recv_message(bufv, ps2, rs2, more, m0) == msg_shift(
                spec_recv_message(p0, ps0, rs0, input + more, m0),
                -(input.len() as int),
            ),
{
    lemma_msg_state_shift(bufv, pps, prs, prem, m0, ps2, rs2);
    assert forall|more: Seq<u8>|
        spec_recv_message(bufv, ps2, rs2, more, m0) == msg_shift(
            spec_recv_message(p0, ps0, rs0, input + more, m0),
            -(input.len() as int),
        ) by {
        assert(spec_recv_message(bufv, ps2, rs2, more, m0) == msg_shift(
            spec_recv_message(bufv, pps, prs, prem + more, m0),
            -(prem.len() as int),
        ));
        assert(spec_recv_message(bufv, pps, prs, prem + more, m0) == msg_shift(
            spec_recv_message(p0, ps0, rs0, input + more, m0),
            -pcon,
        ));
        lemma_msg_shift_compose(
            spec_recv_message(p0, ps0, rs0, input + more, m0),
            -pcon,
            -(prem.len() as int),
        );
    }
}

/// Shifting by nothing changes nothing.
pub proof fn lemma_msg_shift_zero(m: MsgStep)
    ensures
        msg_shift(m, 0) == m,
{
}

/// The invariant of the pending-continuation buffer between calls: no frame
/// in it is finished, the first is never a `Continuation`, and every later
/// one is.
pub open spec fn pending_wf(p: Seq<FrameView>) -> bool {
    &&& forall|i: int| 0 <= i < p.len() ==> !(#[trigger] p[i]).finished
    &&& (p.len() > 0 ==> p[0].opcode != Opcode::Continuation)
    &&& forall|i: int| 1 <= i < p.len() ==> (#[trigger] p[i]).opcode == Opcode::Continuation
}

/// A Receiver that owns the decoder's saved state and the
/// pending-continuation buffer, and assembles frames into messages.
pub struct Receiver {
    buffer: Vec<DataFrame>,
    mask: bool,
    packet_state: PacketState,
    reader_state: ReaderState,
    uuid: Uuid,
}

impl Receiver {
    /// The fragments of the in-progress fragmented message, in arrival
    /// order.
    pub closed spec fn pending(&self) -> Seq<FrameView> {
        frames_view(self.buffer@)
    }

    /// Whether this receiver expects incoming frames to be masked.
    pub closed spec fn spec_mask(&self) -> bool {
        self.mask
    }

    /// The connection identifier.
    pub closed spec fn spec_uuid(&self) -> Uuid {
        self.uuid
    }

    /// The recovery buffer for a partially read frame.
    pub closed spec fn packet(&self) -> PacketState {
        self.packet_state
    }

    /// The cursor for a partially read header.
    pub closed spec fn cursor(&self) -> ReaderState {
        self.reader_state
    }

    /// Well-formed: the decoder state is sound and the pending buffer obeys
    /// the fragmentation invariant.
    pub open spec fn wf(&self) -> bool {
        &&& decode_wf(self.packet(), self.cursor(), self.spec_mask())
        &&& pending_wf(self.pending())
    }

    /// Nothing pending anywhere: no fragments, no partial frame, no partial
    /// header.
    pub open spec fn fresh(&self) -> bool {
        &&& self.pending().len() == 0
        &&& self.packet().header.is_none()
        &&& self.packet().packet@.len() == 0
        &&& self.cursor().collected@.len() == 0
    }

    /// Create a new Receiver with the given masking expectation and
    /// connection identifier.
    pub fn new(mask: bool, uuid: Uuid) -> (r: Receiver)
        ensures
            r.wf(),
            r.fresh(),
            r.spec_mask() == mask,
            r.spec_uuid() == uuid,
    {
        let r = Receiver {
            buffer: Vec::new(),
            mask: mask,
            packet_state: PacketState::default(),
            reader_state: ReaderState::new(),
            uuid: uuid,
        };
        proof {
            assert(r.pending() =~= Seq::<FrameView>::empty());
        }
        r
    }

    /// The connection identifier this receiver was created with.
    pub fn uuid(&self) -> (r: Uuid)
        ensures
            r == self.spec_uuid(),
    {
        self.uuid
    }

    /// Reads a single data frame from the byte source: a thin pass-through
    /// to the frame decoder using this receiver's own masking expectation
    /// and saved state. No message-level semantics; the pending buffer is
    /// untouched. The identifier parameter is carried for diagnostic
    /// correlation only and does not affect parsing.
    pub fn recv_dataframe(&mut self, source: &mut ByteSource, uuid: Uuid) -> (r: WebSocketResult<
        DataFrame,
    >)
        requires
            old(self).wf(),
            old(source).wf(),
        ensures
            final(self).wf(),
            final(source).wf(),
            final(self).pending() == old(self).pending(),
            final(self).spec_mask() == old(self).spec_mask(),
            final(self).spec_uuid() == old(self).spec_uuid(),
            old(source).consumed() <= final(source).consumed() <= old(source).consumed() + old(
                source,
            ).remaining().len(),
            final(source).remaining() == old(source).remaining().skip(
                final(source).consumed() - old(source).consumed(),
            ),
            ({
                let input = old(source).remaining();
                let n = final(source).consumed() - old(source).consumed();
                match r {
                    Ok(f) => {
                        &&& spec_resume(
                            old(self).packet(),
                            old(self).cursor(),
                            input,
                            old(self).spec_mask(),
                        ) == ParseStep::Done(f@, n)
                        &&& final(self).packet().header.is_none()
                        &&& final(self).packet().packet@.len() == 0
                        &&& final(self).cursor().collected@.len() == 0
                    },
                    Err(e) => {
                        if e == WebSocketError::NoDataAvailable {
                            &&& spec_resume(
                                old(self).packet(),
                                old(self).cursor(),
                                input,
                                old(self).spec_mask(),
                            ) is Incomplete
                            &&& n == input.len()
                            &&& forall|more: Seq<u8>|
                                spec_resume(
                                    final(self).packet(),
                                    final(self).cursor(),
                                    more,
                                    final(self).spec_mask(),
                                ) == shift_step(
                                    spec_resume(
                                        old(self).packet(),
                                        old(self).cursor(),
                                        input + more,
                                        old(self).spec_mask(),
                                    ),
                                    -(input.len() as int),
                                )
                        } else {
                            spec_resume(
                                old(self).packet(),
                                old(self).cursor(),
                                input,
                                old(self).spec_mask(),
                            ) == ParseStep::Bad(e)
                        }
                    },
                }
            }),
    {
        let _ = uuid;
        read_dataframe(source, self.mask, &mut self.packet_state, &mut self.reader_state)
    }

    /// Returns the data frames that constitute one message: the core
    /// message-assembly state machine over the pending-continuation buffer.
    ///
    /// With nothing pending, one frame is decoded: a `Continuation` is a
    /// protocol error, a finished frame is the whole (length-one) message.
    /// Otherwise frames are decoded in a loop: `Continuation` frames
    /// accumulate until a finished one completes the message; a control
    /// frame is returned immediately by itself with the pending buffer left
    /// untouched, so that a later call resumes the fragmented message
    /// exactly as before; any other opcode is a protocol error.
    #[verifier::rlimit(100)]
    pub fn recv_message_dataframes(&mut self, source: &mut ByteSource) -> (r: WebSocketResult<
        Vec<DataFrame>,
    >)
        requires
            old(self).wf(),
            old(source).wf(),
        ensures
            final(self).wf(),
            final(source).wf(),
            final(self).spec_mask() == old(self).spec_mask(),
            final(self).spec_uuid() == old(self).spec_uuid(),
            old(source).consumed() <= final(source).consumed() <= old(source).consumed() + old(
                source,
            ).remaining().len(),
            final(source).remaining() == old(source).remaining().skip(
                final(source).consumed() - old(source).consumed(),
            ),
            ({
                let input = old(source).remaining();
                let n = final(source).consumed() - old(source).consumed();
                let step = spec_recv_message(
                    old(self).pending(),
                    old(self).packet(),
                    old(self).cursor(),
                    input,
                    old(self).spec_mask(),
                );
                match r {
                    Ok(frames) => {
                        &&& step == MsgStep::MsgDone(
                            frames_view(frames@),
                            final(self).pending(),
                            n,
                        )
                        &&& final(self).packet().header.is_none()
                        &&& final(self).packet().packet@.len() == 0
                        &&& final(self).cursor().collected@.len() == 0
                    },
                    Err(e) => {
                        if e == WebSocketError::NoDataAvailable {
                            &&& step == MsgStep::MsgIncomplete(final(self).pending())
                            &&& n == input.len()
                            &&& forall|more: Seq<u8>|
                                spec_recv_message(
                                    final(self).pending(),
                                    final(self).packet(),
                                    final(self).cursor(),
                                    more,
                                    final(self).spec_mask(),
                                ) == msg_shift(
                                    spec_recv_message(
                                        old(self).pending(),
                                        old(self).packet(),
                                        old(self).cursor(),
                                        input + more,
                                        old(self).spec_mask(),
                                    ),
                                    -(input.len() as int),
                                )
                        } else {
                            step == MsgStep::MsgBad(e, final(self).pending())
                        }
                    },
                }
            }),
    {
        let ghost input = old(source).remaining();
        let ghost c0 = old(source).consumed();
        let ghost p0 = old(self).pending();
        let ghost ps0 = old(self).packet();
        let ghost rs0 = old(self).cursor();
        let ghost m0 = old(self).spec_mask();
        let ghost u0 = old(self).spec_uuid();

        let mut finished: bool;
        if self.buffer.len() == 0 {
            let got = read_dataframe(
                source,
                self.mask,
                &mut self.packet_state,
                &mut self.reader_state,
            );
            let first = match got {
                Ok(f) => f,
                Err(e) => {
                    proof {
                        if e == WebSocketError::NoDataAvailable {
                            lemma_msg_state_shift(
                                p0,
                                ps0,
                                rs0,
                                input,
                                m0,
                                self.packet_state,
                                self.reader_state,
                            );
                        }
                    }
                    return Err(e);
                },
            };
            if first.opcode == Opcode::Continuation {
                proof {
                    lemma_resume_pos(ps0, rs0, input, m0);
                }
                return Err(WebSocketError::UnexpectedContinuation);
            }
            finished = first.finished;
            let ghost n1 = source.consumed() - c0;
            proof {
                lemma_resume_pos(ps0, rs0, input, m0);
            }
            self.buffer.push(first);
            proof {
                assert(self.pending() =~= seq![first@]);
            }
            if finished {
                proof {
                    assert(p0.len() == 0);
                    assert(spec_recv_message(p0, ps0, rs0, input, m0) == MsgStep::MsgDone(
                        seq![first@],
                        Seq::empty(),
                        n1,
                    ));
                }
            } else {
                proof {
                    assert forall|more: Seq<u8>|
                        spec_recv_message(
                            self.pending(),
                            self.packet_state,
                            self.reader_state,
                            source.remaining() + more,
                            m0,
                        ) == msg_shift(
                            spec_recv_message(p0, ps0, rs0, input + more, m0),
                            -n1,
                        ) by {
                        lemma_resume_extends(ps0, rs0, input, more, m0);
                        lemma_recv_message_fresh(
                            self.pending(),
                            self.packet_state,
                            self.reader_state,
                            source.remaining() + more,
                            m0,
                        );
                        assert((input + more).skip(n1) =~= source.remaining() + more);
                        let a = spec_assemble(seq![first@], (input + more).skip(n1), m0);
                        assert(spec_recv_message(p0, ps0, rs0, input + more, m0) == msg_shift(
                            a,
                            n1,
                        ));
                        lemma_msg_shift_compose(a, n1, -n1);
                        lemma_msg_shift_zero(a);
                    }
                }
            }
        } else {
            finished = false;
            proof {
                assert forall|more: Seq<u8>|
                    spec_recv_message(
                        self.pending(),
                        self.packet_state,
                        self.reader_state,
                        source.remaining() + more,
                        m0,
                    ) == msg_shift(
                        spec_recv_message(p0, ps0, rs0, input + more, m0),
                        -(source.consumed() - c0),
                    ) by {
                    lemma_msg_shift_zero(spec_recv_message(p0, ps0, rs0, input + more, m0));
                }
            }
        }

        while !finished
            invariant
                c0 == old(source).consumed(),
                input == old(source).remaining(),
                p0 == old(self).pending(),
                ps0 == old(self).packet(),
                rs0 == old(self).cursor(),
                m0 == old(self).spec_mask(),
                u0 == old(self).spec_uuid(),
                source.wf(),
                self.mask == m0,
                self.spec_uuid() == u0,
                decode_wf(self.packet_state, self.reader_state, m0),
                c0 <= source.consumed() <= c0 + input.len(),
                source.remaining() == input.skip(source.consumed() - c0),
                self.buffer@.len() >= 1,
                !finished ==> pending_wf(self.pending()),
                !finished ==> forall|more: Seq<u8>|
                    spec_recv_message(
                        self.pending(),
                        self.packet_state,
                        self.reader_state,
                        source.remaining() + more,
                        m0,
                    ) == msg_shift(
                        spec_recv_message(p0, ps0, rs0, input + more, m0),
                        -(source.consumed() - c0),
                    ),
                finished ==> spec_recv_message(p0, ps0, rs0, input, m0) == MsgStep::MsgDone(
                    self.pending(),
                    Seq::empty(),
                    source.consumed() - c0,
                ),
                finished ==> self.packet_state.header.is_none()
                    && self.packet_state.packet@.len() == 0
                    && self.reader_state.collected@.len() == 0,
            decreases source.remaining().len(),
        {
            let ghost prem = source.remaining();
            let ghost pps = self.packet_state;
            let ghost prs = self.reader_state;
            let ghost pcon = source.consumed() - c0;
            let ghost bufv = self.pending();
            proof {
                assert(prem + Seq::<u8>::empty() =~= prem);
                assert(input + Seq::<u8>::empty() =~= input);
                assert(spec_recv_message(bufv, pps, prs, prem + Seq::<u8>::empty(), m0)
                    == msg_shift(
                    spec_recv_message(p0, ps0, rs0, input + Seq::<u8>::empty(), m0),
                    -pcon,
                ));
            }
            let got = read_dataframe(
                source,
                self.mask,
                &mut self.packet_state,
                &mut self.reader_state,
            );
            let next = match got {
                Ok(f) => f,
                Err(e) => {
                    proof {
                        if e == WebSocketError::NoDataAvailable {
                            assert(spec_recv_message(bufv, pps, prs, prem, m0)
                                == MsgStep::MsgIncomplete(bufv));
                            assert(spec_recv_message(p0, ps0, rs0, input, m0)
                                == MsgStep::MsgIncomplete(bufv));
                            lemma_inv_dry(
                                p0,
                                ps0,
                                rs0,
                                input,
                                m0,
                                bufv,
                                pps,
                                prs,
                                prem,
                                pcon,
                                self.packet_state,
                                self.reader_state,
                            );
                        } else {
                            assert(spec_recv_message(bufv, pps, prs, prem, m0)
                                == MsgStep::MsgBad(e, bufv));
                            assert(spec_recv_message(p0, ps0, rs0, input, m0)
                                == MsgStep::MsgBad(e, bufv));
                        }
                    }
                    return Err(e);
                },
            };
            let ghost n = source.consumed() - c0 - pcon;
            proof {
                lemma_resume_pos(pps, prs, prem, m0);
            }
            finished = next.finished;
            if next.opcode == Opcode::Continuation {
                self.buffer.push(next);
                proof {
                    assert(self.pending() =~= bufv.push(next@));
                }
                if finished {
                    proof {
                        assert(spec_recv_message(bufv, pps, prs, prem, m0) == MsgStep::MsgDone(
                            bufv.push(next@),
                            Seq::empty(),
                            n,
                        ));
                        lemma_msg_shift_compose(
                            spec_recv_message(p0, ps0, rs0, input, m0),
                            -pcon,
                            pcon,
                        );
                        lemma_msg_shift_zero(spec_recv_message(p0, ps0, rs0, input, m0));
                        assert(spec_recv_message(p0, ps0, rs0, input, m0) == MsgStep::MsgDone(
                            bufv.push(next@),
                            Seq::empty(),
                            pcon + n,
                        ));
                    }
                } else {
                    proof {
                        lemma_inv_step(
                            p0,
                            ps0,
                            rs0,
                            input,
                            m0,
                            bufv,
                            pps,
                            prs,
                            prem,
                            pcon,
                            next@,
                            n,
                            self.packet_state,
                            self.reader_state,
                            source.remaining(),
                        );
                    }
                }
            } else if next.opcode.is_control() {
                proof {
                    assert(spec_recv_message(bufv, pps, prs, prem, m0) == MsgStep::MsgDone(
                        seq![next@],
                        bufv,
                        n,
                    ));
                    lemma_msg_shift_compose(
                        spec_recv_message(p0, ps0, rs0, input, m0),
                        -pcon,
                        pcon,
                    );
                    lemma_msg_shift_zero(spec_recv_message(p0, ps0, rs0, input, m0));
                    assert(spec_recv_message(p0, ps0, rs0, input, m0) == MsgStep::MsgDone(
                        seq![next@],
                        bufv,
                        pcon + n,
                    ));
                }
                let result = vec![next];
                proof {
                    assert(frames_view(result@) =~= seq![next@]);
                }
                return Ok(result);
            } else {
                proof {
                    assert(spec_recv_message(bufv, pps, prs, prem, m0) == MsgStep::MsgBad(
                        WebSocketError::UnexpectedDataFrame,
                        bufv,
                    ));
                    assert(spec_recv_message(p0, ps0, rs0, input, m0) == MsgStep::MsgBad(
                        WebSocketError::UnexpectedDataFrame,
                        bufv,
                    ));
                }
                return Err(WebSocketError::UnexpectedDataFrame);
            }
        }
        let ghost bpre = self.buffer@;
        let msg = self.buffer.split_off(0);
        proof {
            assert(msg@ =~= bpre);
            assert(self.pending() =~= Seq::<FrameView>::empty());
        }
        Ok(msg)
    }
}

} // verus!
