//! The incremental frame decoder: given a byte source, a masking
//! expectation, the parse cursor and the recovery buffer, it produces
//! exactly one fully decoded frame or fails; on short reads it saves its
//! progress so that a later call resumes exactly where decoding left off.
//!
//! The behaviour is pinned by a spec-level parser: `spec_parse_frame` reads
//! one frame off a byte sequence, and `spec_resume` says what decoding
//! yields from saved state plus newly available bytes.

use vstd::prelude::*;
use crate::dataframe::{DataFrame, FrameView};
use crate::header::{
    DataFrameHeader, PacketState, ReaderState, header_valid, spec_check_header, spec_header_of,
    spec_header_size, spec_unmask, parse_header, check_header, unmask_bytes,
};
use crate::result::{WebSocketError, WebSocketResult};
use crate::source::ByteSource;

verus! {

/// The outcome of parsing one frame off the front of a byte sequence.
pub enum ParseStep {
    /// More bytes are needed before the frame is complete or rejected.
    Incomplete,
    /// The bytes violate the header rules, with the exact kind.
    Bad(WebSocketError),
    /// One complete frame, consuming the given number of bytes.
    Done(FrameView, int),
}

/// The frame a header and its raw (possibly masked) payload bytes stand for.
pub open spec fn spec_frame_of(h: DataFrameHeader, raw: Seq<u8>) -> FrameView {
    FrameView {
        finished: h.finished,
        opcode: h.opcode,
        payload: match h.mask {
            Option::Some(k) => spec_unmask(k, raw),
            Option::None => raw,
        },
    }
}

/// Parse one frame off the front of `s`, expecting `masked` payloads: the
/// whole grammar of a single frame. The count in `Done` includes header and
/// payload bytes.
pub open spec fn spec_parse_frame(s: Seq<u8>, masked: bool) -> ParseStep {
    if s.len() < 2 {
        ParseStep::Incomplete
    } else {
        let hs = spec_header_size(s[1]);
        if s.len() < hs {
            ParseStep::Incomplete
        } else {
            let hb = s.take(hs);
            match spec_check_header(hb, masked) {
                Option::Some(e) => ParseStep::Bad(e),
                Option::None => {
                    let h = spec_header_of(hb);
                    if s.len() < hs + h.len {
                        ParseStep::Incomplete
                    } else {
                        ParseStep::Done(
                            spec_frame_of(h, s.subrange(hs, hs + h.len)),
                            hs + h.len,
                        )
                    }
                }
            }
        }
    }
}

/// Add `d` to the byte count of a completed parse; other outcomes are
/// untouched.
pub open spec fn shift_step(s: ParseStep, d: int) -> ParseStep {
    match s {
        ParseStep::Done(f, n) => ParseStep::Done(f, n + d),
        _ => s,
    }
}

/// What decoding yields from saved state plus the bytes `input` that are
/// available now. The count in `Done` counts bytes of `input` alone.
pub open spec fn spec_resume(
    ps: PacketState,
    rs: ReaderState,
    input: Seq<u8>,
    masked: bool,
) -> ParseStep {
    match ps.header {
        Option::Some(h) => {
            let need = h.len - ps.packet@.len();
            if input.len() < need {
                ParseStep::Incomplete
            } else {
                ParseStep::Done(spec_frame_of(h, ps.packet@ + input.take(need)), need)
            }
        },
        Option::None => shift_step(
            spec_parse_frame(rs.collected@ + input, masked),
            -(rs.collected@.len() as int),
        ),
    }
}

/// The joint well-formedness of the decoder's saved state: each half is
/// well-formed, and the parse cursor is empty whenever a decoded header is
/// waiting for its payload.
pub open spec fn decode_wf(ps: PacketState, rs: ReaderState, masked: bool) -> bool {
    &&& ps.wf(masked)
    &&& rs.wf()
    &&& (ps.header.is_some() ==> rs.collected@.len() == 0)
}

/// Shifting a parse outcome twice is shifting it once by the sum.
pub proof fn lemma_shift_compose(s: ParseStep, d1: int, d2: int)
    ensures
        shift_step(shift_step(s, d1), d2) == shift_step(s, d1 + d2),
{
}

/// When the bytes collected so far are still a strict prefix of one header,
/// decoding is incomplete, and saving all of `input` in the cursor resumes
/// exactly where the concatenated stream left off.
proof fn lemma_resume_header_incomplete(
    ps: PacketState,
    rs: ReaderState,
    input: Seq<u8>,
    masked: bool,
    ps2: PacketState,
    rs2: ReaderState,
)
    requires
        ps.header.is_none(),
        ps2.header.is_none(),
        rs2.collected@ == rs.collected@ + input,
        rs2.collected@.len() < 2 || rs2.collected@.len() < spec_header_size(rs2.collected@[1]),
    ensures
        spec_resume(ps, rs, input, masked) == ParseStep::Incomplete,
        forall|more: Seq<u8>|
            spec_resume(ps2, rs2, more, masked) == shift_step(
                spec_resume(ps, rs, input + more, masked),
                -(input.len() as int),
            ),
{
    assert(spec_parse_frame(rs2.collected@, masked) is Incomplete);
    assert forall|more: Seq<u8>|
        spec_resume(ps2, rs2, more, masked) == shift_step(
            spec_resume(ps, rs, input + more, masked),
            -(input.len() as int),
        ) by {
        assert(rs.collected@ + (input + more) =~= rs2.collected@ + more);
        lemma_shift_compose(
            spec_parse_frame(rs2.collected@ + more, masked),
            -(rs.collected@.len() as int),
            -(input.len() as int),
        );
    }
}

/// When a stored header's payload still cannot be completed from `input`,
/// decoding is incomplete, and appending `input` to the recovery buffer
/// resumes exactly where the concatenated stream left off.
proof fn lemma_resume_payload_incomplete_resumed(
    ps: PacketState,
    rs: ReaderState,
    input: Seq<u8>,
    masked: bool,
    ps2: PacketState,
    rs2: ReaderState,
    h: DataFrameHeader,
)
    requires
        ps.header == Option::Some(h),
        ps.packet@.len() < h.len,
        input.len() < h.len - ps.packet@.len(),
        ps2.header == Option::Some(h),
        ps2.packet@ == ps.packet@ + input,
    ensures
        spec_resume(ps, rs, input, masked) == ParseStep::Incomplete,
        forall|more: Seq<u8>|
            spec_resume(ps2, rs2, more, masked) == shift_step(
                spec_resume(ps, rs, input + more, masked),
                -(input.len() as int),
            ),
{
    assert forall|more: Seq<u8>|
        spec_resume(ps2, rs2, more, masked) == shift_step(
            spec_resume(ps, rs, input + more, masked),
            -(input.len() as int),
        ) by {
        let need2 = h.len - ps2.packet@.len();
        if more.len() >= need2 {
            let need = h.len - ps.packet@.len();
            assert((input + more).len() >= need);
            assert(ps.packet@ + (input + more).take(need) =~= ps2.packet@ + more.take(need2));
        }
    }
}

/// When a header was fully decoded from the concatenated stream but its
/// payload cannot be completed yet, decoding is incomplete, and storing the
/// header with the payload bytes seen so far resumes exactly where the
/// concatenated stream left off.
proof fn lemma_resume_payload_incomplete_fresh(
    ps: PacketState,
    rs: ReaderState,
    input: Seq<u8>,
    masked: bool,
    ps2: PacketState,
    rs2: ReaderState,
    h: DataFrameHeader,
    s2: Seq<u8>,
)
    requires
        ps.header.is_none(),
        ps2.header == Option::Some(h),
        rs2.collected@.len() == 0,
        s2 == rs.collected@ + input,
        s2.len() >= 2,
        s2.len() >= spec_header_size(s2[1]),
        spec_check_header(s2.take(spec_header_size(s2[1])), masked) is None,
        h == spec_header_of(s2.take(spec_header_size(s2[1]))),
        s2.len() < spec_header_size(s2[1]) + h.len,
        ps2.packet@ == s2.skip(spec_header_size(s2[1])),
    ensures
        spec_resume(ps, rs, input, masked) == ParseStep::Incomplete,
        forall|more: Seq<u8>|
            spec_resume(ps2, rs2, more, masked) == shift_step(
                spec_resume(ps, rs, input + more, masked),
                -(input.len() as int),
            ),
{
    let hs = spec_header_size(s2[1]);
    assert(spec_parse_frame(s2, masked) is Incomplete);
    assert forall|more: Seq<u8>|
        spec_resume(ps2, rs2, more, masked) == shift_step(
            spec_resume(ps, rs, input + more, masked),
            -(input.len() as int),
        ) by {
        let s3 = rs.collected@ + (input + more);
        assert(s3 =~= s2 + more);
        assert(s3.len() >= 2);
        assert(s3[1] == s2[1]);
        assert(s3.take(hs) =~= s2.take(hs));
        let need2 = h.len - ps2.packet@.len();
        if more.len() < need2 {
            assert(s3.len() < hs + h.len);
            assert(spec_parse_frame(s3, masked) is Incomplete);
        } else {
            assert(s3.len() >= hs + h.len);
            assert(s3.subrange(hs, hs + h.len) =~= ps2.packet@ + more.take(need2));
            assert(spec_parse_frame(s3, masked) == ParseStep::Done(
                spec_frame_of(h, ps2.packet@ + more.take(need2)),
                hs + h.len,
            ));
            assert(hs + h.len - rs.collected@.len() - input.len() == need2);
        }
    }
}

/// How large a header is once its second byte is known.
fn header_size_of(b1: u8) -> (r: usize)
    ensures
        r == spec_header_size(b1),
        2 <= r <= 14,
{
    let short = b1 & 0x7f;
    let ext: usize = if short == 126 {
        2
    } else if short == 127 {
        8
    } else {
        0
    };
    let m: usize = if b1 & 0x80 == 0x80 {
        4
    } else {
        0
    };
    2 + ext + m
}

/// Collect and decode one full header, resuming from and updating the parse
/// cursor. On success exactly the header's bytes (beyond those already
/// collected) were consumed and the cursor is reset; on `NoDataAvailable`
/// everything the source held went into the cursor, which stayed a strict
/// header prefix; any other error is the header-level rejection of the
/// concatenated stream, with the cursor reset.
#[verifier::rlimit(50)]
fn obtain_header(source: &mut ByteSource, masked: bool, reader_state: &mut ReaderState) -> (r:
    WebSocketResult<DataFrameHeader>)
    requires
        old(source).wf(),
        old(reader_state).wf(),
    ensures
        final(source).wf(),
        final(reader_state).wf(),
        old(source).consumed() <= final(source).consumed() <= old(source).consumed() + old(
            source,
        ).remaining().len(),
        final(source).remaining() == old(source).remaining().skip(
            final(source).consumed() - old(source).consumed(),
        ),
        ({
            let input = old(source).remaining();
            let n = final(source).consumed() - old(source).consumed();
            let s_all = old(reader_state).collected@ + input;
            match r {
                Ok(h) => {
                    &&& final(reader_state).collected@.len() == 0
                    &&& s_all.len() >= 2
                    &&& n + old(reader_state).collected@.len() == spec_header_size(s_all[1])
                    &&& spec_check_header(s_all.take(spec_header_size(s_all[1])), masked)
                        is None
                    &&& h == spec_header_of(s_all.take(spec_header_size(s_all[1])))
                    &&& header_valid(h, masked)
                },
                Err(e) => {
                    if e == WebSocketError::NoDataAvailable {
                        &&& n == input.len()
                        &&& final(reader_state).collected@ == old(reader_state).collected@
                            + input
                        &&& (s_all.len() < 2 || s_all.len() < spec_header_size(s_all[1]))
                    } else {
                        &&& final(reader_state).collected@.len() == 0
                        &&& s_all.len() >= 2
                        &&& s_all.len() >= spec_header_size(s_all[1])
                        &&& n + old(reader_state).collected@.len() == spec_header_size(s_all[1])
                        &&& spec_check_header(s_all.take(spec_header_size(s_all[1])), masked)
                            == Option::Some(e)
                    }
                },
            }
        }),
{
    let ghost input = old(source).remaining();
    let ghost oldc = old(reader_state).collected@;
    // Collect the first two header bytes.
    if reader_state.collected.len() < 2 {
        let want = 2 - reader_state.collected.len();
        let mut got = source.take_up_to(want);
        reader_state.collected.append(&mut got);
        if reader_state.collected.len() < 2 {
            proof {
                assert(reader_state.collected@ =~= oldc + input);
                assert(source.remaining() =~= input.skip(input.len() as int));
            }
            return Err(WebSocketError::NoDataAvailable);
        }
    }
    let ghost c1 = source.consumed() - old(source).consumed();
    proof {
        assert(reader_state.collected@ =~= oldc + input.take(c1));
        assert(source.remaining() =~= input.skip(c1));
        assert((oldc + input)[1] == reader_state.collected@[1]);
    }
    // The second byte fixes the full header size; collect the rest.
    let hsize = header_size_of(reader_state.collected[1]);
    if reader_state.collected.len() < hsize {
        let want2 = hsize - reader_state.collected.len();
        let mut got2 = source.take_up_to(want2);
        reader_state.collected.append(&mut got2);
        if reader_state.collected.len() < hsize {
            proof {
                assert(reader_state.collected@ =~= oldc + input);
                assert(source.remaining() =~= input.skip(input.len() as int));
            }
            return Err(WebSocketError::NoDataAvailable);
        }
    }
    let ghost k1 = source.consumed() - old(source).consumed();
    proof {
        assert(reader_state.collected@ =~= oldc + input.take(k1));
        assert(source.remaining() =~= input.skip(k1));
        assert((oldc + input).take(hsize as int) =~= reader_state.collected@);
    }
    let h = parse_header(&reader_state.collected);
    let checked = check_header(&reader_state.collected, &h, masked);
    reader_state.collected.clear();
    match checked {
        Some(e) => Err(e),
        None => Ok(h),
    }
}

/// Decode exactly one frame from `source`, resuming from and updating the
/// saved state. Success consumes exactly the frame's bytes and clears the
/// saved state; `NoDataAvailable` consumes everything the source holds and
/// saves progress so that decoding resumes where it left off; any other
/// error is the rejection the spec-level parser gives for the stream.
#[verifier::rlimit(100)]
pub fn read_dataframe(
    source: &mut ByteSource,
    masked: bool,
    packet_state: &mut PacketState,
    reader_state: &mut ReaderState,
) -> (r: WebSocketResult<DataFrame>)
    requires
        old(source).wf(),
        decode_wf(*old(packet_state), *old(reader_state), masked),
    ensures
        final(source).wf(),
        decode_wf(*final(packet_state), *final(reader_state), masked),
        old(source).consumed() <= final(source).consumed() <= old(source).consumed() + old(
            source,
        ).remaining().len(),
        final(source).remaining() == old(source).remaining().skip(
            final(source).consumed() - old(source).consumed(),
        ),
        ({
            let input = old(source).remaining();
            let n = final(source).consumed() - old(source).consumed();
            match r {
                Ok(f) => {
                    &&& spec_resume(*old(packet_state), *old(reader_state), input, masked)
                        == ParseStep::Done(f@, n)
                    &&& final(packet_state).header.is_none()
                    &&& final(packet_state).packet@.len() == 0
                    &&& final(reader_state).collected@.len() == 0
                },
                Err(e) => {
                    if e == WebSocketError::NoDataAvailable {
                        &&& spec_resume(*old(packet_state), *old(reader_state), input, masked)
                            is Incomplete
                        &&& n == input.len()
                        &&& forall|more: Seq<u8>|
                            spec_resume(*final(packet_state), *final(reader_state), more, masked)
                                == shift_step(
                                spec_resume(
                                    *old(packet_state),
                                    *old(reader_state),
                                    input + more,
                                    masked,
                                ),
                                -(input.len() as int),
                            )
                    } else {
                        spec_resume(*old(packet_state), *old(reader_state), input, masked)
                            == ParseStep::Bad(e)
                    }
                },
            }
        }),
{
    let ghost input = old(source).remaining();
    let ghost oldps = *old(packet_state);
    let ghost oldrs = *old(reader_state);

    let header: DataFrameHeader;
    if packet_state.header.is_none() {
        let got_header = obtain_header(source, masked, reader_state);
        match got_header {
            Ok(h) => {
                header = h;
            },
            Err(e) => {
                proof {
                    let s_all = oldrs.collected@ + input;
                    if e == WebSocketError::NoDataAvailable {
                        lemma_resume_header_incomplete(
                            oldps,
                            oldrs,
                            input,
                            masked,
                            *packet_state,
                            *reader_state,
                        );
                    } else {
                        assert(spec_parse_frame(s_all, masked) == ParseStep::Bad(e));
                    }
                }
                return Err(e);
            },
        }
    } else {
        header = packet_state.header.unwrap();
    }
    let ghost k1 = source.consumed() - old(source).consumed();

    // Accumulate the payload.
    let plen = packet_state.packet.len();
    let need64: u64 = header.len - plen as u64;
    let cap: usize = if need64 > (usize::MAX as u64) {
        usize::MAX
    } else {
        need64 as usize
    };
    let mut got = source.take_up_to(cap);
    let ghost gotlen = got@.len() as int;
    packet_state.packet.append(&mut got);
    if (packet_state.packet.len() as u64) < header.len {
        packet_state.header = Some(header);
        proof {
            // The source is exhausted: had the capped request been the limit,
            // the payload would have been completed.
            let avail = input.skip(k1).len() as int;
            assert(packet_state.packet@.len() == plen + gotlen);
            assert(plen + gotlen < header.len);
            if need64 <= usize::MAX as u64 {
                assert(gotlen < cap as int);
                assert(gotlen == avail);
            } else {
                assert(avail <= usize::MAX as int);
                assert(gotlen == avail);
            }
            assert(source.remaining() =~= input.skip(input.len() as int));
            if oldps.header is Some {
                assert(input.take(input.len() as int) =~= input);
                lemma_resume_payload_incomplete_resumed(
                    oldps,
                    oldrs,
                    input,
                    masked,
                    *packet_state,
                    *reader_state,
                    header,
                );
            } else {
                let s2 = oldrs.collected@ + input;
                assert(s2.take(spec_header_size(s2[1])) =~= oldrs.collected@ + input.take(k1));
                assert(packet_state.packet@ =~= s2.skip(spec_header_size(s2[1])));
                lemma_resume_payload_incomplete_fresh(
                    oldps,
                    oldrs,
                    input,
                    masked,
                    *packet_state,
                    *reader_state,
                    header,
                    s2,
                );
            }
        }
        return Err(WebSocketError::NoDataAvailable);
    }
    let raw = packet_state.packet.split_off(0);
    proof {
        if oldps.header is Some {
            assert(raw@ =~= oldps.packet@ + input.take(header.len - oldps.packet@.len()));
        } else {
            let s_all = oldrs.collected@ + input;
            let hs = spec_header_size(s_all[1]);
            assert(s_all.take(hs) =~= oldrs.collected@ + input.take(k1));
            assert(s_all.len() >= hs + header.len);
            assert(s_all.subrange(hs, hs + header.len) =~= raw@);
            assert(spec_parse_frame(s_all, masked) == ParseStep::Done(
                spec_frame_of(header, raw@),
                hs + header.len,
            ));
        }
        assert(source.remaining() =~= input.skip(k1 + gotlen));
    }
    let payload: Vec<u8> = match header.mask {
        Some(k) => unmask_bytes(k, &raw),
        None => raw,
    };
    packet_state.reset();
    Ok(DataFrame { finished: header.finished, opcode: header.opcode, payload })
}

} // verus!
