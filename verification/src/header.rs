//! Frame headers: the byte-level grammar of one header, the cursor that
//! survives partial header reads, and the recovery buffer that keeps a
//! decoded header while its payload is still arriving.

use vstd::prelude::*;
use crate::dataframe::Opcode;
use crate::result::WebSocketError;

verus! {

/// One fully decoded frame header.
#[derive(Clone, Copy, PartialEq, Debug)]
pub struct DataFrameHeader {
    /// The FIN bit.
    pub finished: bool,
    /// The frame's opcode.
    pub opcode: Opcode,
    /// The masking key, if the frame is masked.
    pub mask: Option<(u8, u8, u8, u8)>,
    /// The declared payload length in bytes.
    pub len: u64,
}

/// How many extended-length bytes follow the first two header bytes.
pub open spec fn spec_ext_size(b1: u8) -> int {
    if b1 & 0x7f == 126 {
        2
    } else if b1 & 0x7f == 127 {
        8
    } else {
        0
    }
}

/// How many mask-key bytes the header carries.
pub open spec fn spec_mask_size(b1: u8) -> int {
    if b1 & 0x80 == 0x80 {
        4
    } else {
        0
    }
}

/// The total size of a header whose second byte is `b1`.
pub open spec fn spec_header_size(b1: u8) -> int {
    2 + spec_ext_size(b1) + spec_mask_size(b1)
}

/// The big-endian value of a byte sequence.
pub open spec fn spec_be(s: Seq<u8>) -> int
    decreases s.len(),
{
    if s.len() == 0 {
        0
    } else {
        spec_be(s.drop_last()) * 256 + s.last()
    }
}

/// Appending one byte multiplies the prefix value by 256 and adds the byte.
pub proof fn lemma_be_step(s: Seq<u8>, k: int)
    requires
        0 <= k < s.len(),
    ensures
        spec_be(s.take(k + 1)) == spec_be(s.take(k)) * 256 + s[k],
{
    assert(s.take(k + 1).drop_last() =~= s.take(k));
    assert(s.take(k + 1).last() == s[k]);
}

/// The declared payload length encoded in a complete header `s`.
pub open spec fn spec_len_value(s: Seq<u8>) -> int {
    let short = s[1] & 0x7f;
    if short == 126 {
        spec_be(s.subrange(2, 4))
    } else if short == 127 {
        spec_be(s.subrange(2, 10))
    } else {
        short as int
    }
}

/// The header encoded by the complete header bytes `s`.
pub open spec fn spec_header_of(s: Seq<u8>) -> DataFrameHeader {
    let e = spec_ext_size(s[1]);
    DataFrameHeader {
        finished: s[0] & 0x80 == 0x80,
        opcode: Opcode::spec_from_nibble(s[0] & 0x0f),
        mask: if s[1] & 0x80 == 0x80 {
            Some((s[2 + e], s[3 + e], s[4 + e], s[5 + e]))
        } else {
            None
        },
        len: spec_len_value(s) as u64,
    }
}

/// The header-level rejection, if any, for the complete header bytes `s` when
/// `masked` payloads are expected. `None` means the header is acceptable.
pub open spec fn spec_check_header(s: Seq<u8>, masked: bool) -> Option<WebSocketError> {
    let short = s[1] & 0x7f;
    let h = spec_header_of(s);
    if s[0] & 0x70 != 0 {
        Some(WebSocketError::ReservedBitsSet)
    } else if short == 126 && h.len <= 125 {
        Some(WebSocketError::InvalidDataFrameLength)
    } else if short == 127 && h.len <= 65535 {
        Some(WebSocketError::InvalidDataFrameLength)
    } else if h.opcode.spec_is_control() && h.len > 125 {
        Some(WebSocketError::ControlFrameTooLong)
    } else if h.opcode.spec_is_control() && !h.finished {
        Some(WebSocketError::FragmentedControlFrame)
    } else if h.mask.is_some() != masked {
        Some(WebSocketError::MaskingMismatch)
    } else {
        None
    }
}

/// A header that passed `spec_check_header` satisfies these facts, which are
/// all later decoding depends on.
pub open spec fn header_valid(h: DataFrameHeader, masked: bool) -> bool {
    &&& h.opcode.wf()
    &&& h.mask.is_some() == masked
    &&& (h.opcode.spec_is_control() ==> h.finished && h.len <= 125)
}

/// Transient state for decoding one header across multiple partial reads:
/// the header bytes collected so far. Reset to empty the instant a header is
/// fully decoded, whether or not its payload has arrived yet.
#[derive(Debug)]
pub struct ReaderState {
    /// The bytes of the header currently being decoded.
    pub collected: Vec<u8>,
}

impl ReaderState {
    /// The collected bytes are always a strict prefix of one header.
    pub open spec fn wf(&self) -> bool {
        self.collected@.len() < 2 || self.collected@.len() < spec_header_size(self.collected@[1])
    }

    /// An empty cursor: no header decode in progress.
    pub fn new() -> (r: ReaderState)
        ensures
            r.wf(),
            r.collected@ == Seq::<u8>::empty(),
    {
        let r = ReaderState { collected: Vec::new() };
        proof {
            assert(r.collected@ =~= Seq::<u8>::empty());
        }
        r
    }
}

/// A state for a reader to contain a buffer for incomplete reads to recover:
/// a decoded-but-not-yet-fully-read frame header plus the raw payload bytes
/// accumulated so far. Cleared exactly when a frame is fully produced.
#[derive(Debug)]
pub struct PacketState {
    /// The header of the dataframe, present iff its payload is incomplete.
    pub header: Option<DataFrameHeader>,
    /// The raw payload bytes of the packet accumulated so far.
    pub packet: Vec<u8>,
}

impl PacketState {
    /// Well-formed under a masking expectation: the header is present iff a
    /// payload is still being accumulated, the accumulated part is strictly
    /// shorter than the declared length, and a stored header already passed
    /// the header checks.
    pub open spec fn wf(&self, masked: bool) -> bool {
        match self.header {
            Option::None => self.packet@.len() == 0,
            Option::Some(h) => self.packet@.len() < h.len && header_valid(h, masked),
        }
    }

    /// An empty recovery buffer.
    pub fn new() -> (r: PacketState)
        ensures
            r.header.is_none(),
            r.packet@ == Seq::<u8>::empty(),
    {
        let r = PacketState { header: None, packet: Vec::new() };
        proof {
            assert(r.packet@ =~= Seq::<u8>::empty());
        }
        r
    }

    /// Resets this state, setting `header` to `None` and clearing `packet`.
    pub fn reset(&mut self)
        ensures
            final(self).header.is_none(),
            final(self).packet@ == Seq::<u8>::empty(),
    {
        self.header = None;
        self.packet.clear();
        proof {
            assert(final(self).packet@ =~= Seq::<u8>::empty());
        }
    }
}

impl Default for PacketState {
    /// An empty recovery buffer.
    fn default() -> (r: PacketState)
        ensures
            r.header.is_none(),
            r.packet@ == Seq::<u8>::empty(),
    {
        PacketState::new()
    }
}

/// Decode the complete header bytes `hb`.
pub fn parse_header(hb: &Vec<u8>) -> (h: DataFrameHeader)
    requires
        hb@.len() >= 2,
        hb@.len() == spec_header_size(hb@[1]),
    ensures
        h == spec_header_of(hb@),
{
    let b0 = hb[0];
    let b1 = hb[1];
    let short = b1 & 0x7f;
    let ext: usize = if short == 126 {
        2
    } else if short == 127 {
        8
    } else {
        0
    };
    let len: u64 = if short == 126 {
        let ghost seg = hb@.subrange(2, 4);
        let v0: u64 = hb[2] as u64;
        let v1: u64 = v0 * 256 + hb[3] as u64;
        proof {
            assert(seg.take(0) =~= Seq::<u8>::empty());
            lemma_be_step(seg, 0);
            lemma_be_step(seg, 1);
            assert(seg.take(2) =~= seg);
        }
        v1
    } else if short == 127 {
        let ghost seg = hb@.subrange(2, 10);
        let v0: u64 = hb[2] as u64;
        let v1: u64 = v0 * 256 + hb[3] as u64;
        let v2: u64 = v1 * 256 + hb[4] as u64;
        let v3: u64 = v2 * 256 + hb[5] as u64;
        let v4: u64 = v3 * 256 + hb[6] as u64;
        let v5: u64 = v4 * 256 + hb[7] as u64;
        let v6: u64 = v5 * 256 + hb[8] as u64;
        let v7: u64 = v6 * 256 + hb[9] as u64;
        proof {
            assert(seg.take(0) =~= Seq::<u8>::empty());
            lemma_be_step(seg, 0);
            lemma_be_step(seg, 1);
            lemma_be_step(seg, 2);
            lemma_be_step(seg, 3);
            lemma_be_step(seg, 4);
            lemma_be_step(seg, 5);
            lemma_be_step(seg, 6);
            lemma_be_step(seg, 7);
            assert(seg.take(8) =~= seg);
        }
        v7
    } else {
        short as u64
    };
    let mask: Option<(u8, u8, u8, u8)> = if b1 & 0x80 == 0x80 {
        Some((hb[2 + ext], hb[3 + ext], hb[4 + ext], hb[5 + ext]))
    } else {
        None
    };
    proof {
        assert(b0 & 0x0f < 16) by (bit_vector);
    }
    DataFrameHeader {
        finished: b0 & 0x80 == 0x80,
        opcode: Opcode::from_nibble(b0 & 0x0f),
        mask,
        len,
    }
}

/// Apply the header-level checks to the complete header bytes `hb`, whose
/// decoded form is `h`.
pub fn check_header(hb: &Vec<u8>, h: &DataFrameHeader, masked: bool) -> (r: Option<
    WebSocketError,
>)
    requires
        hb@.len() >= 2,
        hb@.len() == spec_header_size(hb@[1]),
        h == spec_header_of(hb@),
    ensures
        r == spec_check_header(hb@, masked),
        r.is_none() ==> header_valid(*h, masked),
{
    let b0 = hb[0];
    let b1 = hb[1];
    let short = b1 & 0x7f;
    proof {
        assert(b0 & 0x0f < 16) by (bit_vector);
    }
    if b0 & 0x70 != 0 {
        Some(WebSocketError::ReservedBitsSet)
    } else if short == 126 && h.len <= 125 {
        Some(WebSocketError::InvalidDataFrameLength)
    } else if short == 127 && h.len <= 65535 {
        Some(WebSocketError::InvalidDataFrameLength)
    } else if h.opcode.is_control() && h.len > 125 {
        Some(WebSocketError::ControlFrameTooLong)
    } else if h.opcode.is_control() && !h.finished {
        Some(WebSocketError::FragmentedControlFrame)
    } else if h.mask.is_some() != masked {
        Some(WebSocketError::MaskingMismatch)
    } else {
        None
    }
}

/// One byte of a masking key.
pub open spec fn spec_mask_byte(key: (u8, u8, u8, u8), m: int) -> u8 {
    if m == 0 {
        key.0
    } else if m == 1 {
        key.1
    } else if m == 2 {
        key.2
    } else {
        key.3
    }
}

/// The unmasking of `data` under `key`: byte `i` is XORed with key byte
/// `i % 4`.
pub open spec fn spec_unmask(key: (u8, u8, u8, u8), data: Seq<u8>) -> Seq<u8> {
    Seq::new(data.len(), |i: int| data[i] ^ spec_mask_byte(key, i % 4))
}

/// Unmask a payload in place of the masked bytes.
pub fn unmask_bytes(key: (u8, u8, u8, u8), data: &Vec<u8>) -> (r: Vec<u8>)
    ensures
        r@ == spec_unmask(key, data@),
{
    let mut out: Vec<u8> = Vec::new();
    let mut i: usize = 0;
    while i < data.len()
        invariant
            i <= data@.len(),
            out@.len() == i,
            forall|j: int| 0 <= j < i ==> out@[j] == data@[j] ^ spec_mask_byte(key, j % 4),
        decreases data@.len() - i,
    {
        let m = i % 4;
        let kb: u8 = if m == 0 {
            key.0
        } else if m == 1 {
            key.1
        } else if m == 2 {
            key.2
        } else {
            key.3
        };
        out.push(data[i] ^ kb);
        i = i + 1;
    }
    proof {
        assert(out@ =~= spec_unmask(key, data@));
    }
    out
}

} // verus!
