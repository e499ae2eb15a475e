use wsrecv::dataframe::Opcode;
use wsrecv::decoder::read_dataframe;
use wsrecv::header::{PacketState, ReaderState};
use wsrecv::result::WebSocketError;
use wsrecv::source::ByteSource;

fn frame_bytes(fin: bool, opcode: u8, payload: &[u8], mask: Option<[u8; 4]>) -> Vec<u8> {
    let mut out = Vec::new();
    let b0 = if fin { 0x80 | opcode } else { opcode };
    out.push(b0);
    let mask_bit = if mask.is_some() { 0x80u8 } else { 0 };
    let len = payload.len();
    if len < 126 {
        out.push(mask_bit | len as u8);
    } else if len <= 0xffff {
        out.push(mask_bit | 126);
        out.push((len >> 8) as u8);
        out.push(len as u8);
    } else {
        out.push(mask_bit | 127);
        for i in (0..8).rev() {
            out.push((len >> (8 * i)) as u8);
        }
    }
    match mask {
        Some(key) => {
            out.extend_from_slice(&key);
            for (i, b) in payload.iter().enumerate() {
                out.push(b ^ key[i % 4]);
            }
        }
        None => out.extend_from_slice(payload),
    }
    out
}

fn decode_all(bytes: &[u8], masked: bool) -> Vec<Result<(bool, Opcode, Vec<u8>), WebSocketError>> {
    let mut source = ByteSource::new();
    source.feed(bytes);
    let mut ps = PacketState::new();
    let mut rs = ReaderState::new();
    let mut out = Vec::new();
    loop {
        match read_dataframe(&mut source, masked, &mut ps, &mut rs) {
            Ok(f) => out.push(Ok((f.finished, f.opcode, f.payload))),
            Err(WebSocketError::NoDataAvailable) => break,
            Err(e) => {
                out.push(Err(e));
                break;
            }
        }
    }
    out
}

#[test]
fn decodes_one_unmasked_text_frame() {
    let bytes = frame_bytes(true, 1, b"Hello", None);
    let frames = decode_all(&bytes, false);
    assert_eq!(frames.len(), 1);
    assert_eq!(
        frames[0],
        Ok((true, Opcode::Text, b"Hello".to_vec()))
    );
}

#[test]
fn decodes_one_masked_frame_and_unmasks_payload() {
    let bytes = frame_bytes(true, 2, &[1, 2, 3, 4, 5], Some([0xaa, 0xbb, 0xcc, 0xdd]));
    let frames = decode_all(&bytes, true);
    assert_eq!(frames.len(), 1);
    assert_eq!(frames[0], Ok((true, Opcode::Binary, vec![1, 2, 3, 4, 5])));
}

#[test]
fn masked_wire_bytes_differ_from_payload() {
    // The wire form of a masked frame must not contain the payload as-is;
    // decoding restores it.
    let bytes = frame_bytes(true, 2, b"secret", Some([1, 2, 3, 4]));
    assert!(!bytes.windows(6).any(|w| w == b"secret"));
    let frames = decode_all(&bytes, true);
    assert_eq!(frames[0], Ok((true, Opcode::Binary, b"secret".to_vec())));
}

#[test]
fn decodes_two_byte_extended_length() {
    let payload: Vec<u8> = (0..300u32).map(|i| (i % 251) as u8).collect();
    let bytes = frame_bytes(true, 2, &payload, None);
    let frames = decode_all(&bytes, false);
    assert_eq!(frames[0], Ok((true, Opcode::Binary, payload)));
}

#[test]
fn decodes_eight_byte_extended_length() {
    let payload: Vec<u8> = vec![7u8; 70000];
    let bytes = frame_bytes(true, 2, &payload, None);
    let frames = decode_all(&bytes, false);
    assert_eq!(frames[0], Ok((true, Opcode::Binary, payload)));
}

#[test]
fn one_byte_at_a_time_gives_same_frames_as_one_chunk() {
    let mut bytes = frame_bytes(false, 1, b"AB", None);
    bytes.extend(frame_bytes(true, 0, b"CDEF", None));
    bytes.extend(frame_bytes(true, 9, b"", None));

    let whole = decode_all(&bytes, false);

    let mut source = ByteSource::new();
    let mut ps = PacketState::new();
    let mut rs = ReaderState::new();
    let mut dribbled = Vec::new();
    for b in &bytes {
        source.feed(&[*b]);
        loop {
            match read_dataframe(&mut source, false, &mut ps, &mut rs) {
                Ok(f) => dribbled.push(Ok((f.finished, f.opcode, f.payload))),
                Err(WebSocketError::NoDataAvailable) => break,
                Err(e) => {
                    dribbled.push(Err(e));
                    break;
                }
            }
        }
    }
    assert_eq!(whole, dribbled);
    assert_eq!(dribbled.len(), 3);
}

#[test]
fn reserved_bits_are_rejected() {
    let mut bytes = frame_bytes(true, 1, b"x", None);
    bytes[0] |= 0x40;
    let frames = decode_all(&bytes, false);
    assert_eq!(frames[0], Err(WebSocketError::ReservedBitsSet));
}

#[test]
fn non_minimal_two_byte_length_is_rejected() {
    // 126-form carrying a value that fits in 7 bits.
    let bytes = vec![0x81, 126, 0, 5, b'h', b'e', b'l', b'l', b'o'];
    let frames = decode_all(&bytes, false);
    assert_eq!(frames[0], Err(WebSocketError::InvalidDataFrameLength));
}

#[test]
fn non_minimal_eight_byte_length_is_rejected() {
    let mut bytes = vec![0x81, 127];
    bytes.extend_from_slice(&(300u64).to_be_bytes());
    bytes.extend(std::iter::repeat(0u8).take(300));
    let frames = decode_all(&bytes, false);
    assert_eq!(frames[0], Err(WebSocketError::InvalidDataFrameLength));
}

#[test]
fn oversized_control_frame_is_rejected() {
    let payload = vec![0u8; 200];
    let bytes = frame_bytes(true, 9, &payload, None);
    let frames = decode_all(&bytes, false);
    assert_eq!(frames[0], Err(WebSocketError::ControlFrameTooLong));
}

#[test]
fn fragmented_control_frame_is_rejected() {
    let bytes = frame_bytes(false, 8, b"", None);
    let frames = decode_all(&bytes, false);
    assert_eq!(frames[0], Err(WebSocketError::FragmentedControlFrame));
}

#[test]
fn unmasked_frame_when_masking_expected_is_rejected() {
    let bytes = frame_bytes(true, 1, b"x", None);
    let frames = decode_all(&bytes, true);
    assert_eq!(frames[0], Err(WebSocketError::MaskingMismatch));
}

#[test]
fn masked_frame_when_masking_forbidden_is_rejected() {
    let bytes = frame_bytes(true, 1, b"x", Some([1, 2, 3, 4]));
    let frames = decode_all(&bytes, false);
    assert_eq!(frames[0], Err(WebSocketError::MaskingMismatch));
}

#[test]
fn truncated_header_reports_no_data_available() {
    let mut source = ByteSource::new();
    source.feed(&[0x81]);
    let mut ps = PacketState::new();
    let mut rs = ReaderState::new();
    assert_eq!(
        read_dataframe(&mut source, false, &mut ps, &mut rs),
        Err(WebSocketError::NoDataAvailable)
    );
}

#[test]
fn packet_state_reset_clears_header_and_buffer() {
    let mut ps = PacketState::new();
    ps.packet.push(1);
    ps.packet.push(2);
    ps.reset();
    assert!(ps.header.is_none());
    assert!(ps.packet.is_empty());
}

#[test]
fn opcode_control_range() {
    assert!(!Opcode::Continuation.is_control());
    assert!(!Opcode::Text.is_control());
    assert!(!Opcode::Binary.is_control());
    assert!(!Opcode::ReservedData(3).is_control());
    assert!(Opcode::Close.is_control());
    assert!(Opcode::Ping.is_control());
    assert!(Opcode::Pong.is_control());
    assert!(Opcode::ReservedControl(11).is_control());
}

#[test]
fn partial_payload_resumes_without_reparsing() {
    let bytes = frame_bytes(true, 2, b"0123456789", None);
    let mut source = ByteSource::new();
    let mut ps = PacketState::new();
    let mut rs = ReaderState::new();
    source.feed(&bytes[..6]);
    assert_eq!(
        read_dataframe(&mut source, false, &mut ps, &mut rs),
        Err(WebSocketError::NoDataAvailable)
    );
    source.feed(&bytes[6..]);
    let frame = read_dataframe(&mut source, false, &mut ps, &mut rs).unwrap();
    assert_eq!(
        (frame.finished, frame.opcode, frame.payload),
        (true, Opcode::Binary, b"0123456789".to_vec())
    );
}

#[test]
fn packet_state_default_is_empty() {
    let ps = PacketState::default();
    assert!(ps.header.is_none());
    assert!(ps.packet.is_empty());
}
