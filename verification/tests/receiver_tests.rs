use uuid::Uuid;
use wsrecv::dataframe::{DataFrame, Opcode};
use wsrecv::receiver::Receiver;
use wsrecv::result::WebSocketError;
use wsrecv::source::ByteSource;

fn frame_bytes(fin: bool, opcode: u8, payload: &[u8]) -> Vec<u8> {
    let mut out = Vec::new();
    let b0 = if fin { 0x80 | opcode } else { opcode };
    out.push(b0);
    let len = payload.len();
    if len < 126 {
        out.push(len as u8);
    } else if len <= 0xffff {
        out.push(126);
        out.push((len >> 8) as u8);
        out.push(len as u8);
    } else {
        out.push(127);
        for i in (0..8).rev() {
            out.push((len >> (8 * i)) as u8);
        }
    }
    out.extend_from_slice(payload);
    out
}

fn summary(frames: &[DataFrame]) -> Vec<(bool, Opcode, Vec<u8>)> {
    frames
        .iter()
        .map(|f| (f.finished, f.opcode, f.payload.clone()))
        .collect()
}

fn concat_payloads(frames: &[DataFrame]) -> Vec<u8> {
    let mut out = Vec::new();
    for f in frames {
        out.extend_from_slice(&f.payload);
    }
    out
}

#[test]
fn single_unfragmented_message_is_returned_alone() {
    let mut source = ByteSource::new();
    source.feed(&frame_bytes(true, 1, b"hi"));
    let mut recv = Receiver::new(false, Uuid::nil());
    let frames = recv.recv_message_dataframes(&mut source).unwrap();
    assert_eq!(summary(&frames), vec![(true, Opcode::Text, b"hi".to_vec())]);
    // Nothing pending: the next call reports that no data is available.
    assert_eq!(
        recv.recv_message_dataframes(&mut source),
        Err(WebSocketError::NoDataAvailable)
    );
}

#[test]
fn fragmented_message_is_returned_in_arrival_order() {
    // [Text,fin=false,"AB"], [Continuation,fin=false,"CD"],
    // [Continuation,fin=true,"EF"] assemble to "ABCDEF".
    let mut bytes = frame_bytes(false, 1, b"AB");
    bytes.extend(frame_bytes(false, 0, b"CD"));
    bytes.extend(frame_bytes(true, 0, b"EF"));
    let mut source = ByteSource::new();
    source.feed(&bytes);
    let mut recv = Receiver::new(false, Uuid::nil());
    let frames = recv.recv_message_dataframes(&mut source).unwrap();
    assert_eq!(
        summary(&frames),
        vec![
            (false, Opcode::Text, b"AB".to_vec()),
            (false, Opcode::Continuation, b"CD".to_vec()),
            (true, Opcode::Continuation, b"EF".to_vec()),
        ]
    );
    assert_eq!(concat_payloads(&frames), b"ABCDEF".to_vec());
}

#[test]
fn control_frame_interrupts_and_fragmentation_resumes() {
    // [Text,fin=false,"AB"], [Ping,fin=true,""], [Continuation,fin=true,"CD"]:
    // the first call returns only the Ping, the second the whole message.
    let mut bytes = frame_bytes(false, 1, b"AB");
    bytes.extend(frame_bytes(true, 9, b""));
    bytes.extend(frame_bytes(true, 0, b"CD"));
    let mut source = ByteSource::new();
    source.feed(&bytes);
    let mut recv = Receiver::new(false, Uuid::nil());

    let first = recv.recv_message_dataframes(&mut source).unwrap();
    assert_eq!(summary(&first), vec![(true, Opcode::Ping, Vec::new())]);

    let second = recv.recv_message_dataframes(&mut source).unwrap();
    assert_eq!(
        summary(&second),
        vec![
            (false, Opcode::Text, b"AB".to_vec()),
            (true, Opcode::Continuation, b"CD".to_vec()),
        ]
    );
}

#[test]
fn leading_continuation_is_a_protocol_error() {
    let mut source = ByteSource::new();
    source.feed(&frame_bytes(true, 0, b"zz"));
    let mut recv = Receiver::new(false, Uuid::nil());
    assert_eq!(
        recv.recv_message_dataframes(&mut source),
        Err(WebSocketError::UnexpectedContinuation)
    );
}

#[test]
fn new_data_frame_during_fragmentation_is_a_protocol_error() {
    let mut bytes = frame_bytes(false, 1, b"AB");
    bytes.extend(frame_bytes(true, 2, b"CD"));
    let mut source = ByteSource::new();
    source.feed(&bytes);
    let mut recv = Receiver::new(false, Uuid::nil());
    assert_eq!(
        recv.recv_message_dataframes(&mut source),
        Err(WebSocketError::UnexpectedDataFrame)
    );
}

#[test]
fn lone_close_frame_is_returned_as_its_own_group() {
    let mut source = ByteSource::new();
    source.feed(&frame_bytes(true, 8, &[3, 232]));
    let mut recv = Receiver::new(false, Uuid::nil());
    let frames = recv.recv_message_dataframes(&mut source).unwrap();
    assert_eq!(summary(&frames), vec![(true, Opcode::Close, vec![3, 232])]);
}

#[test]
fn message_survives_arbitrarily_small_chunks_across_calls() {
    let mut bytes = frame_bytes(false, 1, b"AB");
    bytes.extend(frame_bytes(false, 0, b"CD"));
    bytes.extend(frame_bytes(true, 0, b"EF"));

    let mut source = ByteSource::new();
    let mut recv = Receiver::new(false, Uuid::nil());
    let mut results = Vec::new();
    for b in &bytes {
        source.feed(&[*b]);
        match recv.recv_message_dataframes(&mut source) {
            Ok(frames) => results.push(frames),
            Err(WebSocketError::NoDataAvailable) => continue,
            Err(e) => panic!("unexpected error: {:?}", e),
        }
    }
    assert_eq!(results.len(), 1);
    assert_eq!(concat_payloads(&results[0]), b"ABCDEF".to_vec());
}

#[test]
fn recv_dataframe_returns_raw_frames_without_assembly() {
    let mut bytes = frame_bytes(false, 1, b"AB");
    bytes.extend(frame_bytes(true, 0, b"CD"));
    let mut source = ByteSource::new();
    source.feed(&bytes);
    let mut recv = Receiver::new(false, Uuid::nil());
    let id = recv.uuid();
    let f1 = recv.recv_dataframe(&mut source, id).unwrap();
    assert_eq!(
        (f1.finished, f1.opcode, f1.payload),
        (false, Opcode::Text, b"AB".to_vec())
    );
    let f2 = recv.recv_dataframe(&mut source, id).unwrap();
    assert_eq!(
        (f2.finished, f2.opcode, f2.payload),
        (true, Opcode::Continuation, b"CD".to_vec())
    );
}

#[test]
fn receiver_keeps_its_connection_identifier() {
    let id = Uuid::from_u128(0x1234_5678_9abc_def0_1122_3344_5566_7788);
    let recv = Receiver::new(true, id);
    assert_eq!(recv.uuid(), id);
}

#[test]
fn masked_message_assembles_for_server_side_receiver() {
    // A client-to-server Text frame, masked, assembled by a receiver that
    // expects masking.
    let key = [0x11u8, 0x22, 0x33, 0x44];
    let payload = b"ping me";
    let mut bytes = vec![0x81u8, 0x80 | payload.len() as u8];
    bytes.extend_from_slice(&key);
    for (i, b) in payload.iter().enumerate() {
        bytes.push(b ^ key[i % 4]);
    }
    let mut source = ByteSource::new();
    source.feed(&bytes);
    let mut recv = Receiver::new(true, Uuid::nil());
    let frames = recv.recv_message_dataframes(&mut source).unwrap();
    assert_eq!(
        summary(&frames),
        vec![(true, Opcode::Text, b"ping me".to_vec())]
    );
}

#[test]
fn two_control_frames_interleave_without_losing_fragments() {
    let mut bytes = frame_bytes(false, 1, b"AB");
    bytes.extend(frame_bytes(true, 9, b"p1"));
    bytes.extend(frame_bytes(true, 10, b"p2"));
    bytes.extend(frame_bytes(true, 0, b"CD"));
    let mut source = ByteSource::new();
    source.feed(&bytes);
    let mut recv = Receiver::new(false, Uuid::nil());

    let a = recv.recv_message_dataframes(&mut source).unwrap();
    assert_eq!(summary(&a), vec![(true, Opcode::Ping, b"p1".to_vec())]);
    let b = recv.recv_message_dataframes(&mut source).unwrap();
    assert_eq!(summary(&b), vec![(true, Opcode::Pong, b"p2".to_vec())]);
    let c = recv.recv_message_dataframes(&mut source).unwrap();
    assert_eq!(
        summary(&c),
        vec![
            (false, Opcode::Text, b"AB".to_vec()),
            (true, Opcode::Continuation, b"CD".to_vec()),
        ]
    );
}
