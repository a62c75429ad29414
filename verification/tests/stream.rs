use websock::frame::{Frame, ProtocolError};
use websock::ws_stream::WSStream;
use websock::{BYTES, PING, TEXT};

fn fresh() -> WSStream {
    WSStream { recv: Vec::new(), out: Vec::new(), fragments: Vec::new() }
}

#[test]
fn single_frame_fast_path() {
    let mut ws = fresh();
    ws.feed(&[0x82, 3, 1, 2, 3]);
    let msg = ws.read_message().unwrap().unwrap();
    assert!(!msg.control);
    assert_eq!(msg.msg_type, BYTES);
    assert_eq!(msg.contents, Some(vec![1, 2, 3]));
    assert_eq!(ws.take_output(), Vec::<u8>::new());
}

#[test]
fn fragmented_message_reassembles_across_continuations() {
    let mut ws = fresh();
    // TEXT fin=0 "He", CONTINUATION fin=0 "ll", CONTINUATION fin=1 "o"
    ws.feed(&[0x01, 2, b'H', b'e']);
    ws.feed(&[0x00, 2, b'l', b'l']);
    ws.feed(&[0x80, 1, b'o']);
    let msg = ws.read_message().unwrap().unwrap();
    assert!(!msg.control);
    assert_eq!(msg.msg_type, TEXT);
    assert_eq!(msg.get_text(), Some(String::from("Hello")));
}

#[test]
fn partial_frames_wait_for_more_bytes() {
    let mut ws = fresh();
    ws.feed(&[0x82]);
    assert!(matches!(ws.read_message(), Ok(None)));
    ws.feed(&[3, 1, 2]);
    assert!(matches!(ws.read_message(), Ok(None)));
    ws.feed(&[3]);
    let msg = ws.read_message().unwrap().unwrap();
    assert_eq!(msg.contents, Some(vec![1, 2, 3]));
}

#[test]
fn fragmented_message_waits_between_fragments() {
    let mut ws = fresh();
    ws.feed(&[0x01, 2, b'H', b'i']);
    assert!(matches!(ws.read_message(), Ok(None)));
    ws.feed(&[0x80, 1, b'!']);
    let msg = ws.read_message().unwrap().unwrap();
    assert_eq!(msg.get_text(), Some(String::from("Hi!")));
}

#[test]
fn ping_auto_reply() {
    let mut ws = fresh();
    ws.feed(&[0x89, 2, 9, 9]);
    let frame = ws.read_frame().unwrap().unwrap();
    assert_eq!(frame.header.opcode, PING);
    // exactly one pong, echoing the payload
    assert_eq!(ws.take_output(), vec![0x8A, 2, 9, 9]);
    assert_eq!(ws.take_output(), Vec::<u8>::new());
}

#[test]
fn ping_is_not_surfaced_as_data() {
    let mut ws = fresh();
    ws.feed(&[0x89, 2, 9, 9]);
    let msg = ws.read_message().unwrap().unwrap();
    assert!(msg.control);
    assert_eq!(msg.msg_type, PING);
    assert_eq!(msg.contents, None);
    assert_eq!(ws.take_output(), vec![0x8A, 2, 9, 9]);
}

#[test]
fn close_is_acknowledged_with_two_bytes() {
    let mut ws = fresh();
    ws.feed(&[0x88, 0]);
    assert!(matches!(ws.read_frame(), Err(ProtocolError::ConnectionClosed)));
    assert_eq!(ws.take_output(), vec![0x88, 0x00]);
}

#[test]
fn close_ends_read_message_too() {
    let mut ws = fresh();
    ws.feed(&[0x88, 2, 3, 0xE8]);
    assert_eq!(ws.read_message().err(), Some(ProtocolError::ConnectionClosed));
    assert_eq!(ws.take_output(), vec![0x88, 0x00]);
}

#[test]
fn unexpected_pong_is_a_protocol_error() {
    let mut ws = fresh();
    ws.feed(&[0x8A, 1, 7]);
    assert!(matches!(ws.read_frame(), Err(ProtocolError::UnknownOpcode)));
    assert_eq!(ws.take_output(), Vec::<u8>::new());
}

#[test]
fn masked_payload_is_unmasked_once_on_receipt() {
    let mut ws = fresh();
    let mask = [1u8, 2, 3, 4];
    let masked: Vec<u8> = b"abc".iter().enumerate().map(|(i, b)| b ^ mask[i % 4]).collect();
    let mut wire = vec![0x81, 0x83, 1, 2, 3, 4];
    wire.extend(masked);
    ws.feed(&wire);
    let msg = ws.read_message().unwrap().unwrap();
    assert_eq!(msg.get_text(), Some(String::from("abc")));
}

#[test]
fn write_text_queues_one_text_frame() {
    let mut ws = fresh();
    ws.write_text("abc");
    assert_eq!(ws.take_output(), vec![0x81, 3, 97, 98, 99]);
}

#[test]
fn write_bytes_queues_one_binary_frame() {
    let mut ws = fresh();
    ws.write_bytes(&[1, 2, 3]);
    assert_eq!(ws.take_output(), vec![0x82, 3, 1, 2, 3]);
}

#[test]
fn written_frames_read_back_unchanged() {
    let payload: Vec<u8> = (0..300u32).map(|i| (i % 251) as u8).collect();
    let mut sender = fresh();
    sender.write_bytes(payload.as_slice());
    let wire = sender.take_output();
    // 300 bytes forces the two-byte extended length
    assert_eq!(wire[1] & 0x7f, 126);
    let mut receiver = fresh();
    receiver.feed(&wire);
    let msg = receiver.read_message().unwrap().unwrap();
    assert_eq!(msg.contents, Some(payload));
}

#[test]
fn large_frames_use_the_eight_byte_length() {
    let payload: Vec<u8> = (0..65537u32).map(|i| (i % 13) as u8).collect();
    let mut sender = fresh();
    sender.write_bytes(payload.as_slice());
    let wire = sender.take_output();
    assert_eq!(wire[1] & 0x7f, 127);
    let mut receiver = fresh();
    receiver.feed(&wire);
    let msg = receiver.read_message().unwrap().unwrap();
    assert_eq!(msg.contents, Some(payload));
}

#[test]
fn control_frames_inside_a_fragment_sequence_are_skipped() {
    let mut ws = fresh();
    ws.feed(&[0x01, 1, b'a']);
    // a ping arrives mid-sequence: answered, not appended
    ws.feed(&[0x89, 1, 9]);
    ws.feed(&[0x80, 1, b'b']);
    let msg = ws.read_message().unwrap().unwrap();
    assert_eq!(msg.get_text(), Some(String::from("ab")));
    assert_eq!(ws.take_output(), vec![0x8A, 1, 9]);
}

#[test]
fn frames_equal_one_large_unmasked_payload() {
    // a fragmented message's contents equal the concatenated payloads
    let mut ws = fresh();
    ws.feed(&[0x02, 2, 1, 2]);
    ws.feed(&[0x00, 2, 3, 4]);
    ws.feed(&[0x80, 2, 5, 6]);
    let msg = ws.read_message().unwrap().unwrap();
    assert_eq!(msg.msg_type, BYTES);
    assert_eq!(msg.contents, Some(vec![1, 2, 3, 4, 5, 6]));
}

#[test]
fn frame_consumption_leaves_later_bytes_buffered() {
    let mut ws = fresh();
    ws.feed(&[0x82, 1, 7, 0x82, 1, 8]);
    let first = ws.read_message().unwrap().unwrap();
    assert_eq!(first.contents, Some(vec![7]));
    let second = ws.read_message().unwrap().unwrap();
    assert_eq!(second.contents, Some(vec![8]));
    assert!(matches!(ws.read_message(), Ok(None)));
}

#[test]
fn pong_frame_builder_matches_wire_reply() {
    let mut ws = fresh();
    ws.feed(&[0x89, 2, 9, 9]);
    let _ = ws.read_frame();
    let mut expected = Frame::pong(vec![9, 9]);
    assert_eq!(ws.take_output(), expected.to_bytes());
}

#[test]
fn non_continuation_data_frames_mid_sequence_are_skipped() {
    let mut ws = fresh();
    ws.feed(&[0x01, 1, b'a']);
    // a non-final BINARY frame interrupts the sequence: it continues nothing
    ws.feed(&[0x02, 1, b'x']);
    ws.feed(&[0x80, 1, b'b']);
    let msg = ws.read_message().unwrap().unwrap();
    assert_eq!(msg.get_text(), Some(String::from("ab")));
}
