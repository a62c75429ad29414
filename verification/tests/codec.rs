use websock::frame::{Frame, FrameHeader, ProtocolError};
use websock::{BYTES, PONG, TEXT};

fn header(fin: bool, opcode: u8, mask: Option<[u8; 4]>, content_len: u64) -> FrameHeader {
    FrameHeader {
        fin,
        content_len,
        is_masked: mask.is_some(),
        opcode,
        mask,
        header_len: FrameHeader::calculate_header_len(content_len, mask.is_some()),
    }
}

fn assert_round_trip(fin: bool, opcode: u8, mask: Option<[u8; 4]>, content_len: u64) {
    let h = header(fin, opcode, mask, content_len);
    let bytes = h.get_header_bytes();
    let decoded = match FrameHeader::new(bytes.as_slice()) {
        Ok(d) => d,
        Err(_) => panic!("decode failed for len {}", content_len),
    };
    assert_eq!(decoded.fin, fin);
    assert_eq!(decoded.opcode, opcode);
    assert_eq!(decoded.is_masked, mask.is_some());
    assert_eq!(decoded.mask, mask);
    assert_eq!(decoded.content_len, content_len);
    assert_eq!(decoded.header_len as usize, bytes.len());
}

#[test]
fn header_round_trip_unmasked() {
    for len in [0u64, 1, 125, 126, 300, 65535, 65537, 1 << 20, 1 << 33] {
        assert_round_trip(true, TEXT, None, len);
        assert_round_trip(false, BYTES, None, len);
    }
}

#[test]
fn header_round_trip_masked() {
    for len in [0u64, 5, 125, 126, 65535, 65537, 1 << 20] {
        assert_round_trip(true, TEXT, Some([1, 2, 3, 4]), len);
        assert_round_trip(false, 0xF, Some([0xFF, 0, 0x80, 9]), len);
    }
}

#[test]
fn length_width_table() {
    // (content_len, extended bytes, short length field written)
    let cases: [(u64, usize, u8); 7] = [
        (0, 0, 0),
        (1, 0, 1),
        (125, 0, 125),
        (126, 2, 126),
        (65536, 2, 126),
        (65537, 8, 127),
        (1 << 20, 8, 127),
    ];
    for (len, ext, len7) in cases {
        let h = header(true, BYTES, None, len);
        let bytes = h.get_header_bytes();
        assert_eq!(bytes.len(), 2 + ext, "width for {}", len);
        assert_eq!(bytes[1] & 0x7f, len7, "short field for {}", len);
        assert_eq!(bytes[1] & 0x80, 0);
    }
}

#[test]
fn extended_lengths_are_big_endian() {
    let h = header(true, BYTES, None, 258);
    assert_eq!(h.get_header_bytes(), vec![0x82, 126, 1, 2]);
    let h = header(true, BYTES, None, 65537);
    assert_eq!(h.get_header_bytes(), vec![0x82, 127, 0, 0, 0, 0, 0, 1, 0, 1]);
}

#[test]
fn truncated_header_is_a_typed_error() {
    assert_eq!(
        FrameHeader::new(&[0x81]).err(),
        Some(ProtocolError::MalformedHeader)
    );
    // announces a two-byte extended length that is not there
    assert_eq!(
        FrameHeader::new(&[0x81, 126, 0]).err(),
        Some(ProtocolError::MalformedHeader)
    );
    // announces a mask that is not there
    assert_eq!(
        FrameHeader::new(&[0x81, 0x85, 1, 2, 3]).err(),
        Some(ProtocolError::MalformedHeader)
    );
    assert!(FrameHeader::new(&[0x81, 0x05]).is_ok());
}

#[test]
fn masking_is_invertible() {
    let payload: Vec<u8> = (0u8..=255).collect();
    let mask = [7u8, 1, 255, 3];
    let once = Frame::new(header(true, TEXT, Some(mask), 256), payload.clone());
    assert_ne!(once.contents, payload);
    let twice = Frame::new(header(true, TEXT, Some(mask), 256), once.contents);
    assert_eq!(twice.contents, payload);
}

#[test]
fn unmasking_applies_key_cyclically() {
    let mask = [0x10u8, 0x20, 0x30, 0x40];
    let raw = vec![0x10u8, 0x20, 0x30, 0x40, 0x10, 0x21];
    let frame = Frame::new(header(true, BYTES, Some(mask), 6), raw);
    assert_eq!(frame.contents, vec![0, 0, 0, 0, 0, 1]);
}

#[test]
fn from_bytes_serializes_with_binary_opcode() {
    let mut frame = Frame::from_bytes(vec![1, 2, 3]);
    assert!(frame.header.fin);
    assert!(!frame.is_control());
    assert_eq!(frame.to_bytes(), vec![0x82, 3, 1, 2, 3]);
}

#[test]
fn from_text_serializes_with_text_opcode() {
    let mut frame = Frame::from_text("abc");
    assert_eq!(frame.header.content_len, 3);
    assert_eq!(frame.to_bytes(), vec![0x81, 3, 97, 98, 99]);
}

#[test]
fn pong_echoes_the_ping_payload() {
    let mut frame = Frame::pong(vec![9, 9]);
    assert_eq!(frame.header.opcode, PONG);
    assert!(frame.is_control());
    assert_eq!(frame.to_bytes(), vec![0x8A, 2, 9, 9]);
}

#[test]
fn reserved_bits_are_ignored_on_decode() {
    // bits 4..6 of the first byte are reserved: decode reads only FIN and opcode
    let decoded = FrameHeader::new(&[0xC1, 1, 7]).unwrap();
    assert!(decoded.fin);
    assert_eq!(decoded.opcode, TEXT);
    assert_eq!(decoded.content_len, 1);
}

#[test]
fn non_canonical_extended_length_follows_the_wire() {
    // a peer may announce a small payload in the two-byte form
    let decoded = FrameHeader::new(&[0x81, 126, 0, 5]).unwrap();
    assert_eq!(decoded.content_len, 5);
    assert_eq!(decoded.header_len, 4);
    assert!(!decoded.is_masked);
    assert_eq!(decoded.mask, None);
}
