use http_sockets::frame::{WebSocketFrame, WebSocketFrameParser};

#[test]
fn parse_masked_hello_frame() {
    let bytes = [0x81u8, 0x85, 0x37, 0xfa, 0x21, 0x3d, 0x7f, 0x9f, 0x4d, 0x51, 0x58];
    assert!(WebSocketFrameParser::can_parse(&bytes));
    let (frame, rest) = WebSocketFrameParser::parse_frame(&bytes);
    assert!(frame.fin);
    assert_eq!(frame.opcode, 1);
    assert_eq!(frame.payload_len, 5);
    assert_eq!(frame.masking_key, [0x37, 0xfa, 0x21, 0x3d]);
    // fewer than 14 bytes: never marked complete
    assert!(!frame.payload_complete);
    let mut payload = rest.to_vec();
    WebSocketFrameParser::decode_payload(&mut payload, frame.masking_key);
    assert_eq!(payload, b"Hello".to_vec());
}

#[test]
fn parse_marks_complete_payload() {
    let mut bytes = vec![0x81u8, 0x80 | 2, 1, 2, 3, 4];
    bytes.extend_from_slice(&[0u8; 10]);
    let (frame, rest) = WebSocketFrameParser::parse_frame(&bytes);
    assert_eq!(frame.payload_len, 2);
    assert!(frame.payload_complete);
    assert_eq!(rest.len(), 10);
}

#[test]
fn parse_sixteen_bit_length() {
    let bytes = [0x02u8, 0xfe, 0x01, 0x2c, 9, 8, 7, 6, 0xaa];
    let (frame, rest) = WebSocketFrameParser::parse_frame(&bytes);
    assert!(!frame.fin);
    assert_eq!(frame.opcode, 2);
    assert_eq!(frame.payload_len, 300);
    assert_eq!(frame.masking_key, [9, 8, 7, 6]);
    assert_eq!(rest, &[0xaa]);
}

#[test]
fn parse_sixty_four_bit_length() {
    let bytes = [0x88u8, 0xff, 0, 0, 0, 1, 0, 0, 0, 2, 1, 1, 1, 1];
    let (frame, rest) = WebSocketFrameParser::parse_frame(&bytes);
    assert!(frame.fin);
    assert_eq!(frame.opcode, 8);
    assert_eq!(frame.payload_len, (1u64 << 32) + 2);
    assert!(!frame.payload_complete);
    assert!(rest.is_empty());
}

#[test]
fn can_parse_needs_the_whole_header() {
    assert!(!WebSocketFrameParser::can_parse(&[]));
    assert!(!WebSocketFrameParser::can_parse(&[0x81]));
    assert!(!WebSocketFrameParser::can_parse(&[0x81, 0x85, 1, 2, 3]));
    assert!(WebSocketFrameParser::can_parse(&[0x81, 0x85, 1, 2, 3, 4]));
    assert!(WebSocketFrameParser::can_parse(&[0x81, 0x05]));
    assert!(!WebSocketFrameParser::can_parse(&[0x81, 0x7e, 0]));
    assert!(WebSocketFrameParser::can_parse(&[0x81, 0x7e, 0, 5]));
    assert!(!WebSocketFrameParser::can_parse(&[0x81, 0xfe, 0, 5, 1, 2, 3]));
    assert!(WebSocketFrameParser::can_parse(&[0x81, 0xfe, 0, 5, 1, 2, 3, 4]));
    assert!(!WebSocketFrameParser::can_parse(&[0x81, 0xff, 0, 0, 0, 0, 0, 0, 0, 5, 1, 2, 3]));
}

#[test]
fn send_empty_is_close_frame() {
    assert_eq!(WebSocketFrameParser::send_response(&[]), vec![136u8, 0]);
}

#[test]
fn send_short_payload() {
    assert_eq!(WebSocketFrameParser::send_response(b"hi"), vec![129u8, 2, b'h', b'i']);
    let p = vec![7u8; 125];
    let out = WebSocketFrameParser::send_response(&p);
    assert_eq!(&out[..2], &[129u8, 125]);
    assert_eq!(out.len(), 127);
}

#[test]
fn send_sixteen_bit_length() {
    let p = vec![7u8; 126];
    let out = WebSocketFrameParser::send_response(&p);
    assert_eq!(&out[..4], &[129u8, 126, 0, 126]);
    assert_eq!(&out[4..], &p[..]);
    let p = vec![1u8; 65535];
    let out = WebSocketFrameParser::send_response(&p);
    assert_eq!(&out[..4], &[129u8, 126, 0xff, 0xff]);
    assert_eq!(out.len(), 65535 + 4);
}

#[test]
fn send_sixty_four_bit_length() {
    let p = vec![3u8; 65536];
    let out = WebSocketFrameParser::send_response(&p);
    assert_eq!(&out[..10], &[129u8, 127, 0, 0, 0, 0, 0, 1, 0, 0]);
    assert_eq!(out.len(), 65536 + 10);
}

#[test]
fn response_frame_reads_back() {
    for len in [0usize, 1, 3, 4, 5, 125, 126, 300, 65535, 65536, 70000] {
        let p: Vec<u8> = (0..len).map(|i| (i % 251) as u8).collect();
        let out = WebSocketFrameParser::send_response(&p);
        assert!(WebSocketFrameParser::can_parse(&out));
        let (frame, rest) = WebSocketFrameParser::parse_frame(&out);
        assert!(frame.fin);
        assert_eq!(frame.opcode, if len == 0 { 8 } else { 1 });
        assert_eq!(frame.payload_len, len as u64);
        assert_eq!(frame.masking_key, [0u8; 4]);
        assert_eq!(rest, &p[..]);
    }
}

#[test]
fn unmasked_frame_has_no_key() {
    let bytes = [0x81u8, 0x02, 0xaa, 0xbb, 0xcc, 0xdd];
    let (frame, rest) = WebSocketFrameParser::parse_frame(&bytes);
    assert_eq!(frame.payload_len, 2);
    assert_eq!(frame.masking_key, [0u8; 4]);
    assert_eq!(rest, &[0xaa, 0xbb, 0xcc, 0xdd]);
    let mut payload = rest.to_vec();
    WebSocketFrameParser::decode_payload(&mut payload, frame.masking_key);
    assert_eq!(payload, rest.to_vec());
}

#[test]
fn masking_twice_restores() {
    let original: Vec<u8> = (0u8..=22).collect();
    let key = [0x12u8, 0x34, 0x56, 0x78];
    let mut p = original.clone();
    WebSocketFrameParser::decode_payload(&mut p, key);
    assert_ne!(p, original);
    assert_eq!(p[5], 5 ^ 0x34);
    WebSocketFrameParser::decode_payload(&mut p, key);
    assert_eq!(p, original);
}

#[test]
fn default_frame_is_zero() {
    let f = WebSocketFrame::default();
    assert!(!f.fin && !f.payload_complete);
    assert_eq!((f.opcode, f.payload_len, f.masking_key), (0, 0, [0; 4]));
}
