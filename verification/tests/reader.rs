use http_sockets::frame::WebSocketFrameParser;
use http_sockets::reader::{PayloadReader, ReadStep};

fn masked(fin: bool, opcode: u8, payload: &[u8], key: [u8; 4]) -> Vec<u8> {
    let mut out = vec![(if fin { 0x80 } else { 0 }) | opcode];
    if payload.len() < 126 {
        out.push(0x80 | payload.len() as u8);
    } else if payload.len() < 65536 {
        out.push(0xfe);
        out.extend_from_slice(&(payload.len() as u16).to_be_bytes());
    } else {
        out.push(0xff);
        out.extend_from_slice(&(payload.len() as u64).to_be_bytes());
    }
    out.extend_from_slice(&key);
    let mut body = payload.to_vec();
    WebSocketFrameParser::decode_payload(&mut body, key);
    out.extend_from_slice(&body);
    out
}

fn message(step: ReadStep) -> Vec<u8> {
    match step {
        ReadStep::Message(m) => m,
        _ => panic!("no message"),
    }
}

fn next(step: ReadStep) -> PayloadReader {
    match step {
        ReadStep::Continue(r) => r,
        _ => panic!("the reader stopped"),
    }
}

#[test]
fn single_frame_message() {
    let bytes = masked(true, 1, b"Hello", [1, 2, 3, 4]);
    assert_eq!(message(PayloadReader::new().step(&bytes)), b"Hello".to_vec());
}

#[test]
fn close_frame_ends_reading() {
    let bytes = masked(true, 8, b"", [1, 2, 3, 4]);
    assert!(matches!(PayloadReader::new().step(&bytes), ReadStep::Closed));
}

#[test]
fn final_frame_split_over_chunks() {
    let text = b"a longer message!";
    let bytes = masked(true, 1, text, [9, 8, 7, 6]);
    let r = next(PayloadReader::new().step(&bytes[..10]));
    let r = next(r.step(&bytes[10..15]));
    assert_eq!(message(r.step(&bytes[15..])), text.to_vec());
}

#[test]
fn fragmented_message_joins_fragments() {
    let first = masked(false, 1, b"first ", [1, 1, 1, 1]);
    let second = masked(true, 0, b"second", [2, 2, 2, 2]);
    let r = next(PayloadReader::new().step(&first));
    assert!(matches!(r, PayloadReader::Fragments { .. }));
    assert_eq!(message(r.step(&second)), b"first second".to_vec());
}

#[test]
fn continuation_frame_split_over_chunks() {
    let first = masked(false, 1, b"one", [1, 2, 3, 4]);
    let middle = masked(false, 0, b"two two two", [5, 6, 7, 8]);
    let last = masked(true, 0, b"three", [5, 6, 7, 8]);
    let r = next(PayloadReader::new().step(&first));
    let r = next(r.step(&middle[..9]));
    assert!(matches!(r, PayloadReader::FragmentBody { .. }));
    let r = next(r.step(&middle[9..]));
    assert!(matches!(r, PayloadReader::Fragments { .. }));
    assert_eq!(message(r.step(&last)), b"onetwo two twothree".to_vec());
}

#[test]
fn long_masked_frames_read_back() {
    for len in [0usize, 125, 126, 1000, 65535, 65536, 70000] {
        let text: Vec<u8> = (0..len).map(|i| (i * 7 % 256) as u8).collect();
        let bytes = masked(true, 1, &text, [0xde, 0xad, 0xbe, 0xef]);
        assert!(WebSocketFrameParser::can_parse(&bytes));
        assert_eq!(message(PayloadReader::new().step(&bytes)), text);
    }
}

#[test]
fn header_expected_only_at_frame_starts() {
    let r = PayloadReader::new();
    assert!(r.expects_header());
    let bytes = masked(true, 1, b"abcdefgh", [1, 2, 3, 4]);
    let r = next(PayloadReader::new().step(&bytes[..8]));
    assert!(!r.expects_header());
    let first = masked(false, 1, b"x", [1, 2, 3, 4]);
    let r = next(PayloadReader::new().step(&first));
    assert!(r.expects_header());
}

#[test]
fn unmasked_frame_reads_as_is() {
    let bytes = [0x81u8, 0x03, b'a', b'b', b'c'];
    assert_eq!(message(PayloadReader::new().step(&bytes)), b"abc".to_vec());
}

#[test]
fn frame_read_back_however_it_is_cut() {
    let text: Vec<u8> = (0..300u32).map(|i| (i * 13 % 256) as u8).collect();
    let bytes = masked(true, 1, &text, [3, 1, 4, 1]);
    for first in 8..bytes.len() {
        for step in [1usize, 7, 64] {
            let mut r = PayloadReader::new();
            let mut start = 0;
            let mut end = first;
            let got = loop {
                match r.step(&bytes[start..end]) {
                    ReadStep::Continue(next) => r = next,
                    ReadStep::Closed => panic!("closed"),
                    ReadStep::Message(m) => break m,
                }
                start = end;
                end = (end + step).min(bytes.len());
            };
            assert_eq!(got, text);
        }
    }
}
