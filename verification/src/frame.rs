use vstd::prelude::*;
use crate::bytes::{
    be_bytes, be_value, read_be, lemma_be_bytes_roundtrip, lemma_be_value_bound, lemma_pow256_values,
};

verus! {

/// The fields of a frame header, as the parser reads them.
pub struct FrameModel {
    pub fin: bool,
    pub opcode: u8,
    pub payload_len: u64,
    pub masking_key: Seq<u8>,
    pub payload_complete: bool,
}

/// The header fields of one WebSocket frame.
#[derive(Debug)]
pub struct WebSocketFrame {
    /// Whether this frame is the last one of its message.
    pub fin: bool,
    pub opcode: u8,
    pub payload_len: u64,
    pub masking_key: [u8; 4],
    /// Whether the buffer the frame was read from already held the whole payload.
    pub payload_complete: bool,
}

impl View for WebSocketFrame {
    type V = FrameModel;

    open spec fn view(&self) -> FrameModel {
        FrameModel {
            fin: self.fin,
            opcode: self.opcode,
            payload_len: self.payload_len,
            masking_key: self.masking_key@,
            payload_complete: self.payload_complete,
        }
    }
}

impl Default for WebSocketFrame {
    fn default() -> (frame: Self)
        ensures
            !frame.fin,
            frame.opcode == 0,
            frame.payload_len == 0,
            frame.masking_key@ == seq![0u8, 0u8, 0u8, 0u8],
            !frame.payload_complete,
    {
        let frame = WebSocketFrame {
            fin: false,
            opcode: 0,
            payload_len: 0,
            masking_key: [0u8; 4],
            payload_complete: false,
        };
        assert(frame.masking_key@ =~= seq![0u8, 0u8, 0u8, 0u8]);
        frame
    }
}

/// The 7-bit payload length field: the low seven bits of the second byte.
pub open spec fn length_code(s: Seq<u8>) -> u8 {
    s[1] % 128
}

/// Where the masking key starts: after the 16 or 64 bit extended length when the
/// length field says so.
pub open spec fn mask_start(s: Seq<u8>) -> int {
    if length_code(s) == 126 {
        4
    } else if length_code(s) == 127 {
        10
    } else {
        2
    }
}

/// The Mask bit: the high bit of the second byte.
pub open spec fn is_masked(s: Seq<u8>) -> bool {
    s[1] >= 0x80
}

/// Where the payload starts: after the four bytes of the masking key when the Mask
/// bit is set, right after the length otherwise.
pub open spec fn header_len(s: Seq<u8>) -> int {
    if is_masked(s) { mask_start(s) + 4 } else { mask_start(s) }
}

/// The bytes are long enough to hold a whole frame header.
pub open spec fn holds_header(s: Seq<u8>) -> bool {
    s.len() >= 2 && s.len() >= header_len(s)
}

/// The payload length that the header declares.
pub open spec fn declared_len(s: Seq<u8>) -> nat {
    if length_code(s) == 126 {
        be_value(s.subrange(2, 4))
    } else if length_code(s) == 127 {
        be_value(s.subrange(2, 10))
    } else {
        length_code(s) as nat
    }
}

/// What the parser reads from the header at the start of `s`.
pub open spec fn frame_model(s: Seq<u8>) -> FrameModel {
    FrameModel {
        fin: s[0] >= 0x80,
        opcode: s[0] % 16,
        payload_len: declared_len(s) as u64,
        masking_key: if is_masked(s) {
            s.subrange(mask_start(s), mask_start(s) + 4)
        } else {
            seq![0u8, 0u8, 0u8, 0u8]
        },
        payload_complete: s.len() >= 14 && declared_len(s) <= s.len() - 14,
    }
}

/// A frame as the server sends it: the close frame for an empty payload, otherwise a
/// final text frame with the shortest length field that holds the payload's length.
pub open spec fn response_frame(p: Seq<u8>) -> Seq<u8> {
    if p.len() == 0 {
        seq![136u8, 0u8]
    } else if p.len() >= 0x1_0000 {
        seq![129u8, 127u8] + be_bytes(p.len(), 8) + p
    } else if p.len() >= 126 {
        seq![129u8, 126u8] + be_bytes(p.len(), 2) + p
    } else {
        seq![129u8, p.len() as u8] + p
    }
}

/// Byte `i` of `p` combined with byte `i % 4` of the key by exclusive or.
pub open spec fn apply_mask(p: Seq<u8>, key: Seq<u8>) -> Seq<u8> {
    Seq::new(p.len(), |i: int| p[i] ^ key[i % 4])
}

/// What the parser reads from a header, byte by byte: FIN is the high bit of the
/// first byte and the opcode its low four bits; the 7-bit length is the payload's
/// length, or says that two (126) or eight (127) big-endian bytes follow with it; the
/// four key bytes come next only when the Mask bit is set, and the key is all zero
/// otherwise; the payload starts right after.
pub proof fn lemma_frame_fields(s: Seq<u8>)
    requires
        holds_header(s),
    ensures
        frame_model(s).fin == (s[0] >= 0x80),
        frame_model(s).opcode == s[0] % 16,
        s[1] % 128 < 126 ==> frame_model(s).payload_len == s[1] % 128
            && header_len(s) == (if s[1] >= 0x80 { 6int } else { 2int }),
        s[1] % 128 == 126 ==> frame_model(s).payload_len == s[2] as nat * 256 + s[3] as nat
            && header_len(s) == (if s[1] >= 0x80 { 8int } else { 4int }),
        s[1] % 128 == 127 ==> frame_model(s).payload_len == be_value(s.subrange(2, 10))
            && header_len(s) == (if s[1] >= 0x80 { 14int } else { 10int }),
        s[1] >= 0x80 ==> frame_model(s).masking_key == s.subrange(header_len(s) - 4, header_len(s)),
        s[1] < 0x80 ==> frame_model(s).masking_key == seq![0u8, 0u8, 0u8, 0u8],
        frame_model(s).payload_complete <==> (s.len() >= 14
            && frame_model(s).payload_len <= s.len() - 14),
{
    if s[1] % 128 == 126 {
        let t = s.subrange(2, 4);
        assert(t.drop_last() =~= seq![s[2]]);
        assert(seq![s[2]].drop_last() =~= Seq::<u8>::empty());
        reveal_with_fuel(be_value, 3);
        assert(be_value(t) == s[2] as nat * 256 + s[3] as nat);
    }
    if s[1] % 128 == 127 {
        lemma_be_value_bound(s.subrange(2, 10));
        lemma_pow256_values();
    }
}

/// A frame packed by `send_response` reads back through `parse_frame`: a final frame,
/// text for a payload and close for none, that declares the payload's length, is not
/// masked, and carries the payload itself.
pub proof fn lemma_response_frame_parses(p: Seq<u8>)
    requires
        p.len() <= u64::MAX,
    ensures
        holds_header(response_frame(p)),
        frame_model(response_frame(p)).fin,
        frame_model(response_frame(p)).opcode == (if p.len() == 0 { 8u8 } else { 1u8 }),
        frame_model(response_frame(p)).payload_len == p.len(),
        frame_model(response_frame(p)).masking_key == seq![0u8, 0u8, 0u8, 0u8],
        response_frame(p).skip(header_len(response_frame(p))) == p,
{
    let s = response_frame(p);
    lemma_pow256_values();
    if p.len() == 0 {
        assert(s.skip(2) =~= p);
    } else if p.len() >= 0x1_0000 {
        lemma_be_bytes_roundtrip(p.len(), 8);
        assert(s.subrange(2, 10) =~= be_bytes(p.len(), 8));
        assert(s.skip(10) =~= p);
    } else if p.len() >= 126 {
        lemma_be_bytes_roundtrip(p.len(), 2);
        assert(s.subrange(2, 4) =~= be_bytes(p.len(), 2));
        assert(s.skip(4) =~= p);
    } else {
        assert(s.skip(2) =~= p);
    }
}

/// Unmasking with the all-zero key, which an unmasked frame reads as, leaves the
/// payload as it is.
pub proof fn lemma_zero_key_keeps_payload(p: Seq<u8>)
    ensures
        apply_mask(p, seq![0u8, 0u8, 0u8, 0u8]) == p,
{
    let z = seq![0u8, 0u8, 0u8, 0u8];
    assert forall|i: int| 0 <= i < p.len() implies apply_mask(p, z)[i] == p[i] by {
        let a = p[i];
        assert(z[i % 4] == 0);
        assert(a ^ 0u8 == a) by (bit_vector);
    }
    assert(apply_mask(p, z) =~= p);
}

/// Unmasking combines every byte of the payload, whatever its length, with the key
/// byte at its position modulo four, and keeps the length.
pub proof fn lemma_apply_mask_each_byte(p: Seq<u8>, key: Seq<u8>)
    ensures
        apply_mask(p, key).len() == p.len(),
        forall|i: int| 0 <= i < p.len() ==> #[trigger] apply_mask(p, key)[i] == p[i] ^ key[i % 4],
{
}

/// A server frame starts with FIN set, the reserved bits clear and the text opcode
/// (close for an empty payload), then the shortest length field that holds the
/// payload's length, unmasked, then the payload itself.
pub proof fn lemma_response_frame_layout(p: Seq<u8>)
    requires
        p.len() <= u64::MAX,
    ensures
        response_frame(p)[0] == (if p.len() == 0 { 0x88u8 } else { 0x81u8 }),
        response_frame(p)[1] == (if p.len() < 126 {
            p.len() as u8
        } else if p.len() < 0x1_0000 {
            126u8
        } else {
            127u8
        }),
        response_frame(p).len() == p.len() + (if p.len() < 126 {
            2int
        } else if p.len() < 0x1_0000 {
            4int
        } else {
            10int
        }),
        response_frame(p).skip(response_frame(p).len() - p.len()) == p,
        126 <= p.len() < 0x1_0000 ==> response_frame(p)[2] as nat * 256 + response_frame(p)[3] as nat
            == p.len(),
        p.len() >= 0x1_0000 ==> be_value(response_frame(p).subrange(2, 10)) == p.len(),
{
    let s = response_frame(p);
    lemma_pow256_values();
    if p.len() == 0 {
        assert(s.skip(2) =~= p);
    } else if p.len() >= 0x1_0000 {
        lemma_be_bytes_roundtrip(p.len(), 8);
        assert(s.skip(10) =~= p);
    } else if p.len() >= 126 {
        lemma_be_bytes_roundtrip(p.len(), 2);
        assert(s.skip(4) =~= p);
        let t = be_bytes(p.len(), 2);
        assert(s.subrange(2, 4) =~= t);
        assert(t.drop_last() =~= seq![t[0]]);
        assert(seq![t[0]].drop_last() =~= Seq::<u8>::empty());
        reveal_with_fuel(be_value, 3);
    } else {
        assert(s.skip(2) =~= p);
    }
    if p.len() >= 0x1_0000 {
        assert(s.subrange(2, 10) =~= be_bytes(p.len(), 8));
    }
}

/// Masking is its own inverse: unmasking twice with one key gives the bytes back.
pub proof fn lemma_apply_mask_involution(p: Seq<u8>, key: Seq<u8>)
    ensures
        apply_mask(apply_mask(p, key), key) == p,
{
    assert forall|i: int| 0 <= i < p.len() implies apply_mask(apply_mask(p, key), key)[i] == p[i] by {
        let a = p[i];
        let k = key[i % 4];
        assert((a ^ k) ^ k == a) by (bit_vector);
    }
    assert(apply_mask(apply_mask(p, key), key) =~= p);
}

/// Reads, packs and unmasks WebSocket frames.
pub struct WebSocketFrameParser;

impl WebSocketFrameParser {
    /// Whether `frame_bytes` holds a whole header, so that `parse_frame` may read it.
    pub fn can_parse(frame_bytes: &[u8]) -> (ok: bool)
        ensures ok == holds_header(frame_bytes@),
    {
        if frame_bytes.len() < 2 {
            return false;
        }
        let b1 = frame_bytes[1];
        let code = b1 & 0x7f;
        assert(b1 & 0x7f == b1 % 128) by (bit_vector);
        let start: usize = if code == 126 { 4 } else if code == 127 { 10 } else { 2 };
        if b1 >= 0x80 {
            frame_bytes.len() >= start + 4
        } else {
            frame_bytes.len() >= start
        }
    }

    /// Parses the following frame:
    /// ```text
    /// +----------------------------------------------------+
    /// | FIN | RSV1 | RSV2 | RSV3 | Opcode                  |
    /// |-----|------|------|------|-------------------------|
    /// |  1  |  1   |  1   |  1   |  4                      |
    /// +----------------------------------------------------+
    /// | Mask | Payload Length (7 bits)                     |
    /// |------|---------------------------------------------|
    /// |  1   |  7 (or 7+16/64 bits if needed)              |
    /// +----------------------------------------------------+
    /// | Masking Key (if Mask = 1)                          |
    /// | (32 bits)                                          |
    /// +----------------------------------------------------+
    /// | Payload Data (0 to 2^64-1 bytes)                   |
    /// | (Variable length)                                  |
    /// +----------------------------------------------------+
    /// ```
    /// When the Mask bit is set, the four bytes after the length are the masking key;
    /// otherwise the key stays all zero, so that unmasking leaves the payload as it is.
    /// The bytes after the header are handed back as the payload.
    pub fn parse_frame(frame_bytes: &[u8]) -> (res: (WebSocketFrame, &[u8]))
        requires
            holds_header(frame_bytes@),
        ensures
            res.0@ == frame_model(frame_bytes@),
            res.1@ == frame_bytes@.skip(header_len(frame_bytes@)),
    {
        let mut frame: WebSocketFrame = WebSocketFrame::default();
        let b0 = frame_bytes[0];
        let b1 = frame_bytes[1];

        frame.fin = b0 >> 7 & 0x1 == 1;
        assert((b0 >> 7 & 0x1 == 1) == (b0 >= 0x80)) by (bit_vector);

        frame.opcode = b0 & 0xf;
        assert(b0 & 0xf == b0 % 16) by (bit_vector);
        frame.payload_len = (b1 & 0x7f) as u64;
        assert(b1 & 0x7f == b1 % 128) by (bit_vector);

        let mut mask_beginning: usize = 2;

        if frame.payload_len == 126 {
            // the next two bytes hold the length
            frame.payload_len = read_be(frame_bytes, 2, 4);
            mask_beginning = 4;
        } else if frame.payload_len == 127 {
            // the next eight bytes hold the length
            frame.payload_len = read_be(frame_bytes, 2, 10);
            mask_beginning = 10;
        }

        // 14 bytes: the longest header, ten bytes of fields and four of masking key
        frame.payload_complete = frame_bytes.len() >= 14
            && frame.payload_len <= frame_bytes.len() as u64 - 14;

        let ghost s = frame_bytes@;
        let mut payload_beginning: usize = mask_beginning;
        if b1 >= 0x80 {
            frame.masking_key = [
                frame_bytes[mask_beginning],
                frame_bytes[mask_beginning + 1],
                frame_bytes[mask_beginning + 2],
                frame_bytes[mask_beginning + 3],
            ];
            assert(frame.masking_key@ =~= s.subrange(mask_start(s), mask_start(s) + 4));
            payload_beginning = mask_beginning + 4;
        }

        let rest = &frame_bytes[payload_beginning..frame_bytes.len()];
        assert(rest@ =~= s.skip(header_len(s)));
        (frame, rest)
    }

    /// Packs `payload` into a frame for the client: a final text frame, or the close
    /// frame when there is nothing to send.
    pub fn send_response(payload: &[u8]) -> (out: Vec<u8>)
        ensures
            out@ == response_frame(payload@),
    {
        let len = payload.len();
        let mut out: Vec<u8> = Vec::new();
        if len == 0 {
            out.push(136u8);
            out.push(0u8);
            assert(out@ =~= response_frame(payload@));
            return out;
        } else if len >= 0x1_0000 {
            // the op code, 127 for an eight-byte length, the length, the payload
            out.push(129u8);
            out.push(127u8);
            push_be(&mut out, len as u64, 8);
        } else if len >= 126 {
            // the op code, 126 for a two-byte length, the length, the payload
            out.push(129u8);
            out.push(126u8);
            push_be(&mut out, len as u64, 2);
        } else {
            out.push(129u8);
            out.push(len as u8);
        }
        let ghost head = out@;
        out.extend_from_slice(payload);
        assert(out@ =~= head + payload@);
        assert(out@ =~= response_frame(payload@));
        out
    }

    /// Unmasks (or masks) `payload` in place: byte `i` is combined with byte `i % 4` of
    /// `masking_key` by exclusive or.
    pub fn decode_payload(payload: &mut [u8], masking_key: [u8; 4])
        ensures
            final(payload)@ == apply_mask(old(payload)@, masking_key@),
    {
        let len = payload.len();
        let mut i: usize = 0;
        while i < len
            invariant
                i <= len == payload@.len() == old(payload)@.len(),
                forall|j: int| 0 <= j < i ==> payload@[j] == old(payload)@[j] ^ masking_key@[j % 4],
                forall|j: int| i <= j < len ==> payload@[j] == old(payload)@[j],
            decreases len - i,
        {
            payload[i] = payload[i] ^ masking_key[i % 4];
            i = i + 1;
        }
        assert(payload@ =~= apply_mask(old(payload)@, masking_key@));
    }
}

/// Appends the `n` low bytes of `v` to `out`, most significant first.
fn push_be(out: &mut Vec<u8>, v: u64, n: usize)
    ensures
        final(out)@ == old(out)@ + be_bytes(v as nat, n as nat),
    decreases n,
{
    if n > 0 {
        push_be(out, v / 256, n - 1);
        out.push((v % 256) as u8);
        assert(out@ =~= old(out)@ + be_bytes(v as nat, n as nat));
    } else {
        assert(out@ =~= old(out)@ + be_bytes(v as nat, n as nat));
    }
}

} // verus!
