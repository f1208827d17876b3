use vstd::prelude::*;
use crate::bytes::{be_bytes, lemma_be_bytes_roundtrip, lemma_pow256_values};
use crate::frame::{
    apply_mask, frame_model, header_len, holds_header, lemma_apply_mask_involution,
    WebSocketFrameParser,
};

verus! {

/// How far the reading of one client message has got.
pub enum ReaderModel {
    Start,
    FinalBody { payload: Seq<u8>, payload_len: u64, masking_key: Seq<u8> },
    Fragments { payload: Seq<u8> },
    FragmentBody { payload: Seq<u8>, next: Seq<u8>, payload_len: u64, masking_key: Seq<u8>, fin: bool },
}

/// What one read leads to.
pub enum StepModel {
    Continue(ReaderModel),
    Closed,
    Message(Seq<u8>),
}

/// Reads one message from a client, one chunk of bytes at a time. The caller reads a
/// chunk from the connection, hands it to `step`, and reads again while the answer is
/// `Continue`.
pub enum PayloadReader {
    /// Waiting for the first frame of a message.
    Start,
    /// A final frame has come in, but not all of its payload yet.
    FinalBody { payload: Vec<u8>, payload_len: u64, masking_key: [u8; 4] },
    /// Frames of a fragmented message have come in, unmasked and joined; waiting for
    /// the next frame.
    Fragments { payload: Vec<u8> },
    /// A continuation frame has come in, but not all of its payload yet; `payload` is
    /// the message so far.
    FragmentBody { payload: Vec<u8>, next: Vec<u8>, payload_len: u64, masking_key: [u8; 4], fin: bool },
}

/// The outcome of one `step`.
pub enum ReadStep {
    /// Read another chunk and hand it to this reader.
    Continue(PayloadReader),
    /// The client sent a close frame.
    Closed,
    /// The whole message, unmasked.
    Message(Vec<u8>),
}

impl View for PayloadReader {
    type V = ReaderModel;

    open spec fn view(&self) -> ReaderModel {
        match self {
            PayloadReader::Start => ReaderModel::Start,
            PayloadReader::FinalBody { payload, payload_len, masking_key } => ReaderModel::FinalBody {
                payload: payload@,
                payload_len: *payload_len,
                masking_key: masking_key@,
            },
            PayloadReader::Fragments { payload } => ReaderModel::Fragments { payload: payload@ },
            PayloadReader::FragmentBody { payload, next, payload_len, masking_key, fin } => ReaderModel::FragmentBody {
                payload: payload@,
                next: next@,
                payload_len: *payload_len,
                masking_key: masking_key@,
                fin: *fin,
            },
        }
    }
}

impl View for ReadStep {
    type V = StepModel;

    open spec fn view(&self) -> StepModel {
        match self {
            ReadStep::Continue(r) => StepModel::Continue(r@),
            ReadStep::Closed => StepModel::Closed,
            ReadStep::Message(m) => StepModel::Message(m@),
        }
    }
}

/// In these states the next chunk starts with a frame header.
pub open spec fn expects_header(r: ReaderModel) -> bool {
    r is Start || r is Fragments
}

/// The reader after a chunk `bytes` has come in.
///
/// A close frame ends the reading. A final frame gives its payload, unmasked, once
/// as many bytes as it declares have come in (or at once, when the chunk held them
/// all). For a fragmented message, each continuation frame is read to its end and its
/// payload, unmasked, is added to the message, until the final frame.
pub open spec fn step_model(r: ReaderModel, bytes: Seq<u8>) -> StepModel {
    match r {
        ReaderModel::Start => {
            let f = frame_model(bytes);
            let rest = bytes.skip(header_len(bytes));
            if f.opcode == 8 {
                StepModel::Closed
            } else if f.fin {
                if !f.payload_complete && rest.len() < f.payload_len {
                    StepModel::Continue(ReaderModel::FinalBody {
                        payload: rest,
                        payload_len: f.payload_len,
                        masking_key: f.masking_key,
                    })
                } else {
                    StepModel::Message(apply_mask(rest, f.masking_key))
                }
            } else {
                StepModel::Continue(ReaderModel::Fragments { payload: apply_mask(rest, f.masking_key) })
            }
        },
        ReaderModel::FinalBody { payload, payload_len, masking_key } => {
            let p = payload + bytes;
            if p.len() < payload_len {
                StepModel::Continue(ReaderModel::FinalBody { payload: p, payload_len, masking_key })
            } else {
                StepModel::Message(apply_mask(p, masking_key))
            }
        },
        ReaderModel::Fragments { payload } => {
            let f = frame_model(bytes);
            let next = bytes.skip(header_len(bytes));
            if !f.payload_complete && next.len() < f.payload_len {
                StepModel::Continue(ReaderModel::FragmentBody {
                    payload,
                    next,
                    payload_len: f.payload_len,
                    masking_key: f.masking_key,
                    fin: f.fin,
                })
            } else {
                let whole = payload + apply_mask(next, f.masking_key);
                if f.fin {
                    StepModel::Message(whole)
                } else {
                    StepModel::Continue(ReaderModel::Fragments { payload: whole })
                }
            }
        },
        ReaderModel::FragmentBody { payload, next, payload_len, masking_key, fin } => {
            let n = next + bytes;
            if n.len() < payload_len {
                StepModel::Continue(
                    ReaderModel::FragmentBody { payload, next: n, payload_len, masking_key, fin },
                )
            } else {
                let whole = payload + apply_mask(n, masking_key);
                if fin {
                    StepModel::Message(whole)
                } else {
                    StepModel::Continue(ReaderModel::Fragments { payload: whole })
                }
            }
        },
    }
}

/// A frame as a client sends it: first byte `b0` (FIN and opcode), then the shortest
/// length field that holds the length of `m` with the Mask bit set, the key `k`, and
/// `m` masked with `k`.
pub open spec fn client_frame(b0: u8, m: Seq<u8>, k: Seq<u8>) -> Seq<u8> {
    if m.len() < 126 {
        seq![b0, (0x80 + m.len()) as u8] + k + apply_mask(m, k)
    } else if m.len() < 0x1_0000 {
        seq![b0, 0xfeu8] + be_bytes(m.len(), 2) + k + apply_mask(m, k)
    } else {
        seq![b0, 0xffu8] + be_bytes(m.len(), 8) + k + apply_mask(m, k)
    }
}

/// A message `m` as a client sends it in one piece: a final text frame.
pub open spec fn masked_frame(m: Seq<u8>, k: Seq<u8>) -> Seq<u8> {
    client_frame(0x81u8, m, k)
}

/// A close frame ends the reading, whatever length it declares and whatever it
/// carries (a status code, a reason): the low four bits of its first byte are 8.
pub proof fn lemma_close_frame_closes(b: Seq<u8>)
    requires
        holds_header(b),
        b[0] % 16 == 8,
    ensures
        step_model(ReaderModel::Start, b) == StepModel::Closed,
{
}

/// The header of a client's frame, as the parser reads it.
proof fn lemma_client_frame_header(b0: u8, m: Seq<u8>, k: Seq<u8>)
    requires
        k.len() == 4,
        m.len() <= u64::MAX,
    ensures
        holds_header(client_frame(b0, m, k)),
        frame_model(client_frame(b0, m, k)).fin == (b0 >= 0x80),
        frame_model(client_frame(b0, m, k)).opcode == b0 % 16,
        frame_model(client_frame(b0, m, k)).payload_len == m.len(),
        frame_model(client_frame(b0, m, k)).masking_key == k,
        client_frame(b0, m, k).skip(header_len(client_frame(b0, m, k))) == apply_mask(m, k),
{
    let s = client_frame(b0, m, k);
    let body = apply_mask(m, k);
    lemma_pow256_values();
    if m.len() < 126 {
        assert(((0x80 + m.len()) as u8) % 128 == m.len());
        assert(s.subrange(2, 6) =~= k);
        assert(s.skip(6) =~= body);
    } else if m.len() < 0x1_0000 {
        lemma_be_bytes_roundtrip(m.len(), 2);
        assert(s.subrange(2, 4) =~= be_bytes(m.len(), 2));
        assert(s.subrange(4, 8) =~= k);
        assert(s.skip(8) =~= body);
    } else {
        lemma_be_bytes_roundtrip(m.len(), 8);
        assert(s.subrange(2, 10) =~= be_bytes(m.len(), 8));
        assert(s.subrange(10, 14) =~= k);
        assert(s.skip(14) =~= body);
    }
}

/// What a client writes is what the server reads: a message sent as one masked
/// final frame, arriving in one chunk, is read back whole and unmasked.
pub proof fn lemma_masked_frame_reads_back(m: Seq<u8>, k: Seq<u8>)
    requires
        k.len() == 4,
        m.len() <= u64::MAX,
    ensures
        holds_header(masked_frame(m, k)),
        step_model(ReaderModel::Start, masked_frame(m, k)) == StepModel::Message(m),
{
    lemma_client_frame_header(0x81u8, m, k);
    lemma_apply_mask_involution(m, k);
}

/// What the reader ends with after taking in `chunks` one after the other: it stops at
/// the first chunk that closes the connection or completes a message.
pub open spec fn read_chunks(r: ReaderModel, chunks: Seq<Seq<u8>>) -> StepModel
    decreases chunks.len(),
{
    if chunks.len() == 0 {
        StepModel::Continue(r)
    } else {
        match step_model(r, chunks[0]) {
            StepModel::Continue(next) => read_chunks(next, chunks.drop_first()),
            done => done,
        }
    }
}

/// A header held by a prefix of `s` reads as the header of `s`.
proof fn lemma_prefix_header(c: Seq<u8>, s: Seq<u8>)
    requires
        holds_header(c),
        c.len() <= s.len(),
        c == s.take(c.len() as int),
    ensures
        holds_header(s),
        header_len(c) == header_len(s),
        frame_model(c).fin == frame_model(s).fin,
        frame_model(c).opcode == frame_model(s).opcode,
        frame_model(c).payload_len == frame_model(s).payload_len,
        frame_model(c).masking_key == frame_model(s).masking_key,
        c.skip(header_len(c)) == s.skip(header_len(s)).take(c.len() - header_len(s)),
{
    assert(c[0] == s[0]);
    assert(c[1] == s[1]);
    if c.len() >= 4 {
        assert(c.subrange(2, 4) =~= s.subrange(2, 4));
    }
    if c.len() >= 10 {
        assert(c.subrange(2, 10) =~= s.subrange(2, 10));
    }
    if c.len() >= 14 {
        assert(c.subrange(10, 14) =~= s.subrange(10, 14));
    }
    if c.len() >= 8 {
        assert(c.subrange(4, 8) =~= s.subrange(4, 8));
    }
    if c.len() >= 6 {
        assert(c.subrange(2, 6) =~= s.subrange(2, 6));
    }
    assert(c.skip(header_len(c)) =~= s.skip(header_len(s)).take(c.len() - header_len(s)));
}

/// Once a final frame's header is in, the chunks that bring the rest of its payload
/// complete the message.
proof fn lemma_final_body_reads(
    q: Seq<u8>,
    body: Seq<u8>,
    key: Seq<u8>,
    len: u64,
    chunks: Seq<Seq<u8>>,
)
    requires
        body.len() == len,
        q.len() < len,
        q + chunks.flatten() == body,
    ensures
        read_chunks(ReaderModel::FinalBody { payload: q, payload_len: len, masking_key: key }, chunks)
            == StepModel::Message(apply_mask(body, key)),
    decreases chunks.len(),
{
    if chunks.len() == 0 {
        assert(q + chunks.flatten() =~= q);
    } else {
        let c = chunks[0];
        let rest = chunks.drop_first().flatten();
        let p = q + c;
        assert(chunks.flatten() == c + rest);
        assert(p + rest =~= body);
        if p.len() < len {
            lemma_final_body_reads(p, body, key, len, chunks.drop_first());
        } else {
            assert(p =~= body);
        }
    }
}

/// What a client writes is what the server reads, however the connection cuts it up: a
/// message sent as one masked final frame is read back whole and unmasked from any
/// run of chunks that make up the frame, the first of which holds the header.
pub proof fn lemma_masked_frame_reads_back_in_chunks(m: Seq<u8>, k: Seq<u8>, chunks: Seq<Seq<u8>>)
    requires
        k.len() == 4,
        m.len() <= u64::MAX,
        chunks.len() >= 1,
        chunks.flatten() == masked_frame(m, k),
        holds_header(chunks[0]),
    ensures
        read_chunks(ReaderModel::Start, chunks) == StepModel::Message(m),
{
    let s = masked_frame(m, k);
    let body = apply_mask(m, k);
    let c = chunks[0];
    let tail = chunks.drop_first().flatten();
    assert(chunks.flatten() == c + tail);
    assert(c =~= s.take(c.len() as int));
    lemma_client_frame_header(0x81u8, m, k);
    lemma_apply_mask_involution(m, k);
    lemma_prefix_header(c, s);
    let h = header_len(s);
    let j = c.len() - h;
    assert(c.skip(h) == body.take(j));
    if c.len() == s.len() {
        assert(body.take(j) =~= body);
    } else {
        assert(!frame_model(c).payload_complete);
        assert(body.take(j) + tail =~= body);
        lemma_final_body_reads(body.take(j), body, k, m.len() as u64, chunks.drop_first());
    }
}

/// A message sent in two fragments, each arriving whole in its own chunk, is read
/// back as the first fragment's payload followed by the second's, both unmasked.
pub proof fn lemma_two_fragments_join(m1: Seq<u8>, k1: Seq<u8>, m2: Seq<u8>, k2: Seq<u8>)
    requires
        k1.len() == 4,
        k2.len() == 4,
        m1.len() <= u64::MAX,
        m2.len() <= u64::MAX,
    ensures
        read_chunks(ReaderModel::Start, seq![client_frame(0x01u8, m1, k1), client_frame(0x80u8, m2, k2)])
            == StepModel::Message(m1 + m2),
{
    let f1 = client_frame(0x01u8, m1, k1);
    let f2 = client_frame(0x80u8, m2, k2);
    let chunks = seq![f1, f2];
    lemma_client_frame_header(0x01u8, m1, k1);
    lemma_client_frame_header(0x80u8, m2, k2);
    lemma_apply_mask_involution(m1, k1);
    lemma_apply_mask_involution(m2, k2);
    assert(chunks[0] == f1);
    assert(chunks.drop_first() =~= seq![f2]);
    assert(seq![f2].drop_first() =~= Seq::<Seq<u8>>::empty());
    assert(step_model(ReaderModel::Start, f1) == StepModel::Continue(ReaderModel::Fragments { payload: m1 }));
    assert(step_model(ReaderModel::Fragments { payload: m1 }, f2) == StepModel::Message(m1 + m2));
    assert(seq![f2][0] == f2);
    assert(read_chunks(ReaderModel::Fragments { payload: m1 }, seq![f2]) == StepModel::Message(m1 + m2));
    assert(read_chunks(ReaderModel::Start, chunks)
        == read_chunks(ReaderModel::Fragments { payload: m1 }, chunks.drop_first()));
}

/// `bytes` copied into a new vector.
fn to_vec(bytes: &[u8]) -> (v: Vec<u8>)
    ensures v@ == bytes@,
{
    let mut v: Vec<u8> = Vec::new();
    v.extend_from_slice(bytes);
    assert(v@ =~= bytes@);
    v
}

/// `v` with `bytes` appended.
fn append(v: &mut Vec<u8>, bytes: &[u8])
    ensures final(v)@ == old(v)@ + bytes@,
{
    v.extend_from_slice(bytes);
    assert(v@ =~= old(v)@ + bytes@);
}

impl PayloadReader {
    /// A reader waiting for the first frame of a message.
    pub fn new() -> (r: Self)
        ensures r@ == ReaderModel::Start,
    {
        PayloadReader::Start
    }

    /// Whether the next chunk must start with a whole frame header (see
    /// `WebSocketFrameParser::can_parse`).
    pub fn expects_header(&self) -> (r: bool)
        ensures r == expects_header(self@),
    {
        match self {
            PayloadReader::Start => true,
            PayloadReader::Fragments { .. } => true,
            _ => false,
        }
    }

    /// Takes in the next chunk of bytes read from the connection.
    pub fn step(self, bytes: &[u8]) -> (res: ReadStep)
        requires
            expects_header(self@) ==> holds_header(bytes@),
        ensures
            res@ == step_model(self@, bytes@),
    {
        match self {
            PayloadReader::Start => {
                let (frame, rest) = WebSocketFrameParser::parse_frame(bytes);
                if frame.opcode == 8 {
                    return ReadStep::Closed;
                }
                let mut payload = to_vec(rest);
                if frame.fin {
                    if !frame.payload_complete && (payload.len() as u64) < frame.payload_len {
                        return ReadStep::Continue(PayloadReader::FinalBody {
                            payload,
                            payload_len: frame.payload_len,
                            masking_key: frame.masking_key,
                        });
                    }
                    WebSocketFrameParser::decode_payload(payload.as_mut_slice(), frame.masking_key);
                    ReadStep::Message(payload)
                } else {
                    WebSocketFrameParser::decode_payload(payload.as_mut_slice(), frame.masking_key);
                    ReadStep::Continue(PayloadReader::Fragments { payload })
                }
            },
            PayloadReader::FinalBody { mut payload, payload_len, masking_key } => {
                append(&mut payload, bytes);
                if (payload.len() as u64) < payload_len {
                    ReadStep::Continue(PayloadReader::FinalBody { payload, payload_len, masking_key })
                } else {
                    WebSocketFrameParser::decode_payload(payload.as_mut_slice(), masking_key);
                    ReadStep::Message(payload)
                }
            },
            PayloadReader::Fragments { mut payload } => {
                let (frame, rest) = WebSocketFrameParser::parse_frame(bytes);
                let mut next = to_vec(rest);
                if !frame.payload_complete && (next.len() as u64) < frame.payload_len {
                    ReadStep::Continue(PayloadReader::FragmentBody {
                        payload,
                        next,
                        payload_len: frame.payload_len,
                        masking_key: frame.masking_key,
                        fin: frame.fin,
                    })
                } else {
                    // decode the payload and hand it to the full payload
                    WebSocketFrameParser::decode_payload(next.as_mut_slice(), frame.masking_key);
                    append(&mut payload, next.as_slice());
                    if frame.fin {
                        ReadStep::Message(payload)
                    } else {
                        ReadStep::Continue(PayloadReader::Fragments { payload })
                    }
                }
            },
            PayloadReader::FragmentBody { mut payload, mut next, payload_len, masking_key, fin } => {
                append(&mut next, bytes);
                if (next.len() as u64) < payload_len {
                    ReadStep::Continue(
                        PayloadReader::FragmentBody { payload, next, payload_len, masking_key, fin },
                    )
                } else {
                    WebSocketFrameParser::decode_payload(next.as_mut_slice(), masking_key);
                    append(&mut payload, next.as_slice());
                    if fin {
                        ReadStep::Message(payload)
                    } else {
                        ReadStep::Continue(PayloadReader::Fragments { payload })
                    }
                }
            },
        }
    }
}

} // verus!
