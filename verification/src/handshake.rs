use vstd::prelude::*;
use vstd::utf8::encode_utf8;
use base64::Engine;
use sha1::Digest;

verus! {

/// The GUID that the opening handshake appends to the client's key (RFC 6455, 1.3).
pub const WEB_SOCK_KEY: &'static str = "258EAFA5-E914-47DA-95CA-C5AB0DC85B11";

/// The SHA-1 digest of `data`.
pub uninterp spec fn sha1_digest(data: Seq<u8>) -> Seq<u8>;

/// The standard base64 encoding of `data`, with padding.
pub uninterp spec fn base64_standard(data: Seq<u8>) -> Seq<char>;

/// Calls `<sha1::Sha1 as sha1::Digest>::digest`. Claimed: the result is the digest of
/// `data`, a function of the bytes alone, and is 20 bytes long (the output size of
/// `Sha1` is `U20`).
#[verifier::external_body]
fn sha1_of(data: &[u8]) -> (digest: Vec<u8>)
    ensures
        digest@ == sha1_digest(data@),
        digest@.len() == 20,
{
    sha1::Sha1::digest(data).to_vec()
}

/// Calls `base64::Engine::encode` on `base64::prelude::BASE64_STANDARD`. Claimed: the
/// result is the padded standard encoding of `data`, a function of the bytes alone.
/// The length bound keeps out the inputs whose encoded length overflows, on which
/// `encode` panics.
#[verifier::external_body]
fn base64_of(data: &[u8]) -> (text: String)
    requires
        data@.len() / 3 * 4 + 4 <= usize::MAX,
    ensures
        text@ == base64_standard(data@),
{
    base64::prelude::BASE64_STANDARD.encode(data)
}

/// The `Sec-WebSocket-Accept` value for a client's `Sec-WebSocket-Key`: the base64 of
/// the SHA-1 of the key followed by the GUID, as UTF-8 text.
pub open spec fn accept_key(key: Seq<char>) -> Seq<char> {
    base64_standard(sha1_digest(encode_utf8(key + WEB_SOCK_KEY@)))
}

/// The UTF-8 encoding of two texts one after the other is the two encodings one after
/// the other.
pub proof fn lemma_encode_utf8_concat(a: Seq<char>, b: Seq<char>)
    ensures
        encode_utf8(a + b) == encode_utf8(a) + encode_utf8(b),
    decreases a.len(),
{
    if a.len() == 0 {
        assert(a + b =~= b);
        assert(encode_utf8(a) =~= Seq::<u8>::empty());
        assert(encode_utf8(a) + encode_utf8(b) =~= encode_utf8(b));
    } else {
        lemma_encode_utf8_concat(a.drop_first(), b);
        assert((a + b).drop_first() =~= a.drop_first() + b);
        assert((a + b)[0] == a[0]);
    }
}

/// The accept value hashes exactly the UTF-8 bytes of the key followed by those of
/// the GUID, unaltered, and encodes the digest in base64.
pub proof fn lemma_accept_key_hashes_key_then_guid(key: Seq<char>)
    ensures
        accept_key(key) == base64_standard(sha1_digest(encode_utf8(key) + encode_utf8(WEB_SOCK_KEY@))),
{
    lemma_encode_utf8_concat(key, WEB_SOCK_KEY@);
}

/// The reply that accepts a WebSocket connection.
pub struct HandshakeResponse {
    pub code: u16,
    pub message: String,
    pub ctype: String,
    /// Header names and values, in the order they are sent.
    pub headers: Vec<(String, String)>,
    pub body: Vec<u8>,
}

/// The reply to an opening handshake: `101 Switching Protocols`, with the headers
/// `Connection: Upgrade`, `Upgrade: websocket` and `Sec-WebSocket-Accept: accept`,
/// and no body.
pub fn handshake_response(accept: String) -> (r: HandshakeResponse)
    ensures
        r.code == 101,
        r.message@ == "Switching Protocols"@,
        r.ctype@ == "text"@,
        r.headers@.len() == 3,
        r.headers@[0].0@ == "Connection"@,
        r.headers@[0].1@ == "Upgrade"@,
        r.headers@[1].0@ == "Upgrade"@,
        r.headers@[1].1@ == "websocket"@,
        r.headers@[2].0@ == "Sec-WebSocket-Accept"@,
        r.headers@[2].1@ == accept@,
        r.body@.len() == 0,
{
    let mut headers: Vec<(String, String)> = Vec::new();
    headers.push(("Connection".to_owned(), "Upgrade".to_owned()));
    headers.push(("Upgrade".to_owned(), "websocket".to_owned()));
    headers.push(("Sec-WebSocket-Accept".to_owned(), accept));
    HandshakeResponse {
        code: 101,
        message: "Switching Protocols".to_owned(),
        ctype: "text".to_owned(),
        headers,
        body: Vec::new(),
    }
}

/// Answers the opening handshake of a WebSocket connection.
pub struct WebSocketHandShake;

impl WebSocketHandShake {
    /// The reply to a client that sent `sec_socket_key`: the key is hashed with the
    /// GUID and the hash, in base64, is the `Sec-WebSocket-Accept` value.
    pub fn handshake(sec_socket_key: &str) -> (r: HandshakeResponse)
        ensures
            r.code == 101,
            r.message@ == "Switching Protocols"@,
            r.ctype@ == "text"@,
            r.headers@.len() == 3,
            r.headers@[0].0@ == "Connection"@,
            r.headers@[0].1@ == "Upgrade"@,
            r.headers@[1].0@ == "Upgrade"@,
            r.headers@[1].1@ == "websocket"@,
            r.headers@[2].0@ == "Sec-WebSocket-Accept"@,
            r.headers@[2].1@ == accept_key(sec_socket_key@),
            r.body@.len() == 0,
    {
        // Hash the key with the constant web socket key
        let mut text: Vec<u8> = Vec::new();
        text.extend_from_slice(sec_socket_key.as_bytes());
        text.extend_from_slice(WEB_SOCK_KEY.as_bytes());
        proof {
            lemma_encode_utf8_concat(sec_socket_key@, WEB_SOCK_KEY@);
            assert(text@ =~= encode_utf8(sec_socket_key@ + WEB_SOCK_KEY@));
        }
        let digest = sha1_of(text.as_slice());

        // Encode the hash as base64
        let accept = base64_of(digest.as_slice());
        handshake_response(accept)
    }
}

} // verus!
