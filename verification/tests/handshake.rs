use http_sockets::handshake::{handshake_response, WebSocketHandShake, WEB_SOCK_KEY};

#[test]
fn accept_key_of_rfc_example() {
    let r = WebSocketHandShake::handshake("dGhlIHNhbXBsZSBub25jZQ==");
    assert_eq!(r.code, 101);
    assert_eq!(r.message, "Switching Protocols");
    assert_eq!(r.ctype, "text");
    assert!(r.body.is_empty());
    let headers: Vec<(&str, &str)> = r.headers.iter().map(|(a, b)| (a.as_str(), b.as_str())).collect();
    assert_eq!(
        headers,
        vec![
            ("Connection", "Upgrade"),
            ("Upgrade", "websocket"),
            ("Sec-WebSocket-Accept", "s3pPLMBiTxaQ9kYGzzhZRbK+xOo="),
        ]
    );
}

#[test]
fn accept_key_of_empty_key() {
    // base64 of the SHA-1 of the GUID alone
    let r = WebSocketHandShake::handshake("");
    assert_eq!(r.headers[2].1, "Kfh9QIsMVZcl6xEPYxPHzW8SZ8w=");
}

#[test]
fn response_carries_the_given_accept_value() {
    let r = handshake_response("abc".to_string());
    assert_eq!(r.headers[2].0, "Sec-WebSocket-Accept");
    assert_eq!(r.headers[2].1, "abc");
    assert_eq!(WEB_SOCK_KEY, "258EAFA5-E914-47DA-95CA-C5AB0DC85B11");
}
