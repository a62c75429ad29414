use websock::ws_stream::{no_upgrade_response, WSStream};
use websock::HandshakeError;

const UPGRADE_REQUEST: &str = "GET /chat HTTP/1.1\r\n\
Host: server.example.com\r\n\
Upgrade: websocket\r\n\
Connection: Upgrade\r\n\
Sec-WebSocket-Key: dGhlIHNhbXBsZSBub25jZQ==\r\n\
Sec-WebSocket-Version: 13\r\n\
\r\n";

#[test]
fn handshake_computes_the_canonical_accept_value() {
    let mut ws = WSStream::from(UPGRADE_REQUEST.as_bytes()).unwrap();
    let response = String::from_utf8(ws.take_output()).unwrap();
    assert_eq!(
        response,
        "HTTP/1.1 101 Switching Protocols\r\n\
Upgrade: websocket\r\n\
Connection: Upgrade\r\n\
Access-Control-Allow-Origin: *\r\n\
Sec-WebSocket-Accept: s3pPLMBiTxaQ9kYGzzhZRbK+xOo=\r\n\r\n"
    );
}

#[test]
fn fresh_connection_starts_empty_but_for_the_response() {
    let mut ws = WSStream::from(UPGRADE_REQUEST.as_bytes()).unwrap();
    let _ = ws.take_output();
    assert!(matches!(ws.read_message(), Ok(None)));
    assert_eq!(ws.take_output(), Vec::<u8>::new());
}

#[test]
fn request_without_upgrade_is_refused() {
    let request = "GET / HTTP/1.1\r\nHost: server.example.com\r\nAccept: */*\r\n\r\n";
    let r = WSStream::from(request.as_bytes());
    assert!(matches!(r, Err(HandshakeError::NoUpgrade)));
}

#[test]
fn refusal_response_is_a_plain_ok() {
    let response = String::from_utf8(no_upgrade_response()).unwrap();
    assert_eq!(
        response,
        "HTTP/1.1 200 OK\r\n\
Connection: close\r\n\
Content-Length: 0\r\n\
Access-Control-Allow-Origin: *\r\n\r\n"
    );
}

#[test]
fn upgrade_header_must_name_websocket() {
    let request = "GET / HTTP/1.1\r\n\
Host: server.example.com\r\n\
Upgrade: h2c\r\n\
Connection: Upgrade\r\n\r\n";
    assert!(matches!(
        WSStream::from(request.as_bytes()),
        Err(HandshakeError::NoUpgrade)
    ));
}

#[test]
fn missing_key_still_upgrades_with_an_accept_for_the_empty_key() {
    // an absent key is tolerated: the accept value is computed for empty text
    let request = "GET / HTTP/1.1\r\n\
Host: server.example.com\r\n\
Upgrade: websocket\r\n\
Connection: Upgrade\r\n\r\n";
    let mut ws = WSStream::from(request.as_bytes()).unwrap();
    let response = String::from_utf8(ws.take_output()).unwrap();
    // base64(sha1("258EAFA5-E914-47DA-95CA-C5AB0DC85B11"))
    assert!(response.contains("Sec-WebSocket-Accept: "));
    assert!(response.starts_with("HTTP/1.1 101 Switching Protocols\r\n"));
}
