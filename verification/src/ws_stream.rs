use vstd::prelude::*;
use vstd::string::StringSliceAdditionalSpecFns;
use vstd::utf8::encode_utf8;
use base64::Engine;
use sha1::{Digest, Sha1};
use crate::frame::{
    decodes_to, header_fits, spec_apply_mask, spec_data_header, spec_frame_bytes, spec_header_len,
    spec_wire_content_len, spec_wire_ext_count, spec_wire_header_len, spec_wire_masked, Frame,
    FrameHeader, ProtocolError,
};
use crate::message::{
    frame_views, spec_concat_payloads, utf8_lossy, utf8_lossy_of, FrameView, Message,
    MessageView,
};
use crate::{CLOSE, CONTINUE, PING, PONG};

verus! {

/// Error raised when the opening HTTP exchange does not ask for a WebSocket
/// upgrade.
#[derive(Debug, PartialEq, Eq, Structural, Clone, Copy)]
pub enum HandshakeError {
    /// The request carried no `Upgrade: websocket` header.
    NoUpgrade,
}

/// The opcode the first wire byte announces.
pub open spec fn wire_opcode(b: Seq<u8>) -> u8 {
    b[0] & 0x0f
}

/// Total length of the announced frame: its header and its payload.
pub open spec fn spec_frame_total(b: Seq<u8>) -> int {
    spec_wire_header_len(b) + spec_wire_content_len(b)
}

/// The four announced masking-key bytes.
pub open spec fn spec_mask_key(b: Seq<u8>) -> Seq<u8> {
    b.subrange(2 + spec_wire_ext_count(b), 2 + spec_wire_ext_count(b) + 4)
}

/// The payload bytes as they stand on the wire, still masked.
pub open spec fn spec_raw_payload(b: Seq<u8>) -> Seq<u8> {
    b.subrange(spec_wire_header_len(b), spec_frame_total(b))
}

/// The announced payload, unmasked when a masking key is announced.
pub open spec fn spec_payload(b: Seq<u8>) -> Seq<u8> {
    if spec_wire_masked(b) {
        spec_apply_mask(spec_raw_payload(b), spec_mask_key(b))
    } else {
        spec_raw_payload(b)
    }
}

/// The ghost image of the frame at the front of the buffer.
pub open spec fn spec_wire_frame(b: Seq<u8>) -> FrameView {
    FrameView { fin: b[0] & 0x80 != 0, opcode: wire_opcode(b), contents: spec_payload(b) }
}

/// The two-byte close acknowledgment this server writes.
pub open spec fn close_ack() -> Seq<u8> {
    seq![0x88u8, 0x00u8]
}

/// The wire image of the pong frame that echoes this payload.
pub open spec fn spec_pong_bytes(payload: Seq<u8>) -> Seq<u8> {
    spec_frame_bytes(spec_data_header(PONG, payload.len() as u64), payload)
}

/// One server-side WebSocket connection, kept apart from its transport:
/// `recv` buffers the bytes read off the stream and not yet consumed, `out`
/// holds the bytes the protocol wants written, and `fragments` carries a
/// partly assembled fragmented message across calls.
pub struct WSStream {
    pub recv: Vec<u8>,
    pub out: Vec<u8>,
    pub fragments: Vec<Frame>,
}

/// What `sha1::Sha1` digests these bytes to: a function of the input alone.
pub uninterp spec fn sha1_of(bytes: Seq<u8>) -> Seq<u8>;

/// Relies on `sha1::Sha1` through the `Digest` interface: the digest is a
/// function of the input bytes alone and is always 20 bytes long.
#[verifier::external_body]
fn sha1_digest(input: &[u8]) -> (r: Vec<u8>)
    ensures
        r@ == sha1_of(input@),
        r@.len() == 20,
{
    let mut hasher = Sha1::new();
    hasher.update(input);
    hasher.finalize().to_vec()
}

/// What base64's standard alphabet encodes these bytes to: a function of
/// the input alone.
pub uninterp spec fn base64_of(bytes: Seq<u8>) -> Seq<char>;

/// Relies on `base64::engine::general_purpose::STANDARD`: the encoding is a
/// function of the input bytes alone.
#[verifier::external_body]
fn base64_encode(input: &[u8]) -> (r: String)
    ensures
        r@ == base64_of(input@),
{
    base64::engine::general_purpose::STANDARD.encode(input)
}

/// What `httparse::Request::parse` extracts from these bytes: the list of
/// header names and raw values, a function of the bytes alone.
pub uninterp spec fn parsed_headers_of(buf: Seq<u8>) -> Seq<(Seq<char>, Seq<u8>)>;

/// Relies on `httparse::Request::parse`: the parsed header list is a
/// function of the request bytes alone; each header is handed on as its
/// name and its raw value.
#[verifier::external_body]
fn parse_headers(buf: &[u8]) -> (r: Vec<(String, Vec<u8>)>)
    ensures
        r@.map_values(|p: (String, Vec<u8>)| (p.0@, p.1@)) == parsed_headers_of(buf@),
{
    let mut headers = [httparse::EMPTY_HEADER; 1024];
    let mut req = httparse::Request::new(&mut headers);
    let _ = req.parse(buf);
    let mut out: Vec<(String, Vec<u8>)> = Vec::new();
    for h in req.headers.iter() {
        out.push((h.name.to_string(), h.value.to_vec()));
    }
    out
}

/// Whether `needle` occurs as a contiguous run inside `hay`.
pub open spec fn contains_subseq(hay: Seq<u8>, needle: Seq<u8>) -> bool {
    exists|i: int|
        0 <= i <= hay.len() - needle.len() && #[trigger] hay.subrange(i, i + needle.len())
            == needle
}

fn subseq_at(hay: &[u8], needle: &[u8], at: usize) -> (r: bool)
    requires
        at + needle@.len() <= hay@.len(),
    ensures
        r == (hay@.subrange(at as int, at + needle@.len()) == needle@),
{
    let hay_len = hay.len();
    let mut j: usize = 0;
    while j < needle.len()
        invariant
            j <= needle@.len(),
            hay_len == hay@.len(),
            at + needle@.len() <= hay@.len(),
            forall|k: int| 0 <= k < j ==> hay@[at + k] == needle@[k],
        decreases needle@.len() - j,
    {
        if hay[at + j] != needle[j] {
            proof {
                assert(hay@.subrange(at as int, at + needle@.len())[j as int] != needle@[j as int]);
            }
            return false;
        }
        j += 1;
    }
    proof {
        assert(hay@.subrange(at as int, at + needle@.len()) =~= needle@);
    }
    true
}

fn find_subseq(hay: &[u8], needle: &[u8]) -> (r: bool)
    ensures
        r == contains_subseq(hay@, needle@),
{
    if needle.len() > hay.len() {
        return false;
    }
    if needle.len() == 0 {
        proof {
            assert(hay@.subrange(0int, 0int + needle@.len() as int) =~= needle@);
        }
        return true;
    }
    let hay_len = hay.len();
    let last = hay_len - needle.len();
    let mut i: usize = 0;
    loop
        invariant
            i <= last + 1,
            hay_len == hay@.len(),
            last == hay@.len() - needle@.len(),
            needle@.len() >= 1,
            forall|k: int|
                0 <= k < i ==> #[trigger] hay@.subrange(k, k + needle@.len()) != needle@,
        decreases last + 1 - i,
    {
        if i > last {
            return false;
        }
        if subseq_at(hay, needle, i) {
            return true;
        }
        i += 1;
    }
}

/// The value of the first `Sec-WebSocket-Key` header, if any.
pub open spec fn spec_ws_key(headers: Seq<(Seq<char>, Seq<u8>)>) -> Option<Seq<u8>>
    decreases headers.len(),
{
    if headers.len() == 0 {
        None
    } else if headers[0].0 == "Sec-WebSocket-Key"@ {
        Some(headers[0].1)
    } else {
        spec_ws_key(headers.drop_first())
    }
}

/// Whether some header asks to upgrade the connection to WebSocket.
pub open spec fn spec_wants_upgrade(headers: Seq<(Seq<char>, Seq<u8>)>) -> bool {
    exists|i: int|
        0 <= i < headers.len() && headers[i].0 == "Upgrade"@ && contains_subseq(
            headers[i].1,
            "websocket"@.map_values(|c: char| c as u8),
        )
}

/// The key the handshake answers: the first `Sec-WebSocket-Key` value read
/// as text, or empty text when the header is missing.
pub open spec fn spec_key_text(headers: Seq<(Seq<char>, Seq<u8>)>) -> Seq<char> {
    match spec_ws_key(headers) {
        Some(k) => utf8_lossy_of(k),
        None => utf8_lossy_of(Seq::empty()),
    }
}

/// The accept value the handshake computes for a key: the base64 encoding
/// of the SHA-1 digest of the key followed by the protocol's fixed GUID.
pub open spec fn spec_accept_of(key: Seq<char>) -> Seq<char> {
    base64_of(sha1_of(encode_utf8(key + "258EAFA5-E914-47DA-95CA-C5AB0DC85B11"@)))
}

/// The complete `101 Switching Protocols` response for a key.
pub open spec fn spec_upgrade_response(key: Seq<char>) -> Seq<u8> {
    encode_utf8(
        "HTTP/1.1 101 Switching Protocols\r\nUpgrade: websocket\r\nConnection: Upgrade\r\nAccess-Control-Allow-Origin: *\r\nSec-WebSocket-Accept: "@
            + spec_accept_of(key) + "\r\n\r\n"@,
    )
}

/// The plain `200 OK` response written when no upgrade was requested.
pub open spec fn spec_no_upgrade_response() -> Seq<u8> {
    encode_utf8(
        "HTTP/1.1 200 OK\r\nConnection: close\r\nContent-Length: 0\r\nAccess-Control-Allow-Origin: *\r\n\r\n"@,
    )
}

fn get_ws_accept(ws_key: String) -> (r: String)
    ensures
        r@ == spec_accept_of(ws_key@),
{
    let concated = ws_key.concat("258EAFA5-E914-47DA-95CA-C5AB0DC85B11");
    let hash = sha1_digest(concated.as_str().as_bytes());
    base64_encode(hash.as_slice())
}

/// The response written when the request asks for no upgrade; the caller
/// should send it and drop the connection.
pub fn no_upgrade_response() -> (r: Vec<u8>)
    ensures
        r@ == spec_no_upgrade_response(),
{
    vstd::slice::slice_to_vec(
        "HTTP/1.1 200 OK\r\nConnection: close\r\nContent-Length: 0\r\nAccess-Control-Allow-Origin: *\r\n\r\n".as_bytes(),
    )
}

/// What one attempt to take a frame off a buffer holding `b` leaves
/// behind, when the output buffer held `out0`: the full case split of
/// `WSStream::read_frame`.
pub open spec fn read_frame_post(
    b: Seq<u8>,
    out0: Seq<u8>,
    post: WSStream,
    r: Result<Option<Frame>, ProtocolError>,
) -> bool {
    if !header_fits(b) {
        &&& r matches Ok(o) && o is None
        &&& post.recv@ == b
        &&& post.out@ == out0
    } else if wire_opcode(b) == CLOSE {
        &&& r == Err::<Option<Frame>, ProtocolError>(ProtocolError::ConnectionClosed)
        &&& post.recv@ == b
        &&& post.out@ == out0 + close_ack()
    } else if b.len() < spec_frame_total(b) {
        &&& r matches Ok(o) && o is None
        &&& post.recv@ == b
        &&& post.out@ == out0
    } else {
        &&& post.recv@ == b.skip(spec_frame_total(b))
        &&& if wire_opcode(b) == PONG {
            &&& r == Err::<Option<Frame>, ProtocolError>(ProtocolError::UnknownOpcode)
            &&& post.out@ == out0
        } else {
            &&& r matches Ok(o) && o matches Some(f) && f@ == spec_wire_frame(b) && decodes_to(
                b,
                f.header,
            )
            &&& if wire_opcode(b) == PING {
                post.out@ == out0 + spec_pong_bytes(spec_payload(b))
            } else {
                post.out@ == out0
            }
        }
    }
}

impl WSStream {
    /// Answers the opening HTTP request. When some header asks for the
    /// WebSocket upgrade this yields a connection whose output buffer
    /// holds the `101 Switching Protocols` response, with the accept value
    /// computed from the first `Sec-WebSocket-Key` header; otherwise it
    /// fails, and the caller should write `no_upgrade_response()` and drop
    /// the connection.
    pub fn from(request: &[u8]) -> (r: Result<WSStream, HandshakeError>)
        ensures
            ({
                let headers = parsed_headers_of(request@);
                match r {
                    Ok(ws) => {
                        &&& spec_wants_upgrade(headers)
                        &&& ws.recv@ == Seq::<u8>::empty()
                        &&& ws.fragments@ == Seq::<Frame>::empty()
                        &&& ws.out@ == spec_upgrade_response(spec_key_text(headers))
                    },
                    Err(e) => e == HandshakeError::NoUpgrade && !spec_wants_upgrade(headers),
                }
            }),
    {
        let headers = parse_headers(request);
        let ghost hview = parsed_headers_of(request@);
        proof {
            assert(hview.len() == headers@.len());
        }
        let key_name = "Sec-WebSocket-Key".to_owned();
        let upgrade_name = "Upgrade".to_owned();
        let websocket: &[u8] = "websocket".as_bytes();
        proof {
            vstd::string::is_ascii_spec_bytes("websocket");
            assert("websocket".is_ascii()) by {
                reveal_strlit("websocket");
            }
            assert(websocket@ =~= "websocket"@.map_values(|c: char| c as u8));
        }
        let mut key: Option<Vec<u8>> = None;
        let mut wants_to_upgrade = false;
        let mut i: usize = 0;
        proof {
            assert(hview.skip(0) =~= hview);
        }
        while i < headers.len()
            invariant
                i <= headers@.len(),
                hview == headers@.map_values(|p: (String, Vec<u8>)| (p.0@, p.1@)),
                key_name@ == "Sec-WebSocket-Key"@,
                upgrade_name@ == "Upgrade"@,
                websocket@ == "websocket"@.map_values(|c: char| c as u8),
                match key {
                    Some(k) => spec_ws_key(hview) == Some(k@),
                    None => spec_ws_key(hview) == spec_ws_key(hview.skip(i as int)),
                },
                wants_to_upgrade == exists|j: int|
                    0 <= j < i && hview[j].0 == "Upgrade"@ && contains_subseq(
                        hview[j].1,
                        "websocket"@.map_values(|c: char| c as u8),
                    ),
            decreases headers@.len() - i,
        {
            let h = &headers[i];
            proof {
                assert(hview[i as int] == (headers@[i as int].0@, headers@[i as int].1@));
                assert(hview.skip(i as int)[0] == hview[i as int]);
            }
            if key.is_none() {
                if h.0 == key_name {
                    key = Some(vstd::slice::slice_to_vec(h.1.as_slice()));
                    proof {
                        assert(spec_ws_key(hview.skip(i as int)) == Some(hview[i as int].1));
                    }
                } else {
                    proof {
                        assert(hview.skip(i as int).drop_first() =~= hview.skip(i + 1));
                        assert(spec_ws_key(hview.skip(i as int)) == spec_ws_key(
                            hview.skip(i + 1),
                        ));
                    }
                }
            }
            if h.0 == upgrade_name {
                if find_subseq(h.1.as_slice(), websocket) {
                    wants_to_upgrade = true;
                }
            }
            i += 1;
        }
        proof {
            assert(hview.skip(hview.len() as int) =~= Seq::<(Seq<char>, Seq<u8>)>::empty());
        }
        if !wants_to_upgrade {
            return Err(HandshakeError::NoUpgrade);
        }
        let key_vec: Vec<u8> = match key {
            Some(k) => k,
            None => Vec::new(),
        };
        let key_str = utf8_lossy(key_vec.as_slice());
        let accept = get_ws_accept(key_str);
        let mut response =
            "HTTP/1.1 101 Switching Protocols\r\nUpgrade: websocket\r\nConnection: Upgrade\r\nAccess-Control-Allow-Origin: *\r\nSec-WebSocket-Accept: ".to_owned();
        response.append(accept.as_str());
        response.append("\r\n\r\n");
        let out = vstd::slice::slice_to_vec(response.as_str().as_bytes());
        Ok(WSStream { recv: Vec::new(), out, fragments: Vec::new() })
    }

    /// Hands the connection bytes read off the transport; they are queued
    /// until a full frame is available.
    pub fn feed(&mut self, bytes: &[u8])
        ensures
            final(self).recv@ == old(self).recv@ + bytes@,
            final(self).out@ == old(self).out@,
            final(self).fragments@ == old(self).fragments@,
    {
        let mut i: usize = 0;
        while i < bytes.len()
            invariant
                i <= bytes@.len(),
                self.recv@ == old(self).recv@ + bytes@.subrange(0, i as int),
                self.out@ == old(self).out@,
                self.fragments@ == old(self).fragments@,
            decreases bytes@.len() - i,
        {
            self.recv.push(*vstd::slice::slice_index_get(bytes, i));
            proof {
                assert(old(self).recv@ + bytes@.subrange(0, i as int) + seq![bytes@[i as int]]
                    =~= old(self).recv@ + bytes@.subrange(0, i + 1));
            }
            i += 1;
        }
        proof {
            assert(bytes@.subrange(0, bytes@.len() as int) =~= bytes@);
        }
    }

    /// Takes the bytes the protocol wants written to the transport,
    /// leaving the output buffer empty.
    pub fn take_output(&mut self) -> (r: Vec<u8>)
        ensures
            r@ == old(self).out@,
            final(self).out@ == Seq::<u8>::empty(),
            final(self).recv@ == old(self).recv@,
            final(self).fragments@ == old(self).fragments@,
    {
        let rest = self.out.split_off(0);
        proof {
            assert(old(self).out@.subrange(0, old(self).out@.len() as int) =~= old(self).out@);
            assert(old(self).out@.subrange(0, 0) =~= Seq::<u8>::empty());
        }
        rest
    }

    /// Queues one final unmasked text frame carrying the string's bytes.
    pub fn write_text(&mut self, text: &str)
        ensures
            final(self).out@ == old(self).out@ + spec_frame_bytes(
                spec_data_header(crate::TEXT, text.spec_bytes().len() as u64),
                text.spec_bytes(),
            ),
            final(self).recv@ == old(self).recv@,
            final(self).fragments@ == old(self).fragments@,
    {
        let mut dataframe = Frame::from_text(text);
        let mut frame_bytes = dataframe.to_bytes();
        self.out.append(&mut frame_bytes);
    }

    /// Queues one final unmasked binary frame carrying the bytes.
    pub fn write_bytes(&mut self, bytes: &[u8])
        ensures
            final(self).out@ == old(self).out@ + spec_frame_bytes(
                spec_data_header(crate::BYTES, bytes@.len() as u64),
                bytes@,
            ),
            final(self).recv@ == old(self).recv@,
            final(self).fragments@ == old(self).fragments@,
    {
        let mut dataframe = Frame::from_bytes(vstd::slice::slice_to_vec(bytes));
        let mut frame_bytes = dataframe.to_bytes();
        self.out.append(&mut frame_bytes);
    }

    /// Queues the pong frame that answers a ping, echoing its payload.
    fn send_ping_resp(&mut self, f: &Frame)
        ensures
            final(self).out@ == old(self).out@ + spec_pong_bytes(f.contents@),
            final(self).recv@ == old(self).recv@,
            final(self).fragments@ == old(self).fragments@,
    {
        let echo = vstd::slice::slice_to_vec(f.contents.as_slice());
        let mut fr = Frame::pong(echo);
        let mut b = fr.to_bytes();
        self.out.append(&mut b);
    }

    /// Answers a control frame: acknowledges a close and reports the
    /// connection closed, answers a ping with a pong, and rejects any
    /// other control opcode.
    fn handle_control(&mut self, frame: &Frame) -> (r: Result<(), ProtocolError>)
        ensures
            final(self).recv@ == old(self).recv@,
            final(self).fragments@ == old(self).fragments@,
            frame.header.opcode == CLOSE ==> r == Err::<(), ProtocolError>(
                ProtocolError::ConnectionClosed,
            ) && final(self).out@ == old(self).out@ + close_ack(),
            frame.header.opcode == PING ==> r is Ok && final(self).out@ == old(self).out@
                + spec_pong_bytes(frame.contents@),
            frame.header.opcode != CLOSE && frame.header.opcode != PING ==> r == Err::<
                (),
                ProtocolError,
            >(ProtocolError::UnknownOpcode) && final(self).out@ == old(self).out@,
    {
        if frame.header.opcode == CLOSE {
            self.out.push(0x88);
            self.out.push(0x00);
            proof {
                assert(self.out@ =~= old(self).out@ + close_ack());
            }
            Err(ProtocolError::ConnectionClosed)
        } else if frame.header.opcode == PING {
            self.send_ping_resp(frame);
            Ok(())
        } else {
            Err(ProtocolError::UnknownOpcode)
        }
    }

    /// Tries to take one frame off the receive buffer. Yields nothing
    /// while the buffer holds less than a full frame. A close frame is
    /// acknowledged at once and ends the connection before its payload is
    /// even awaited; a ping queues its pong and is surfaced; a pong is a
    /// protocol error.
    pub fn read_frame(&mut self) -> (r: Result<Option<Frame>, ProtocolError>)
        ensures
            final(self).fragments@ == old(self).fragments@,
            read_frame_post(old(self).recv@, old(self).out@, *final(self), r),
    {
        let ghost b = self.recv@;
        let header = match FrameHeader::new(self.recv.as_slice()) {
            Err(_) => {
                return Ok(None);
            },
            Ok(h) => h,
        };
        if header.opcode == CLOSE {
            self.out.push(0x88);
            self.out.push(0x00);
            proof {
                assert(self.out@ =~= old(self).out@ + close_ack());
            }
            return Err(ProtocolError::ConnectionClosed);
        }
        let rl = self.recv.len();
        let hl = header.header_len;
        if header.content_len > u64::MAX - hl {
            proof {
                assert(b.len() == rl <= usize::MAX);
                assert(b.len() < spec_frame_total(b));
            }
            return Ok(None);
        }
        let total_u64 = hl + header.content_len;
        if (rl as u64) < total_u64 {
            return Ok(None);
        }
        let total = total_u64 as usize;
        let hl_usize = hl as usize;
        let rest = self.recv.split_off(total);
        let payload = vstd::slice::slice_to_vec(
            vstd::slice::slice_subrange(self.recv.as_slice(), hl_usize, total),
        );
        self.recv = rest;
        proof {
            assert(payload@ =~= spec_raw_payload(b));
            assert(self.recv@ =~= b.skip(spec_frame_total(b)));
        }
        let frame = Frame::new(header, payload);
        proof {
            if header.is_masked {
                assert(frame.contents@ == spec_apply_mask(spec_raw_payload(b), spec_mask_key(b)));
            }
            assert(frame@ == spec_wire_frame(b));
        }
        if frame.is_control() {
            let r = self.handle_control(&frame);
            if let Err(e) = r {
                return Err(e);
            }
        }
        Ok(Some(frame))
    }
}

/// What driving the assembler over a buffer yields: the ghost outcome of
/// `WSStream::read_message`.
pub enum MessageOutcome {
    /// More bytes are needed before a message completes; the fragments
    /// collected so far are kept for the next call.
    Pending { recv: Seq<u8>, fragments: Seq<FrameView>, out_add: Seq<u8> },
    /// A close or a framing violation ended the read.
    Failed { err: ProtocolError, recv: Seq<u8>, fragments: Seq<FrameView>, out_add: Seq<u8> },
    /// A complete message was assembled.
    Done { msg: MessageView, recv: Seq<u8>, out_add: Seq<u8> },
}

/// Assembles one message from the frames at the front of `b`, starting
/// from the fragments `frags` collected so far, with `out_add` the bytes
/// queued for writing so far. A final frame completes a message (a control
/// frame as a contents-free control message, a data frame by itself or as
/// the last continuation of the fragments); a non-final first data frame
/// opens a fragmented message; a ping queues its pong and, mid-fragment,
/// is skipped; mid-fragment frames that continue nothing are skipped.
pub open spec fn spec_read_message(b: Seq<u8>, frags: Seq<FrameView>, out_add: Seq<u8>) -> MessageOutcome
    decreases b.len(),
{
    if !header_fits(b) {
        MessageOutcome::Pending { recv: b, fragments: frags, out_add }
    } else if wire_opcode(b) == CLOSE {
        MessageOutcome::Failed {
            err: ProtocolError::ConnectionClosed,
            recv: b,
            fragments: frags,
            out_add: out_add + close_ack(),
        }
    } else if b.len() < spec_frame_total(b) {
        MessageOutcome::Pending { recv: b, fragments: frags, out_add }
    } else {
        let f = spec_wire_frame(b);
        let rest = b.skip(spec_frame_total(b));
        if f.opcode == PONG {
            MessageOutcome::Failed {
                err: ProtocolError::UnknownOpcode,
                recv: rest,
                fragments: frags,
                out_add,
            }
        } else {
            let out2 = if f.opcode == PING {
                out_add + spec_pong_bytes(f.contents)
            } else {
                out_add
            };
            if frags.len() == 0 {
                if f.is_control() {
                    MessageOutcome::Done {
                        msg: MessageView { control: true, msg_type: f.opcode, contents: None },
                        recv: rest,
                        out_add: out2,
                    }
                } else if f.fin {
                    MessageOutcome::Done {
                        msg: MessageView {
                            control: false,
                            msg_type: f.opcode,
                            contents: Some(f.contents),
                        },
                        recv: rest,
                        out_add: out2,
                    }
                } else {
                    spec_read_message(rest, seq![f], out2)
                }
            } else {
                if f.is_control() {
                    spec_read_message(rest, frags, out2)
                } else if f.opcode == CONTINUE {
                    if f.fin {
                        MessageOutcome::Done {
                            msg: MessageView {
                                control: false,
                                msg_type: frags[0].opcode,
                                contents: Some(spec_concat_payloads(frags.push(f))),
                            },
                            recv: rest,
                            out_add: out2,
                        }
                    } else {
                        spec_read_message(rest, frags.push(f), out2)
                    }
                } else {
                    spec_read_message(rest, frags, out2)
                }
            }
        }
    }
}

impl WSStream {
    /// Drives the assembler: takes frames off the receive buffer until a
    /// message completes, a close or a framing violation ends the read, or
    /// the buffered bytes run out, in which case nothing is yielded and
    /// the fragments collected so far wait for the next call.
    pub fn read_message(&mut self) -> (r: Result<Option<Message>, ProtocolError>)
        ensures
            ({
                let outcome = spec_read_message(
                    old(self).recv@,
                    frame_views(old(self).fragments@),
                    Seq::empty(),
                );
                match outcome {
                    MessageOutcome::Pending { recv, fragments, out_add } => {
                        &&& r matches Ok(o) && o is None
                        &&& final(self).recv@ == recv
                        &&& frame_views(final(self).fragments@) == fragments
                        &&& final(self).out@ == old(self).out@ + out_add
                    },
                    MessageOutcome::Failed { err, recv, fragments, out_add } => {
                        &&& r == Err::<Option<Message>, ProtocolError>(err)
                        &&& final(self).recv@ == recv
                        &&& frame_views(final(self).fragments@) == fragments
                        &&& final(self).out@ == old(self).out@ + out_add
                    },
                    MessageOutcome::Done { msg, recv, out_add } => {
                        &&& r matches Ok(o) && o matches Some(m) && m@ == msg
                        &&& final(self).recv@ == recv
                        &&& final(self).fragments@.len() == 0
                        &&& final(self).out@ == old(self).out@ + out_add
                    },
                }
            }),
    {
        let ghost out0 = self.out@;
        let ghost outcome = spec_read_message(self.recv@, frame_views(self.fragments@), Seq::empty());
        proof {
            assert(out0.skip(out0.len() as int) =~= Seq::<u8>::empty());
            assert(out0.take(out0.len() as int) =~= out0);
        }
        loop
            invariant
                out0 == old(self).out@,
                outcome == spec_read_message(
                    old(self).recv@,
                    frame_views(old(self).fragments@),
                    Seq::empty(),
                ),
                out0.len() <= self.out@.len(),
                self.out@.take(out0.len() as int) == out0,
                spec_read_message(
                    self.recv@,
                    frame_views(self.fragments@),
                    self.out@.skip(out0.len() as int),
                ) == outcome,
            decreases self.recv@.len(),
        {
            let ghost b = self.recv@;
            let ghost frags_pre = frame_views(self.fragments@);
            let ghost out_pre = self.out@;
            let ghost delta_pre = out_pre.skip(out0.len() as int);
            let fr = self.read_frame();
            proof {
                assert(frame_views(self.fragments@) == frags_pre);
                assert(out0 + self.out@.skip(out0.len() as int) =~= self.out@);
                if header_fits(b) && wire_opcode(b) == CLOSE {
                    assert(self.out@.take(out0.len() as int) =~= out0);
                    assert(self.out@.skip(out0.len() as int) =~= delta_pre + close_ack());
                }
            }
            match fr {
                Err(e) => {
                    return Err(e);
                },
                Ok(None) => {
                    return Ok(None);
                },
                Ok(Some(frame)) => {
                    proof {
                        assert(header_fits(b) && wire_opcode(b) != CLOSE && wire_opcode(b)
                            != PONG && b.len() >= spec_frame_total(b));
                        assert(frame@ == spec_wire_frame(b));
                        if wire_opcode(b) == PING {
                            assert(self.out@.take(out0.len() as int) =~= out0);
                            assert(self.out@.skip(out0.len() as int) =~= delta_pre
                                + spec_pong_bytes(spec_payload(b)));
                        }
                    }
                    if frame.is_control() {
                        if self.fragments.len() == 0 {
                            let msg = Message::from_control(frame);
                            return Ok(Some(msg));
                        }
                    } else if self.fragments.len() == 0 {
                        if frame.header.fin {
                            let msg = Message::from_frame(frame);
                            return Ok(Some(msg));
                        } else {
                            let ghost fv = frame@;
                            self.fragments.push(frame);
                            proof {
                                assert(frame_views(self.fragments@) =~= frags_pre.push(fv));
                                assert(frags_pre.push(fv) =~= seq![fv]);
                            }
                        }
                    } else {
                        if frame.header.opcode == CONTINUE {
                            if frame.header.fin {
                                let ghost fv = frame@;
                                self.fragments.push(frame);
                                proof {
                                    assert(frame_views(self.fragments@) =~= frags_pre.push(fv));
                                }
                                let ghost pushed = self.fragments@;
                                let frames = self.fragments.split_off(0);
                                proof {
                                    assert(frames@ =~= pushed);
                                    assert(self.fragments@.len() == 0);
                                }
                                let msg = Message::from_frames(frames);
                                return Ok(Some(msg));
                            } else {
                                let ghost fv = frame@;
                                self.fragments.push(frame);
                                proof {
                                    assert(frame_views(self.fragments@) =~= frags_pre.push(fv));
                                }
                            }
                        }
                    }
                },
            }
        }
    }
}

} // verus!
