use vstd::prelude::*;
use crate::{BYTES, PONG, TEXT};
use vstd::string::StringSliceAdditionalSpecFns;

verus! {

/// Error raised when the peer violates the framing rules or closes the
/// connection.
#[derive(Debug, PartialEq, Eq, Structural, Clone, Copy)]
pub enum ProtocolError {
    /// The buffered bytes are shorter than the frame header they announce.
    MalformedHeader,
    /// A control frame carried an opcode this server does not accept.
    UnknownOpcode,
    /// The peer sent a close frame, or the transport reported end of stream.
    ConnectionClosed,
}

/// Header of one wire-level frame: flags, opcode, payload length, optional
/// masking key, and the derived total header size in bytes.
pub struct FrameHeader {
    pub fin: bool,
    pub content_len: u64,
    pub is_masked: bool,
    pub opcode: u8,
    pub mask: Option<[u8; 4]>,
    pub header_len: u64,
}

/// Number of extended-length bytes the wire encoding uses for a payload of
/// `content_len` bytes: none up to 125, two up to 65536, eight above.
pub open spec fn spec_ext_len(content_len: u64) -> int {
    if content_len < 126 {
        0
    } else if content_len <= 65536 {
        2
    } else {
        8
    }
}

/// Total header size on the wire for a payload of `content_len` bytes:
/// two base bytes, the extended-length bytes, and four mask bytes if masked.
pub open spec fn spec_header_len(content_len: u64, is_masked: bool) -> int {
    2 + spec_ext_len(content_len) + if is_masked {
        4int
    } else {
        0int
    }
}

/// The value of a byte sequence read as a big-endian unsigned integer.
pub open spec fn be_bytes_val(b: Seq<u8>) -> nat
    decreases b.len(),
{
    if b.len() == 0 {
        0
    } else {
        (be_bytes_val(b.drop_last()) * 256 + b.last()) as nat
    }
}

/// The low seven bits of the second header byte: the short length field.
pub open spec fn spec_len7(b: Seq<u8>) -> u8 {
    b[1] & 0x7f
}

/// Whether the second header byte announces a masking key.
pub open spec fn spec_wire_masked(b: Seq<u8>) -> bool {
    b[1] & 0x80 != 0
}

/// Number of extended-length bytes the header announces through its short
/// length field.
pub open spec fn spec_wire_ext_count(b: Seq<u8>) -> int {
    if spec_len7(b) == 126 {
        2
    } else if spec_len7(b) == 127 {
        8
    } else {
        0
    }
}

/// Total header length the first two wire bytes announce.
pub open spec fn spec_wire_header_len(b: Seq<u8>) -> int {
    2 + spec_wire_ext_count(b) + if spec_wire_masked(b) {
        4int
    } else {
        0int
    }
}

/// Whether the buffer holds at least the complete header it announces.
pub open spec fn header_fits(b: Seq<u8>) -> bool {
    b.len() >= 2 && b.len() >= spec_wire_header_len(b)
}

/// The payload length the header announces: the short field itself, or the
/// big-endian value of the extended-length bytes.
pub open spec fn spec_wire_content_len(b: Seq<u8>) -> nat {
    if spec_wire_ext_count(b) == 0 {
        spec_len7(b) as nat
    } else {
        be_bytes_val(b.subrange(2, 2 + spec_wire_ext_count(b)))
    }
}

/// Whether `h` is exactly the header the first bytes of `b` encode.
pub open spec fn decodes_to(b: Seq<u8>, h: FrameHeader) -> bool {
    &&& header_fits(b)
    &&& h.fin == (b[0] & 0x80 != 0)
    &&& h.opcode == b[0] & 0x0f
    &&& h.is_masked == spec_wire_masked(b)
    &&& h.content_len == spec_wire_content_len(b)
    &&& h.header_len == spec_wire_header_len(b)
    &&& if h.is_masked {
        &&& h.mask matches Some(m)
        &&& m@ == b.subrange(2 + spec_wire_ext_count(b), 2 + spec_wire_ext_count(b) + 4)
    } else {
        h.mask is None
    }
}

/// The short length value the encoder writes for a payload of `content_len`
/// bytes: the length itself, or the 126/127 escape for the extended forms.
pub open spec fn spec_len7_written(content_len: u64) -> u8 {
    if content_len < 126 {
        content_len as u8
    } else if content_len <= 65536 {
        126
    } else {
        127
    }
}

/// First header byte: the final-fragment bit and the opcode.
pub open spec fn spec_byte0(h: FrameHeader) -> u8 {
    (if h.fin {
        0x80u8
    } else {
        0u8
    }) | (h.opcode & 0x0f)
}

/// Second header byte: the mask bit and the short length field.
pub open spec fn spec_byte1(h: FrameHeader) -> u8 {
    (if h.is_masked {
        0x80u8
    } else {
        0u8
    }) | spec_len7_written(h.content_len)
}

/// The `n` big-endian bytes of `v`.
pub open spec fn spec_be_bytes(v: u64, n: int) -> Seq<u8>
    decreases n,
{
    if n <= 0 {
        Seq::empty()
    } else {
        spec_be_bytes(v / 256, n - 1).push((v % 256) as u8)
    }
}

/// The mask bytes the encoder appends: the key when masked, nothing
/// otherwise.
pub open spec fn spec_mask_seq(h: FrameHeader) -> Seq<u8> {
    if h.is_masked {
        h.mask->Some_0@
    } else {
        Seq::empty()
    }
}

/// The complete wire encoding of a frame header.
pub open spec fn spec_header_bytes(h: FrameHeader) -> Seq<u8> {
    seq![spec_byte0(h), spec_byte1(h)] + spec_be_bytes(
        h.content_len,
        spec_ext_len(h.content_len),
    ) + spec_mask_seq(h)
}

/// 256 raised to the `n`th power.
pub open spec fn pow256(n: int) -> int
    decreases n,
{
    if n <= 0 {
        1
    } else {
        256 * pow256(n - 1)
    }
}

proof fn lemma_be_step(b: Seq<u8>, lo: int, hi: int)
    requires
        0 <= lo < hi <= b.len(),
    ensures
        be_bytes_val(b.subrange(lo, hi)) == be_bytes_val(b.subrange(lo, hi - 1)) * 256 + b[hi - 1],
{
    assert(b.subrange(lo, hi).drop_last() =~= b.subrange(lo, hi - 1));
    assert(b.subrange(lo, hi).last() == b[hi - 1]);
}

proof fn lemma_be_bytes_len(v: u64, n: int)
    requires
        0 <= n,
    ensures
        spec_be_bytes(v, n).len() == n,
    decreases n,
{
    if n > 0 {
        lemma_be_bytes_len(v / 256, n - 1);
    }
}

proof fn lemma_be_of_be_bytes(v: u64, n: int)
    requires
        0 <= n,
        v < pow256(n),
    ensures
        be_bytes_val(spec_be_bytes(v, n)) == v,
    decreases n,
{
    if n > 0 {
        let rest = spec_be_bytes(v / 256, n - 1);
        assert(256 * (v / 256) <= v < 256 * pow256(n - 1));
        lemma_be_of_be_bytes(v / 256, n - 1);
        assert(rest.push((v % 256) as u8).drop_last() =~= rest);
        assert(be_bytes_val(rest.push((v % 256) as u8)) == be_bytes_val(rest) * 256 + v % 256);
    }
}

impl FrameHeader {
    /// A header is well formed when the mask is present exactly when the
    /// masked flag is set, the stored header length matches the wire
    /// encoding of the payload length, and the opcode fits in four bits.
    pub open spec fn wf(self) -> bool {
        &&& self.mask is Some <==> self.is_masked
        &&& self.header_len == spec_header_len(self.content_len, self.is_masked)
        &&& self.opcode < 16
    }

    /// Whether the opcode marks a control frame (close, ping or pong).
    pub open spec fn spec_is_control(self) -> bool {
        0x8 <= self.opcode <= 0xA
    }

    /// Whether this header marks a control frame.
    pub fn is_control(&self) -> (r: bool)
        ensures
            r == self.spec_is_control(),
    {
        self.opcode >= 0x8 && self.opcode <= 0xA
    }

    /// Total header size on the wire for a payload of `content_len` bytes,
    /// with or without a masking key.
    pub fn calculate_header_len(content_len: u64, is_masked: bool) -> (r: u64)
        ensures
            r == spec_header_len(content_len, is_masked),
    {
        let mut content_len_len: u64 = 0;
        if 126 <= content_len && content_len <= 65536 {
            content_len_len = 2;
        } else if content_len > 65536 {
            content_len_len = 8;
        }
        let mut mask_add: u64 = 0;
        if is_masked {
            mask_add = 4;
        }
        2 + content_len_len + mask_add
    }

    /// Decodes the header at the start of the buffer. Fails with
    /// `MalformedHeader` exactly when the buffer is shorter than the header
    /// it announces; the caller may then buffer more bytes and retry.
    pub fn new(buffer: &[u8]) -> (r: Result<FrameHeader, ProtocolError>)
        ensures
            r matches Ok(h) ==> decodes_to(buffer@, h),
            r is Err <==> !header_fits(buffer@),
            r is Err ==> r == Err::<FrameHeader, ProtocolError>(ProtocolError::MalformedHeader),
    {
        if buffer.len() < 2 {
            return Err(ProtocolError::MalformedHeader);
        }
        let head = buffer[0];
        let fin = (head & 0x80) != 0;
        let opcode = head & 0x0f;
        let second = buffer[1];
        let is_masked = (second & 0x80) != 0;
        let len7 = second & 0x7f;
        let ext: usize = if len7 == 126 {
            2
        } else if len7 == 127 {
            8
        } else {
            0
        };
        let mask_add: usize = if is_masked {
            4
        } else {
            0
        };
        if buffer.len() < 2 + ext + mask_add {
            return Err(ProtocolError::MalformedHeader);
        }
        let content_len: u64;
        if ext == 0 {
            content_len = len7 as u64;
        } else if ext == 2 {
            content_len = (buffer[2] as u64) * 256 + (buffer[3] as u64);
            proof {
                lemma_be_step(buffer@, 2, 4);
                lemma_be_step(buffer@, 2, 3);
                assert(buffer@.subrange(2, 2) =~= Seq::<u8>::empty());
            }
        } else {
            let mut v: u64 = buffer[2] as u64;
            v = v * 256 + (buffer[3] as u64);
            v = v * 256 + (buffer[4] as u64);
            v = v * 256 + (buffer[5] as u64);
            v = v * 256 + (buffer[6] as u64);
            v = v * 256 + (buffer[7] as u64);
            v = v * 256 + (buffer[8] as u64);
            v = v * 256 + (buffer[9] as u64);
            content_len = v;
            proof {
                lemma_be_step(buffer@, 2, 10);
                lemma_be_step(buffer@, 2, 9);
                lemma_be_step(buffer@, 2, 8);
                lemma_be_step(buffer@, 2, 7);
                lemma_be_step(buffer@, 2, 6);
                lemma_be_step(buffer@, 2, 5);
                lemma_be_step(buffer@, 2, 4);
                lemma_be_step(buffer@, 2, 3);
                assert(buffer@.subrange(2, 2) =~= Seq::<u8>::empty());
            }
        }
        let mask: Option<[u8; 4]>;
        if is_masked {
            let off = 2 + ext;
            let mut mask_arr: [u8; 4] = [0u8; 4];
            mask_arr[0] = buffer[off];
            mask_arr[1] = buffer[off + 1];
            mask_arr[2] = buffer[off + 2];
            mask_arr[3] = buffer[off + 3];
            proof {
                assert(mask_arr@ =~= buffer@.subrange(
                    2 + spec_wire_ext_count(buffer@),
                    2 + spec_wire_ext_count(buffer@) + 4,
                ));
            }
            mask = Some(mask_arr);
        } else {
            mask = None;
        }
        let header_len: u64 = (2 + ext + mask_add) as u64;
        Ok(FrameHeader { fin, content_len, is_masked, opcode, mask, header_len })
    }

    /// Serializes the header to its wire bytes: flag and opcode byte, mask
    /// bit and length field, extended length, then the mask key if any.
    pub fn get_header_bytes(&self) -> (r: Vec<u8>)
        requires
            self.is_masked ==> self.mask is Some,
        ensures
            r@ == spec_header_bytes(*self),
    {
        let cl = self.content_len;
        let len7: u8 = if cl < 126 {
            cl as u8
        } else if cl <= 65536 {
            126
        } else {
            127
        };
        let head: u8 = (if self.fin {
            0x80u8
        } else {
            0u8
        }) | (self.opcode & 0x0f);
        let second: u8 = (if self.is_masked {
            0x80u8
        } else {
            0u8
        }) | len7;
        let mut header_bytes: Vec<u8> = Vec::new();
        header_bytes.push(head);
        header_bytes.push(second);
        if cl < 126 {
        } else if cl <= 65536 {
            let hi = ((cl / 256) % 256) as u8;
            let lo = (cl % 256) as u8;
            header_bytes.push(hi);
            header_bytes.push(lo);
            proof {
                reveal_with_fuel(spec_be_bytes, 3);
                assert(spec_be_bytes(cl, 2) =~= seq![hi, lo]);
            }
        } else {
            let v1 = cl / 256;
            let v2 = v1 / 256;
            let v3 = v2 / 256;
            let v4 = v3 / 256;
            let v5 = v4 / 256;
            let v6 = v5 / 256;
            let v7 = v6 / 256;
            let b0 = (v7 % 256) as u8;
            let b1 = (v6 % 256) as u8;
            let b2 = (v5 % 256) as u8;
            let b3 = (v4 % 256) as u8;
            let b4 = (v3 % 256) as u8;
            let b5 = (v2 % 256) as u8;
            let b6 = (v1 % 256) as u8;
            let b7 = (cl % 256) as u8;
            header_bytes.push(b0);
            header_bytes.push(b1);
            header_bytes.push(b2);
            header_bytes.push(b3);
            header_bytes.push(b4);
            header_bytes.push(b5);
            header_bytes.push(b6);
            header_bytes.push(b7);
            proof {
                reveal_with_fuel(spec_be_bytes, 9);
                assert(spec_be_bytes(cl, 8) =~= seq![b0, b1, b2, b3, b4, b5, b6, b7]);
            }
        }
        if self.is_masked {
            let m = self.mask.unwrap();
            header_bytes.push(m[0]);
            header_bytes.push(m[1]);
            header_bytes.push(m[2]);
            header_bytes.push(m[3]);
        }
        proof {
            assert(header_bytes@ =~= spec_header_bytes(*self));
        }
        header_bytes
    }
}

/// The serialized header is exactly as long as the width table says:
/// two base bytes, the extended-length bytes chosen from `content_len`
/// alone, and four mask bytes when masked.
pub proof fn lemma_header_bytes_len(h: FrameHeader)
    ensures
        spec_header_bytes(h).len() == spec_header_len(h.content_len, h.is_masked),
{
    lemma_be_bytes_len(h.content_len, spec_ext_len(h.content_len));
}

/// Re-encoding a well-formed header and decoding the result gives the same
/// header back, for every payload length but the ambiguous boundary value
/// 65536, whose two-byte extended form does not hold it.
pub proof fn lemma_header_round_trip(h: FrameHeader)
    requires
        h.wf(),
        h.content_len != 65536,
    ensures
        decodes_to(spec_header_bytes(h), h),
{
    let b = spec_header_bytes(h);
    let cl = h.content_len;
    let ext = spec_ext_len(cl);
    let op = h.opcode;
    let l7 = spec_len7_written(cl);
    lemma_be_bytes_len(cl, ext);
    // The two leading bytes and the positions of the later fields.
    assert(b[0] == spec_byte0(h));
    assert(b[1] == spec_byte1(h));
    assert(l7 <= 127);
    if h.fin {
        assert(((0x80u8 | (op & 0x0f)) & 0x80) != 0) by (bit_vector);
    } else {
        assert(((0u8 | (op & 0x0f)) & 0x80) == 0) by (bit_vector);
    }
    assert(((0x80u8 | (op & 0x0f)) & 0x0f) == op && ((0u8 | (op & 0x0f)) & 0x0f) == op)
        by (bit_vector)
        requires
            op < 16,
    ;
    if h.is_masked {
        assert(((0x80u8 | l7) & 0x80) != 0) by (bit_vector);
        assert(((0x80u8 | l7) & 0x7f) == l7)
            by (bit_vector)
            requires
                l7 <= 127,
        ;
    } else {
        assert(((0u8 | l7) & 0x80) == 0)
            by (bit_vector)
            requires
                l7 <= 127,
        ;
        assert(((0u8 | l7) & 0x7f) == l7)
            by (bit_vector)
            requires
                l7 <= 127,
        ;
    }
    assert(spec_len7(b) == l7);
    assert(spec_wire_masked(b) == h.is_masked);
    // The announced extended-length count matches the encoder's choice.
    assert(spec_wire_ext_count(b) == ext);
    assert(spec_wire_header_len(b) == spec_header_len(cl, h.is_masked));
    assert(b.len() == spec_wire_header_len(b));
    // The payload length reads back unchanged.
    if ext == 0 {
        assert(spec_wire_content_len(b) == cl);
    } else {
        assert(b.subrange(2, 2 + ext) =~= spec_be_bytes(cl, ext));
        if ext == 2 {
            assert(pow256(2) == 65536) by {
                reveal_with_fuel(pow256, 3);
            }
            lemma_be_of_be_bytes(cl, 2);
        } else {
            assert(pow256(8) == 0x10000000000000000) by {
                reveal_with_fuel(pow256, 9);
            }
            lemma_be_of_be_bytes(cl, 8);
        }
        assert(spec_wire_content_len(b) == cl);
    }
    // The mask key reads back unchanged.
    if h.is_masked {
        assert(b.subrange(2 + ext, 2 + ext + 4) =~= spec_mask_seq(h));
    }
}

/// A byte buffer encodes at most one header: the decode relation is a
/// function of the bytes.
pub proof fn lemma_decode_unique(b: Seq<u8>, h1: FrameHeader, h2: FrameHeader)
    requires
        decodes_to(b, h1),
        decodes_to(b, h2),
    ensures
        h1 == h2,
{
    broadcast use vstd::array::axiom_array_ext_equal;

    if h1.is_masked {
        let m1 = h1.mask->Some_0;
        let m2 = h2.mask->Some_0;
        assert(m1 =~= m2);
    }
}

/// Payload bytes XOR-ed with the four-byte key, applied cyclically.
pub open spec fn spec_apply_mask(p: Seq<u8>, m: Seq<u8>) -> Seq<u8> {
    Seq::new(p.len(), |i: int| p[i] ^ m[i % 4])
}

/// Masking is its own inverse: applying the same key twice gives the
/// original payload back.
pub proof fn lemma_mask_involutive(p: Seq<u8>, m: Seq<u8>)
    requires
        m.len() == 4,
    ensures
        spec_apply_mask(spec_apply_mask(p, m), m) == p,
{
    let q = spec_apply_mask(spec_apply_mask(p, m), m);
    assert forall|i: int| 0 <= i < p.len() implies q[i] == p[i] by {
        let x = p[i];
        let k = m[i % 4];
        assert((x ^ k) ^ k == x) by (bit_vector);
    }
    assert(q =~= p);
}

/// One wire-level frame: its header and its payload, which is stored
/// unmasked from construction on.
pub struct Frame {
    pub header: FrameHeader,
    pub contents: Vec<u8>,
}

impl Frame {
    /// Builds a frame from a decoded header and the raw payload bytes; if
    /// the header carries a masking key the payload is unmasked here, the
    /// only place masking is ever applied to inbound data.
    pub fn new(header: FrameHeader, contents: Vec<u8>) -> (r: Frame)
        requires
            header.is_masked ==> header.mask is Some,
        ensures
            r.header == header,
            header.is_masked ==> r.contents@ == spec_apply_mask(contents@, header.mask->Some_0@),
            !header.is_masked ==> r.contents@ == contents@,
    {
        let mut contents = contents;
        if header.is_masked {
            let mask = header.mask.unwrap();
            let ghost orig = contents@;
            let mut i: usize = 0;
            while i < contents.len()
                invariant
                    i <= orig.len(),
                    contents@.len() == orig.len(),
                    forall|j: int| 0 <= j < i ==> contents@[j] == orig[j] ^ mask@[j % 4],
                    forall|j: int| i <= j < orig.len() ==> contents@[j] == orig[j],
                decreases orig.len() - i,
            {
                let b = contents[i] ^ mask[i % 4];
                contents[i] = b;
                i += 1;
            }
            proof {
                assert(contents@ =~= spec_apply_mask(orig, mask@));
            }
        }
        Frame { header, contents }
    }

    /// Whether this frame is a control frame (close, ping or pong).
    pub fn is_control(&self) -> (r: bool)
        ensures
            r == self.header.spec_is_control(),
    {
        self.header.is_control()
    }

    /// Builds a single unmasked, final binary data frame around the bytes.
    pub fn from_bytes(bytes: Vec<u8>) -> (r: Frame)
        ensures
            r.header.wf(),
            r.header.fin,
            r.header.opcode == BYTES,
            !r.header.is_masked,
            r.header.content_len == bytes@.len(),
            r.header == spec_data_header(BYTES, bytes@.len() as u64),
            r.contents@ == bytes@,
    {
        let content_len = bytes.len() as u64;
        let header = FrameHeader {
            fin: true,
            content_len,
            is_masked: false,
            mask: None,
            header_len: FrameHeader::calculate_header_len(content_len, false),
            opcode: BYTES,
        };
        Frame { header, contents: bytes }
    }

    /// Builds a single unmasked, final text data frame around the encoded
    /// bytes of the string.
    pub fn from_text(text: &str) -> (r: Frame)
        ensures
            r.header.wf(),
            r.header.fin,
            r.header.opcode == TEXT,
            !r.header.is_masked,
            r.header.content_len == text.spec_bytes().len(),
            r.header == spec_data_header(TEXT, text.spec_bytes().len() as u64),
            r.contents@ == text.spec_bytes(),
    {
        let bytes = text.as_bytes();
        let content_len = bytes.len() as u64;
        let header = FrameHeader {
            fin: true,
            content_len,
            is_masked: false,
            mask: None,
            header_len: FrameHeader::calculate_header_len(content_len, false),
            opcode: TEXT,
        };
        Frame { header, contents: vstd::slice::slice_to_vec(bytes) }
    }

    /// Builds the unmasked pong frame that answers a ping, echoing the
    /// ping's payload.
    pub fn pong(ping_content: Vec<u8>) -> (r: Frame)
        ensures
            r.header.wf(),
            r.header.fin,
            r.header.opcode == PONG,
            !r.header.is_masked,
            r.header.content_len == ping_content@.len(),
            r.header == spec_data_header(PONG, ping_content@.len() as u64),
            r.contents@ == ping_content@,
    {
        let content_len = ping_content.len() as u64;
        let header = FrameHeader {
            fin: true,
            content_len,
            is_masked: false,
            mask: None,
            header_len: FrameHeader::calculate_header_len(content_len, false),
            opcode: PONG,
        };
        Frame { header, contents: ping_content }
    }

    /// Serializes the frame: the header bytes followed by the payload.
    /// Consumes the payload, which is left empty.
    pub fn to_bytes(&mut self) -> (r: Vec<u8>)
        requires
            old(self).header.is_masked ==> old(self).header.mask is Some,
        ensures
            r@ == spec_header_bytes(old(self).header) + old(self).contents@,
            final(self).header == old(self).header,
            final(self).contents@.len() == 0,
    {
        let mut bytes = self.header.get_header_bytes();
        bytes.append(&mut self.contents);
        bytes
    }
}

/// The header of a final, unmasked frame this server builds itself.
pub open spec fn spec_data_header(opcode: u8, content_len: u64) -> FrameHeader {
    FrameHeader {
        fin: true,
        content_len,
        is_masked: false,
        opcode,
        mask: None,
        header_len: spec_header_len(content_len, false) as u64,
    }
}

/// The full wire image of an unmasked frame built around this payload.
pub open spec fn spec_frame_bytes(h: FrameHeader, contents: Seq<u8>) -> Seq<u8> {
    spec_header_bytes(h) + contents
}

} // verus!
