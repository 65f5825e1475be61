//! Wire framing: `[header:u8][req_id:u32 BE][len:u16 BE][payload]`.

use bytes::{Bytes, BytesMut};
use vstd::prelude::*;

use crate::buffer::{
    as_slice, buf_advance, buf_put_u16, buf_put_u32, buf_put_u8, buf_slice, buf_view, bytes_view,
};
use crate::text::{ascii, decimal, push_decimal, push_text};
use crate::wire::{
    be_bytes, be_value, law_bytes_spell_their_number, law_number_is_its_bytes, lemma_be_bytes_len,
    lemma_be_round_trip, lemma_be_value_bound, lemma_pow256_values, read_be,
};

verus! {

/// The largest payload that a frame may announce.
pub const MAX_FRAME_SIZE: usize = 65536;

/// Bytes before the payload: header, request id and payload length.
pub const FRAME_HEAD_LEN: usize = 7;

/// What a frame is for.
#[derive(Debug, Clone, Copy, PartialEq, Eq, Structural)]
pub enum FrameKind {
    HandShake,
    Request,
    Response,
    Heartbeat,
}

impl FrameKind {
    /// The header byte that stands for this kind.
    pub open spec fn spec_code(self) -> u8 {
        match self {
            FrameKind::HandShake => 1,
            FrameKind::Request => 3,
            FrameKind::Response => 4,
            FrameKind::Heartbeat => 5,
        }
    }

    /// The kind that a header byte stands for, if it stands for one.
    pub open spec fn spec_from_code(code: u8) -> Option<FrameKind> {
        match code {
            1 => Some(FrameKind::HandShake),
            3 => Some(FrameKind::Request),
            4 => Some(FrameKind::Response),
            5 => Some(FrameKind::Heartbeat),
            _ => None,
        }
    }

    /// The header byte that stands for this kind.
    pub fn code(&self) -> (code: u8)
        ensures
            code == self.spec_code(),
    {
        match self {
            FrameKind::HandShake => 1,
            FrameKind::Request => 3,
            FrameKind::Response => 4,
            FrameKind::Heartbeat => 5,
        }
    }

    /// The kind that a header byte stands for, if it stands for one.
    pub fn from_code(code: u8) -> (kind: Option<FrameKind>)
        ensures
            kind == FrameKind::spec_from_code(code),
    {
        match code {
            1 => Some(FrameKind::HandShake),
            3 => Some(FrameKind::Request),
            4 => Some(FrameKind::Response),
            5 => Some(FrameKind::Heartbeat),
            _ => None,
        }
    }
}

/// One message on the socket.
#[derive(Debug)]
pub struct Frame {
    pub header: FrameKind,
    /// Client-chosen correlation id, echoed verbatim on the Response. Opaque to
    /// the server. `0` where unused (handshake).
    pub req_id: u32,
    pub payload: Bytes,
}

/// What a [`Frame`] says, byte for byte.
pub struct FrameView {
    pub header: FrameKind,
    pub req_id: u32,
    pub payload: Seq<u8>,
}

impl View for Frame {
    type V = FrameView;

    open spec fn view(&self) -> FrameView {
        FrameView {
            header: self.header,
            req_id: self.req_id,
            payload: bytes_view(self.payload),
        }
    }
}

/// Why a byte stream is not a sequence of frames.
#[derive(Debug, Clone, Copy, PartialEq, Eq, Structural)]
pub enum DecodeError {
    /// The header byte stands for no kind.
    BadHeader(u8),
    /// The announced payload is larger than [`MAX_FRAME_SIZE`].
    FrameTooLarge,
}

impl DecodeError {
    /// The text of the error.
    pub open spec fn spec_message(self) -> Seq<u8> {
        match self {
            DecodeError::BadHeader(code) => ascii("bad header "@) + decimal(code as nat),
            DecodeError::FrameTooLarge => ascii("frame too large"@),
        }
    }

    /// The text of the error.
    pub fn message(&self) -> (text: Vec<u8>)
        ensures
            text@ == self.spec_message(),
    {
        let mut out: Vec<u8> = Vec::new();
        match self {
            DecodeError::BadHeader(code) => {
                proof {
                    reveal_strlit("bad header ");
                }
                push_text(&mut out, "bad header ");
                push_decimal(&mut out, *code as u64);
            },
            DecodeError::FrameTooLarge => {
                proof {
                    reveal_strlit("frame too large");
                }
                push_text(&mut out, "frame too large");
            },
        }
        assert(out@ =~= self.spec_message());
        out
    }
}

/// Why something cannot be put on the wire.
#[derive(Debug, Clone, Copy, PartialEq, Eq, Structural)]
pub enum EncodeError {
    /// The key is longer than its two-byte length can say.
    KeyTooLong,
    /// The user name is longer than its two-byte length can say.
    UserTooLong,
    /// The payload is longer than its two-byte length can say.
    PayloadTooLong,
}

impl EncodeError {
    /// The text of the error.
    pub open spec fn spec_message(self) -> Seq<u8> {
        match self {
            EncodeError::KeyTooLong => ascii("key too long"@),
            EncodeError::UserTooLong => ascii("user name too long"@),
            EncodeError::PayloadTooLong => ascii("payload too long"@),
        }
    }

    /// The text of the error.
    pub fn message(&self) -> (text: Vec<u8>)
        ensures
            text@ == self.spec_message(),
    {
        proof {
            reveal_strlit("key too long");
            reveal_strlit("user name too long");
            reveal_strlit("payload too long");
        }
        let mut out: Vec<u8> = Vec::new();
        match self {
            EncodeError::KeyTooLong => push_text(&mut out, "key too long"),
            EncodeError::UserTooLong => push_text(&mut out, "user name too long"),
            EncodeError::PayloadTooLong => push_text(&mut out, "payload too long"),
        }
        assert(out@ =~= self.spec_message());
        out
    }
}

/// The bytes of a frame with header byte `code`, for a payload of at most 65535
/// bytes.
pub open spec fn envelope(code: u8, req_id: u32, payload: Seq<u8>) -> Seq<u8> {
    seq![code] + be_bytes(req_id as nat, 4) + be_bytes(payload.len(), 2) + payload
}

/// The payload length that a frame head announces.
pub open spec fn announced_len(s: Seq<u8>) -> nat {
    be_value(s.subrange(5, 7))
}

/// What the front of a byte stream decodes to: `Ok(None)` while the frame is
/// still incomplete.
pub open spec fn decoded(s: Seq<u8>) -> Result<Option<FrameView>, DecodeError> {
    if s.len() < FRAME_HEAD_LEN {
        Ok(None)
    } else {
        match FrameKind::spec_from_code(s[0]) {
            None => Err(DecodeError::BadHeader(s[0])),
            Some(header) => if announced_len(s) > MAX_FRAME_SIZE {
                Err(DecodeError::FrameTooLarge)
            } else if s.len() < FRAME_HEAD_LEN + announced_len(s) {
                Ok(None)
            } else {
                Ok(
                    Some(
                        FrameView {
                            header,
                            req_id: be_value(s.subrange(1, 5)) as u32,
                            payload: s.subrange(7, (7 + announced_len(s)) as int),
                        },
                    ),
                )
            },
        }
    }
}

/// The frame codec.
pub struct SimpleCodec;

impl SimpleCodec {
    /// Takes one frame off the front of `src`. An incomplete frame is left where
    /// it is, and so is a malformed one.
    pub fn decode(&mut self, src: &mut BytesMut) -> (r: Result<Option<Frame>, DecodeError>)
        ensures
            match r {
                Ok(Some(frame)) => {
                    &&& decoded(buf_view(*old(src))) == Ok::<Option<FrameView>, DecodeError>(Some(frame@))
                    &&& buf_view(*final(src)) == buf_view(*old(src)).skip(
                        (7 + frame@.payload.len()) as int,
                    )
                },
                Ok(None) => {
                    &&& decoded(buf_view(*old(src))) == Ok::<Option<FrameView>, DecodeError>(None)
                    &&& buf_view(*final(src)) == buf_view(*old(src))
                },
                Err(e) => {
                    &&& decoded(buf_view(*old(src))) == Err::<Option<FrameView>, DecodeError>(e)
                    &&& buf_view(*final(src)) == buf_view(*old(src))
                },
            },
    {
        let ghost s = buf_view(*src);
        if src.len() < FRAME_HEAD_LEN {
            return Ok(None);
        }
        let head: &[u8] = buf_slice(src);
        let header = match FrameKind::from_code(head[0]) {
            Some(kind) => kind,
            None => {
                return Err(DecodeError::BadHeader(head[0]));
            },
        };
        proof {
            lemma_pow256_values();
            lemma_be_value_bound(s.subrange(1, 5));
            lemma_be_value_bound(s.subrange(5, 7));
        }
        let req_id: u32 = read_be(head, 1, 4) as u32;
        let len: usize = read_be(head, 5, 2) as usize;

        if len > MAX_FRAME_SIZE {
            return Err(DecodeError::FrameTooLarge);
        }
        if src.len() < FRAME_HEAD_LEN + len {
            return Ok(None);
        }
        buf_advance(src, FRAME_HEAD_LEN);
        let data = src.split_to(len);
        let frame = Frame { header, req_id, payload: data.freeze() };
        assert(frame@.payload =~= s.subrange(7, 7 + len));
        assert(buf_view(*src) =~= s.skip(7 + len));
        Ok(Some(frame))
    }

    /// Appends the bytes of `item` to `dst`. A payload that is longer than the
    /// length field can say is refused, and nothing is appended.
    pub fn encode(&mut self, item: Frame, dst: &mut BytesMut) -> (r: Result<(), EncodeError>)
        requires
            item@.payload.len() <= u16::MAX ==> buf_view(*old(dst)).len() + FRAME_HEAD_LEN
                + item@.payload.len() <= isize::MAX,
        ensures
            r is Ok <==> item@.payload.len() <= u16::MAX,
            r matches Err(e) ==> e == EncodeError::PayloadTooLong,
            buf_view(*final(dst)) == if r is Ok {
                buf_view(*old(dst)) + envelope(item.header.spec_code(), item.req_id, item@.payload)
            } else {
                buf_view(*old(dst))
            },
    {
        broadcast use lemma_be_bytes_len;

        let n: usize = item.payload.len();
        if n > 0xffff {
            return Err(EncodeError::PayloadTooLong);
        }
        buf_put_u8(dst, item.header.code());
        buf_put_u32(dst, item.req_id);
        buf_put_u16(dst, n as u16);
        dst.extend_from_slice(as_slice(&item.payload));
        assert(buf_view(*dst) =~= buf_view(*old(dst)) + envelope(
            item.header.spec_code(),
            item.req_id,
            item@.payload,
        ));
        Ok(())
    }
}

/// Decoding undoes encoding: a frame that is encoded at all comes back as it was,
/// whatever follows it on the stream, and decoding takes exactly its bytes.
pub proof fn law_decode_inverts_encode(frame: FrameView, rest: Seq<u8>)
    requires
        frame.payload.len() <= u16::MAX,
    ensures
        decoded(envelope(frame.header.spec_code(), frame.req_id, frame.payload) + rest) == Ok::<
            Option<FrameView>,
            DecodeError,
        >(Some(frame)),
        (envelope(frame.header.spec_code(), frame.req_id, frame.payload) + rest).skip(
            (7 + frame.payload.len()) as int,
        ) == rest,
{
    broadcast use lemma_be_bytes_len;

    let s = envelope(frame.header.spec_code(), frame.req_id, frame.payload) + rest;
    lemma_pow256_values();
    lemma_be_round_trip(frame.req_id as nat, 4);
    lemma_be_round_trip(frame.payload.len(), 2);
    assert(s.subrange(1, 5) =~= be_bytes(frame.req_id as nat, 4));
    assert(s.subrange(5, 7) =~= be_bytes(frame.payload.len(), 2));
    assert(s.subrange(7, (7 + frame.payload.len()) as int) =~= frame.payload);
    assert(s.skip((7 + frame.payload.len()) as int) =~= rest);
}

/// Every proper prefix of a frame asks for more bytes: no frame is delivered and
/// none is refused before all of it has arrived.
pub proof fn law_partial_frame_waits(frame: FrameView, n: int)
    requires
        frame.payload.len() <= u16::MAX,
        0 <= n < 7 + frame.payload.len(),
    ensures
        decoded(envelope(frame.header.spec_code(), frame.req_id, frame.payload).take(n)) == Ok::<
            Option<FrameView>,
            DecodeError,
        >(None),
{
    broadcast use lemma_be_bytes_len;

    let full = envelope(frame.header.spec_code(), frame.req_id, frame.payload);
    let s = full.take(n);
    if n >= 7 {
        lemma_pow256_values();
        lemma_be_round_trip(frame.payload.len(), 2);
        assert(s.subrange(5, 7) =~= be_bytes(frame.payload.len(), 2));
    }
}

/// Once the front of a stream has been decided, bytes that arrive later do not
/// change the decision.
pub proof fn law_decision_is_final(s: Seq<u8>, later: Seq<u8>)
    requires
        decoded(s) != Ok::<Option<FrameView>, DecodeError>(None),
    ensures
        decoded(s + later) == decoded(s),
{
    let t = s + later;
    assert(t.subrange(1, 5) =~= s.subrange(1, 5));
    assert(t.subrange(5, 7) =~= s.subrange(5, 7));
    if decoded(s) is Ok {
        assert(t.subrange(7, (7 + announced_len(s)) as int) =~= s.subrange(
            7,
            (7 + announced_len(s)) as int,
        ));
    }
}

/// The only malformed stream is one whose header byte stands for no kind: two
/// bytes cannot announce a payload above the limit. A delivered payload is as
/// long as two bytes can say.
pub proof fn law_malformed_means_bad_header(s: Seq<u8>)
    ensures
        decoded(s) is Err <==> s.len() >= FRAME_HEAD_LEN && FrameKind::spec_from_code(s[0]) is None,
        decoded(s) matches Err(e) ==> e == DecodeError::BadHeader(s[0]),
        decoded(s) matches Ok(Some(frame)) ==> frame.payload.len() <= u16::MAX,
{
    lemma_pow256_values();
    if s.len() >= 7 {
        lemma_be_value_bound(s.subrange(5, 7));
    }
}

/// The header bytes: 1 for a handshake, 3 for a request, 4 for a response, 5 for a
/// heartbeat, and no other byte stands for a kind.
pub proof fn law_kinds_have_their_codes(code: u8)
    ensures
        FrameKind::HandShake.spec_code() == 1,
        FrameKind::Request.spec_code() == 3,
        FrameKind::Response.spec_code() == 4,
        FrameKind::Heartbeat.spec_code() == 5,
        FrameKind::spec_from_code(code) is None <==> code != 1 && code != 3 && code != 4 && code
            != 5,
        FrameKind::spec_from_code(code) matches Some(kind) ==> kind.spec_code() == code,
{
}

/// A frame is its header byte, four bytes of id, two bytes of length, and then as
/// many bytes of payload as they say.
pub proof fn law_frame_layout(code: u8, req_id: u32, payload: Seq<u8>)
    requires
        payload.len() <= 65535,
    ensures
        ({
            let s = envelope(code, req_id, payload);
            &&& s.len() == 7 + payload.len()
            &&& s[0] == code
            &&& s[1] * 0x100_0000 + s[2] * 0x1_0000 + s[3] * 0x100 + s[4] == req_id
            &&& s[5] * 0x100 + s[6] == payload.len()
            &&& s.skip(7) == payload
        }),
{
    let s = envelope(code, req_id, payload);
    law_number_is_its_bytes(req_id as nat);
    law_number_is_its_bytes(payload.len());
    assert(s.subrange(1, 5) =~= be_bytes(req_id as nat, 4));
    assert(s.subrange(5, 7) =~= be_bytes(payload.len(), 2));
    assert(s[1] == s.subrange(1, 5)[0]);
    assert(s[2] == s.subrange(1, 5)[1]);
    assert(s[3] == s.subrange(1, 5)[2]);
    assert(s[4] == s.subrange(1, 5)[3]);
    assert(s[5] == s.subrange(5, 7)[0]);
    assert(s[6] == s.subrange(5, 7)[1]);
    assert(s.skip(7) =~= payload);
}

/// What a byte stream holds at its front: a frame of the kind that the first byte
/// stands for, with the id that the next four spell and the payload of the length
/// that the next two spell, once all of it is there; an error where the first byte
/// stands for no kind.
pub proof fn law_decoding_reads_the_layout(s: Seq<u8>)
    ensures
        s.len() < 7 ==> decoded(s) == Ok::<Option<FrameView>, DecodeError>(None),
        s.len() >= 7 ==> ({
            let known = s[0] == 1 || s[0] == 3 || s[0] == 4 || s[0] == 5;
            let len = s[5] * 0x100 + s[6];
            &&& !known ==> decoded(s) == Err::<Option<FrameView>, DecodeError>(
                DecodeError::BadHeader(s[0]),
            )
            &&& known && s.len() < 7 + len ==> decoded(s) == Ok::<Option<FrameView>, DecodeError>(
                None,
            )
            &&& known && s.len() >= 7 + len ==> (decoded(s) matches Ok(Some(frame)) && {
                &&& (frame.header is HandShake <==> s[0] == 1)
                &&& (frame.header is Request <==> s[0] == 3)
                &&& (frame.header is Response <==> s[0] == 4)
                &&& (frame.header is Heartbeat <==> s[0] == 5)
                &&& frame.req_id == s[1] * 0x100_0000 + s[2] * 0x1_0000 + s[3] * 0x100 + s[4]
                &&& frame.payload == s.subrange(7, 7 + len)
            })
        }),
{
    if s.len() >= 7 {
        law_bytes_spell_their_number(s.subrange(1, 5));
        law_bytes_spell_their_number(s.subrange(5, 7));
    }
}

/// What the contracts say of a frame is what it holds.
pub proof fn law_frame_is_what_it_holds(frame: Frame)
    ensures
        frame@.header == frame.header,
        frame@.req_id == frame.req_id,
        frame@.payload == bytes_view(frame.payload),
{
}

/// A bad header is reported with its number.
pub proof fn law_bad_header_is_named(code: u8)
    ensures
        DecodeError::BadHeader(code).spec_message() == ascii("bad header "@) + decimal(
            code as nat,
        ),
        DecodeError::FrameTooLarge.spec_message() == ascii("frame too large"@),
{
}

} // verus!
