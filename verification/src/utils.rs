//! Requests and replies: what a request payload says, the operation it becomes,
//! and the ready-made reply payloads.

use bytes::Bytes;
use vstd::prelude::*;

use crate::buffer::{as_slice, bytes_view};
use crate::text::{ascii, decimal, push_decimal, push_text, text_bytes};
use crate::wire::{
    be_value, law_bytes_spell_their_number, lemma_be_value_bound, lemma_pow256_values, read_be,
};

verus! {

// Request payload: [op:u8][klen:u16 BE][key][value]
// SETEX has a 4-byte ttl_ms between the key and the value.
pub const OP_GET: u8 = 1;

pub const OP_SET: u8 = 2;

pub const OP_DEL: u8 = 3;

pub const OP_SETEX: u8 = 4;

/// Reply to a successful SET.
pub open spec fn ok_text() -> Seq<u8> {
    ascii("OK"@)
}

/// Reply to a GET that found nothing.
pub open spec fn nil_text() -> Seq<u8> {
    ascii("(nil)"@)
}

/// Reply to a DEL that removed something, and to a heartbeat.
pub open spec fn one_text() -> Seq<u8> {
    ascii("1"@)
}

/// Reply to a DEL that found nothing.
pub open spec fn zero_text() -> Seq<u8> {
    ascii("0"@)
}

/// Reply to a successful SET.
pub fn resp_ok() -> (r: Bytes)
    ensures
        bytes_view(r) == ok_text(),
{
    proof {
        reveal_strlit("OK");
    }
    text_bytes("OK")
}

/// Reply to a GET that found nothing.
pub fn resp_nil() -> (r: Bytes)
    ensures
        bytes_view(r) == nil_text(),
{
    proof {
        reveal_strlit("(nil)");
    }
    text_bytes("(nil)")
}

/// Reply to a DEL that removed something, and to a heartbeat.
pub fn resp_one() -> (r: Bytes)
    ensures
        bytes_view(r) == one_text(),
{
    proof {
        reveal_strlit("1");
    }
    text_bytes("1")
}

/// Reply to a DEL that found nothing.
pub fn resp_zero() -> (r: Bytes)
    ensures
        bytes_view(r) == zero_text(),
{
    proof {
        reveal_strlit("0");
    }
    text_bytes("0")
}

/// Reply in place of one that a worker failed to give.
pub fn resp_worker_gone() -> (r: Bytes)
    ensures
        bytes_view(r) == ascii("ERR worker dropped response"@),
{
    proof {
        reveal_strlit("ERR worker dropped response");
    }
    text_bytes("ERR worker dropped response")
}

/// A single store operation, as a shard executes it.
#[derive(Debug)]
pub enum WorkerOp {
    Get { key: Bytes },
    Put { key: Bytes, value: Bytes },
    SetEx { key: Bytes, value: Bytes, ttl_ms: u32 },
    Del { key: Bytes },
}

/// A batch of `(req_id, op)` for one shard. Each answer carries the `req_id` of
/// its operation, so the answers may travel back in any order.
#[derive(Debug)]
pub enum WorkerCommand {
    Batch { ops: Vec<(u32, WorkerOp)> },
}

/// A request as the client sent it.
#[derive(Debug)]
pub enum ClientCommand {
    Get { key: Bytes },
    Put { key: Bytes, value: Bytes },
    SetEx { key: Bytes, value: Bytes, ttl_ms: u32 },
    Del { key: Bytes },
}

/// What a [`ClientCommand`] or a [`WorkerOp`] asks for, byte for byte.
pub enum Command {
    Get { key: Seq<u8> },
    Put { key: Seq<u8>, value: Seq<u8> },
    SetEx { key: Seq<u8>, value: Seq<u8>, ttl_ms: u32 },
    Del { key: Seq<u8> },
}

impl Command {
    /// The key that the command is about.
    pub open spec fn key(self) -> Seq<u8> {
        match self {
            Command::Get { key } => key,
            Command::Put { key, .. } => key,
            Command::SetEx { key, .. } => key,
            Command::Del { key } => key,
        }
    }

    /// The value that the command stores; empty where it stores none.
    pub open spec fn value(self) -> Seq<u8> {
        match self {
            Command::Put { value, .. } => value,
            Command::SetEx { value, .. } => value,
            _ => Seq::empty(),
        }
    }
}

impl View for WorkerOp {
    type V = Command;

    open spec fn view(&self) -> Command {
        match *self {
            WorkerOp::Get { key } => Command::Get { key: bytes_view(key) },
            WorkerOp::Put { key, value } => Command::Put {
                key: bytes_view(key),
                value: bytes_view(value),
            },
            WorkerOp::SetEx { key, value, ttl_ms } => Command::SetEx {
                key: bytes_view(key),
                value: bytes_view(value),
                ttl_ms,
            },
            WorkerOp::Del { key } => Command::Del { key: bytes_view(key) },
        }
    }
}

impl View for ClientCommand {
    type V = Command;

    open spec fn view(&self) -> Command {
        match *self {
            ClientCommand::Get { key } => Command::Get { key: bytes_view(key) },
            ClientCommand::Put { key, value } => Command::Put {
                key: bytes_view(key),
                value: bytes_view(value),
            },
            ClientCommand::SetEx { key, value, ttl_ms } => Command::SetEx {
                key: bytes_view(key),
                value: bytes_view(value),
                ttl_ms,
            },
            ClientCommand::Del { key } => Command::Del { key: bytes_view(key) },
        }
    }
}

/// Why a request payload is not a command.
#[derive(Debug, Clone, Copy, PartialEq, Eq, Structural)]
pub enum ParseError {
    EmptyPayload,
    TruncatedFieldLength,
    TruncatedFieldBody,
    TruncatedTtl,
    UnknownOp(u8),
}

impl ParseError {
    /// The text of the error.
    pub open spec fn spec_message(self) -> Seq<u8> {
        match self {
            ParseError::EmptyPayload => ascii("empty request payload"@),
            ParseError::TruncatedFieldLength => ascii("truncated field length"@),
            ParseError::TruncatedFieldBody => ascii("truncated field body"@),
            ParseError::TruncatedTtl => ascii("truncated ttl"@),
            ParseError::UnknownOp(op) => ascii("unknown op "@) + decimal(op as nat),
        }
    }

    /// Appends the text of the error.
    pub fn push_message(&self, out: &mut Vec<u8>)
        ensures
            final(out)@ == old(out)@ + self.spec_message(),
    {
        proof {
            reveal_strlit("empty request payload");
            reveal_strlit("truncated field length");
            reveal_strlit("truncated field body");
            reveal_strlit("truncated ttl");
            reveal_strlit("unknown op ");
        }
        match self {
            ParseError::EmptyPayload => push_text(out, "empty request payload"),
            ParseError::TruncatedFieldLength => push_text(out, "truncated field length"),
            ParseError::TruncatedFieldBody => push_text(out, "truncated field body"),
            ParseError::TruncatedTtl => push_text(out, "truncated ttl"),
            ParseError::UnknownOp(op) => {
                push_text(out, "unknown op ");
                push_decimal(out, *op as u64);
            },
        }
        assert(out@ =~= old(out)@ + self.spec_message());
    }
}

/// A length-prefixed field `[len:u16 BE][bytes]` at the front of `s`, and what
/// follows it.
pub open spec fn field(s: Seq<u8>) -> Result<(Seq<u8>, Seq<u8>), ParseError> {
    if s.len() < 2 {
        Err(ParseError::TruncatedFieldLength)
    } else {
        let end = 2 + be_value(s.subrange(0, 2));
        if s.len() < end {
            Err(ParseError::TruncatedFieldBody)
        } else {
            Ok((s.subrange(2, end as int), s.skip(end as int)))
        }
    }
}

/// The command that a request payload spells.
pub open spec fn command_of(s: Seq<u8>) -> Result<Command, ParseError> {
    if s.len() == 0 {
        Err(ParseError::EmptyPayload)
    } else if s[0] != OP_GET && s[0] != OP_SET && s[0] != OP_SETEX && s[0] != OP_DEL {
        Err(ParseError::UnknownOp(s[0]))
    } else {
        match field(s.skip(1)) {
            Err(e) => Err(e),
            Ok((key, after)) => if s[0] == OP_GET {
                Ok(Command::Get { key })
            } else if s[0] == OP_SET {
                Ok(Command::Put { key, value: after })
            } else if s[0] == OP_DEL {
                Ok(Command::Del { key })
            } else if after.len() < 4 {
                Err(ParseError::TruncatedTtl)
            } else {
                Ok(
                    Command::SetEx {
                        key,
                        value: after.skip(4),
                        ttl_ms: be_value(after.subrange(0, 4)) as u32,
                    },
                )
            },
        }
    }
}

/// Reads a field `[len:u16 BE][bytes]` and returns it with the rest.
pub fn read_field(buf: &[u8]) -> (r: Result<(Bytes, &[u8]), ParseError>)
    ensures
        match r {
            Ok((f, rest)) => field(buf@) == Ok::<(Seq<u8>, Seq<u8>), ParseError>(
                (bytes_view(f), rest@),
            ),
            Err(e) => field(buf@) == Err::<(Seq<u8>, Seq<u8>), ParseError>(e),
        },
{
    if buf.len() < 2 {
        return Err(ParseError::TruncatedFieldLength);
    }
    proof {
        lemma_pow256_values();
        lemma_be_value_bound(buf@.subrange(0, 2));
    }
    let len: usize = read_be(buf, 0, 2) as usize;
    let end: usize = 2 + len;
    if buf.len() < end {
        return Err(ParseError::TruncatedFieldBody);
    }
    let rest: &[u8] = &buf[end..buf.len()];
    assert(rest@ =~= buf@.skip(end as int));
    Ok((Bytes::copy_from_slice(&buf[2..end]), rest))
}

impl ClientCommand {
    /// Reads a request payload.
    pub fn parse(buf: &Bytes) -> (r: Result<Self, ParseError>)
        ensures
            match r {
                Ok(cmd) => command_of(bytes_view(*buf)) == Ok::<Command, ParseError>(cmd@),
                Err(e) => command_of(bytes_view(*buf)) == Err::<Command, ParseError>(e),
            },
    {
        let all: &[u8] = as_slice(buf);
        if all.len() == 0 {
            return Err(ParseError::EmptyPayload);
        }
        let op: u8 = all[0];
        let rest: &[u8] = &all[1..all.len()];
        assert(rest@ =~= all@.skip(1));

        match op {
            OP_GET => match read_field(rest) {
                Ok((key, _)) => Ok(ClientCommand::Get { key }),
                Err(e) => Err(e),
            },
            OP_SET => match read_field(rest) {
                Ok((key, after)) => Ok(
                    ClientCommand::Put { key, value: Bytes::copy_from_slice(after) },
                ),
                Err(e) => Err(e),
            },
            OP_SETEX => match read_field(rest) {
                Ok((key, after)) => {
                    if after.len() < 4 {
                        return Err(ParseError::TruncatedTtl);
                    }
                    proof {
                        lemma_pow256_values();
                        lemma_be_value_bound(after@.subrange(0, 4));
                    }
                    let ttl_ms: u32 = read_be(after, 0, 4) as u32;
                    let tail: &[u8] = &after[4..after.len()];
                    assert(tail@ =~= after@.skip(4));
                    Ok(ClientCommand::SetEx { key, value: Bytes::copy_from_slice(tail), ttl_ms })
                },
                Err(e) => Err(e),
            },
            OP_DEL => match read_field(rest) {
                Ok((key, _)) => Ok(ClientCommand::Del { key }),
                Err(e) => Err(e),
            },
            other => Err(ParseError::UnknownOp(other)),
        }
    }
}

/// The parts of a parsed command are parts of its payload: a key is never longer
/// than its two-byte length can say, and key and value together are shorter than
/// the payload.
pub proof fn law_command_fits_payload(s: Seq<u8>)
    ensures
        command_of(s) matches Ok(cmd) ==> {
            &&& cmd.key().len() <= u16::MAX
            &&& 3 + cmd.key().len() + cmd.value().len() <= s.len()
        },
{
    lemma_pow256_values();
    if s.len() >= 3 {
        lemma_be_value_bound(s.skip(1).subrange(0, 2));
    }
}

/// GET and DEL ignore everything after the key.
pub proof fn law_trailing_bytes_ignored(s: Seq<u8>, tail: Seq<u8>)
    requires
        command_of(s) matches Ok(cmd) && (cmd is Get || cmd is Del),
    ensures
        command_of(s + tail) == command_of(s),
{
    let t = s + tail;
    assert(t.skip(1).subrange(0, 2) =~= s.skip(1).subrange(0, 2));
    let end = 2 + be_value(s.skip(1).subrange(0, 2));
    assert(t.skip(1).subrange(2, end as int) =~= s.skip(1).subrange(2, end as int));
}

/// The ready-made replies, byte for byte.
pub proof fn law_reply_texts()
    ensures
        ok_text() == seq![79u8, 75u8],
        nil_text() == seq![40u8, 110u8, 105u8, 108u8, 41u8],
        one_text() == seq![49u8],
        zero_text() == seq![48u8],
{
    reveal_strlit("OK");
    reveal_strlit("(nil)");
    reveal_strlit("1");
    reveal_strlit("0");
    assert(ok_text() =~= seq![79u8, 75u8]);
    assert(nil_text() =~= seq![40u8, 110u8, 105u8, 108u8, 41u8]);
    assert(one_text() =~= seq![49u8]);
    assert(zero_text() =~= seq![48u8]);
}

/// What a request payload asks for: the op byte says what, the next two bytes how
/// long the key is, and behind the key stands the value of a SET, or the four
/// bytes of the time to live and then the value of a SETEX.
pub proof fn law_payload_reads_the_layout(s: Seq<u8>)
    requires
        s.len() >= 3,
        s.len() >= 3 + s[1] * 0x100 + s[2],
    ensures
        ({
            let end = 3 + s[1] * 0x100 + s[2];
            let key = s.subrange(3, end);
            &&& s[0] == 1 ==> command_of(s) == Ok::<Command, ParseError>(Command::Get { key })
            &&& s[0] == 2 ==> command_of(s) == Ok::<Command, ParseError>(
                Command::Put { key, value: s.skip(end) },
            )
            &&& s[0] == 3 ==> command_of(s) == Ok::<Command, ParseError>(Command::Del { key })
            &&& s[0] == 4 && s.len() >= end + 4 ==> (command_of(s) matches Ok(Command::SetEx {
                key: k,
                value,
                ttl_ms,
            }) && {
                &&& k == key
                &&& value == s.skip(end + 4)
                &&& ttl_ms == s[end] * 0x100_0000 + s[end + 1] * 0x1_0000 + s[end + 2] * 0x100
                    + s[end + 3]
            })
            &&& s[0] == 4 && s.len() < end + 4 ==> command_of(s) == Err::<Command, ParseError>(
                ParseError::TruncatedTtl,
            )
        }),
{
    let end = 3 + s[1] * 0x100 + s[2];
    let rest = s.skip(1);
    law_bytes_spell_their_number(rest.subrange(0, 2));
    assert(rest.subrange(2, end - 1) =~= s.subrange(3, end));
    assert(rest.skip(end - 1) =~= s.skip(end));
    if s.len() >= end + 4 {
        let after = s.skip(end);
        law_bytes_spell_their_number(after.subrange(0, 4));
        assert(after.skip(4) =~= s.skip(end + 4));
    }
}

/// What is wrong with a payload that is no command, in the order in which it is
/// looked at: nothing there, an op byte other than 1 to 4, no key length, a key
/// that is cut short.
pub proof fn law_payload_errors(s: Seq<u8>)
    ensures
        s.len() == 0 ==> command_of(s) == Err::<Command, ParseError>(ParseError::EmptyPayload),
        s.len() > 0 && (s[0] == 0 || s[0] > 4) ==> command_of(s) == Err::<Command, ParseError>(
            ParseError::UnknownOp(s[0]),
        ),
        0 < s.len() < 3 && 1 <= s[0] <= 4 ==> command_of(s) == Err::<Command, ParseError>(
            ParseError::TruncatedFieldLength,
        ),
        s.len() >= 3 && 1 <= s[0] <= 4 && s.len() < 3 + s[1] * 0x100 + s[2] ==> command_of(s)
            == Err::<Command, ParseError>(ParseError::TruncatedFieldBody),
{
    if s.len() >= 3 {
        law_bytes_spell_their_number(s.skip(1).subrange(0, 2));
    }
}

/// A field is two bytes of length and then as many bytes as they say.
pub proof fn law_field_reads_the_layout(s: Seq<u8>)
    ensures
        s.len() < 2 ==> field(s) == Err::<(Seq<u8>, Seq<u8>), ParseError>(
            ParseError::TruncatedFieldLength,
        ),
        s.len() >= 2 ==> ({
            let end = 2 + s[0] * 0x100 + s[1];
            &&& s.len() < end ==> field(s) == Err::<(Seq<u8>, Seq<u8>), ParseError>(
                ParseError::TruncatedFieldBody,
            )
            &&& s.len() >= end ==> field(s) == Ok::<(Seq<u8>, Seq<u8>), ParseError>(
                (s.subrange(2, end), s.skip(end)),
            )
        }),
{
    if s.len() >= 2 {
        law_bytes_spell_their_number(s.subrange(0, 2));
    }
}

/// What the contracts say of a command is what it holds.
pub proof fn law_commands_are_what_they_hold(key: Bytes, value: Bytes, ttl_ms: u32)
    ensures
        (ClientCommand::Get { key })@ == (Command::Get { key: bytes_view(key) }),
        (ClientCommand::Put { key, value })@ == (Command::Put {
            key: bytes_view(key),
            value: bytes_view(value),
        }),
        (ClientCommand::SetEx { key, value, ttl_ms })@ == (Command::SetEx {
            key: bytes_view(key),
            value: bytes_view(value),
            ttl_ms,
        }),
        (ClientCommand::Del { key })@ == (Command::Del { key: bytes_view(key) }),
        (WorkerOp::Get { key })@ == (Command::Get { key: bytes_view(key) }),
        (WorkerOp::Put { key, value })@ == (Command::Put {
            key: bytes_view(key),
            value: bytes_view(value),
        }),
        (WorkerOp::SetEx { key, value, ttl_ms })@ == (Command::SetEx {
            key: bytes_view(key),
            value: bytes_view(value),
            ttl_ms,
        }),
        (WorkerOp::Del { key })@ == (Command::Del { key: bytes_view(key) }),
{
}

/// The parts of a command: every command has its key, and those that store have
/// their value.
pub proof fn law_parts_of_a_command(key: Seq<u8>, value: Seq<u8>, ttl_ms: u32)
    ensures
        (Command::Get { key }).key() == key,
        (Command::Put { key, value }).key() == key,
        (Command::SetEx { key, value, ttl_ms }).key() == key,
        (Command::Del { key }).key() == key,
        (Command::Get { key }).value().len() == 0,
        (Command::Put { key, value }).value() == value,
        (Command::SetEx { key, value, ttl_ms }).value() == value,
        (Command::Del { key }).value().len() == 0,
{
}

/// The texts of the errors; an unknown op is named by its number.
pub proof fn law_error_texts(op: u8)
    ensures
        ParseError::EmptyPayload.spec_message() == ascii("empty request payload"@),
        ParseError::TruncatedFieldLength.spec_message() == ascii("truncated field length"@),
        ParseError::TruncatedFieldBody.spec_message() == ascii("truncated field body"@),
        ParseError::TruncatedTtl.spec_message() == ascii("truncated ttl"@),
        ParseError::UnknownOp(op).spec_message() == ascii("unknown op "@) + decimal(op as nat),
{
}

} // verus!
