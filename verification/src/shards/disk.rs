//! Per-shard log records: two append-only files.
//!
//! - `cool.log`: the value store and source of truth
//!   (`[op][klen][exp_ms][vlen][key][value]`).
//! - `backup.log`: the index journal (`[op][klen][val_off][vlen][exp_ms][key]`).
//!
//! Every write goes to both. On startup the journal alone is replayed to rebuild
//! the index; values are read on demand.

use bytes::Bytes;
use vstd::prelude::*;

use crate::buffer::bytes_view;
use crate::wire::{
    be_bytes, be_value, law_bytes_spell_their_number, law_number_is_its_bytes, lemma_be_bytes_len,
    lemma_be_round_trip, lemma_be_value_bound, lemma_pow256_values, push_be, read_be,
};

verus! {

pub const RECORD_SET: u8 = 1;

pub const RECORD_DEL: u8 = 2;

/// Bytes of a set record in `cool.log` before the key: op, klen, exp_ms, vlen.
pub const COOL_SET_HEADER: u64 = 15;

/// Where a value lies in `cool.log`, and when it expires.
#[derive(Debug, Clone, Copy, PartialEq, Eq, Structural)]
pub struct Location {
    pub val_off: u64,
    pub vlen: u32,
    /// Expiry as milliseconds since the epoch; `0` for never.
    pub exp_ms: u64,
}

/// An index entry recovered from the journal.
#[derive(Debug)]
pub enum IndexRecord {
    Put { key: Bytes, val_off: u64, vlen: u32, exp_ms: u64 },
    Del { key: Bytes },
}

/// What an [`IndexRecord`] says.
pub enum Record {
    Put { key: Seq<u8>, loc: Location },
    Del { key: Seq<u8> },
}

impl View for IndexRecord {
    type V = Record;

    open spec fn view(&self) -> Record {
        match *self {
            IndexRecord::Put { key, val_off, vlen, exp_ms } => Record::Put {
                key: bytes_view(key),
                loc: Location { val_off, vlen, exp_ms },
            },
            IndexRecord::Del { key } => Record::Del { key: bytes_view(key) },
        }
    }
}

/// What a list of index records says.
pub open spec fn records(rs: Seq<IndexRecord>) -> Seq<Record> {
    Seq::new(rs.len(), |i: int| rs[i]@)
}

/// A set record in `cool.log`.
pub open spec fn cool_put(key: Seq<u8>, value: Seq<u8>, exp_ms: u64) -> Seq<u8> {
    seq![RECORD_SET] + be_bytes(key.len(), 2) + be_bytes(exp_ms as nat, 8) + be_bytes(
        value.len(),
        4,
    ) + key + value
}

/// A delete record, the same in both files.
pub open spec fn del_record(key: Seq<u8>) -> Seq<u8> {
    seq![RECORD_DEL] + be_bytes(key.len(), 2) + key
}

/// A set record in `backup.log`.
pub open spec fn backup_put(key: Seq<u8>, loc: Location) -> Seq<u8> {
    seq![RECORD_SET] + be_bytes(key.len(), 2) + be_bytes(loc.val_off as nat, 8) + be_bytes(
        loc.vlen as nat,
        4,
    ) + be_bytes(loc.exp_ms as nat, 8) + key
}

/// The record at the front of a journal and its length in bytes; none where the
/// journal ends, where a record is torn, or where the op byte is unknown.
pub open spec fn next_record(s: Seq<u8>) -> Option<(Record, int)> {
    if s.len() < 3 {
        None
    } else {
        let klen = be_value(s.subrange(1, 3)) as int;
        if s[0] == RECORD_SET {
            if s.len() < 23 + klen {
                None
            } else {
                Some(
                    (
                        Record::Put {
                            key: s.subrange(23, 23 + klen),
                            loc: Location {
                                val_off: be_value(s.subrange(3, 11)) as u64,
                                vlen: be_value(s.subrange(11, 15)) as u32,
                                exp_ms: be_value(s.subrange(15, 23)) as u64,
                            },
                        },
                        23 + klen,
                    ),
                )
            }
        } else if s[0] == RECORD_DEL {
            if s.len() < 3 + klen {
                None
            } else {
                Some((Record::Del { key: s.subrange(3, 3 + klen) }, 3 + klen))
            }
        } else {
            None
        }
    }
}

/// The records of a journal up to the first that cannot be read.
pub open spec fn replayed(s: Seq<u8>) -> Seq<Record>
    decreases s.len(),
{
    match next_record(s) {
        None => Seq::empty(),
        Some((r, n)) => seq![r] + replayed(s.skip(n)),
    }
}

/// Whether a journal is made of whole records.
pub open spec fn whole(s: Seq<u8>) -> bool
    decreases s.len(),
{
    s.len() == 0 || match next_record(s) {
        None => false,
        Some((_, n)) => whole(s.skip(n)),
    }
}

/// How many bytes the whole records at the front of a journal take.
pub open spec fn whole_len(s: Seq<u8>) -> nat
    decreases s.len(),
{
    match next_record(s) {
        None => 0,
        Some((_, n)) => n as nat + whole_len(s.skip(n)),
    }
}

/// The index after one more record.
pub open spec fn index_after(m: Map<Seq<u8>, Location>, r: Record) -> Map<Seq<u8>, Location> {
    match r {
        Record::Put { key, loc } => m.insert(key, loc),
        Record::Del { key } => m.remove(key),
    }
}

/// The index that a list of records builds, in order.
pub open spec fn index_of_records(rs: Seq<Record>) -> Map<Seq<u8>, Location>
    decreases rs.len(),
{
    if rs.len() == 0 {
        Map::empty()
    } else {
        index_after(index_of_records(rs.drop_last()), rs.last())
    }
}

/// Reads a `u16` at `pos`; none if the buffer ends before it does.
pub fn read_u16(buf: &[u8], pos: usize) -> (r: Option<u16>)
    requires
        pos <= buf@.len(),
    ensures
        match r {
            Some(v) => pos + 2 <= buf@.len() && v as nat == be_value(
                buf@.subrange(pos as int, pos + 2),
            ),
            None => pos + 2 > buf@.len(),
        },
{
    if buf.len() - pos < 2 {
        return None;
    }
    proof {
        lemma_pow256_values();
        lemma_be_value_bound(buf@.subrange(pos as int, pos + 2));
    }
    Some(read_be(buf, pos, 2) as u16)
}

/// Reads a `u32` at `pos`; none if the buffer ends before it does.
pub fn read_u32(buf: &[u8], pos: usize) -> (r: Option<u32>)
    requires
        pos <= buf@.len(),
    ensures
        match r {
            Some(v) => pos + 4 <= buf@.len() && v as nat == be_value(
                buf@.subrange(pos as int, pos + 4),
            ),
            None => pos + 4 > buf@.len(),
        },
{
    if buf.len() - pos < 4 {
        return None;
    }
    proof {
        lemma_pow256_values();
        lemma_be_value_bound(buf@.subrange(pos as int, pos + 4));
    }
    Some(read_be(buf, pos, 4) as u32)
}

/// Reads a `u64` at `pos`; none if the buffer ends before it does.
pub fn read_u64(buf: &[u8], pos: usize) -> (r: Option<u64>)
    requires
        pos <= buf@.len(),
    ensures
        match r {
            Some(v) => pos + 8 <= buf@.len() && v as nat == be_value(
                buf@.subrange(pos as int, pos + 8),
            ),
            None => pos + 8 > buf@.len(),
        },
{
    if buf.len() - pos < 8 {
        return None;
    }
    Some(read_be(buf, pos, 8))
}

/// Reads `n` bytes at `pos`; none if the buffer ends before they do.
pub fn read_bytes(buf: &[u8], pos: usize, n: usize) -> (r: Option<Bytes>)
    requires
        pos <= buf@.len(),
    ensures
        match r {
            Some(b) => pos + n <= buf@.len() && bytes_view(b) == buf@.subrange(
                pos as int,
                pos + n,
            ),
            None => pos + n > buf@.len(),
        },
{
    if buf.len() - pos < n {
        return None;
    }
    Some(Bytes::copy_from_slice(&buf[pos..pos + n]))
}

/// Reads one journal record at `pos` and returns it with the position after it;
/// none where [`next_record`] finds none.
pub fn read_record(buf: &[u8], pos: usize) -> (r: Option<(IndexRecord, usize)>)
    requires
        pos <= buf@.len(),
    ensures
        match r {
            Some((rec, end)) => pos < end <= buf@.len() && next_record(buf@.skip(pos as int))
                == Some((rec@, end - pos)),
            None => next_record(buf@.skip(pos as int)) is None,
        },
{
    let ghost s = buf@.skip(pos as int);
    if pos >= buf.len() {
        return None;
    }
    let op: u8 = buf[pos];
    let klen: usize = match read_u16(buf, pos + 1) {
        Some(n) => n as usize,
        None => {
            return None;
        },
    };
    assert(s.subrange(1, 3) =~= buf@.subrange(pos + 1, pos + 3));
    match op {
        RECORD_SET => {
            let val_off: u64 = match read_u64(buf, pos + 3) {
                Some(v) => v,
                None => {
                    return None;
                },
            };
            let vlen: u32 = match read_u32(buf, pos + 11) {
                Some(v) => v,
                None => {
                    return None;
                },
            };
            let exp_ms: u64 = match read_u64(buf, pos + 15) {
                Some(v) => v,
                None => {
                    return None;
                },
            };
            let key = match read_bytes(buf, pos + 23, klen) {
                Some(k) => k,
                None => {
                    return None;
                },
            };
            proof {
                assert(s.subrange(3, 11) =~= buf@.subrange(pos + 3, pos + 11));
                assert(s.subrange(11, 15) =~= buf@.subrange(pos + 11, pos + 15));
                assert(s.subrange(15, 23) =~= buf@.subrange(pos + 15, pos + 23));
                assert(s.subrange(23, 23 + klen) =~= buf@.subrange(pos + 23, pos + 23 + klen));
            }
            Some((IndexRecord::Put { key, val_off, vlen, exp_ms }, pos + 23 + klen))
        },
        RECORD_DEL => {
            let key = match read_bytes(buf, pos + 3, klen) {
                Some(k) => k,
                None => {
                    return None;
                },
            };
            assert(s.subrange(3, 3 + klen) =~= buf@.subrange(pos + 3, pos + 3 + klen));
            Some((IndexRecord::Del { key }, pos + 3 + klen))
        },
        _ => None,
    }
}

/// Replays a journal in order. A torn trailing record counts as the end:
/// everything before it is recovered.
pub fn replay_backup(buf: &[u8]) -> (out: Vec<IndexRecord>)
    ensures
        records(out@) == replayed(buf@),
{
    let mut out: Vec<IndexRecord> = Vec::new();
    let mut pos: usize = 0;
    proof {
        assert(buf@.skip(0) =~= buf@);
        assert(records(out@) + replayed(buf@) =~= replayed(buf@));
    }
    loop
        invariant
            pos <= buf@.len(),
            replayed(buf@) == records(out@) + replayed(buf@.skip(pos as int)),
        ensures
            replayed(buf@) == records(out@),
        decreases buf@.len() - pos,
    {
        match read_record(buf, pos) {
            None => {
                assert(records(out@) + Seq::<Record>::empty() =~= records(out@));
                break;
            },
            Some((rec, end)) => {
                let ghost before = out@;
                let ghost n = end - pos;
                out.push(rec);
                proof {
                    let s = buf@.skip(pos as int);
                    assert(s.skip(n) =~= buf@.skip(end as int));
                    assert(records(out@) =~= records(before).push(rec@));
                    assert(records(before) + (seq![rec@] + replayed(s.skip(n))) =~= records(out@)
                        + replayed(s.skip(n)));
                }
                pos = end;
            },
        }
    }
    out
}

/// How much of a journal to keep: the whole records at its front. What is torn
/// behind them has to be cut off before anything is appended, for replay would
/// not get past it.
pub fn whole_prefix(journal: &[u8]) -> (n: usize)
    ensures
        n == whole_len(journal@),
        n <= journal@.len(),
        whole(journal@.take(n as int)),
        replayed(journal@.take(n as int)) == replayed(journal@),
        whole(journal@) ==> n == journal@.len(),
{
    let mut pos: usize = 0;
    assert(journal@.skip(0) =~= journal@);
    loop
        invariant
            pos <= journal@.len(),
            whole_len(journal@) == pos + whole_len(journal@.skip(pos as int)),
        ensures
            pos == whole_len(journal@),
        decreases journal@.len() - pos,
    {
        match read_record(journal, pos) {
            None => {
                break;
            },
            Some((_, end)) => {
                assert(journal@.skip(pos as int).skip(end - pos) =~= journal@.skip(end as int));
                pos = end;
            },
        }
    }
    proof {
        lemma_whole_len(journal@);
    }
    pos
}

/// A record is read the same from its own bytes alone.
proof fn lemma_next_record_alone(s: Seq<u8>)
    requires
        next_record(s) is Some,
    ensures
        0 < next_record(s)->Some_0.1 <= s.len(),
        next_record(s.take(next_record(s)->Some_0.1)) == next_record(s),
{
    let n = next_record(s)->Some_0.1;
    let w = s.take(n);
    assert(w.subrange(1, 3) =~= s.subrange(1, 3));
    let klen = be_value(s.subrange(1, 3)) as int;
    if s[0] == RECORD_SET {
        assert(w.subrange(3, 11) =~= s.subrange(3, 11));
        assert(w.subrange(11, 15) =~= s.subrange(11, 15));
        assert(w.subrange(15, 23) =~= s.subrange(15, 23));
        assert(w.subrange(23, 23 + klen) =~= s.subrange(23, 23 + klen));
    } else {
        assert(w.subrange(3, 3 + klen) =~= s.subrange(3, 3 + klen));
    }
}

/// The whole records at the front of a journal replay to all that the journal
/// replays to.
pub proof fn lemma_whole_len(s: Seq<u8>)
    ensures
        whole_len(s) <= s.len(),
        whole(s.take(whole_len(s) as int)),
        replayed(s.take(whole_len(s) as int)) == replayed(s),
        whole(s) ==> whole_len(s) == s.len(),
    decreases s.len(),
{
    match next_record(s) {
        None => {
            assert(s.take(0).len() == 0);
            assert(next_record(s.take(0)) is None);
        },
        Some((r, n)) => {
            lemma_next_record_alone(s);
            let rest = s.skip(n);
            lemma_whole_len(rest);
            let m = whole_len(rest) as int;
            let one = s.take(n);
            lemma_single_record(one);
            law_replay_concatenates(one, rest.take(m));
            assert(s.take(n + m) =~= one + rest.take(m));
            assert(seq![r] + replayed(rest.take(m)) == replayed(s));
        },
    }
}

/// Why a record cannot be written.
#[derive(Debug, Clone, Copy, PartialEq, Eq, Structural)]
pub enum LogError {
    /// The key is longer than its two-byte length can say.
    KeyTooLong,
    /// The value is longer than its four-byte length can say.
    ValueTooLong,
}

/// What is appended to the log by one call.
pub enum LogCall {
    Put { key: Seq<u8>, value: Seq<u8>, exp_ms: u64 },
    Del { key: Seq<u8> },
}

impl LogCall {
    /// Whether key and value fit their length fields.
    pub open spec fn fits(self) -> bool {
        match self {
            LogCall::Put { key, value, .. } => key.len() <= u16::MAX && value.len() <= u32::MAX,
            LogCall::Del { key } => key.len() <= u16::MAX,
        }
    }

    /// What goes to `cool.log`.
    pub open spec fn cool_record(self) -> Seq<u8> {
        match self {
            LogCall::Put { key, value, exp_ms } => cool_put(key, value, exp_ms),
            LogCall::Del { key } => del_record(key),
        }
    }

    /// Where the value of a set lies in `cool.log`, if that is `cool_len` bytes
    /// long before the call.
    pub open spec fn offset(self, cool_len: nat) -> nat {
        match self {
            LogCall::Put { key, .. } => cool_len + COOL_SET_HEADER as nat + key.len(),
            LogCall::Del { .. } => cool_len,
        }
    }

    /// What replay makes of the call, if `cool.log` is `cool_len` bytes long before
    /// it.
    pub open spec fn record(self, cool_len: nat) -> Record {
        match self {
            LogCall::Put { key, value, exp_ms } => Record::Put {
                key,
                loc: Location {
                    val_off: self.offset(cool_len) as u64,
                    vlen: value.len() as u32,
                    exp_ms,
                },
            },
            LogCall::Del { key } => Record::Del { key },
        }
    }

    /// What goes to `backup.log`, if `cool.log` is `cool_len` bytes long before the
    /// call.
    pub open spec fn backup_record(self, cool_len: nat) -> Seq<u8> {
        match self.record(cool_len) {
            Record::Put { key, loc } => backup_put(key, loc),
            Record::Del { key } => del_record(key),
        }
    }
}

/// How long `cool.log` is, and the bytes appended to both files and not handed
/// over yet.
#[verifier::ext_equal]
pub struct LogView {
    pub cool_len: nat,
    pub cool: Seq<u8>,
    pub backup: Seq<u8>,
}

impl LogView {
    /// The log after one call.
    pub open spec fn logged(self, call: LogCall) -> LogView {
        LogView {
            cool_len: self.cool_len + call.cool_record().len(),
            cool: self.cool + call.cool_record(),
            backup: self.backup + call.backup_record(self.cool_len),
        }
    }

    /// The log after calls, in order.
    pub open spec fn logged_all(self, calls: Seq<LogCall>) -> LogView
        decreases calls.len(),
    {
        if calls.len() == 0 {
            self
        } else {
            self.logged_all(calls.drop_last()).logged(calls.last())
        }
    }

    /// What replay makes of calls, one record for each, in order.
    pub open spec fn records_of(self, calls: Seq<LogCall>) -> Seq<Record>
        decreases calls.len(),
    {
        if calls.len() == 0 {
            Seq::empty()
        } else {
            self.records_of(calls.drop_last()).push(
                calls.last().record(self.logged_all(calls.drop_last()).cool_len),
            )
        }
    }
}

/// The write side of a shard's two files: bytes that were appended and not yet
/// handed over for writing, and where the next append lands.
pub struct Disk {
    cool: Vec<u8>,
    backup: Vec<u8>,
    cool_len: u64,
}

impl View for Disk {
    type V = LogView;

    open spec fn view(&self) -> LogView {
        LogView {
            cool_len: self.spec_cool_len() as nat,
            cool: self.pending_cool(),
            backup: self.pending_backup(),
        }
    }
}

impl Disk {
    /// Bytes appended to `cool.log` and not handed over yet.
    pub closed spec fn pending_cool(&self) -> Seq<u8> {
        self.cool@
    }

    /// Bytes appended to `backup.log` and not handed over yet.
    pub closed spec fn pending_backup(&self) -> Seq<u8> {
        self.backup@
    }

    /// The length of `cool.log`, appended bytes and all.
    pub closed spec fn spec_cool_len(&self) -> u64 {
        self.cool_len
    }

    /// Starts on files that exist already: `cool_len` bytes of `cool.log`, and the
    /// contents of `backup.log`, which are replayed. The file is to be cut to its
    /// [`whole_prefix`] before the first bytes are written to it.
    pub fn open(cool_len: u64, backup: &[u8]) -> (r: (Self, Vec<IndexRecord>))
        ensures
            r.0.spec_cool_len() == cool_len,
            r.0.pending_cool() == Seq::<u8>::empty(),
            r.0.pending_backup() == Seq::<u8>::empty(),
            records(r.1@) == replayed(backup@),
    {
        (Disk { cool: Vec::new(), backup: Vec::new(), cool_len }, replay_backup(backup))
    }

    /// The length of `cool.log`, appended bytes and all.
    pub fn cool_len(&self) -> (n: u64)
        ensures
            n == self.spec_cool_len(),
    {
        self.cool_len
    }

    /// Appends a set to both files and returns where in `cool.log` the value
    /// lies. A key or a value that is longer than its length field can say is
    /// refused, and nothing is appended.
    pub fn append_set(&mut self, key: &[u8], value: &[u8], exp_ms: u64) -> (r: Result<
        u64,
        LogError,
    >)
        requires
            key@.len() <= u16::MAX && value@.len() <= u32::MAX ==> old(self).spec_cool_len()
                + COOL_SET_HEADER + key@.len() + value@.len() <= u64::MAX,
        ensures
            r is Ok <==> key@.len() <= u16::MAX && value@.len() <= u32::MAX,
            match r {
                Ok(val_off) => {
                    &&& val_off == old(self).spec_cool_len() + COOL_SET_HEADER + key@.len()
                    &&& final(self).spec_cool_len() == val_off + value@.len()
                    &&& final(self)@ == old(self)@.logged(
                        LogCall::Put { key: key@, value: value@, exp_ms },
                    )
                },
                Err(e) => {
                    &&& e == if key@.len() > u16::MAX {
                        LogError::KeyTooLong
                    } else {
                        LogError::ValueTooLong
                    }
                    &&& final(self)@ == old(self)@
                },
            },
    {
        if key.len() > 0xffff {
            return Err(LogError::KeyTooLong);
        }
        if value.len() as u64 > 0xffff_ffff {
            return Err(LogError::ValueTooLong);
        }
        let vlen: u32 = value.len() as u32;

        // cool: [1][klen][exp_ms][vlen][key][value]
        self.cool.push(RECORD_SET);
        push_be(&mut self.cool, key.len() as u64, 2);
        push_be(&mut self.cool, exp_ms, 8);
        push_be(&mut self.cool, vlen as u64, 4);
        self.cool.extend_from_slice(key);
        self.cool.extend_from_slice(value);
        assert(self.cool@ =~= old(self).cool@ + cool_put(key@, value@, exp_ms));

        let val_off: u64 = self.cool_len + COOL_SET_HEADER + key.len() as u64;
        self.cool_len = val_off + vlen as u64;

        // backup: [1][klen][val_off][vlen][exp_ms][key]
        self.backup.push(RECORD_SET);
        push_be(&mut self.backup, key.len() as u64, 2);
        push_be(&mut self.backup, val_off, 8);
        push_be(&mut self.backup, vlen as u64, 4);
        push_be(&mut self.backup, exp_ms, 8);
        self.backup.extend_from_slice(key);
        assert(self.backup@ =~= old(self).backup@ + backup_put(
            key@,
            Location { val_off, vlen, exp_ms },
        ));
        proof {
            lemma_cool_put_len(key@, value@, exp_ms);
        }
        Ok(val_off)
    }

    /// Appends a delete to both files. A key that is longer than its length field
    /// can say is refused, and nothing is appended.
    pub fn append_del(&mut self, key: &[u8]) -> (r: Result<(), LogError>)
        requires
            key@.len() <= u16::MAX ==> old(self).spec_cool_len() + 3 + key@.len() <= u64::MAX,
        ensures
            r is Ok <==> key@.len() <= u16::MAX,
            match r {
                Ok(()) => {
                    &&& final(self).spec_cool_len() == old(self).spec_cool_len() + 3 + key@.len()
                    &&& final(self)@ == old(self)@.logged(LogCall::Del { key: key@ })
                },
                Err(e) => e == LogError::KeyTooLong && final(self)@ == old(self)@,
            },
    {
        if key.len() > 0xffff {
            return Err(LogError::KeyTooLong);
        }
        self.cool.push(RECORD_DEL);
        push_be(&mut self.cool, key.len() as u64, 2);
        self.cool.extend_from_slice(key);
        assert(self.cool@ =~= old(self).cool@ + del_record(key@));
        self.cool_len = self.cool_len + 3 + key.len() as u64;

        self.backup.push(RECORD_DEL);
        push_be(&mut self.backup, key.len() as u64, 2);
        self.backup.extend_from_slice(key);
        assert(self.backup@ =~= old(self).backup@ + del_record(key@));
        proof {
            lemma_del_record_len(key@);
        }
        Ok(())
    }

    /// Hands over the bytes that `cool.log` still lacks. A value that was just
    /// appended can be read back once they are written.
    pub fn flush_cool(&mut self) -> (bytes: Vec<u8>)
        ensures
            bytes@ == old(self).pending_cool(),
            final(self).pending_cool() == Seq::<u8>::empty(),
            final(self).pending_backup() == old(self).pending_backup(),
            final(self).spec_cool_len() == old(self).spec_cool_len(),
    {
        let mut bytes: Vec<u8> = Vec::new();
        bytes.append(&mut self.cool);
        bytes
    }

    /// Hands over the bytes that both files still lack, `cool.log` first.
    pub fn flush(&mut self) -> (r: (Vec<u8>, Vec<u8>))
        ensures
            r.0@ == old(self).pending_cool(),
            r.1@ == old(self).pending_backup(),
            final(self).pending_cool() == Seq::<u8>::empty(),
            final(self).pending_backup() == Seq::<u8>::empty(),
            final(self).spec_cool_len() == old(self).spec_cool_len(),
    {
        let cool = self.flush_cool();
        let mut backup: Vec<u8> = Vec::new();
        backup.append(&mut self.backup);
        (cool, backup)
    }
}

/// The length of a set record in `cool.log`.
pub proof fn lemma_cool_put_len(key: Seq<u8>, value: Seq<u8>, exp_ms: u64)
    ensures
        cool_put(key, value, exp_ms).len() == COOL_SET_HEADER + key.len() + value.len(),
{
    broadcast use lemma_be_bytes_len;

}

/// The length of a delete record.
pub proof fn lemma_del_record_len(key: Seq<u8>)
    ensures
        del_record(key).len() == 3 + key.len(),
{
    broadcast use lemma_be_bytes_len;

}

/// A read gives back the write: after a set is appended to `cool.log`, the bytes
/// at the offset that [`Disk::append_set`] returns are the value.
pub proof fn law_read_back(cool: Seq<u8>, key: Seq<u8>, value: Seq<u8>, exp_ms: u64)
    ensures
        ({
            let off = cool.len() + COOL_SET_HEADER + key.len();
            &&& off + value.len() == (cool + cool_put(key, value, exp_ms)).len()
            &&& (cool + cool_put(key, value, exp_ms)).subrange(off, off + value.len()) == value
        }),
{
    broadcast use lemma_be_bytes_len;

    let off = cool.len() + COOL_SET_HEADER + key.len();
    let log = cool + cool_put(key, value, exp_ms);
    lemma_cool_put_len(key, value, exp_ms);
    assert(log.subrange(off, off + value.len()) =~= value);
}

/// Appending never changes what was there: a value stays readable at its offset
/// whatever is written later.
pub proof fn law_append_keeps_earlier(log: Seq<u8>, later: Seq<u8>, from: int, to: int)
    requires
        0 <= from <= to <= log.len(),
    ensures
        (log + later).subrange(from, to) == log.subrange(from, to),
{
    assert((log + later).subrange(from, to) =~= log.subrange(from, to));
}

/// A record that can be read is read the same whatever follows it.
pub proof fn lemma_next_record_extends(s: Seq<u8>, t: Seq<u8>)
    requires
        next_record(s) is Some,
    ensures
        next_record(s + t) == next_record(s),
        0 < next_record(s)->Some_0.1 <= s.len(),
{
    let w = s + t;
    let klen = be_value(s.subrange(1, 3)) as int;
    assert(w.subrange(1, 3) =~= s.subrange(1, 3));
    if s[0] == RECORD_SET {
        assert(w.subrange(3, 11) =~= s.subrange(3, 11));
        assert(w.subrange(11, 15) =~= s.subrange(11, 15));
        assert(w.subrange(15, 23) =~= s.subrange(15, 23));
        assert(w.subrange(23, 23 + klen) =~= s.subrange(23, 23 + klen));
    } else {
        assert(w.subrange(3, 3 + klen) =~= s.subrange(3, 3 + klen));
    }
}

/// Replay of a journal of whole records goes on with what follows it.
pub proof fn law_replay_concatenates(s: Seq<u8>, t: Seq<u8>)
    requires
        whole(s),
    ensures
        replayed(s + t) == replayed(s) + replayed(t),
        whole(s + t) == whole(t),
    decreases s.len(),
{
    if s.len() == 0 {
        assert(s + t =~= t);
        assert(replayed(s) + replayed(t) =~= replayed(t));
    } else {
        lemma_next_record_extends(s, t);
        let (r, n) = next_record(s)->Some_0;
        law_replay_concatenates(s.skip(n), t);
        assert((s + t).skip(n) =~= s.skip(n) + t);
        assert(seq![r] + (replayed(s.skip(n)) + replayed(t)) =~= (seq![r] + replayed(s.skip(n)))
            + replayed(t));
    }
}

/// A set record reads back as the set it was written for.
pub proof fn lemma_next_record_put(key: Seq<u8>, loc: Location)
    requires
        key.len() <= u16::MAX,
    ensures
        next_record(backup_put(key, loc)) == Some(
            (Record::Put { key, loc }, backup_put(key, loc).len() as int),
        ),
{
    broadcast use lemma_be_bytes_len;

    let s = backup_put(key, loc);
    lemma_pow256_values();
    lemma_be_round_trip(key.len(), 2);
    lemma_be_round_trip(loc.val_off as nat, 8);
    lemma_be_round_trip(loc.vlen as nat, 4);
    lemma_be_round_trip(loc.exp_ms as nat, 8);
    assert(s.subrange(1, 3) =~= be_bytes(key.len(), 2));
    assert(s.subrange(3, 11) =~= be_bytes(loc.val_off as nat, 8));
    assert(s.subrange(11, 15) =~= be_bytes(loc.vlen as nat, 4));
    assert(s.subrange(15, 23) =~= be_bytes(loc.exp_ms as nat, 8));
    assert(s.subrange(23, 23 + key.len() as int) =~= key);
}

/// A delete record reads back as the delete it was written for.
pub proof fn lemma_next_record_del(key: Seq<u8>)
    requires
        key.len() <= u16::MAX,
    ensures
        next_record(del_record(key)) == Some((Record::Del { key }, del_record(key).len() as int)),
{
    broadcast use lemma_be_bytes_len;

    let s = del_record(key);
    lemma_pow256_values();
    lemma_be_round_trip(key.len(), 2);
    assert(s.subrange(1, 3) =~= be_bytes(key.len(), 2));
    assert(s.subrange(3, 3 + key.len() as int) =~= key);
}

/// Replay sees every append: a set appended to a journal of whole records comes
/// out last, after all that came out before, and the journal stays whole.
pub proof fn law_replay_sees_set(journal: Seq<u8>, key: Seq<u8>, loc: Location)
    requires
        whole(journal),
        key.len() <= u16::MAX,
    ensures
        whole(journal + backup_put(key, loc)),
        replayed(journal + backup_put(key, loc)) == replayed(journal).push(
            Record::Put { key, loc },
        ),
{
    let s = backup_put(key, loc);
    lemma_next_record_put(key, loc);
    lemma_single_record(s);
    law_replay_concatenates(journal, s);
    assert(replayed(journal) + seq![Record::Put { key, loc }] =~= replayed(journal).push(
        Record::Put { key, loc },
    ));
}

/// Replay sees every append: a delete appended to a journal of whole records
/// comes out last, after all that came out before, and the journal stays whole.
pub proof fn law_replay_sees_del(journal: Seq<u8>, key: Seq<u8>)
    requires
        whole(journal),
        key.len() <= u16::MAX,
    ensures
        whole(journal + del_record(key)),
        replayed(journal + del_record(key)) == replayed(journal).push(Record::Del { key }),
{
    let s = del_record(key);
    lemma_next_record_del(key);
    lemma_single_record(s);
    law_replay_concatenates(journal, s);
    assert(replayed(journal) + seq![Record::Del { key }] =~= replayed(journal).push(
        Record::Del { key },
    ));
}

/// A journal of one record replays to that record.
proof fn lemma_single_record(s: Seq<u8>)
    requires
        next_record(s) matches Some((_, n)) && n == s.len() && n > 0,
    ensures
        whole(s),
        replayed(s) == seq![next_record(s)->Some_0.0],
{
    let r = next_record(s)->Some_0.0;
    let rest = s.skip(s.len() as int);
    assert(rest.len() == 0);
    assert(whole(rest));
    assert(replayed(rest) == Seq::<Record>::empty());
    assert(seq![r] + Seq::<Record>::empty() =~= seq![r]);
}

/// A torn trailing record counts as the end: cut a journal anywhere inside its
/// last record, and replay recovers everything before that record, which is the
/// part to keep.
pub proof fn law_torn_tail_recovers_rest(journal: Seq<u8>, last: Seq<u8>, cut: int)
    requires
        whole(journal),
        next_record(last) matches Some((_, n)) && n == last.len(),
        0 <= cut < last.len(),
    ensures
        replayed(journal + last.take(cut)) == replayed(journal),
        whole_len(journal + last.take(cut)) == journal.len(),
{
    let torn = last.take(cut);
    if cut >= 3 {
        assert(torn.subrange(1, 3) =~= last.subrange(1, 3));
    }
    assert(next_record(torn) is None);
    law_replay_concatenates(journal, torn);
    lemma_whole_len_concatenates(journal, torn);
    assert(replayed(journal) + Seq::<Record>::empty() =~= replayed(journal));
}

/// Behind whole records, more of them may follow.
proof fn lemma_whole_len_concatenates(s: Seq<u8>, t: Seq<u8>)
    requires
        whole(s),
    ensures
        whole_len(s + t) == s.len() + whole_len(t),
    decreases s.len(),
{
    if s.len() == 0 {
        assert(s + t =~= t);
    } else {
        lemma_next_record_extends(s, t);
        let n = next_record(s)->Some_0.1;
        lemma_whole_len_concatenates(s.skip(n), t);
        assert((s + t).skip(n) =~= s.skip(n) + t);
    }
}

/// Reopening gives every call: after any appends to a log, replay of the journal
/// gives what it gave before them and then one record for each, in order, and the
/// journal stays whole. Neither file loses or changes a byte that it had.
pub proof fn law_reopen_gives_every_call(journal: Seq<u8>, log: LogView, calls: Seq<LogCall>)
    requires
        whole(journal + log.backup),
        forall|i: int| 0 <= i < calls.len() ==> (#[trigger] calls[i]).fits(),
    ensures
        whole(journal + log.logged_all(calls).backup),
        replayed(journal + log.logged_all(calls).backup) == replayed(journal + log.backup)
            + log.records_of(calls),
        log.records_of(calls).len() == calls.len(),
        log.backup.is_prefix_of(log.logged_all(calls).backup),
        log.cool.is_prefix_of(log.logged_all(calls).cool),
    decreases calls.len(),
{
    let before = replayed(journal + log.backup);
    if calls.len() == 0 {
        assert(before + Seq::<Record>::empty() =~= before);
    } else {
        let front = calls.drop_last();
        let call = calls.last();
        assert forall|i: int| 0 <= i < front.len() implies (#[trigger] front[i]).fits() by {
            assert(calls[i].fits());
        }
        assert(calls[calls.len() - 1].fits());
        law_reopen_gives_every_call(journal, log, front);
        let mid = log.logged_all(front);
        let written = journal + mid.backup;
        match call.record(mid.cool_len) {
            Record::Put { key, loc } => law_replay_sees_set(written, key, loc),
            Record::Del { key } => law_replay_sees_del(written, key),
        }
        assert(journal + log.logged_all(calls).backup =~= written + call.backup_record(
            mid.cool_len,
        ));
        let r = call.record(mid.cool_len);
        assert((before + log.records_of(front)).push(r) =~= before + log.records_of(front).push(r));
    }
}

/// A write after a start on a torn journal is recovered at the next start: with
/// the torn tail cut off, replay gives all that came out of the torn journal and
/// then one record for each append, in order.
pub proof fn law_writes_after_torn_start(torn: Seq<u8>, cool_len: nat, calls: Seq<LogCall>)
    requires
        forall|i: int| 0 <= i < calls.len() ==> (#[trigger] calls[i]).fits(),
    ensures
        ({
            let log = LogView { cool_len, cool: Seq::empty(), backup: Seq::empty() };
            let kept = torn.take(whole_len(torn) as int);
            &&& whole(kept + log.logged_all(calls).backup)
            &&& replayed(kept + log.logged_all(calls).backup) == replayed(torn) + log.records_of(
                calls,
            )
        }),
{
    let log = LogView { cool_len, cool: Seq::empty(), backup: Seq::empty() };
    let kept = torn.take(whole_len(torn) as int);
    lemma_whole_len(torn);
    assert(kept + log.backup =~= kept);
    law_reopen_gives_every_call(kept, log, calls);
}

/// The length of `cool.log` keeps up with the file.
proof fn lemma_cool_len_kept(file: Seq<u8>, log: LogView, calls: Seq<LogCall>)
    requires
        (file + log.cool).len() == log.cool_len,
    ensures
        (file + log.logged_all(calls).cool).len() == log.logged_all(calls).cool_len,
    decreases calls.len(),
{
    if calls.len() > 0 {
        lemma_cool_len_kept(file, log, calls.drop_last());
    }
}

/// A value stays readable: whatever was appended before a set and whatever is
/// appended after it, the bytes of `cool.log` at the offset that the set returned
/// are its value, whether or not they were handed over in between.
pub proof fn law_value_stays_readable(file: Seq<u8>, log: LogView, calls: Seq<LogCall>, i: int)
    requires
        (file + log.cool).len() == log.cool_len,
        0 <= i < calls.len(),
        calls[i] is Put,
    ensures
        ({
            let off = calls[i].offset(log.logged_all(calls.take(i)).cool_len) as int;
            let cool = file + log.logged_all(calls).cool;
            &&& off + calls[i]->value.len() <= cool.len()
            &&& cool.subrange(off, off + calls[i]->value.len()) == calls[i]->value
        }),
    decreases calls.len(),
{
    let front = calls.drop_last();
    let mid = log.logged_all(front);
    let written = file + mid.cool;
    let record = calls.last().cool_record();
    assert(file + log.logged_all(calls).cool =~= written + record);
    if i == calls.len() - 1 {
        assert(calls.take(i) =~= front);
        lemma_cool_len_kept(file, log, front);
        law_read_back(written, calls[i]->Put_key, calls[i]->value, calls[i]->exp_ms);
    } else {
        law_value_stays_readable(file, log, front, i);
        assert(front.take(i) =~= calls.take(i));
        let off = calls[i].offset(log.logged_all(calls.take(i)).cool_len) as int;
        law_append_keeps_earlier(written, record, off, off + calls[i]->value.len());
    }
}

/// A set record of `cool.log` reads back: the op byte 1, two bytes of key length,
/// the eight bytes of the expiry time, four bytes of value length, the key and the
/// value are those that the set was called with.
pub proof fn law_cool_record_layout(key: Seq<u8>, value: Seq<u8>, exp_ms: u64)
    requires
        key.len() <= 65535,
        value.len() <= 0xffff_ffff,
    ensures
        ({
            let s = cool_put(key, value, exp_ms);
            let end = 15 + key.len() as int;
            &&& s.len() == 15 + key.len() + value.len()
            &&& s[0] == 1
            &&& s[1] * 0x100 + s[2] == key.len()
            &&& s[3] * 0x100_0000_0000_0000 + s[4] * 0x1_0000_0000_0000 + s[5] * 0x100_0000_0000
                + s[6] * 0x1_0000_0000 + s[7] * 0x100_0000 + s[8] * 0x1_0000 + s[9] * 0x100 + s[10]
                == exp_ms
            &&& s[11] * 0x100_0000 + s[12] * 0x1_0000 + s[13] * 0x100 + s[14] == value.len()
            &&& s.subrange(15, end) == key
            &&& s.skip(end) == value
        }),
{
    let s = cool_put(key, value, exp_ms);
    let end = 15 + key.len() as int;
    law_number_is_its_bytes(key.len());
    law_number_is_its_bytes(exp_ms as nat);
    law_number_is_its_bytes(value.len());
    let (a, b, c) = (s.subrange(1, 3), s.subrange(3, 11), s.subrange(11, 15));
    assert(a =~= be_bytes(key.len(), 2));
    assert(b =~= be_bytes(exp_ms as nat, 8));
    assert(c =~= be_bytes(value.len(), 4));
    assert(s[1] == a[0] && s[2] == a[1]);
    assert(s[3] == b[0] && s[4] == b[1] && s[5] == b[2] && s[6] == b[3]);
    assert(s[7] == b[4] && s[8] == b[5] && s[9] == b[6] && s[10] == b[7]);
    assert(s[11] == c[0] && s[12] == c[1] && s[13] == c[2] && s[14] == c[3]);
    assert(s.subrange(15, end) =~= key);
    assert(s.skip(end) =~= value);
}

/// A set record of `backup.log` reads back: the op byte 1, two bytes of key length,
/// the eight bytes of the offset, four of the value's length, eight of the expiry
/// time, and the key.
pub proof fn law_backup_record_layout(key: Seq<u8>, loc: Location)
    requires
        key.len() <= 65535,
    ensures
        ({
            let s = backup_put(key, loc);
            &&& s.len() == 23 + key.len()
            &&& s[0] == 1
            &&& s[1] * 0x100 + s[2] == key.len()
            &&& s[3] * 0x100_0000_0000_0000 + s[4] * 0x1_0000_0000_0000 + s[5] * 0x100_0000_0000
                + s[6] * 0x1_0000_0000 + s[7] * 0x100_0000 + s[8] * 0x1_0000 + s[9] * 0x100 + s[10]
                == loc.val_off
            &&& s[11] * 0x100_0000 + s[12] * 0x1_0000 + s[13] * 0x100 + s[14] == loc.vlen
            &&& s[15] * 0x100_0000_0000_0000 + s[16] * 0x1_0000_0000_0000 + s[17] * 0x100_0000_0000
                + s[18] * 0x1_0000_0000 + s[19] * 0x100_0000 + s[20] * 0x1_0000 + s[21] * 0x100
                + s[22] == loc.exp_ms
            &&& s.skip(23) == key
        }),
{
    let s = backup_put(key, loc);
    law_number_is_its_bytes(key.len());
    law_number_is_its_bytes(loc.val_off as nat);
    law_number_is_its_bytes(loc.vlen as nat);
    law_number_is_its_bytes(loc.exp_ms as nat);
    let (a, b, c, d) = (s.subrange(1, 3), s.subrange(3, 11), s.subrange(11, 15), s.subrange(15, 23));
    assert(a =~= be_bytes(key.len(), 2));
    assert(b =~= be_bytes(loc.val_off as nat, 8));
    assert(c =~= be_bytes(loc.vlen as nat, 4));
    assert(d =~= be_bytes(loc.exp_ms as nat, 8));
    assert(s[1] == a[0] && s[2] == a[1]);
    assert(s[3] == b[0] && s[4] == b[1] && s[5] == b[2] && s[6] == b[3]);
    assert(s[7] == b[4] && s[8] == b[5] && s[9] == b[6] && s[10] == b[7]);
    assert(s[11] == c[0] && s[12] == c[1] && s[13] == c[2] && s[14] == c[3]);
    assert(s[15] == d[0] && s[16] == d[1] && s[17] == d[2] && s[18] == d[3]);
    assert(s[19] == d[4] && s[20] == d[5] && s[21] == d[6] && s[22] == d[7]);
    assert(s.skip(23) =~= key);
}

/// A delete record reads back in both files: the op byte 2, two bytes of key
/// length, and the key.
pub proof fn law_delete_record_layout(key: Seq<u8>)
    requires
        key.len() <= 65535,
    ensures
        ({
            let s = del_record(key);
            &&& s.len() == 3 + key.len()
            &&& s[0] == 2
            &&& s[1] * 0x100 + s[2] == key.len()
            &&& s.skip(3) == key
        }),
{
    let s = del_record(key);
    law_number_is_its_bytes(key.len());
    let a = s.subrange(1, 3);
    assert(a =~= be_bytes(key.len(), 2));
    assert(s[1] == a[0] && s[2] == a[1]);
    assert(s.skip(3) =~= key);
}

/// What a journal holds at its front, byte for byte: a set with its key, offset,
/// length and expiry time, or a delete with its key, once all of the record is
/// there; and no record where it is cut short or the op byte is unknown.
pub proof fn law_journal_reads_the_layout(s: Seq<u8>)
    ensures
        s.len() < 3 ==> next_record(s) is None,
        s.len() >= 3 && s[0] != 1 && s[0] != 2 ==> next_record(s) is None,
        s.len() >= 3 && s[0] == 1 ==> ({
            let end = 23 + s[1] * 0x100 + s[2];
            &&& s.len() < end ==> next_record(s) is None
            &&& s.len() >= end ==> (next_record(s) matches Some((Record::Put { key, loc }, n)) && {
                &&& n == end
                &&& key == s.subrange(23, end)
                &&& loc.val_off == s[3] * 0x100_0000_0000_0000 + s[4] * 0x1_0000_0000_0000 + s[5]
                    * 0x100_0000_0000 + s[6] * 0x1_0000_0000 + s[7] * 0x100_0000 + s[8] * 0x1_0000
                    + s[9] * 0x100 + s[10]
                &&& loc.vlen == s[11] * 0x100_0000 + s[12] * 0x1_0000 + s[13] * 0x100 + s[14]
                &&& loc.exp_ms == s[15] * 0x100_0000_0000_0000 + s[16] * 0x1_0000_0000_0000 + s[17]
                    * 0x100_0000_0000 + s[18] * 0x1_0000_0000 + s[19] * 0x100_0000 + s[20]
                    * 0x1_0000 + s[21] * 0x100 + s[22]
            })
        }),
        s.len() >= 3 && s[0] == 2 ==> ({
            let end = 3 + s[1] * 0x100 + s[2];
            &&& s.len() < end ==> next_record(s) is None
            &&& s.len() >= end ==> next_record(s) == Some(
                (Record::Del { key: s.subrange(3, end) }, end),
            )
        }),
{
    lemma_pow256_values();
    if s.len() >= 3 {
        law_bytes_spell_their_number(s.subrange(1, 3));
        if s.len() >= 23 {
            law_bytes_spell_their_number(s.subrange(3, 11));
            law_bytes_spell_their_number(s.subrange(11, 15));
            law_bytes_spell_their_number(s.subrange(15, 23));
            lemma_be_value_bound(s.subrange(3, 11));
            lemma_be_value_bound(s.subrange(11, 15));
            lemma_be_value_bound(s.subrange(15, 23));
        }
    }
}

/// Replay goes from record to record: the one at the front and then what stands
/// behind it, up to where none can be read.
pub proof fn law_replay_goes_from_record_to_record(s: Seq<u8>)
    ensures
        match next_record(s) {
            None => {
                &&& replayed(s).len() == 0
                &&& whole_len(s) == 0
                &&& whole(s) <==> s.len() == 0
            },
            Some((r, n)) => {
                &&& replayed(s) == seq![r] + replayed(s.skip(n))
                &&& whole_len(s) == n + whole_len(s.skip(n))
                &&& whole(s) <==> whole(s.skip(n))
            },
        },
{
    if next_record(s) is Some {
        lemma_next_record_alone(s);
    }
}

/// The index follows the records: a set puts its key where it says, a delete takes
/// its key out, and no other key is touched.
pub proof fn law_index_follows_the_records(rs: Seq<Record>, key: Seq<u8>, loc: Location)
    ensures
        index_of_records(Seq::empty()) == Map::<Seq<u8>, Location>::empty(),
        index_of_records(rs.push(Record::Put { key, loc })) == index_of_records(rs).insert(key, loc),
        index_of_records(rs.push(Record::Del { key })) == index_of_records(rs).remove(key),
{
    assert(rs.push(Record::Put { key, loc }).drop_last() =~= rs);
    assert(rs.push(Record::Del { key }).drop_last() =~= rs);
}

/// What one call appends: its record to each file, in the layout of that file. The
/// value lies behind header and key, counted from where `cool.log` ended.
pub proof fn law_call_appends_its_records(
    log: LogView,
    key: Seq<u8>,
    value: Seq<u8>,
    exp_ms: u64,
)
    requires
        key.len() <= 65535,
        value.len() <= 0xffff_ffff,
        log.cool_len + 15 + key.len() + value.len() <= u64::MAX,
    ensures
        ({
            let put = LogCall::Put { key, value, exp_ms };
            let off = log.cool_len + 15 + key.len();
            let loc = Location { val_off: off as u64, vlen: value.len() as u32, exp_ms };
            &&& put.fits()
            &&& put.offset(log.cool_len) == off
            &&& put.record(log.cool_len) == (Record::Put { key, loc })
            &&& log.logged(put).cool == log.cool + cool_put(key, value, exp_ms)
            &&& log.logged(put).backup == log.backup + backup_put(key, loc)
            &&& log.logged(put).cool_len == off + value.len()
        }),
        ({
            let del = LogCall::Del { key };
            &&& del.fits()
            &&& del.record(log.cool_len) == (Record::Del { key })
            &&& log.logged(del).cool == log.cool + del_record(key)
            &&& log.logged(del).backup == log.backup + del_record(key)
            &&& log.logged(del).cool_len == log.cool_len + 3 + key.len()
        }),
{
    lemma_cool_put_len(key, value, exp_ms);
    lemma_del_record_len(key);
}

/// Calls append one after the other.
pub proof fn law_calls_append_in_order(log: LogView, calls: Seq<LogCall>, call: LogCall)
    ensures
        log.logged_all(Seq::empty()) == log,
        log.logged_all(calls.push(call)) == log.logged_all(calls).logged(call),
        log.records_of(Seq::empty()).len() == 0,
        log.records_of(calls.push(call)) == log.records_of(calls).push(
            call.record(log.logged_all(calls).cool_len),
        ),
{
    assert(calls.push(call).drop_last() =~= calls);
}

/// What the contracts say of recovered records is what they hold, in order.
pub proof fn law_records_are_what_they_hold(
    key: Bytes,
    val_off: u64,
    vlen: u32,
    exp_ms: u64,
    found: Seq<IndexRecord>,
)
    ensures
        (IndexRecord::Put { key, val_off, vlen, exp_ms })@ == (Record::Put {
            key: bytes_view(key),
            loc: Location { val_off, vlen, exp_ms },
        }),
        (IndexRecord::Del { key })@ == (Record::Del { key: bytes_view(key) }),
        records(found).len() == found.len(),
        forall|i: int| 0 <= i < found.len() ==> #[trigger] records(found)[i] == found[i]@,
{
}

} // verus!
