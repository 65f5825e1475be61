//! What a shard's event loop does with each operation, read and timer tick.

use bytes::Bytes;
use vstd::prelude::*;

use crate::buffer::bytes_view;
use crate::shards::cache::{CacheView, HIGH_WATER};
use crate::shards::disk::{
    backup_put, cool_put, del_record, index_of_records, law_torn_tail_recovers_rest, next_record,
    replayed, whole, whole_len, Location, COOL_SET_HEADER,
};
use crate::shards::expiry::{has_due, queued};
use crate::shards::model::{
    deadline, expired, in_order, last_written, law_dropping_expired_is_invisible,
    law_last_write_decides, live, reply_to, same_live, Event, Item,
};
use crate::shards::store::{later, located, queue_of_records, Lookup, Store};
use crate::text::{ascii, text_bytes};
use crate::utils::{
    nil_text, one_text, resp_nil, resp_ok, resp_one, resp_zero, zero_text, Command, WorkerOp,
};

verus! {

/// How many due keys one timer tick looks at.
pub const SWEEP_LIMIT: usize = 1024;

/// A value that has to be read from `cool.log` before its GET can be answered.
#[derive(Debug)]
pub struct ColdRead {
    pub req_id: u32,
    pub key: Bytes,
    pub loc: Location,
}

/// What an operation leads to.
#[derive(Debug)]
pub enum Step {
    /// The answer to the request `req_id`.
    Reply { req_id: u32, payload: Bytes },
    /// The answer waits for a read.
    Read(ColdRead),
}

/// The state of one shard.
pub struct State {
    store: Store,
}

/// The time at which the value that a command stores expires; `0` for never.
pub open spec fn expiry_of(cmd: Command, now: u64) -> u64 {
    match cmd {
        Command::SetEx { ttl_ms, .. } => deadline(now, ttl_ms),
        _ => 0,
    }
}

/// The expiry time of a value that is set at `now` with a time to live.
pub fn deadline_of(now: u64, ttl_ms: u32) -> (exp_ms: u64)
    ensures
        exp_ms == deadline(now, ttl_ms),
{
    let ttl: u64 = ttl_ms as u64;
    if now > u64::MAX - ttl {
        0
    } else if now + ttl == 0 {
        1
    } else {
        now + ttl
    }
}

impl State {
    /// The representation is sound.
    pub closed spec fn wf(&self) -> bool {
        self.store.wf()
    }

    /// The tiers and the log behind the state.
    pub closed spec fn store(&self) -> Store {
        self.store
    }

    /// Whether `cool.log`, with these contents on file, backs the state.
    pub open spec fn backed_by(&self, file: Seq<u8>) -> bool {
        self.store().backed_by(file)
    }

    /// What the shard holds, given what is on file.
    pub open spec fn contents(&self, file: Seq<u8>) -> Map<Seq<u8>, Item> {
        self.store().contents(file)
    }

    /// Whether an event leads from this state, with `file` in `cool.log`, to the
    /// state `after`, with `file_after` there: what the shard holds follows the
    /// event, and is backed by the file.
    pub open spec fn leads_to(
        &self,
        file: Seq<u8>,
        event: Event,
        after: State,
        file_after: Seq<u8>,
    ) -> bool {
        &&& after.backed_by(file_after)
        &&& event.leads(self.contents(file), after.contents(file_after))
    }

    /// Whether `backup.log`, with these contents on file, is the journal of the
    /// state at `now`.
    pub open spec fn journaled(&self, file: Seq<u8>, now: u64) -> bool {
        self.store().journaled(file, now)
    }

    /// Whether `key` is in the index and has not expired at `now`.
    pub open spec fn finds(&self, key: Seq<u8>, now: u64) -> bool {
        self.store().index().contains_key(key) && !expired(self.store().index()[key].exp_ms, now)
    }

    /// Whether the log can take what a command writes.
    pub open spec fn has_room(&self, cmd: Command) -> bool {
        cmd is Get || self.store().has_room(cmd.key().len(), cmd.value().len())
    }

    /// What a command appends to `cool.log`: every write, and nothing else.
    pub open spec fn cool_record(&self, cmd: Command, now: u64) -> Seq<u8> {
        match cmd {
            Command::Get { .. } => Seq::empty(),
            Command::Del { key } => if self.finds(key, now) {
                del_record(key)
            } else {
                Seq::empty()
            },
            _ => cool_put(cmd.key(), cmd.value(), expiry_of(cmd, now)),
        }
    }

    /// Where the value of a command lands in `cool.log`.
    pub open spec fn new_location(&self, cmd: Command, now: u64) -> Location {
        Location {
            val_off: (self.store().cool_len() + COOL_SET_HEADER + cmd.key().len()) as u64,
            vlen: cmd.value().len() as u32,
            exp_ms: expiry_of(cmd, now),
        }
    }

    /// What a command appends to `backup.log`: every write, and nothing else.
    pub open spec fn backup_record(&self, cmd: Command, now: u64) -> Seq<u8> {
        match cmd {
            Command::Get { .. } => Seq::empty(),
            Command::Del { key } => if self.finds(key, now) {
                del_record(key)
            } else {
                Seq::empty()
            },
            _ => backup_put(cmd.key(), self.new_location(cmd, now)),
        }
    }

    /// The index after a command.
    pub open spec fn index_after(&self, cmd: Command, now: u64) -> Map<Seq<u8>, Location> {
        match cmd {
            Command::Get { key } => if self.finds(key, now) {
                self.store().index()
            } else {
                self.store().index().remove(key)
            },
            Command::Del { key } => self.store().index().remove(key),
            _ => self.store().index().insert(cmd.key(), self.new_location(cmd, now)),
        }
    }

    /// The values in memory after a command.
    pub open spec fn cached_after(&self, cmd: Command, now: u64) -> CacheView {
        let cached = self.store().cached();
        match cmd {
            Command::Get { key } => if !self.finds(key, now) {
                cached.remove(key)
            } else if cached.values.contains_key(key) {
                cached.touch(key)
            } else {
                cached
            },
            Command::Del { key } => cached.remove(key),
            _ => cached.put(cmd.key(), cmd.value(), self.store().budget()),
        }
    }

    /// The expiry queue after a command.
    pub open spec fn queue_after(&self, cmd: Command, now: u64) -> Map<u64, Seq<Seq<u8>>> {
        match cmd {
            Command::SetEx { key, .. } if expiry_of(cmd, now) != 0 => queued(
                self.store().queue(),
                expiry_of(cmd, now),
                key,
            ),
            _ => self.store().queue(),
        }
    }

    /// The values in memory stay below the high-water mark of the budget.
    pub proof fn law_memory_is_bounded(&self)
        requires
            self.wf(),
        ensures
            self.store().cached().bytes() * 100 <= self.store().budget() * HIGH_WATER,
    {
        self.store.lemma_memory_is_bounded();
    }

    /// Starts a shard on the files that it left behind: `cool_len` bytes of
    /// `cool.log`, and the contents of `backup.log`. `budget` bounds the bytes of
    /// values in memory.
    pub fn new(cool_len: u64, backup: &[u8], budget: u64) -> (r: Self)
        ensures
            r.wf(),
            r.store().index() == index_of_records(replayed(backup@)),
            r.store().cached() == CacheView::empty(),
            r.store().queue() == queue_of_records(replayed(backup@)),
            r.store().budget() == budget,
            r.store().pending_cool() == Seq::<u8>::empty(),
            r.store().pending_backup() == Seq::<u8>::empty(),
            r.store().cool_len() == cool_len,
            located(r.store().index(), cool_len) ==> forall|now: u64| #[trigger]
                r.journaled(backup@.take(whole_len(backup@) as int), now),
            located(r.store().index(), cool_len) ==> forall|file: Seq<u8>|
                file.len() == cool_len ==> #[trigger] r.backed_by(file),
    {
        State { store: Store::open(cool_len, backup, budget) }
    }

    /// Whether the log can take what an operation writes.
    pub fn fits(&self, op: &WorkerOp) -> (r: bool)
        ensures
            r == self.has_room(op@),
    {
        let cool_len: u128 = self.store.log_len() as u128;
        match op {
            WorkerOp::Get { .. } => true,
            WorkerOp::Put { key, value } => State::room(cool_len, key.len(), value.len()),
            WorkerOp::SetEx { key, value, .. } => State::room(cool_len, key.len(), value.len()),
            WorkerOp::Del { key } => State::room(cool_len, key.len(), 0),
        }
    }

    /// Whether a record with a key and a value of these lengths fits after
    /// `cool_len` bytes.
    fn room(cool_len: u128, key_len: usize, value_len: usize) -> (r: bool)
        requires
            cool_len <= u64::MAX,
        ensures
            r == {
                &&& key_len <= u16::MAX
                &&& value_len <= u32::MAX
                &&& cool_len + COOL_SET_HEADER + key_len + value_len <= u64::MAX
            },
    {
        key_len <= 0xffff && value_len as u64 <= 0xffff_ffff && cool_len + COOL_SET_HEADER as u128
            + key_len as u128 + value_len as u128 <= 0xffff_ffff_ffff_ffff
    }

    /// Applies one operation at `now` and answers it, or says what has to be read
    /// first. The answer carries the request's id.
    pub fn apply(&mut self, req_id: u32, op: WorkerOp, now: u64) -> (step: Step)
        requires
            old(self).wf(),
            old(self).has_room(op@),
        ensures
            final(self).wf(),
            final(self).store().budget() == old(self).store().budget(),
            final(self).store().index() == old(self).index_after(op@, now),
            final(self).store().cached() == old(self).cached_after(op@, now),
            final(self).store().queue() == old(self).queue_after(op@, now),
            final(self).store().pending_cool() == old(self).store().pending_cool() + old(
                self).cool_record(op@, now),
            final(self).store().pending_backup() == old(self).store().pending_backup() + old(
                self).backup_record(op@, now),
            final(self).store().cool_len() == old(self).store().cool_len() + old(
                self).cool_record(op@, now).len(),
            step is Read <==> op@ is Get && old(self).finds(op@.key(), now) && !old(
                self).store().cached().values.contains_key(op@.key()),
            match step {
                Step::Reply { req_id: id, .. } => id == req_id,
                Step::Read(read) => {
                    &&& read.req_id == req_id
                    &&& bytes_view(read.key) == op@.key()
                    &&& read.loc == old(self).store().index()[op@.key()]
                },
            },
            forall|file: Seq<u8>| #[trigger]
                old(self).backed_by(file) ==> {
                    let answer = reply_to(old(self).contents(file), op@, now);
                    &&& old(self).leads_to(
                        file,
                        Event::Apply { cmd: op@, now },
                        *final(self),
                        file,
                    )
                    &&& match step {
                        Step::Reply { payload, .. } => bytes_view(payload) == answer,
                        Step::Read(read) => final(self).store().value_at(file, read.loc) == answer,
                    }
                },
            forall|file: Seq<u8>, t: u64| #[trigger]
                old(self).journaled(file, t) ==> final(self).journaled(file, later(t, now)),
    {
        let ghost cmd = op@;
        proof {
            lemma_record_lengths(cmd);
        }
        match op {
            WorkerOp::Get { key } => {
                let found = self.store.get(&key, now);
                proof {
                    assert(old(self).store().pending_cool() + Seq::<u8>::empty() =~= old(
                        self).store().pending_cool());
                    assert(old(self).store().pending_backup() + Seq::<u8>::empty() =~= old(
                        self).store().pending_backup());
                }
                match found {
                    Lookup::Hit(payload) => Step::Reply { req_id, payload },
                    Lookup::Cold(loc) => Step::Read(ColdRead { req_id, key, loc }),
                    Lookup::Miss => Step::Reply { req_id, payload: resp_nil() },
                }
            },
            WorkerOp::Put { key, value } => {
                self.store.put(key, value, 0);
                Step::Reply { req_id, payload: resp_ok() }
            },
            WorkerOp::SetEx { key, value, ttl_ms } => {
                self.store.put(key, value, deadline_of(now, ttl_ms));
                Step::Reply { req_id, payload: resp_ok() }
            },
            WorkerOp::Del { key } => {
                let removed = self.store.delete(&key, now);
                proof {
                    assert(old(self).store().pending_cool() + Seq::<u8>::empty() =~= old(
                        self).store().pending_cool());
                    assert(old(self).store().pending_backup() + Seq::<u8>::empty() =~= old(
                        self).store().pending_backup());
                }
                let payload = if removed {
                    resp_one()
                } else {
                    resp_zero()
                };
                Step::Reply { req_id, payload }
            },
        }
    }

    /// Answers a GET with the value that was read for it, and keeps the value in
    /// memory for the next one.
    pub fn resume(&mut self, read: ColdRead, data: Bytes) -> (r: (u32, Bytes))
        requires
            old(self).wf(),
        ensures
            final(self).wf(),
            r.0 == read.req_id,
            bytes_view(r.1) == bytes_view(data),
            final(self).store().budget() == old(self).store().budget(),
            final(self).store().index() == old(self).store().index(),
            final(self).store().queue() == old(self).store().queue(),
            final(self).store().pending_cool() == old(self).store().pending_cool(),
            final(self).store().pending_backup() == old(self).store().pending_backup(),
            final(self).store().cool_len() == old(self).store().cool_len(),
            final(self).store().cached() == if old(self).store().index().contains_key(
                bytes_view(read.key),
            ) && old(self).store().index()[bytes_view(read.key)] == read.loc && bytes_view(
                data,
            ).len() == read.loc.vlen {
                old(self).store().cached().put(
                    bytes_view(read.key),
                    bytes_view(data),
                    old(self).store().budget(),
                )
            } else {
                old(self).store().cached()
            },
            forall|file: Seq<u8>| #[trigger]
                old(self).backed_by(file) && bytes_view(data) == old(self).store().value_at(
                    file,
                    read.loc,
                ) ==> final(self).backed_by(file) && final(self).contents(file) == old(
                    self).contents(file),
            forall|file: Seq<u8>, t: u64| #[trigger]
                old(self).journaled(file, t) ==> final(self).journaled(file, t),
    {
        let payload = data.clone();
        self.store.refill(read.key, read.loc, data);
        (read.req_id, payload)
    }

    /// Answers a GET whose value could not be read.
    pub fn read_failed(read: ColdRead) -> (r: (u32, Bytes))
        ensures
            r.0 == read.req_id,
            bytes_view(r.1) == ascii("ERR read failed"@),
    {
        proof {
            reveal_strlit("ERR read failed");
        }
        (read.req_id, text_bytes("ERR read failed"))
    }

    /// The periodic sweep: drops keys that have expired at `now`, up to a bound.
    pub fn tick(&mut self, now: u64) -> (done: bool)
        requires
            old(self).wf(),
        ensures
            final(self).wf(),
            final(self).store().budget() == old(self).store().budget(),
            final(self).store().tiers() == old(self).store().tiers().sweep(
                now,
                SWEEP_LIMIT as nat,
            ),
            final(self).store().pending_cool() == old(self).store().pending_cool(),
            final(self).store().pending_backup() == old(self).store().pending_backup(),
            final(self).store().cool_len() == old(self).store().cool_len(),
            forall|key: Seq<u8>| #[trigger]
                final(self).finds(key, now) <==> old(self).finds(key, now),
            done == !has_due(final(self).store().queue(), now),
            done ==> forall|key: Seq<u8>| #[trigger]
                final(self).store().index().contains_key(key) ==> final(self).finds(key, now),
            forall|file: Seq<u8>| #[trigger]
                old(self).backed_by(file) ==> {
                    &&& old(self).leads_to(file, Event::Idle { now }, *final(self), file)
                    &&& final(self).contents(file) == old(self).contents(file).restrict(
                        final(self).store().index().dom(),
                    )
                },
            forall|file: Seq<u8>, t: u64| #[trigger]
                old(self).journaled(file, t) ==> final(self).journaled(file, later(t, now)),
    {
        let done = self.store.sweep(now, SWEEP_LIMIT);
        proof {
            assert forall|key: Seq<u8>| #[trigger] self.finds(key, now) <==> old(self).finds(
                key,
                now,
            ) by {
                if self.store().index().contains_key(key) {
                    assert(old(self).store().index().contains_key(key));
                }
                if old(self).store().index().contains_key(key) {
                    assert(self.store().index().contains_key(key) || expired(
                        old(self).store().index()[key].exp_ms,
                        now,
                    ));
                }
            }
            assert forall|file: Seq<u8>| #[trigger] old(self).backed_by(file) implies same_live(
                old(self).contents(file),
                self.contents(file),
                now,
            ) by {
                let (a, b) = (old(self).contents(file), self.contents(file));
                assert forall|k: Seq<u8>| #[trigger] live(a, k, now) == live(b, k, now) && (live(
                    a,
                    k,
                    now,
                ) ==> a[k] == b[k]) by {
                    assert(self.finds(k, now) <==> old(self).finds(k, now));
                }
            }
        }
        done
    }

    /// Hands over the bytes that `cool.log` still lacks; they have to be on file
    /// before a read.
    pub fn flush_cool(&mut self) -> (bytes: Vec<u8>)
        requires
            old(self).wf(),
        ensures
            final(self).wf(),
            final(self).store().budget() == old(self).store().budget(),
            final(self).store().tiers() == old(self).store().tiers(),
            final(self).store().cool_len() == old(self).store().cool_len(),
            bytes@ == old(self).store().pending_cool(),
            final(self).store().pending_cool() == Seq::<u8>::empty(),
            final(self).store().pending_backup() == old(self).store().pending_backup(),
            forall|file: Seq<u8>| #[trigger]
                old(self).backed_by(file) ==> final(self).backed_by(file + bytes@) && final(
                    self).contents(file + bytes@) == old(self).contents(file),
            forall|file: Seq<u8>, t: u64| #[trigger]
                old(self).journaled(file, t) ==> final(self).journaled(file, t),
    {
        self.store.flush_cool()
    }

    /// Hands over the bytes that both files still lack: `cool.log`, `backup.log`.
    pub fn flush(&mut self) -> (r: (Vec<u8>, Vec<u8>))
        requires
            old(self).wf(),
        ensures
            final(self).wf(),
            final(self).store().budget() == old(self).store().budget(),
            final(self).store().tiers() == old(self).store().tiers(),
            final(self).store().cool_len() == old(self).store().cool_len(),
            r.0@ == old(self).store().pending_cool(),
            r.1@ == old(self).store().pending_backup(),
            final(self).store().pending_cool() == Seq::<u8>::empty(),
            final(self).store().pending_backup() == Seq::<u8>::empty(),
            forall|file: Seq<u8>| #[trigger]
                old(self).backed_by(file) ==> final(self).backed_by(file + r.0@) && final(
                    self).contents(file + r.0@) == old(self).contents(file),
            forall|file: Seq<u8>, t: u64| #[trigger]
                old(self).journaled(file, t) ==> final(self).journaled(file + r.1@, t),
    {
        self.store.flush()
    }
}

/// Restart loses nothing that can still be read: a shard that starts on the two
/// files of another, all of whose bytes were handed over and written, is backed
/// by the same values and answers every command as the other would have.
pub proof fn law_restart_recovers(
    before: State,
    after: State,
    cool: Seq<u8>,
    journal: Seq<u8>,
    t: u64,
    cmd: Command,
    now: u64,
)
    requires
        before.backed_by(cool),
        before.journaled(journal, t),
        before.store().pending_cool() == Seq::<u8>::empty(),
        before.store().pending_backup() == Seq::<u8>::empty(),
        after.store().index() == index_of_records(replayed(journal)),
        after.store().cached() == CacheView::empty(),
        after.store().pending_cool() == Seq::<u8>::empty(),
        after.store().pending_backup() == Seq::<u8>::empty(),
        after.store().cool_len() == cool.len(),
        t <= now,
    ensures
        after.backed_by(cool),
        after.journaled(journal, t),
        before.leads_to(cool, Event::Idle { now: t }, after, cool),
        reply_to(after.contents(cool), cmd, now) == reply_to(before.contents(cool), cmd, now),
{
    assert(before.store().cool(cool) =~= cool);
    assert(after.store().cool(cool) =~= cool);
    assert(before.store().journal(journal) =~= journal);
    assert(after.store().journal(journal) =~= journal);
    let m = after.contents(cool);
    let kept = before.contents(cool);
    let rebuilt = after.store().index();
    assert forall|k: Seq<u8>| #[trigger] kept.contains_key(k) implies m.contains_key(k) && kept[k]
        == m[k] by {
        assert(before.store().index().contains_key(k));
        assert(rebuilt.contains_key(k));
    }
    assert forall|k: Seq<u8>| #[trigger] m.contains_key(k) implies kept.contains_key(k) || expired(
        m[k].exp_ms,
        t,
    ) by {
        assert(rebuilt.contains_key(k));
    }
    assert forall|k: Seq<u8>| #[trigger] live(kept, k, t) == live(m, k, t) && (live(kept, k, t)
        ==> kept[k] == m[k]) by {
        if kept.contains_key(k) {
            assert(m.contains_key(k));
        }
        if m.contains_key(k) {
            assert(kept.contains_key(k) || expired(m[k].exp_ms, t));
        }
    }
    law_dropping_expired_is_invisible(m, kept, t, cmd, now);
}

/// A torn journal loses only its last record: a shard that starts on a journal
/// cut short inside its last record finds the index as it was before that record.
/// With the torn tail cut off, that journal is its journal, so whatever it writes
/// from then on is found at the next start.
pub proof fn law_restart_on_torn_journal(
    after: State,
    journal: Seq<u8>,
    last: Seq<u8>,
    cut: int,
    now: u64,
)
    requires
        whole(journal),
        next_record(last) matches Some((_, n)) && n == last.len(),
        0 <= cut < last.len(),
        ({
            let torn = journal + last.take(cut);
            &&& after.store().index() == index_of_records(replayed(torn))
            &&& after.store().pending_backup() == Seq::<u8>::empty()
            &&& located(after.store().index(), after.store().cool_len())
        }),
    ensures
        whole_len(journal + last.take(cut)) == journal.len(),
        after.store().index() == index_of_records(replayed(journal)),
        after.journaled(journal, now),
{
    law_torn_tail_recovers_rest(journal, last, cut);
    assert(after.store().journal(journal) =~= journal);
}

/// A shard answers as its last writes say: whatever sequence of operations,
/// sweeps, reads, flushes and restarts brought it where it is, a GET answers with
/// what the last write of the key stored, unless that has expired, and a DEL tells
/// whether there is such a value.
pub proof fn law_answers_follow_last_write(
    states: Seq<State>,
    files: Seq<Seq<u8>>,
    events: Seq<Event>,
    key: Seq<u8>,
    now: u64,
)
    requires
        states.len() == events.len() + 1,
        files.len() == states.len(),
        states[0].backed_by(files[0]),
        forall|i: int|
            0 <= i < events.len() ==> states[i].leads_to(
                files[i],
                #[trigger] events[i],
                states[i + 1],
                files[i + 1],
            ),
        in_order(events, now),
    ensures
        states.last().backed_by(files.last()),
        match last_written(states[0].contents(files[0]), events, key) {
            Some(item) if !expired(item.exp_ms, now) => {
                let held = states.last().contents(files.last());
                &&& reply_to(held, Command::Get { key }, now) == item.value
                &&& reply_to(held, Command::Del { key }, now) == one_text()
            },
            _ => {
                let held = states.last().contents(files.last());
                &&& reply_to(held, Command::Get { key }, now) == nil_text()
                &&& reply_to(held, Command::Del { key }, now) == zero_text()
            },
        },
{
    let maps = Seq::new(states.len(), |i: int| states[i].contents(files[i]));
    assert forall|i: int| 0 <= i < events.len() implies (#[trigger] events[i]).leads(
        maps[i],
        maps[i + 1],
    ) by {
        assert(states[i].leads_to(files[i], events[i], states[i + 1], files[i + 1]));
    }
    law_last_write_decides(maps, events, key, now);
    if events.len() > 0 {
        let n = events.len() - 1;
        assert(states[n].leads_to(files[n], events[n], states[n + 1], files[n + 1]));
    }
}

/// A shard that starts on no files holds nothing, and is backed by them.
pub proof fn law_fresh_start_is_empty(state: State)
    requires
        state.store().index() == index_of_records(replayed(Seq::empty())),
        state.store().cached() == CacheView::empty(),
        state.store().pending_cool() == Seq::<u8>::empty(),
        state.store().pending_backup() == Seq::<u8>::empty(),
        state.store().cool_len() == 0,
    ensures
        state.backed_by(Seq::empty()),
        state.journaled(Seq::empty(), 0),
        state.contents(Seq::empty()) == Map::<Seq<u8>, Item>::empty(),
{
    let none = Seq::<u8>::empty();
    assert(state.store().cool(none) =~= none);
    assert(state.store().journal(none) =~= none);
    assert(replayed(none) =~= Seq::empty());
    assert(state.store().index() =~= Map::empty());
    assert(state.contents(none) =~= Map::empty());
}

/// Eviction is lossless: two states with the same index and the same log hold the
/// same, whichever values they keep in memory.
pub proof fn law_eviction_is_lossless(a: State, b: State, file: Seq<u8>, cmd: Command, now: u64)
    requires
        a.store().index() == b.store().index(),
        a.store().pending_cool() == b.store().pending_cool(),
    ensures
        a.contents(file) == b.contents(file),
        reply_to(a.contents(file), cmd, now) == reply_to(b.contents(file), cmd, now),
{
    assert(a.store().cool(file) == b.store().cool(file));
    assert(a.contents(file) =~= b.contents(file));
}

/// How long the records of a command are.
proof fn lemma_record_lengths(cmd: Command)
    ensures
        forall|exp_ms: u64| #[trigger]
            cool_put(cmd.key(), cmd.value(), exp_ms).len() == COOL_SET_HEADER + cmd.key().len()
                + cmd.value().len(),
        del_record(cmd.key()).len() == 3 + cmd.key().len(),
{
    assert forall|exp_ms: u64| #[trigger]
        cool_put(cmd.key(), cmd.value(), exp_ms).len() == COOL_SET_HEADER + cmd.key().len()
        + cmd.value().len() by {
        crate::shards::disk::lemma_cool_put_len(cmd.key(), cmd.value(), exp_ms);
    }
    crate::shards::disk::lemma_del_record_len(cmd.key());
}

/// A write goes to both files before it is answered: a SET or a SETEX with its key,
/// its value, where the value lies and when it expires, a DEL with its key where it
/// removes anything, and nothing for a GET.
pub proof fn law_write_through(
    state: State,
    key: Seq<u8>,
    value: Seq<u8>,
    ttl_ms: u32,
    now: u64,
)
    requires
        state.store().cool_len() + 15 + key.len() + value.len() <= u64::MAX,
        value.len() <= u32::MAX,
    ensures
        ({
            let off = (state.store().cool_len() + 15 + key.len()) as u64;
            let put = Command::Put { key, value };
            let forever = Location { val_off: off, vlen: value.len() as u32, exp_ms: 0 };
            &&& state.cool_record(put, now) == cool_put(key, value, 0)
            &&& state.backup_record(put, now) == backup_put(key, forever)
            &&& state.index_after(put, now) == state.store().index().insert(key, forever)
        }),
        ({
            let off = (state.store().cool_len() + 15 + key.len()) as u64;
            let setex = Command::SetEx { key, value, ttl_ms };
            let exp_ms = deadline(now, ttl_ms);
            let loc = Location { val_off: off, vlen: value.len() as u32, exp_ms };
            &&& state.cool_record(setex, now) == cool_put(key, value, exp_ms)
            &&& state.backup_record(setex, now) == backup_put(key, loc)
            &&& state.index_after(setex, now) == state.store().index().insert(key, loc)
        }),
        ({
            let del = Command::Del { key };
            let there = state.store().index().contains_key(key) && !expired(
                state.store().index()[key].exp_ms,
                now,
            );
            &&& there ==> state.cool_record(del, now) == del_record(key)
            &&& there ==> state.backup_record(del, now) == del_record(key)
            &&& !there ==> state.cool_record(del, now).len() == 0
            &&& !there ==> state.backup_record(del, now).len() == 0
            &&& state.index_after(del, now) == state.store().index().remove(key)
        }),
        state.cool_record(Command::Get { key }, now).len() == 0,
        state.backup_record(Command::Get { key }, now).len() == 0,
{
}

/// What is kept in memory: a value that is written or read is the one used last, a
/// deleted or expired one goes, and every other stays as it is.
pub proof fn law_memory_follows_the_commands(
    state: State,
    key: Seq<u8>,
    value: Seq<u8>,
    ttl_ms: u32,
    now: u64,
)
    ensures
        ({
            let cached = state.store().cached();
            let budget = state.store().budget();
            let there = state.store().index().contains_key(key) && !expired(
                state.store().index()[key].exp_ms,
                now,
            );
            &&& state.cached_after(Command::Put { key, value }, now) == cached.put(
                key,
                value,
                budget,
            )
            &&& state.cached_after(Command::SetEx { key, value, ttl_ms }, now) == cached.put(
                key,
                value,
                budget,
            )
            &&& state.cached_after(Command::Del { key }, now) == cached.remove(key)
            &&& there && cached.values.contains_key(key) ==> state.cached_after(
                Command::Get { key },
                now,
            ) == cached.touch(key)
            &&& there && !cached.values.contains_key(key) ==> state.cached_after(
                Command::Get { key },
                now,
            ) == cached
            &&& !there ==> state.cached_after(Command::Get { key }, now) == cached.remove(key)
        }),
{
}

/// What is queued for expiry: the key of a SETEX for the time at which it is over,
/// and nothing by any other command.
pub proof fn law_queue_follows_the_commands(
    state: State,
    key: Seq<u8>,
    value: Seq<u8>,
    ttl_ms: u32,
    now: u64,
)
    ensures
        ({
            let queue = state.store().queue();
            let exp_ms = deadline(now, ttl_ms);
            let setex = Command::SetEx { key, value, ttl_ms };
            &&& exp_ms != 0 ==> state.queue_after(setex, now) == queued(queue, exp_ms, key)
            &&& exp_ms == 0 ==> state.queue_after(setex, now) == queue
            &&& state.queue_after(Command::Put { key, value }, now) == queue
            &&& state.queue_after(Command::Get { key }, now) == queue
            &&& state.queue_after(Command::Del { key }, now) == queue
        }),
        SWEEP_LIMIT == 1024,
{
}

/// What a GET does to the index: a key that is found stays, an expired one goes.
pub proof fn law_get_and_the_index(state: State, key: Seq<u8>, now: u64)
    ensures
        ({
            let index = state.store().index();
            let there = index.contains_key(key) && !expired(index[key].exp_ms, now);
            &&& state.finds(key, now) <==> there
            &&& there ==> state.index_after(Command::Get { key }, now) == index
            &&& !there ==> state.index_after(Command::Get { key }, now) == index.remove(key)
        }),
{
}

/// What fits the log: a GET always, and a write whose key and value fit their length
/// fields, as long as the log can grow.
pub proof fn law_room_in_the_log(state: State, cmd: Command)
    ensures
        state.has_room(cmd) <==> cmd is Get || (cmd.key().len() <= 65535 && cmd.value().len()
            <= 0xffff_ffff && state.store().cool_len() + 15 + cmd.key().len() + cmd.value().len()
            <= u64::MAX),
{
}

/// What it means that an event leads from a state to another: what the shard holds
/// changes as the event says, and the log still backs it.
pub proof fn law_leading(
    state: State,
    file: Seq<u8>,
    event: Event,
    after: State,
    file_after: Seq<u8>,
)
    ensures
        state.leads_to(file, event, after, file_after) <==> after.store().backed_by(file_after)
            && event.leads(state.store().contents(file), after.store().contents(file_after)),
        state.backed_by(file) <==> state.store().backed_by(file),
        state.contents(file) == state.store().contents(file),
{
}

} // verus!
