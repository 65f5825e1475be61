//! The tiered store of a shard: an index of every key, a cache of hot values, a
//! queue of expiry times, and the log that every write goes to first.

use bytes::Bytes;
use vstd::prelude::*;

use crate::buffer::{as_slice, bytes_view};
use crate::shards::cache::{Cache, CacheView, HIGH_WATER};
use crate::shards::disk::{
    backup_put, cool_put, del_record, index_after, index_of_records, law_append_keeps_earlier,
    law_read_back, law_replay_sees_del, law_replay_sees_set, lemma_cool_put_len,
    lemma_del_record_len, lemma_whole_len, records, replayed, whole, whole_len, Disk, IndexRecord,
    Location, Record, COOL_SET_HEADER,
};
use crate::shards::expiry::{has_due, queued, Expiry};
use crate::shards::map::ByteMap;
use crate::shards::model::{expired, live, map_after, Item};
use crate::utils::Command;

verus! {

/// Where a key's value was found.
#[derive(Debug)]
pub enum Lookup {
    /// In the cache.
    Hit(Bytes),
    /// In `cool.log` only.
    Cold(Location),
    /// Nowhere: the key is unknown or has expired.
    Miss,
}

/// One shard's data.
pub struct Store {
    index: ByteMap<Location>,
    cache: Cache,
    expiry: Expiry,
    disk: Disk,
}

/// Whether every location of an index lies in a log of `cool_len` bytes.
pub open spec fn located(index: Map<Seq<u8>, Location>, cool_len: u64) -> bool {
    forall|k: Seq<u8>| #[trigger]
        index.contains_key(k) ==> index[k].val_off + index[k].vlen <= cool_len
}

/// The later of two times.
pub open spec fn later(a: u64, b: u64) -> u64 {
    if a < b {
        b
    } else {
        a
    }
}

/// Whether `e` is the earliest time in a queue.
pub open spec fn is_earliest(queue: Map<u64, Seq<Seq<u8>>>, e: u64) -> bool {
    queue.contains_key(e) && forall|t: u64| #[trigger] queue.contains_key(t) ==> e <= t
}

/// The queue that a list of records builds: every set with an expiry time queues
/// its key, in order.
pub open spec fn queue_of_records(rs: Seq<Record>) -> Map<u64, Seq<Seq<u8>>>
    decreases rs.len(),
{
    if rs.len() == 0 {
        Map::empty()
    } else {
        let before = queue_of_records(rs.drop_last());
        match rs.last() {
            Record::Put { key, loc } if loc.exp_ms != 0 => queued(before, loc.exp_ms, key),
            _ => before,
        }
    }
}

/// A queue without the key taken out of the bucket at `e`.
pub open spec fn queue_popped(queue: Map<u64, Seq<Seq<u8>>>, e: u64) -> Map<u64, Seq<Seq<u8>>> {
    if queue[e].len() == 1 {
        queue.remove(e)
    } else {
        queue.insert(e, queue[e].drop_last())
    }
}

/// What a sweep works on.
#[verifier::ext_equal]
pub struct SweepView {
    pub index: Map<Seq<u8>, Location>,
    pub cached: CacheView,
    pub queue: Map<u64, Seq<Seq<u8>>>,
}

impl SweepView {
    /// After a look at the key that was queued last for the time `e`: the key goes
    /// if that is still its expiry time.
    pub open spec fn step(self, e: u64) -> SweepView {
        let key = self.queue[e].last();
        if self.index.contains_key(key) && self.index[key].exp_ms == e {
            SweepView {
                index: self.index.remove(key),
                cached: self.cached.remove(key),
                queue: queue_popped(self.queue, e),
            }
        } else {
            SweepView { queue: queue_popped(self.queue, e), ..self }
        }
    }

    /// After up to `limit` looks at keys whose time has come, earliest first.
    pub open spec fn sweep(self, now: u64, limit: nat) -> SweepView
        decreases limit,
    {
        if limit == 0 || !has_due(self.queue, now) {
            self
        } else {
            self.step(choose|e: u64| is_earliest(self.queue, e)).sweep(now, (limit - 1) as nat)
        }
    }
}

impl Store {
    /// Where each key's value lies, and when it expires.
    pub closed spec fn index(&self) -> Map<Seq<u8>, Location> {
        self.index@
    }

    /// The values in memory.
    pub closed spec fn cached(&self) -> CacheView {
        self.cache@
    }

    /// The byte budget of the values in memory.
    pub closed spec fn budget(&self) -> u64 {
        self.cache.spec_budget()
    }

    /// The keys queued for expiry.
    pub closed spec fn queue(&self) -> Map<u64, Seq<Seq<u8>>> {
        self.expiry@
    }

    /// Index, cache and queue.
    pub open spec fn tiers(&self) -> SweepView {
        SweepView { index: self.index(), cached: self.cached(), queue: self.queue() }
    }

    /// Bytes appended to `cool.log` and not handed over yet.
    pub closed spec fn pending_cool(&self) -> Seq<u8> {
        self.disk.pending_cool()
    }

    /// Bytes appended to `backup.log` and not handed over yet.
    pub closed spec fn pending_backup(&self) -> Seq<u8> {
        self.disk.pending_backup()
    }

    /// The length of `cool.log`, appended bytes and all.
    pub closed spec fn cool_len(&self) -> u64 {
        self.disk.spec_cool_len()
    }

    /// Only indexed keys are cached, and every key that will expire is queued.
    pub closed spec fn wf(&self) -> bool {
        &&& self.index.wf()
        &&& self.cache.wf()
        &&& self.expiry.wf()
        &&& !self.queue().contains_key(0)
        &&& forall|k: Seq<u8>| #[trigger]
            self.cached().values.contains_key(k) ==> self.index().contains_key(k)
        &&& forall|k: Seq<u8>| #[trigger]
            self.index().contains_key(k) && self.index()[k].exp_ms != 0 ==> self.expiry.scheduled(
                self.index()[k].exp_ms,
                k,
            )
    }

    /// What `cool.log` holds once everything is written, given what the file
    /// holds.
    pub open spec fn cool(&self, file: Seq<u8>) -> Seq<u8> {
        file + self.pending_cool()
    }

    /// What `backup.log` holds once everything is written, given what the file
    /// holds.
    pub open spec fn journal(&self, file: Seq<u8>) -> Seq<u8> {
        file + self.pending_backup()
    }

    /// The value at a location of `cool.log`.
    pub open spec fn value_at(&self, file: Seq<u8>, loc: Location) -> Seq<u8> {
        self.cool(file).subrange(loc.val_off as int, loc.val_off + loc.vlen)
    }

    /// Whether `cool.log`, with these contents on file, backs the store: every
    /// indexed value lies in it, and the cache agrees with it.
    pub open spec fn backed_by(&self, file: Seq<u8>) -> bool {
        &&& self.cool(file).len() == self.cool_len()
        &&& located(self.index(), self.cool_len())
        &&& forall|k: Seq<u8>| #[trigger]
            self.cached().values.contains_key(k) ==> self.cached().values[k] == self.value_at(
                file,
                self.index()[k],
            )
    }

    /// What the store holds, given what is on file.
    pub open spec fn contents(&self, file: Seq<u8>) -> Map<Seq<u8>, Item> {
        self.index().map_values(
            |loc: Location| Item { value: self.value_at(file, loc), exp_ms: loc.exp_ms },
        )
    }

    /// Whether `backup.log`, with these contents on file, is the journal of the
    /// store: replay builds the index, but for keys that had expired by `now`, and
    /// all that it finds lies in `cool.log`.
    pub open spec fn journaled(&self, file: Seq<u8>, now: u64) -> bool {
        let rebuilt = index_of_records(replayed(self.journal(file)));
        &&& whole(self.journal(file))
        &&& forall|k: Seq<u8>| #[trigger]
            self.index().contains_key(k) ==> rebuilt.contains_key(k) && rebuilt[k]
                == self.index()[k]
        &&& forall|k: Seq<u8>| #[trigger]
            rebuilt.contains_key(k) ==> rebuilt[k].val_off + rebuilt[k].vlen <= self.cool_len()
                && (self.index().contains_key(k) || expired(rebuilt[k].exp_ms, now))
    }

    /// Whether a key and a value of these lengths fit the record format and what
    /// is left of the log's address space.
    pub open spec fn has_room(&self, key_len: nat, value_len: nat) -> bool {
        &&& key_len <= u16::MAX
        &&& value_len <= u32::MAX
        &&& self.cool_len() + COOL_SET_HEADER + key_len + value_len <= u64::MAX
    }

    /// The values in memory stay below the high-water mark of the budget.
    pub proof fn lemma_memory_is_bounded(&self)
        requires
            self.wf(),
        ensures
            self.cached().bytes() * 100 <= self.budget() * HIGH_WATER,
    {
        self.cache.law_within_budget();
    }

    /// Starts on files that exist already: `cool_len` bytes of `cool.log`, and the
    /// contents of `backup.log`. Values stay on file until they are read.
    pub fn open(cool_len: u64, backup: &[u8], budget: u64) -> (r: Self)
        ensures
            r.wf(),
            r.index() == index_of_records(replayed(backup@)),
            r.cached() == CacheView::empty(),
            r.queue() == queue_of_records(replayed(backup@)),
            r.budget() == budget,
            r.pending_cool() == Seq::<u8>::empty(),
            r.pending_backup() == Seq::<u8>::empty(),
            r.cool_len() == cool_len,
            located(r.index(), cool_len) ==> forall|now: u64| #[trigger]
                r.journaled(backup@.take(whole_len(backup@) as int), now),
            located(r.index(), cool_len) ==> forall|file: Seq<u8>|
                file.len() == cool_len ==> #[trigger] r.backed_by(file),
    {
        let (disk, found) = Disk::open(cool_len, backup);
        let mut index: ByteMap<Location> = ByteMap::new();
        let mut expiry = Expiry::new();
        let ghost rs = records(found@);
        let mut i: usize = 0;
        assert(rs.take(0) =~= Seq::empty());
        while i < found.len()
            invariant
                i <= found@.len(),
                rs == records(found@),
                index.wf(),
                expiry.wf(),
                !expiry@.contains_key(0),
                index@ == index_of_records(rs.take(i as int)),
                expiry@ == queue_of_records(rs.take(i as int)),
                forall|k: Seq<u8>| #[trigger]
                    index@.contains_key(k) && index@[k].exp_ms != 0 ==> expiry.scheduled(
                        index@[k].exp_ms,
                        k,
                    ),
            decreases found@.len() - i,
        {
            let ghost queue = expiry@;
            assert(rs.take(i + 1).drop_last() =~= rs.take(i as int));
            assert(rs.take(i + 1).last() == found@[i as int]@);
            match &found[i] {
                IndexRecord::Put { key, val_off, vlen, exp_ms } => {
                    let loc = Location { val_off: *val_off, vlen: *vlen, exp_ms: *exp_ms };
                    index.insert(key.clone(), loc);
                    if *exp_ms != 0 {
                        expiry.schedule(*exp_ms, key.clone());
                        proof {
                            lemma_scheduled(queue, expiry@, *exp_ms, bytes_view(*key));
                        }
                    }
                },
                IndexRecord::Del { key } => {
                    index.remove(as_slice(key));
                },
            }
            i = i + 1;
        }
        assert(rs.take(rs.len() as int) =~= rs);
        let r = Store { index, cache: Cache::new(budget), expiry, disk };
        proof {
            let kept = backup@.take(whole_len(backup@) as int);
            lemma_whole_len(backup@);
            assert(r.journal(kept) =~= kept);
            assert forall|file: Seq<u8>|
                located(r.index(), cool_len) && file.len() == cool_len implies #[trigger] r.backed_by(
                file,
            ) by {
                assert(r.cool(file) =~= file);
            }
        }
        r
    }

    /// The length of `cool.log`, appended bytes and all.
    pub fn log_len(&self) -> (n: u64)
        ensures
            n == self.cool_len(),
    {
        self.disk.cool_len()
    }

    /// Looks `key` up at `now`. A cached value counts as used; an expired key is
    /// dropped.
    pub fn get(&mut self, key: &Bytes, now: u64) -> (r: Lookup)
        requires
            old(self).wf(),
        ensures
            final(self).wf(),
            final(self).budget() == old(self).budget(),
            final(self).queue() == old(self).queue(),
            final(self).pending_cool() == old(self).pending_cool(),
            final(self).pending_backup() == old(self).pending_backup(),
            final(self).cool_len() == old(self).cool_len(),
            ({
                let k = bytes_view(*key);
                let found = old(self).index().contains_key(k) && !expired(
                    old(self).index()[k].exp_ms,
                    now,
                );
                match r {
                    Lookup::Hit(v) => {
                        &&& found
                        &&& old(self).cached().values.contains_key(k)
                        &&& bytes_view(v) == old(self).cached().values[k]
                        &&& final(self).index() == old(self).index()
                        &&& final(self).cached() == old(self).cached().touch(k)
                    },
                    Lookup::Cold(loc) => {
                        &&& found
                        &&& !old(self).cached().values.contains_key(k)
                        &&& loc == old(self).index()[k]
                        &&& final(self).index() == old(self).index()
                        &&& final(self).cached() == old(self).cached()
                    },
                    Lookup::Miss => {
                        &&& !found
                        &&& final(self).index() == old(self).index().remove(k)
                        &&& final(self).cached() == old(self).cached().remove(k)
                    },
                }
            }),
            forall|file: Seq<u8>| #[trigger]
                old(self).backed_by(file) ==> {
                    let k = bytes_view(*key);
                    let before = old(self).contents(file);
                    &&& final(self).backed_by(file)
                    &&& final(self).contents(file) == map_after(before, Command::Get { key: k }, now)
                    &&& match r {
                        Lookup::Hit(v) => live(before, k, now) && bytes_view(v) == before[k].value,
                        Lookup::Cold(loc) => live(before, k, now) && old(self).value_at(file, loc)
                            == before[k].value,
                        Lookup::Miss => !live(before, k, now),
                    }
                },
            forall|file: Seq<u8>, t: u64| #[trigger]
                old(self).journaled(file, t) ==> final(self).journaled(file, later(t, now)),
    {
        let ghost k = bytes_view(*key);
        let entry: Option<Location> = match self.index.get(as_slice(key)) {
            Some(loc) => Some(*loc),
            None => None,
        };
        match entry {
            None => {
                proof {
                    assert(self.index().remove(k) =~= self.index());
                    self.lemma_uncached(k);
                    assert forall|file: Seq<u8>, t: u64| #[trigger]
                        old(self).journaled(file, t) implies self.journaled(
                        file,
                        later(t, now),
                    ) by {
                        lemma_journal_kept(*old(self), *self, file, t, later(t, now));
                    }
                    assert forall|file: Seq<u8>| #[trigger] old(self).backed_by(file) implies self.contents(
                        file,
                    ) == map_after(old(self).contents(file), Command::Get { key: k }, now) by {
                        assert(self.contents(file) =~= old(self).contents(file).remove(k));
                    }
                }
                Lookup::Miss
            },
            Some(loc) => {
                if loc.exp_ms != 0 && loc.exp_ms <= now {
                    self.drop_key(as_slice(key));
                    proof {
                        assert forall|file: Seq<u8>, t: u64| #[trigger]
                            old(self).journaled(file, t) implies self.journaled(
                            file,
                            later(t, now),
                        ) by {
                            lemma_journal_dropped(*old(self), *self, k, file, t, now);
                        }
                    }
                    Lookup::Miss
                } else {
                    let hit = self.cache.get(key);
                    proof {
                        assert(self.cached().values == old(self).cached().values);
                        assert forall|x: Seq<u8>| #[trigger]
                            self.cached().values.contains_key(x) implies self.index().contains_key(
                            x,
                        ) by {
                            assert(old(self).cached().values.contains_key(x));
                        }
                        assert forall|x: Seq<u8>| #[trigger]
                            self.index().contains_key(x) implies old(self).index().contains_key(
                            x,
                        ) by {}
                        assert forall|file: Seq<u8>| #[trigger]
                            old(self).backed_by(file) implies self.backed_by(file)
                            && self.contents(file) == old(self).contents(file) by {
                            assert(self.cool(file) == old(self).cool(file));
                            assert(self.contents(file) =~= old(self).contents(file));
                        }
                        assert forall|file: Seq<u8>, t: u64| #[trigger]
                            old(self).journaled(file, t) implies self.journaled(
                            file,
                            later(t, now),
                        ) by {
                            lemma_journal_kept(*old(self), *self, file, t, later(t, now));
                        }
                    }
                    match hit {
                        Some(v) => Lookup::Hit(v),
                        None => Lookup::Cold(loc),
                    }
                }
            },
        }
    }

    /// Takes in the value that was read from `cool.log` for a [`Lookup::Cold`], so
    /// that the next look at the key finds it in memory. Data for a location that
    /// is no longer the key's, or of another length, is left aside.
    pub fn refill(&mut self, key: Bytes, loc: Location, data: Bytes)
        requires
            old(self).wf(),
        ensures
            final(self).wf(),
            final(self).budget() == old(self).budget(),
            final(self).queue() == old(self).queue(),
            final(self).pending_cool() == old(self).pending_cool(),
            final(self).pending_backup() == old(self).pending_backup(),
            final(self).cool_len() == old(self).cool_len(),
            final(self).index() == old(self).index(),
            final(self).cached() == if old(self).index().contains_key(bytes_view(key)) && old(self).index()[bytes_view(key)] == loc && bytes_view(data).len() == loc.vlen {
                old(self).cached().put(bytes_view(key), bytes_view(data), old(self).budget())
            } else {
                old(self).cached()
            },
            forall|file: Seq<u8>| #[trigger]
                old(self).backed_by(file) && bytes_view(data) == old(self).value_at(file, loc) ==> {
                    &&& final(self).backed_by(file)
                    &&& final(self).contents(file) == old(self).contents(file)
                },
            forall|file: Seq<u8>, t: u64| #[trigger]
                old(self).journaled(file, t) ==> final(self).journaled(file, t),
    {
        let ghost k = bytes_view(key);
        let ghost x = bytes_view(data);
        let current: bool = match self.index.get(as_slice(&key)) {
            Some(l) => *l == loc,
            None => false,
        };
        if current && data.len() == loc.vlen as usize {
            self.cache.put(key, data);
            proof {
                lemma_put_values(old(self).cached(), k, x, old(self).budget());
                assert forall|y: Seq<u8>| #[trigger] self.cached().values.contains_key(y) implies {
                    &&& self.index().contains_key(y)
                    &&& self.cached().values[y] == if y == k {
                        x
                    } else {
                        old(self).cached().values[y]
                    }
                    &&& y != k ==> old(self).cached().values.contains_key(y)
                } by {
                    assert(y != k ==> old(self).cached().values.contains_key(y));
                }
                assert forall|y: Seq<u8>| #[trigger] self.index().contains_key(y) implies old(self).index().contains_key(y) by {}
            }
        }
        proof {
            assert forall|file: Seq<u8>| #[trigger]
                old(self).backed_by(file) && x == old(self).value_at(
                    file,
                    loc,
                ) implies self.backed_by(file) && self.contents(file) == old(self).contents(
                file,
            ) by {
                assert(self.cool(file) == old(self).cool(file));
                assert(self.contents(file) =~= old(self).contents(file));
            }
            assert forall|file: Seq<u8>, t: u64| #[trigger]
                old(self).journaled(file, t) implies self.journaled(file, t) by {
                lemma_journal_kept(*old(self), *self, file, t, t);
            }
        }
    }

    /// Stores `value` under `key`: log first, then index, then cache. `exp_ms` is
    /// the expiry time, `0` for never.
    pub fn put(&mut self, key: Bytes, value: Bytes, exp_ms: u64)
        requires
            old(self).wf(),
            old(self).has_room(bytes_view(key).len(), bytes_view(value).len()),
        ensures
            final(self).wf(),
            final(self).budget() == old(self).budget(),
            final(self).pending_cool() == old(self).pending_cool() + cool_put(
                bytes_view(key),
                bytes_view(value),
                exp_ms,
            ),
            final(self).cool_len() == old(self).cool_len() + COOL_SET_HEADER + bytes_view(key).len()
                + bytes_view(value).len(),
            ({
                let loc = Location {
                    val_off: (old(self).cool_len() + COOL_SET_HEADER + bytes_view(
                        key,
                    ).len()) as u64,
                    vlen: bytes_view(value).len() as u32,
                    exp_ms,
                };
                &&& final(self).index() == old(self).index().insert(bytes_view(key), loc)
                &&& final(self).pending_backup() == old(self).pending_backup() + backup_put(
                    bytes_view(key),
                    loc,
                )
            }),
            final(self).cached() == old(self).cached().put(
                bytes_view(key),
                bytes_view(value),
                old(self).budget(),
            ),
            final(self).queue() == if exp_ms == 0 {
                old(self).queue()
            } else {
                queued(old(self).queue(), exp_ms, bytes_view(key))
            },
            forall|file: Seq<u8>| #[trigger]
                old(self).backed_by(file) ==> {
                    &&& final(self).backed_by(file)
                    &&& final(self).contents(file) == old(self).contents(file).insert(
                        bytes_view(key),
                        Item { value: bytes_view(value), exp_ms },
                    )
                },
            forall|file: Seq<u8>, t: u64| #[trigger]
                old(self).journaled(file, t) ==> final(self).journaled(file, t),
    {
        let ghost k = bytes_view(key);
        let ghost x = bytes_view(value);
        let ghost queue = self.expiry@;
        let vlen: u32 = value.len() as u32;
        let val_off: u64 = match self.disk.append_set(as_slice(&key), as_slice(&value), exp_ms) {
            Ok(off) => off,
            Err(_) => {
                assert(false);
                0
            },
        };
        let loc = Location { val_off, vlen, exp_ms };
        self.index.insert(key.clone(), loc);
        if exp_ms != 0 {
            self.expiry.schedule(exp_ms, key.clone());
            proof {
                lemma_scheduled(queue, self.expiry@, exp_ms, k);
            }
        }
        self.cache.put(key, value);
        proof {
            lemma_put_values(old(self).cached(), k, x, old(self).budget());
            assert forall|y: Seq<u8>| #[trigger] self.cached().values.contains_key(y) implies {
                &&& self.index().contains_key(y)
                &&& self.cached().values[y] == if y == k {
                    x
                } else {
                    old(self).cached().values[y]
                }
                &&& y != k ==> old(self).cached().values.contains_key(y)
                &&& y != k ==> self.index()[y] == old(self).index()[y]
            } by {
                assert(y != k ==> old(self).cached().values.contains_key(y));
            }
            assert forall|y: Seq<u8>| #[trigger]
                self.index().contains_key(y) && self.index()[y].exp_ms
                != 0 implies self.expiry.scheduled(self.index()[y].exp_ms, y) by {
                if y != k {
                    assert(old(self).index().contains_key(y));
                    assert(old(self).expiry.scheduled(self.index()[y].exp_ms, y));
                    assert(queue[self.index()[y].exp_ms].contains(y));
                }
            }
            assert forall|file: Seq<u8>| #[trigger] old(self).backed_by(file) implies self.backed_by(
                file,
            ) && self.contents(file) == old(self).contents(file).insert(
                k,
                Item { value: x, exp_ms },
            ) by {
                lemma_backed_after_put(*old(self), *self, file, k, x, exp_ms);
            }
            assert forall|file: Seq<u8>, t: u64| #[trigger]
                old(self).journaled(file, t) implies self.journaled(file, t) by {
                let before = old(self).journal(file);
                assert(self.journal(file) =~= before + backup_put(k, loc));
                law_replay_sees_set(before, k, loc);
                lemma_rebuilt_push(replayed(before), Record::Put { key: k, loc });
                lemma_journal_after(*old(self), *self, file, t, Record::Put { key: k, loc });
            }
        }
    }

    /// Removes `key` at `now`; says whether it was there to be read. A delete that
    /// finds something is logged; an expired key is just dropped.
    pub fn delete(&mut self, key: &Bytes, now: u64) -> (removed: bool)
        requires
            old(self).wf(),
            old(self).has_room(bytes_view(*key).len(), 0),
        ensures
            final(self).wf(),
            final(self).budget() == old(self).budget(),
            final(self).queue() == old(self).queue(),
            removed == (old(self).index().contains_key(bytes_view(*key)) && !expired(
                old(self).index()[bytes_view(*key)].exp_ms,
                now,
            )),
            final(self).index() == old(self).index().remove(bytes_view(*key)),
            final(self).cached() == old(self).cached().remove(bytes_view(*key)),
            final(self).pending_cool() == if removed {
                old(self).pending_cool() + del_record(bytes_view(*key))
            } else {
                old(self).pending_cool()
            },
            final(self).pending_backup() == if removed {
                old(self).pending_backup() + del_record(bytes_view(*key))
            } else {
                old(self).pending_backup()
            },
            final(self).cool_len() == if removed {
                old(self).cool_len() + 3 + bytes_view(*key).len()
            } else {
                old(self).cool_len() as int
            },
            forall|file: Seq<u8>| #[trigger]
                old(self).backed_by(file) ==> {
                    &&& final(self).backed_by(file)
                    &&& final(self).contents(file) == old(self).contents(file).remove(
                        bytes_view(*key),
                    )
                    &&& removed == live(old(self).contents(file), bytes_view(*key), now)
                },
            forall|file: Seq<u8>, t: u64| #[trigger]
                old(self).journaled(file, t) ==> final(self).journaled(file, later(t, now)),
    {
        let ghost k = bytes_view(*key);
        let entry: Option<Location> = match self.index.get(as_slice(key)) {
            Some(loc) => Some(*loc),
            None => None,
        };
        let removed: bool = match entry {
            Some(loc) => !(loc.exp_ms != 0 && loc.exp_ms <= now),
            None => false,
        };
        self.drop_key(as_slice(key));
        let ghost dropped = *self;
        if removed {
            let _ = self.disk.append_del(as_slice(key));
        }
        proof {
            assert forall|file: Seq<u8>| #[trigger] old(self).backed_by(file) implies self.backed_by(
                file,
            ) && self.contents(file) == old(self).contents(file).remove(k) by {
                if removed {
                    lemma_del_record_len(k);
                    lemma_backed_after_append(dropped, *self, file, del_record(k));
                }
            }
            assert forall|file: Seq<u8>, t: u64| #[trigger]
                old(self).journaled(file, t) implies self.journaled(file, later(t, now)) by {
                if removed {
                    let before = old(self).journal(file);
                    assert(self.journal(file) =~= before + del_record(k));
                    law_replay_sees_del(before, k);
                    lemma_rebuilt_push(replayed(before), Record::Del { key: k });
                    lemma_journal_after(*old(self), *self, file, t, Record::Del { key: k });
                    lemma_journal_kept(*self, *self, file, t, later(t, now));
                } else {
                    lemma_journal_dropped(*old(self), *self, k, file, t, now);
                }
            }
        }
        removed
    }

    /// Looks at up to `limit` keys whose expiry time has come at `now`, earliest
    /// first, and drops those that have indeed expired. Says whether none is left
    /// to look at.
    pub fn sweep(&mut self, now: u64, limit: usize) -> (done: bool)
        requires
            old(self).wf(),
        ensures
            final(self).wf(),
            final(self).budget() == old(self).budget(),
            final(self).pending_cool() == old(self).pending_cool(),
            final(self).pending_backup() == old(self).pending_backup(),
            final(self).cool_len() == old(self).cool_len(),
            final(self).tiers() == old(self).tiers().sweep(now, limit as nat),
            done == !has_due(final(self).queue(), now),
            forall|k: Seq<u8>| #[trigger]
                old(self).index().contains_key(k) ==> (final(self).index().contains_key(k)
                    && final(self).index()[k] == old(self).index()[k]) || expired(
                    old(self).index()[k].exp_ms,
                    now,
                ),
            forall|k: Seq<u8>| #[trigger]
                final(self).index().contains_key(k) ==> old(self).index().contains_key(k)
                    && final(self).index()[k] == old(self).index()[k],
            done ==> forall|k: Seq<u8>| #[trigger]
                final(self).index().contains_key(k) ==> !expired(
                    final(self).index()[k].exp_ms,
                    now,
                ),
            forall|file: Seq<u8>| #[trigger]
                old(self).backed_by(file) ==> {
                    &&& final(self).backed_by(file)
                    &&& final(self).contents(file) == old(self).contents(file).restrict(
                        final(self).index().dom(),
                    )
                },
            forall|file: Seq<u8>, t: u64| #[trigger]
                old(self).journaled(file, t) ==> final(self).journaled(file, later(t, now)),
    {
        let mut i: usize = 0;
        proof {
            assert forall|file: Seq<u8>| #[trigger] old(self).backed_by(file) implies self.contents(
                file,
            ) == old(self).contents(file).restrict(self.index().dom()) by {
                assert(self.contents(file) =~= old(self).contents(file).restrict(
                    self.index().dom(),
                ));
            }
            assert forall|file: Seq<u8>, t: u64| #[trigger]
                old(self).journaled(file, t) implies self.journaled(file, later(t, now)) by {
                lemma_journal_kept(*old(self), *self, file, t, later(t, now));
            }
        }
        while i < limit
            invariant
                i <= limit,
                self.wf(),
                self.budget() == old(self).budget(),
                self.disk == old(self).disk,
                self.tiers().sweep(now, (limit - i) as nat) == old(self).tiers().sweep(
                    now,
                    limit as nat,
                ),
                forall|k: Seq<u8>| #[trigger]
                    old(self).index().contains_key(k) ==> (self.index().contains_key(k)
                        && self.index()[k] == old(self).index()[k]) || expired(
                        old(self).index()[k].exp_ms,
                        now,
                    ),
                forall|k: Seq<u8>| #[trigger]
                    self.index().contains_key(k) ==> old(self).index().contains_key(k)
                        && self.index()[k] == old(self).index()[k],
                forall|file: Seq<u8>| #[trigger]
                    old(self).backed_by(file) ==> self.backed_by(file) && self.contents(file)
                        == old(self).contents(file).restrict(self.index().dom()),
                forall|file: Seq<u8>, t: u64| #[trigger]
                    old(self).journaled(file, t) ==> self.journaled(file, later(t, now)),
            decreases limit - i,
        {
            let ghost before = *self;
            match self.expiry.pop_due(now) {
                None => {
                    proof {
                        assert(!has_due(self.queue(), now));
                        assert(self.tiers() =~= before.tiers());
                        assert(self.wf());
                        lemma_none_expired(*self, now);
                        lemma_same_tiers(before, *self);
                    }
                    return true;
                },
                Some((e, key)) => {
                    let ghost k = bytes_view(key);
                    proof {
                        assert(before.queue().contains_key(e));
                        assert(has_due(before.queue(), now));
                        assert(is_earliest(before.queue(), e));
                        let c = choose|c: u64| is_earliest(before.queue(), c);
                        assert(is_earliest(before.queue(), c));
                        assert(c == e);
                    }
                    let stale: bool = match self.index.get(as_slice(&key)) {
                        Some(loc) => loc.exp_ms != e,
                        None => true,
                    };
                    if !stale {
                        self.index.remove(as_slice(&key));
                        self.cache.remove(as_slice(&key));
                    }
                    proof {
                        lemma_swept(before, *self, e, stale, now);
                        assert forall|file: Seq<u8>| #[trigger]
                            old(self).backed_by(file) implies self.backed_by(file)
                            && self.contents(file) == old(self).contents(file).restrict(
                            self.index().dom(),
                        ) by {
                            assert(before.backed_by(file));
                            assert(self.contents(file) =~= old(self).contents(file).restrict(
                                self.index().dom(),
                            ));
                        }
                        assert forall|file: Seq<u8>, t: u64| #[trigger]
                            old(self).journaled(file, t) implies self.journaled(
                            file,
                            later(t, now),
                        ) by {
                            assert(before.journaled(file, later(t, now)));
                        }
                        assert forall|x: Seq<u8>| #[trigger]
                            self.index().contains_key(x) implies old(self).index().contains_key(x)
                            && self.index()[x] == old(self).index()[x] by {
                            assert(before.index().contains_key(x));
                        }
                        assert forall|x: Seq<u8>| #[trigger]
                            old(self).index().contains_key(x) implies (self.index().contains_key(x)
                            && self.index()[x] == old(self).index()[x]) || expired(
                            old(self).index()[x].exp_ms,
                            now,
                        ) by {
                            assert(before.index().contains_key(x) || expired(
                                old(self).index()[x].exp_ms,
                                now,
                            ));
                        }
                    }
                },
            }
            i = i + 1;
        }
        let done = !self.expiry.is_due(now);
        proof {
            if done {
                lemma_none_expired(*self, now);
            }
        }
        done
    }

    /// Hands over the bytes that `cool.log` still lacks.
    pub fn flush_cool(&mut self) -> (bytes: Vec<u8>)
        requires
            old(self).wf(),
        ensures
            final(self).wf(),
            final(self).budget() == old(self).budget(),
            final(self).tiers() == old(self).tiers(),
            final(self).cool_len() == old(self).cool_len(),
            bytes@ == old(self).pending_cool(),
            final(self).pending_cool() == Seq::<u8>::empty(),
            final(self).pending_backup() == old(self).pending_backup(),
            forall|file: Seq<u8>| #[trigger]
                old(self).backed_by(file) ==> final(self).backed_by(file + bytes@) && final(self).contents(file + bytes@) == old(self).contents(file),
            forall|file: Seq<u8>, t: u64| #[trigger]
                old(self).journaled(file, t) ==> final(self).journaled(file, t),
    {
        let bytes = self.disk.flush_cool();
        proof {
            lemma_wf_kept(*old(self), *self);
            assert forall|file: Seq<u8>, t: u64| #[trigger]
                old(self).journaled(file, t) implies self.journaled(file, t) by {
                lemma_journal_kept(*old(self), *self, file, t, t);
            }
            assert forall|file: Seq<u8>| #[trigger] old(self).backed_by(file) implies self.backed_by(
                file + bytes@,
            ) && self.contents(file + bytes@) == old(self).contents(file) by {
                assert(self.cool(file + bytes@) =~= old(self).cool(file));
                lemma_same_log(*old(self), *self, file, file + bytes@);
            }
        }
        bytes
    }

    /// Hands over the bytes that both files still lack: `cool.log`, `backup.log`.
    pub fn flush(&mut self) -> (r: (Vec<u8>, Vec<u8>))
        requires
            old(self).wf(),
        ensures
            final(self).wf(),
            final(self).budget() == old(self).budget(),
            final(self).tiers() == old(self).tiers(),
            final(self).cool_len() == old(self).cool_len(),
            r.0@ == old(self).pending_cool(),
            r.1@ == old(self).pending_backup(),
            final(self).pending_cool() == Seq::<u8>::empty(),
            final(self).pending_backup() == Seq::<u8>::empty(),
            forall|file: Seq<u8>| #[trigger]
                old(self).backed_by(file) ==> final(self).backed_by(file + r.0@) && final(self).contents(file + r.0@) == old(self).contents(file),
            forall|file: Seq<u8>, t: u64| #[trigger]
                old(self).journaled(file, t) ==> final(self).journaled(file + r.1@, t),
    {
        let r = self.disk.flush();
        proof {
            lemma_wf_kept(*old(self), *self);
            assert forall|file: Seq<u8>| #[trigger] old(self).backed_by(file) implies self.backed_by(
                file + r.0@,
            ) && self.contents(file + r.0@) == old(self).contents(file) by {
                assert(self.cool(file + r.0@) =~= old(self).cool(file));
                lemma_same_log(*old(self), *self, file, file + r.0@);
            }
            assert forall|file: Seq<u8>, t: u64| #[trigger]
                old(self).journaled(file, t) implies self.journaled(file + r.1@, t) by {
                assert(self.journal(file + r.1@) =~= old(self).journal(file));
            }
        }
        r
    }

    /// A key that is not indexed is not cached either.
    proof fn lemma_uncached(&self, k: Seq<u8>)
        requires
            self.wf(),
            !self.index().contains_key(k),
        ensures
            self.cached().remove(k) == self.cached(),
    {
        self.cache.law_within_budget();
        assert(!self.cached().values.contains_key(k));
        assert(!self.cached().order.contains(k));
        assert(self.cached().remove(k) =~= self.cached());
    }

    /// Takes a key out of index and cache. The log is not touched: replay finds
    /// the key with its expiry time.
    fn drop_key(&mut self, key: &[u8])
        requires
            old(self).wf(),
        ensures
            final(self).wf(),
            final(self).budget() == old(self).budget(),
            final(self).queue() == old(self).queue(),
            final(self).disk == old(self).disk,
            final(self).index() == old(self).index().remove(key@),
            final(self).cached() == old(self).cached().remove(key@),
            forall|file: Seq<u8>| #[trigger]
                old(self).backed_by(file) ==> final(self).backed_by(file) && final(self).contents(
                    file,
                ) == old(self).contents(file).remove(key@),
    {
        self.index.remove(key);
        self.cache.remove(key);
        proof {
            assert forall|x: Seq<u8>| #[trigger] self.cached().values.contains_key(x) implies {
                &&& self.index().contains_key(x)
                &&& old(self).cached().values.contains_key(x)
                &&& self.cached().values[x] == old(self).cached().values[x]
                &&& self.index()[x] == old(self).index()[x]
            } by {
                assert(old(self).cached().values.contains_key(x));
            }
            assert forall|x: Seq<u8>| #[trigger] self.index().contains_key(x) implies old(self).index().contains_key(x) && self.index()[x] == old(self).index()[x] by {}
            assert forall|file: Seq<u8>| #[trigger] old(self).backed_by(file) implies self.backed_by(
                file,
            ) && self.contents(file) == old(self).contents(file).remove(key@) by {
                assert(self.cool(file) == old(self).cool(file));
                assert(self.contents(file) =~= old(self).contents(file).remove(key@));
            }
        }
    }
}

/// Eviction only takes values away; a put adds at most the value put.
proof fn lemma_put_values(before: CacheView, k: Seq<u8>, x: Seq<u8>, budget: u64)
    ensures
        forall|y: Seq<u8>| #[trigger]
            before.put(k, x, budget).values.contains_key(y) ==> before.values.insert(
                k,
                x,
            ).contains_key(y) && before.put(k, x, budget).values[y] == before.values.insert(k, x)[y],
{
    let full = CacheView {
        values: before.values.insert(k, x),
        order: crate::shards::recency::without(before.order, k).push(k),
    };
    lemma_shrink_submap(full, budget);
}

/// Shrinking a cache only takes values away.
proof fn lemma_shrink_submap(c: CacheView, budget: u64)
    ensures
        forall|y: Seq<u8>| #[trigger]
            c.shrink(budget).values.contains_key(y) ==> c.values.contains_key(y) && c.shrink(
                budget,
            ).values[y] == c.values[y],
    decreases c.order.len(),
{
    if c.order.len() == 0 || c.bytes() * 100 <= budget * crate::shards::cache::LOW_WATER {
    } else {
        let next = CacheView { values: c.values.remove(c.order[0]), order: c.order.drop_first() };
        lemma_shrink_submap(next, budget);
        assert(c.shrink(budget) == next.shrink(budget));
        assert forall|y: Seq<u8>| #[trigger]
            c.shrink(budget).values.contains_key(y) implies c.values.contains_key(y) && c.shrink(
            budget,
        ).values[y] == c.values[y] by {
            assert(next.values.contains_key(y));
        }
    }
}

/// The index after one more record.
proof fn lemma_rebuilt_push(rs: Seq<Record>, r: Record)
    ensures
        index_of_records(rs.push(r)) == index_after(index_of_records(rs), r),
{
    assert(rs.push(r).drop_last() =~= rs);
}

/// A journal that gained the record of a change is the journal of the store that
/// made the change.
proof fn lemma_journal_after(before: Store, after: Store, file: Seq<u8>, t: u64, r: Record)
    requires
        before.journaled(file, t),
        whole(after.journal(file)),
        index_of_records(replayed(after.journal(file))) == index_after(
            index_of_records(replayed(before.journal(file))),
            r,
        ),
        after.index() == index_after(before.index(), r),
        after.cool_len() >= before.cool_len(),
        r matches Record::Put { loc, .. } ==> loc.val_off + loc.vlen <= after.cool_len(),
    ensures
        after.journaled(file, t),
{
    let was = index_of_records(replayed(before.journal(file)));
    let is = index_of_records(replayed(after.journal(file)));
    assert forall|x: Seq<u8>| #[trigger] after.index().contains_key(x) implies is.contains_key(x)
        && is[x] == after.index()[x] by {
        if before.index().contains_key(x) {
            assert(was.contains_key(x));
        }
    }
    assert forall|x: Seq<u8>| #[trigger] is.contains_key(x) implies is[x].val_off + is[x].vlen
        <= after.cool_len() && (after.index().contains_key(x) || expired(is[x].exp_ms, t)) by {
        assert(was.contains_key(x) || after.index().contains_key(x));
    }
}

/// Appending to the log changes nothing that the store holds.
proof fn lemma_backed_after_append(before: Store, after: Store, file: Seq<u8>, bytes: Seq<u8>)
    requires
        before.backed_by(file),
        after.index() == before.index(),
        after.cached() == before.cached(),
        after.pending_cool() == before.pending_cool() + bytes,
        after.cool_len() == before.cool_len() + bytes.len(),
        forall|y: Seq<u8>| #[trigger]
            before.cached().values.contains_key(y) ==> before.index().contains_key(y),
    ensures
        after.backed_by(file),
        after.contents(file) == before.contents(file),
{
    assert(after.cool(file) =~= before.cool(file) + bytes);
    assert forall|x: Seq<u8>| #[trigger] before.index().contains_key(x) implies after.value_at(
        file,
        before.index()[x],
    ) == before.value_at(file, before.index()[x]) by {
        let loc = before.index()[x];
        law_append_keeps_earlier(
            before.cool(file),
            bytes,
            loc.val_off as int,
            loc.val_off + loc.vlen,
        );
    }
    assert(after.contents(file) =~= before.contents(file));
}

/// A put leaves the store backed by its log, with the new value in it.
proof fn lemma_backed_after_put(
    before: Store,
    after: Store,
    file: Seq<u8>,
    k: Seq<u8>,
    x: Seq<u8>,
    exp_ms: u64,
)
    requires
        before.backed_by(file),
        before.has_room(k.len(), x.len()),
        after.pending_cool() == before.pending_cool() + cool_put(k, x, exp_ms),
        after.cool_len() == before.cool_len() + COOL_SET_HEADER + k.len() + x.len(),
        after.index() == before.index().insert(
            k,
            Location {
                val_off: (before.cool_len() + COOL_SET_HEADER + k.len()) as u64,
                vlen: x.len() as u32,
                exp_ms,
            },
        ),
        forall|y: Seq<u8>| #[trigger]
            after.cached().values.contains_key(y) ==> {
                &&& after.cached().values[y] == if y == k {
                    x
                } else {
                    before.cached().values[y]
                }
                &&& y != k ==> before.cached().values.contains_key(y)
            },
        forall|y: Seq<u8>| #[trigger]
            before.cached().values.contains_key(y) ==> before.index().contains_key(y),
    ensures
        after.backed_by(file),
        after.contents(file) == before.contents(file).insert(k, Item { value: x, exp_ms }),
{
    let bytes = cool_put(k, x, exp_ms);
    let cool = before.cool(file);
    lemma_cool_put_len(k, x, exp_ms);
    law_read_back(cool, k, x, exp_ms);
    vstd::arithmetic::div_mod::lemma_small_mod(k.len(), 0x1_0000);
    assert(after.cool(file) =~= cool + bytes);
    assert(after.value_at(file, after.index()[k]) == x);
    assert forall|y: Seq<u8>| y != k && #[trigger] before.index().contains_key(y) implies after.value_at(
        file,
        before.index()[y],
    ) == before.value_at(file, before.index()[y]) by {
        let loc = before.index()[y];
        law_append_keeps_earlier(cool, bytes, loc.val_off as int, loc.val_off + loc.vlen);
    }
    assert forall|y: Seq<u8>| #[trigger] after.index().contains_key(y) implies after.index()[y].val_off
        + after.index()[y].vlen <= after.cool_len() by {
        if y != k {
            assert(before.index().contains_key(y));
        }
    }
    assert forall|y: Seq<u8>| #[trigger] after.cached().values.contains_key(y) implies after.cached().values[y]
        == after.value_at(file, after.index()[y]) by {
        if y != k {
            assert(before.cached().values.contains_key(y));
        }
    }
    assert(after.contents(file) =~= before.contents(file).insert(k, Item { value: x, exp_ms }));
}

/// A journal stays the journal of a store whose index did not change, at every
/// later time.
proof fn lemma_journal_kept(before: Store, after: Store, file: Seq<u8>, t: u64, now: u64)
    requires
        before.journaled(file, t),
        after.pending_backup() == before.pending_backup(),
        after.index() == before.index(),
        after.cool_len() == before.cool_len(),
        t <= now,
    ensures
        after.journaled(file, now),
{
}

/// Dropping an expired key leaves the journal the journal of the store.
proof fn lemma_journal_dropped(
    before: Store,
    after: Store,
    k: Seq<u8>,
    file: Seq<u8>,
    t: u64,
    now: u64,
)
    requires
        before.journaled(file, t),
        after.pending_backup() == before.pending_backup(),
        after.index() == before.index().remove(k),
        after.cool_len() == before.cool_len(),
        before.index().contains_key(k) ==> expired(before.index()[k].exp_ms, now),
    ensures
        after.journaled(file, later(t, now)),
{
    let rebuilt = index_of_records(replayed(before.journal(file)));
    assert forall|x: Seq<u8>| #[trigger] rebuilt.contains_key(x) implies rebuilt[x].val_off
        + rebuilt[x].vlen <= after.cool_len() && (after.index().contains_key(x) || expired(
        rebuilt[x].exp_ms,
        later(t, now),
    )) by {
        if x == k && before.index().contains_key(k) {
            assert(rebuilt[k] == before.index()[k]);
        }
    }
}

/// With no key due, no key has expired.
proof fn lemma_none_expired(store: Store, now: u64)
    requires
        store.wf(),
        !has_due(store.queue(), now),
    ensures
        forall|k: Seq<u8>| #[trigger]
            store.index().contains_key(k) ==> !expired(store.index()[k].exp_ms, now),
{
    assert forall|k: Seq<u8>| #[trigger] store.index().contains_key(k) implies !expired(
        store.index()[k].exp_ms,
        now,
    ) by {
        if store.index()[k].exp_ms != 0 {
            assert(store.expiry.scheduled(store.index()[k].exp_ms, k));
        }
    }
}

/// One step of a sweep: the key queued last for the earliest time is taken off
/// the queue, and dropped if that is still its expiry time.
proof fn lemma_swept(before: Store, after: Store, e: u64, stale: bool, now: u64)
    requires
        before.wf(),
        before.queue().contains_key(e),
        before.queue()[e].len() > 0,
        e <= now,
        after.expiry.wf(),
        after.queue() == queue_popped(before.queue(), e),
        after.disk == before.disk,
        after.index.wf(),
        after.cache.wf(),
        ({
            let k = before.queue()[e].last();
            &&& stale == !(before.index().contains_key(k) && before.index()[k].exp_ms == e)
            &&& after.index() == if stale {
                before.index()
            } else {
                before.index().remove(k)
            }
            &&& after.cached() == if stale {
                before.cached()
            } else {
                before.cached().remove(k)
            }
        }),
    ensures
        after.wf(),
        after.tiers() == before.tiers().step(e),
        forall|x: Seq<u8>| #[trigger]
            before.index().contains_key(x) ==> (after.index().contains_key(x) && after.index()[x]
                == before.index()[x]) || expired(before.index()[x].exp_ms, now),
        forall|x: Seq<u8>| #[trigger]
            after.index().contains_key(x) ==> before.index().contains_key(x) && after.index()[x]
                == before.index()[x],
        forall|file: Seq<u8>| #[trigger]
            before.backed_by(file) ==> after.backed_by(file) && after.contents(file)
                == before.contents(file).restrict(after.index().dom()),
        forall|file: Seq<u8>, t: u64| #[trigger]
            before.journaled(file, t) ==> after.journaled(file, later(t, now)),
{
    let k = before.queue()[e].last();
    assert(e != 0);
    assert(after.tiers() =~= before.tiers().step(e));
    assert forall|x: Seq<u8>| #[trigger] after.index().contains_key(x) implies before.index().contains_key(
        x,
    ) && after.index()[x] == before.index()[x] && (after.index()[x].exp_ms != 0
        ==> after.expiry.scheduled(after.index()[x].exp_ms, x)) by {
        assert(before.index().contains_key(x));
        let t = before.index()[x].exp_ms;
        if t != 0 {
            assert(before.expiry.scheduled(t, x));
            if t == e {
                assert(x != k);
                let bucket = before.queue()[e];
                let i = bucket.index_of(x);
                assert(i < bucket.len() - 1);
                assert(bucket.drop_last()[i] == x);
            }
        }
    }
    assert forall|x: Seq<u8>| #[trigger] after.cached().values.contains_key(x) implies {
        &&& before.cached().values.contains_key(x)
        &&& after.index().contains_key(x)
        &&& after.cached().values[x] == before.cached().values[x]
    } by {
        assert(before.cached().values.contains_key(x));
    }
    assert forall|file: Seq<u8>| #[trigger] before.backed_by(file) implies after.backed_by(file)
        && after.contents(file) == before.contents(file).restrict(after.index().dom()) by {
        assert(after.cool(file) == before.cool(file));
        assert(after.contents(file) =~= before.contents(file).restrict(after.index().dom()));
    }
    assert forall|file: Seq<u8>, t: u64| #[trigger] before.journaled(file, t) implies after.journaled(
        file,
        later(t, now),
    ) by {
        if stale {
            lemma_journal_kept(before, after, file, t, later(t, now));
        } else {
            lemma_journal_dropped(before, after, k, file, t, now);
        }
    }
}

/// Handing bytes over does not touch the tiers.
proof fn lemma_wf_kept(before: Store, after: Store)
    requires
        before.wf(),
        after.index == before.index,
        after.cache == before.cache,
        after.expiry == before.expiry,
    ensures
        after.wf(),
        after.tiers() == before.tiers(),
{
    assert forall|x: Seq<u8>| #[trigger] after.cached().values.contains_key(x) implies after.index().contains_key(
        x,
    ) by {
        assert(before.cached().values.contains_key(x));
    }
    assert forall|x: Seq<u8>| #[trigger]
        after.index().contains_key(x) && after.index()[x].exp_ms != 0 implies after.expiry.scheduled(
        after.index()[x].exp_ms,
        x,
    ) by {
        assert(before.index().contains_key(x));
    }
}

/// What a store holds depends on the log as a whole, not on how much of it is on
/// file.
proof fn lemma_same_log(before: Store, after: Store, file: Seq<u8>, file2: Seq<u8>)
    requires
        before.backed_by(file),
        after.index() == before.index(),
        after.cached() == before.cached(),
        after.cool_len() == before.cool_len(),
        after.cool(file2) == before.cool(file),
    ensures
        after.backed_by(file2),
        after.contents(file2) == before.contents(file),
{
    assert forall|x: Seq<u8>| #[trigger] after.cached().values.contains_key(x) implies after.cached().values[x]
        == after.value_at(file2, after.index()[x]) by {
        assert(before.cached().values.contains_key(x));
    }
    assert(after.contents(file2) =~= before.contents(file));
}

/// Stores with the same tiers and the same log agree on everything.
proof fn lemma_same_tiers(before: Store, after: Store)
    requires
        after.tiers() == before.tiers(),
        after.disk == before.disk,
    ensures
        forall|file: Seq<u8>| #[trigger]
            before.backed_by(file) ==> after.backed_by(file) && after.contents(file)
                == before.contents(file),
        forall|file: Seq<u8>, t: u64| #[trigger]
            before.journaled(file, t) ==> after.journaled(file, t),
{
    assert(after.index() == before.tiers().index);
    assert(after.cached() == before.tiers().cached);
    assert forall|file: Seq<u8>| #[trigger] before.backed_by(file) implies after.backed_by(file)
        && after.contents(file) == before.contents(file) by {
        assert(after.cool(file) == before.cool(file));
        lemma_same_log(before, after, file, file);
    }
    assert forall|file: Seq<u8>, t: u64| #[trigger] before.journaled(file, t) implies after.journaled(
        file,
        t,
    ) by {
        lemma_journal_kept(before, after, file, t, t);
    }
}

/// Queueing a key keeps what was queued.
proof fn lemma_scheduled(
    before: Map<u64, Seq<Seq<u8>>>,
    after: Map<u64, Seq<Seq<u8>>>,
    exp_ms: u64,
    key: Seq<u8>,
)
    requires
        after == queued(before, exp_ms, key),
    ensures
        after.contains_key(exp_ms) && after[exp_ms].contains(key),
        forall|t: u64, k: Seq<u8>|
            before.contains_key(t) && #[trigger] before[t].contains(k) ==> after.contains_key(t)
                && after[t].contains(k),
{
    assert(after[exp_ms].last() == key);
    assert forall|t: u64, k: Seq<u8>|
        before.contains_key(t) && #[trigger] before[t].contains(k) implies after.contains_key(t)
        && after[t].contains(k) by {
        if t == exp_ms {
            let i = before[t].index_of(k);
            assert(after[t][i] == k);
        }
    }
}

/// What a store holds: for each key of the index, the bytes of `cool.log` where the
/// index says, and the expiry time that the index gives.
pub proof fn law_contents_lie_in_the_log(store: Store, file: Seq<u8>, k: Seq<u8>)
    ensures
        store.contents(file).contains_key(k) <==> store.index().contains_key(k),
        store.index().contains_key(k) ==> ({
            let loc = store.index()[k];
            let log = file + store.pending_cool();
            &&& store.contents(file)[k].value == log.subrange(
                loc.val_off as int,
                loc.val_off + loc.vlen,
            )
            &&& store.contents(file)[k].exp_ms == loc.exp_ms
        }),
{
}

/// What it takes for a log to back a store: it is as long as the store thinks, and
/// no value lies past its end.
pub proof fn law_backing(store: Store, file: Seq<u8>, k: Seq<u8>)
    requires
        store.backed_by(file),
    ensures
        file.len() + store.pending_cool().len() == store.cool_len(),
        store.index().contains_key(k) ==> store.index()[k].val_off + store.index()[k].vlen
            <= store.cool_len(),
        store.wf() && store.cached().values.contains_key(k) ==> store.contents(file).contains_key(k)
            && store.cached().values[k] == store.contents(file)[k].value,
{
}

/// A sweep looks at the keys that are due, those of the earliest time first, up to
/// a limit.
pub proof fn law_sweep_goes_by_time(view: SweepView, now: u64, limit: nat, e: u64)
    requires
        view.queue.contains_key(e),
        forall|t: u64| #[trigger] view.queue.contains_key(t) ==> e <= t,
    ensures
        view.sweep(now, 0) == view,
        e > now ==> view.sweep(now, limit) == view,
        e <= now ==> view.sweep(now, limit + 1) == view.step(e).sweep(now, limit),
{
    assert(is_earliest(view.queue, e));
    let c = choose|c: u64| is_earliest(view.queue, c);
    assert(view.queue.contains_key(c));
    assert(c <= e && e <= c);
    if e > now {
        assert(!has_due(view.queue, now));
    } else {
        assert(has_due(view.queue, now));
    }
}

/// One look takes the key out of the queue. If that time is still its expiry time,
/// the key goes from the index and from memory; otherwise it stays. Nothing else
/// changes.
pub proof fn law_one_look(view: SweepView, e: u64)
    requires
        view.queue.contains_key(e),
        view.queue[e].len() > 0,
    ensures
        ({
            let key = view.queue[e].last();
            let due = view.index.contains_key(key) && view.index[key].exp_ms == e;
            let after = view.step(e);
            &&& due ==> after.index == view.index.remove(key) && after.cached == view.cached.remove(
                key,
            )
            &&& !due ==> after.index == view.index && after.cached == view.cached
            &&& view.queue[e].len() == 1 ==> after.queue == view.queue.remove(e)
            &&& view.queue[e].len() > 1 ==> after.queue == view.queue.insert(
                e,
                view.queue[e].drop_last(),
            )
        }),
{
}

/// The queue follows the records: a set that expires queues its key for its time.
pub proof fn law_queue_follows_the_records(rs: Seq<Record>, key: Seq<u8>, loc: Location)
    ensures
        queue_of_records(Seq::empty()) == Map::<u64, Seq<Seq<u8>>>::empty(),
        loc.exp_ms != 0 ==> queue_of_records(rs.push(Record::Put { key, loc })) == queued(
            queue_of_records(rs),
            loc.exp_ms,
            key,
        ),
        loc.exp_ms == 0 ==> queue_of_records(rs.push(Record::Put { key, loc }))
            == queue_of_records(rs),
        queue_of_records(rs.push(Record::Del { key })) == queue_of_records(rs),
{
    assert(rs.push(Record::Put { key, loc }).drop_last() =~= rs);
    assert(rs.push(Record::Del { key }).drop_last() =~= rs);
}

/// What it takes for a journal to be that of a store: replay of it gives the index,
/// and besides only keys that had expired.
pub proof fn law_journaling(store: Store, file: Seq<u8>, now: u64, k: Seq<u8>)
    requires
        store.journaled(file, now),
    ensures
        ({
            let rebuilt = index_of_records(replayed(file + store.pending_backup()));
            &&& whole(file + store.pending_backup())
            &&& store.index().contains_key(k) ==> rebuilt.contains_key(k) && rebuilt[k]
                == store.index()[k]
            &&& rebuilt.contains_key(k) && !store.index().contains_key(k) ==> rebuilt[k].exp_ms != 0
                && rebuilt[k].exp_ms <= now
        }),
{
}

/// The later of two times is one of them, and not before the other.
pub proof fn law_later_of_two_times(a: u64, b: u64)
    ensures
        later(a, b) == a || later(a, b) == b,
        later(a, b) >= a,
        later(a, b) >= b,
{
}

/// An index lies in a log if every value ends before the log does.
pub proof fn law_what_lies_in_a_log(index: Map<Seq<u8>, Location>, cool_len: u64, k: Seq<u8>)
    ensures
        located(index, cool_len) && index.contains_key(k) ==> index[k].val_off + index[k].vlen
            <= cool_len,
        (forall|y: Seq<u8>| #[trigger]
            index.contains_key(y) ==> index[y].val_off + index[y].vlen <= cool_len) ==> located(
            index,
            cool_len,
        ),
{
}

} // verus!
