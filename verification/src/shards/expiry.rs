//! Keys by the time at which they expire.

use std::collections::BTreeMap;

use bytes::Bytes;
use vstd::prelude::*;
use vstd::std_specs::btree::*;
use vstd::std_specs::cmp::OrdSpec;

use crate::buffer::bytes_view;

verus! {

broadcast use {vstd::std_specs::btree::group_btree_axioms, vstd::laws_cmp::group_laws_cmp};

/// A queue of keys, earliest expiry first. A key may be queued for a time that no
/// longer applies to it; whoever takes it out has to look.
pub struct Expiry {
    queue: BTreeMap<u64, Vec<Bytes>>,
}

/// The keys in a bucket.
pub open spec fn bucket_view(bucket: Seq<Bytes>) -> Seq<Seq<u8>> {
    Seq::new(bucket.len(), |i: int| bytes_view(bucket[i]))
}

/// Whether a queue holds a key whose time has come.
pub open spec fn has_due(queue: Map<u64, Seq<Seq<u8>>>, now: u64) -> bool {
    exists|t: u64| #[trigger] queue.contains_key(t) && t <= now
}

/// A queue after `key` was put in for the time `exp_ms`.
pub open spec fn queued(
    queue: Map<u64, Seq<Seq<u8>>>,
    exp_ms: u64,
    key: Seq<u8>,
) -> Map<u64, Seq<Seq<u8>>> {
    queue.insert(
        exp_ms,
        (if queue.contains_key(exp_ms) {
            queue[exp_ms]
        } else {
            Seq::empty()
        }).push(key),
    )
}

impl View for Expiry {
    type V = Map<u64, Seq<Seq<u8>>>;

    closed spec fn view(&self) -> Map<u64, Seq<Seq<u8>>> {
        self.queue@.map_values(|bucket: Vec<Bytes>| bucket_view(bucket@))
    }
}

impl Expiry {
    /// No time has an empty bucket.
    pub closed spec fn wf(&self) -> bool {
        forall|t: u64| #[trigger] self.queue@.contains_key(t) ==> self.queue@[t]@.len() > 0
    }

    /// Whether `key` is queued for the time `exp_ms`.
    pub open spec fn scheduled(&self, exp_ms: u64, key: Seq<u8>) -> bool {
        self@.contains_key(exp_ms) && self@[exp_ms].contains(key)
    }

    /// An empty queue.
    pub fn new() -> (r: Self)
        ensures
            r.wf(),
            r@ == Map::<u64, Seq<Seq<u8>>>::empty(),
    {
        let r = Expiry { queue: BTreeMap::new() };
        assert(r@ =~= Map::empty());
        r
    }

    /// The earliest time that has a bucket.
    fn earliest(&self) -> (r: Option<u64>)
        ensures
            match r {
                None => forall|t: u64| !self.queue@.contains_key(t),
                Some(e) => {
                    &&& self.queue@.contains_key(e)
                    &&& forall|t: u64| #[trigger] self.queue@.contains_key(t) ==> e <= t
                },
            },
    {
        for e in it: self.queue.keys()
            invariant
                it.index() == 0,
                it.seq().unref().to_set() == self.queue@.dom(),
                increasing_seq(it.seq()),
        {
            let ghost times = it.seq();
            proof {
                assert(vstd::laws_cmp::obeys_cmp::<u64>());
                assert(vstd::laws_cmp::obeys_cmp::<&u64>());
                assert(*e == times.unref()[0]);
                assert(times.unref().to_set().contains(*e));
                assert forall|t: u64| #[trigger] self.queue@.contains_key(t) implies e <= t by {
                    assert(times.unref().to_set().contains(t));
                    let i = choose|i: int|
                        0 <= i < times.unref().len() && times.unref()[i] == t;
                    assert(*times[i] == t);
                    if i > 0 {
                        assert(OrdSpec::cmp_spec(&times[0], &times[i]) is Less);
                    }
                }
            }
            return Some(*e);
        }
        proof {
            assert forall|t: u64| !self.queue@.contains_key(t) by {
                assert(!self.queue@.dom().contains(t));
            }
        }
        None
    }

    /// Whether a key is queued for a time that has come.
    pub fn is_due(&self, now: u64) -> (r: bool)
        requires
            self.wf(),
        ensures
            r == has_due(self@, now),
    {
        proof {
            assert forall|t: u64| #[trigger] self@.contains_key(t) <==> self.queue@.contains_key(
                t,
            ) by {}
        }
        match self.earliest() {
            Some(e) => {
                assert(self@.contains_key(e));
                e <= now
            },
            None => false,
        }
    }

    /// Queues `key` for the time `exp_ms`.
    pub fn schedule(&mut self, exp_ms: u64, key: Bytes)
        requires
            old(self).wf(),
        ensures
            final(self).wf(),
            final(self)@ == queued(old(self)@, exp_ms, bytes_view(key)),
    {
        let mut bucket: Vec<Bytes> = match self.queue.remove(&exp_ms) {
            Some(b) => b,
            None => Vec::new(),
        };
        let ghost before = bucket_view(bucket@);
        bucket.push(key);
        assert(bucket_view(bucket@) =~= before.push(bytes_view(key)));
        assert(before =~= if old(self)@.contains_key(exp_ms) {
            old(self)@[exp_ms]
        } else {
            Seq::empty()
        });
        self.queue.insert(exp_ms, bucket);
        assert(self@ =~= old(self)@.insert(exp_ms, before.push(bytes_view(key))));
    }

    /// Takes out one key of the earliest time, if that time has come.
    pub fn pop_due(&mut self, now: u64) -> (r: Option<(u64, Bytes)>)
        requires
            old(self).wf(),
        ensures
            final(self).wf(),
            match r {
                None => {
                    &&& final(self)@ == old(self)@
                    &&& forall|t: u64| #[trigger] old(self)@.contains_key(t) ==> now < t
                },
                Some((e, key)) => {
                    &&& e <= now
                    &&& old(self)@.contains_key(e)
                    &&& forall|t: u64| #[trigger] old(self)@.contains_key(t) ==> e <= t
                    &&& old(self)@[e].len() > 0
                    &&& bytes_view(key) == old(self)@[e].last()
                    &&& final(self)@ == if old(self)@[e].len() == 1 {
                        old(self)@.remove(e)
                    } else {
                        old(self)@.insert(e, old(self)@[e].drop_last())
                    }
                },
            },
    {
        proof {
            assert forall|t: u64| #[trigger] self@.contains_key(t) <==> self.queue@.contains_key(
                t,
            ) by {}
        }
        let e: u64 = match self.earliest() {
            Some(e) => e,
            None => {
                return None;
            },
        };
        if e > now {
            return None;
        }
        match self.queue.remove(&e) {
            None => None,
            Some(mut bucket) => {
                let ghost before = bucket@;
                match bucket.pop() {
                    None => None,
                    Some(key) => {
                        assert(bucket_view(bucket@) =~= bucket_view(before).drop_last());
                        if bucket.len() > 0 {
                            self.queue.insert(e, bucket);
                            assert(self@ =~= old(self)@.insert(e, old(self)@[e].drop_last()));
                        } else {
                            assert(self@ =~= old(self)@.remove(e));
                        }
                        Some((e, key))
                    },
                }
            },
        }
    }
}

/// A key is due if it is queued for now or an earlier time.
pub proof fn law_what_is_due(queue: Map<u64, Seq<Seq<u8>>>, t: u64, now: u64)
    ensures
        queue.contains_key(t) && t <= now ==> has_due(queue, now),
        has_due(queue, now) ==> exists|u: u64| #[trigger] queue.contains_key(u) && u <= now,
{
}

/// Queueing a key puts it behind the others of its time, and touches no other time.
pub proof fn law_queueing(
    queue: Map<u64, Seq<Seq<u8>>>,
    exp_ms: u64,
    key: Seq<u8>,
    other: u64,
)
    ensures
        queued(queue, exp_ms, key).contains_key(exp_ms),
        queue.contains_key(exp_ms) ==> queued(queue, exp_ms, key)[exp_ms] == queue[exp_ms].push(
            key,
        ),
        !queue.contains_key(exp_ms) ==> queued(queue, exp_ms, key)[exp_ms] == seq![key],
        other != exp_ms ==> queued(queue, exp_ms, key).contains_key(other) == queue.contains_key(
            other,
        ),
        other != exp_ms && queue.contains_key(other) ==> queued(queue, exp_ms, key)[other]
            == queue[other],
{
    assert(Seq::<Seq<u8>>::empty().push(key) =~= seq![key]);
}

} // verus!
