//! The hot tier: recently used values under a byte budget.

use bytes::Bytes;
use vstd::prelude::*;

use crate::buffer::{as_slice, bytes_view};
use crate::shards::recency::{without, Recency};
use crate::shards::worker::Worker;

verus! {

/// Percentage of the budget above which values are evicted.
pub const HIGH_WATER: u128 = 90;

/// Percentage of the budget down to which values are evicted.
pub const LOW_WATER: u128 = 80;

/// What a cache holds.
#[verifier::ext_equal]
pub struct CacheView {
    pub values: Map<Seq<u8>, Seq<u8>>,
    /// The keys, from the one used longest ago to the one used last.
    pub order: Seq<Seq<u8>>,
}

/// The bytes of the values under the keys of `order`.
pub open spec fn held(order: Seq<Seq<u8>>, values: Map<Seq<u8>, Seq<u8>>) -> nat
    decreases order.len(),
{
    if order.len() == 0 {
        0
    } else {
        held(order.drop_last(), values) + values[order.last()].len()
    }
}

impl CacheView {
    /// An empty cache.
    pub open spec fn empty() -> CacheView {
        CacheView { values: Map::empty(), order: Seq::empty() }
    }

    /// The bytes of all values.
    pub open spec fn bytes(self) -> nat {
        held(self.order, self.values)
    }

    /// The order lists exactly the keys, each once.
    pub open spec fn consistent(self) -> bool {
        &&& self.order.no_duplicates()
        &&& forall|k: Seq<u8>| #[trigger] self.values.contains_key(k) <==> self.order.contains(k)
    }

    /// The cache after a use of `k`.
    pub open spec fn touch(self, k: Seq<u8>) -> CacheView {
        if self.values.contains_key(k) {
            CacheView { order: without(self.order, k).push(k), ..self }
        } else {
            self
        }
    }

    /// The cache without `k`.
    pub open spec fn remove(self, k: Seq<u8>) -> CacheView {
        CacheView { values: self.values.remove(k), order: without(self.order, k) }
    }

    /// The cache without its least recently used values, as many as it takes to
    /// get down to the low-water mark.
    pub open spec fn shrink(self, budget: u64) -> CacheView
        decreases self.order.len(),
    {
        if self.order.len() == 0 || self.bytes() * 100 <= budget * LOW_WATER {
            self
        } else {
            CacheView {
                values: self.values.remove(self.order[0]),
                order: self.order.drop_first(),
            }.shrink(budget)
        }
    }

    /// The cache after eviction, which happens above the high-water mark only.
    pub open spec fn settle(self, budget: u64) -> CacheView {
        if self.bytes() * 100 > budget * HIGH_WATER {
            self.shrink(budget)
        } else {
            self
        }
    }

    /// The cache after `value` was put under `k`.
    pub open spec fn put(self, k: Seq<u8>, value: Seq<u8>, budget: u64) -> CacheView {
        CacheView {
            values: self.values.insert(k, value),
            order: without(self.order, k).push(k),
        }.settle(budget)
    }
}

/// Eviction takes the least recently used values, and no more of them than it
/// must: what is left is the end of the order with its values; it is down to the
/// low-water mark; and with one value more it would not be.
pub proof fn law_eviction_is_least_recent(c: CacheView, budget: u64) -> (n: int)
    requires
        c.consistent(),
    ensures
        0 <= n <= c.order.len(),
        c.shrink(budget).consistent(),
        c.shrink(budget).order == c.order.skip(n),
        forall|i: int|
            n <= i < c.order.len() ==> c.shrink(budget).values.contains_key(
                #[trigger] c.order[i],
            ) && c.shrink(budget).values[c.order[i]] == c.values[c.order[i]],
        c.shrink(budget).bytes() * 100 <= budget * LOW_WATER,
        n > 0 ==> held(c.order.skip(n - 1), c.values) * 100 > budget * LOW_WATER,
    decreases c.order.len(),
{
    if c.order.len() == 0 || c.bytes() * 100 <= budget * LOW_WATER {
        assert(c.order.skip(0) =~= c.order);
        assert(c.shrink(budget) == c);
        assert forall|i: int| 0 <= i < c.order.len() implies c.values.contains_key(
            #[trigger] c.order[i],
        ) by {
            assert(c.order.contains(c.order[i]));
        }
        0
    } else {
        let k = c.order[0];
        let next = CacheView { values: c.values.remove(k), order: c.order.drop_first() };
        assert(c.order.remove(0) =~= next.order);
        assert(c.order.contains(k));
        assert(c.order.index_of(k) == 0);
        lemma_take_out(c.order, c.values, k);
        assert(without(c.order, k) =~= next.order);
        let m = law_eviction_is_least_recent(next, budget);
        let n = m + 1;
        assert(c.shrink(budget) == next.shrink(budget));
        assert(next.order.skip(m) =~= c.order.skip(n));
        assert forall|i: int| n <= i < c.order.len() implies c.shrink(
            budget,
        ).values.contains_key(#[trigger] c.order[i]) && c.shrink(budget).values[c.order[i]]
            == c.values[c.order[i]] by {
            assert(next.order[i - 1] == c.order[i]);
            assert(c.order[i] != c.order[0]);
        }
        if m == 0 {
            assert(c.order.skip(0) =~= c.order);
        } else {
            let tail = next.order.skip(m - 1);
            assert(tail =~= c.order.skip(m));
            assert forall|i: int| 0 <= i < tail.len() implies next.values[#[trigger] tail[i]]
                == c.values[tail[i]] by {
                assert(tail[i] == c.order[m + i]);
                assert(c.order[m + i] != c.order[0]);
            }
            lemma_held_frame(tail, next.values, c.values);
        }
        n
    }
}

/// Values in memory, least recently used first to go.
pub struct Cache {
    hot: Worker,
    recent: Recency,
    used: u128,
    budget: u64,
}

impl View for Cache {
    type V = CacheView;

    closed spec fn view(&self) -> CacheView {
        CacheView { values: self.hot@, order: self.recent@ }
    }
}

impl Cache {
    /// The parts agree, and the values stay under the high-water mark.
    pub closed spec fn wf(&self) -> bool {
        &&& self.hot.wf()
        &&& self.recent.wf()
        &&& self@.consistent()
        &&& self.used == self@.bytes()
        &&& self.used * 100 <= self.budget * HIGH_WATER
    }

    /// The byte budget.
    pub closed spec fn spec_budget(&self) -> u64 {
        self.budget
    }

    /// What every cache keeps: its order lists its keys, and its values take no
    /// more than the high-water mark's share of the budget.
    pub proof fn law_within_budget(&self)
        requires
            self.wf(),
        ensures
            self@.consistent(),
            self@.bytes() * 100 <= self.spec_budget() * HIGH_WATER,
    {
    }

    /// An empty cache with a byte budget.
    pub fn new(budget: u64) -> (r: Self)
        ensures
            r.wf(),
            r@ == CacheView::empty(),
            r.spec_budget() == budget,
    {
        let r = Cache { hot: Worker::start(), recent: Recency::new(), used: 0, budget };
        assert(r@ =~= CacheView::empty());
        r
    }

    /// The value under `key`, which counts as a use of it.
    pub fn get(&mut self, key: &Bytes) -> (r: Option<Bytes>)
        requires
            old(self).wf(),
        ensures
            final(self).wf(),
            final(self).spec_budget() == old(self).spec_budget(),
            final(self)@ == old(self)@.touch(bytes_view(*key)),
            match r {
                Some(v) => old(self)@.values.contains_key(bytes_view(*key))
                    && old(self)@.values[bytes_view(*key)] == bytes_view(v),
                None => !old(self)@.values.contains_key(bytes_view(*key)),
            },
    {
        let ghost k = bytes_view(*key);
        match self.hot.get(as_slice(key)) {
            Some(v) => {
                self.recent.touch(key);
                proof {
                    lemma_move_to_end(old(self)@.order, self.hot@, k);
                }
                Some(v)
            },
            None => None,
        }
    }

    /// Takes `key` out.
    pub fn remove(&mut self, key: &[u8])
        requires
            old(self).wf(),
        ensures
            final(self).wf(),
            final(self).spec_budget() == old(self).spec_budget(),
            final(self)@ == old(self)@.remove(key@),
    {
        let ghost k = key@;
        let ghost before = self@;
        match self.hot.get(key) {
            Some(v) => {
                proof {
                    lemma_take_out(before.order, before.values, k);
                    lemma_held_frame(
                        without(before.order, k),
                        before.values,
                        before.values.remove(k),
                    );
                }
                self.used = self.used - v.len() as u128;
                self.hot.delete(key);
                self.recent.forget(key);
            },
            None => {
                assert(!before.order.contains(k));
                assert(before.values.remove(k) =~= before.values);
            },
        }
        assert(self@ =~= before.remove(k));
    }

    /// Puts `value` under `key`, then evicts down to the low-water mark if that
    /// took the cache over the high-water mark.
    pub fn put(&mut self, key: Bytes, value: Bytes)
        requires
            old(self).wf(),
        ensures
            final(self).wf(),
            final(self).spec_budget() == old(self).spec_budget(),
            final(self)@ == old(self)@.put(
                bytes_view(key),
                bytes_view(value),
                old(self).spec_budget(),
            ),
    {
        let ghost k = bytes_view(key);
        let ghost x = bytes_view(value);
        let ghost before = self@;
        self.remove(as_slice(&key));
        let ghost mid = self@;
        proof {
            if !before.order.contains(k) {
                assert(before.values.remove(k) =~= before.values);
            } else {
                lemma_take_out(before.order, before.values, k);
            }
        }
        self.used = self.used + value.len() as u128;
        self.recent.touch(&key);
        self.hot.set(key, value);
        let ghost full = CacheView {
            values: before.values.insert(k, x),
            order: without(before.order, k).push(k),
        };
        proof {
            assert(!mid.order.contains(k));
            assert(full.values =~= mid.values.insert(k, x));
            assert(self@ =~= full);
            let o = full.order;
            assert(o.drop_last() =~= mid.order);
            lemma_held_frame(mid.order, mid.values, full.values);
            assert(full.consistent()) by {
                assert forall|y: Seq<u8>| #[trigger] full.values.contains_key(y)
                    <==> full.order.contains(y) by {
                    if full.order.contains(y) {
                        let i = o.index_of(y);
                        if i < mid.order.len() {
                            assert(mid.order[i] == y);
                        }
                    }
                    if full.values.contains_key(y) {
                        if y == k {
                            assert(o[o.len() - 1] == y);
                        } else {
                            assert(mid.values.contains_key(y));
                            let i = mid.order.index_of(y);
                            assert(o[i] == y);
                        }
                    }
                }
            }
        }
        if self.used * 100 > self.budget as u128 * HIGH_WATER {
            self.evict();
        }
    }

    /// Drops least recently used values down to the low-water mark.
    fn evict(&mut self)
        requires
            old(self).hot.wf(),
            old(self).recent.wf(),
            old(self)@.consistent(),
            old(self).used == old(self)@.bytes(),
            old(self).used < 0x4_0000_0000_0000_0000,
        ensures
            final(self).wf(),
            final(self).budget == old(self).budget,
            final(self)@ == old(self)@.shrink(old(self).budget),
    {
        while self.used * 100 > self.budget as u128 * LOW_WATER
            invariant
                self.hot.wf(),
                self.recent.wf(),
                self@.consistent(),
                self.used == self@.bytes(),
                self.used < 0x4_0000_0000_0000_0000,
                self.budget == old(self).budget,
                self@.shrink(self.budget) == old(self)@.shrink(self.budget),
            decreases self@.order.len(),
        {
            let ghost before = self@;
            assert(before.order.len() > 0);
            match self.recent.oldest() {
                Some(key) => {
                    let ghost k = bytes_view(key);
                    let ghost next = CacheView {
                        values: before.values.remove(before.order[0]),
                        order: before.order.drop_first(),
                    };
                    proof {
                        assert(before.order.contains(k));
                        assert(before.order.index_of(k) == 0);
                        assert(before.order.remove(0) =~= before.order.drop_first());
                        lemma_take_out(before.order, before.values, k);
                        lemma_held_frame(
                            without(before.order, k),
                            before.values,
                            before.values.remove(k),
                        );
                    }
                    let size: usize = match self.hot.get(as_slice(&key)) {
                        Some(v) => v.len(),
                        None => 0,
                    };
                    self.used = self.used - size as u128;
                    self.hot.delete(as_slice(&key));
                    self.recent.forget(as_slice(&key));
                    assert(self@ =~= next);
                },
                None => {
                    return;
                },
            }
        }
    }
}

/// Taking a key out of an order takes away the bytes of its value.
proof fn lemma_held_remove(order: Seq<Seq<u8>>, values: Map<Seq<u8>, Seq<u8>>, p: int)
    requires
        0 <= p < order.len(),
    ensures
        held(order, values) == held(order.remove(p), values) + values[order[p]].len(),
    decreases order.len(),
{
    let rest = order.remove(p);
    if p == order.len() - 1 {
        assert(rest =~= order.drop_last());
    } else {
        lemma_held_remove(order.drop_last(), values, p);
        assert(rest.drop_last() =~= order.drop_last().remove(p));
        assert(rest.last() == order.last());
    }
}

/// The bytes held depend on the values under the keys of the order alone.
proof fn lemma_held_frame(
    order: Seq<Seq<u8>>,
    a: Map<Seq<u8>, Seq<u8>>,
    b: Map<Seq<u8>, Seq<u8>>,
)
    requires
        forall|i: int| 0 <= i < order.len() ==> a[#[trigger] order[i]] == b[order[i]],
    ensures
        held(order, a) == held(order, b),
    decreases order.len(),
{
    if order.len() > 0 {
        let shorter = order.drop_last();
        assert forall|i: int| 0 <= i < shorter.len() implies a[#[trigger] shorter[i]]
            == b[shorter[i]] by {
            assert(shorter[i] == order[i]);
        }
        lemma_held_frame(shorter, a, b);
        assert(a[order[order.len() - 1]] == b[order[order.len() - 1]]);
    }
}

/// A key that is taken out of an order without duplicates is gone, the others
/// stay, and its value's bytes are no longer counted.
proof fn lemma_take_out(order: Seq<Seq<u8>>, values: Map<Seq<u8>, Seq<u8>>, k: Seq<u8>)
    requires
        order.no_duplicates(),
        order.contains(k),
    ensures
        without(order, k).no_duplicates(),
        forall|y: Seq<u8>| #[trigger]
            without(order, k).contains(y) <==> y != k && order.contains(y),
        held(order, values) == held(without(order, k), values) + values[k].len(),
{
    let p = order.index_of(k);
    let rest = without(order, k);
    lemma_held_remove(order, values, p);
    assert forall|y: Seq<u8>| #[trigger] rest.contains(y) <==> y != k && order.contains(y) by {
        if rest.contains(y) {
            let i = rest.index_of(y);
            assert(rest[i] == order[if i < p {
                i
            } else {
                i + 1
            }]);
        }
        if y != k && order.contains(y) {
            let i = order.index_of(y);
            assert(rest[if i < p {
                i
            } else {
                i - 1
            }] == y);
        }
    }
}

/// Moving a key to the end changes neither the keys nor the bytes held.
proof fn lemma_move_to_end(order: Seq<Seq<u8>>, values: Map<Seq<u8>, Seq<u8>>, k: Seq<u8>)
    requires
        order.no_duplicates(),
        order.contains(k),
    ensures
        without(order, k).push(k).no_duplicates(),
        forall|y: Seq<u8>| #[trigger] without(order, k).push(k).contains(y) <==> order.contains(y),
        held(without(order, k).push(k), values) == held(order, values),
{
    lemma_take_out(order, values, k);
    let rest = without(order, k);
    let moved = rest.push(k);
    assert(moved.drop_last() =~= rest);
    assert forall|y: Seq<u8>| #[trigger] moved.contains(y) <==> order.contains(y) by {
        if moved.contains(y) {
            let i = moved.index_of(y);
            if i < rest.len() {
                assert(rest[i] == y);
            }
        }
        if order.contains(y) {
            if y == k {
                assert(moved[rest.len() as int] == y);
            } else {
                assert(rest.contains(y));
                assert(moved[rest.index_of(y)] == y);
            }
        }
    }
    assert forall|i: int, j: int| 0 <= i < moved.len() && 0 <= j < moved.len() && i != j implies
        moved[i] != moved[j] by {
        assert(i < rest.len() ==> rest.contains(moved[i]));
        assert(j < rest.len() ==> rest.contains(moved[j]));
        if i < rest.len() {
            assert(rest[i] == moved[i]);
        }
        if j < rest.len() {
            assert(rest[j] == moved[j]);
        }
    }
}

/// The marks: values are evicted above 90 percent of the budget, and down to 80.
pub proof fn law_water_marks()
    ensures
        HIGH_WATER == 90,
        LOW_WATER == 80,
{
}

/// The size of a cache is the sum of the sizes of its values.
pub proof fn law_size_is_the_sum(
    order: Seq<Seq<u8>>,
    values: Map<Seq<u8>, Seq<u8>>,
    k: Seq<u8>,
)
    ensures
        held(Seq::empty(), values) == 0,
        held(order.push(k), values) == held(order, values) + values[k].len(),
        (CacheView { values, order }).bytes() == held(order, values),
{
    assert(order.push(k).drop_last() =~= order);
}

/// A value that is put in is the one used last. The others stay, unless that takes
/// the cache over 90 percent of its budget: then the least recently used go.
pub proof fn law_put_keeps_what_fits(c: CacheView, k: Seq<u8>, value: Seq<u8>, budget: u64)
    ensures
        ({
            let full = CacheView {
                values: c.values.insert(k, value),
                order: without(c.order, k).push(k),
            };
            &&& full.bytes() * 100 <= budget * 90 ==> c.put(k, value, budget) == full
            &&& full.bytes() * 100 > budget * 90 ==> c.put(k, value, budget) == full.shrink(budget)
        }),
{
}

/// A use makes a key the one used last and changes no value; taking a key out
/// changes nothing else; an empty cache has nothing in it.
pub proof fn law_use_and_removal(c: CacheView, k: Seq<u8>)
    ensures
        c.values.contains_key(k) ==> c.touch(k).order == without(c.order, k).push(k),
        !c.values.contains_key(k) ==> c.touch(k).order == c.order,
        c.touch(k).values == c.values,
        c.remove(k).values == c.values.remove(k),
        c.remove(k).order == without(c.order, k),
        CacheView::empty().values == Map::<Seq<u8>, Seq<u8>>::empty(),
        CacheView::empty().order.len() == 0,
{
}

/// A cache is consistent if its order lists each of its keys once and no others.
pub proof fn law_consistent_order(c: CacheView)
    ensures
        c.consistent() <==> c.order.no_duplicates() && forall|k: Seq<u8>| #[trigger]
            c.values.contains_key(k) <==> c.order.contains(k),
{
}

} // verus!
