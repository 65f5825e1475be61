//! A hash map from byte strings, built on a map of hash buckets.

use std::collections::HashMap;

use bytes::Bytes;
use vstd::prelude::*;

use crate::buffer::{as_slice, bytes_view};
use crate::hashing::{key_hash, ROUTE_SEED};
use crate::text::same_bytes;

verus! {

broadcast use vstd::std_specs::hash::group_hash_axioms;

/// A map from byte strings to values. Entries sit in buckets by the hash of
/// their key; keys with equal hashes share a bucket.
pub struct ByteMap<T> {
    buckets: HashMap<u64, Vec<(Bytes, T)>>,
    map: Ghost<Map<Seq<u8>, T>>,
}

/// Whether a bucket has an entry for `key`.
spec fn holds_key<T>(bucket: Seq<(Bytes, T)>, key: Seq<u8>) -> bool {
    exists|i: int| 0 <= i < bucket.len() && bytes_view(#[trigger] bucket[i].0) == key
}

/// Whether a bucket holds exactly the entries of `m` with hash `h`, each once.
spec fn bucket_ok<T>(bucket: Seq<(Bytes, T)>, h: u64, m: Map<Seq<u8>, T>) -> bool {
    &&& forall|i: int|
        0 <= i < bucket.len() ==> {
            &&& key_hash(bytes_view(#[trigger] bucket[i].0)) == h
            &&& m.contains_key(bytes_view(bucket[i].0))
            &&& m[bytes_view(bucket[i].0)] == bucket[i].1
        }
    &&& forall|i: int, j: int|
        0 <= i < j < bucket.len() ==> bytes_view(#[trigger] bucket[i].0) != bytes_view(
            #[trigger] bucket[j].0,
        )
    &&& forall|k: Seq<u8>| #[trigger]
        m.contains_key(k) && key_hash(k) == h ==> holds_key(bucket, k)
}

impl<T> View for ByteMap<T> {
    type V = Map<Seq<u8>, T>;

    closed spec fn view(&self) -> Map<Seq<u8>, T> {
        self.map@
    }
}

impl<T> ByteMap<T> {
    /// Every entry is in the bucket of its hash, and in no other.
    pub closed spec fn wf(&self) -> bool {
        &&& self.map@.dom().finite()
        &&& forall|h: u64| #[trigger]
            self.buckets@.contains_key(h) ==> bucket_ok(self.buckets@[h]@, h, self.map@)
        &&& forall|k: Seq<u8>| #[trigger]
            self.map@.contains_key(k) ==> self.buckets@.contains_key(key_hash(k))
    }

    /// A map holds finitely many keys.
    pub proof fn lemma_finite(&self)
        requires
            self.wf(),
        ensures
            self@.dom().finite(),
    {
    }

    /// An empty map.
    pub fn new() -> (r: Self)
        ensures
            r.wf(),
            r@ == Map::<Seq<u8>, T>::empty(),
    {
        ByteMap { buckets: HashMap::new(), map: Ghost(Map::empty()) }
    }

    /// The position of `key` in a bucket.
    fn find(bucket: &Vec<(Bytes, T)>, key: &[u8]) -> (r: Option<usize>)
        ensures
            match r {
                Some(i) => i < bucket@.len() && bytes_view(bucket@[i as int].0) == key@,
                None => !holds_key(bucket@, key@),
            },
    {
        let mut i: usize = 0;
        while i < bucket.len()
            invariant
                i <= bucket@.len(),
                forall|j: int| 0 <= j < i ==> bytes_view(#[trigger] bucket@[j].0) != key@,
            decreases bucket@.len() - i,
        {
            if same_bytes(as_slice(&bucket[i].0), key) {
                return Some(i);
            }
            i = i + 1;
        }
        None
    }

    /// The value under `key`.
    pub fn get(&self, key: &[u8]) -> (r: Option<&T>)
        requires
            self.wf(),
        ensures
            match r {
                Some(v) => self@.contains_key(key@) && self@[key@] == *v,
                None => !self@.contains_key(key@),
            },
    {
        let h: u64 = wyhash::wyhash(key, ROUTE_SEED);
        match self.buckets.get(&h) {
            None => None,
            Some(bucket) => match ByteMap::find(bucket, key) {
                None => None,
                Some(i) => Some(&bucket[i].1),
            },
        }
    }

    /// Puts `value` under `key` and returns what it displaces.
    pub fn insert(&mut self, key: Bytes, value: T) -> (r: Option<T>)
        requires
            old(self).wf(),
        ensures
            final(self).wf(),
            final(self)@ == old(self)@.insert(bytes_view(key), value),
            match r {
                Some(v) => old(self)@.contains_key(bytes_view(key)) && old(self)@[bytes_view(key)]
                    == v,
                None => !old(self)@.contains_key(bytes_view(key)),
            },
    {
        let ghost k = bytes_view(key);
        let ghost m = self.map@;
        let ghost m2 = m.insert(k, value);
        let h: u64 = wyhash::wyhash(as_slice(&key), ROUTE_SEED);
        let mut bucket: Vec<(Bytes, T)> = match self.buckets.remove(&h) {
            Some(b) => b,
            None => Vec::new(),
        };
        let ghost before = bucket@;
        assert(bucket_ok(before, h, m));
        let r = match ByteMap::find(&bucket, as_slice(&key)) {
            Some(i) => {
                let (_, displaced) = bucket.swap_remove(i);
                Some(displaced)
            },
            None => None,
        };
        let ghost mid = bucket@;
        assert(bucket_ok(mid, h, m.remove(k))) by {
            if holds_key(before, k) {
                lemma_swap_remove(before, mid, h, m, k);
            }
        }
        bucket.push((key, value));
        proof {
            let after = bucket@;
            assert forall|x: Seq<u8>| #[trigger] m2.contains_key(x) && key_hash(x) == h implies holds_key(
                after,
                x,
            ) by {
                if x == k {
                    assert(bytes_view(after[after.len() - 1].0) == x);
                } else {
                    assert(m.remove(k).contains_key(x));
                    let i = choose|i: int| 0 <= i < mid.len() && bytes_view(#[trigger] mid[i].0) == x;
                    assert(bytes_view(after[i].0) == x);
                }
            }
            assert forall|i: int| 0 <= i < after.len() implies {
                &&& key_hash(bytes_view(#[trigger] after[i].0)) == h
                &&& m2.contains_key(bytes_view(after[i].0))
                &&& m2[bytes_view(after[i].0)] == after[i].1
            } by {
                if i < mid.len() {
                    assert(after[i] == mid[i]);
                    assert(m.remove(k).contains_key(bytes_view(mid[i].0)));
                }
            }
            assert forall|i: int, j: int| 0 <= i < j < after.len() implies bytes_view(
                #[trigger] after[i].0,
            ) != bytes_view(#[trigger] after[j].0) by {
                assert(after[i] == mid[i]);
                assert(m.remove(k).contains_key(bytes_view(mid[i].0)));
                if j < mid.len() {
                    assert(after[j] == mid[j]);
                }
            }
            assert(bucket_ok(after, h, m2));
        }
        self.buckets.insert(h, bucket);
        self.map = Ghost(m2);
        proof {
            lemma_other_buckets(old(self).buckets@, self.buckets@, h, m, m2, k);
        }
        r
    }

    /// Takes the entry under `key` out.
    pub fn remove(&mut self, key: &[u8]) -> (r: Option<T>)
        requires
            old(self).wf(),
        ensures
            final(self).wf(),
            final(self)@ == old(self)@.remove(key@),
            match r {
                Some(v) => old(self)@.contains_key(key@) && old(self)@[key@] == v,
                None => !old(self)@.contains_key(key@),
            },
    {
        let ghost k = key@;
        let ghost m = self.map@;
        let ghost m2 = m.remove(k);
        let h: u64 = wyhash::wyhash(key, ROUTE_SEED);
        let mut bucket: Vec<(Bytes, T)> = match self.buckets.remove(&h) {
            Some(b) => b,
            None => Vec::new(),
        };
        let ghost before = bucket@;
        assert(bucket_ok(before, h, m));
        let r = match ByteMap::find(&bucket, key) {
            Some(i) => {
                let (_, removed) = bucket.swap_remove(i);
                Some(removed)
            },
            None => None,
        };
        proof {
            assert(bucket_ok(bucket@, h, m2)) by {
                if holds_key(before, k) {
                    lemma_swap_remove(before, bucket@, h, m, k);
                }
            }
        }
        if bucket.len() > 0 {
            self.buckets.insert(h, bucket);
        }
        self.map = Ghost(m2);
        proof {
            lemma_other_buckets(old(self).buckets@, self.buckets@, h, m, m2, k);
        }
        r
    }
}

/// Taking the entry of `k` out of its bucket, and filling the gap with the last
/// entry, leaves the bucket of the map without `k`.
proof fn lemma_swap_remove<T>(
    before: Seq<(Bytes, T)>,
    after: Seq<(Bytes, T)>,
    h: u64,
    m: Map<Seq<u8>, T>,
    k: Seq<u8>,
)
    requires
        bucket_ok(before, h, m),
        exists|i: int|
            {
                &&& 0 <= i < before.len()
                &&& bytes_view(#[trigger] before[i].0) == k
                &&& after == before.update(i, before.last()).drop_last()
            },
    ensures
        bucket_ok(after, h, m.remove(k)),
{
    let i = choose|i: int|
        {
            &&& 0 <= i < before.len()
            &&& bytes_view(#[trigger] before[i].0) == k
            &&& after == before.update(i, before.last()).drop_last()
        };
    let last = before.len() - 1;
    assert forall|j: int| 0 <= j < after.len() implies {
        &&& key_hash(bytes_view(#[trigger] after[j].0)) == h
        &&& m.remove(k).contains_key(bytes_view(after[j].0))
        &&& m.remove(k)[bytes_view(after[j].0)] == after[j].1
    } by {
        let from = if j == i {
            last
        } else {
            j
        };
        assert(after[j] == before[from]);
        assert(bytes_view(before[from].0) != bytes_view(before[i].0));
    }
    assert forall|a: int, b: int| 0 <= a < b < after.len() implies bytes_view(
        #[trigger] after[a].0,
    ) != bytes_view(#[trigger] after[b].0) by {
        let fa = if a == i {
            last
        } else {
            a
        };
        let fb = if b == i {
            last
        } else {
            b
        };
        assert(after[a] == before[fa] && after[b] == before[fb]);
        assert(bytes_view(before[fa].0) != bytes_view(before[fb].0));
    }
    assert forall|x: Seq<u8>| #[trigger]
        m.remove(k).contains_key(x) && key_hash(x) == h implies holds_key(after, x) by {
        assert(m.contains_key(x));
        let j = choose|j: int| 0 <= j < before.len() && bytes_view(#[trigger] before[j].0) == x;
        assert(j != i);
        let to = if j == last {
            i
        } else {
            j
        };
        assert(after[to] == before[j]);
        assert(bytes_view(after[to].0) == x);
    }
}

/// Buckets other than that of `k` do not notice a change under `k`.
proof fn lemma_other_buckets<T>(
    before: Map<u64, Vec<(Bytes, T)>>,
    after: Map<u64, Vec<(Bytes, T)>>,
    h: u64,
    m: Map<Seq<u8>, T>,
    m2: Map<Seq<u8>, T>,
    k: Seq<u8>,
)
    requires
        key_hash(k) == h,
        m2.remove(k) =~= m.remove(k),
        forall|g: u64| #[trigger] before.contains_key(g) ==> bucket_ok(before[g]@, g, m),
        forall|x: Seq<u8>| #[trigger] m.contains_key(x) ==> before.contains_key(key_hash(x)),
        after.remove(h) =~= before.remove(h),
        after.contains_key(h) ==> bucket_ok(after[h]@, h, m2),
        !after.contains_key(h) ==> forall|x: Seq<u8>| #[trigger]
            m2.contains_key(x) ==> key_hash(x) != h,
    ensures
        forall|g: u64| #[trigger] after.contains_key(g) ==> bucket_ok(after[g]@, g, m2),
        forall|x: Seq<u8>| #[trigger] m2.contains_key(x) ==> after.contains_key(key_hash(x)),
{
    assert forall|x: Seq<u8>| x != k implies (#[trigger] m2.contains_key(x) <==> m.contains_key(x))
        && (m.contains_key(x) ==> m2[x] == m[x]) by {
        assert(m2.remove(k).contains_key(x) <==> m2.contains_key(x));
        assert(m.remove(k).contains_key(x) <==> m.contains_key(x));
        if m.contains_key(x) {
            assert(m2.remove(k)[x] == m.remove(k)[x]);
        }
    }
    assert forall|g: u64| #[trigger] after.contains_key(g) implies bucket_ok(after[g]@, g, m2) by {
        if g != h {
            assert(after.remove(h).contains_key(g));
            assert(before.remove(h).contains_key(g));
            assert(after.remove(h)[g] == before.remove(h)[g]);
            let b = before[g]@;
            assert(after[g]@ == b);
            assert(bucket_ok(b, g, m));
            assert forall|i: int| 0 <= i < b.len() implies {
                &&& key_hash(bytes_view(#[trigger] b[i].0)) == g
                &&& m2.contains_key(bytes_view(b[i].0))
                &&& m2[bytes_view(b[i].0)] == b[i].1
            } by {
                assert(key_hash(bytes_view(b[i].0)) == g);
                assert(m.contains_key(bytes_view(b[i].0)));
                assert(m2.contains_key(bytes_view(b[i].0)) <==> m.contains_key(bytes_view(b[i].0)));
            }
            assert forall|x: Seq<u8>| #[trigger]
                m2.contains_key(x) && key_hash(x) == g implies holds_key(b, x) by {
                assert(x != k);
                assert(m.contains_key(x));
            }
        }
    }
    assert forall|x: Seq<u8>| #[trigger] m2.contains_key(x) implies after.contains_key(
        key_hash(x),
    ) by {
        if key_hash(x) != h {
            assert(m.contains_key(x));
            assert(before.remove(h).contains_key(key_hash(x)));
            assert(after.remove(h).contains_key(key_hash(x)));
        }
    }
}

} // verus!
