//! The in-memory store of a shard.

use bytes::Bytes;
use vstd::prelude::*;

use crate::buffer::bytes_view;
use crate::shards::map::ByteMap;

verus! {

/// A map from keys to values, owned by one shard.
pub struct Worker {
    store: ByteMap<Bytes>,
}

impl View for Worker {
    type V = Map<Seq<u8>, Seq<u8>>;

    closed spec fn view(&self) -> Map<Seq<u8>, Seq<u8>> {
        self.store@.map_values(|b: Bytes| bytes_view(b))
    }
}

impl Worker {
    /// The representation is sound.
    pub closed spec fn wf(&self) -> bool {
        self.store.wf()
    }

    /// A store holds finitely many keys.
    pub proof fn lemma_finite(&self)
        requires
            self.wf(),
        ensures
            self@.dom().finite(),
    {
        self.store.lemma_finite();
        assert(self@.dom() =~= self.store@.dom());
    }

    /// An empty store.
    pub fn start() -> (r: Self)
        ensures
            r.wf(),
            r@ == Map::<Seq<u8>, Seq<u8>>::empty(),
    {
        let r = Worker { store: ByteMap::new() };
        assert(r@ =~= Map::empty());
        r
    }

    /// Puts `v` under `k`; says whether `k` was there before.
    pub fn set(&mut self, k: Bytes, v: Bytes) -> (replaced: bool)
        requires
            old(self).wf(),
        ensures
            final(self).wf(),
            final(self)@ == old(self)@.insert(bytes_view(k), bytes_view(v)),
            replaced == old(self)@.contains_key(bytes_view(k)),
    {
        let replaced = self.store.insert(k, v).is_some();
        assert(self@ =~= old(self)@.insert(bytes_view(k), bytes_view(v)));
        replaced
    }

    /// The value under `k`.
    pub fn get(&self, k: &[u8]) -> (r: Option<Bytes>)
        requires
            self.wf(),
        ensures
            match r {
                Some(v) => self@.contains_key(k@) && self@[k@] == bytes_view(v),
                None => !self@.contains_key(k@),
            },
    {
        match self.store.get(k) {
            Some(v) => Some(v.clone()),
            None => None,
        }
    }

    /// Removes `k`; says whether it was there.
    pub fn delete(&mut self, k: &[u8]) -> (removed: bool)
        requires
            old(self).wf(),
        ensures
            final(self).wf(),
            final(self)@ == old(self)@.remove(k@),
            removed == old(self)@.contains_key(k@),
    {
        let removed = self.store.remove(k).is_some();
        assert(self@ =~= old(self)@.remove(k@));
        removed
    }
}

} // verus!
