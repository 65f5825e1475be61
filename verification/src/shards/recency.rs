//! Keys in the order of their last use: a doubly linked list over slots, with a
//! map from each key to its slot.

use bytes::Bytes;
use vstd::prelude::*;

use crate::buffer::{as_slice, bytes_view};
use crate::shards::map::ByteMap;

verus! {

/// One key in the list.
struct Node {
    key: Bytes,
    prev: Option<usize>,
    next: Option<usize>,
}

/// Keys from the one used longest ago to the one used last.
pub struct Recency {
    nodes: Vec<Node>,
    free: Vec<usize>,
    slots: ByteMap<usize>,
    head: Option<usize>,
    tail: Option<usize>,
    order: Ghost<Seq<usize>>,
}

/// `s` without `k`, the rest in order.
pub open spec fn without(s: Seq<Seq<u8>>, k: Seq<u8>) -> Seq<Seq<u8>> {
    if s.contains(k) {
        s.remove(s.index_of(k))
    } else {
        s
    }
}

/// The slot at position `i` of the list, if there is one.
spec fn slot_at(order: Seq<usize>, i: int) -> Option<usize> {
    if 0 <= i < order.len() {
        Some(order[i])
    } else {
        None
    }
}

/// Whether the node at position `i` of `order` points to its neighbours.
spec fn node_ok(nodes: Seq<Node>, order: Seq<usize>, i: int) -> bool {
    &&& order[i] < nodes.len()
    &&& nodes[order[i] as int].prev == slot_at(order, i - 1)
    &&& nodes[order[i] as int].next == slot_at(order, i + 1)
}

/// Whether the nodes are linked in the order of `order`.
spec fn linked(nodes: Seq<Node>, order: Seq<usize>) -> bool {
    &&& order.no_duplicates()
    &&& forall|i: int| 0 <= i < order.len() ==> #[trigger] node_ok(nodes, order, i)
}

/// The keys of the list, in order.
spec fn keys_in_order(nodes: Seq<Node>, order: Seq<usize>) -> Seq<Seq<u8>> {
    Seq::new(order.len(), |i: int| bytes_view(nodes[order[i] as int].key))
}

/// Whether two node sequences hold the same keys in the same slots.
spec fn same_keys(a: Seq<Node>, b: Seq<Node>) -> bool {
    &&& a.len() == b.len()
    &&& forall|i: int| 0 <= i < a.len() ==> (#[trigger] b[i]).key == a[i].key
}

/// Linked slots are slots of nodes.
proof fn lemma_in_range(nodes: Seq<Node>, order: Seq<usize>)
    requires
        linked(nodes, order),
    ensures
        forall|i: int| 0 <= i < order.len() ==> (#[trigger] order[i]) < nodes.len(),
{
    assert forall|i: int| 0 <= i < order.len() implies (#[trigger] order[i]) < nodes.len() by {
        assert(node_ok(nodes, order, i));
    }
}

/// A slot that stood once in the chain is not in it after its removal.
proof fn lemma_removed_is_gone(order: Seq<usize>, p: int)
    requires
        order.no_duplicates(),
        0 <= p < order.len(),
    ensures
        !order.remove(p).contains(order[p]),
{
    let shorter = order.remove(p);
    if shorter.contains(order[p]) {
        let i = shorter.index_of(order[p]);
        assert(shorter[i] == order[if i < p {
            i
        } else {
            i + 1
        }]);
    }
}

/// Removing a slot leaves the other members of the chain.
proof fn lemma_same_members(order: Seq<usize>, p: int)
    requires
        0 <= p < order.len(),
    ensures
        forall|s: usize| s != order[p] && order.contains(s) ==> #[trigger] order.remove(p).contains(s),
        forall|s: usize| #[trigger] order.remove(p).contains(s) ==> order.contains(s),
{
    let shorter = order.remove(p);
    assert forall|s: usize| s != order[p] && order.contains(s) implies #[trigger] shorter.contains(s) by {
        let i = order.index_of(s);
        assert(shorter[if i < p {
            i
        } else {
            i - 1
        }] == s);
    }
    assert forall|s: usize| #[trigger] shorter.contains(s) implies order.contains(s) by {
        let i = shorter.index_of(s);
        assert(order[if i < p {
            i
        } else {
            i + 1
        }] == s);
    }
}

impl View for Recency {
    type V = Seq<Seq<u8>>;

    closed spec fn view(&self) -> Seq<Seq<u8>> {
        keys_in_order(self.nodes@, self.order@)
    }
}

impl Recency {
    /// The list is linked in its order, and the map finds each key's node.
    pub closed spec fn wf(&self) -> bool {
        &&& self.slots.wf()
        &&& linked(self.nodes@, self.order@)
        &&& self.head == slot_at(self.order@, 0)
        &&& self.tail == slot_at(self.order@, self.order@.len() - 1)
        &&& forall|i: int|
            0 <= i < self.order@.len() ==> {
                let k = bytes_view(self.nodes@[#[trigger] self.order@[i] as int].key);
                self.slots@.contains_key(k) && self.slots@[k] == self.order@[i]
            }
        &&& forall|k: Seq<u8>| #[trigger]
            self.slots@.contains_key(k) ==> {
                &&& self.order@.contains(self.slots@[k])
                &&& bytes_view(self.nodes@[self.slots@[k] as int].key) == k
            }
        &&& self.free@.no_duplicates()
        &&& forall|i: int|
            0 <= i < self.free@.len() ==> {
                &&& (#[trigger] self.free@[i]) < self.nodes@.len()
                &&& !self.order@.contains(self.free@[i])
            }
    }

    /// An empty list.
    pub fn new() -> (r: Self)
        ensures
            r.wf(),
            r@ == Seq::<Seq<u8>>::empty(),
    {
        let r = Recency {
            nodes: Vec::new(),
            free: Vec::new(),
            slots: ByteMap::new(),
            head: None,
            tail: None,
            order: Ghost(Seq::empty()),
        };
        assert(r@ =~= Seq::<Seq<u8>>::empty());
        r
    }

    /// No key stands twice in the list.
    pub proof fn lemma_no_duplicates(&self)
        requires
            self.wf(),
        ensures
            self@.no_duplicates(),
    {
        assert forall|i: int, j: int| 0 <= i < self@.len() && 0 <= j < self@.len() && i != j implies
            self@[i] != self@[j] by {
            assert(self.order@[i] != self.order@[j]);
        }
    }

    /// The key used longest ago.
    pub fn oldest(&self) -> (r: Option<Bytes>)
        requires
            self.wf(),
        ensures
            match r {
                Some(k) => self@.len() > 0 && bytes_view(k) == self@[0],
                None => self@.len() == 0,
            },
    {
        match self.head {
            Some(slot) => {
                assert(node_ok(self.nodes@, self.order@, 0));
                Some(self.nodes[slot].key.clone())
            },
            None => None,
        }
    }

    /// The list structure, apart from the map and the free slots.
    spec fn chained(&self) -> bool {
        &&& linked(self.nodes@, self.order@)
        &&& self.head == slot_at(self.order@, 0)
        &&& self.tail == slot_at(self.order@, self.order@.len() - 1)
    }

    /// Takes the node at position `p` out of the chain.
    fn unlink(&mut self, slot: usize, Ghost(p): Ghost<int>)
        requires
            old(self).chained(),
            0 <= p < old(self).order@.len(),
            old(self).order@[p] == slot,
        ensures
            final(self).chained(),
            final(self).order@ == old(self).order@.remove(p),
            same_keys(old(self).nodes@, final(self).nodes@),
            final(self).free == old(self).free,
            final(self).slots == old(self).slots,
    {
        let ghost order = self.order@;
        let ghost shorter = order.remove(p);
        assert(node_ok(self.nodes@, order, p));
        proof {
            if p > 0 {
                assert(node_ok(self.nodes@, order, p - 1));
            }
            if p + 1 < order.len() {
                assert(node_ok(self.nodes@, order, p + 1));
            }
        }
        let prev: Option<usize> = self.nodes[slot].prev;
        let next: Option<usize> = self.nodes[slot].next;
        match prev {
            Some(a) => {
                assert(a == order[p - 1]);
                self.nodes[a].next = next;
            },
            None => {
                self.head = next;
            },
        }
        match next {
            Some(b) => {
                assert(b == order[p + 1]);
                self.nodes[b].prev = prev;
            },
            None => {
                self.tail = prev;
            },
        }
        self.order = Ghost(shorter);
        proof {
            assert(shorter.no_duplicates());
            assert forall|i: int| 0 <= i < shorter.len() implies #[trigger] node_ok(
                self.nodes@,
                shorter,
                i,
            ) by {
                let from = if i < p {
                    i
                } else {
                    i + 1
                };
                assert(node_ok(old(self).nodes@, order, from));
                assert(shorter[i] == order[from]);
                assert(order[from] != order[p]);
                if p > 0 {
                    assert(from != p - 1 ==> order[from] != order[p - 1]);
                }
                if p + 1 < order.len() {
                    assert(from != p + 1 ==> order[from] != order[p + 1]);
                }
            }
        }
    }

    /// Puts a node that is not in the chain at its end.
    fn link_last(&mut self, slot: usize)
        requires
            old(self).chained(),
            slot < old(self).nodes@.len(),
            !old(self).order@.contains(slot),
        ensures
            final(self).chained(),
            final(self).order@ == old(self).order@.push(slot),
            same_keys(old(self).nodes@, final(self).nodes@),
            final(self).free == old(self).free,
            final(self).slots == old(self).slots,
    {
        let ghost order = self.order@;
        let ghost longer = order.push(slot);
        let last: Option<usize> = self.tail;
        proof {
            if order.len() > 0 {
                assert(node_ok(self.nodes@, order, order.len() - 1));
                assert(order.contains(order[order.len() - 1]));
            }
        }
        self.nodes[slot].prev = last;
        self.nodes[slot].next = None;
        match last {
            Some(a) => {
                assert(a == order[order.len() - 1]);
                self.nodes[a].next = Some(slot);
            },
            None => {
                self.head = Some(slot);
            },
        }
        self.tail = Some(slot);
        self.order = Ghost(longer);
        proof {
            assert forall|i: int, j: int|
                0 <= i < longer.len() && 0 <= j < longer.len() && i != j implies longer[i]
                != longer[j] by {
                if i < order.len() {
                    assert(order.contains(order[i]));
                }
                if j < order.len() {
                    assert(order.contains(order[j]));
                }
            }
            assert forall|i: int| 0 <= i < longer.len() implies #[trigger] node_ok(
                self.nodes@,
                longer,
                i,
            ) by {
                if i < order.len() {
                    assert(longer[i] == order[i]);
                    assert(order.contains(order[i]));
                    assert(node_ok(old(self).nodes@, order, i));
                }
            }
        }
    }

    /// Makes `key` the one used last.
    pub fn touch(&mut self, key: &Bytes)
        requires
            old(self).wf(),
        ensures
            final(self).wf(),
            final(self)@ == without(old(self)@, bytes_view(*key)).push(bytes_view(*key)),
    {
        let ghost k = bytes_view(*key);
        let ghost order = self.order@;
        proof {
            self.lemma_no_duplicates();
            lemma_in_range(self.nodes@, order);
        }
        let found: Option<usize> = match self.slots.get(as_slice(key)) {
            Some(s) => Some(*s),
            None => None,
        };
        match found {
            Some(slot) => {
                let ghost p = order.index_of(slot);
                assert(self@[p] == k);
                assert(self@.index_of(k) == p);
                self.unlink(slot, Ghost(p));
                assert(!self.order@.contains(slot)) by {
                    lemma_removed_is_gone(order, p);
                }
                self.link_last(slot);
                proof {
                    let now = self.order@;
                    assert(now == order.remove(p).push(slot));
                    lemma_same_members(order, p);
                    assert forall|i: int| 0 <= i < self@.len() implies #[trigger] self@[i]
                        == old(self)@.remove(p).push(k)[i] by {
                        if i < order.len() - 1 {
                            assert(now[i] == order[if i < p {
                                i
                            } else {
                                i + 1
                            }]);
                        }
                    }
                    assert(self@ =~= old(self)@.remove(p).push(k));
                    assert(now.contains(slot)) by {
                        assert(now[order.len() - 1] == slot);
                    }
                    assert forall|i: int| 0 <= i < now.len() implies {
                        let x = bytes_view(self.nodes@[#[trigger] now[i] as int].key);
                        self.slots@.contains_key(x) && self.slots@[x] == now[i]
                    } by {
                        let from = if i == order.len() - 1 {
                            p
                        } else if i < p {
                            i
                        } else {
                            i + 1
                        };
                        assert(now[i] == order[from]);
                    }
                    assert forall|x: Seq<u8>| #[trigger] self.slots@.contains_key(x) implies {
                        &&& now.contains(self.slots@[x])
                        &&& bytes_view(self.nodes@[self.slots@[x] as int].key) == x
                    } by {
                        let o = self.slots@[x];
                        if o != slot {
                            assert(order.remove(p).contains(o));
                            let i = order.remove(p).index_of(o);
                            assert(now[i] == o);
                        }
                    }
                    assert forall|i: int| 0 <= i < self.free@.len() implies {
                        &&& (#[trigger] self.free@[i]) < self.nodes@.len()
                        &&& !now.contains(self.free@[i])
                    } by {
                        if now.contains(self.free@[i]) {
                            let j = now.index_of(self.free@[i]);
                            if j < order.len() - 1 {
                                assert(order.remove(p).contains(now[j])) by {
                                    assert(order.remove(p)[j] == now[j]);
                                }
                            } else {
                                assert(now[j] == order[p]);
                            }
                        }
                    }
                }
            },
            None => {
                let node = Node { key: key.clone(), prev: None, next: None };
                let slot: usize = match self.free.pop() {
                    Some(s) => {
                        assert(old(self).free@[old(self).free@.len() - 1] == s);
                        self.nodes.set(s, node);
                        s
                    },
                    None => {
                        let s: usize = self.nodes.len();
                        self.nodes.push(node);
                        s
                    },
                };
                proof {
                    assert(!order.contains(slot));
                    assert forall|i: int| 0 <= i < order.len() implies #[trigger] order[i] != slot by {
                        assert(order.contains(order[i]));
                    }
                    assert forall|i: int| 0 <= i < order.len() implies #[trigger] node_ok(
                        self.nodes@,
                        order,
                        i,
                    ) by {
                        assert(node_ok(old(self).nodes@, order, i));
                    }
                }
                self.slots.insert(key.clone(), slot);
                self.link_last(slot);
                proof {
                    assert(!old(self)@.contains(k)) by {
                        if old(self)@.contains(k) {
                            let i = old(self)@.index_of(k);
                            assert(old(self).order@[i] == order[i]);
                        }
                    }
                    assert(self@ =~= old(self)@.push(k));
                    assert(self.order@.contains(slot)) by {
                        assert(self.order@[order.len() as int] == slot);
                    }
                    assert forall|x: Seq<u8>| #[trigger] self.slots@.contains_key(x) implies {
                        &&& self.order@.contains(self.slots@[x])
                        &&& bytes_view(self.nodes@[self.slots@[x] as int].key) == x
                    } by {
                        if x != k {
                            let o = old(self).slots@[x];
                            let i = order.index_of(o);
                            assert(self.order@[i] == o);
                        }
                    }
                }
            },
        }
    }

    /// Takes `key` off the list.
    pub fn forget(&mut self, key: &[u8])
        requires
            old(self).wf(),
        ensures
            final(self).wf(),
            final(self)@ == without(old(self)@, key@),
    {
        let ghost order = self.order@;
        proof {
            self.lemma_no_duplicates();
            lemma_in_range(self.nodes@, order);
        }
        match self.slots.remove(key) {
            Some(slot) => {
                let ghost p = order.index_of(slot);
                assert(self@[p] == key@);
                assert(self@.index_of(key@) == p);
                self.unlink(slot, Ghost(p));
                self.free.push(slot);
                proof {
                    lemma_removed_is_gone(order, p);
                    lemma_same_members(order, p);
                    assert forall|i: int| 0 <= i < self@.len() implies #[trigger] self@[i]
                        == old(self)@.remove(p)[i] by {
                        assert(self.order@[i] == order[if i < p {
                            i
                        } else {
                            i + 1
                        }]);
                    }
                    assert(self@ =~= old(self)@.remove(p));
                    assert forall|i: int| 0 <= i < self.order@.len() implies {
                        let x = bytes_view(self.nodes@[#[trigger] self.order@[i] as int].key);
                        self.slots@.contains_key(x) && self.slots@[x] == self.order@[i]
                    } by {
                        let from = if i < p {
                            i
                        } else {
                            i + 1
                        };
                        assert(self.order@[i] == order[from]);
                        assert(order[from] != order[p]);
                    }
                    assert forall|x: Seq<u8>| #[trigger] self.slots@.contains_key(x) implies {
                        &&& self.order@.contains(self.slots@[x])
                        &&& bytes_view(self.nodes@[self.slots@[x] as int].key) == x
                    } by {
                        assert(old(self).slots@.contains_key(x));
                    }
                    assert forall|i: int| 0 <= i < self.free@.len() implies {
                        &&& (#[trigger] self.free@[i]) < self.nodes@.len()
                        &&& !self.order@.contains(self.free@[i])
                    } by {
                        if i < old(self).free@.len() {
                            assert(self.free@[i] == old(self).free@[i]);
                        }
                    }
                }
            },
            None => {
                assert(!self@.contains(key@)) by {
                    if self@.contains(key@) {
                        let i = self@.index_of(key@);
                        assert(self.order@[i] == order[i]);
                    }
                }
            },
        }
    }
}

/// Taking a key out of an order leaves the others as they stood.
pub proof fn law_without_leaves_the_rest(front: Seq<Seq<u8>>, k: Seq<u8>, behind: Seq<Seq<u8>>)
    requires
        !front.contains(k),
        !behind.contains(k),
    ensures
        without(front, k) == front,
        without(front + seq![k] + behind, k) == front + behind,
{
    let s = front + seq![k] + behind;
    let i = front.len() as int;
    assert(s[i] == k);
    assert(s.contains(k));
    let j = s.index_of(k);
    assert(s[j] == k);
    if j < i {
        assert(front[j] == k);
    } else if j > i {
        assert(behind[j - i - 1] == k);
    }
    assert(s.remove(i) =~= front + behind);
}

} // verus!
