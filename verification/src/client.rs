//! The client's side of a connection, without the socket: frames to send,
//! replies to understand, and the pool of request ids.

use bytes::Bytes;
use vstd::prelude::*;
use vstd::set_lib::*;
use vstd::string::*;
use vstd::utf8::encode_utf8;

use crate::buffer::{as_slice, bytes_from_vec, bytes_view};
use crate::common::{
    decoded, envelope, law_decode_inverts_encode, DecodeError, EncodeError, FrameKind, FrameView,
    FRAME_HEAD_LEN,
};
use crate::hashing::shard_of;
use crate::server::{credentials, opening, planned, response_view, OpeningView, PlanView};
use crate::shards::model::{law_get_after_set, map_after, reply_to, Item};
use crate::text::{ascii, push_text, same_bytes, text_bytes};
use crate::utils::{
    command_of, field, nil_text, ok_text, one_text, Command, ParseError, OP_DEL, OP_GET, OP_SET,
    OP_SETEX,
};
use crate::wire::{
    be_bytes, be_value, law_bytes_spell_their_number, law_number_is_its_bytes, lemma_be_bytes_len,
    lemma_be_round_trip, lemma_be_value_bound, lemma_pow256_values, push_be, read_be,
};

verus! {

/// A request payload `[op][klen:u16 BE][key][value]`, for a key of at most 65535
/// bytes.
pub open spec fn request_payload(op: u8, key: Seq<u8>, value: Seq<u8>) -> Seq<u8> {
    seq![op] + be_bytes(key.len(), 2) + key + value
}

/// Builds a request payload `[op][klen:u16 BE][key][value]`. A key that is longer
/// than the length field can say is refused.
pub fn encode(op: u8, key: &[u8], value: &[u8]) -> (r: Result<Vec<u8>, EncodeError>)
    ensures
        match r {
            Ok(p) => key@.len() <= u16::MAX && p@ == request_payload(op, key@, value@),
            Err(e) => key@.len() > u16::MAX && e == EncodeError::KeyTooLong,
        },
{
    if key.len() > 0xffff {
        return Err(EncodeError::KeyTooLong);
    }
    let mut p: Vec<u8> = Vec::new();
    p.push(op);
    push_be(&mut p, key.len() as u64, 2);
    p.extend_from_slice(key);
    p.extend_from_slice(value);
    assert(p@ =~= request_payload(op, key@, value@));
    Ok(p)
}

/// A SETEX payload `[op][klen:u16 BE][key][ttl_ms:u32 BE][value]`, for a key of at
/// most 65535 bytes.
pub open spec fn setex_payload(key: Seq<u8>, value: Seq<u8>, ttl_ms: u32) -> Seq<u8> {
    seq![OP_SETEX] + be_bytes(key.len(), 2) + key + be_bytes(ttl_ms as nat, 4) + value
}

/// Builds a SETEX payload `[op][klen:u16 BE][key][ttl_ms:u32 BE][value]`. A key
/// that is longer than the length field can say is refused.
pub fn encode_setex(key: &[u8], value: &[u8], ttl_ms: u32) -> (r: Result<Vec<u8>, EncodeError>)
    ensures
        match r {
            Ok(p) => key@.len() <= u16::MAX && p@ == setex_payload(key@, value@, ttl_ms),
            Err(e) => key@.len() > u16::MAX && e == EncodeError::KeyTooLong,
        },
{
    if key.len() > 0xffff {
        return Err(EncodeError::KeyTooLong);
    }
    let mut p: Vec<u8> = Vec::new();
    p.push(OP_SETEX);
    push_be(&mut p, key.len() as u64, 2);
    p.extend_from_slice(key);
    push_be(&mut p, ttl_ms as u64, 4);
    p.extend_from_slice(value);
    assert(p@ =~= setex_payload(key@, value@, ttl_ms));
    Ok(p)
}

/// A handshake payload `[ulen:u16 BE][username][password]`, for a user name of at
/// most 65535 bytes.
pub open spec fn handshake_payload(user: Seq<u8>, pass: Seq<u8>) -> Seq<u8> {
    be_bytes(user.len(), 2) + user + pass
}

/// The bytes of a frame with this payload. A payload that is longer than the
/// length field can say is refused.
fn frame_bytes(kind: FrameKind, req_id: u32, payload: &[u8]) -> (r: Result<Vec<u8>, EncodeError>)
    ensures
        match r {
            Ok(frame) => payload@.len() <= u16::MAX && frame@ == envelope(
                kind.spec_code(),
                req_id,
                payload@,
            ),
            Err(e) => payload@.len() > u16::MAX && e == EncodeError::PayloadTooLong,
        },
{
    if payload.len() > 0xffff {
        return Err(EncodeError::PayloadTooLong);
    }
    let mut out: Vec<u8> = Vec::new();
    out.push(kind.code());
    push_be(&mut out, req_id as u64, 4);
    push_be(&mut out, payload.len() as u64, 2);
    out.extend_from_slice(payload);
    assert(out@ =~= envelope(kind.spec_code(), req_id, payload@));
    Ok(out)
}

/// The bytes that open a connection: a handshake with the credentials, under the
/// id `0`. Both are empty where the server asks for none. Credentials that are
/// longer than the length fields can say are refused.
pub fn handshake_frame(username: &str, password: &str) -> (r: Result<Vec<u8>, EncodeError>)
    ensures
        ({
            let user = encode_utf8(username@);
            let pass = encode_utf8(password@);
            match r {
                Ok(frame) => {
                    &&& 2 + user.len() + pass.len() <= u16::MAX
                    &&& frame@ == envelope(
                        FrameKind::HandShake.spec_code(),
                        0,
                        handshake_payload(user, pass),
                    )
                },
                Err(e) => {
                    &&& 2 + user.len() + pass.len() > u16::MAX
                    &&& e == if user.len() > u16::MAX {
                        EncodeError::UserTooLong
                    } else {
                        EncodeError::PayloadTooLong
                    }
                },
            }
        }),
{
    broadcast use lemma_be_bytes_len;

    let user: &[u8] = username.as_bytes();
    let pass: &[u8] = password.as_bytes();
    if user.len() > 0xffff {
        return Err(EncodeError::UserTooLong);
    }
    let mut creds: Vec<u8> = Vec::new();
    push_be(&mut creds, user.len() as u64, 2);
    creds.extend_from_slice(user);
    creds.extend_from_slice(pass);
    assert(creds@ =~= handshake_payload(user@, pass@));
    frame_bytes(FrameKind::HandShake, 0, creds.as_slice())
}

/// The bytes that send a request payload under an id. A payload that is longer
/// than the length field can say is refused.
pub fn request_frame(id: u32, payload: &[u8]) -> (r: Result<Vec<u8>, EncodeError>)
    ensures
        match r {
            Ok(frame) => payload@.len() <= u16::MAX && frame@ == envelope(
                FrameKind::Request.spec_code(),
                id,
                payload@,
            ),
            Err(e) => payload@.len() > u16::MAX && e == EncodeError::PayloadTooLong,
        },
{
    frame_bytes(FrameKind::Request, id, payload)
}

/// What a caller gets in place of a reply to a request that cannot be sent.
pub fn refused_reply(e: EncodeError) -> (r: Bytes)
    ensures
        bytes_view(r) == ascii("ERR "@) + e.spec_message(),
{
    proof {
        reveal_strlit("ERR ");
    }
    let mut text: Vec<u8> = Vec::new();
    push_text(&mut text, "ERR ");
    let mut message: Vec<u8> = e.message();
    text.append(&mut message);
    assert(text@ =~= ascii("ERR "@) + e.spec_message());
    bytes_from_vec(text)
}

/// The id and the payload length that the head of a frame gives.
pub open spec fn head_of(head: Seq<u8>) -> (nat, nat) {
    (be_value(head.subrange(1, 5)), be_value(head.subrange(5, 7)))
}

/// Reads the head of a response: the id that it answers, and how many bytes of
/// payload follow.
pub fn parse_head(head: &[u8]) -> (r: (u32, usize))
    requires
        head@.len() >= FRAME_HEAD_LEN,
    ensures
        (r.0 as nat, r.1 as nat) == head_of(head@),
        r.1 <= u16::MAX,
{
    proof {
        lemma_pow256_values();
        lemma_be_value_bound(head@.subrange(1, 5));
        lemma_be_value_bound(head@.subrange(5, 7));
    }
    (read_be(head, 1, 4) as u32, read_be(head, 5, 2) as usize)
}

/// Whether the server accepted the handshake.
pub fn handshake_accepted(body: &[u8]) -> (ok: bool)
    ensures
        ok == (body@ == ok_text()),
{
    proof {
        reveal_strlit("OK");
    }
    is_text(body, "OK")
}

/// What a GET found: nothing where the reply is `(nil)`, else the reply.
pub fn get_result(reply: Bytes) -> (r: Option<Bytes>)
    ensures
        bytes_view(reply) == nil_text() ==> r is None,
        bytes_view(reply) != nil_text() ==> r == Some(reply),
{
    proof {
        reveal_strlit("(nil)");
    }
    if is_text(as_slice(&reply), "(nil)") {
        None
    } else {
        Some(reply)
    }
}

/// Whether a SET or a SETEX was done.
pub fn set_result(reply: &Bytes) -> (ok: bool)
    ensures
        ok == (bytes_view(*reply) == ok_text()),
{
    proof {
        reveal_strlit("OK");
    }
    is_text(as_slice(reply), "OK")
}

/// Whether a DEL removed anything.
pub fn del_result(reply: &Bytes) -> (removed: bool)
    ensures
        removed == (bytes_view(*reply) == one_text()),
{
    proof {
        reveal_strlit("1");
    }
    is_text(as_slice(reply), "1")
}

/// What a caller gets in place of a reply once the connection is closed.
pub fn closed_reply() -> (r: Bytes)
    ensures
        bytes_view(r) == ascii("ERR connection closed"@),
{
    proof {
        reveal_strlit("ERR connection closed");
    }
    text_bytes("ERR connection closed")
}

/// Whether `body` spells a text.
fn is_text(body: &[u8], text: &'static str) -> (same: bool)
    requires
        text.is_ascii(),
    ensures
        same == (body@ == ascii(text@)),
{
    assert(text.spec_bytes() =~= ascii(text@));
    same_bytes(body, text.as_bytes())
}

/// Outstanding requests, indexed by id (= slot): who waits for each, and the ids
/// that are free. An id is handed out again only once its request is answered.
pub struct Slots<T> {
    waiting: Vec<Option<T>>,
    free: Vec<u32>,
}

/// What [`Slots`] hold.
#[verifier::ext_equal]
pub struct SlotsView<T> {
    /// Who waits, by id.
    pub waiting: Map<u32, T>,
    /// The free ids; the last one is the next to go out.
    pub free: Seq<u32>,
}

impl<T> SlotsView<T> {
    /// A pool of `n` slots, all of them free.
    pub open spec fn fresh(n: nat) -> Self {
        SlotsView { waiting: Map::empty(), free: Seq::new(n, |i: int| i as u32) }
    }

    /// The pool once `waiter` has taken the next free slot.
    pub open spec fn begin(self, waiter: T) -> Self {
        SlotsView {
            waiting: self.waiting.insert(self.free.last(), waiter),
            free: self.free.drop_last(),
        }
    }

    /// The pool once the request `id` is answered.
    pub open spec fn complete(self, id: u32) -> Self {
        if self.waiting.contains_key(id) {
            SlotsView { waiting: self.waiting.remove(id), free: self.free.push(id) }
        } else {
            self
        }
    }

    /// The ids below `n` that someone waits for, in order.
    pub open spec fn outstanding(self, n: nat) -> Seq<u32>
        decreases n,
    {
        if n == 0 {
            Seq::empty()
        } else {
            let rest = self.outstanding((n - 1) as nat);
            if self.waiting.contains_key((n - 1) as u32) {
                rest.push((n - 1) as u32)
            } else {
                rest
            }
        }
    }

    /// The pool of `n` slots once nobody waits any more.
    pub open spec fn close(self, n: nat) -> Self {
        SlotsView { waiting: Map::empty(), free: self.free + self.outstanding(n) }
    }
}

impl<T> View for Slots<T> {
    type V = SlotsView<T>;

    closed spec fn view(&self) -> SlotsView<T> {
        SlotsView {
            waiting: Map::new(
                |id: u32| id < self.waiting@.len() && self.waiting@[id as int] is Some,
                |id: u32| self.waiting@[id as int]->0,
            ),
            free: self.free@,
        }
    }
}

impl<T> Slots<T> {
    /// How many slots there are.
    pub closed spec fn spec_capacity(&self) -> nat {
        self.waiting@.len()
    }

    /// Every id is either free, once, or waited for.
    pub closed spec fn wf(&self) -> bool {
        &&& self.waiting@.len() <= u32::MAX
        &&& self.free@.no_duplicates()
        &&& forall|id: u32|
            #![trigger self.free@.contains(id)]
            self.free@.contains(id) <==> id < self.waiting@.len()
                && self.waiting@[id as int] is None
    }

    /// A pool of `max_inflight` slots.
    pub fn new(max_inflight: usize) -> (r: Self)
        requires
            max_inflight <= u32::MAX,
        ensures
            r.wf(),
            r.spec_capacity() == max_inflight,
            r@ == SlotsView::<T>::fresh(max_inflight as nat),
    {
        let mut waiting: Vec<Option<T>> = Vec::new();
        let mut free: Vec<u32> = Vec::new();
        for i in 0..max_inflight
            invariant
                max_inflight <= u32::MAX,
                waiting@.len() == i,
                free@.len() == i,
                forall|j: int| 0 <= j < i ==> #[trigger] waiting@[j] is None,
                forall|j: int| 0 <= j < i ==> #[trigger] free@[j] == j as u32,
        {
            waiting.push(None);
            free.push(i as u32);
        }
        let r = Slots { waiting, free };
        proof {
            assert forall|id: u32|
                #![trigger r.free@.contains(id)]
                r.free@.contains(id) <==> id < r.waiting@.len() by {
                if id < r.waiting@.len() {
                    assert(r.free@[id as int] == id);
                }
            }
            assert(r@ =~= SlotsView::<T>::fresh(max_inflight as nat));
        }
        r
    }

    /// How many slots there are.
    pub fn capacity(&self) -> (n: usize)
        ensures
            n == self.spec_capacity(),
    {
        self.waiting.len()
    }

    /// Takes a free slot for `waiter`: its index is the id of the request. Nothing
    /// is taken where no slot is free.
    pub fn begin(&mut self, waiter: T) -> (id: Option<u32>)
        requires
            old(self).wf(),
        ensures
            final(self).wf(),
            final(self).spec_capacity() == old(self).spec_capacity(),
            match id {
                Some(id) => {
                    &&& old(self)@.free.len() > 0
                    &&& id == old(self)@.free.last()
                    &&& id < old(self).spec_capacity()
                    &&& !old(self)@.waiting.contains_key(id)
                    &&& final(self)@ == old(self)@.begin(waiter)
                },
                None => old(self)@.free.len() == 0 && final(self)@ == old(self)@,
            },
    {
        match self.free.pop() {
            None => None,
            Some(id) => {
                proof {
                    let free = old(self).free@;
                    assert(free.contains(free.last()));
                    assert forall|k: u32|
                        #![trigger self.free@.contains(k)]
                        self.free@.contains(k) <==> free.contains(k) && k != id by {
                        if free.contains(k) && k != id {
                            let j = choose|j: int| 0 <= j < free.len() && free[j] == k;
                            assert(self.free@[j] == k);
                        }
                        if self.free@.contains(k) {
                            let j = choose|j: int| 0 <= j < self.free@.len() && self.free@[j] == k;
                            assert(free[j] == k);
                        }
                    }
                }
                self.waiting.set(id as usize, Some(waiter));
                assert(self@ =~= old(self)@.begin(waiter));
                Some(id)
            },
        }
    }

    /// Frees the slot of an answered request and returns who waited for it. An id
    /// that nobody waits for changes nothing.
    pub fn complete(&mut self, id: u32) -> (waiter: Option<T>)
        requires
            old(self).wf(),
            id < old(self).spec_capacity(),
        ensures
            final(self).wf(),
            final(self).spec_capacity() == old(self).spec_capacity(),
            final(self)@ == old(self)@.complete(id),
            waiter == if old(self)@.waiting.contains_key(id) {
                Some(old(self)@.waiting[id])
            } else {
                None
            },
    {
        let waiter: Option<T> = self.waiting[id as usize].take();
        if waiter.is_some() {
            self.free.push(id);
            proof {
                let free = old(self).free@;
                assert(!free.contains(id));
                assert forall|k: u32|
                    #![trigger self.free@.contains(k)]
                    self.free@.contains(k) <==> free.contains(k) || k == id by {
                    if free.contains(k) {
                        let j = choose|j: int| 0 <= j < free.len() && free[j] == k;
                        assert(self.free@[j] == k);
                    }
                    if k == id {
                        assert(self.free@[free.len() as int] == k);
                    }
                }
            }
        }
        assert(self@ =~= old(self)@.complete(id));
        waiter
    }

    /// Gives up on every outstanding request, once the connection is closed: frees
    /// the slots and returns who waited, in the order of the ids.
    pub fn close(&mut self) -> (waiters: Vec<T>)
        requires
            old(self).wf(),
        ensures
            final(self).wf(),
            final(self).spec_capacity() == old(self).spec_capacity(),
            final(self)@ == old(self)@.close(old(self).spec_capacity()),
            waiters@ == old(self)@.outstanding(old(self).spec_capacity()).map_values(
                |id: u32| old(self)@.waiting[id],
            ),
    {
        let n: usize = self.waiting.len();
        let ghost before = self@;
        let ghost slots = self.waiting@;
        let mut waiters: Vec<T> = Vec::new();
        assert(self.free@ =~= before.free + before.outstanding(0));
        for i in 0..n
            invariant
                n <= u32::MAX,
                before == old(self)@,
                slots == old(self).waiting@,
                n == slots.len(),
                self.waiting@.len() == n,
                forall|j: int| 0 <= j < i ==> #[trigger] self.waiting@[j] is None,
                forall|j: int| i <= j < n ==> #[trigger] self.waiting@[j] == slots[j],
                self.free@ == before.free + before.outstanding(i as nat),
                waiters@ == before.outstanding(i as nat).map_values(
                    |id: u32| before.waiting[id],
                ),
        {
            let waiter: Option<T> = self.waiting[i].take();
            assert(slots[i as int] == waiter);
            let ghost ids = before.outstanding(i as nat);
            match waiter {
                Some(w) => {
                    self.free.push(i as u32);
                    waiters.push(w);
                    proof {
                        assert(before.waiting.contains_key(i as u32));
                        assert(before.outstanding((i + 1) as nat) == ids.push(i as u32));
                        assert(before.free + ids.push(i as u32) =~= (before.free + ids).push(
                            i as u32,
                        ));
                        assert(ids.push(i as u32).map_values(|id: u32| before.waiting[id])
                            =~= ids.map_values(|id: u32| before.waiting[id]).push(w));
                    }
                },
                None => {},
            }
        }
        proof {
            let ids = before.outstanding(n as nat);
            before.lemma_outstanding(n as nat);
            assert forall|j: int, k: int|
                0 <= j < self.free@.len() && 0 <= k < self.free@.len() && j != k implies self.free@[j]
                != self.free@[k] by {
                let f = before.free.len();
                if j < f && k >= f {
                    assert(before.free.contains(before.free[j]));
                    assert(ids.contains(ids[k - f]));
                }
                if k < f && j >= f {
                    assert(before.free.contains(before.free[k]));
                    assert(ids.contains(ids[j - f]));
                }
            }
            assert forall|id: u32|
                #![trigger self.free@.contains(id)]
                self.free@.contains(id) <==> id < n by {
                let f = before.free.len();
                if before.free.contains(id) {
                    let j = choose|j: int| 0 <= j < f && before.free[j] == id;
                    assert(self.free@[j] == id);
                } else if id < n {
                    assert(ids.contains(id));
                    let j = choose|j: int| 0 <= j < ids.len() && ids[j] == id;
                    assert(self.free@[f + j] == id);
                }
                if self.free@.contains(id) {
                    let j = choose|j: int| 0 <= j < self.free@.len() && self.free@[j] == id;
                    if j < f {
                        assert(before.free.contains(id));
                    } else {
                        assert(ids[j - f] == id);
                        assert(ids.contains(id));
                    }
                }
            }
            assert(self@ =~= before.close(n as nat));
        }
        waiters
    }

    /// The pool neither loses nor invents slots: the free ids and the outstanding
    /// requests always make up its capacity. So while fewer requests are
    /// outstanding than there are slots, a slot is free.
    pub proof fn law_slots_are_conserved(&self)
        requires
            self.wf(),
        ensures
            self@.waiting.dom().finite(),
            self@.waiting.len() + self@.free.len() == self.spec_capacity(),
            self@.waiting.len() < self.spec_capacity() ==> self@.free.len() > 0,
    {
        let n = self.spec_capacity();
        let free = self@.free.to_set();
        let busy = self@.waiting.dom();
        let all = ids_below(n);
        lemma_ids_below(n);
        self@.free.unique_seq_to_set();
        assert(busy.subset_of(all));
        lemma_len_subset(busy, all);
        assert(free + busy =~= all) by {
            assert forall|id: u32| all.contains(id) implies (free + busy).contains(id) by {
                assert(self.free@.contains(id) || self.waiting@[id as int] is Some);
            }
            assert forall|id: u32| (free + busy).contains(id) implies all.contains(id) by {
                if free.contains(id) {
                    assert(self.free@.contains(id));
                }
            }
        }
        assert(free.disjoint(busy)) by {
            assert forall|id: u32| free.contains(id) implies !busy.contains(id) by {
                assert(self.free@.contains(id));
            }
        }
        lemma_set_disjoint_lens(free, busy);
    }

    /// No id is in use twice: what is free is not waited for, and no id is free
    /// twice.
    pub proof fn law_no_collisions(&self, id: u32)
        requires
            self.wf(),
        ensures
            self@.free.no_duplicates(),
            id < self.spec_capacity() ==> self@.free.contains(id) != self@.waiting.contains_key(
                id,
            ),
            id >= self.spec_capacity() ==> !self@.free.contains(id) && !self@.waiting.contains_key(
                id,
            ),
    {
        assert(self.free@.contains(id) <==> id < self.waiting@.len() && self.waiting@[id as int]
            is None);
    }
}

impl<T> SlotsView<T> {
    /// The outstanding ids are those that someone waits for, each once.
    proof fn lemma_outstanding(self, n: nat)
        requires
            n <= u32::MAX,
        ensures
            self.outstanding(n).no_duplicates(),
            forall|id: u32| #[trigger]
                self.outstanding(n).contains(id) <==> id < n && self.waiting.contains_key(id),
        decreases n,
    {
        if n > 0 {
            self.lemma_outstanding((n - 1) as nat);
            let rest = self.outstanding((n - 1) as nat);
            let all = self.outstanding(n);
            let last = (n - 1) as u32;
            assert(!rest.contains(last));
            assert forall|id: u32| #[trigger] all.contains(id) <==> id < n
                && self.waiting.contains_key(id) by {
                if rest.contains(id) {
                    let j = choose|j: int| 0 <= j < rest.len() && rest[j] == id;
                    assert(all[j] == id);
                }
                if self.waiting.contains_key(last) {
                    assert(all[rest.len() as int] == last);
                }
                if all.contains(id) && id != last {
                    let j = choose|j: int| 0 <= j < all.len() && all[j] == id;
                    assert(rest[j] == id);
                }
            }
        }
    }
}

/// The first `n` ids.
spec fn ids_below(n: nat) -> Set<u32> {
    Set::new(|id: u32| id < n)
}

/// There are `n` ids below `n`.
proof fn lemma_ids_below(n: nat)
    requires
        n <= u32::MAX,
    ensures
        ids_below(n).finite(),
        ids_below(n).len() == n,
    decreases n,
{
    if n == 0 {
        assert(ids_below(n) =~= Set::empty());
    } else {
        lemma_ids_below((n - 1) as nat);
        let last = (n - 1) as u32;
        assert(ids_below(n) =~= ids_below((n - 1) as nat).insert(last));
    }
}

/// A reply reaches whoever waits for it: answering the request that a waiter has
/// just begun gives the waiter back, and leaves the pool as it was.
pub proof fn law_complete_undoes_begin<T>(pool: SlotsView<T>, waiter: T)
    requires
        pool.free.len() > 0,
        !pool.waiting.contains_key(pool.free.last()),
    ensures
        ({
            let id = pool.free.last();
            &&& pool.begin(waiter).waiting.contains_key(id)
            &&& pool.begin(waiter).waiting[id] == waiter
            &&& pool.begin(waiter).complete(id) == pool
        }),
{
    let id = pool.free.last();
    assert(pool.begin(waiter).complete(id) =~= pool);
}

/// Replies may come in any order: with two requests outstanding, answering one
/// leaves the other waiting for its own reply.
pub proof fn law_replies_in_any_order<T>(pool: SlotsView<T>, a: u32, b: u32)
    requires
        a != b,
        pool.waiting.contains_key(a),
        pool.waiting.contains_key(b),
    ensures
        pool.complete(a).waiting.contains_key(b),
        pool.complete(a).waiting[b] == pool.waiting[b],
        pool.complete(a).complete(b).waiting == pool.complete(b).complete(a).waiting,
{
    assert(pool.complete(a).complete(b).waiting =~= pool.complete(b).complete(a).waiting);
}

/// The server reads what the client wrote: a GET, SET or DEL payload parses to
/// its command, for every key whose length fits the length field.
pub proof fn law_request_round_trip(key: Seq<u8>, value: Seq<u8>)
    requires
        key.len() <= u16::MAX,
    ensures
        command_of(request_payload(OP_GET, key, value)) == Ok::<Command, ParseError>(
            Command::Get { key },
        ),
        command_of(request_payload(OP_SET, key, value)) == Ok::<Command, ParseError>(
            Command::Put { key, value },
        ),
        command_of(request_payload(OP_DEL, key, value)) == Ok::<Command, ParseError>(
            Command::Del { key },
        ),
{
    lemma_payload_field(OP_GET, key, value);
    lemma_payload_field(OP_SET, key, value);
    lemma_payload_field(OP_DEL, key, value);
}

/// The server reads what the client wrote: a SETEX payload parses to its command,
/// for every key whose length fits the length field.
pub proof fn law_setex_round_trip(key: Seq<u8>, value: Seq<u8>, ttl_ms: u32)
    requires
        key.len() <= u16::MAX,
    ensures
        command_of(setex_payload(key, value, ttl_ms)) == Ok::<Command, ParseError>(
            Command::SetEx { key, value, ttl_ms },
        ),
{
    broadcast use lemma_be_bytes_len;

    let ttl = be_bytes(ttl_ms as nat, 4);
    lemma_pow256_values();
    lemma_be_round_trip(ttl_ms as nat, 4);
    lemma_payload_field(OP_SETEX, key, ttl + value);
    assert(setex_payload(key, value, ttl_ms) =~= request_payload(OP_SETEX, key, ttl + value));
    assert((ttl + value).subrange(0, 4) =~= ttl);
    assert((ttl + value).skip(4) =~= value);
}

/// The field at the front of a payload is the key, and the rest follows it.
proof fn lemma_payload_field(op: u8, key: Seq<u8>, rest: Seq<u8>)
    requires
        key.len() <= u16::MAX,
    ensures
        request_payload(op, key, rest).len() > 0,
        request_payload(op, key, rest)[0] == op,
        field(request_payload(op, key, rest).skip(1)) == Ok::<(Seq<u8>, Seq<u8>), ParseError>(
            (key, rest),
        ),
{
    broadcast use lemma_be_bytes_len;

    let s = request_payload(op, key, rest).skip(1);
    lemma_pow256_values();
    lemma_be_round_trip(key.len(), 2);
    assert(s.subrange(0, 2) =~= be_bytes(key.len(), 2));
    assert(s.subrange(2, (2 + key.len()) as int) =~= key);
    assert(s.skip((2 + key.len()) as int) =~= rest);
}

/// The server reads the credentials that the client wrote, for every user name
/// whose length fits the length field.
pub proof fn law_handshake_round_trip(user: Seq<u8>, pass: Seq<u8>)
    requires
        user.len() <= u16::MAX,
    ensures
        credentials(handshake_payload(user, pass)) == (user, pass),
{
    broadcast use lemma_be_bytes_len;

    let p = handshake_payload(user, pass);
    lemma_pow256_values();
    lemma_be_round_trip(user.len(), 2);
    assert(p.subrange(0, 2) =~= be_bytes(user.len(), 2));
    assert(p.subrange(2, (2 + user.len()) as int) =~= user);
    assert(p.skip((2 + user.len()) as int) =~= pass);
}

/// A client that knows the credentials gets in and is told so: the server decodes
/// the handshake frame, accepts it, and answers `OK` under the id `0`.
pub proof fn law_handshake_is_accepted(user: String, pass: String, auth: Option<(String, String)>)
    requires
        auth is None || auth == Some((user, pass)),
        2 + encode_utf8(user@).len() + encode_utf8(pass@).len() <= u16::MAX,
    ensures
        ({
            let payload = handshake_payload(encode_utf8(user@), encode_utf8(pass@));
            let sent = FrameView { header: FrameKind::HandShake, req_id: 0, payload };
            &&& decoded(envelope(FrameKind::HandShake.spec_code(), 0, payload)) == Ok::<
                Option<FrameView>,
                DecodeError,
            >(Some(sent))
            &&& opening::<DecodeError>(auth, sent) == OpeningView::<DecodeError>::Accepted(
                Some(response_view(0, ok_text())),
            )
        }),
{
    broadcast use lemma_be_bytes_len;

    let payload = handshake_payload(encode_utf8(user@), encode_utf8(pass@));
    let sent = FrameView { header: FrameKind::HandShake, req_id: 0, payload };
    law_handshake_round_trip(encode_utf8(user@), encode_utf8(pass@));
    law_decode_inverts_encode(sent, Seq::empty());
    let wire = envelope(FrameKind::HandShake.spec_code(), 0, payload);
    assert(wire + Seq::<u8>::empty() =~= wire);
}

/// A client with other credentials than the server's is told so and gets no
/// further.
pub proof fn law_wrong_credentials_are_refused(
    user: Seq<u8>,
    pass: Seq<u8>,
    auth: (String, String),
)
    requires
        user.len() <= u16::MAX,
        user != encode_utf8(auth.0@) || pass != encode_utf8(auth.1@),
    ensures
        opening::<DecodeError>(
            Some(auth),
            FrameView {
                header: FrameKind::HandShake,
                req_id: 0,
                payload: handshake_payload(user, pass),
            },
        ) == OpeningView::<DecodeError>::Refused(response_view(0, ascii("ERR auth failed"@))),
{
    law_handshake_round_trip(user, pass);
}

/// A request travels whole: the server decodes the frame that carries a payload
/// of a command, and plans that command, for the shard that owns its key and
/// under the id that the client chose.
pub proof fn law_request_reaches_shard(id: u32, payload: Seq<u8>, worker_count: usize)
    requires
        payload.len() <= u16::MAX,
        command_of(payload) is Ok,
    ensures
        ({
            let sent = FrameView { header: FrameKind::Request, req_id: id, payload };
            let cmd = command_of(payload)->Ok_0;
            &&& decoded(envelope(FrameKind::Request.spec_code(), id, payload)) == Ok::<
                Option<FrameView>,
                DecodeError,
            >(Some(sent))
            &&& planned(worker_count, sent) == PlanView::Op {
                shard: shard_of(cmd.key(), worker_count),
                cmd,
            }
        }),
{
    let sent = FrameView { header: FrameKind::Request, req_id: id, payload };
    law_decode_inverts_encode(sent, Seq::empty());
    let wire = envelope(FrameKind::Request.spec_code(), id, payload);
    assert(wire + Seq::<u8>::empty() =~= wire);
}

/// A reply travels whole: the head of a response frame gives back the id that it
/// answers and the length of its payload, which follows the head.
pub proof fn law_response_is_understood(id: u32, payload: Seq<u8>)
    requires
        payload.len() <= u16::MAX,
    ensures
        ({
            let wire = envelope(FrameKind::Response.spec_code(), id, payload);
            &&& head_of(wire.take(FRAME_HEAD_LEN as int)) == (id as nat, payload.len())
            &&& wire.skip(FRAME_HEAD_LEN as int) == payload
        }),
{
    broadcast use lemma_be_bytes_len;

    let wire = envelope(FrameKind::Response.spec_code(), id, payload);
    let head = wire.take(FRAME_HEAD_LEN as int);
    lemma_pow256_values();
    lemma_be_round_trip(id as nat, 4);
    lemma_be_round_trip(payload.len(), 2);
    assert(head.subrange(1, 5) =~= be_bytes(id as nat, 4));
    assert(head.subrange(5, 7) =~= be_bytes(payload.len(), 2));
    assert(wire.skip(FRAME_HEAD_LEN as int) =~= payload);
}

/// What one client stores another finds: the payload of a SET and then that of a
/// GET of the same key are answered `OK` and with the value.
pub proof fn law_get_finds_set(
    m: Map<Seq<u8>, Item>,
    key: Seq<u8>,
    value: Seq<u8>,
    t: u64,
    now: u64,
)
    requires
        key.len() <= u16::MAX,
    ensures
        ({
            let put = command_of(request_payload(OP_SET, key, value))->Ok_0;
            let get = command_of(request_payload(OP_GET, key, Seq::empty()))->Ok_0;
            &&& reply_to(m, put, t) == ok_text()
            &&& reply_to(map_after(m, put, t), get, now) == value
        }),
{
    law_request_round_trip(key, value);
    law_request_round_trip(key, Seq::empty());
    law_get_after_set(m, key, value, t, now);
}

/// A request payload is the op byte, two bytes of key length, the key and the
/// value.
pub proof fn law_request_layout(op: u8, key: Seq<u8>, value: Seq<u8>)
    requires
        key.len() <= 65535,
    ensures
        ({
            let s = request_payload(op, key, value);
            &&& s.len() == 3 + key.len() + value.len()
            &&& s[0] == op
            &&& s[1] * 0x100 + s[2] == key.len()
            &&& s.subrange(3, 3 + key.len() as int) == key
            &&& s.skip(3 + key.len() as int) == value
        }),
{
    let s = request_payload(op, key, value);
    law_number_is_its_bytes(key.len());
    assert(s.subrange(1, 3) =~= be_bytes(key.len(), 2));
    assert(s[1] == s.subrange(1, 3)[0]);
    assert(s[2] == s.subrange(1, 3)[1]);
    assert(s.subrange(3, 3 + key.len() as int) =~= key);
    assert(s.skip(3 + key.len() as int) =~= value);
}

/// A SETEX payload has the four bytes of the time to live between the key and the
/// value, the most significant first.
pub proof fn law_setex_layout(key: Seq<u8>, value: Seq<u8>, ttl_ms: u32)
    requires
        key.len() <= 65535,
    ensures
        ({
            let s = setex_payload(key, value, ttl_ms);
            let end = 3 + key.len() as int;
            &&& s.len() == 7 + key.len() + value.len()
            &&& s[0] == 4
            &&& s[1] * 0x100 + s[2] == key.len()
            &&& s.subrange(3, end) == key
            &&& s[end] * 0x100_0000 + s[end + 1] * 0x1_0000 + s[end + 2] * 0x100 + s[end + 3]
                == ttl_ms
            &&& s.skip(end + 4) == value
        }),
{
    let s = setex_payload(key, value, ttl_ms);
    let end = 3 + key.len() as int;
    law_number_is_its_bytes(key.len());
    law_number_is_its_bytes(ttl_ms as nat);
    assert(s.subrange(1, 3) =~= be_bytes(key.len(), 2));
    assert(s[1] == s.subrange(1, 3)[0]);
    assert(s[2] == s.subrange(1, 3)[1]);
    assert(s.subrange(3, end) =~= key);
    let t = s.subrange(end, end + 4);
    assert(t =~= be_bytes(ttl_ms as nat, 4));
    assert(s[end] == t[0] && s[end + 1] == t[1] && s[end + 2] == t[2] && s[end + 3] == t[3]);
    assert(s.skip(end + 4) =~= value);
}

/// A handshake payload is two bytes of length, the user name and the password.
pub proof fn law_handshake_layout(user: Seq<u8>, pass: Seq<u8>)
    requires
        user.len() <= 65535,
    ensures
        ({
            let s = handshake_payload(user, pass);
            &&& s.len() == 2 + user.len() + pass.len()
            &&& s[0] * 0x100 + s[1] == user.len()
            &&& s.subrange(2, 2 + user.len() as int) == user
            &&& s.skip(2 + user.len() as int) == pass
        }),
{
    let s = handshake_payload(user, pass);
    law_number_is_its_bytes(user.len());
    assert(s.subrange(0, 2) =~= be_bytes(user.len(), 2));
    assert(s[0] == s.subrange(0, 2)[0]);
    assert(s[1] == s.subrange(0, 2)[1]);
    assert(s.subrange(2, 2 + user.len() as int) =~= user);
    assert(s.skip(2 + user.len() as int) =~= pass);
}

/// The head of a frame gives the id in its second to fifth byte and the length in
/// the two behind it.
pub proof fn law_head_reads_the_layout(head: Seq<u8>)
    requires
        head.len() >= 7,
    ensures
        head_of(head).0 == head[1] * 0x100_0000 + head[2] * 0x1_0000 + head[3] * 0x100 + head[4],
        head_of(head).1 == head[5] * 0x100 + head[6],
{
    law_bytes_spell_their_number(head.subrange(1, 5));
    law_bytes_spell_their_number(head.subrange(5, 7));
}

/// A new pool has the ids below its size, all of them free and none waited for.
pub proof fn law_new_pool_is_free<T>(n: nat)
    requires
        n <= u32::MAX,
    ensures
        SlotsView::<T>::fresh(n).free.len() == n,
        forall|i: int| 0 <= i < n ==> #[trigger] SlotsView::<T>::fresh(n).free[i] == i,
        forall|id: u32| !SlotsView::<T>::fresh(n).waiting.contains_key(id),
{
}

/// Beginning a request takes the last free id, which its waiter then waits for;
/// nobody else is affected.
pub proof fn law_begin_takes_one_id<T>(pool: SlotsView<T>, waiter: T, other: u32)
    requires
        pool.free.len() > 0,
    ensures
        ({
            let id = pool.free.last();
            let after = pool.begin(waiter);
            &&& after.free.len() == pool.free.len() - 1
            &&& after.free.push(id) == pool.free
            &&& after.waiting.contains_key(id) && after.waiting[id] == waiter
            &&& other != id ==> after.waiting.contains_key(other) == pool.waiting.contains_key(
                other,
            )
            &&& other != id && pool.waiting.contains_key(other) ==> after.waiting[other]
                == pool.waiting[other]
        }),
{
    assert(pool.begin(waiter).free.push(pool.free.last()) =~= pool.free);
}

/// Completing a request frees its id for the next one, and nobody else is
/// affected; an id that nobody waits for changes nothing.
pub proof fn law_complete_frees_one_id<T>(pool: SlotsView<T>, id: u32, other: u32)
    ensures
        !pool.waiting.contains_key(id) ==> pool.complete(id) == pool,
        pool.waiting.contains_key(id) ==> ({
            let after = pool.complete(id);
            &&& after.free == pool.free.push(id)
            &&& !after.waiting.contains_key(id)
            &&& other != id ==> after.waiting.contains_key(other) == pool.waiting.contains_key(
                other,
            )
            &&& other != id && pool.waiting.contains_key(other) ==> after.waiting[other]
                == pool.waiting[other]
        }),
{
}

/// Closing gives up on everybody: the ids that were waited for become free, from
/// the lowest to the highest, and nobody waits any more.
pub proof fn law_close_frees_all<T>(pool: SlotsView<T>, n: nat)
    requires
        n <= u32::MAX,
    ensures
        forall|id: u32| !pool.close(n).waiting.contains_key(id),
        pool.close(n).free == pool.free + pool.outstanding(n),
        forall|id: u32| #[trigger]
            pool.outstanding(n).contains(id) <==> id < n && pool.waiting.contains_key(id),
        forall|i: int, j: int|
            0 <= i < j < pool.outstanding(n).len() ==> #[trigger] pool.outstanding(n)[i]
                < #[trigger] pool.outstanding(n)[j],
{
    pool.lemma_outstanding(n);
    lemma_outstanding_in_order(pool, n);
}

/// The outstanding ids come in order.
proof fn lemma_outstanding_in_order<T>(pool: SlotsView<T>, n: nat)
    requires
        n <= u32::MAX,
    ensures
        forall|i: int, j: int|
            0 <= i < j < pool.outstanding(n).len() ==> #[trigger] pool.outstanding(n)[i]
                < #[trigger] pool.outstanding(n)[j],
    decreases n,
{
    if n > 0 {
        lemma_outstanding_in_order(pool, (n - 1) as nat);
        pool.lemma_outstanding((n - 1) as nat);
        let rest = pool.outstanding((n - 1) as nat);
        assert forall|i: int, j: int|
            0 <= i < j < pool.outstanding(n).len() implies #[trigger] pool.outstanding(n)[i]
            < #[trigger] pool.outstanding(n)[j] by {
            assert(rest.contains(rest[i]));
        }
    }
}

} // verus!
