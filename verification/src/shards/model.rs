//! What a shard does, as mathematics: a map from keys to values that may expire,
//! and how each command changes it and is answered.

use vstd::prelude::*;

use crate::utils::{
    command_of, law_command_fits_payload, law_reply_texts, nil_text, ok_text, one_text, zero_text,
    Command,
};

verus! {

/// A stored value and when it expires.
pub struct Item {
    pub value: Seq<u8>,
    /// Milliseconds since the epoch; `0` for never.
    pub exp_ms: u64,
}

/// Whether an expiry time has come.
pub open spec fn expired(exp_ms: u64, now: u64) -> bool {
    exp_ms != 0 && exp_ms <= now
}

/// Whether `key` is there to be read at `now`.
pub open spec fn live(m: Map<Seq<u8>, Item>, key: Seq<u8>, now: u64) -> bool {
    m.contains_key(key) && !expired(m[key].exp_ms, now)
}

/// The expiry time of a value that is set at `now` with a time to live. A time
/// past the end of the clock never comes.
pub open spec fn deadline(now: u64, ttl_ms: u32) -> u64 {
    if now + ttl_ms > u64::MAX {
        0
    } else if now + ttl_ms == 0 {
        1
    } else {
        (now + ttl_ms) as u64
    }
}

/// The map after a command at `now`. Whatever command finds an expired entry
/// drops it.
pub open spec fn map_after(m: Map<Seq<u8>, Item>, cmd: Command, now: u64) -> Map<Seq<u8>, Item> {
    match cmd {
        Command::Get { key } => if live(m, key, now) {
            m
        } else {
            m.remove(key)
        },
        Command::Put { key, value } => m.insert(key, Item { value, exp_ms: 0 }),
        Command::SetEx { key, value, ttl_ms } => m.insert(
            key,
            Item { value, exp_ms: deadline(now, ttl_ms) },
        ),
        Command::Del { key } => m.remove(key),
    }
}

/// The reply to a command at `now`.
pub open spec fn reply_to(m: Map<Seq<u8>, Item>, cmd: Command, now: u64) -> Seq<u8> {
    match cmd {
        Command::Get { key } => if live(m, key, now) {
            m[key].value
        } else {
            nil_text()
        },
        Command::Put { .. } => ok_text(),
        Command::SetEx { .. } => ok_text(),
        Command::Del { key } => if live(m, key, now) {
            one_text()
        } else {
            zero_text()
        },
    }
}

/// A read gives back the write: after SET, a GET of the key answers with the
/// value, at any time.
pub proof fn law_get_after_set(
    m: Map<Seq<u8>, Item>,
    key: Seq<u8>,
    value: Seq<u8>,
    t: u64,
    now: u64,
)
    ensures
        reply_to(map_after(m, Command::Put { key, value }, t), Command::Get { key }, now) == value,
{
}

/// SETEX lasts for its time to live: a GET before it is over answers with the
/// value, one from then on finds nothing. (At the very start of the clock, a time
/// to live of nothing still lasts for that one instant.)
pub proof fn law_get_after_setex(
    m: Map<Seq<u8>, Item>,
    key: Seq<u8>,
    value: Seq<u8>,
    ttl_ms: u32,
    t: u64,
    now: u64,
)
    ensures
        reply_to(m, Command::SetEx { key, value, ttl_ms }, t) == ok_text(),
        ({
            let after = map_after(m, Command::SetEx { key, value, ttl_ms }, t);
            let answer = reply_to(after, Command::Get { key }, now);
            &&& now < t + ttl_ms ==> answer == value
            &&& now > t + ttl_ms ==> answer == nil_text()
            &&& now == t + ttl_ms && now > 0 ==> answer == nil_text()
        }),
{
}

/// After DEL the key is gone: a GET finds nothing, and so does another DEL.
pub proof fn law_gone_after_del(m: Map<Seq<u8>, Item>, key: Seq<u8>, t: u64, now: u64)
    ensures
        reply_to(map_after(m, Command::Del { key }, t), Command::Get { key }, now) == nil_text(),
        reply_to(map_after(m, Command::Del { key }, t), Command::Del { key }, now) == zero_text(),
{
}

/// DEL tells whether it removed anything: `1` where a GET would have found the
/// key, `0` where not.
pub proof fn law_del_tells_presence(m: Map<Seq<u8>, Item>, key: Seq<u8>, now: u64)
    ensures
        reply_to(m, Command::Del { key }, now) == if live(m, key, now) {
            one_text()
        } else {
            zero_text()
        },
        !live(m, key, now) ==> reply_to(m, Command::Get { key }, now) == nil_text(),
        live(m, key, now) ==> reply_to(m, Command::Get { key }, now) == m[key].value,
{
}

/// A command touches no key but its own: whatever is asked of another key is
/// answered as if the command had not been there.
pub proof fn law_other_keys_unaffected(
    m: Map<Seq<u8>, Item>,
    cmd: Command,
    t: u64,
    other: Command,
    now: u64,
)
    requires
        cmd.key() != other.key(),
    ensures
        reply_to(map_after(m, cmd, t), other, now) == reply_to(m, other, now),
        map_after(m, cmd, t).contains_key(other.key()) == m.contains_key(other.key()),
        m.contains_key(other.key()) ==> map_after(m, cmd, t)[other.key()] == m[other.key()],
{
}

/// A GET changes no answer: whatever is asked from then on is answered as if the
/// GET had not been there.
pub proof fn law_get_changes_nothing(
    m: Map<Seq<u8>, Item>,
    key: Seq<u8>,
    t: u64,
    cmd: Command,
    now: u64,
)
    requires
        t <= now,
    ensures
        reply_to(map_after(m, Command::Get { key }, t), cmd, now) == reply_to(m, cmd, now),
{
}

/// The last write wins: of two sets of one key, in whichever form, only the
/// second leaves a trace.
pub proof fn law_last_write_wins(m: Map<Seq<u8>, Item>, first: Command, second: Command, t: u64, u: u64)
    requires
        first.key() == second.key(),
        first is Put || first is SetEx,
        second is Put || second is SetEx,
    ensures
        map_after(map_after(m, first, t), second, u) == map_after(m, second, u),
{
    assert(map_after(map_after(m, first, t), second, u) =~= map_after(m, second, u));
}

/// Dropping expired entries changes no answer: a map without some entries that
/// had expired at `t` answers every command from `t` on as the full map does.
pub proof fn law_dropping_expired_is_invisible(
    m: Map<Seq<u8>, Item>,
    kept: Map<Seq<u8>, Item>,
    t: u64,
    cmd: Command,
    now: u64,
)
    requires
        t <= now,
        forall|k: Seq<u8>| #[trigger]
            kept.contains_key(k) ==> m.contains_key(k) && kept[k] == m[k],
        forall|k: Seq<u8>| #[trigger]
            m.contains_key(k) ==> kept.contains_key(k) || expired(m[k].exp_ms, t),
    ensures
        reply_to(kept, cmd, now) == reply_to(m, cmd, now),
{
    let k = cmd.key();
    if m.contains_key(k) {
        assert(kept.contains_key(k) || expired(m[k].exp_ms, t));
    }
    if kept.contains_key(k) {
        assert(m.contains_key(k));
    }
}

/// Whether two maps hold the same at `t`, but for entries that have expired.
pub open spec fn same_live(a: Map<Seq<u8>, Item>, b: Map<Seq<u8>, Item>, t: u64) -> bool {
    forall|k: Seq<u8>| #[trigger]
        live(a, k, t) == live(b, k, t) && (live(a, k, t) ==> a[k] == b[k])
}

/// Maps that hold the same but for expired entries cannot be told apart: every
/// command is answered alike from then on, and leaves them alike.
pub proof fn law_same_live_is_invisible(
    a: Map<Seq<u8>, Item>,
    b: Map<Seq<u8>, Item>,
    t: u64,
    cmd: Command,
    now: u64,
)
    requires
        same_live(a, b, t),
        t <= now,
    ensures
        reply_to(a, cmd, now) == reply_to(b, cmd, now),
        same_live(map_after(a, cmd, now), map_after(b, cmd, now), now),
{
    assert(live(a, cmd.key(), t) == live(b, cmd.key(), t));
    let x = map_after(a, cmd, now);
    let y = map_after(b, cmd, now);
    assert forall|k: Seq<u8>| #[trigger] live(x, k, now) == live(y, k, now) && (live(x, k, now)
        ==> x[k] == y[k]) by {
        assert(live(a, k, t) == live(b, k, t));
    }
}

/// What happens to a shard.
pub enum Event {
    /// A command is applied.
    Apply { cmd: Command, now: u64 },
    /// What is there to be read stays as it is: a sweep, a read from the log, a
    /// flush or a restart.
    Idle { now: u64 },
}

impl Event {
    /// When it happens.
    pub open spec fn time(self) -> u64 {
        match self {
            Event::Apply { now, .. } => now,
            Event::Idle { now } => now,
        }
    }

    /// Whether it leads from one map to another.
    pub open spec fn leads(self, before: Map<Seq<u8>, Item>, after: Map<Seq<u8>, Item>) -> bool {
        match self {
            Event::Apply { cmd, now } => after == map_after(before, cmd, now),
            Event::Idle { now } => same_live(before, after, now),
        }
    }
}

/// Whether nothing happens before something earlier, and nothing after `now`.
pub open spec fn in_order(events: Seq<Event>, now: u64) -> bool {
    &&& forall|i: int, j: int|
        0 <= i <= j < events.len() ==> (#[trigger] events[i]).time() <= (
        #[trigger] events[j]).time()
    &&& forall|i: int| 0 <= i < events.len() ==> (#[trigger] events[i]).time() <= now
}

/// What the last write of a key left: what a SET or a SETEX stored, nothing after
/// a DEL, and what was there at the start where the key was never written.
pub open spec fn last_written(
    start: Map<Seq<u8>, Item>,
    events: Seq<Event>,
    key: Seq<u8>,
) -> Option<Item>
    decreases events.len(),
{
    if events.len() == 0 {
        if start.contains_key(key) {
            Some(start[key])
        } else {
            None
        }
    } else {
        match events.last() {
            Event::Apply { cmd: Command::Put { key: k, value }, .. } if k == key => Some(
                Item { value, exp_ms: 0 },
            ),
            Event::Apply { cmd: Command::SetEx { key: k, value, ttl_ms }, now } if k == key => Some(
                Item { value, exp_ms: deadline(now, ttl_ms) },
            ),
            Event::Apply { cmd: Command::Del { key: k }, .. } if k == key => None,
            _ => last_written(start, events.drop_last(), key),
        }
    }
}

/// The last write decides: after any sequence of events, a GET answers with what
/// the last write of the key stored, unless that has expired, and a DEL tells
/// whether there is such a value.
pub proof fn law_last_write_decides(
    maps: Seq<Map<Seq<u8>, Item>>,
    events: Seq<Event>,
    key: Seq<u8>,
    now: u64,
)
    requires
        maps.len() == events.len() + 1,
        forall|i: int|
            0 <= i < events.len() ==> (#[trigger] events[i]).leads(maps[i], maps[i + 1]),
        in_order(events, now),
    ensures
        match last_written(maps[0], events, key) {
            Some(item) if !expired(item.exp_ms, now) => {
                &&& live(maps.last(), key, now)
                &&& reply_to(maps.last(), Command::Get { key }, now) == item.value
                &&& reply_to(maps.last(), Command::Del { key }, now) == one_text()
            },
            _ => {
                &&& !live(maps.last(), key, now)
                &&& reply_to(maps.last(), Command::Get { key }, now) == nil_text()
                &&& reply_to(maps.last(), Command::Del { key }, now) == zero_text()
            },
        },
    decreases events.len(),
{
    if events.len() > 0 {
        let n = events.len() - 1;
        let front = events.drop_last();
        let before = maps.drop_last();
        assert forall|i: int| 0 <= i < front.len() implies (#[trigger] front[i]).leads(
            before[i],
            before[i + 1],
        ) by {
            assert(events[i].leads(maps[i], maps[i + 1]));
        }
        assert(in_order(front, now)) by {
            assert forall|i: int, j: int| 0 <= i <= j < front.len() implies (
            #[trigger] front[i]).time() <= (#[trigger] front[j]).time() by {
                assert(events[i].time() <= events[j].time());
            }
            assert forall|i: int| 0 <= i < front.len() implies (#[trigger] front[i]).time()
                <= now by {
                assert(events[i].time() <= now);
            }
        }
        law_last_write_decides(before, front, key, now);
        assert(events[n].leads(maps[n], maps[n + 1]));
        assert(before.last() == maps[n]);
        assert(maps.last() == maps[n + 1]);
        match events[n] {
            Event::Idle { now: t } => {
                assert(live(maps[n], key, t) == live(maps[n + 1], key, t));
            },
            _ => {},
        }
    }
}

/// Whether every value fits the payload of one frame.
pub open spec fn values_fit(m: Map<Seq<u8>, Item>) -> bool {
    forall|k: Seq<u8>| #[trigger] m.contains_key(k) ==> m[k].value.len() <= u16::MAX
}

/// Every reply fits the payload of one frame, as long as the values in the map
/// do; and they do, whatever commands arrive in frames.
pub proof fn law_replies_fit_a_frame(
    m: Map<Seq<u8>, Item>,
    payload: Seq<u8>,
    now: u64,
)
    requires
        values_fit(m),
        payload.len() <= u16::MAX,
        command_of(payload) is Ok,
    ensures
        reply_to(m, command_of(payload)->Ok_0, now).len() <= u16::MAX,
        values_fit(map_after(m, command_of(payload)->Ok_0, now)),
{
    law_command_fits_payload(payload);
    reveal_strlit("OK");
    reveal_strlit("(nil)");
    reveal_strlit("1");
    reveal_strlit("0");
    let cmd = command_of(payload)->Ok_0;
    let after = map_after(m, cmd, now);
    assert forall|k: Seq<u8>| #[trigger] after.contains_key(k) implies after[k].value.len()
        <= u16::MAX by {
        if k != cmd.key() {
            assert(m.contains_key(k));
        }
    }
}

/// When an entry counts as expired: at its expiry time and from then on, and never
/// where that is zero. What is there and has not expired can be read.
pub proof fn law_what_has_expired(m: Map<Seq<u8>, Item>, key: Seq<u8>, exp_ms: u64, now: u64)
    ensures
        expired(exp_ms, now) <==> exp_ms != 0 && now >= exp_ms,
        live(m, key, now) <==> m.contains_key(key) && (m[key].exp_ms == 0 || now < m[key].exp_ms),
{
}

/// The expiry time is the time to live after now; never where the clock ends
/// before, and the first instant after the start of the clock at the earliest.
pub proof fn law_expiry_time(now: u64, ttl_ms: u32)
    ensures
        0 < now + ttl_ms <= u64::MAX ==> deadline(now, ttl_ms) == now + ttl_ms,
        now + ttl_ms > u64::MAX ==> deadline(now, ttl_ms) == 0,
        now + ttl_ms == 0 ==> deadline(now, ttl_ms) == 1,
{
}

/// How commands are answered: a GET with the value that can be read or `(nil)`, a
/// SET and a SETEX with `OK`, a DEL with `1` or `0`.
pub proof fn law_answers(
    m: Map<Seq<u8>, Item>,
    key: Seq<u8>,
    value: Seq<u8>,
    ttl_ms: u32,
    now: u64,
)
    ensures
        live(m, key, now) ==> reply_to(m, Command::Get { key }, now) == m[key].value,
        !live(m, key, now) ==> reply_to(m, Command::Get { key }, now) == seq![
            40u8,
            110u8,
            105u8,
            108u8,
            41u8,
        ],
        reply_to(m, Command::Put { key, value }, now) == seq![79u8, 75u8],
        reply_to(m, Command::SetEx { key, value, ttl_ms }, now) == seq![79u8, 75u8],
        live(m, key, now) ==> reply_to(m, Command::Del { key }, now) == seq![49u8],
        !live(m, key, now) ==> reply_to(m, Command::Del { key }, now) == seq![48u8],
{
    law_reply_texts();
}

/// What commands leave: a SET stores for good, a SETEX until its time is over, a
/// DEL takes out, and a GET takes out what it finds expired.
pub proof fn law_changes(
    m: Map<Seq<u8>, Item>,
    key: Seq<u8>,
    value: Seq<u8>,
    ttl_ms: u32,
    now: u64,
)
    ensures
        map_after(m, Command::Put { key, value }, now) == m.insert(key, Item { value, exp_ms: 0 }),
        map_after(m, Command::SetEx { key, value, ttl_ms }, now) == m.insert(
            key,
            Item { value, exp_ms: deadline(now, ttl_ms) },
        ),
        map_after(m, Command::Del { key }, now) == m.remove(key),
        live(m, key, now) ==> map_after(m, Command::Get { key }, now) == m,
        !live(m, key, now) ==> map_after(m, Command::Get { key }, now) == m.remove(key),
{
}

/// What events do to a map: applying a command changes it as the command does, and
/// in between nothing that can be read changes.
pub proof fn law_events(
    before: Map<Seq<u8>, Item>,
    after: Map<Seq<u8>, Item>,
    cmd: Command,
    now: u64,
    key: Seq<u8>,
)
    ensures
        (Event::Apply { cmd, now }).leads(before, after) <==> after == map_after(before, cmd, now),
        (Event::Idle { now }).leads(before, after) ==> live(before, key, now) == live(
            after,
            key,
            now,
        ) && (live(before, key, now) ==> before[key] == after[key]),
        (Event::Apply { cmd, now }).time() == now,
        (Event::Idle { now }).time() == now,
{
}

} // verus!
