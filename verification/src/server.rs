//! Connection handling, without the sockets.

use bytes::Bytes;
use vstd::prelude::*;
use vstd::utf8::encode_utf8;

use crate::buffer::{as_slice, bytes_from_vec, bytes_view};
use crate::common::{Frame, FrameKind, FrameView};
use crate::hashing::{lemma_shard_in_range, route_hash, shard_of, wyhash_of};
use crate::text::{ascii, push_text, same_bytes, text_bytes};
use crate::utils::{
    command_of, law_reply_texts, ok_text, one_text, resp_ok, resp_one, ClientCommand, Command,
    ParseError, WorkerCommand, WorkerOp,
};
use crate::wire::{
    be_value, law_bytes_spell_their_number, lemma_be_value_bound, lemma_pow256_values, read_be,
};

verus! {

/// The user name and password in a handshake payload
/// `[ulen:u16 BE][username][password]`; both empty where it is cut short.
pub open spec fn credentials(p: Seq<u8>) -> (Seq<u8>, Seq<u8>) {
    if p.len() < 2 {
        (Seq::empty(), Seq::empty())
    } else {
        let end = 2 + be_value(p.subrange(0, 2));
        if p.len() < end {
            (Seq::empty(), Seq::empty())
        } else {
            (p.subrange(2, end as int), p.skip(end as int))
        }
    }
}

/// Reads a handshake payload `[ulen:u16 BE][username][password]`. An empty
/// payload yields empty credentials (used when authentication is off).
pub fn parse_credentials(p: &[u8]) -> (r: (&[u8], &[u8]))
    ensures
        (r.0@, r.1@) == credentials(p@),
{
    if p.len() < 2 {
        let none: &[u8] = &p[0..0];
        assert(none@ =~= Seq::<u8>::empty());
        return (none, none);
    }
    proof {
        lemma_pow256_values();
        lemma_be_value_bound(p@.subrange(0, 2));
    }
    let end: usize = 2 + read_be(p, 0, 2) as usize;
    if p.len() < end {
        let none: &[u8] = &p[0..0];
        assert(none@ =~= Seq::<u8>::empty());
        return (none, none);
    }
    let user: &[u8] = &p[2..end];
    let pass: &[u8] = &p[end..p.len()];
    assert(pass@ =~= p@.skip(end as int));
    (user, pass)
}

/// A response frame.
pub open spec fn response_view(req_id: u32, payload: Seq<u8>) -> FrameView {
    FrameView { header: FrameKind::Response, req_id, payload }
}

/// The frame that carries a reply back to the client.
pub fn response(req_id: u32, payload: Bytes) -> (frame: Frame)
    ensures
        frame@ == response_view(req_id, bytes_view(payload)),
{
    Frame { header: FrameKind::Response, req_id, payload }
}

/// Whether a handshake payload satisfies the server: any does where
/// authentication is off, otherwise user name and password must match.
pub open spec fn admitted(auth: Option<(String, String)>, payload: Seq<u8>) -> bool {
    match auth {
        None => true,
        Some((user, pass)) => credentials(payload) == (encode_utf8(user@), encode_utf8(pass@)),
    }
}

/// Whether a handshake payload satisfies the server.
pub fn check_credentials(auth: &Option<(String, String)>, payload: &[u8]) -> (ok: bool)
    ensures
        ok == admitted(*auth, payload@),
{
    match auth {
        None => true,
        Some((user, pass)) => {
            let (u, p) = parse_credentials(payload);
            same_bytes(u, user.as_str().as_bytes()) && same_bytes(p, pass.as_str().as_bytes())
        },
    }
}

/// What becomes of a connection once its first frame is in.
#[derive(Debug)]
pub enum Opening<E> {
    /// Requests may flow, after the reply where there is one.
    Accepted(Option<Frame>),
    /// The reply goes out, and the connection is closed.
    Refused(Frame),
    /// No frame could be read.
    Broken(E),
    /// The connection ended during the handshake.
    Ended,
}

/// What an [`Opening`] says, byte for byte.
pub enum OpeningView<E> {
    Accepted(Option<FrameView>),
    Refused(FrameView),
    Broken(E),
    Ended,
}

impl<E> View for Opening<E> {
    type V = OpeningView<E>;

    open spec fn view(&self) -> OpeningView<E> {
        match *self {
            Opening::Accepted(None) => OpeningView::Accepted(None),
            Opening::Accepted(Some(reply)) => OpeningView::Accepted(Some(reply@)),
            Opening::Refused(reply) => OpeningView::Refused(reply@),
            Opening::Broken(e) => OpeningView::Broken(e),
            Opening::Ended => OpeningView::Ended,
        }
    }
}

/// What becomes of a connection whose first frame is `frame`. It must be a
/// handshake that satisfies the server. A handshake that carries credentials is
/// answered either way; a bare one (no payload) only where it is refused.
pub open spec fn opening<E>(auth: Option<(String, String)>, frame: FrameView) -> OpeningView<E> {
    if frame.header != FrameKind::HandShake {
        OpeningView::Refused(
            response_view(
                frame.req_id,
                ascii("ERR complete handshake before sending commands"@),
            ),
        )
    } else if !admitted(auth, frame.payload) {
        OpeningView::Refused(response_view(frame.req_id, ascii("ERR auth failed"@)))
    } else if frame.payload.len() == 0 {
        OpeningView::Accepted(None)
    } else {
        OpeningView::Accepted(Some(response_view(frame.req_id, ok_text())))
    }
}

/// Decides on a connection by what it sent first, if anything.
pub fn open_connection<E>(
    auth: &Option<(String, String)>,
    first: Option<Result<Frame, E>>,
) -> (r: Opening<E>)
    ensures
        r@ == match first {
            Some(Ok(frame)) => opening(*auth, frame@),
            Some(Err(e)) => OpeningView::Broken(e),
            None => OpeningView::Ended,
        },
{
    match first {
        Some(Ok(frame)) => {
            if frame.header != FrameKind::HandShake {
                proof {
                    reveal_strlit("ERR complete handshake before sending commands");
                }
                let payload = text_bytes("ERR complete handshake before sending commands");
                Opening::Refused(response(frame.req_id, payload))
            } else if !check_credentials(auth, as_slice(&frame.payload)) {
                proof {
                    reveal_strlit("ERR auth failed");
                }
                let payload = text_bytes("ERR auth failed");
                Opening::Refused(response(frame.req_id, payload))
            } else if frame.payload.len() == 0 {
                Opening::Accepted(None)
            } else {
                Opening::Accepted(Some(response(frame.req_id, resp_ok())))
            }
        },
        Some(Err(e)) => Opening::Broken(e),
        None => Opening::Ended,
    }
}

/// Nothing is done before the handshake: any other frame that comes first is
/// answered with an error, under its own id, and the connection is closed.
pub proof fn law_handshake_comes_first<E>(auth: Option<(String, String)>, frame: FrameView)
    requires
        frame.header != FrameKind::HandShake,
    ensures
        opening::<E>(auth, frame) == OpeningView::<E>::Refused(
            response_view(
                frame.req_id,
                ascii("ERR complete handshake before sending commands"@),
            ),
        ),
{
}

/// The plan for one decoded frame: an immediate reply, or an op routed to a shard.
#[derive(Debug)]
pub enum Plan {
    Immediate(Bytes),
    Op { shard: usize, op: WorkerOp },
}

/// What a [`Plan`] says, byte for byte.
pub enum PlanView {
    Immediate(Seq<u8>),
    Op { shard: usize, cmd: Command },
}

impl View for Plan {
    type V = PlanView;

    open spec fn view(&self) -> PlanView {
        match *self {
            Plan::Immediate(payload) => PlanView::Immediate(bytes_view(payload)),
            Plan::Op { shard, op } => PlanView::Op { shard, cmd: op@ },
        }
    }
}

/// The plan for a frame among `worker_count` shards: a request goes to the shard
/// that owns its key, or is answered with what is wrong with it; every other
/// frame has a fixed answer.
pub open spec fn planned(worker_count: usize, frame: FrameView) -> PlanView {
    match frame.header {
        FrameKind::Request => match command_of(frame.payload) {
            Ok(cmd) => PlanView::Op { shard: shard_of(cmd.key(), worker_count), cmd },
            Err(e) => PlanView::Immediate(ascii("ERR "@) + e.spec_message()),
        },
        FrameKind::Heartbeat => PlanView::Immediate(one_text()),
        FrameKind::HandShake => PlanView::Immediate(
            ascii("Handshake process already completed"@),
        ),
        FrameKind::Response => PlanView::Immediate(ascii("ERR Invalid command"@)),
    }
}

/// Whether a frame is work for a shard.
pub open spec fn is_work(frame: FrameView) -> bool {
    frame.header == FrameKind::Request && command_of(frame.payload) is Ok
}

/// Whether a frame is work for a shard.
pub fn needs_shard(frame: &Frame) -> (r: bool)
    ensures
        r == is_work(frame@),
{
    frame.header == FrameKind::Request && ClientCommand::parse(&frame.payload).is_ok()
}

/// Turns a decoded frame into a plan. Pure routing: nothing is sent. Work for a
/// shard asks for at least one.
pub fn plan(worker_count: usize, frame: Frame) -> (p: Plan)
    requires
        is_work(frame@) ==> worker_count > 0,
    ensures
        p@ == planned(worker_count, frame@),
        p matches Plan::Op { shard, .. } ==> shard < worker_count,
{
    match frame.header {
        FrameKind::Request => match ClientCommand::parse(&frame.payload) {
            Ok(cmd) => plan_op(worker_count, cmd),
            Err(e) => Plan::Immediate(error_reply(e)),
        },
        FrameKind::Heartbeat => Plan::Immediate(resp_one()),
        FrameKind::HandShake => {
            proof {
                reveal_strlit("Handshake process already completed");
            }
            Plan::Immediate(text_bytes("Handshake process already completed"))
        },
        FrameKind::Response => {
            proof {
                reveal_strlit("ERR Invalid command");
            }
            Plan::Immediate(text_bytes("ERR Invalid command"))
        },
    }
}

/// The reply to a request that is not a command.
fn error_reply(e: ParseError) -> (r: Bytes)
    ensures
        bytes_view(r) == ascii("ERR "@) + e.spec_message(),
{
    let mut text: Vec<u8> = Vec::new();
    proof {
        reveal_strlit("ERR ");
    }
    push_text(&mut text, "ERR ");
    e.push_message(&mut text);
    assert(text@ =~= ascii("ERR "@) + e.spec_message());
    bytes_from_vec(text)
}

/// Routes a command to its owning shard.
pub fn plan_op(worker_count: usize, cmd: ClientCommand) -> (p: Plan)
    requires
        worker_count > 0,
    ensures
        p@ == (PlanView::Op { shard: shard_of(cmd@.key(), worker_count), cmd: cmd@ }),
        p matches Plan::Op { shard, .. } ==> shard < worker_count,
{
    match cmd {
        ClientCommand::Get { key } => Plan::Op {
            shard: route_hash(as_slice(&key), worker_count).shard_id,
            op: WorkerOp::Get { key },
        },
        ClientCommand::Put { key, value } => Plan::Op {
            shard: route_hash(as_slice(&key), worker_count).shard_id,
            op: WorkerOp::Put { key, value },
        },
        ClientCommand::SetEx { key, value, ttl_ms } => Plan::Op {
            shard: route_hash(as_slice(&key), worker_count).shard_id,
            op: WorkerOp::SetEx { key, value, ttl_ms },
        },
        ClientCommand::Del { key } => Plan::Op {
            shard: route_hash(as_slice(&key), worker_count).shard_id,
            op: WorkerOp::Del { key },
        },
    }
}

/// Whether a frame is answered with an error: a request that is no command, or a
/// response, which only the server sends.
pub open spec fn is_error(frame: FrameView) -> bool {
    frame.header == FrameKind::Response || (frame.header == FrameKind::Request && command_of(
        frame.payload,
    ) is Err)
}

/// An error is answered with `ERR` and what is wrong.
pub proof fn law_errors_are_marked(worker_count: usize, frame: FrameView)
    requires
        is_error(frame),
    ensures
        planned(worker_count, frame) matches PlanView::Immediate(payload) && payload.take(4)
            == ascii("ERR "@) && payload.skip(4) == match frame.header {
            FrameKind::Response => ascii("Invalid command"@),
            _ => (command_of(frame.payload)->Err_0).spec_message(),
        },
{
    reveal_strlit("ERR ");
    reveal_strlit("Invalid command");
    reveal_strlit("ERR Invalid command");
    if frame.header == FrameKind::Response {
        let payload = ascii("ERR Invalid command"@);
        assert(payload.take(4) =~= ascii("ERR "@));
        assert(payload.skip(4) =~= ascii("Invalid command"@));
    } else {
        let message = (command_of(frame.payload)->Err_0).spec_message();
        let payload = ascii("ERR "@) + message;
        assert(payload.take(4) =~= ascii("ERR "@));
        assert(payload.skip(4) =~= message);
    }
}

/// Upper bound on how many frames a single reader pass groups into one batch.
pub const MAX_BATCH: usize = 1024;

/// The replies that a pass over `frames` gives at once, in order, each with the
/// id of its frame.
pub open spec fn immediates(worker_count: usize, frames: Seq<FrameView>) -> Seq<(u32, Seq<u8>)>
    decreases frames.len(),
{
    if frames.len() == 0 {
        Seq::empty()
    } else {
        let rest = immediates(worker_count, frames.drop_last());
        match planned(worker_count, frames.last()) {
            PlanView::Immediate(payload) => rest.push((frames.last().req_id, payload)),
            PlanView::Op { .. } => rest,
        }
    }
}

/// The commands that a pass over `frames` sends to `shard`, in order, each with
/// the id of its frame.
pub open spec fn routed(
    worker_count: usize,
    frames: Seq<FrameView>,
    shard: usize,
) -> Seq<(u32, Command)>
    decreases frames.len(),
{
    if frames.len() == 0 {
        Seq::empty()
    } else {
        let rest = routed(worker_count, frames.drop_last(), shard);
        match planned(worker_count, frames.last()) {
            PlanView::Op { shard: owner, cmd } if owner == shard => rest.push(
                (frames.last().req_id, cmd),
            ),
            _ => rest,
        }
    }
}

/// One batch for each of the first `n` shards that a pass over `frames` has work
/// for, in the order of the shards.
pub open spec fn batches(worker_count: usize, frames: Seq<FrameView>, n: nat) -> Seq<
    (usize, Seq<(u32, Command)>),
>
    decreases n,
{
    if n == 0 {
        Seq::empty()
    } else {
        let shard = (n - 1) as usize;
        let rest = batches(worker_count, frames, (n - 1) as nat);
        let ops = routed(worker_count, frames, shard);
        if ops.len() == 0 {
            rest
        } else {
            rest.push((shard, ops))
        }
    }
}

/// The frames in front of the first error, and that error.
pub open spec fn decoded_prefix<E>(chunk: Seq<Result<Frame, E>>) -> (Seq<FrameView>, Option<E>)
    decreases chunk.len(),
{
    if chunk.len() == 0 {
        (Seq::empty(), None)
    } else {
        match chunk[0] {
            Err(e) => (Seq::empty(), Some(e)),
            Ok(frame) => {
                let (rest, failure) = decoded_prefix(chunk.drop_first());
                (seq![frame@] + rest, failure)
            },
        }
    }
}

/// Replies, byte for byte.
pub open spec fn replies_view(replies: Seq<(u32, Bytes)>) -> Seq<(u32, Seq<u8>)> {
    replies.map_values(|r: (u32, Bytes)| (r.0, bytes_view(r.1)))
}

/// Operations, byte for byte.
pub open spec fn ops_view(ops: Seq<(u32, WorkerOp)>) -> Seq<(u32, Command)> {
    ops.map_values(|o: (u32, WorkerOp)| (o.0, o.1@))
}

/// Batches, byte for byte.
pub open spec fn batches_view(batches: Seq<(usize, WorkerCommand)>) -> Seq<
    (usize, Seq<(u32, Command)>),
> {
    batches.map_values(|b: (usize, WorkerCommand)| (b.0, ops_view(b.1->ops@)))
}

/// What one reader pass leads to: replies to send at once, batches for the
/// shards, and the error that ends the connection, if one does.
#[derive(Debug)]
pub struct Pass<E> {
    pub immediates: Vec<(u32, Bytes)>,
    pub batches: Vec<(usize, WorkerCommand)>,
    pub failure: Option<E>,
}

/// Plans one reader pass. Every frame in front of an error is planned; an error
/// ends the pass, and the operations of that pass are not dispatched.
pub fn plan_chunk<E>(worker_count: usize, chunk: Vec<Result<Frame, E>>) -> (pass: Pass<E>)
    requires
        worker_count > 0 || forall|i: int|
            0 <= i < decoded_prefix(chunk@).0.len() ==> !is_work(
                #[trigger] decoded_prefix(chunk@).0[i],
            ),
    ensures
        ({
            let (frames, failure) = decoded_prefix(chunk@);
            &&& pass.failure == failure
            &&& replies_view(pass.immediates@) == immediates(worker_count, frames)
            &&& batches_view(pass.batches@) == if failure is None {
                batches(worker_count, frames, worker_count as nat)
            } else {
                Seq::empty()
            }
        }),
{
    let mut replies: Vec<(u32, Bytes)> = Vec::new();
    let mut groups: Vec<Vec<(u32, WorkerOp)>> = empty_groups(worker_count);
    let ghost items = chunk@;
    let ghost mut seen: Seq<FrameView> = Seq::empty();
    assert(replies_view(replies@) =~= Seq::empty());
    for item in it: chunk
        invariant
            worker_count > 0 || forall|i: int|
                0 <= i < decoded_prefix(items).0.len() ==> !is_work(
                    #[trigger] decoded_prefix(items).0[i],
                ),
            it.seq() == items,
            seen.len() == it.index(),
            forall|j: int|
                0 <= j < seen.len() ==> (#[trigger] items[j] matches Ok(f) && f@ == seen[j]),
            replies_view(replies@) == immediates(worker_count, seen),
            groups@.len() == worker_count,
            forall|s: int|
                0 <= s < worker_count ==> ops_view(#[trigger] groups@[s]@) == routed(
                    worker_count,
                    seen,
                    s as usize,
                ),
    {
        match item {
            Err(e) => {
                proof {
                    lemma_prefix(items, seen);
                    let rest = items.skip(seen.len() as int);
                    assert(rest[0] == item);
                    assert(seen + Seq::<FrameView>::empty() =~= seen);
                }
                let none: Vec<(usize, WorkerCommand)> = Vec::new();
                assert(batches_view(none@) =~= Seq::empty());
                return Pass { immediates: replies, batches: none, failure: Some(e) };
            },
            Ok(frame) => {
                let req_id: u32 = frame.req_id;
                let ghost before = seen;
                proof {
                    seen = seen.push(frame@);
                    assert(seen.drop_last() =~= before);
                    lemma_prefix(items, seen);
                    assert(decoded_prefix(items).0[before.len() as int] == frame@);
                }
                match plan(worker_count, frame) {
                    Plan::Immediate(payload) => {
                        let ghost old_replies = replies@;
                        replies.push((req_id, payload));
                        assert(replies_view(replies@) =~= replies_view(old_replies).push(
                            (req_id, bytes_view(payload)),
                        ));
                    },
                    Plan::Op { shard, op } => {
                        let ghost old_groups = groups@;
                        let ghost cmd = op@;
                        groups[shard].push((req_id, op));
                        proof {
                            assert(ops_view(groups@[shard as int]@) =~= ops_view(
                                old_groups[shard as int]@,
                            ).push((req_id, cmd)));
                            assert forall|s: int| 0 <= s < worker_count implies ops_view(
                                #[trigger] groups@[s]@,
                            ) == routed(worker_count, seen, s as usize) by {
                                assert(ops_view(old_groups[s]@) == routed(
                                    worker_count,
                                    before,
                                    s as usize,
                                ));
                            }
                        }
                    },
                }
            },
        }
    }
    proof {
        lemma_prefix(items, seen);
        assert(items.skip(seen.len() as int) =~= Seq::empty());
        assert(seen + Seq::<FrameView>::empty() =~= seen);
    }
    let batches = into_batches(worker_count, groups, Ghost(seen));
    Pass { immediates: replies, batches, failure: None }
}

/// One empty group for each shard.
fn empty_groups(worker_count: usize) -> (groups: Vec<Vec<(u32, WorkerOp)>>)
    ensures
        groups@.len() == worker_count,
        forall|s: int|
            0 <= s < worker_count ==> ops_view(#[trigger] groups@[s]@) == Seq::<
                (u32, Command),
            >::empty(),
{
    let mut groups: Vec<Vec<(u32, WorkerOp)>> = Vec::new();
    for i in 0..worker_count
        invariant
            groups@.len() == i,
            forall|s: int|
                0 <= s < i ==> ops_view(#[trigger] groups@[s]@) == Seq::<(u32, Command)>::empty(),
    {
        let none: Vec<(u32, WorkerOp)> = Vec::new();
        assert(ops_view(none@) =~= Seq::empty());
        groups.push(none);
    }
    groups
}

/// One batch for each group that is not empty.
fn into_batches(
    worker_count: usize,
    groups: Vec<Vec<(u32, WorkerOp)>>,
    Ghost(frames): Ghost<Seq<FrameView>>,
) -> (out: Vec<(usize, WorkerCommand)>)
    requires
        groups@.len() == worker_count,
        forall|s: int|
            0 <= s < worker_count ==> ops_view(#[trigger] groups@[s]@) == routed(
                worker_count,
                frames,
                s as usize,
            ),
    ensures
        batches_view(out@) == batches(worker_count, frames, worker_count as nat),
{
    let ghost all = groups@;
    let mut out: Vec<(usize, WorkerCommand)> = Vec::new();
    let mut shard: usize = 0;
    assert(batches_view(out@) =~= Seq::empty());
    for ops in it: groups
        invariant
            it.seq() == all,
            all.len() == worker_count,
            shard == it.index(),
            forall|s: int|
                0 <= s < worker_count ==> ops_view(#[trigger] all[s]@) == routed(
                    worker_count,
                    frames,
                    s as usize,
                ),
            batches_view(out@) == batches(worker_count, frames, shard as nat),
    {
        let ghost before = out@;
        assert(ops_view(all[shard as int]@) == routed(worker_count, frames, shard));
        assert(ops@ == all[shard as int]@);
        assert(ops_view(ops@).len() == ops@.len());
        if ops.len() > 0 {
            let ghost view = ops_view(ops@);
            out.push((shard, WorkerCommand::Batch { ops }));
            assert(batches_view(out@) =~= batches_view(before).push((shard, view)));
        }
        shard = shard + 1;
    }
    out
}

/// A chunk that starts with these frames.
proof fn lemma_prefix<E>(chunk: Seq<Result<Frame, E>>, seen: Seq<FrameView>)
    requires
        seen.len() <= chunk.len(),
        forall|j: int|
            0 <= j < seen.len() ==> (#[trigger] chunk[j] matches Ok(f) && f@ == seen[j]),
    ensures
        ({
            let (rest, failure) = decoded_prefix(chunk.skip(seen.len() as int));
            decoded_prefix(chunk) == (seen + rest, failure)
        }),
    decreases seen.len(),
{
    if seen.len() == 0 {
        assert(chunk.skip(0) =~= chunk);
        assert(seen + decoded_prefix(chunk).0 =~= decoded_prefix(chunk).0);
    } else {
        let tail = chunk.drop_first();
        let later = seen.drop_first();
        assert forall|j: int| 0 <= j < later.len() implies (#[trigger] tail[j] matches Ok(f) && f@
            == later[j]) by {
            assert(chunk[j + 1] is Ok);
        }
        lemma_prefix(tail, later);
        assert(tail.skip(later.len() as int) =~= chunk.skip(seen.len() as int));
        assert(chunk[0] is Ok);
        assert(seq![seen[0]] + (later + decoded_prefix(chunk.skip(seen.len() as int)).0) =~= seen
            + decoded_prefix(chunk.skip(seen.len() as int)).0);
    }
}

/// How many frames carry an id.
pub open spec fn frames_with(frames: Seq<FrameView>, id: u32) -> nat
    decreases frames.len(),
{
    if frames.len() == 0 {
        0
    } else {
        frames_with(frames.drop_last(), id) + if frames.last().req_id == id {
            1nat
        } else {
            0nat
        }
    }
}

/// How many answers or commands carry an id.
pub open spec fn tagged_with<T>(tagged: Seq<(u32, T)>, id: u32) -> nat
    decreases tagged.len(),
{
    if tagged.len() == 0 {
        0
    } else {
        tagged_with(tagged.drop_last(), id) + if tagged.last().0 == id {
            1nat
        } else {
            0nat
        }
    }
}

/// How many commands a pass over `frames` sends to the first `n` shards.
pub open spec fn routed_count(worker_count: usize, frames: Seq<FrameView>, n: nat) -> nat
    decreases n,
{
    if n == 0 {
        0
    } else {
        routed_count(worker_count, frames, (n - 1) as nat) + routed(
            worker_count,
            frames,
            (n - 1) as usize,
        ).len()
    }
}

/// How many commands with an id a pass over `frames` sends to the first `n`
/// shards.
pub open spec fn routed_with(worker_count: usize, frames: Seq<FrameView>, n: nat, id: u32) -> nat
    decreases n,
{
    if n == 0 {
        0
    } else {
        routed_with(worker_count, frames, (n - 1) as nat, id) + tagged_with(
            routed(worker_count, frames, (n - 1) as usize),
            id,
        )
    }
}

/// Every frame of a pass is dealt with exactly once, under its own id: it is
/// answered at once, or sent to one shard. So each id comes out as often as it
/// came in, and as many answers and commands come out as frames came in.
pub proof fn law_each_frame_once(worker_count: usize, frames: Seq<FrameView>, id: u32)
    requires
        worker_count > 0,
    ensures
        tagged_with(immediates(worker_count, frames), id) + routed_with(
            worker_count,
            frames,
            worker_count as nat,
            id,
        ) == frames_with(frames, id),
        immediates(worker_count, frames).len() + routed_count(
            worker_count,
            frames,
            worker_count as nat,
        ) == frames.len(),
    decreases frames.len(),
{
    if frames.len() == 0 {
        lemma_nothing_routed(worker_count, frames, worker_count as nat, id);
    } else {
        law_each_frame_once(worker_count, frames.drop_last(), id);
        lemma_count_step(worker_count, frames, worker_count as nat, id);
        match planned(worker_count, frames.last()) {
            PlanView::Op { shard, cmd } => {
                lemma_shard_in_range(cmd.key(), worker_count);
            },
            PlanView::Immediate(payload) => {
                let rest = immediates(worker_count, frames.drop_last());
                assert(rest.push((frames.last().req_id, payload)).drop_last() =~= rest);
            },
        }
    }
}

/// Nothing is routed out of no frames.
proof fn lemma_nothing_routed(worker_count: usize, frames: Seq<FrameView>, n: nat, id: u32)
    requires
        frames.len() == 0,
    ensures
        routed_count(worker_count, frames, n) == 0,
        routed_with(worker_count, frames, n, id) == 0,
    decreases n,
{
    if n > 0 {
        lemma_nothing_routed(worker_count, frames, (n - 1) as nat, id);
    }
}

/// One frame more is one command more, for the shards that hold its owner.
proof fn lemma_count_step(worker_count: usize, frames: Seq<FrameView>, n: nat, id: u32)
    requires
        frames.len() > 0,
        n <= worker_count,
    ensures
        routed_count(worker_count, frames, n) == routed_count(worker_count, frames.drop_last(), n)
            + (match planned(worker_count, frames.last()) {
            PlanView::Op { shard, .. } if shard < n => 1nat,
            _ => 0nat,
        }),
        routed_with(worker_count, frames, n, id) == routed_with(
            worker_count,
            frames.drop_last(),
            n,
            id,
        ) + (match planned(worker_count, frames.last()) {
            PlanView::Op { shard, .. } if shard < n && frames.last().req_id == id => 1nat,
            _ => 0nat,
        }),
    decreases n,
{
    if n > 0 {
        lemma_count_step(worker_count, frames, (n - 1) as nat, id);
        let rest = routed(worker_count, frames.drop_last(), (n - 1) as usize);
        match planned(worker_count, frames.last()) {
            PlanView::Op { shard, cmd } => {
                assert(rest.push((frames.last().req_id, cmd)).drop_last() =~= rest);
            },
            _ => {},
        }
    }
}

/// A command goes to one shard only, the owner of its key, under the id of its
/// frame.
pub proof fn law_request_reaches_owner(worker_count: usize, frames: Seq<FrameView>, i: int)
    requires
        worker_count > 0,
        0 <= i < frames.len(),
        planned(worker_count, frames[i]) is Op,
    ensures
        ({
            let owner = planned(worker_count, frames[i])->shard;
            let cmd = planned(worker_count, frames[i])->cmd;
            &&& command_of(frames[i].payload) == Ok::<Command, ParseError>(cmd)
            &&& owner == shard_of(cmd.key(), worker_count)
            &&& owner < worker_count
            &&& routed(worker_count, frames, owner).contains((frames[i].req_id, cmd))
        }),
    decreases frames.len(),
{
    let owner = planned(worker_count, frames[i])->shard;
    let cmd = planned(worker_count, frames[i])->cmd;
    lemma_shard_in_range(cmd.key(), worker_count);
    let now = routed(worker_count, frames, owner);
    if i == frames.len() - 1 {
        assert(now.last() == (frames[i].req_id, cmd));
    } else {
        law_request_reaches_owner(worker_count, frames.drop_last(), i);
        let before = routed(worker_count, frames.drop_last(), owner);
        let j = choose|j: int| 0 <= j < before.len() && before[j] == (frames[i].req_id, cmd);
        assert(now[j] == before[j]);
    }
}

/// Where the passes are cut makes no difference: two passes give the replies and
/// the commands of one pass over both, in the same order for each shard.
pub proof fn law_passes_concatenate(
    worker_count: usize,
    a: Seq<FrameView>,
    b: Seq<FrameView>,
    shard: usize,
)
    ensures
        immediates(worker_count, a + b) == immediates(worker_count, a) + immediates(
            worker_count,
            b,
        ),
        routed(worker_count, a + b, shard) == routed(worker_count, a, shard) + routed(
            worker_count,
            b,
            shard,
        ),
    decreases b.len(),
{
    if b.len() == 0 {
        assert(a + b =~= a);
        assert(immediates(worker_count, a) + immediates(worker_count, b) =~= immediates(
            worker_count,
            a,
        ));
        assert(routed(worker_count, a, shard) + routed(worker_count, b, shard) =~= routed(
            worker_count,
            a,
            shard,
        ));
    } else {
        law_passes_concatenate(worker_count, a, b.drop_last(), shard);
        assert((a + b).drop_last() =~= a + b.drop_last());
        assert((a + b).last() == b.last());
        assert(immediates(worker_count, a + b) =~= immediates(worker_count, a) + immediates(
            worker_count,
            b,
        ));
        assert(routed(worker_count, a + b, shard) =~= routed(worker_count, a, shard) + routed(
            worker_count,
            b,
            shard,
        ));
    }
}

/// A pass sends at most one batch to a shard, holding all that is routed there,
/// and none to a shard without work.
pub proof fn law_one_batch_per_shard(
    worker_count: usize,
    frames: Seq<FrameView>,
    n: nat,
    shard: usize,
)
    requires
        n <= worker_count,
    ensures
        batches(worker_count, frames, n).contains((shard, routed(worker_count, frames, shard)))
            <==> shard < n && routed(worker_count, frames, shard).len() > 0,
        forall|i: int, j: int|
            0 <= i < j < batches(worker_count, frames, n).len() ==> (#[trigger] batches(
                worker_count,
                frames,
                n,
            )[i]).0 < (#[trigger] batches(worker_count, frames, n)[j]).0 < n,
        forall|i: int|
            0 <= i < batches(worker_count, frames, n).len() ==> (#[trigger] batches(
                worker_count,
                frames,
                n,
            )[i]).0 < n && batches(worker_count, frames, n)[i].1 == routed(
                worker_count,
                frames,
                batches(worker_count, frames, n)[i].0,
            ),
    decreases n,
{
    if n > 0 {
        law_one_batch_per_shard(worker_count, frames, (n - 1) as nat, shard);
        let rest = batches(worker_count, frames, (n - 1) as nat);
        let all = batches(worker_count, frames, n);
        let entry = (shard, routed(worker_count, frames, shard));
        if rest.contains(entry) {
            let j = choose|j: int| 0 <= j < rest.len() && rest[j] == entry;
            assert(all[j] == entry);
        } else if shard == n - 1 && routed(worker_count, frames, shard).len() > 0 {
            assert(all.last() == entry);
        }
        if all.contains(entry) && shard != n - 1 {
            let j = choose|j: int| 0 <= j < all.len() && all[j] == entry;
            assert(rest[j] == entry);
        }
    }
}

/// A handshake payload is two bytes of length, as many bytes of user name as they
/// say, and the password behind it; one that is too short for that has neither.
pub proof fn law_credentials_read_the_layout(p: Seq<u8>)
    ensures
        p.len() < 2 ==> credentials(p) == (Seq::<u8>::empty(), Seq::<u8>::empty()),
        p.len() >= 2 ==> ({
            let end = 2 + p[0] * 0x100 + p[1];
            &&& p.len() < end ==> credentials(p) == (Seq::<u8>::empty(), Seq::<u8>::empty())
            &&& p.len() >= end ==> credentials(p) == (p.subrange(2, end), p.skip(end))
        }),
{
    if p.len() >= 2 {
        law_bytes_spell_their_number(p.subrange(0, 2));
    }
}

/// Who gets in: anyone where authentication is off, and otherwise exactly those
/// whose user name and password are the server's, byte for byte.
pub proof fn law_only_matching_credentials_get_in(user: String, pass: String, p: Seq<u8>)
    ensures
        admitted(None, p),
        admitted(Some((user, pass)), p) <==> credentials(p).0 == encode_utf8(user@) && credentials(
            p,
        ).1 == encode_utf8(pass@),
{
}

/// What becomes of a connection: accepted, refused for its credentials, or refused
/// because another frame came first; the reply carries the id of the frame.
pub proof fn law_opening_of_a_connection<E>(auth: Option<(String, String)>, frame: FrameView)
    ensures
        ({
            let ok = seq![79u8, 75u8];
            let hello = frame.header is HandShake;
            &&& hello && admitted(auth, frame.payload) && frame.payload.len() > 0 ==> opening::<E>(
                auth,
                frame,
            ) == OpeningView::<E>::Accepted(
                Some(
                    (FrameView {
                        header: FrameKind::Response,
                        req_id: frame.req_id,
                        payload: ok,
                    }),
                ),
            )
            &&& hello && admitted(auth, frame.payload) && frame.payload.len() == 0 ==> opening::<E>(
                auth,
                frame,
            ) == OpeningView::<E>::Accepted(None)
            &&& hello && !admitted(auth, frame.payload) ==> opening::<E>(auth, frame)
                == OpeningView::<E>::Refused(
                (FrameView {
                    header: FrameKind::Response,
                    req_id: frame.req_id,
                    payload: ascii("ERR auth failed"@),
                }),
            )
            &&& !hello ==> opening::<E>(auth, frame) == OpeningView::<E>::Refused(
                (FrameView {
                    header: FrameKind::Response,
                    req_id: frame.req_id,
                    payload: ascii("ERR complete handshake before sending commands"@),
                }),
            )
        }),
{
    law_reply_texts();
}

/// What is done with a frame: a command goes to the owner of its key, a heartbeat
/// is answered `1` whatever it carries, and everything else has its fixed answer.
pub proof fn law_plan_of_a_frame(worker_count: usize, frame: FrameView)
    ensures
        frame.header is Request ==> match command_of(frame.payload) {
            Ok(cmd) => planned(worker_count, frame) == (PlanView::Op {
                shard: (wyhash_of(cmd.key(), 123456789) as usize) & ((worker_count - 1) as usize),
                cmd,
            }),
            Err(e) => planned(worker_count, frame) == PlanView::Immediate(
                ascii("ERR "@) + e.spec_message(),
            ),
        },
        frame.header is Heartbeat ==> planned(worker_count, frame) == PlanView::Immediate(
            seq![49u8],
        ),
        frame.header is HandShake ==> planned(worker_count, frame) == PlanView::Immediate(
            ascii("Handshake process already completed"@),
        ),
        frame.header is Response ==> planned(worker_count, frame) == PlanView::Immediate(
            ascii("ERR Invalid command"@),
        ),
{
    law_reply_texts();
}

/// A pass over one frame gives one answer under the id of the frame, or one
/// command under it for one shard; a pass over none gives nothing.
pub proof fn law_pass_over_one_frame(worker_count: usize, frame: FrameView, shard: usize)
    ensures
        immediates(worker_count, Seq::empty()).len() == 0,
        routed(worker_count, Seq::empty(), shard).len() == 0,
        match planned(worker_count, frame) {
            PlanView::Immediate(payload) => {
                &&& immediates(worker_count, seq![frame]) == seq![(frame.req_id, payload)]
                &&& routed(worker_count, seq![frame], shard).len() == 0
            },
            PlanView::Op { shard: owner, cmd } => {
                &&& immediates(worker_count, seq![frame]).len() == 0
                &&& owner == shard ==> routed(worker_count, seq![frame], shard) == seq![
                    (frame.req_id, cmd),
                ]
                &&& owner != shard ==> routed(worker_count, seq![frame], shard).len() == 0
            },
        },
{
    let one = seq![frame];
    assert(one.drop_last() =~= Seq::empty());
    assert(one.last() == frame);
    assert(immediates(worker_count, one.drop_last()) =~= Seq::empty());
    assert(routed(worker_count, one.drop_last(), shard) =~= Seq::empty());
    match planned(worker_count, frame) {
        PlanView::Immediate(payload) => {
            assert(immediates(worker_count, one) =~= seq![(frame.req_id, payload)]);
        },
        PlanView::Op { shard: owner, cmd } => {
            if owner == shard {
                assert(routed(worker_count, one, shard) =~= seq![(frame.req_id, cmd)]);
            }
        },
    }
}

/// What of a chunk is planned: every frame in front of the first error, and the
/// error, if there is one.
pub proof fn law_prefix_ends_at_the_first_error<E>(chunk: Seq<Result<Frame, E>>)
    ensures
        ({
            let (frames, failure) = decoded_prefix(chunk);
            &&& frames.len() <= chunk.len()
            &&& forall|i: int|
                0 <= i < frames.len() ==> (#[trigger] chunk[i] matches Ok(f) && f@ == frames[i])
            &&& match failure {
                None => frames.len() == chunk.len(),
                Some(e) => frames.len() < chunk.len() && chunk[frames.len() as int] == Err::<
                    Frame,
                    E,
                >(e),
            }
        }),
    decreases chunk.len(),
{
    if chunk.len() > 0 {
        let tail = chunk.drop_first();
        law_prefix_ends_at_the_first_error(tail);
        let (rest, failure) = decoded_prefix(tail);
        let (frames, _) = decoded_prefix(chunk);
        assert forall|i: int| 0 <= i < frames.len() implies (#[trigger] chunk[i] matches Ok(f)
            && f@ == frames[i]) by {
            if i > 0 {
                assert(tail[i - 1] is Ok);
                assert(rest[i - 1] == frames[i]);
            }
        }
        if chunk[0] is Ok && failure is Some {
            assert(tail[rest.len() as int] == chunk[rest.len() as int + 1]);
        }
    }
}

/// Which frames are work for a shard, and which are answered with an error.
pub proof fn law_work_and_errors(frame: FrameView)
    ensures
        is_work(frame) <==> frame.header is Request && command_of(frame.payload) is Ok,
        is_error(frame) <==> frame.header is Response || (frame.header is Request && command_of(
            frame.payload,
        ) is Err),
{
}

/// What the contracts say of plans, openings, replies and batches is what they
/// hold.
pub proof fn law_plans_are_what_they_hold<E>(
    payload: Bytes,
    shard: usize,
    op: WorkerOp,
    frame: Frame,
    e: E,
)
    ensures
        Plan::Immediate(payload)@ == PlanView::Immediate(bytes_view(payload)),
        (Plan::Op { shard, op })@ == (PlanView::Op { shard, cmd: op@ }),
        Opening::<E>::Accepted(None)@ == OpeningView::<E>::Accepted(None),
        Opening::<E>::Accepted(Some(frame))@ == OpeningView::<E>::Accepted(Some(frame@)),
        Opening::<E>::Refused(frame)@ == OpeningView::<E>::Refused(frame@),
        Opening::<E>::Broken(e)@ == OpeningView::<E>::Broken(e),
        Opening::<E>::Ended@ == OpeningView::<E>::Ended,
{
}

/// Replies, operations and batches stay in order, each with its id and bytes, or
/// its shard and operations.
pub proof fn law_replies_and_batches_in_order(
    replies: Seq<(u32, Bytes)>,
    ops: Seq<(u32, WorkerOp)>,
    batches: Seq<(usize, WorkerCommand)>,
)
    ensures
        replies_view(replies).len() == replies.len(),
        forall|i: int|
            0 <= i < replies.len() ==> #[trigger] replies_view(replies)[i] == (
                replies[i].0,
                bytes_view(replies[i].1),
            ),
        ops_view(ops).len() == ops.len(),
        forall|i: int|
            0 <= i < ops.len() ==> #[trigger] ops_view(ops)[i] == (ops[i].0, ops[i].1@),
        batches_view(batches).len() == batches.len(),
        forall|i: int|
            0 <= i < batches.len() ==> #[trigger] batches_view(batches)[i] == (
                batches[i].0,
                ops_view(batches[i].1->ops@),
            ),
{
}

/// A reply goes out as a response under the id that it answers.
pub proof fn law_response_carries_the_id(req_id: u32, payload: Seq<u8>)
    ensures
        response_view(req_id, payload).header is Response,
        response_view(req_id, payload).req_id == req_id,
        response_view(req_id, payload).payload == payload,
{
}

} // verus!
