use bytes::Bytes;
use dataset_local::common::{DecodeError, Frame, FrameKind};
use dataset_local::hashing::route_hash;
use dataset_local::server::{
    check_credentials, needs_shard, open_connection, parse_credentials, plan, plan_chunk, plan_op, response,
    Opening, Plan, MAX_BATCH,
};
use dataset_local::utils::{ClientCommand, WorkerCommand, WorkerOp};

fn frame(header: FrameKind, req_id: u32, payload: &[u8]) -> Frame {
    Frame { header, req_id, payload: Bytes::copy_from_slice(payload) }
}

fn get(req_id: u32, key: &[u8]) -> Frame {
    let mut p = vec![1, 0, key.len() as u8];
    p.extend_from_slice(key);
    frame(FrameKind::Request, req_id, &p)
}

fn open(auth: &Option<(String, String)>, first: Option<Frame>) -> Opening<DecodeError> {
    open_connection(auth, first.map(Ok))
}

fn auth() -> Option<(String, String)> {
    Some(("bob".to_string(), "secret".to_string()))
}

fn immediate(f: Frame) -> Vec<u8> {
    match plan(4, f) {
        Plan::Immediate(p) => p.to_vec(),
        other => panic!("{other:?}"),
    }
}

#[test]
fn credentials_are_split() {
    assert_eq!(parse_credentials(&[0, 3, b'b', b'o', b'b', b'p', b'w']), (&b"bob"[..], &b"pw"[..]));
    assert_eq!(parse_credentials(&[0, 0]), (&b""[..], &b""[..]));
    assert_eq!(parse_credentials(&[0, 0, b'p']), (&b""[..], &b"p"[..]));
}

#[test]
fn short_credentials_are_empty() {
    assert_eq!(parse_credentials(&[]), (&b""[..], &b""[..]));
    assert_eq!(parse_credentials(&[0]), (&b""[..], &b""[..]));
    assert_eq!(parse_credentials(&[0, 4, b'b', b'o', b'b']), (&b""[..], &b""[..]));
}

#[test]
fn credentials_must_match() {
    assert!(check_credentials(&None, b"anything"));
    assert!(check_credentials(&auth(), b"\x00\x03bobsecret"));
    assert!(!check_credentials(&auth(), b"\x00\x03bobSecret"));
    assert!(!check_credentials(&auth(), b"\x00\x03rob secret"));
    assert!(!check_credentials(&auth(), b"\x00\x04bobsecret"));
    assert!(!check_credentials(&auth(), b""));
    let odd = Some(("b\u{f6}b".to_string(), "\u{20ac}".to_string()));
    assert!(check_credentials(&odd, "\u{0}\u{4}b\u{f6}b\u{20ac}".as_bytes()));
}

#[test]
fn handshake_with_credentials_is_answered() {
    let f = frame(FrameKind::HandShake, 5, b"\x00\x03bobsecret");
    match open(&auth(), Some(f)) {
        Opening::Accepted(Some(reply)) => {
            assert_eq!(reply.header, FrameKind::Response);
            assert_eq!(reply.req_id, 5);
            assert_eq!(&reply.payload[..], b"OK");
        }
        other => panic!("{other:?}"),
    }
    match open(&None, Some(frame(FrameKind::HandShake, 0, &[0, 0]))) {
        Opening::Accepted(Some(reply)) => assert_eq!(&reply.payload[..], b"OK"),
        other => panic!("{other:?}"),
    }
}

#[test]
fn bare_handshake_gets_no_reply() {
    match open(&None, Some(frame(FrameKind::HandShake, 0, b""))) {
        Opening::Accepted(None) => {}
        other => panic!("{other:?}"),
    }
}

#[test]
fn wrong_credentials_are_refused() {
    for payload in [&b""[..], b"\x00\x03bobwrong", b"\x00\x00"] {
        match open(&auth(), Some(frame(FrameKind::HandShake, 0, payload))) {
            Opening::Refused(reply) => {
                assert_eq!(reply.header, FrameKind::Response);
                assert_eq!(&reply.payload[..], b"ERR auth failed");
            }
            other => panic!("{other:?}"),
        }
    }
}

#[test]
fn handshake_comes_first() {
    for kind in [FrameKind::Request, FrameKind::Response, FrameKind::Heartbeat] {
        match open(&None, Some(frame(kind, 77, b"x"))) {
            Opening::Refused(reply) => {
                assert_eq!(reply.req_id, 77);
                assert_eq!(
                    &reply.payload[..],
                    b"ERR complete handshake before sending commands"
                );
            }
            other => panic!("{other:?}"),
        }
    }
}

#[test]
fn connection_lost_before_the_handshake() {
    assert!(matches!(open(&None, None), Opening::Ended));
    assert!(matches!(
        open_connection(&None, Some(Err(DecodeError::BadHeader(9)))),
        Opening::Broken(DecodeError::BadHeader(9))
    ));
}

#[test]
fn fixed_answers() {
    assert_eq!(immediate(frame(FrameKind::Heartbeat, 1, b"")), b"1");
    assert_eq!(
        immediate(frame(FrameKind::HandShake, 1, b"")),
        b"Handshake process already completed"
    );
    assert_eq!(immediate(frame(FrameKind::Response, 1, b"")), b"ERR Invalid command");
}

#[test]
fn errors_are_marked() {
    assert_eq!(immediate(frame(FrameKind::Request, 1, b"")), b"ERR empty request payload");
    assert_eq!(immediate(frame(FrameKind::Request, 1, &[200])), b"ERR unknown op 200");
    assert_eq!(immediate(frame(FrameKind::Request, 1, &[1, 0])), b"ERR truncated field length");
}

#[test]
fn commands_go_to_their_owner() {
    match plan(8, frame(FrameKind::Request, 1, &[2, 0, 1, b'k', b'v'])) {
        Plan::Op { shard, op: WorkerOp::Put { key, value } } => {
            assert_eq!(shard, route_hash(b"k", 8).shard_id);
            assert_eq!(&key[..], b"k");
            assert_eq!(&value[..], b"v");
        }
        other => panic!("{other:?}"),
    }
    let key = Bytes::from_static(b"other");
    let owner = route_hash(b"other", 8).shard_id;
    match plan_op(8, ClientCommand::Get { key: key.clone() }) {
        Plan::Op { shard, op: WorkerOp::Get { key: k } } => {
            assert_eq!((shard, k), (owner, key.clone()))
        }
        other => panic!("{other:?}"),
    }
    match plan_op(8, ClientCommand::Del { key: key.clone() }) {
        Plan::Op { shard, op: WorkerOp::Del { key: k } } => {
            assert_eq!((shard, k), (owner, key.clone()))
        }
        other => panic!("{other:?}"),
    }
    let set = ClientCommand::SetEx { key: key.clone(), value: Bytes::new(), ttl_ms: 9 };
    match plan_op(8, set) {
        Plan::Op { shard, op: WorkerOp::SetEx { key: k, value, ttl_ms } } => {
            assert_eq!((shard, k, ttl_ms), (owner, key, 9));
            assert!(value.is_empty());
        }
        other => panic!("{other:?}"),
    }
}

#[test]
fn a_pass_deals_with_every_frame_once() {
    let n = 4;
    let mut chunk: Vec<Result<Frame, DecodeError>> = Vec::new();
    let mut owners: Vec<Vec<u32>> = vec![Vec::new(); n];
    for i in 0..50u32 {
        if i % 10 == 3 {
            chunk.push(Ok(frame(FrameKind::Heartbeat, i, b"")));
        } else {
            let key = format!("k{i}");
            owners[route_hash(key.as_bytes(), n).shard_id].push(i);
            chunk.push(Ok(get(i, key.as_bytes())));
        }
    }
    let pass = plan_chunk(n, chunk);
    assert!(pass.failure.is_none());
    let ids: Vec<u32> = pass.immediates.iter().map(|r| r.0).collect();
    assert_eq!(ids, vec![3, 13, 23, 33, 43]);
    assert!(pass.immediates.iter().all(|r| &r.1[..] == b"1"));
    let mut seen = 0;
    let mut last = None;
    for (shard, cmd) in &pass.batches {
        assert!(last < Some(*shard));
        last = Some(*shard);
        let WorkerCommand::Batch { ops } = cmd;
        let ids: Vec<u32> = ops.iter().map(|o| o.0).collect();
        assert_eq!(ids, owners[*shard]);
        assert!(!ids.is_empty());
        seen += ids.len();
    }
    assert_eq!(seen + pass.immediates.len(), 50);
    assert_eq!(MAX_BATCH, 1024);
}

#[test]
fn an_error_ends_the_pass() {
    let chunk = vec![
        Ok(frame(FrameKind::Heartbeat, 1, b"")),
        Ok(get(2, b"k")),
        Err(DecodeError::BadHeader(0)),
        Ok(frame(FrameKind::Heartbeat, 3, b"")),
    ];
    let pass = plan_chunk(2, chunk);
    assert_eq!(pass.failure, Some(DecodeError::BadHeader(0)));
    assert_eq!(pass.immediates.len(), 1);
    assert_eq!(pass.immediates[0].0, 1);
    assert!(pass.batches.is_empty());
}

#[test]
fn empty_pass() {
    let pass = plan_chunk::<DecodeError>(1, Vec::new());
    assert!(pass.failure.is_none() && pass.immediates.is_empty() && pass.batches.is_empty());
}

#[test]
fn passes_concatenate() {
    let ids = |frames: Vec<Frame>| -> Vec<u32> {
        plan_chunk::<DecodeError>(1, frames.into_iter().map(Ok).collect())
            .batches
            .iter()
            .flat_map(|(_, WorkerCommand::Batch { ops })| ops.iter().map(|o| o.0))
            .collect()
    };
    let mut two = ids(vec![get(1, b"a"), get(2, b"b")]);
    two.extend(ids(vec![get(3, b"a")]));
    assert_eq!(two, ids(vec![get(1, b"a"), get(2, b"b"), get(3, b"a")]));
}

#[test]
fn responses_carry_the_id() {
    let f = response(9, Bytes::from_static(b"v"));
    assert_eq!((f.header, f.req_id, &f.payload[..]), (FrameKind::Response, 9, &b"v"[..]));
}

#[test]
fn no_workers_are_needed_without_work() {
    for (f, want) in [
        (frame(FrameKind::Heartbeat, 5, &[1, 0, 1, 107]), &b"1"[..]),
        (frame(FrameKind::Request, 1, &[9]), &b"ERR unknown op 9"[..]),
        (frame(FrameKind::Response, 1, b""), &b"ERR Invalid command"[..]),
    ] {
        assert!(!needs_shard(&f));
        match plan(0, f) {
            Plan::Immediate(p) => assert_eq!(&p[..], want),
            other => panic!("{other:?}"),
        }
    }
    assert!(needs_shard(&get(1, b"k")));
    let chunk = vec![
        Ok(frame(FrameKind::Heartbeat, 5, b"")),
        Err(DecodeError::BadHeader(7)),
        Ok(get(1, b"k")),
    ];
    let pass = plan_chunk(0, chunk);
    assert_eq!(pass.immediates.len(), 1);
    assert!(pass.batches.is_empty());
    assert_eq!(pass.failure, Some(DecodeError::BadHeader(7)));
}

#[test]
fn each_id_comes_out_as_often_as_it_came_in() {
    let ids = [7u32, 7, 8, 7, 9];
    let mut chunk: Vec<Result<Frame, DecodeError>> = Vec::new();
    for (i, id) in ids.iter().enumerate() {
        chunk.push(Ok(match i {
            1 => frame(FrameKind::Heartbeat, *id, b""),
            _ => get(*id, format!("k{i}").as_bytes()),
        }));
    }
    let pass = plan_chunk(4, chunk);
    let mut out: Vec<u32> = pass.immediates.iter().map(|r| r.0).collect();
    for (_, WorkerCommand::Batch { ops }) in &pass.batches {
        out.extend(ops.iter().map(|o| o.0));
    }
    out.sort();
    assert_eq!(out, vec![7, 7, 7, 8, 9]);
}
