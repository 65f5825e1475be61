use bytes::{Bytes, BytesMut};
use dataset_local::client::{
    closed_reply, del_result, encode, encode_setex, get_result, handshake_accepted,
    handshake_frame, parse_head, refused_reply, request_frame, set_result, Slots,
};
use dataset_local::common::{DecodeError, EncodeError, Frame, FrameKind, SimpleCodec};
use dataset_local::server::{open_connection, parse_credentials, Opening};
use dataset_local::utils::ClientCommand;

fn parse(p: Result<Vec<u8>, EncodeError>) -> ClientCommand {
    ClientCommand::parse(&Bytes::from(p.unwrap())).unwrap()
}

#[test]
fn payload_layout() {
    assert_eq!(encode(2, b"key", b"v"), Ok(b"\x02\x00\x03keyv".to_vec()));
    assert_eq!(encode(1, b"", b""), Ok(vec![1, 0, 0]));
    assert_eq!(
        encode_setex(b"k", b"v", 258),
        Ok(b"\x04\x00\x01k\x00\x00\x01\x02v".to_vec())
    );
}

#[test]
fn requests_round_trip() {
    assert!(matches!(parse(encode(1, b"k", b"")), ClientCommand::Get { key } if &key[..] == b"k"));
    assert!(matches!(parse(encode(3, b"k", b"")), ClientCommand::Del { key } if &key[..] == b"k"));
    assert!(matches!(
        parse(encode(2, b"k", b"(nil)")),
        ClientCommand::Put { key, value } if &key[..] == b"k" && &value[..] == b"(nil)"
    ));
    assert!(matches!(
        parse(encode_setex(b"k", b"", u32::MAX)),
        ClientCommand::SetEx { key, value, ttl_ms: u32::MAX } if &key[..] == b"k" && value.is_empty()
    ));
}

#[test]
fn long_keys_are_refused() {
    let longest = vec![b'x'; 65535];
    let longer = vec![b'x'; 65536];
    assert_eq!(&encode(1, &longest, b"").unwrap()[..3], &[1, 255, 255]);
    assert_eq!(encode(1, &longer, b""), Err(EncodeError::KeyTooLong));
    assert_eq!(encode_setex(&longest, b"", 1).unwrap().len(), 3 + 65535 + 4);
    assert_eq!(encode_setex(&longer, b"", 1), Err(EncodeError::KeyTooLong));
    assert_eq!(&refused_reply(EncodeError::KeyTooLong)[..], b"ERR key too long");
}

#[test]
fn long_payloads_are_refused() {
    assert_eq!(request_frame(1, &vec![0; 65535]).unwrap().len(), 65542);
    assert_eq!(request_frame(1, &vec![0; 65536]), Err(EncodeError::PayloadTooLong));
    assert_eq!(&refused_reply(EncodeError::PayloadTooLong)[..], b"ERR payload too long");
}

#[test]
fn handshake_layout() {
    assert_eq!(handshake_frame("", ""), Ok(vec![1, 0, 0, 0, 0, 0, 2, 0, 0]));
    let frame = handshake_frame("bob", "pw").unwrap();
    assert_eq!(frame, b"\x01\x00\x00\x00\x00\x00\x07\x00\x03bobpw".to_vec());
    assert_eq!(parse_credentials(&frame[7..]), (&b"bob"[..], &b"pw"[..]));
}

#[test]
fn long_credentials_are_refused() {
    let user = "u".repeat(65000);
    assert!(handshake_frame(&user, &"p".repeat(533)).is_ok());
    assert_eq!(handshake_frame(&user, &"p".repeat(534)), Err(EncodeError::PayloadTooLong));
    assert_eq!(handshake_frame(&"u".repeat(65536), ""), Err(EncodeError::UserTooLong));
}

#[test]
fn handshake_is_accepted_by_the_server() {
    let auth = Some(("bob".to_string(), "pw".to_string()));
    for (password, want) in [("pw", &b"OK"[..]), ("no", &b"ERR auth failed"[..])] {
        let mut buf = BytesMut::from(&handshake_frame("bob", password).unwrap()[..]);
        let f = SimpleCodec.decode(&mut buf).unwrap().unwrap();
        let first: Option<Result<Frame, DecodeError>> = Some(Ok(f));
        let reply = match open_connection(&auth, first) {
            Opening::Accepted(Some(reply)) => reply,
            Opening::Refused(reply) => reply,
            other => panic!("{other:?}"),
        };
        assert_eq!(&reply.payload[..], want);
        assert_eq!(handshake_accepted(&reply.payload), password == "pw");
    }
}

#[test]
fn request_frames_are_decoded() {
    let raw = request_frame(258, b"abc").unwrap();
    assert_eq!(raw, b"\x03\x00\x00\x01\x02\x00\x03abc".to_vec());
    let f = SimpleCodec.decode(&mut BytesMut::from(&raw[..])).unwrap().unwrap();
    assert_eq!((f.header, f.req_id, &f.payload[..]), (FrameKind::Request, 258, &b"abc"[..]));
}

#[test]
fn response_heads_are_understood() {
    let mut buf = BytesMut::new();
    let payload = Bytes::from(vec![0u8; 300]);
    SimpleCodec
        .encode(Frame { header: FrameKind::Response, req_id: 70000, payload }, &mut buf)
        .unwrap();
    assert_eq!(parse_head(&buf[..7]), (70000, 300));
    assert_eq!(parse_head(&[4, 255, 255, 255, 255, 255, 255]), (u32::MAX, 65535));
}

#[test]
fn replies_are_interpreted() {
    assert_eq!(get_result(Bytes::from_static(b"(nil)")), None);
    assert_eq!(get_result(Bytes::from_static(b"")), Some(Bytes::new()));
    assert_eq!(get_result(Bytes::from_static(b"v")), Some(Bytes::from_static(b"v")));
    assert!(set_result(&Bytes::from_static(b"OK")));
    assert!(!set_result(&Bytes::from_static(b"OK ")));
    assert!(del_result(&Bytes::from_static(b"1")));
    assert!(!del_result(&Bytes::from_static(b"0")));
    assert!(!handshake_accepted(b"ERR auth failed"));
    assert_eq!(&closed_reply()[..], b"ERR connection closed");
}

#[test]
fn slots_are_handed_out_once() {
    let mut slots: Slots<&str> = Slots::new(3);
    assert_eq!(slots.capacity(), 3);
    assert_eq!(slots.begin("a"), Some(2));
    assert_eq!(slots.begin("b"), Some(1));
    assert_eq!(slots.begin("c"), Some(0));
    assert_eq!(slots.begin("d"), None);
    assert_eq!(slots.complete(1), Some("b"));
    assert_eq!(slots.begin("d"), Some(1));
    assert_eq!(slots.begin("e"), None);
}

#[test]
fn replies_match_in_any_order() {
    let mut slots: Slots<u32> = Slots::new(256);
    let ids: Vec<u32> = (0..256).map(|i| slots.begin(i).unwrap()).collect();
    for (i, id) in ids.iter().enumerate().rev().step_by(2) {
        assert_eq!(slots.complete(*id), Some(i as u32));
    }
    for (i, id) in ids.iter().enumerate().step_by(2) {
        assert_eq!(slots.complete(*id), Some(i as u32));
    }
}

#[test]
fn unexpected_reply_frees_nothing() {
    let mut slots: Slots<u8> = Slots::new(1);
    assert_eq!(slots.complete(0), None);
    assert_eq!(slots.begin(1), Some(0));
    assert_eq!(slots.begin(2), None);
    assert_eq!(slots.complete(0), Some(1));
    assert_eq!(slots.complete(0), None);
    assert_eq!(slots.begin(3), Some(0));
    assert_eq!(slots.begin(4), None);
}

#[test]
fn complete_undoes_begin() {
    let mut slots: Slots<u8> = Slots::new(2);
    for _ in 0..5 {
        assert_eq!(slots.begin(9), Some(1));
        assert_eq!(slots.complete(1), Some(9));
    }
}

#[test]
fn close_gives_up_on_all() {
    let mut slots: Slots<u8> = Slots::new(3);
    slots.begin(10);
    slots.begin(11);
    assert_eq!(slots.close(), vec![11, 10]);
    assert_eq!(slots.complete(2), None);
    assert_eq!(slots.begin(1), Some(2));
    assert_eq!(slots.begin(2), Some(1));
    assert_eq!(slots.begin(3), Some(0));
    assert_eq!(slots.begin(4), None);
}

#[test]
fn no_slots() {
    let mut slots: Slots<u8> = Slots::new(0);
    assert_eq!(slots.begin(1), None);
    assert!(slots.close().is_empty());
}
