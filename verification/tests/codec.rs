use bytes::{Bytes, BytesMut};
use dataset_local::common::{DecodeError, EncodeError, Frame, FrameKind, SimpleCodec, MAX_FRAME_SIZE};

fn frame(header: FrameKind, req_id: u32, payload: &'static [u8]) -> Frame {
    Frame { header, req_id, payload: Bytes::from_static(payload) }
}

#[test]
fn frame_round_trip() {
    let mut buf = BytesMut::new();
    let mut codec = SimpleCodec;
    codec.encode(frame(FrameKind::Request, 7, b"abc"), &mut buf).unwrap();
    assert_eq!(&buf[..], &[3, 0, 0, 0, 7, 0, 3, b'a', b'b', b'c']);
    let got = codec.decode(&mut buf).unwrap().unwrap();
    assert_eq!(got.header, FrameKind::Request);
    assert_eq!(got.req_id, 7);
    assert_eq!(&got.payload[..], b"abc");
    assert!(buf.is_empty());
}

#[test]
fn encode_appends_every_kind() {
    let mut buf = BytesMut::new();
    let mut codec = SimpleCodec;
    codec.encode(frame(FrameKind::HandShake, 0, b""), &mut buf).unwrap();
    codec.encode(frame(FrameKind::Heartbeat, 0x01020304, b""), &mut buf).unwrap();
    codec.encode(frame(FrameKind::Response, 1, b"z"), &mut buf).unwrap();
    assert_eq!(
        &buf[..],
        &[1, 0, 0, 0, 0, 0, 0, 5, 1, 2, 3, 4, 0, 0, 4, 0, 0, 0, 1, 0, 1, b'z']
    );
    let kinds: Vec<FrameKind> =
        (0..3).map(|_| codec.decode(&mut buf).unwrap().unwrap().header).collect();
    assert_eq!(kinds, vec![FrameKind::HandShake, FrameKind::Heartbeat, FrameKind::Response]);
    assert!(codec.decode(&mut buf).unwrap().is_none());
}

#[test]
fn partial_frame_waits_and_is_kept() {
    let whole: [u8; 9] = [3, 0, 0, 0, 9, 0, 2, b'h', b'i'];
    let mut codec = SimpleCodec;
    let mut buf = BytesMut::new();
    for b in &whole[..8] {
        buf.extend_from_slice(&[*b]);
        let before = buf.clone();
        assert!(codec.decode(&mut buf).unwrap().is_none());
        assert_eq!(buf, before);
    }
    buf.extend_from_slice(&whole[8..]);
    buf.extend_from_slice(&[5]);
    let got = codec.decode(&mut buf).unwrap().unwrap();
    assert_eq!(got.req_id, 9);
    assert_eq!(&got.payload[..], b"hi");
    assert_eq!(&buf[..], &[5]);
}

#[test]
fn bad_header_is_an_error() {
    for code in [0u8, 2, 6, 255] {
        let mut buf = BytesMut::new();
        buf.extend_from_slice(&[code, 0, 0, 0, 0, 0, 0]);
        let e = SimpleCodec.decode(&mut buf).unwrap_err();
        assert_eq!(e, DecodeError::BadHeader(code));
        assert_eq!(e.message(), format!("bad header {code}").into_bytes());
    }
}

#[test]
fn frame_too_large_message() {
    assert_eq!(DecodeError::FrameTooLarge.message(), b"frame too large".to_vec());
    assert_eq!(MAX_FRAME_SIZE, 65536);
}

#[test]
fn largest_payload_round_trips() {
    let payload = Bytes::from(vec![7u8; 65535]);
    let mut buf = BytesMut::new();
    let mut codec = SimpleCodec;
    codec
        .encode(
            Frame { header: FrameKind::Response, req_id: u32::MAX, payload: payload.clone() },
            &mut buf,
        )
        .unwrap();
    assert_eq!(buf.len(), 65542);
    let got = codec.decode(&mut buf).unwrap().unwrap();
    assert_eq!(got.req_id, u32::MAX);
    assert_eq!(got.payload, payload);
}

#[test]
fn longer_payload_is_refused() {
    for len in [65536usize, 65537, 200000] {
        let mut buf = BytesMut::from(&b"before"[..]);
        let payload = Bytes::from(vec![1u8; len]);
        let r = SimpleCodec
            .encode(Frame { header: FrameKind::Response, req_id: 0, payload }, &mut buf);
        assert_eq!(r, Err(EncodeError::PayloadTooLong));
        assert_eq!(&buf[..], b"before");
    }
}

#[test]
fn encode_error_texts() {
    assert_eq!(EncodeError::KeyTooLong.message(), b"key too long".to_vec());
    assert_eq!(EncodeError::UserTooLong.message(), b"user name too long".to_vec());
    assert_eq!(EncodeError::PayloadTooLong.message(), b"payload too long".to_vec());
}

#[test]
fn kinds_and_codes() {
    for (code, kind) in [
        (1u8, FrameKind::HandShake),
        (3, FrameKind::Request),
        (4, FrameKind::Response),
        (5, FrameKind::Heartbeat),
    ] {
        assert_eq!(kind.code(), code);
        assert_eq!(FrameKind::from_code(code), Some(kind));
    }
    assert_eq!(FrameKind::from_code(2), None);
}
