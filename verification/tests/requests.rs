use bytes::Bytes;
use dataset_local::utils::{
    read_field, resp_nil, resp_ok, resp_one, resp_worker_gone, resp_zero, ClientCommand, ParseError,
};

fn parse(raw: &[u8]) -> Result<ClientCommand, ParseError> {
    ClientCommand::parse(&Bytes::copy_from_slice(raw))
}

#[test]
fn get_ignores_what_follows_the_key() {
    for raw in [&[1, 0, 2, b'k', b'1'][..], &[1, 0, 2, b'k', b'1', 9, 9][..]] {
        match parse(raw) {
            Ok(ClientCommand::Get { key }) => assert_eq!(&key[..], b"k1"),
            other => panic!("{other:?}"),
        }
    }
}

#[test]
fn del_ignores_what_follows_the_key() {
    match parse(&[3, 0, 1, b'k', 1, 2, 3]) {
        Ok(ClientCommand::Del { key }) => assert_eq!(&key[..], b"k"),
        other => panic!("{other:?}"),
    }
}

#[test]
fn set_takes_the_rest_as_value() {
    match parse(&[2, 0, 1, b'k', b'v', b'w']) {
        Ok(ClientCommand::Put { key, value }) => {
            assert_eq!(&key[..], b"k");
            assert_eq!(&value[..], b"vw");
        }
        other => panic!("{other:?}"),
    }
    match parse(&[2, 0, 0]) {
        Ok(ClientCommand::Put { key, value }) => assert!(key.is_empty() && value.is_empty()),
        other => panic!("{other:?}"),
    }
}

#[test]
fn setex_has_a_ttl_before_the_value() {
    match parse(&[4, 0, 1, b'k', 0, 0, 1, 2, b'v']) {
        Ok(ClientCommand::SetEx { key, value, ttl_ms }) => {
            assert_eq!(&key[..], b"k");
            assert_eq!(&value[..], b"v");
            assert_eq!(ttl_ms, 258);
        }
        other => panic!("{other:?}"),
    }
}

#[test]
fn malformed_requests() {
    assert_eq!(parse(&[]).unwrap_err(), ParseError::EmptyPayload);
    assert_eq!(parse(&[9, 0, 0]).unwrap_err(), ParseError::UnknownOp(9));
    assert_eq!(parse(&[0]).unwrap_err(), ParseError::UnknownOp(0));
    assert_eq!(parse(&[1]).unwrap_err(), ParseError::TruncatedFieldLength);
    assert_eq!(parse(&[2, 0]).unwrap_err(), ParseError::TruncatedFieldLength);
    assert_eq!(parse(&[3, 0, 2, b'k']).unwrap_err(), ParseError::TruncatedFieldBody);
    assert_eq!(parse(&[4, 0, 1, b'k', 0, 0, 1]).unwrap_err(), ParseError::TruncatedTtl);
}

#[test]
fn error_texts() {
    for (e, text) in [
        (ParseError::EmptyPayload, "empty request payload"),
        (ParseError::TruncatedFieldLength, "truncated field length"),
        (ParseError::TruncatedFieldBody, "truncated field body"),
        (ParseError::TruncatedTtl, "truncated ttl"),
        (ParseError::UnknownOp(0), "unknown op 0"),
        (ParseError::UnknownOp(255), "unknown op 255"),
    ] {
        let mut out = b"> ".to_vec();
        e.push_message(&mut out);
        assert_eq!(out, format!("> {text}").into_bytes());
    }
}

#[test]
fn fields() {
    let (f, rest) = read_field(&[0, 2, 7, 8, 9]).unwrap();
    assert_eq!(&f[..], &[7, 8]);
    assert_eq!(rest, &[9]);
}

#[test]
fn ready_made_replies() {
    assert_eq!(&resp_ok()[..], b"OK");
    assert_eq!(&resp_nil()[..], b"(nil)");
    assert_eq!(&resp_one()[..], b"1");
    assert_eq!(&resp_zero()[..], b"0");
    assert_eq!(&resp_worker_gone()[..], b"ERR worker dropped response");
}
