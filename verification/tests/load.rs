use bytes::{Bytes, BytesMut};
use dataset_local::bench::{
    encode_request, next_batch, parse_args, split_evenly, xorshift, ArgsEnd, Load, Mix,
};
use dataset_local::common::{EncodeError, FrameKind, SimpleCodec};
use dataset_local::utils::ClientCommand;

fn args(list: &[&str]) -> Vec<String> {
    list.iter().map(|s| s.to_string()).collect()
}

#[test]
fn xorshift_steps() {
    let mut s = 1u64;
    assert_eq!(xorshift(&mut s), 1082269761);
    assert_eq!(s, 1082269761);
    assert_eq!(xorshift(&mut s), 1152992998833853505);
    let mut zero = 0u64;
    assert_eq!(xorshift(&mut zero), 0);
}

#[test]
fn request_frame_is_appended() {
    let mut buf = vec![9];
    assert_eq!(encode_request(&mut buf, 258, 2, b"k", b"vw"), Ok(()));
    assert_eq!(buf, b"\x09\x03\x00\x00\x01\x02\x00\x06\x02\x00\x01kvw".to_vec());
}

#[test]
fn defaults() {
    let (cfg, end) = parse_args(&args(&[]));
    assert!(matches!(end, ArgsEnd::Complete));
    assert_eq!(cfg.addr, "127.0.0.1:8383");
    assert_eq!(
        (cfg.connections, cfg.requests, cfg.value_size, cfg.keyspace, cfg.pipeline),
        (64, 100_000, 64, 100_000, 1)
    );
    assert!(cfg.read_ratios.is_empty());
}

#[test]
fn every_flag() {
    let (cfg, end) = parse_args(&args(&[
        "--addr", "h:1", "--connections", "3", "--requests", "+10", "--value-size", "0",
        "--keyspace", "18446744073709551615", "--read-ratio", "0.5", "--pipeline", "0",
        "--read-ratio", "1",
    ]));
    assert!(matches!(end, ArgsEnd::Complete));
    assert_eq!(cfg.addr, "h:1");
    assert_eq!(
        (cfg.connections, cfg.requests, cfg.value_size, cfg.keyspace, cfg.pipeline),
        (3, 10, 0, u64::MAX, 1)
    );
    assert_eq!(cfg.read_ratios, vec!["0.5", "1"]);
    let (cfg, _) = parse_args(&args(&["-c", "5", "-n", "6", "-p", "7"]));
    assert_eq!((cfg.connections, cfg.requests, cfg.pipeline), (5, 6, 7));
}

#[test]
fn bad_arguments() {
    assert!(matches!(parse_args(&args(&["-c"])).1, ArgsEnd::MissingValue));
    assert!(matches!(parse_args(&args(&["-c", "x"])).1, ArgsEnd::BadNumber));
    assert!(matches!(parse_args(&args(&["-n", "-1"])).1, ArgsEnd::BadNumber));
    assert!(matches!(
        parse_args(&args(&["--keyspace", "18446744073709551616"])).1,
        ArgsEnd::BadNumber
    ));
    assert!(matches!(parse_args(&args(&["--nope", "1"])).1, ArgsEnd::UnknownFlag(f) if f == "--nope"));
    assert!(matches!(parse_args(&args(&["-c", "2", "--help", "--nope"])).1, ArgsEnd::Help));
    assert!(matches!(parse_args(&args(&["-h"])).1, ArgsEnd::Help));
    let (cfg, end) = parse_args(&args(&["-c", "2", "-n", "", "-p", "9"]));
    assert!(matches!(end, ArgsEnd::BadNumber));
    assert_eq!((cfg.connections, cfg.pipeline), (2, 1));
}

#[test]
fn requests_are_split() {
    assert_eq!(split_evenly(100_000, 64), (1562, 99_968));
    assert_eq!(split_evenly(3, 5), (0, 0));
    assert_eq!(split_evenly(10, 5), (2, 10));
}

#[test]
fn batches_cover_the_operations() {
    let mut sent = 0;
    let mut sizes = Vec::new();
    while sent < 10 {
        let n = next_batch(4, 10, sent);
        sizes.push(n);
        sent += n;
    }
    assert_eq!(sizes, vec![4, 4, 2]);
    assert_eq!(next_batch(0, 10, 3), 1);
    assert_eq!(next_batch(4, 10, 10), 0);
}

#[test]
fn seeds() {
    assert_eq!(Load::new(0).rng, 0x9E3779B97F4A7C15);
    assert_eq!(Load::new(1).rng, 0x9E3779B97F4A7C15 ^ 0xD1B54A32D192ED03);
    let mut all: Vec<u64> = (0..1000).map(|i| Load::new(i).rng).collect();
    all.sort();
    all.dedup();
    assert_eq!(all.len(), 1000);
}

#[test]
fn stream_of_requests() {
    let mix = Mix { keyspace: 10, read_threshold: u64::MAX / 2, value: vec![b'x'; 3] };
    let mut load = Load::new(1);
    let mut rng = load.rng;
    let mut buf = b"old".to_vec();
    load.fill(&mix, 20, &mut buf).unwrap();
    assert_eq!(load.req_id, 20);
    let mut wire = BytesMut::from(&buf[..]);
    let mut kinds = [0, 0];
    for id in 1..=20u32 {
        let f = SimpleCodec.decode(&mut wire).unwrap().unwrap();
        assert_eq!((f.header, f.req_id), (FrameKind::Request, id));
        let want = Bytes::copy_from_slice(&(xorshift(&mut rng) % 10).to_be_bytes());
        let read = xorshift(&mut rng) < u64::MAX / 2;
        match ClientCommand::parse(&f.payload).unwrap() {
            ClientCommand::Get { key } => {
                assert!(read);
                assert_eq!(key, want);
                kinds[0] += 1;
            }
            ClientCommand::Put { key, value } => {
                assert!(!read);
                assert_eq!(key, want);
                assert_eq!(&value[..], b"xxx");
                kinds[1] += 1;
            }
            other => panic!("{other:?}"),
        }
    }
    assert!(wire.is_empty());
    assert!(kinds[0] > 0 && kinds[1] > 0);
    assert_eq!(load.rng, rng);
}

#[test]
fn depth_does_not_change_the_stream() {
    let mix = Mix { keyspace: 1000, read_threshold: 1 << 63, value: vec![1] };
    let (mut a, mut b) = (Load::new(7), Load::new(7));
    let (mut one, mut part, mut all) = (Vec::new(), Vec::new(), Vec::new());
    a.fill(&mix, 12, &mut one).unwrap();
    for n in [5, 0, 7] {
        b.fill(&mix, n, &mut part).unwrap();
        all.extend_from_slice(&part);
    }
    assert_eq!(one, all);
    assert_eq!(a, b);
}

#[test]
fn long_requests_are_refused() {
    let mut buf = vec![9];
    assert_eq!(
        encode_request(&mut buf, 1, 2, b"k", &vec![0; 65532]),
        Err(EncodeError::PayloadTooLong)
    );
    assert_eq!(
        encode_request(&mut buf, 1, 1, &vec![0; 65536], b""),
        Err(EncodeError::KeyTooLong)
    );
    assert_eq!(buf, vec![9]);
    assert_eq!(encode_request(&mut buf, 1, 2, b"k", &vec![0; 65531]), Ok(()));
    assert_eq!(buf.len(), 1 + 7 + 65535);
}

#[test]
fn stream_stops_at_a_value_that_does_not_fit() {
    let longest = Mix { keyspace: 10, read_threshold: 0, value: vec![0; 65524] };
    let longer = Mix { keyspace: 10, read_threshold: 0, value: vec![0; 65525] };
    let reads = Mix { keyspace: 10, read_threshold: u64::MAX, value: vec![0; 65525] };
    let mut load = Load::new(3);
    let mut buf = Vec::new();
    assert_eq!(load.fill(&longest, 2, &mut buf), Ok(()));
    assert_eq!(buf.len(), 2 * (7 + 65535));
    let before = load;
    assert_eq!(load.fill(&longer, 2, &mut buf), Err(EncodeError::PayloadTooLong));
    assert!(buf.is_empty());
    assert_eq!(load, before);
    assert_eq!(load.fill(&reads, 2, &mut buf), Ok(()));
    assert_eq!(buf.len(), 2 * 18);
}
