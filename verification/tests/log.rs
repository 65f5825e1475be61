use bytes::Bytes;
use dataset_local::shards::disk::{
    read_bytes, read_record, read_u16, read_u32, read_u64, replay_backup, whole_prefix, Disk,
    IndexRecord, LogError, COOL_SET_HEADER,
};

fn describe(r: &IndexRecord) -> String {
    match r {
        IndexRecord::Put { key, val_off, vlen, exp_ms } => {
            format!("put {} {val_off} {vlen} {exp_ms}", String::from_utf8_lossy(key))
        }
        IndexRecord::Del { key } => format!("del {}", String::from_utf8_lossy(key)),
    }
}

fn journal() -> (Vec<u8>, Vec<u8>) {
    let (mut d, _) = Disk::open(0, &[]);
    d.append_set(b"a", b"first", 0).unwrap();
    d.append_set(b"bb", b"", 99).unwrap();
    d.append_del(b"a").unwrap();
    d.append_set(b"a", b"last", 7).unwrap();
    d.flush()
}

#[test]
fn record_layout() {
    let (mut d, records) = Disk::open(100, &[]);
    assert!(records.is_empty());
    assert_eq!(d.append_set(b"key", b"value", 0x0102), Ok(100 + 15 + 3));
    assert_eq!(d.cool_len(), 100 + 15 + 3 + 5);
    assert_eq!(d.append_del(b"k"), Ok(()));
    assert_eq!(d.cool_len(), 123 + 4);
    let (cool, backup) = d.flush();
    assert_eq!(
        cool,
        b"\x01\x00\x03\x00\x00\x00\x00\x00\x00\x01\x02\x00\x00\x00\x05keyvalue\x02\x00\x01k".to_vec()
    );
    assert_eq!(
        backup,
        b"\x01\x00\x03\x00\x00\x00\x00\x00\x00\x00\x76\x00\x00\x00\x05\x00\x00\x00\x00\x00\x00\x01\x02key\x02\x00\x01k"
            .to_vec()
    );
    assert_eq!(COOL_SET_HEADER, 15);
}

#[test]
fn value_lies_where_the_offset_says() {
    let (mut d, _) = Disk::open(0, &[]);
    let first = d.append_set(b"a", b"one", 0).unwrap() as usize;
    let second = d.append_set(b"b", b"two!", 0).unwrap() as usize;
    let cool = d.flush_cool();
    assert_eq!(&cool[first..first + 3], b"one");
    assert_eq!(&cool[second..second + 4], b"two!");
    assert!(d.flush_cool().is_empty());
    let (cool, backup) = d.flush();
    assert!(cool.is_empty());
    assert!(!backup.is_empty());
}

#[test]
fn replay_gives_the_records_in_order() {
    let (_, backup) = journal();
    let got: Vec<String> = replay_backup(&backup).iter().map(describe).collect();
    assert_eq!(got, vec!["put a 16 5 0", "put bb 38 0 99", "del a", "put a 58 4 7"]);
    let (_, records) = Disk::open(0, &backup);
    assert_eq!(records.iter().map(describe).collect::<Vec<_>>(), got);
}

#[test]
fn torn_tail_loses_only_itself() {
    let (_, backup) = journal();
    let whole: Vec<String> = replay_backup(&backup).iter().map(describe).collect();
    for cut in 1..24 {
        let got: Vec<String> =
            replay_backup(&backup[..backup.len() - cut]).iter().map(describe).collect();
        assert_eq!(got, whole[..3]);
    }
}

#[test]
fn unknown_record_ends_the_replay() {
    let (_, mut backup) = journal();
    let n = backup.len();
    backup.extend_from_slice(&[9, 0, 0]);
    backup.extend_from_slice(b"\x02\x00\x01a");
    assert_eq!(replay_backup(&backup).len(), 4);
    assert!(read_record(&backup, n).is_none());
    let (r, at) = read_record(&backup, n + 3).unwrap();
    assert_eq!((describe(&r), at), ("del a".to_string(), n + 7));
}

#[test]
fn empty_journal() {
    assert!(replay_backup(&[]).is_empty());
}

#[test]
fn reading_numbers() {
    let buf = [1, 2, 3, 4, 5, 6, 7, 8, 9];
    assert_eq!(read_u16(&buf, 1), Some(0x0203));
    assert_eq!(read_u16(&buf, 8), None);
    assert_eq!(read_u32(&buf, 5), Some(0x06070809));
    assert_eq!(read_u32(&buf, 6), None);
    assert_eq!(read_u64(&buf, 1), Some(0x0203040506070809));
    assert_eq!(read_u64(&buf, 2), None);
    assert_eq!(read_bytes(&buf, 7, 2), Some(Bytes::from_static(&[8, 9])));
    assert_eq!(read_bytes(&buf, 9, 0), Some(Bytes::new()));
    assert_eq!(read_bytes(&buf, 8, 2), None);
}

#[test]
fn long_keys_are_not_logged() {
    let (mut d, _) = Disk::open(40, &[]);
    let longest = vec![b'k'; 65535];
    let longer = vec![b'k'; 65536];
    assert_eq!(d.append_set(&longer, b"v", 0), Err(LogError::KeyTooLong));
    assert_eq!(d.append_del(&longer), Err(LogError::KeyTooLong));
    assert_eq!(d.cool_len(), 40);
    assert_eq!(d.append_set(&longest, b"v", 0), Ok(40 + 15 + 65535));
    assert_eq!(d.cool_len(), 40 + 15 + 65535 + 1);
    let (cool, backup) = d.flush();
    assert_eq!(cool.len(), 15 + 65535 + 1);
    assert_eq!(replay_backup(&backup).len(), 1);
}

#[test]
fn values_stay_readable() {
    let (mut d, _) = Disk::open(0, &[]);
    let mut at = Vec::new();
    for i in 0..20u32 {
        let value = format!("value {i}");
        at.push((d.append_set(&i.to_be_bytes(), value.as_bytes(), 0).unwrap() as usize, value));
        d.append_del(b"other").unwrap();
    }
    let cool = d.flush_cool();
    for (off, value) in at {
        assert_eq!(&cool[off..off + value.len()], value.as_bytes());
    }
}

#[test]
fn whole_records_are_kept() {
    let (_, backup) = journal();
    let last = 23 + 1;
    assert_eq!(whole_prefix(&backup), backup.len());
    assert_eq!(whole_prefix(&[]), 0);
    assert_eq!(whole_prefix(&[1]), 0);
    for cut in 1..last {
        assert_eq!(whole_prefix(&backup[..backup.len() - cut]), backup.len() - last);
    }
}

#[test]
fn writes_behind_a_torn_tail_are_found() {
    let (_, mut backup) = journal();
    backup.truncate(backup.len() - 5);
    backup.truncate(whole_prefix(&backup));
    let (mut d, _) = Disk::open(1000, &backup);
    let off = d.append_set(b"new", b"value", 3).unwrap();
    d.append_del(b"bb").unwrap();
    backup.extend_from_slice(&d.flush().1);
    let got: Vec<String> = Disk::open(2000, &backup).1.iter().map(describe).collect();
    assert_eq!(
        got,
        vec![
            "put a 16 5 0".to_string(),
            "put bb 38 0 99".to_string(),
            "del a".to_string(),
            format!("put new {off} 5 3"),
            "del bb".to_string(),
        ]
    );
}
