use dataset_local::hashing::{route_hash, select_shard, ROUTE_SEED};

#[test]
fn hash_is_wyhash_under_the_seed() {
    for key in [&b""[..], b"a", b"hello", b"a rather longer key, past one block of the hash"] {
        let r = route_hash(key, 8);
        assert_eq!(r.hash, wyhash::wyhash(key, 123456789));
        assert_eq!(r.shard_id, select_shard(r.hash, 8));
        assert_eq!(r.shard_id, (r.hash % 8) as usize);
    }
    assert_eq!(ROUTE_SEED, 123456789);
}

#[test]
fn same_key_same_shard() {
    assert_eq!(route_hash(b"k", 4).shard_id, route_hash(b"k", 4).shard_id);
}

#[test]
fn mask_is_a_remainder() {
    assert_eq!(select_shard(0, 1), 0);
    assert_eq!(select_shard(u64::MAX, 1), 0);
    assert_eq!(select_shard(13, 8), 5);
    assert_eq!(select_shard(u64::MAX, 1024), 1023);
    for s in 0..16 {
        assert_eq!(select_shard(s as u64, 16), s);
    }
}
