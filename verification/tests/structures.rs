use bytes::Bytes;
use dataset_local::shards::cache::Cache;
use dataset_local::shards::expiry::Expiry;
use dataset_local::shards::map::ByteMap;
use dataset_local::shards::recency::Recency;
use dataset_local::shards::worker::Worker;

fn b(s: &str) -> Bytes {
    Bytes::copy_from_slice(s.as_bytes())
}

#[test]
fn worker_sets_gets_and_deletes() {
    let mut w = Worker::start();
    assert_eq!(w.get(b"k"), None);
    assert!(!w.set(b("k"), b("v")));
    assert_eq!(w.get(b"k"), Some(b("v")));
    assert!(w.set(b("k"), b("w")));
    assert_eq!(w.get(b"k"), Some(b("w")));
    assert!(w.delete(b"k"));
    assert!(!w.delete(b"k"));
    assert_eq!(w.get(b"k"), None);
}

#[test]
fn map_keeps_many_keys_apart() {
    let mut m: ByteMap<u32> = ByteMap::new();
    for i in 0..2000u32 {
        assert_eq!(m.insert(b(&format!("k{i}")), i), None);
    }
    assert_eq!(m.insert(b("k7"), 70), Some(7));
    for i in (0..2000u32).step_by(2) {
        assert_eq!(m.remove(format!("k{i}").as_bytes()), Some(i));
        assert_eq!(m.remove(format!("k{i}").as_bytes()), None);
    }
    for i in 0..2000u32 {
        let want = match i {
            7 => Some(70),
            _ if i % 2 == 1 => Some(i),
            _ => None,
        };
        assert_eq!(m.get(format!("k{i}").as_bytes()).copied(), want);
    }
    assert_eq!(m.get(b""), None);
}

#[test]
fn recency_orders_by_last_use() {
    let mut r = Recency::new();
    assert_eq!(r.oldest(), None);
    for k in ["a", "b", "c", "d"] {
        r.touch(&b(k));
    }
    r.touch(&b("a"));
    r.forget(b"c");
    r.forget(b"nobody");
    let mut order = Vec::new();
    while let Some(k) = r.oldest() {
        r.forget(&k);
        order.push(k);
    }
    assert_eq!(order, vec![b("b"), b("d"), b("a")]);
    r.touch(&b("again"));
    assert_eq!(r.oldest(), Some(b("again")));
}

#[test]
fn cache_evicts_the_least_recently_used() {
    let mut c = Cache::new(100);
    for k in ["a", "b", "c", "d", "e", "f", "g", "h", "i"] {
        c.put(b(k), Bytes::from(vec![1u8; 10]));
    }
    // Ninety bytes are at the high-water mark, not above it.
    assert!(c.get(&b("a")).is_some());
    c.put(b("j"), Bytes::from(vec![2u8; 1]));
    // Down to eighty or less: `b` and `c` go, `a` was just used.
    assert!(c.get(&b("b")).is_none());
    assert!(c.get(&b("c")).is_none());
    for k in ["a", "d", "e", "f", "g", "h", "i", "j"] {
        assert!(c.get(&b(k)).is_some(), "{k}");
    }
}

#[test]
fn cache_does_not_keep_what_cannot_fit() {
    let mut c = Cache::new(10);
    c.put(b("k"), Bytes::from(vec![0u8; 8]));
    assert!(c.get(&b("k")).is_some());
    c.put(b("big"), Bytes::from(vec![0u8; 11]));
    assert!(c.get(&b("big")).is_none());
    assert!(c.get(&b("k")).is_none());
    c.put(b("k"), Bytes::from(vec![0u8; 3]));
    c.put(b("k"), Bytes::from(vec![7u8; 4]));
    assert_eq!(c.get(&b("k")), Some(Bytes::from(vec![7u8; 4])));
    c.remove(b"k");
    assert!(c.get(&b("k")).is_none());
}

#[test]
fn cache_without_budget_keeps_only_empty_values() {
    let mut c = Cache::new(0);
    c.put(b("k"), b("v"));
    assert!(c.get(&b("k")).is_none());
    c.put(b("e"), b(""));
    assert_eq!(c.get(&b("e")), Some(b("")));
}

#[test]
fn expiry_pops_in_time_order() {
    let mut q = Expiry::new();
    assert!(!q.is_due(u64::MAX));
    q.schedule(30, b("c"));
    q.schedule(10, b("a"));
    q.schedule(20, b("b"));
    assert!(!q.is_due(9));
    assert!(q.pop_due(9).is_none());
    assert!(q.is_due(10));
    assert_eq!(q.pop_due(25), Some((10, b("a"))));
    assert_eq!(q.pop_due(25), Some((20, b("b"))));
    assert_eq!(q.pop_due(25), None);
    assert_eq!(q.pop_due(30), Some((30, b("c"))));
    assert!(!q.is_due(u64::MAX));
}
