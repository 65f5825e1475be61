use bytes::Bytes;
use dataset_local::shards::disk::whole_prefix;
use dataset_local::shards::state::{deadline_of, State, Step};
use dataset_local::shards::store::{Lookup, Store};
use dataset_local::utils::WorkerOp;

/// A shard with its two files in memory.
struct Shard {
    state: State,
    cool: Vec<u8>,
    backup: Vec<u8>,
    reads: usize,
}

impl Shard {
    fn open(cool: Vec<u8>, mut backup: Vec<u8>, budget: u64) -> Self {
        backup.truncate(whole_prefix(&backup));
        let state = State::new(cool.len() as u64, &backup, budget);
        Shard { state, cool, backup, reads: 0 }
    }

    fn fresh(budget: u64) -> Self {
        Shard::open(Vec::new(), Vec::new(), budget)
    }

    fn flush(&mut self) {
        let (cool, backup) = self.state.flush();
        self.cool.extend_from_slice(&cool);
        self.backup.extend_from_slice(&backup);
    }

    fn restart(mut self, budget: u64) -> Self {
        self.flush();
        Shard::open(self.cool, self.backup, budget)
    }

    fn run(&mut self, op: WorkerOp, now: u64) -> Vec<u8> {
        assert!(self.state.fits(&op));
        match self.state.apply(42, op, now) {
            Step::Reply { req_id, payload } => {
                assert_eq!(req_id, 42);
                payload.to_vec()
            }
            Step::Read(read) => {
                self.reads += 1;
                let bytes = self.state.flush_cool();
                self.cool.extend_from_slice(&bytes);
                let from = read.loc.val_off as usize;
                let data =
                    Bytes::copy_from_slice(&self.cool[from..from + read.loc.vlen as usize]);
                let (req_id, payload) = self.state.resume(read, data);
                assert_eq!(req_id, 42);
                payload.to_vec()
            }
        }
    }

    fn get(&mut self, k: &str, now: u64) -> Vec<u8> {
        self.run(WorkerOp::Get { key: b(k) }, now)
    }

    fn set(&mut self, k: &str, v: &str, now: u64) -> Vec<u8> {
        self.run(WorkerOp::Put { key: b(k), value: b(v) }, now)
    }

    fn setex(&mut self, k: &str, v: &str, ttl_ms: u32, now: u64) -> Vec<u8> {
        self.run(WorkerOp::SetEx { key: b(k), value: b(v), ttl_ms }, now)
    }

    fn del(&mut self, k: &str, now: u64) -> Vec<u8> {
        self.run(WorkerOp::Del { key: b(k) }, now)
    }
}

fn b(s: &str) -> Bytes {
    Bytes::copy_from_slice(s.as_bytes())
}

#[test]
fn set_get_del() {
    let mut s = Shard::fresh(1000);
    assert_eq!(s.get("hello", 1), b"(nil)");
    assert_eq!(s.set("hello", "world", 1), b"OK");
    assert_eq!(s.get("hello", 1), b"world");
    assert_eq!(s.del("hello", 1), b"1");
    assert_eq!(s.get("hello", 1), b"(nil)");
    assert_eq!(s.del("hello", 1), b"0");
}

#[test]
fn last_write_wins() {
    let mut s = Shard::fresh(1000);
    s.setex("k", "a", 5, 1);
    s.set("k", "b", 2);
    assert_eq!(s.get("k", 100), b"b");
    s.setex("k", "c", 5, 100);
    assert_eq!(s.get("k", 104), b"c");
    assert_eq!(s.get("k", 105), b"(nil)");
}

#[test]
fn other_keys_are_unaffected() {
    let mut s = Shard::fresh(1000);
    s.set("a", "1", 1);
    s.set("b", "2", 1);
    s.del("a", 1);
    assert_eq!(s.get("b", 1), b"2");
}

#[test]
fn ttl_runs_out() {
    let mut s = Shard::fresh(1000);
    assert_eq!(s.setex("k", "v", 10, 1000), b"OK");
    assert_eq!(s.get("k", 1009), b"v");
    assert_eq!(s.get("k", 1010), b"(nil)");
    s.setex("k", "v", 10, 2000);
    assert_eq!(s.del("k", 2010), b"0");
    s.setex("k", "v", 10, 3000);
    assert_eq!(s.del("k", 3009), b"1");
}

#[test]
fn deadlines() {
    assert_eq!(deadline_of(1000, 10), 1010);
    assert_eq!(deadline_of(0, 0), 1);
    assert_eq!(deadline_of(u64::MAX - 5, 5), u64::MAX);
    assert_eq!(deadline_of(u64::MAX - 4, 5), 0);
}

#[test]
fn sweep_drops_expired_keys_and_changes_no_answer() {
    let mut s = Shard::fresh(1 << 20);
    for i in 0..3000 {
        s.setex(&format!("k{i}"), "v", 10, 0);
    }
    s.set("stays", "v", 0);
    s.setex("later", "v", 1000, 0);
    assert!(s.state.tick(9));
    assert_eq!(s.get("k0", 9), b"v");
    assert!(!s.state.tick(10));
    assert!(!s.state.tick(10));
    assert!(s.state.tick(10));
    assert_eq!(s.get("k2999", 10), b"(nil)");
    assert_eq!(s.get("stays", 10), b"v");
    assert_eq!(s.get("later", 10), b"v");
}

#[test]
fn sweep_spares_a_key_that_was_set_again() {
    let mut s = Shard::fresh(1000);
    s.setex("k", "old", 10, 0);
    s.set("k", "new", 5);
    assert!(s.state.tick(10));
    assert_eq!(s.get("k", 10), b"new");
}

#[test]
fn eviction_is_lossless() {
    let mut s = Shard::fresh(100);
    for i in 0..50 {
        s.set(&format!("k{i}"), &format!("value number {i}"), 0);
    }
    assert_eq!(s.reads, 0);
    for i in 0..50 {
        assert_eq!(s.get(&format!("k{i}"), 0), format!("value number {i}").as_bytes());
    }
    assert!(s.reads > 40);
    let before = s.reads;
    assert_eq!(s.get("k49", 0), b"value number 49");
    assert_eq!(s.reads, before);
}

#[test]
fn restart_recovers_everything() {
    let mut s = Shard::fresh(1000);
    s.set("a", "1", 0);
    s.set("b", "2", 0);
    s.del("a", 0);
    s.setex("c", "3", 100, 0);
    s.set("b", "two", 0);
    let mut s = s.restart(1000);
    assert_eq!(s.get("a", 50), b"(nil)");
    assert_eq!(s.get("b", 50), b"two");
    assert_eq!(s.get("c", 50), b"3");
    assert_eq!(s.reads, 2);
    assert_eq!(s.get("b", 50), b"two");
    assert_eq!(s.reads, 2);
    let mut s = s.restart(1000);
    assert_eq!(s.get("c", 100), b"(nil)");
    s.set("d", "4", 100);
    let mut s = s.restart(0);
    assert_eq!(s.get("d", 100), b"4");
    assert_eq!(s.get("d", 100), b"4");
    assert_eq!(s.reads, 2);
}

#[test]
fn restart_on_a_torn_journal() {
    let mut s = Shard::fresh(1000);
    s.set("a", "1", 0);
    s.set("b", "2", 0);
    s.flush();
    let cut = s.backup.len() - 1;
    let mut s = Shard::open(s.cool, s.backup[..cut].to_vec(), 1000);
    assert_eq!(s.get("a", 0), b"1");
    assert_eq!(s.get("b", 0), b"(nil)");
    s.set("c", "3", 0);
    s.set("a", "one", 0);
    let mut s = s.restart(1000);
    assert_eq!(s.get("a", 0), b"one");
    assert_eq!(s.get("b", 0), b"(nil)");
    assert_eq!(s.get("c", 0), b"3");
}

#[test]
fn a_time_past_the_clock_never_comes() {
    let mut s = Shard::fresh(1000);
    s.setex("k", "v", 10, u64::MAX - 3);
    assert!(s.state.tick(u64::MAX));
    assert_eq!(s.get("k", u64::MAX), b"v");
}

#[test]
fn answers_follow_the_last_write() {
    let mut s = Shard::fresh(30);
    let mut m = std::collections::HashMap::new();
    let mut x: u32 = 1;
    for now in 0..2000u64 {
        x = x.wrapping_mul(1664525).wrapping_add(1013904223);
        let key = format!("k{}", (x >> 8) % 7);
        match (x >> 16) % 5 {
            0 => {
                let value = format!("v{now}");
                assert_eq!(s.set(&key, &value, now), b"OK");
                m.insert(key, (value, u64::MAX));
            }
            1 => {
                let value = format!("w{now}");
                assert_eq!(s.setex(&key, &value, 20, now), b"OK");
                m.insert(key, (value, now + 20));
            }
            2 => {
                let there = m.remove(&key).is_some_and(|(_, end)| now < end);
                assert_eq!(s.del(&key, now), if there { b"1" } else { b"0" });
            }
            3 => {
                let want = match m.get(&key) {
                    Some((value, end)) if now < *end => value.clone(),
                    _ => "(nil)".to_string(),
                };
                assert_eq!(s.get(&key, now), want.as_bytes());
            }
            _ => {
                s.state.tick(now);
                if x % 3 == 0 {
                    s = s.restart(30);
                }
            }
        }
    }
}

#[test]
fn expired_key_survives_restart_only_as_a_miss() {
    let mut s = Shard::fresh(1000);
    s.setex("k", "v", 10, 0);
    assert_eq!(s.get("k", 10), b"(nil)");
    let mut s = s.restart(1000);
    assert_eq!(s.get("k", 10), b"(nil)");
    assert_eq!(s.del("k", 10), b"0");
}

#[test]
fn reads_log_nothing() {
    let mut s = Shard::fresh(1000);
    s.get("k", 0);
    s.del("k", 0);
    s.flush();
    assert!(s.cool.is_empty() && s.backup.is_empty());
    s.set("k", "v", 0);
    s.flush();
    assert_eq!(s.cool.len(), 15 + 1 + 1);
    assert_eq!(s.backup.len(), 23 + 1);
}

#[test]
fn a_read_that_fails_is_answered() {
    let mut s = Shard::fresh(0);
    s.set("k", "v", 0);
    match s.state.apply(9, WorkerOp::Get { key: b("k") }, 0) {
        Step::Read(read) => {
            let (id, payload) = State::read_failed(read);
            assert_eq!((id, &payload[..]), (9, &b"ERR read failed"[..]));
        }
        other => panic!("{other:?}"),
    }
}

#[test]
fn operations_that_do_not_fit() {
    let s = Shard::fresh(1000);
    let long = Bytes::from(vec![0u8; 65536]);
    assert!(!s.state.fits(&WorkerOp::Put { key: long.clone(), value: Bytes::new() }));
    assert!(!s.state.fits(&WorkerOp::Del { key: long.clone() }));
    assert!(s.state.fits(&WorkerOp::Get { key: long.clone() }));
    assert!(s.state.fits(&WorkerOp::Put { key: b("k"), value: long }));
    let full = State::new(u64::MAX - 10, &[], 0);
    assert!(!full.fits(&WorkerOp::Put { key: b("k"), value: b("v") }));
}

#[test]
fn store_lookups() {
    let mut s = Store::open(0, &[], 4);
    assert!(matches!(s.get(&b("k"), 0), Lookup::Miss));
    s.put(b("k"), b("abc"), 0);
    assert!(matches!(s.get(&b("k"), 0), Lookup::Hit(v) if v == b("abc")));
    s.put(b("l"), b("def"), 0);
    let loc = match s.get(&b("k"), 0) {
        Lookup::Cold(loc) => loc,
        _ => panic!("still in memory"),
    };
    assert_eq!((loc.val_off, loc.vlen, loc.exp_ms), (16, 3, 0));
    s.refill(b("k"), loc, b("abc"));
    assert!(matches!(s.get(&b("k"), 0), Lookup::Hit(v) if v == b("abc")));
    assert_eq!(s.log_len(), 38);
    assert!(s.delete(&b("k"), 0));
    assert!(!s.delete(&b("k"), 0));
    s.put(b("t"), b("x"), 5);
    assert!(s.sweep(5, 10));
    assert!(matches!(s.get(&b("t"), 5), Lookup::Miss));
    assert_eq!(s.flush_cool().len(), 38 + 4 + 17);
    assert!(!s.flush().1.is_empty());
}

#[test]
fn fresh_start_is_empty() {
    let mut s = Shard::fresh(10);
    assert!(s.state.tick(u64::MAX));
    for k in ["", "a", "b"] {
        assert_eq!(s.get(k, 0), b"(nil)");
    }
}
