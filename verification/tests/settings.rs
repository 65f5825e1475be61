use dataset_local::config::{ask, round_up, shard_budget, worker_count};
use dataset_local::text::{parse_unsigned, push_decimal};

#[test]
fn numbers() {
    assert_eq!(parse_unsigned(b"0", 10), Some(0));
    assert_eq!(parse_unsigned(b"0010", 10), Some(10));
    assert_eq!(parse_unsigned(b"+10", 10), Some(10));
    assert_eq!(parse_unsigned(b"11", 10), None);
    assert_eq!(parse_unsigned(b"5", 4), None);
    assert_eq!(parse_unsigned(b"", 10), None);
    assert_eq!(parse_unsigned(b"+", 10), None);
    assert_eq!(parse_unsigned(b"-1", 10), None);
    assert_eq!(parse_unsigned(b"++1", 10), None);
    assert_eq!(parse_unsigned(b"1 ", 10), None);
    assert_eq!(parse_unsigned(b"18446744073709551615", u64::MAX), Some(u64::MAX));
    assert_eq!(parse_unsigned(b"18446744073709551616", u64::MAX), None);
}

#[test]
fn numbers_are_read_as_written() {
    for n in [0u64, 7, 10, 255, 1000, u64::MAX] {
        let mut text = Vec::new();
        push_decimal(&mut text, n);
        assert_eq!(text, n.to_string().into_bytes());
        assert_eq!(parse_unsigned(&text, u64::MAX), Some(n));
    }
}

#[test]
fn rounding_up() {
    for (n, p) in [(0, 1), (1, 1), (2, 2), (3, 4), (8, 8), (9, 16), (1000, 1024)] {
        assert_eq!(round_up(n), Some(p));
    }
    let top = usize::MAX / 2 + 1;
    assert_eq!(round_up(top), Some(top));
    assert_eq!(round_up(top + 1), None);
    assert_eq!(round_up(usize::MAX), None);
}

#[test]
fn workers() {
    assert_eq!(worker_count(Some("6"), Some(2)), Some(8));
    assert_eq!(worker_count(Some("0"), Some(12)), Some(16));
    assert_eq!(worker_count(Some("many"), Some(8)), Some(8));
    assert_eq!(worker_count(None, Some(1)), Some(1));
    assert_eq!(worker_count(None, None), Some(4));
}

#[test]
fn asking() {
    assert_eq!(ask(Some("5"), 9), Some(5));
    assert_eq!(ask(Some("10"), 9), None);
    assert_eq!(ask(Some("0"), 9), None);
    assert_eq!(ask(None, 9), None);
}

#[test]
fn budgets() {
    assert_eq!(shard_budget(Some("8"), 4), 2 * 1024 * 1024);
    assert_eq!(shard_budget(None, 8), 256 * 1024 * 1024);
    assert_eq!(shard_budget(Some("1"), 3), 349525);
    assert_eq!(shard_budget(Some("18446744073709551615"), 1), u64::MAX);
}
