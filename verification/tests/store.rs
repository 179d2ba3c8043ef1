use bytes::Bytes;
use resp_kv::decimal::{parse_decimal, to_decimal};
use resp_kv::resp_frame::RespFrame;
use resp_kv::store::{len_as_i64, saturating_add, ExpiryPolicy, RedisValue, Store};

const SECOND: u64 = 1_000_000_000;

fn b(text: &str) -> Bytes {
    Bytes::from(text.to_string())
}

#[test]
fn value_expires_strictly_after_its_instant() {
    let value = RedisValue {
        data: b("v"),
        expires_at: Some(10),
    };
    assert!(!value.is_expired(9));
    assert!(!value.is_expired(10));
    assert!(value.is_expired(11));
    let lasting = RedisValue {
        data: b("v"),
        expires_at: None,
    };
    assert!(!lasting.is_expired(u64::MAX));
    let late = RedisValue {
        data: b("v"),
        expires_at: Some(u64::MAX as u128 + 1),
    };
    assert!(!late.is_expired(u64::MAX));
}

#[test]
fn get_and_set() {
    let mut store = Store::new();
    assert_eq!(store.get(&b("k"), 0), None);
    store.set(&b("k"), b("v"), ExpiryPolicy::Preserve, 0);
    assert_eq!(store.get(&b("k"), 0), Some(b("v")));
    store.set(&b("k"), b("w"), ExpiryPolicy::Clear, 0);
    assert_eq!(store.get(&b("k"), 0), Some(b("w")));
    assert_eq!(store.get(&b("K"), 0), None);
}

#[test]
fn set_policy_decides_the_expiry() {
    let mut store = Store::new();
    store.set(&b("k"), b("v"), ExpiryPolicy::Preserve, 0);
    assert_eq!(store.expire(&b("k"), 100, 0), 1);
    store.set(&b("k"), b("w"), ExpiryPolicy::Preserve, 0);
    assert_eq!(store.ttl(&b("k"), 0), 100);
    store.set(&b("k"), b("x"), ExpiryPolicy::Clear, 0);
    assert_eq!(store.ttl(&b("k"), 0), -1);
}

#[test]
fn delete_and_count_existing() {
    let mut store = Store::new();
    store.set(&b("a"), b("1"), ExpiryPolicy::Clear, 0);
    store.set(&b("c"), b("3"), ExpiryPolicy::Clear, 0);
    assert_eq!(store.count_existing(&vec![b("a"), b("a"), b("b")], 0), 2);
    assert_eq!(store.delete(&vec![b("a"), b("b"), b("c")], 0), 2);
    assert_eq!(store.count_existing(&vec![b("a"), b("c")], 0), 0);
    assert_eq!(store.delete(&vec![], 0), 0);
}

#[test]
fn expire_and_ttl() {
    let mut store = Store::new();
    assert_eq!(store.expire(&b("k"), 10, 0), 0);
    assert_eq!(store.ttl(&b("k"), 0), -2);
    store.set(&b("k"), b("v"), ExpiryPolicy::Clear, 0);
    assert_eq!(store.ttl(&b("k"), 0), -1);
    assert_eq!(store.expire(&b("k"), 10, 7), 1);
    assert_eq!(store.ttl(&b("k"), 7), 10);
    assert_eq!(store.ttl(&b("k"), 8), 9);
    assert_eq!(store.ttl(&b("k"), 7 + 10 * SECOND), 0);
    assert_eq!(store.get(&b("k"), 7 + 10 * SECOND), Some(b("v")));
    assert_eq!(store.get(&b("k"), 8 + 10 * SECOND), None);
    assert_eq!(store.ttl(&b("k"), 0), -2);
}

#[test]
fn expire_that_is_not_positive_deletes() {
    let mut store = Store::new();
    store.set(&b("k"), b("v"), ExpiryPolicy::Clear, 0);
    assert_eq!(store.expire(&b("k"), 0, 0), 1);
    assert_eq!(store.get(&b("k"), 0), None);
    store.set(&b("k"), b("v"), ExpiryPolicy::Clear, 0);
    assert_eq!(store.expire(&b("k"), i64::MIN, 0), 1);
    assert_eq!(store.get(&b("k"), 0), None);
    assert_eq!(store.expire(&b("k"), 0, 0), 0);
}

#[test]
fn incr_by_counts_in_decimal() {
    let mut store = Store::new();
    assert_eq!(store.incr_by(&b("n"), 5, 0), RespFrame::Integer(5));
    assert_eq!(store.incr_by(&b("n"), -12, 0), RespFrame::Integer(-7));
    assert_eq!(store.get(&b("n"), 0), Some(b("-7")));
    assert_eq!(
        store.incr_by(&b("n"), i64::MIN, 0),
        RespFrame::Integer(i64::MIN)
    );
    assert_eq!(store.get(&b("n"), 0), Some(b("-9223372036854775808")));
    store.set(&b("t"), b("ten"), ExpiryPolicy::Clear, 0);
    assert_eq!(
        store.incr_by(&b("t"), 1, 0),
        RespFrame::Error("ERR value is not an integer".to_string())
    );
    store.set(&b("u"), Bytes::from(vec![0xffu8]), ExpiryPolicy::Clear, 0);
    assert_eq!(
        store.incr_by(&b("u"), 1, 0),
        RespFrame::Error("ERR value is not valid UTF-8".to_string())
    );
    store.set(&b("e"), Bytes::new(), ExpiryPolicy::Clear, 0);
    assert_eq!(
        store.incr_by(&b("e"), 1, 0),
        RespFrame::Error("ERR value is not an integer".to_string())
    );
}

#[test]
fn keys_all_evicts_and_lists() {
    let mut store = Store::new();
    assert_eq!(store.keys_all(0), Vec::<Bytes>::new());
    store.mset(&vec![(b("a"), b("1")), (b("b"), b("2")), (b("c"), b("3"))]);
    store.expire(&b("a"), 1, 0);
    store.expire(&b("c"), 1, 0);
    let mut all = store.keys_all(SECOND);
    all.sort();
    assert_eq!(all, vec![b("a"), b("b"), b("c")]);
    assert_eq!(store.keys_all(SECOND + 1), vec![b("b")]);
    assert_eq!(store.keys_all(0), vec![b("b")]);
}

#[test]
fn store_mset_and_mget() {
    let mut store = Store::new();
    store.set(&b("a"), b("0"), ExpiryPolicy::Clear, 0);
    store.expire(&b("a"), 50, 0);
    store.mset(&vec![(b("a"), b("1")), (b("b"), b("2")), (b("a"), b("3"))]);
    assert_eq!(store.ttl(&b("a"), 0), -1);
    assert_eq!(
        store.mget(&vec![b("a"), b("zz"), b("b"), b("a")], 0),
        vec![Some(b("3")), None, Some(b("2")), Some(b("3"))]
    );
}

#[test]
fn strlen_getset_append() {
    let mut store = Store::new();
    assert_eq!(store.strlen(&b("k"), 0), 0);
    assert_eq!(store.getset(&b("k"), b("hello"), 0), None);
    assert_eq!(store.strlen(&b("k"), 0), 5);
    assert_eq!(store.append(&b("k"), &b(" world"), 0), 11);
    assert_eq!(store.getset(&b("k"), b(""), 0), Some(b("hello world")));
    assert_eq!(store.strlen(&b("k"), 0), 0);
    assert_eq!(store.append(&b("k"), &b(""), 0), 0);
    assert_eq!(store.get(&b("k"), 0), Some(Bytes::new()));
}

#[test]
fn saturating_add_holds_to_the_range() {
    assert_eq!(saturating_add(1, 2), 3);
    assert_eq!(saturating_add(i64::MAX, 1), i64::MAX);
    assert_eq!(saturating_add(i64::MIN, -1), i64::MIN);
    assert_eq!(saturating_add(i64::MAX, i64::MIN), -1);
    assert_eq!(len_as_i64(0), 0);
    assert_eq!(len_as_i64(11), 11);
}

#[test]
fn decimal_text() {
    assert_eq!(to_decimal(0), b"0");
    assert_eq!(to_decimal(-1), b"-1");
    assert_eq!(to_decimal(1024), b"1024");
    assert_eq!(to_decimal(i64::MIN), b"-9223372036854775808");
    assert_eq!(parse_decimal(b"1024"), Some(1024));
    assert_eq!(parse_decimal(b"-55"), Some(-55));
    assert_eq!(parse_decimal(b"+0"), Some(0));
    assert_eq!(parse_decimal(b""), None);
    assert_eq!(parse_decimal(b"+"), None);
    assert_eq!(parse_decimal(b"--1"), None);
    assert_eq!(parse_decimal(b" 1"), None);
    assert_eq!(parse_decimal(b"1 "), None);
    assert_eq!(
        parse_decimal(b"00000000000000000000000000000000000012"),
        Some(12)
    );
    assert_eq!(parse_decimal(b"99999999999999999999"), None);
}
