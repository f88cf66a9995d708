use respkv::resp::RespValue;
use respkv::storage::Storage;

fn bulk(s: &[u8]) -> RespValue {
    RespValue::BulkString(Some(s.to_vec()))
}

#[test]
fn get_on_empty_store_is_absent() {
    let mut st = Storage::new();
    assert_eq!(st.get(b"missing_key", 0), None);
}

#[test]
fn set_then_get_without_lifetime() {
    let mut st = Storage::new();
    st.set(b"k".to_vec(), bulk(b"v"), None, 100);
    assert_eq!(st.get(b"k", 100), Some(bulk(b"v")));
    // No lifetime: any later read still sees it.
    assert_eq!(st.get(b"k", u64::MAX), Some(bulk(b"v")));
}

#[test]
fn expiry_boundary() {
    let mut st = Storage::new();
    st.set(b"k".to_vec(), bulk(b"v"), Some(50), 1000);
    assert_eq!(st.get(b"k", 1000), Some(bulk(b"v")));
    assert_eq!(st.get(b"k", 1049), Some(bulk(b"v")));
    // Elapsed time equal to the lifetime already expires the entry.
    assert_eq!(st.get(b"k", 1050), None);
}

#[test]
fn expired_key_stays_absent() {
    let mut st = Storage::new();
    st.set(b"k".to_vec(), bulk(b"v"), Some(10), 0);
    assert_eq!(st.get(b"k", 10), None);
    // No resurrection, even at a reading before the deadline.
    assert_eq!(st.get(b"k", 5), None);
    assert_eq!(st.get(b"k", 1000), None);
}

#[test]
fn zero_lifetime_expires_at_once() {
    let mut st = Storage::new();
    st.set(b"k".to_vec(), bulk(b"v"), Some(0), 7);
    assert_eq!(st.get(b"k", 7), None);
}

#[test]
fn overwrite_replaces_value_and_lifetime() {
    let mut st = Storage::new();
    st.set(b"k".to_vec(), bulk(b"v1"), None, 10);
    st.set(b"k".to_vec(), bulk(b"v2"), Some(5), 20);
    assert_eq!(st.get(b"k", 20), Some(bulk(b"v2")));
    // The fresh lifetime governs: the old unbounded entry is gone.
    assert_eq!(st.get(b"k", 25), None);
}

#[test]
fn keys_are_independent() {
    let mut st = Storage::new();
    st.set(b"a".to_vec(), RespValue::Integer(1), None, 0);
    st.set(b"b".to_vec(), RespValue::Integer(2), Some(10), 0);
    assert_eq!(st.get(b"a", 100), Some(RespValue::Integer(1)));
    assert_eq!(st.get(b"b", 100), None);
    assert_eq!(st.get(b"a", 100), Some(RespValue::Integer(1)));
}
