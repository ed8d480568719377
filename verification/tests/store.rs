use std::hash::{Hash, Hasher};

use sag::store::{digest, FakeStore, StoreError};

#[test]
fn round_trips_and_dedupes_identical_bytes() {
    let mut store = FakeStore::default();
    let id1 = store.put(b"plan: fix cache".to_vec()).unwrap();
    let id2 = store.put(b"plan: fix cache".to_vec()).unwrap();
    assert_eq!(id1, id2, "identical content must share an id");
    assert_eq!(store.get(&id1).unwrap(), b"plan: fix cache");
}

#[test]
fn missing_id_is_not_found() {
    let store = FakeStore::default();
    assert!(matches!(store.get("deadbeef"), Err(StoreError::NotFound(_))));
}

#[test]
fn content_ids_are_sixteen_hex_digits() {
    let id = digest(b"abc");
    assert_eq!(id.len(), 16);
    assert!(id.chars().all(|c| c.is_ascii_hexdigit() && !c.is_ascii_uppercase()));
    assert_ne!(digest(b"abc"), digest(b"abd"));
    assert_eq!(digest(b"abc"), digest(b"abc"));
    let mut store = FakeStore::default();
    let a = store.put(b"one".to_vec()).unwrap();
    let b = store.put(b"two".to_vec()).unwrap();
    assert_ne!(a, b);
    assert_eq!(store.get(&a).unwrap(), b"one");
    assert_eq!(store.get(&b).unwrap(), b"two");
    assert_eq!(StoreError::NotFound("x".into()).message(), "artifact not found: x");
}

#[test]
fn a_second_put_of_the_same_bytes_stores_nothing_new() {
    let mut store = FakeStore::default();
    let id1 = store.put(b"patch".to_vec()).unwrap();
    let id2 = store.put(b"patch".to_vec()).unwrap();
    let other = store.put(b"review".to_vec()).unwrap();
    assert_eq!(id1, id2);
    assert_ne!(id1, other);
    assert_eq!(store.get(&id2).unwrap(), b"patch");
    assert_eq!(store.get(&other).unwrap(), b"review");
}

#[test]
fn digest_is_the_default_hasher_in_hex() {
    let bytes: &[u8] = b"plan: fix cache";
    let mut h = std::collections::hash_map::DefaultHasher::new();
    bytes.hash(&mut h);
    assert_eq!(digest(bytes), format!("{:016x}", h.finish()));
}
