//! Identity store tests: recording, lookup, and the persistence round trip.

use uuid::Uuid;
use world_sync::storage::UuidStorage;

#[test]
fn test_add_and_lookup() {
    let mut st = UuidStorage::new();
    let a = Uuid::new_v4().as_u128();
    let b = Uuid::new_v4().as_u128();
    st.add_uuid(a, "alice".to_string());
    st.add_uuid(b, "bob".to_string());
    assert!(st.contains_uuid(a));
    assert!(st.contains_uuid(b));
    assert!(!st.contains_uuid(a ^ b ^ 1));
    assert_eq!(st.get_username(a).unwrap(), "alice");
    assert_eq!(st.get_username(b).unwrap(), "bob");
}

#[test]
fn test_add_overwrites_username() {
    let mut st = UuidStorage::new();
    let a = Uuid::new_v4().as_u128();
    st.add_uuid(a, "before".to_string());
    st.add_uuid(a, "after".to_string());
    assert_eq!(st.uuids.len(), 1);
    assert_eq!(st.get_username(a).unwrap(), "after");
}

#[test]
fn test_save_then_load_round_trip() {
    // encoding and decoding the store reproduces an equivalent mapping
    let mut st = UuidStorage::new();
    let a = Uuid::new_v4().as_u128();
    let b = Uuid::new_v4().as_u128();
    let c = Uuid::new_v4().as_u128();
    st.add_uuid(a, "alice".to_string());
    st.add_uuid(b, "玩家".to_string());
    st.add_uuid(c, "".to_string());
    let text = st.encode();
    let loaded = UuidStorage::decode(&text);
    assert_eq!(loaded.uuids.len(), 3);
    assert_eq!(loaded.get_username(a).unwrap(), "alice");
    assert_eq!(loaded.get_username(b).unwrap(), "玩家");
    assert_eq!(loaded.get_username(c).unwrap(), "");
}

#[test]
fn test_load_empty_record_yields_empty_store() {
    let loaded = UuidStorage::decode("");
    assert_eq!(loaded.uuids.len(), 0);
}

#[test]
fn test_load_corrupt_record_yields_empty_store() {
    // neither truncated nor non-hex text is an error: both mean no store
    let mut st = UuidStorage::new();
    st.add_uuid(7, "carol".to_string());
    let text = st.encode();
    let truncated = &text[..text.len() - 1];
    assert_eq!(UuidStorage::decode(truncated).uuids.len(), 0);
    assert_eq!(UuidStorage::decode("not a record").uuids.len(), 0);
    assert_eq!(UuidStorage::decode("zz").uuids.len(), 0);
}

#[test]
fn test_encoding_is_not_the_input() {
    // the encoded text is hex records, not the raw names
    let mut st = UuidStorage::new();
    st.add_uuid(1, "ab".to_string());
    let text = st.encode();
    // 32 id digits + 8 length digits + 8 digits for each of the 2 characters
    assert_eq!(text.len(), 32 + 8 + 16);
    assert_eq!(&text[..32], "00000000000000000000000000000001");
    assert_eq!(&text[32..40], "00000002");
    assert_eq!(&text[40..48], "00000061");
    assert_eq!(&text[48..56], "00000062");
}
