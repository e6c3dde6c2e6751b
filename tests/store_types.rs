use ufos::store_types::ByCollectionKey;

#[test]
fn test_by_collection_key() {
    let nsid = b"ab.cd.efg".to_vec();
    let original = ByCollectionKey::new(nsid.clone(), 456);
    let serialized = original.to_db_bytes().unwrap();
    let (restored, bytes_consumed) = ByCollectionKey::from_db_bytes(&serialized).unwrap();
    assert_eq!(restored, original);
    assert_eq!(bytes_consumed, serialized.len());

    let serialized_prefix = original.to_prefix_db_bytes().unwrap();
    assert!(serialized.starts_with(&serialized_prefix));
    let just_prefix = ByCollectionKey::prefix_from_nsid(nsid).unwrap();
    assert_eq!(just_prefix, serialized_prefix);
    assert!(just_prefix.starts_with("by_collection".as_bytes()));
}

#[test]
fn by_collection_key_refuses_zero_byte() {
    let key = ByCollectionKey::new(b"a\0b".to_vec(), 1);
    assert!(key.to_db_bytes().is_err());
}
