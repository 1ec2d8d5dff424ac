use eosio::row::WriteError;
use eosio::secondary::SecondaryTableIndex;

#[test]
fn store_upsert_erase() {
    let mut s = SecondaryTableIndex::new();
    assert_eq!(s.store(1, 50, 5), Ok(()));
    assert_eq!(s.store(1, 10, 6), Ok(()));
    assert_eq!(s.store(1, 99, 5), Err(WriteError::KeyExists));
    assert_eq!(s.len(), 2);
    assert_eq!(s.entry(0).primary, 6);
    assert_eq!(s.find_primary(5), Some(50));
    s.upsert(1, 5, 5);
    assert_eq!(s.find_primary(5), Some(5));
    assert_eq!(s.find(50), None);
    assert_eq!(s.entry(0).primary, 5);
    s.upsert(1, 7, 8);
    assert_eq!(s.find_primary(8), Some(7));
    assert_eq!(s.erase(5), Some(5));
    assert_eq!(s.erase(5), None);
    assert_eq!(s.find_primary(5), None);
    assert_eq!(s.find_primary(6), Some(10));
    assert_eq!(s.len(), 2);
}
