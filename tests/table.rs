use eosio::primary::PrimaryTableIndex;
use eosio::row::{Row, WriteError};

fn row(primary: u64, secondary: Vec<Option<u64>>, data: &[u8]) -> Row {
    Row { primary, secondary, data: data.to_vec() }
}

fn table() -> PrimaryTableIndex {
    PrimaryTableIndex::new(1, 2, 3)
}

#[test]
fn emplace_find_get_erase_scenario() {
    let mut t = table();
    let r = row(5, vec![Some(42)], b"five");
    assert_eq!(t.emplace(7, &r), Ok(()));
    let c = t.find(5).unwrap();
    assert_eq!(c.value, 5);
    assert_eq!(c.get(&t), Ok(r.clone()));
    assert_eq!(t.find_primary(0, 5), Some(42));
    assert_eq!(t.secondary(0).unwrap().find(42), Some(5));
    assert_eq!(c.erase(&mut t), Ok(r));
    assert!(t.find(5).is_none());
    assert_eq!(t.find_primary(0, 5), None);
    assert_eq!(t.secondary(0).unwrap().find(42), None);
}

#[test]
fn round_trip_after_emplace() {
    let mut t = table();
    let rows = vec![
        row(0, vec![], b""),
        row(9, vec![None, Some(3), None], b"payload"),
        row(u64::MAX, vec![Some(u64::MAX)], &[0, 255, 1]),
    ];
    for r in &rows {
        assert_eq!(t.emplace(1, r), Ok(()));
    }
    for r in &rows {
        assert_eq!(t.find(r.primary).unwrap().get(&t), Ok(r.clone()));
    }
}

#[test]
fn duplicate_key_is_refused() {
    let mut t = table();
    assert_eq!(t.emplace(1, &row(4, vec![Some(1)], b"a")), Ok(()));
    assert_eq!(t.emplace(1, &row(4, vec![Some(2)], b"b")), Err(WriteError::KeyExists));
    assert_eq!(t.find(4).unwrap().get(&t), Ok(row(4, vec![Some(1)], b"a")));
    assert_eq!(t.find_primary(0, 4), Some(1));
    assert_eq!(t.count(), 1);
}

#[test]
fn walk_is_ascending() {
    let mut t = table();
    for k in [30u64, 10, 20, 0, 40] {
        assert_eq!(t.emplace(1, &row(k, vec![], b"")), Ok(()));
    }
    assert_eq!(t.primary_keys(), vec![0, 10, 20, 30, 40]);
    assert_eq!(t.count(), 5);
    let mut it = t.iter();
    let mut seen = Vec::new();
    while let Some(c) = it.next(&t) {
        seen.push(c.value);
    }
    assert_eq!(seen, vec![0, 10, 20, 30, 40]);
    assert!(it.next(&t).is_none());

    let mut back = t.find(30).unwrap().into_iter(&t);
    let mut down = Vec::new();
    while let Some(c) = back.next_back(&t) {
        down.push(c.value);
    }
    assert_eq!(down, vec![40, 30]);
}

#[test]
fn empty_table_walk() {
    let t = table();
    assert!(t.begin().is_none());
    assert_eq!(t.count(), 0);
    assert!(t.primary_keys().is_empty());
    let mut it = t.iter();
    assert!(it.next(&t).is_none());
}

#[test]
fn bounds_search() {
    let mut t = table();
    for k in [2u64, 4, 6] {
        assert_eq!(t.emplace(1, &row(k, vec![], b"")), Ok(()));
    }
    assert_eq!(t.lower_bound(4).unwrap().value, 4);
    assert_eq!(t.lower_bound(5).unwrap().value, 6);
    assert!(t.lower_bound(7).is_none());
    assert_eq!(t.upper_bound(4).unwrap().value, 6);
    assert_eq!(t.upper_bound(0).unwrap().value, 2);
    assert!(t.upper_bound(6).is_none());
    assert!(t.upper_bound(u64::MAX).is_none());
    assert_eq!(t.predecessor(4).unwrap().value, 2);
    assert!(t.predecessor(2).is_none());
    assert_eq!(t.begin().unwrap().value, 2);
    assert!(t.contains(6));
    assert!(!t.contains(5));
}

#[test]
fn erase_keeps_other_rows() {
    let mut t = table();
    assert_eq!(t.emplace(1, &row(1, vec![Some(10), Some(100)], b"x")), Ok(()));
    assert_eq!(t.emplace(1, &row(2, vec![Some(20), None], b"y")), Ok(()));
    let c = t.find(1).unwrap();
    assert_eq!(c.erase(&mut t), Ok(row(1, vec![Some(10), Some(100)], b"x")));
    assert!(!t.contains(1));
    assert_eq!(t.find_primary(0, 1), None);
    assert_eq!(t.find_primary(1, 1), None);
    assert_eq!(t.find_primary(0, 2), Some(20));
    assert_eq!(t.find_primary(1, 2), None);
    assert_eq!(t.primary_keys(), vec![2]);
}

#[test]
fn modify_relinks_slots() {
    let mut t = table();
    assert_eq!(t.emplace(1, &row(8, vec![Some(42), Some(7)], b"old")), Ok(()));
    let c = t.find(8).unwrap();
    let new = row(8, vec![Some(43), None, Some(9)], b"new!");
    assert_eq!(c.modify(&mut t, None, &new), Ok(24 + 27 + 4));
    assert_eq!(t.find(8).unwrap().get(&t), Ok(new.clone()));
    assert_eq!(t.find_primary(0, 8), Some(43));
    assert_eq!(t.secondary(0).unwrap().find(42), None);
    assert_eq!(t.secondary(0).unwrap().find(43), Some(8));
    assert_eq!(t.find_primary(1, 8), None);
    assert_eq!(t.find_primary(2, 8), Some(9));
    assert_eq!(t.primary_keys(), vec![8]);
}

#[test]
fn modify_through_index_with_new_payer() {
    let mut t = table();
    assert_eq!(t.emplace(1, &row(3, vec![Some(1)], b"")), Ok(()));
    let c = t.find(3).unwrap();
    let same = row(3, vec![Some(1)], b"");
    assert_eq!(t.modify(&c, Some(99), &same), Ok(24 + 9));
    assert_eq!(t.find_primary(0, 3), Some(1));
    assert_eq!(t.find(3).unwrap().get(&t), Ok(same));
}

#[test]
fn available_primary_key_allocation() {
    let mut t = table();
    assert_eq!(t.available_primary_key(), Some(0));
    for k in [0u64, 1, 2] {
        assert_eq!(t.emplace(1, &row(k, vec![], b"")), Ok(()));
    }
    assert_eq!(t.available_primary_key(), Some(3));
    assert_eq!(t.emplace(1, &row(u64::MAX, vec![], b"")), Ok(()));
    assert_eq!(t.available_primary_key(), None);
}

#[test]
fn equal_secondary_keys_keep_write_order() {
    let mut t = table();
    assert_eq!(t.emplace(1, &row(3, vec![Some(5)], b"")), Ok(()));
    assert_eq!(t.emplace(1, &row(1, vec![Some(5)], b"")), Ok(()));
    assert_eq!(t.emplace(1, &row(2, vec![Some(4)], b"")), Ok(()));
    let s = t.secondary(0).unwrap();
    assert_eq!(s.len(), 3);
    assert_eq!(s.entry(0).primary, 2);
    assert_eq!(s.entry(1).primary, 3);
    assert_eq!(s.entry(2).primary, 1);
    assert_eq!(s.find(5), Some(3));
    assert_eq!(s.lower_bound(5).unwrap().primary, 3);
    assert_eq!(s.upper_bound(4).unwrap().key, 5);
    assert!(s.upper_bound(5).is_none());
}

#[test]
fn cursors_name_their_table() {
    let mut t = PrimaryTableIndex::new(11, 22, 33);
    assert_eq!(t.emplace(1, &row(1, vec![], b"")), Ok(()));
    let c = t.find(1).unwrap();
    assert_eq!((c.code, c.scope, c.table), (11, 22, 33));
    let it = t.iter();
    assert_eq!((it.front, it.back), (Some(1), Some(1)));
}

#[test]
fn table_names_its_namespace() {
    let t = PrimaryTableIndex::new(4, 5, 6);
    assert_eq!((t.code(), t.scope(), t.name()), (4, 5, 6));
    assert_eq!(t.available_primary_key(), Some(0));
}

#[test]
fn backward_walk_from_iter() {
    let mut t = table();
    for k in [1u64, 2] {
        assert_eq!(t.emplace(1, &row(k, vec![], b"")), Ok(()));
    }
    let mut it = t.iter();
    assert_eq!(it.next_back(&t).unwrap().value, 2);
    assert_eq!(it.next_back(&t).unwrap().value, 1);
    assert!(it.next_back(&t).is_none());
    assert!(it.next(&t).is_none());
}

#[test]
fn backward_walk_descends_through_all_rows() {
    let mut t = table();
    for k in [7u64, 3, 5] {
        assert_eq!(t.emplace(1, &row(k, vec![], b"")), Ok(()));
    }
    let mut it = t.iter();
    let mut down = Vec::new();
    while let Some(c) = it.next_back(&t) {
        down.push(c.value);
    }
    assert_eq!(down, vec![7, 5, 3]);
    let empty = table();
    let mut none = empty.iter();
    assert!(none.next_back(&empty).is_none());
}

#[test]
fn walks_from_both_ends_meet() {
    let mut t = table();
    for k in [1u64, 2, 3, 4, 5] {
        assert_eq!(t.emplace(1, &row(k, vec![], b"")), Ok(()));
    }
    let mut it = t.iter();
    assert_eq!(it.next(&t).unwrap().value, 1);
    assert_eq!(it.next_back(&t).unwrap().value, 5);
    assert_eq!(it.next(&t).unwrap().value, 2);
    assert_eq!(it.next_back(&t).unwrap().value, 4);
    assert_eq!(it.next_back(&t).unwrap().value, 3);
    assert!(it.next(&t).is_none());
    assert!(it.next_back(&t).is_none());
}
