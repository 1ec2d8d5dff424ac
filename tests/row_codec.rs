use eosio::row::{ReadError, Row};

#[test]
fn encoding_layout() {
    let r = Row { primary: 0x0102, secondary: vec![Some(7), None], data: vec![0xaa, 0xbb] };
    let b = r.write().unwrap();
    assert_eq!(r.num_bytes(), Some(24 + 18 + 2));
    let mut want = vec![0x02, 0x01, 0, 0, 0, 0, 0, 0];
    want.extend_from_slice(&[2, 0, 0, 0, 0, 0, 0, 0]);
    want.extend_from_slice(&[1, 7, 0, 0, 0, 0, 0, 0, 0]);
    want.extend_from_slice(&[0, 0, 0, 0, 0, 0, 0, 0, 0]);
    want.extend_from_slice(&[2, 0, 0, 0, 0, 0, 0, 0]);
    want.extend_from_slice(&[0xaa, 0xbb]);
    assert_eq!(b, want);
    assert_eq!(Row::read(&b), Ok(r));
}

#[test]
fn read_rejects_short_input() {
    assert_eq!(Row::read(&[0u8; 23]), Err(ReadError::Malformed));
    let r = Row { primary: 1, secondary: vec![Some(1)], data: vec![1, 2, 3] };
    let b = r.write().unwrap();
    assert_eq!(Row::read(&b[..b.len() - 1]), Err(ReadError::Malformed));
}

#[test]
fn read_rejects_trailing_bytes() {
    let r = Row { primary: 1, secondary: vec![], data: vec![] };
    let mut b = r.write().unwrap();
    assert_eq!(Row::read(&b), Ok(r));
    b.push(0);
    assert_eq!(Row::read(&b), Err(ReadError::Malformed));
}

#[test]
fn read_rejects_bad_tag() {
    let r = Row { primary: 1, secondary: vec![None], data: vec![] };
    let mut b = r.write().unwrap();
    b[16] = 2;
    assert_eq!(Row::read(&b), Err(ReadError::Malformed));
}

#[test]
fn read_rejects_huge_slot_count() {
    let mut b = vec![0u8; 24];
    b[8..16].copy_from_slice(&u64::MAX.to_le_bytes());
    assert_eq!(Row::read(&b), Err(ReadError::Malformed));
}

#[test]
fn empty_row_encodes_to_header() {
    let r = Row { primary: 0, secondary: vec![], data: vec![] };
    assert_eq!(r.write().unwrap(), vec![0u8; 24]);
    assert_eq!(Row::read(&[0u8; 24]), Ok(r));
}
