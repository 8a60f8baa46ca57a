use blitzkv::codec::DecodeError;
use blitzkv::page::Page;

#[test]
fn new_page_is_empty() {
    let p = Page::new(3, 4096);
    assert_eq!(p.id(), 3);
    assert_eq!(p.capacity(), 4096);
    assert_eq!(p.size(), 27);
    assert_eq!(p.free_space(), 4096 - 27);
    assert_eq!(p.iter().count(), 0);
}

#[test]
fn push_entry_returns_positions_and_accounts_size() {
    let mut p = Page::new(0, 4096);
    assert_eq!(p.push_entry(b"key1", b"value1"), Some(0));
    assert_eq!(p.push_entry(b"key2", b"value2"), Some(1));
    assert_eq!(p.size(), 27 + 18 + 18);
    assert_eq!(p.free_space() as usize, 4096 - 63);
    let keys: Vec<&[u8]> = p.iter().map(|e| e.key()).collect();
    assert_eq!(keys, vec![&b"key1"[..], &b"key2"[..]]);
    assert_eq!(p.iter().nth(1).unwrap().value(), b"value2");
}

#[test]
fn push_entry_rejects_entry_over_capacity() {
    let mut p = Page::new(0, 64);
    // 27 + 8 + 10 + 19 = 64 fits exactly; one byte more does not
    assert_eq!(p.push_entry(b"0123456789", &[7u8; 20]), None);
    assert_eq!(p.push_entry(b"0123456789", &[7u8; 19]), Some(0));
    assert_eq!(p.free_space(), 0);
    assert_eq!(p.push_entry(b"k", b""), None);
}

#[test]
fn empty_value_is_allowed() {
    let mut p = Page::new(0, 128);
    assert_eq!(p.push_entry(b"k", b""), Some(0));
    assert_eq!(p.get(0, b"k"), Some(Vec::new()));
}

#[test]
fn get_uses_index_then_falls_back_to_scan() {
    let mut p = Page::new(0, 4096);
    p.push_entry(b"a", b"1");
    p.push_entry(b"b", b"2");
    p.push_entry(b"a", b"3");
    assert_eq!(p.get(2, b"a"), Some(b"3".to_vec()));
    assert_eq!(p.get(1, b"a"), Some(b"1".to_vec()));
    assert_eq!(p.get(99, b"b"), Some(b"2".to_vec()));
    assert_eq!(p.get(0, b"zz"), None);
}

#[test]
fn remove_entry_shifts_later_entries() {
    let mut p = Page::new(0, 4096);
    p.push_entry(b"a", b"1");
    p.push_entry(b"b", b"22");
    p.push_entry(b"c", b"333");
    assert!(p.remove_entry(b"b"));
    assert_eq!(p.size(), 27 + 10 + 12);
    assert_eq!(p.iter().nth(1).unwrap().key(), b"c");
    assert_eq!(p.get(1, b"c"), Some(b"333".to_vec()));
    assert!(!p.remove_entry(b"b"));
}

#[test]
fn to_bytes_layout_and_checksum() {
    let mut p = Page::new(5, 4096);
    p.push_entry(b"key1", b"value1");
    let b = p.to_bytes();
    assert_eq!(b.len(), 27 + 18);
    assert_eq!(&b[0..7], b"blitzkv");
    assert_eq!(u64::from_le_bytes(b[7..15].try_into().unwrap()), 5);
    assert_eq!(u32::from_le_bytes(b[15..19].try_into().unwrap()), 4096);
    let crc = u32::from_le_bytes(b[19..23].try_into().unwrap());
    assert_eq!(crc, crc32fast::hash(&b[23..]));
    assert_ne!(crc, 0);
    assert_eq!(u32::from_le_bytes(b[23..27].try_into().unwrap()), 1);
    assert_eq!(u32::from_le_bytes(b[27..31].try_into().unwrap()), 4);
    assert_eq!(u32::from_le_bytes(b[31..35].try_into().unwrap()), 6);
    assert_eq!(&b[35..39], b"key1");
    assert_eq!(&b[39..45], b"value1");
}

#[test]
fn decode_round_trip_with_padding() {
    let mut p = Page::new(9, 256);
    p.push_entry(b"alpha", b"one");
    p.push_entry(b"beta", b"");
    let mut b = p.to_bytes();
    b.resize(256, 0);
    let q = Page::read_from_buffer(&b).unwrap();
    assert_eq!(q.id(), 9);
    assert_eq!(q.capacity(), 256);
    assert_eq!(q.size(), p.size());
    assert_eq!(q.iter().count(), 2);
    assert_eq!(q.iter().nth(0).unwrap().key(), b"alpha");
    assert_eq!(q.iter().nth(0).unwrap().value(), b"one");
    assert_eq!(q.iter().nth(1).unwrap().key(), b"beta");
    assert_eq!(q.iter().nth(1).unwrap().value(), b"");
}

#[test]
fn decode_rejects_bad_magic() {
    let mut p = Page::new(0, 128);
    let mut b = p.to_bytes();
    b[0] = b'X';
    assert!(matches!(Page::read_from_buffer(&b), Err(DecodeError::BadMagic)));
}

#[test]
fn decode_rejects_corrupted_payload() {
    let mut p = Page::new(0, 128);
    p.push_entry(b"key", b"value");
    let mut b = p.to_bytes();
    b[36] ^= 0xff;
    assert!(matches!(Page::read_from_buffer(&b), Err(DecodeError::ChecksumMismatch)));
}

#[test]
fn decode_rejects_truncated_buffers() {
    assert!(matches!(Page::read_from_buffer(&[0u8; 10]), Err(DecodeError::Truncated)));
    let mut p = Page::new(0, 128);
    p.push_entry(b"key", b"value");
    let b = p.to_bytes();
    assert!(matches!(Page::read_from_buffer(&b[..b.len() - 1]), Err(DecodeError::Truncated)));
}
