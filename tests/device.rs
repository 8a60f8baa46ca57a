use blitzkv::codec::DecodeError;
use blitzkv::device::{SsdDevice, SsdError};
use blitzkv::page::Page;

#[test]
fn test_ssd_device_operations() {
    let mut device = SsdDevice::new(4096).unwrap();

    let mut page = Page::new(0, 4096);
    page.push_entry(b"key1", b"value1").unwrap();
    device.write_page(&mut page).unwrap();

    let _read_page = device.read_page(0).unwrap();

    let metrics = device.metrics();
    assert_eq!(metrics.reads(), 1);
    assert_eq!(metrics.writes(), 1);
    assert!(metrics.read_bytes() > 0);
    assert!(metrics.write_bytes() > 0);
}

#[test]
fn test_invalid_page_size() {
    let result = SsdDevice::new(0);
    assert!(matches!(result, Err(SsdError::InvalidPageSize)));
}

#[test]
fn read_past_end_gives_empty_page() {
    let mut device = SsdDevice::new(512).unwrap();
    let p = device.read_page(7).unwrap();
    assert_eq!(p.id(), 7);
    assert_eq!(p.capacity(), 512);
    assert_eq!(p.iter().count(), 0);
    assert_eq!(device.metrics().read_bytes(), 0);
}

#[test]
fn write_pads_block_to_page_size_and_reads_back() {
    let mut device = SsdDevice::new(512).unwrap();
    let mut page = Page::new(2, 512);
    page.push_entry(b"k", b"v").unwrap();
    device.write_page(&mut page).unwrap();
    let block = device.block_bytes(2);
    assert_eq!(block.len(), 512);
    assert!(block[37..].iter().all(|b| *b == 0));
    assert_eq!(device.metrics().write_bytes(), 512);
    let back = device.read_page(2).unwrap();
    assert_eq!(back.get(0, b"k"), Some(b"v".to_vec()));
    assert_eq!(device.take_written(), vec![2]);
    assert!(device.take_written().is_empty());
    assert_eq!(device.calculate_offset(2), Some(1024));
}

#[test]
fn write_rejects_page_of_other_size() {
    let mut device = SsdDevice::new(512).unwrap();
    let mut page = Page::new(0, 1024);
    assert!(matches!(device.write_page(&mut page), Err(SsdError::InvalidPageSize)));
    assert_eq!(device.metrics().writes(), 0);
}

#[test]
fn corrupted_block_is_a_decode_error() {
    let mut device = SsdDevice::new(256).unwrap();
    let mut page = Page::new(0, 256);
    page.push_entry(b"key", b"value").unwrap();
    device.write_page(&mut page).unwrap();
    let mut block = device.block_bytes(0);
    block[40] ^= 0x01;
    let mut reopened = SsdDevice::from_blocks(256, vec![block]).unwrap();
    assert!(matches!(
        reopened.read_page(0),
        Err(SsdError::Decode(DecodeError::ChecksumMismatch))
    ));
}

#[test]
fn page_id_beyond_addressable_blocks() {
    let mut device = SsdDevice::new(512).unwrap();
    let mut page = Page::new(u64::MAX, 512);
    assert!(matches!(device.write_page(&mut page), Err(SsdError::InvalidPageId)));
    assert_eq!(device.calculate_offset(u64::MAX), None);
}
