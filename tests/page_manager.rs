use blitzkv::device::SsdDevice;
use blitzkv::free_space::FreeSpaceIndex;
use blitzkv::page_manager::{Location, PageManager};

fn manager(page_size: u32, cache: usize) -> PageManager {
    PageManager::new(SsdDevice::new(page_size).unwrap(), cache)
}

#[test]
fn test_page_allocation() {
    let mut manager = manager(4096, 50);

    let key1 = b"key1";
    let value1 = b"value1";
    let location0 = manager.set(key1, value1, false, 0).unwrap().unwrap();

    assert_eq!(location0.page_id, 0);
    assert_eq!(location0.page_index, 0);
    let key2 = b"key2";
    let value2 = b"value2";
    let location1 = manager.set(key2, value2, false, 0).unwrap().unwrap();
    assert_eq!(location1.page_id, 0);
    assert_eq!(location1.page_index, 1);
    assert_eq!(manager.page_count(), 1);
}

#[test]
fn fit_path_reduces_free_space_by_entry_size() {
    let mut m = manager(4096, 50);
    m.set(b"a", b"1", false, 0).unwrap().unwrap();
    let before = m.page_metrics(0).unwrap().free_space;
    let loc = m.set(b"key", b"value", false, 0).unwrap().unwrap();
    assert_eq!(loc, Location { page_id: 0, page_index: 1 });
    let after = m.page_metrics(0).unwrap().free_space;
    assert_eq!(before - after, 3 + 5 + 8);
}

#[test]
fn hot_and_cold_entries_go_to_separate_pages() {
    let mut m = manager(4096, 50);
    let cold = m.set(b"c", b"1", false, 0).unwrap().unwrap();
    let hot = m.set(b"h", b"1", true, 0).unwrap().unwrap();
    assert_ne!(cold.page_id, hot.page_id);
    assert!(m.page_metrics(hot.page_id).unwrap().is_hot);
    assert!(!m.page_metrics(cold.page_id).unwrap().is_hot);
    let hot2 = m.set(b"h2", b"2", true, 0).unwrap().unwrap();
    assert_eq!(hot2.page_id, hot.page_id);
}

#[test]
fn smallest_fit_is_chosen() {
    // page size 100: 73 bytes free in an empty page
    let mut m = manager(100, 50);
    // page 0 keeps 73 - 48 = 25 bytes free
    let a = m.set(b"a", &[0u8; 39], false, 0).unwrap().unwrap();
    // page 1 keeps 73 - 18 = 55 bytes free: the entry does not fit page 0
    let b = m.set(b"b", &[0u8; 39], false, 0).unwrap().unwrap();
    assert_eq!((a.page_id, b.page_id), (0, 1));
    let c = m.set(b"c", &[0u8; 9], false, 0).unwrap().unwrap();
    assert_eq!(c.page_id, 0);
}

#[test]
fn entry_too_large_for_any_page() {
    let mut m = manager(64, 50);
    assert_eq!(m.set(b"0123456789", &[1u8; 62], false, 0).unwrap(), None);
    assert_eq!(m.page_count(), 0);
}

#[test]
fn get_through_cache_counts_hits_and_misses() {
    let mut m = manager(4096, 50);
    let loc = m.set(b"k", b"v", false, 0).unwrap().unwrap();
    assert_eq!(m.get(&loc, b"k", 0).unwrap(), Some(b"v".to_vec()));
    assert_eq!((m.hit_count(), m.miss_count()), (1, 0));
    let missing = Location { page_id: 42, page_index: 0 };
    assert_eq!(m.get(&missing, b"k", 0).unwrap(), None);
    assert_eq!((m.hit_count(), m.miss_count()), (1, 1));
}

#[test]
fn free_space_index_smallest_fit() {
    let mut idx = FreeSpaceIndex::new();
    idx.insert(1, 100);
    idx.insert(2, 40);
    idx.insert(3, 40);
    idx.insert(4, 70);
    assert_eq!(idx.find(30), Some(2));
    assert_eq!(idx.find(41), Some(4));
    assert_eq!(idx.find(101), None);
    idx.remove(2);
    assert_eq!(idx.find(30), Some(3));
    idx.remove(3);
    idx.remove(4);
    assert_eq!(idx.find(30), Some(1));
}
