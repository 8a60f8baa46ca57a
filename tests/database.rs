use blitzkv::database::{Database, DatabaseError};
use blitzkv::device::SsdDevice;
use blitzkv::hotness::{decay_frequency, FREQ_ONE};

fn db(page_size: u32, hot_threshold: u32, cache: usize) -> Database {
    Database::with_cache_capacity(SsdDevice::new(page_size).unwrap(), hot_threshold, cache).unwrap()
}

#[test]
fn basic_set_get() {
    let mut d = Database::new(SsdDevice::new(4096).unwrap(), 3).unwrap();
    d.set(b"name", b"BlitzKV").unwrap();
    d.set(b"type", b"KV").unwrap();
    assert_eq!(d.get(b"name").unwrap(), b"BlitzKV".to_vec());
    assert_eq!(d.get(b"type").unwrap(), b"KV".to_vec());
    assert!(matches!(d.get(b"absent"), Err(DatabaseError::KeyNotFound)));
    assert_eq!(d.len(), 2);
    assert!(!d.is_empty());
}

#[test]
fn bin_packing_of_small_entries() {
    let mut d = db(4096, 3, 50);
    for i in 0..400 {
        let k = format!("k{:03}", i);
        let v = format!("v{:03}....", i);
        assert_eq!(v.len(), 8);
        d.set(k.as_bytes(), v.as_bytes()).unwrap();
    }
    // 203 entries of 20 bytes fit into the 4069 free bytes of a page
    assert_eq!(d.page_manager().page_count(), 2);
    for i in 0..400 {
        let k = format!("k{:03}", i);
        let v = format!("v{:03}....", i);
        assert_eq!(d.get(k.as_bytes()).unwrap(), v.into_bytes());
    }
    assert_eq!(d.len(), 400);
}

#[test]
fn overflow_is_storage_full() {
    let mut d = db(64, 3, 50);
    // 8 + 10 + 62 = 80 bytes
    assert!(matches!(d.set(b"0123456789", &[0u8; 62]), Err(DatabaseError::StorageFull)));
    assert!(d.is_empty());
}

#[test]
fn hot_keys_move_to_hot_pages() {
    let mut d = db(4096, 2, 50);
    let now = 1_000;
    for i in 0..100 {
        let k = format!("key{:03}", i);
        d.set_at(k.as_bytes(), b"cold-value", now).unwrap();
    }
    for i in 0..10 {
        let k = format!("key{:03}", i);
        for _ in 0..5 {
            d.get_at(k.as_bytes(), now).unwrap();
        }
    }
    for i in 0..10 {
        let k = format!("key{:03}", i);
        d.set_at(k.as_bytes(), b"hot-value", now).unwrap();
        let loc = d.metadata(k.as_bytes()).unwrap().location;
        assert!(d.page_manager().page_metrics(loc.page_id).unwrap().is_hot);
    }
    let cold = d.metadata(b"key050").unwrap().location;
    assert!(!d.page_manager().page_metrics(cold.page_id).unwrap().is_hot);
    assert_eq!(d.get_at(b"key003", now).unwrap(), b"hot-value".to_vec());
    assert_eq!(d.get_at(b"key050", now).unwrap(), b"cold-value".to_vec());
}

#[test]
fn lru_cache_of_two_pages() {
    let mut d = db(64, 3, 2);
    // 8 + 2 + 20 = 30 bytes: one entry per 64-byte page
    let keys: Vec<Vec<u8>> = (0..4).map(|i| format!("k{}", i).into_bytes()).collect();
    for k in &keys {
        d.set_at(k, &[1u8; 20], 0).unwrap();
    }
    assert_eq!(d.page_manager().page_count(), 4);
    for k in &keys {
        d.get_at(k, 0).unwrap();
    }
    assert_eq!((d.hit_count(), d.miss_count()), (0, 4));
    d.get_at(&keys[0], 0).unwrap();
    assert_eq!((d.hit_count(), d.miss_count()), (0, 5));
    d.get_at(&keys[0], 0).unwrap();
    assert_eq!((d.hit_count(), d.miss_count()), (1, 5));
}

#[test]
fn round_trip_survives_other_writes() {
    let mut d = db(4096, 3, 50);
    d.set_at(b"k", b"v", 0).unwrap();
    d.set_at(b"other", b"x", 0).unwrap();
    d.set_at(b"more", b"y", 0).unwrap();
    assert_eq!(d.get_at(b"k", 0).unwrap(), b"v".to_vec());
}

#[test]
fn last_writer_wins() {
    let mut d = db(4096, 3, 50);
    d.set_at(b"k", b"v1", 0).unwrap();
    d.set_at(b"k", b"v2", 0).unwrap();
    assert_eq!(d.get_at(b"k", 0).unwrap(), b"v2".to_vec());
    assert_eq!(d.len(), 1);
}

#[test]
fn keys_are_sorted_bytewise() {
    let mut d = db(4096, 3, 50);
    for k in [&b"b"[..], b"a", b"ab", b"\xff", b"B", b"a"] {
        d.set_at(k, b"v", 0).unwrap();
    }
    let keys = d.keys();
    assert_eq!(
        keys,
        vec![b"B".to_vec(), b"a".to_vec(), b"ab".to_vec(), b"b".to_vec(), b"\xff".to_vec()]
    );
    assert_eq!(d.len(), 5);
}

#[test]
fn failed_set_keeps_contents() {
    let mut d = db(64, 3, 50);
    d.set_at(b"k", b"v", 0).unwrap();
    assert!(matches!(d.set_at(b"k", &[0u8; 40], 0), Err(DatabaseError::StorageFull)));
    assert_eq!(d.get_at(b"k", 0).unwrap(), b"v".to_vec());
}

#[test]
fn same_second_accesses_add_one_each() {
    let mut d = db(4096, 3, 50);
    d.set_at(b"k", b"v", 500).unwrap();
    assert_eq!(d.metadata(b"k").unwrap().freq_accessed, FREQ_ONE);
    d.get_at(b"k", 500).unwrap();
    assert_eq!(d.metadata(b"k").unwrap().freq_accessed, 2 * FREQ_ONE);
    d.get_at(b"k", 500).unwrap();
    assert_eq!(d.metadata(b"k").unwrap().freq_accessed, 3 * FREQ_ONE);
    assert_eq!(d.metadata(b"k").unwrap().last_access, 500);
}

#[test]
fn frequency_decays_over_time() {
    assert_eq!(decay_frequency(FREQ_ONE, 0), FREQ_ONE);
    assert_eq!(decay_frequency(FREQ_ONE, 1), 53656);
    assert_eq!(decay_frequency(FREQ_ONE, 2), 53656 * 53656 / 65536);
    assert_eq!(decay_frequency(FREQ_ONE, 1_000_000), 0);
    let mut d = db(4096, 3, 50);
    d.set_at(b"k", b"v", 100).unwrap();
    d.get_at(b"k", 101).unwrap();
    assert_eq!(d.metadata(b"k").unwrap().freq_accessed, 53656 + FREQ_ONE);
    // a clock that went back counts as no time elapsed
    d.get_at(b"k", 50).unwrap();
    assert_eq!(d.metadata(b"k").unwrap().freq_accessed, 53656 + 2 * FREQ_ONE);
}

#[test]
fn rewrites_record_frequencies() {
    let mut d = db(4096, 3, 50);
    d.set_at(b"k", b"v", 0).unwrap();
    assert_eq!(d.freq_histogram().samples.len(), 0);
    d.set_at(b"k", b"w", 0).unwrap();
    assert_eq!(d.freq_histogram().samples.len(), 1);
    assert_eq!(d.freq_histogram().samples.max(), 2);
}

#[test]
fn written_blocks_hold_the_pages() {
    let mut d = db(256, 3, 50);
    d.set_at(b"k", b"v", 0).unwrap();
    let blocks = d.take_written_blocks();
    assert_eq!(blocks.len(), 1);
    assert_eq!(blocks[0].0, 0);
    assert_eq!(blocks[0].1.len(), 256);
    assert_eq!(&blocks[0].1[0..7], b"blitzkv");
    assert!(d.take_written_blocks().is_empty());
    let metrics = d.get_page_metrics();
    assert_eq!(metrics.len(), 1);
    assert_eq!(metrics[0].free_space as usize, 256 - 27 - 10);
    assert_eq!(d.metrics().writes(), 1);
}

#[test]
fn page_report_lists_keys_by_page() {
    let mut d = db(64, 3, 50);
    // page 0 keeps 9 free bytes after k0, page 1 keeps 7 after k1
    d.set_at(b"k0", &[1u8; 18], 7).unwrap();
    d.set_at(b"k1", &[1u8; 20], 8).unwrap();
    d.set_at(b"a", b"", 9).unwrap();
    let report = d.page_report();
    assert_eq!(report.len(), 2);
    assert_eq!(report[0].metrics.page_id, 0);
    let keys0: Vec<Vec<u8>> = report[0].objects.iter().map(|o| o.key.clone()).collect();
    assert_eq!(keys0, vec![b"a".to_vec(), b"k0".to_vec()]);
    assert_eq!(report[1].objects.len(), 1);
    assert_eq!(report[1].objects[0].key, b"k1".to_vec());
    assert_eq!(report[1].objects[0].meta.last_access, 8);
    assert_eq!(report[1].objects[0].meta.size, 22);
}

#[test]
fn entry_that_exactly_fills_a_page() {
    let mut d = db(64, 3, 50);
    // 27 + 8 + 10 + 19 = 64
    d.set_at(b"0123456789", &[5u8; 19], 0).unwrap();
    assert_eq!(d.get_page_metrics()[0].free_space, 0);
    d.set_at(b"x", b"", 0).unwrap();
    assert_eq!(d.page_manager().page_count(), 2);
    assert_eq!(d.get_at(b"0123456789", 0).unwrap(), vec![5u8; 19]);
}

fn image(blocks: Vec<(u64, Vec<u8>)>) -> Vec<Vec<u8>> {
    let mut image: Vec<Vec<u8>> = Vec::new();
    for (pid, bytes) in blocks {
        let i = pid as usize;
        if image.len() <= i {
            image.resize(i + 1, Vec::new());
        }
        image[i] = bytes;
    }
    image
}

#[test]
fn reopen_finds_persisted_values() {
    let mut d = db(64, 3, 50);
    // one 30-byte entry per 64-byte page
    for i in 0..4u8 {
        d.set_at(&[b'k', b'0' + i], &[i; 20], 0).unwrap();
    }
    let blocks = image(d.take_written_blocks());
    assert_eq!(blocks.len(), 4);
    let device = SsdDevice::from_blocks(64, blocks).unwrap();
    let mut reopened = Database::with_cache_capacity(device, 3, 50).unwrap();
    assert_eq!(reopened.len(), 4);
    assert_eq!(reopened.page_manager().page_count(), 4);
    for i in 0..4u8 {
        assert_eq!(reopened.get_at(&[b'k', b'0' + i], 0).unwrap(), vec![i; 20]);
    }
    // new entries go after the recovered pages
    reopened.set_at(b"new", &[9u8; 20], 0).unwrap();
    assert_eq!(reopened.metadata(b"new").unwrap().location.page_id, 4);
}

#[test]
fn reopen_rejects_a_corrupted_block() {
    let mut d = db(256, 3, 50);
    d.set_at(b"key", b"value", 0).unwrap();
    let mut blocks = image(d.take_written_blocks());
    blocks[0][40] ^= 0x01;
    let device = SsdDevice::from_blocks(256, blocks).unwrap();
    assert!(matches!(
        Database::with_cache_capacity(device, 3, 50),
        Err(DatabaseError::InvalidData)
    ));
}

#[test]
fn rewrite_removes_the_older_entry() {
    let mut d = db(4096, 3, 50);
    d.set_at(b"a", b"1", 0).unwrap();
    d.set_at(b"b", b"2", 0).unwrap();
    let free_before = d.get_page_metrics()[0].free_space;
    d.set_at(b"a", b"3", 0).unwrap();
    // the older entry of "a" left page 0, so "b" moved down and "a" is last
    assert_eq!(d.get_page_metrics()[0].free_space, free_before - 10 + 10);
    assert_eq!(d.metadata(b"b").unwrap().location.page_index, 0);
    assert_eq!(d.metadata(b"a").unwrap().location.page_index, 1);
    assert_eq!(d.get_at(b"a", 0).unwrap(), b"3".to_vec());
    assert_eq!(d.get_at(b"b", 0).unwrap(), b"2".to_vec());
}

#[test]
fn reopen_after_rewrites_finds_last_values() {
    // 64-byte pages: a 20-byte value fills most of a page, a 1-byte value fits anywhere
    let mut d = db(64, 3, 50);
    d.set_at(b"k0", &[1u8; 20], 0).unwrap();
    d.set_at(b"k1", &[2u8; 20], 0).unwrap();
    d.set_at(b"k1", b"x", 0).unwrap();
    d.set_at(b"k0", b"y", 0).unwrap();
    let blocks = image(d.take_written_blocks());
    let device = SsdDevice::from_blocks(64, blocks).unwrap();
    let mut reopened = Database::with_cache_capacity(device, 3, 50).unwrap();
    assert_eq!(reopened.len(), 2);
    assert_eq!(reopened.get_at(b"k0", 0).unwrap(), b"y".to_vec());
    assert_eq!(reopened.get_at(b"k1", 0).unwrap(), b"x".to_vec());
}
