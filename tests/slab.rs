use std::cmp::Ordering;
use std::collections::HashMap;

use blitzkv::slab::{decode_record_header, encode_record, FileSlab, Slab, SlabError, Slice};

/// Slot bytes by (slab size, file ordinal), standing in for the slab files.
struct Files {
    data: HashMap<(u64, u64), Vec<u8>>,
}

impl Files {
    fn write(&mut self, fs: &FileSlab, slab: Slab, key: &Slice, value: &Slice) {
        let loc = fs.locate(slab).unwrap();
        let rec = encode_record(key, value).unwrap();
        let file = self.data.entry((loc.slab_size, loc.ordinal)).or_default();
        let end = loc.offset as usize + rec.len();
        if file.len() < end {
            file.resize(end, 0);
        }
        file[loc.offset as usize..end].copy_from_slice(&rec);
    }

    fn read(&self, fs: &FileSlab, slab: Slab) -> Result<(Slice, Slice), SlabError> {
        let loc = fs.locate(slab)?;
        let file = &self.data[&(loc.slab_size, loc.ordinal)];
        let off = loc.offset as usize;
        let (ks, vs) = decode_record_header(&file[off..off + 6])?;
        let key = file[off + 6..off + 6 + ks].to_vec();
        let value = file[off + 6 + ks..off + 6 + ks + vs].to_vec();
        Ok((Slice::from_vec(key), Slice::from_vec(value)))
    }
}

#[test]
fn test_slab_basic() {
    let mut file_slab = FileSlab::new("./slab_data", 2, &[128, 256, 512]);
    let mut files = Files { data: HashMap::new() };

    let key1 = Slice::from_str("key1");
    let value1 = Slice::from_str("value1");
    let key2 = Slice::from_str("key2");
    let value2 = Slice::from_str("value2_longer");

    let slab1 = file_slab.create(&key1, &value1).unwrap();
    files.write(&file_slab, slab1, &key1, &value1);

    let slab2 = file_slab.create(&key2, &value2).unwrap();
    files.write(&file_slab, slab2, &key2, &value2);

    let (read_key1, read_value1) = files.read(&file_slab, slab1).unwrap();
    assert_eq!(read_key1, key1);
    assert_eq!(read_value1, value1);

    let (read_key2, read_value2) = files.read(&file_slab, slab2).unwrap();
    assert_eq!(read_key2, key2);
    assert_eq!(read_value2, value2);

    file_slab.delete(slab1).unwrap();

    let key3 = Slice::from_str("key3");
    let value3 = Slice::from_str("value3");
    let slab3 = file_slab.create(&key3, &value3).unwrap();
    assert_eq!(slab3.index, slab1.index);
    assert_eq!(slab3.file, slab1.file);

    files.write(&file_slab, slab3, &key3, &value3);
    let (read_key3, read_value3) = files.read(&file_slab, slab3).unwrap();
    assert_eq!(read_key3, key3);
    assert_eq!(read_value3, value3);
}

#[test]
fn slab_classes_fill_files_in_turn() {
    let mut fs = FileSlab::new("d", 2, &[16, 64]);
    let k = Slice::from_str("k");
    let v = Slice::from_str("v");
    // each file of a class takes slots 0, 1 and 2 before the next file starts
    let a = fs.create(&k, &v).unwrap();
    let b = fs.create(&k, &v).unwrap();
    let c = fs.create(&k, &v).unwrap();
    let d = fs.create(&k, &v).unwrap();
    assert_eq!((a.size, a.index, a.file), (16, 0, 0));
    assert_eq!((b.index, b.file), (1, 0));
    assert_eq!((c.index, c.file), (2, 0));
    assert_eq!((d.index, d.file), (0, 1));
    let started = fs.take_started_files();
    assert_eq!(started.len(), 2);
    assert_eq!((started[0].file_id, started[0].ordinal), (0, 0));
    assert_eq!((started[1].file_id, started[1].ordinal), (1, 1));
    let big = fs.create(&k, &Slice::from_vec(vec![0u8; 40])).unwrap();
    assert_eq!((big.size, big.index, big.file), (64, 0, 2));
    assert_eq!(fs.locate(d).unwrap().offset, 0);
    assert_eq!(fs.locate(c).unwrap().offset, 32);
    assert_eq!(fs.directory(), "d");
}

#[test]
fn slab_errors() {
    let mut fs = FileSlab::new("d", 4, &[16]);
    let k = Slice::from_str("key");
    assert!(matches!(
        fs.create(&k, &Slice::from_vec(vec![0u8; 8])),
        Err(SlabError::SizeTooLarge)
    ));
    let s = fs.create(&k, &Slice::from_str("v")).unwrap();
    assert!(matches!(
        fs.locate(Slab { size: 32, index: 0, file: 0 }),
        Err(SlabError::SlabSizeNotFound)
    ));
    assert!(matches!(
        fs.locate(Slab { size: 16, index: 0, file: 9 }),
        Err(SlabError::FileNotFound)
    ));
    assert!(matches!(
        fs.delete(Slab { size: 32, index: 0, file: 0 }),
        Err(SlabError::SlabSizeNotFound)
    ));
    assert!(fs.delete(s).is_ok());
    assert!(matches!(
        decode_record_header(&[0, 0, 1, 0, 1, 0]),
        Err(SlabError::InvalidSlab)
    ));
    assert!(FileSlab::valid(1024));
    assert!(!FileSlab::valid(0));
}

#[test]
fn slice_order_and_text() {
    let a = Slice::from_str("ab");
    let b = Slice::from_str("abc");
    let c = Slice::from_str("b");
    assert_eq!(a.compare(&b), Ordering::Less);
    assert_eq!(c.compare(&b), Ordering::Greater);
    assert_eq!(a.compare(&a.deep_copy()), Ordering::Equal);
    assert!(a < b && b < c);
    assert_eq!(a.len(), 2);
    assert_eq!(Slice::from_vec(vec![0x68, 0x69, 0xff]).to_string(), "hi\u{fffd}");
    assert_eq!(encode_record(&a, &c).unwrap(), vec![0, 4, 2, 0, 1, 0, b'a', b'b', b'b']);
}

#[test]
fn slab_offset_overflow() {
    let mut fs = FileSlab::new("d", 4, &[16]);
    let s = fs.create(&Slice::from_str("k"), &Slice::from_str("v")).unwrap();
    let far = Slab { index: u64::MAX, ..s };
    assert!(matches!(fs.locate(far), Err(SlabError::OffsetOverflow)));
}
