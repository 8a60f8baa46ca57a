//! In-memory pages: an ordered vector of key/value entries with a byte budget.
use vstd::prelude::*;

use vstd::bytes::*;

use crate::bytes::{bytes_eq, copy_range};
use crate::codec::{
    checksum, crc32_of, decode, enc_entries, enc_entry, encode, lemma_parse_entries,
    lemma_parse_entries_none, le32, magic, parse_entries, parse_entry, payload, read32, DecodeError,
};

verus! {

/// Bytes of the page header: magic, id, capacity and checksum.
pub const HEADER_SIZE: usize = 23;

/// Bytes of an empty page: the header and the entry count.
pub const EMPTY_PAGE_SIZE: usize = 27;

/// Per-entry overhead: the key length and the value length.
pub const ENTRY_OVERHEAD: usize = 8;

/// What a page holds, as mathematical values.
pub struct PageModel {
    pub id: u64,
    pub capacity: u32,
    pub entries: Seq<(Seq<u8>, Seq<u8>)>,
}

/// Serialized size of one entry.
pub open spec fn entry_size(e: (Seq<u8>, Seq<u8>)) -> nat {
    8 + e.0.len() + e.1.len()
}

/// Serialized size of a sequence of entries.
pub open spec fn entries_size(es: Seq<(Seq<u8>, Seq<u8>)>) -> nat
    decreases es.len(),
{
    if es.len() == 0 {
        0
    } else {
        entries_size(es.drop_last()) + entry_size(es.last())
    }
}

/// Serialized size of a page: header, entry count and entries.
pub open spec fn model_size(m: PageModel) -> nat {
    27 + entries_size(m.entries)
}

/// Free bytes of a page; zero when a page is over its budget.
pub open spec fn model_free(m: PageModel) -> nat {
    if model_size(m) <= m.capacity {
        (m.capacity - model_size(m)) as nat
    } else {
        0
    }
}

/// Whether an entry of this key and value fits into the page.
pub open spec fn fits(m: PageModel, k: Seq<u8>, v: Seq<u8>) -> bool {
    model_size(m) + 8 + k.len() + v.len() <= m.capacity
}

/// Index of the first entry with key `k`, or -1.
pub open spec fn first_key_index(es: Seq<(Seq<u8>, Seq<u8>)>, k: Seq<u8>) -> int
    decreases es.len(),
{
    if es.len() == 0 {
        -1
    } else {
        let j = first_key_index(es.drop_last(), k);
        if j >= 0 {
            j
        } else if es.last().0 == k {
            es.len() - 1
        } else {
            -1
        }
    }
}

/// The bytes of an optional vector.
pub open spec fn opt_bytes(o: Option<Vec<u8>>) -> Option<Seq<u8>> {
    match o {
        Some(v) => Some(v@),
        None => None,
    }
}

/// Lookup of a key: the entry at `idx` when its key is `k`, else the first entry with key `k`.
pub open spec fn model_get(m: PageModel, idx: int, k: Seq<u8>) -> Option<Seq<u8>> {
    if 0 <= idx < m.entries.len() && m.entries[idx].0 == k {
        Some(m.entries[idx].1)
    } else if first_key_index(m.entries, k) >= 0 {
        Some(m.entries[first_key_index(m.entries, k)].1)
    } else {
        None
    }
}

/// A page that can be serialized: lengths and the entry count fit their 32-bit fields.
pub open spec fn model_encodable(m: PageModel) -> bool {
    &&& m.entries.len() <= u32::MAX
    &&& forall|i: int|
        0 <= i < m.entries.len() ==> #[trigger] m.entries[i].0.len() <= u32::MAX
            && m.entries[i].1.len() <= u32::MAX
    &&& model_size(m) <= usize::MAX
}

pub proof fn lemma_entries_size_take(es: Seq<(Seq<u8>, Seq<u8>)>, i: int)
    requires
        0 <= i < es.len(),
    ensures
        entries_size(es.take(i + 1)) == entries_size(es.take(i)) + entry_size(es[i]),
{
    assert(es.take(i + 1).drop_last() =~= es.take(i));
}

pub proof fn lemma_entries_size_push(es: Seq<(Seq<u8>, Seq<u8>)>, e: (Seq<u8>, Seq<u8>))
    ensures
        entries_size(es.push(e)) == entries_size(es) + entry_size(e),
{
    assert(es.push(e).drop_last() =~= es);
}

pub proof fn lemma_entries_size_concat(a: Seq<(Seq<u8>, Seq<u8>)>, b: Seq<(Seq<u8>, Seq<u8>)>)
    ensures
        entries_size(a + b) == entries_size(a) + entries_size(b),
    decreases b.len(),
{
    if b.len() > 0 {
        assert((a + b).drop_last() =~= a + b.drop_last());
        lemma_entries_size_concat(a, b.drop_last());
    } else {
        assert(a + b =~= a);
    }
}

pub proof fn lemma_entries_size_bound(es: Seq<(Seq<u8>, Seq<u8>)>, i: int)
    requires
        0 <= i < es.len(),
    ensures
        entries_size(es) >= entry_size(es[i]) + entries_size(es.take(i)),
    decreases es.len(),
{
    if i < es.len() - 1 {
        lemma_entries_size_bound(es.drop_last(), i);
        assert(es.drop_last().take(i) =~= es.take(i));
    } else {
        assert(es.drop_last() =~= es.take(i));
    }
}

pub proof fn lemma_first_key_index(es: Seq<(Seq<u8>, Seq<u8>)>, k: Seq<u8>)
    ensures
        first_key_index(es, k) == -1 <==> forall|j: int| 0 <= j < es.len() ==> es[j].0 != k,
        first_key_index(es, k) >= 0 ==> {
            let i = first_key_index(es, k);
            &&& 0 <= i < es.len()
            &&& es[i].0 == k
            &&& forall|j: int| 0 <= j < i ==> es[j].0 != k
        },
        first_key_index(es, k) >= -1,
    decreases es.len(),
{
    if es.len() > 0 {
        lemma_first_key_index(es.drop_last(), k);
        if first_key_index(es.drop_last(), k) == -1 && es.last().0 != k {
            assert forall|j: int| 0 <= j < es.len() implies es[j].0 != k by {
                if j < es.len() - 1 {
                    assert(es[j] == es.drop_last()[j]);
                }
            }
        }
        if first_key_index(es.drop_last(), k) >= 0 {
            let i = first_key_index(es.drop_last(), k);
            assert(es[i] == es.drop_last()[i]);
            assert forall|j: int| 0 <= j < i implies es[j].0 != k by {
                assert(es[j] == es.drop_last()[j]);
            }
        }
        if first_key_index(es.drop_last(), k) == -1 {
            assert forall|j: int| 0 <= j < es.len() - 1 implies es[j].0 != k by {
                assert(es[j] == es.drop_last()[j]);
            }
        }
    }
}

/// One key/value record of a page.
#[derive(Debug)]
pub struct Entry {
    key: Vec<u8>,
    value: Vec<u8>,
}

impl View for Entry {
    type V = (Seq<u8>, Seq<u8>);

    closed spec fn view(&self) -> (Seq<u8>, Seq<u8>) {
        (self.key@, self.value@)
    }
}

impl Entry {
    pub fn key(&self) -> (r: &[u8])
        ensures
            r@ == self@.0,
    {
        self.key.as_slice()
    }

    pub fn value(&self) -> (r: &[u8])
        ensures
            r@ == self@.1,
    {
        self.value.as_slice()
    }

    fn total_size(&self) -> (r: usize)
        requires
            entry_size(self@) <= usize::MAX,
        ensures
            r == entry_size(self@),
    {
        ENTRY_OVERHEAD + self.key.len() + self.value.len()
    }
}

#[derive(Debug)]
struct PageHeader {
    id: u64,
    size: u32,
    crc32: u32,
}

/// A page: a header and an ordered sequence of entries.
#[derive(Debug)]
pub struct Page {
    header: PageHeader,
    data: Vec<Entry>,
    current_size: usize,
}

impl View for Page {
    type V = PageModel;

    closed spec fn view(&self) -> PageModel {
        PageModel {
            id: self.header.id,
            capacity: self.header.size,
            entries: self.data@.map_values(|e: Entry| e@),
        }
    }
}

impl Page {
    /// The page's size field agrees with its entries, and the page can be serialized.
    pub closed spec fn wf(&self) -> bool {
        &&& self.current_size == model_size(self@)
        &&& model_encodable(self@)
    }

    /// The stored checksum, as last computed by serialization.
    pub closed spec fn stored_crc(&self) -> u32 {
        self.header.crc32
    }

    /// A well-formed page can be serialized.
    pub proof fn lemma_encodable(&self)
        requires
            self.wf(),
        ensures
            model_encodable(self@),
            model_size(self@) >= 27,
    {
    }

    pub fn new(id: u64, size: u32) -> (r: Page)
        ensures
            r.wf(),
            r@ == (PageModel { id, capacity: size, entries: Seq::empty() }),
    {
        let r = Page {
            header: PageHeader { id, size, crc32: 0 },
            data: Vec::new(),
            current_size: EMPTY_PAGE_SIZE,
        };
        assert(r@.entries =~= Seq::<(Seq<u8>, Seq<u8>)>::empty());
        r
    }

    pub fn size(&self) -> (r: usize)
        requires
            self.wf(),
        ensures
            r == model_size(self@),
    {
        self.current_size
    }

    pub fn capacity(&self) -> (r: usize)
        ensures
            r == self@.capacity,
    {
        self.header.size as usize
    }

    pub fn entry_count(&self) -> (r: usize)
        ensures
            r == self@.entries.len(),
    {
        self.data.len()
    }

    pub fn entry(&self, i: usize) -> (r: &Entry)
        requires
            i < self@.entries.len(),
        ensures
            r@ == self@.entries[i as int],
    {
        &self.data[i]
    }

    /// The entries in order.
    pub fn iter(&self) -> (r: std::slice::Iter<'_, Entry>)
        ensures
            vstd::std_specs::slice::into_iter_elts(r).len() == self@.entries.len(),
            forall|i: int|
                0 <= i < self@.entries.len() ==> #[trigger] vstd::std_specs::slice::into_iter_elts(r)[i]@
                    == self@.entries[i],
    {
        self.data.as_slice().iter()
    }

    pub fn id(&self) -> (r: u64)
        ensures
            r == self@.id,
    {
        self.header.id
    }

    /// Bytes still available for entries.
    pub fn free_space(&self) -> (r: u32)
        requires
            self.wf(),
        ensures
            r == model_free(self@),
    {
        if self.current_size <= self.header.size as usize {
            (self.header.size as usize - self.current_size) as u32
        } else {
            0
        }
    }

    /// Serializes the page and records the checksum in its header.
    pub fn to_bytes(&mut self) -> (r: Vec<u8>)
        requires
            old(self).wf(),
        ensures
            final(self).wf(),
            final(self)@ == old(self)@,
            final(self).stored_crc() == crc32_of(payload(old(self)@)),
            r@ == encode(old(self)@),
            r@.len() == model_size(old(self)@),
    {
        let n = self.data.len();
        let ghost es = self@.entries;
        let mut body = u32_to_le_bytes(n as u32);
        let mut i: usize = 0;
        proof {
            assert(es.take(0) =~= Seq::<(Seq<u8>, Seq<u8>)>::empty());
            assert(body@ =~= le32(n as u32) + enc_entries(es.take(0)));
        }
        while i < n
            invariant
                self.wf(),
                es == self@.entries,
                n == self.data@.len(),
                0 <= i <= n,
                body@ == le32(n as u32) + enc_entries(es.take(i as int)),
            decreases n - i,
        {
            let e = &self.data[i];
            assert(es[i as int] == e@);
            assert(es[i as int].0.len() <= u32::MAX && es[i as int].1.len() <= u32::MAX);
            let mut a = u32_to_le_bytes(e.key.len() as u32);
            body.append(&mut a);
            let mut b = u32_to_le_bytes(e.value.len() as u32);
            body.append(&mut b);
            let ksl = e.key.as_slice();
            let mut k = copy_range(ksl, 0, ksl.len());
            assert(k@ =~= ksl@);
            body.append(&mut k);
            let vsl = e.value.as_slice();
            let mut v = copy_range(vsl, 0, vsl.len());
            assert(v@ =~= vsl@);
            body.append(&mut v);
            proof {
                assert(es.take(i + 1).drop_last() =~= es.take(i as int));
                assert(enc_entries(es.take(i + 1)) == enc_entries(es.take(i as int)) + enc_entry(
                    es[i as int],
                ));
                assert(body@ =~= le32(n as u32) + enc_entries(es.take(i + 1)));
            }
            i = i + 1;
        }
        proof {
            assert(es.take(n as int) =~= es);
            assert(body@ == payload(self@));
            crate::codec::lemma_enc_entries_len(es);
            lemma_auto_spec_u32_to_from_le_bytes();
        }
        let crc = checksum(body.as_slice(), 0, body.len());
        assert(body@.subrange(0, body@.len() as int) =~= body@);
        self.header.crc32 = crc;
        let mut out: Vec<u8> = Vec::new();
        out.push(98u8);
        out.push(108u8);
        out.push(105u8);
        out.push(116u8);
        out.push(122u8);
        out.push(107u8);
        out.push(118u8);
        assert(out@ =~= magic());
        let mut idb = u64_to_le_bytes(self.header.id);
        out.append(&mut idb);
        let mut capb = u32_to_le_bytes(self.header.size);
        out.append(&mut capb);
        let mut crcb = u32_to_le_bytes(crc);
        out.append(&mut crcb);
        out.append(&mut body);
        proof {
            lemma_auto_spec_u64_to_from_le_bytes();
        }
        assert(out@ =~= encode(self@));
        out
    }

    /// Parses a page from a buffer: the magic, the entries, and the checksum are checked.
    pub fn read_from_buffer(buf: &[u8]) -> (r: Result<Page, DecodeError>)
        ensures
            r is Ok <==> decode(buf@) is Ok,
            r is Ok ==> r.unwrap().wf() && r.unwrap()@ == decode(buf@).unwrap(),
            r is Err ==> decode(buf@) == Err::<PageModel, DecodeError>(r->Err_0),
    {
        if buf.len() < EMPTY_PAGE_SIZE {
            return Err(DecodeError::Truncated);
        }
        proof {
            let h = buf@.subrange(0, 7);
            assert(h[0] == buf@[0] && h[1] == buf@[1] && h[2] == buf@[2] && h[3] == buf@[3]
                && h[4] == buf@[4] && h[5] == buf@[5] && h[6] == buf@[6]);
        }
        if !(buf[0] == 98u8 && buf[1] == 108u8 && buf[2] == 105u8 && buf[3] == 116u8 && buf[4]
            == 122u8 && buf[5] == 107u8 && buf[6] == 118u8) {
            return Err(DecodeError::BadMagic);
        }
        assert(buf@.subrange(0, 7) =~= magic());
        let id = u64_from_le_bytes(&buf[7..15]);
        let cap = u32_from_le_bytes(&buf[15..19]);
        let crc = u32_from_le_bytes(&buf[19..23]);
        let n = u32_from_le_bytes(&buf[23..27]);
        let mut data: Vec<Entry> = Vec::new();
        let mut off: usize = EMPTY_PAGE_SIZE;
        let mut i: u32 = 0;
        proof {
            assert(data@.map_values(|e: Entry| e@) =~= Seq::<(Seq<u8>, Seq<u8>)>::empty());
        }
        while i < n
            invariant
                buf@.len() >= 27,
                buf@.subrange(0, 7) == magic(),
                n == read32(buf@, 23),
                i <= n,
                off <= buf@.len(),
                parse_entries(buf@, i as nat) == Some::<(Seq<(Seq<u8>, Seq<u8>)>, int)>(
                    (data@.map_values(|e: Entry| e@), off as int),
                ),
            decreases n - i,
        {
            let ghost prev = data@.map_values(|e: Entry| e@);
            if buf.len() - off < ENTRY_OVERHEAD {
                proof {
                    assert(parse_entry(buf@, off as int) is None);
                    lemma_parse_entries_none(buf@, (i + 1) as nat, n as nat);
                }
                return Err(DecodeError::Truncated);
            }
            let ks = u32_from_le_bytes(&buf[off..off + 4]) as usize;
            let vs = u32_from_le_bytes(&buf[off + 4..off + 8]) as usize;
            if buf.len() - off - ENTRY_OVERHEAD < ks || buf.len() - off - ENTRY_OVERHEAD - ks < vs {
                proof {
                    assert(parse_entry(buf@, off as int) is None);
                    lemma_parse_entries_none(buf@, (i + 1) as nat, n as nat);
                }
                return Err(DecodeError::Truncated);
            }
            let key = copy_range(buf, off + 8, off + 8 + ks);
            let value = copy_range(buf, off + 8 + ks, off + 8 + ks + vs);
            let e = Entry { key, value };
            data.push(e);
            off = off + 8 + ks + vs;
            i = i + 1;
            proof {
                assert(data@.map_values(|e: Entry| e@) =~= prev.push(e@));
            }
        }
        proof {
            lemma_parse_entries(buf@, n as nat);
        }
        let c = checksum(buf, 23, off);
        if c != crc {
            return Err(DecodeError::ChecksumMismatch);
        }
        let page = Page { header: PageHeader { id, size: cap, crc32: crc }, data, current_size: off };
        assert(page@.entries == data@.map_values(|e: Entry| e@));
        Ok(page)
    }

    /// Position of the first entry whose key is `key`.
    fn find_key(&self, key: &[u8]) -> (r: Option<usize>)
        ensures
            r.is_none() <==> first_key_index(self@.entries, key@) == -1,
            r.is_some() ==> r.unwrap() == first_key_index(self@.entries, key@),
    {
        proof {
            lemma_first_key_index(self@.entries, key@);
        }
        let mut i: usize = 0;
        while i < self.data.len()
            invariant
                0 <= i <= self@.entries.len(),
                self@.entries.len() == self.data@.len(),
                forall|j: int| 0 <= j < i ==> self@.entries[j].0 != key@,
            decreases self.data@.len() - i,
        {
            assert(self@.entries[i as int] == self.data@[i as int]@);
            if bytes_eq(self.data[i].key(), key) {
                assert(self@.entries[i as int].0 == key@);
                proof {
                    lemma_first_key_index(self@.entries, key@);
                }
                let ghost f = first_key_index(self@.entries, key@);
                assert(f >= i as int);
                assert(f <= i as int);
                return Some(i);
            }
            i = i + 1;
        }
        None
    }

    /// The value at `entry_index` when its key is `key`, else the value of the first entry
    /// with that key.
    pub fn get(&self, entry_index: usize, key: &[u8]) -> (r: Option<Vec<u8>>)
        ensures
            opt_bytes(r) == model_get(self@, entry_index as int, key@),
    {
        if entry_index < self.data.len() {
            assert(self@.entries[entry_index as int] == self.data@[entry_index as int]@);
            if bytes_eq(self.data[entry_index].key(), key) {
                let v = self.data[entry_index].value();
                return Some(copy_range(v, 0, v.len()));
            }
        }
        match self.find_key(key) {
            Some(i) => {
                proof {
                    lemma_first_key_index(self@.entries, key@);
                }
                assert(self@.entries[i as int] == self.data@[i as int]@);
                let v = self.data[i].value();
                let r = copy_range(v, 0, v.len());
                assert(r@ =~= v@);
                Some(r)
            },
            None => None,
        }
    }

    /// Removes the first entry whose key is `key`; later entries move down one position.
    pub fn remove_entry(&mut self, key: &[u8]) -> (r: bool)
        requires
            old(self).wf(),
        ensures
            final(self).wf(),
            r == (first_key_index(old(self)@.entries, key@) >= 0),
            r ==> final(self)@ == (PageModel {
                entries: old(self)@.entries.remove(first_key_index(old(self)@.entries, key@)),
                ..old(self)@
            }),
            !r ==> final(self)@ == old(self)@,
    {
        match self.find_key(key) {
            None => false,
            Some(i) => {
                proof {
                    lemma_first_key_index(self@.entries, key@);
                }
                self.remove_at(i);
                true
            },
        }
    }

    /// Removes the entry at position `i`; later entries move down one position.
    pub fn remove_at(&mut self, i: usize)
        requires
            old(self).wf(),
            i < old(self)@.entries.len(),
        ensures
            final(self).wf(),
            final(self)@ == (PageModel { entries: old(self)@.entries.remove(i as int), ..old(self)@ }),
            model_size(final(self)@) == model_size(old(self)@) - entry_size(old(self)@.entries[i as int]),
    {
        let ghost es = self@.entries;
        assert(es[i as int] == self.data@[i as int]@);
        proof {
            lemma_entries_size_bound(es, i as int);
        }
        let removed = self.data.remove(i);
        let sz = removed.total_size();
        self.current_size = self.current_size - sz;
        proof {
            assert(self@.entries =~= es.remove(i as int));
            assert(es =~= es.take(i as int) + seq![es[i as int]] + es.skip(i + 1));
            assert(es.remove(i as int) =~= es.take(i as int) + es.skip(i + 1));
            lemma_entries_size_concat(es.take(i as int) + seq![es[i as int]], es.skip(i + 1));
            lemma_entries_size_concat(es.take(i as int), seq![es[i as int]]);
            lemma_entries_size_concat(es.take(i as int), es.skip(i + 1));
            lemma_entries_size_push(Seq::empty(), es[i as int]);
            assert(seq![es[i as int]] =~= Seq::<(Seq<u8>, Seq<u8>)>::empty().push(es[i as int]));
            let rest = self@.entries;
            assert forall|j: int| 0 <= j < rest.len() implies #[trigger] rest[j].0.len()
                <= u32::MAX && rest[j].1.len() <= u32::MAX by {
                if j < i {
                    assert(rest[j] == es[j]);
                    assert(es[j].0.len() <= u32::MAX && es[j].1.len() <= u32::MAX);
                } else {
                    assert(rest[j] == es[j + 1]);
                    assert(es[j + 1].0.len() <= u32::MAX && es[j + 1].1.len() <= u32::MAX);
                }
            }
        }
    }

    /// Appends an entry when it fits; returns its position.
    pub fn push_entry(&mut self, key: &[u8], value: &[u8]) -> (r: Option<usize>)
        requires
            old(self).wf(),
        ensures
            final(self).wf(),
            fits(old(self)@, key@, value@) ==> r == Some(old(self)@.entries.len() as usize)
                && final(self)@ == (PageModel {
                entries: old(self)@.entries.push((key@, value@)),
                ..old(self)@
            }),
            fits(old(self)@, key@, value@) ==> model_size(final(self)@) == model_size(old(self)@) + 8
                + key@.len() + value@.len() && model_size(final(self)@) <= final(self)@.capacity,
            !fits(old(self)@, key@, value@) ==> r.is_none() && final(self)@ == old(self)@,
    {
        let cap = self.header.size as usize;
        if cap < self.current_size {
            return None;
        }
        let room = cap - self.current_size;
        if room < ENTRY_OVERHEAD || room - ENTRY_OVERHEAD < key.len() || room - ENTRY_OVERHEAD
            - key.len() < value.len() {
            return None;
        }
        let index = self.data.len();
        let ghost old_view = self@;
        let k = copy_range(key, 0, key.len());
        let v = copy_range(value, 0, value.len());
        assert(k@ =~= key@ && v@ =~= value@);
        self.data.push(Entry { key: k, value: v });
        self.current_size = self.current_size + ENTRY_OVERHEAD + key.len() + value.len();
        proof {
            assert(self@.entries =~= old_view.entries.push((key@, value@)));
            lemma_entries_size_push(old_view.entries, (key@, value@));
            assert forall|i: int| 0 <= i < self@.entries.len() implies #[trigger] self@.entries[
                i].0.len() <= u32::MAX && self@.entries[i].1.len() <= u32::MAX by {
                if i < old_view.entries.len() {
                    assert(self@.entries[i] == old_view.entries[i]);
                }
            }
            assert(old_view.entries.len() <= model_size(old_view)) by {
                lemma_entries_count_bound(old_view.entries);
            }
        }
        Some(index)
    }
}

pub proof fn lemma_entries_count_bound(es: Seq<(Seq<u8>, Seq<u8>)>)
    ensures
        8 * es.len() <= entries_size(es),
    decreases es.len(),
{
    if es.len() > 0 {
        lemma_entries_count_bound(es.drop_last());
    }
}

} // verus!
