//! The on-disk page format.
//!
//! ```text
//! offset 0   magic "blitzkv"
//! offset 7   id: u64 LE
//! offset 15  capacity: u32 LE
//! offset 19  crc32: u32 LE over bytes 23 .. end of the last entry
//! offset 23  entry count: u32 LE
//! offset 27  entries: key length u32 LE, value length u32 LE, key, value
//! ```
use vstd::bytes::*;
use vstd::prelude::*;

use crate::page::{entries_size, entry_size, model_size, PageModel};

verus! {

/// Why a byte buffer is not a page.
#[derive(Debug, Clone, Copy, PartialEq, Eq, Structural)]
pub enum DecodeError {
    /// The buffer ends before the header or an entry does.
    Truncated,
    /// The buffer does not start with the magic bytes.
    BadMagic,
    /// The stored checksum differs from the checksum of the payload.
    ChecksumMismatch,
}

/// The CRC-32 (IEEE) checksum of a byte sequence.
pub uninterp spec fn crc32_of(b: Seq<u8>) -> u32;

/// Relies on `crc32fast::hash`: the CRC-32 (IEEE) checksum of the bytes it is given.
#[verifier::external_body]
pub(crate) fn checksum(b: &[u8], start: usize, end: usize) -> (r: u32)
    requires
        start <= end <= b@.len(),
    ensures
        r == crc32_of(b@.subrange(start as int, end as int)),
{
    crc32fast::hash(&b[start..end])
}

/// The magic bytes "blitzkv".
pub open spec fn magic() -> Seq<u8> {
    seq![98u8, 108u8, 105u8, 116u8, 122u8, 107u8, 118u8]
}

pub open spec fn le32(x: u32) -> Seq<u8> {
    spec_u32_to_le_bytes(x)
}

pub open spec fn read32(b: Seq<u8>, off: int) -> u32 {
    spec_u32_from_le_bytes(b.subrange(off, off + 4))
}

pub open spec fn read64(b: Seq<u8>, off: int) -> u64 {
    spec_u64_from_le_bytes(b.subrange(off, off + 8))
}

/// Serialized form of one entry.
pub open spec fn enc_entry(e: (Seq<u8>, Seq<u8>)) -> Seq<u8> {
    le32(e.0.len() as u32) + le32(e.1.len() as u32) + e.0 + e.1
}

/// Serialized form of a sequence of entries.
pub open spec fn enc_entries(es: Seq<(Seq<u8>, Seq<u8>)>) -> Seq<u8>
    decreases es.len(),
{
    if es.len() == 0 {
        Seq::empty()
    } else {
        enc_entries(es.drop_last()) + enc_entry(es.last())
    }
}

/// The checksummed payload: entry count and entries.
pub open spec fn payload(m: PageModel) -> Seq<u8> {
    le32(m.entries.len() as u32) + enc_entries(m.entries)
}

/// Serialized form of a page.
pub open spec fn encode(m: PageModel) -> Seq<u8> {
    magic() + spec_u64_to_le_bytes(m.id) + le32(m.capacity) + le32(crc32_of(payload(m)))
        + payload(m)
}

/// Reads one entry at `off`: the entry and the offset after it.
pub open spec fn parse_entry(b: Seq<u8>, off: int) -> Option<((Seq<u8>, Seq<u8>), int)> {
    if 0 <= off && off + 8 <= b.len() {
        let ks = read32(b, off) as int;
        let vs = read32(b, off + 4) as int;
        if off + 8 + ks + vs <= b.len() {
            Some(
                (
                    (b.subrange(off + 8, off + 8 + ks), b.subrange(off + 8 + ks, off + 8 + ks + vs)),
                    off + 8 + ks + vs,
                ),
            )
        } else {
            None
        }
    } else {
        None
    }
}

/// Reads the first `n` entries: the entries and the offset after the last.
pub open spec fn parse_entries(b: Seq<u8>, n: nat) -> Option<(Seq<(Seq<u8>, Seq<u8>)>, int)>
    decreases n,
{
    if n == 0 {
        Some((Seq::empty(), 27))
    } else {
        match parse_entries(b, (n - 1) as nat) {
            Some((es, off)) => match parse_entry(b, off) {
                Some((e, next)) => Some((es.push(e), next)),
                None => None,
            },
            None => None,
        }
    }
}

/// The page that a buffer holds, or why it holds none.
pub open spec fn decode(b: Seq<u8>) -> Result<PageModel, DecodeError> {
    if b.len() < 27 {
        Err(DecodeError::Truncated)
    } else if b.subrange(0, 7) != magic() {
        Err(DecodeError::BadMagic)
    } else {
        match parse_entries(b, read32(b, 23) as nat) {
            None => Err(DecodeError::Truncated),
            Some((es, end)) => if crc32_of(b.subrange(23, end)) == read32(b, 19) {
                Ok(PageModel { id: read64(b, 7), capacity: read32(b, 15), entries: es })
            } else {
                Err(DecodeError::ChecksumMismatch)
            },
        }
    }
}

pub proof fn lemma_parse_entries(b: Seq<u8>, n: nat)
    requires
        b.len() >= 27,
    ensures
        parse_entries(b, n) is Some ==> {
            let (es, off) = parse_entries(b, n).unwrap();
            &&& es.len() == n
            &&& off == 27 + entries_size(es)
            &&& off <= b.len()
            &&& forall|i: int|
                0 <= i < es.len() ==> #[trigger] es[i].0.len() <= u32::MAX && es[i].1.len()
                    <= u32::MAX
        },
    decreases n,
{
    if n > 0 {
        lemma_parse_entries(b, (n - 1) as nat);
        if let Some((es, off)) = parse_entries(b, (n - 1) as nat) {
            if let Some((e, next)) = parse_entry(b, off) {
                crate::page::lemma_entries_size_push(es, e);
                let es2 = es.push(e);
                assert forall|i: int| 0 <= i < es2.len() implies #[trigger] es2[i].0.len()
                    <= u32::MAX && es2[i].1.len() <= u32::MAX by {
                    if i < es.len() {
                        assert(es2[i] == es[i]);
                    }
                }
            }
        }
    }
}

pub proof fn lemma_enc_entries_len(es: Seq<(Seq<u8>, Seq<u8>)>)
    requires
        forall|i: int| 0 <= i < es.len() ==> #[trigger] es[i].0.len() <= u32::MAX && es[i].1.len() <= u32::MAX,
    ensures
        enc_entries(es).len() == entries_size(es),
    decreases es.len(),
{
    lemma_auto_spec_u32_to_from_le_bytes();
    if es.len() > 0 {
        assert forall|i: int| 0 <= i < es.drop_last().len() implies #[trigger] es.drop_last()[i].0.len()
            <= u32::MAX && es.drop_last()[i].1.len() <= u32::MAX by {
            assert(es.drop_last()[i] == es[i]);
        }
        lemma_enc_entries_len(es.drop_last());
    }
}

/// The serialization of the first `i` entries is a prefix of the serialization of all.
pub proof fn lemma_enc_entries_prefix(es: Seq<(Seq<u8>, Seq<u8>)>, i: int)
    requires
        0 <= i <= es.len(),
        forall|j: int| 0 <= j < es.len() ==> #[trigger] es[j].0.len() <= u32::MAX && es[j].1.len() <= u32::MAX,
    ensures
        enc_entries(es).subrange(0, entries_size(es.take(i)) as int) == enc_entries(es.take(i)),
        entries_size(es.take(i)) <= enc_entries(es).len(),
    decreases es.len(),
{
    lemma_enc_entries_len(es);
    if i == es.len() {
        assert(es.take(i) =~= es);
        assert(enc_entries(es).subrange(0, entries_size(es) as int) =~= enc_entries(es));
    } else {
        let d = es.drop_last();
        assert forall|j: int| 0 <= j < d.len() implies #[trigger] d[j].0.len() <= u32::MAX
            && d[j].1.len() <= u32::MAX by {
            assert(d[j] == es[j]);
        }
        lemma_enc_entries_prefix(d, i);
        assert(d.take(i) =~= es.take(i));
        lemma_enc_entries_len(d);
        assert(enc_entries(es) == enc_entries(d) + enc_entry(es.last()));
        assert(enc_entries(es).subrange(0, entries_size(es.take(i)) as int) =~= enc_entries(
            d,
        ).subrange(0, entries_size(es.take(i)) as int));
    }
}

pub proof fn lemma_parse_entries_none(b: Seq<u8>, i: nat, j: nat)
    requires
        i <= j,
        parse_entries(b, i) is None,
    ensures
        parse_entries(b, j) is None,
    decreases j,
{
    if i < j {
        lemma_parse_entries_none(b, i, (j - 1) as nat);
    }
}


/// Page invariants of a persisted block: a page within its capacity, serialized and padded
/// to the capacity, starts with the magic bytes, carries the checksum of its payload, and
/// decodes to the same page.
pub proof fn lemma_persisted_page(m: PageModel, pad: Seq<u8>)
    requires
        m.entries.len() <= u32::MAX,
        forall|i: int|
            0 <= i < m.entries.len() ==> #[trigger] m.entries[i].0.len() <= u32::MAX
                && m.entries[i].1.len() <= u32::MAX,
        model_size(m) <= m.capacity,
        pad.len() == m.capacity - model_size(m),
    ensures
        ({
            let b = encode(m) + pad;
            &&& b.len() == m.capacity
            &&& b.subrange(0, 7) == magic()
            &&& read32(b, 19) == crc32_of(b.subrange(23, model_size(m) as int))
            &&& decode(b) == Ok::<PageModel, DecodeError>(m)
        }),
{
    lemma_decode_encode(m, pad);
    lemma_auto_spec_u32_to_from_le_bytes();
    lemma_enc_entries_len(m.entries);
    let b = encode(m) + pad;
    assert(b.subrange(0, 7) =~= magic());
    assert(b.subrange(19, 23) =~= le32(crc32_of(payload(m))));
    assert(b.subrange(23, model_size(m) as int) =~= payload(m));
}

/// Decoding a serialized page, followed by any bytes, gives the page back.
pub proof fn lemma_decode_encode(m: PageModel, pad: Seq<u8>)
    requires
        m.entries.len() <= u32::MAX,
        forall|i: int|
            0 <= i < m.entries.len() ==> #[trigger] m.entries[i].0.len() <= u32::MAX
                && m.entries[i].1.len() <= u32::MAX,
    ensures
        decode(encode(m) + pad) == Ok::<PageModel, DecodeError>(m),
        encode(m).len() == model_size(m),
{
    lemma_auto_spec_u32_to_from_le_bytes();
    lemma_auto_spec_u64_to_from_le_bytes();
    let es = m.entries;
    let p = payload(m);
    let b = encode(m) + pad;
    lemma_enc_entries_len(es);
    assert(encode(m).len() == model_size(m));
    assert(b.subrange(0, 7) =~= magic());
    assert(b.subrange(7, 15) =~= spec_u64_to_le_bytes(m.id));
    assert(b.subrange(15, 19) =~= le32(m.capacity));
    assert(b.subrange(19, 23) =~= le32(crc32_of(p)));
    assert(b.subrange(23, 27) =~= le32(es.len() as u32));
    let n = es.len();
    assert forall|i: nat| i <= n implies #[trigger] parse_entries(b, i) == Some::<
        (Seq<(Seq<u8>, Seq<u8>)>, int),
    >((es.take(i as int), 27 + entries_size(es.take(i as int)) as int)) by {
        lemma_parse_prefix(m, pad, i);
    }
    assert(es.take(n as int) =~= es);
    assert(b.subrange(23, 27 + entries_size(es) as int) =~= p);
}

proof fn lemma_parse_prefix(m: PageModel, pad: Seq<u8>, i: nat)
    requires
        i <= m.entries.len() <= u32::MAX,
        forall|j: int|
            0 <= j < m.entries.len() ==> #[trigger] m.entries[j].0.len() <= u32::MAX
                && m.entries[j].1.len() <= u32::MAX,
    ensures
        parse_entries(encode(m) + pad, i) == Some::<(Seq<(Seq<u8>, Seq<u8>)>, int)>(
            (m.entries.take(i as int), 27 + entries_size(m.entries.take(i as int)) as int),
        ),
    decreases i,
{
    let es = m.entries;
    let b = encode(m) + pad;
    if i == 0 {
        assert(es.take(0) =~= Seq::<(Seq<u8>, Seq<u8>)>::empty());
    } else {
        lemma_auto_spec_u32_to_from_le_bytes();
        lemma_auto_spec_u64_to_from_le_bytes();
        let k = (i - 1) as int;
        lemma_parse_prefix(m, pad, (i - 1) as nat);
        let off: int = 27 + entries_size(es.take(k)) as int;
        let e = es[k];
        crate::page::lemma_entries_size_take(es, k);
        lemma_enc_entries_prefix(es, i as int);
        assert(es.take(i as int).drop_last() =~= es.take(k));
        let t = es.take(i as int);
        assert(forall|j: int| 0 <= j < t.len() ==> #[trigger] t[j] == es[j]);
        lemma_enc_entries_len(es.take(k));
        assert(enc_entries(t) == enc_entries(es.take(k)) + enc_entry(e));
        // the bytes of entry k inside the buffer
        let ee = enc_entry(e);
        assert(ee.len() == entry_size(e));
        let start: int = off;
        assert forall|x: int| 0 <= x < ee.len() implies b[start + x] == #[trigger] ee[x] by {
            assert(b[start + x] == enc_entries(es)[start - 27 + x]);
            assert(enc_entries(es)[start - 27 + x] == enc_entries(t)[start - 27 + x]);
        }
        assert(b.subrange(start, start + 4) =~= ee.subrange(0, 4));
        assert(ee.subrange(0, 4) =~= le32(e.0.len() as u32));
        assert(b.subrange(start + 4, start + 8) =~= ee.subrange(4, 8));
        assert(ee.subrange(4, 8) =~= le32(e.1.len() as u32));
        let ks = e.0.len() as int;
        let vs = e.1.len() as int;
        assert(ee =~= le32(e.0.len() as u32) + le32(e.1.len() as u32) + e.0 + e.1);
        assert forall|y: int| 0 <= y < ks implies b[start + 8 + y] == #[trigger] e.0[y] by {
            assert(ee[8 + y] == e.0[y]);
            assert(b[start + (8 + y)] == ee[8 + y]);
        }
        assert forall|y: int| 0 <= y < vs implies b[start + 8 + ks + y] == #[trigger] e.1[y] by {
            assert(ee[8 + ks + y] == e.1[y]);
            assert(b[start + (8 + ks + y)] == ee[8 + ks + y]);
        }
        assert(b.subrange(start + 8, start + 8 + ks) =~= e.0);
        assert(b.subrange(start + 8 + ks, start + 8 + ks + vs) =~= e.1);
        assert(es.take(k).push(e) =~= es.take(i as int));
    }
}

} // verus!
