//! The database facade: a sorted key index over the page manager, with a hot/cold
//! classification of keys by decayed access frequency.
use hdrhistogram::Histogram;
use vstd::prelude::*;

use crate::bytes::{
    bytes_eq, copy_range, lemma_lex_irreflexive, lemma_lex_total, lemma_lex_transitive, lex_less, lex_lt,
};
use crate::device::{sat_add, SsdDevice, SsdError, SsdMetrics};
use crate::hotness::{is_hot_freq, next_freq, ObjectMetadata, FREQ_ONE};
pub use crate::page_manager::{Location, PageManager, PageManagerError, PageMetrics};
use crate::page_manager::{scan_entries, scan_locations, stored_valid};
use crate::page_manager::{cache_step, fits_empty, required_space};

verus! {

/// Page size of a database made with `Database::new`.
pub const DEFAULT_PAGE_SIZE: u32 = 4096;

/// Number of pages the cache of a database made with `Database::new` holds.
pub const DEFAULT_CACHE_SIZE: usize = 50;

/// Significant figures of the frequency histogram.
pub const HISTOGRAM_SIGFIG: u8 = 3;

/// Access frequencies recorded on rewrites of existing keys, for reporting.
///
/// Held opaquely: Verus refuses a declaration of `hdrhistogram::Histogram`, whose type
/// parameter is bound by the crate's `Counter` trait.
#[verifier::external_body]
pub struct FreqHistogram {
    pub samples: Histogram<u64>,
}

/// Relies on `hdrhistogram::Histogram::new`: an auto-resizing histogram, which the
/// constructor builds for any number of significant figures up to five.
#[verifier::external_body]
fn histogram_new(sigfig: u8) -> (r: FreqHistogram)
    requires
        sigfig <= 5,
{
    FreqHistogram { samples: Histogram::<u64>::new(sigfig).unwrap() }
}

/// Relies on `hdrhistogram::Histogram::record`: counts one sample; false when the value
/// could not be recorded.
#[verifier::external_body]
fn histogram_record(h: &mut FreqHistogram, value: u64) -> (r: bool) {
    h.samples.record(value).is_ok()
}

/// Relies on `std::time::SystemTime::now`: whole seconds since the Unix epoch, zero for a
/// clock before it.
#[verifier::external_body]
fn now_secs() -> (r: u64) {
    match std::time::SystemTime::now().duration_since(std::time::UNIX_EPOCH) {
        Ok(d) => d.as_secs(),
        Err(_) => 0,
    }
}

/// Database level errors.
#[derive(Debug, Clone, Copy, PartialEq, Eq, Structural)]
pub enum DatabaseError {
    KeyNotFound,
    StorageFull,
    InvalidData,
    Storage(PageManagerError),
}

impl From<PageManagerError> for DatabaseError {
    fn from(error: PageManagerError) -> (r: DatabaseError)
        ensures
            r == DatabaseError::Storage(error),
    {
        DatabaseError::Storage(error)
    }
}

impl vstd::std_specs::convert::FromSpecImpl<PageManagerError> for DatabaseError {
    open spec fn obeys_from_spec() -> bool {
        true
    }

    open spec fn from_spec(v: PageManagerError) -> DatabaseError {
        DatabaseError::Storage(v)
    }
}


/// The contents after a sequence of successful writes, in order.
pub open spec fn apply_writes(
    m: Map<Seq<u8>, Seq<u8>>,
    writes: Seq<(Seq<u8>, Seq<u8>)>,
) -> Map<Seq<u8>, Seq<u8>>
    decreases writes.len(),
{
    if writes.len() == 0 {
        m
    } else {
        apply_writes(m, writes.drop_last()).insert(writes.last().0, writes.last().1)
    }
}

/// Round trip: after writing `v` under `k`, writes of other keys leave `v` the value of `k`.
pub proof fn lemma_round_trip(
    m: Map<Seq<u8>, Seq<u8>>,
    k: Seq<u8>,
    v: Seq<u8>,
    later: Seq<(Seq<u8>, Seq<u8>)>,
)
    requires
        forall|i: int| 0 <= i < later.len() ==> (#[trigger] later[i]).0 != k,
    ensures
        apply_writes(m.insert(k, v), later).contains_key(k),
        apply_writes(m.insert(k, v), later)[k] == v,
    decreases later.len(),
{
    if later.len() > 0 {
        let d = later.drop_last();
        assert forall|i: int| 0 <= i < d.len() implies (#[trigger] d[i]).0 != k by {
            assert(d[i] == later[i]);
        }
        lemma_round_trip(m, k, v, d);
        assert(later[later.len() - 1].0 != k);
    }
}

/// Last writer wins: of two writes of one key, the second one's value stays.
pub proof fn lemma_last_writer_wins(m: Map<Seq<u8>, Seq<u8>>, k: Seq<u8>, v1: Seq<u8>, v2: Seq<u8>)
    ensures
        apply_writes(m, seq![(k, v1), (k, v2)])[k] == v2,
        apply_writes(m, seq![(k, v1), (k, v2)]).dom() == m.dom().insert(k),
{
    let w = seq![(k, v1), (k, v2)];
    reveal_with_fuel(apply_writes, 3);
    assert(w.drop_last() =~= seq![(k, v1)]);
    assert(seq![(k, v1)].drop_last() =~= Seq::<(Seq<u8>, Seq<u8>)>::empty());
    assert(apply_writes(m, w).dom() =~= m.dom().insert(k));
}

/// Not found: a key that no write names is absent from the contents.
pub proof fn lemma_not_found(writes: Seq<(Seq<u8>, Seq<u8>)>, k: Seq<u8>)
    requires
        forall|i: int| 0 <= i < writes.len() ==> (#[trigger] writes[i]).0 != k,
    ensures
        !apply_writes(Map::empty(), writes).contains_key(k),
    decreases writes.len(),
{
    if writes.len() > 0 {
        let d = writes.drop_last();
        assert forall|i: int| 0 <= i < d.len() implies (#[trigger] d[i]).0 != k by {
            assert(d[i] == writes[i]);
        }
        lemma_not_found(d, k);
        assert(writes[writes.len() - 1].0 != k);
    }
}

/// Size: the keys of the contents are exactly the keys that some write named.
pub proof fn lemma_written_keys(writes: Seq<(Seq<u8>, Seq<u8>)>)
    ensures
        apply_writes(Map::empty(), writes).dom() == writes.map_values(|w: (Seq<u8>, Seq<u8>)| w.0).to_set(),
    decreases writes.len(),
{
    let ks = writes.map_values(|w: (Seq<u8>, Seq<u8>)| w.0);
    if writes.len() == 0 {
        assert(ks.to_set() =~= Set::<Seq<u8>>::empty());
    } else {
        let d = writes.drop_last();
        lemma_written_keys(d);
        let kd = d.map_values(|w: (Seq<u8>, Seq<u8>)| w.0);
        assert(ks =~= kd.push(writes.last().0));
        assert forall|x: Seq<u8>| ks.to_set().contains(x) <==> kd.to_set().insert(writes.last().0).contains(x) by {
            if ks.contains(x) {
                let i = choose|i: int| 0 <= i < ks.len() && ks[i] == x;
                if i < kd.len() {
                    assert(kd[i] == x);
                }
            }
            if kd.contains(x) {
                let i = choose|i: int| 0 <= i < kd.len() && kd[i] == x;
                assert(ks[i] == x);
            }
            if x == writes.last().0 {
                assert(ks[ks.len() - 1] == x);
            }
        }
        assert(ks.to_set() =~= kd.to_set().insert(writes.last().0));
    }
}

/// Reopening: in contents rebuilt from stored entries, a key has the value of its last
/// entry in page order; a key stored once has the value stored with it.
pub proof fn lemma_last_entry_wins(m: Map<Seq<u8>, Seq<u8>>, writes: Seq<(Seq<u8>, Seq<u8>)>, x: int)
    requires
        0 <= x < writes.len(),
        forall|y: int| x < y < writes.len() ==> (#[trigger] writes[y]).0 != writes[x].0,
    ensures
        apply_writes(m, writes).contains_key(writes[x].0),
        apply_writes(m, writes)[writes[x].0] == writes[x].1,
    decreases writes.len(),
{
    if x < writes.len() - 1 {
        let d = writes.drop_last();
        assert forall|y: int| x < y < d.len() implies (#[trigger] d[y]).0 != d[x].0 by {
            assert(d[y] == writes[y]);
        }
        lemma_last_entry_wins(m, d, x);
        assert(writes[writes.len() - 1].0 != writes[x].0);
        assert(d[x] == writes[x]);
    }
}

/// Where a location moves when the entry at `gone` leaves its page: one position down when
/// it is later on the same page.
pub open spec fn shifted(l: Location, gone: Location) -> Location {
    if l.page_id == gone.page_id && l.page_index > gone.page_index {
        Location { page_id: l.page_id, page_index: (l.page_index - 1) as usize }
    } else {
        l
    }
}

/// A page's entries after a write of `(k, v)` placed on page `p1`, where an existing key's
/// older entry at `gone` is removed.
pub open spec fn rewritten(
    es: Seq<(Seq<u8>, Seq<u8>)>,
    q: u64,
    p1: u64,
    gone: Location,
    existing: bool,
    k: Seq<u8>,
    v: Seq<u8>,
) -> Seq<(Seq<u8>, Seq<u8>)> {
    let pushed = if q == p1 {
        es.push((k, v))
    } else {
        es
    };
    if existing && q == gone.page_id {
        pushed.remove(gone.page_index as int)
    } else {
        pushed
    }
}

/// A key and its metadata, as reported for a page.
#[derive(Debug)]
pub struct ObjectReport {
    pub key: Vec<u8>,
    pub meta: ObjectMetadata,
}

/// A page's status with the keys located on it.
#[derive(Debug)]
pub struct PageReport {
    pub metrics: PageMetrics,
    pub objects: Vec<ObjectReport>,
}

/// The key and metadata of each report entry.
pub open spec fn report_view(objs: Seq<ObjectReport>) -> Seq<(Seq<u8>, ObjectMetadata)> {
    objs.map_values(|o: ObjectReport| (o.key@, o.meta))
}

/// The `i`-th scanned location is a position of an entry of an earlier page.
pub proof fn lemma_scan_location(d: SsdDevice, n: nat, i: int)
    requires
        0 <= i < scan_locations(d, n).len(),
    ensures
        scan_locations(d, n)[i].page_id < n,
        scan_locations(d, n)[i].page_index < d.stored(scan_locations(d, n)[i].page_id)->Ok_0.entries.len(),
    decreases n,
{
    if n > 0 {
        let prev = scan_locations(d, (n - 1) as nat);
        if i < prev.len() {
            lemma_scan_location(d, (n - 1) as nat, i);
            assert(scan_locations(d, n)[i] == prev[i]);
        }
    }
}

struct IndexEntry {
    key: Vec<u8>,
    meta: ObjectMetadata,
}

/// A key-value store over a page manager.
pub struct Database {
    index: Vec<IndexEntry>,
    page_manager: PageManager,
    hot_threshold: u32,
    freq_histogram: FreqHistogram,
}

impl Database {
    pub closed spec fn key_at(&self, i: int) -> Seq<u8> {
        self.index@[i].key@
    }

    pub closed spec fn meta_at(&self, i: int) -> ObjectMetadata {
        self.index@[i].meta
    }

    /// Number of keys.
    pub closed spec fn size(&self) -> nat {
        self.index@.len()
    }

    pub closed spec fn pm(&self) -> PageManager {
        self.page_manager
    }

    pub closed spec fn spec_hot_threshold(&self) -> u32 {
        self.hot_threshold
    }

    /// The keys in index order.
    pub open spec fn spec_keys(&self) -> Seq<Seq<u8>> {
        Seq::new(self.size(), |i: int| self.key_at(i))
    }

    pub open spec fn has_key(&self, k: Seq<u8>) -> bool {
        exists|i: int| 0 <= i < self.size() && self.key_at(i) == k
    }

    pub open spec fn pos_of(&self, k: Seq<u8>) -> int {
        choose|i: int| 0 <= i < self.size() && self.key_at(i) == k
    }

    /// Metadata of a key.
    pub open spec fn meta_of(&self, k: Seq<u8>) -> ObjectMetadata {
        self.meta_at(self.pos_of(k))
    }

    /// The value stored at a location.
    pub open spec fn value_at(&self, loc: Location) -> Seq<u8> {
        self.pm().entries_of(loc.page_id)[loc.page_index as int].1
    }

    /// The store's contents: each key with the value last written for it.
    pub open spec fn contents(&self) -> Map<Seq<u8>, Seq<u8>> {
        Map::new(|k: Seq<u8>| self.has_key(k), |k: Seq<u8>| self.value_at(self.meta_of(k).location))
    }

    /// The index is sorted with distinct keys, and every key's location holds that key.
    pub closed spec fn wf(&self) -> bool {
        &&& self.page_manager.wf()
        &&& forall|i: int, j: int|
            0 <= i < self.index@.len() && 0 <= j < self.index@.len() && i != j ==> self.key_at(i)
                != self.key_at(j)
        &&& forall|i: int| 0 <= i < self.index@.len() - 1 ==> lex_lt(#[trigger] self.key_at(i), self.key_at(i + 1))
        &&& forall|i: int| 0 <= i < self.index@.len() ==> #[trigger] self.loc_ok(i)
    }

    pub closed spec fn loc_ok(&self, i: int) -> bool {
        let loc = self.index@[i].meta.location;
        let es = self.page_manager.entries_of(loc.page_id);
        &&& loc.page_id < self.page_manager.spec_next_id()
        &&& loc.page_index < es.len()
        &&& es[loc.page_index as int].0 == self.index@[i].key@
    }

    /// A well-formed database has a well-formed page manager, so the page manager's
    /// lemmas apply to `pm()`.
    pub proof fn lemma_pm_wf(&self)
        requires
            self.wf(),
        ensures
            self.pm().wf(),
    {
    }

    proof fn lemma_pos_of(&self, i: int)
        requires
            self.wf(),
            0 <= i < self.size(),
        ensures
            self.has_key(self.key_at(i)),
            self.pos_of(self.key_at(i)) == i,
    {
        let k = self.key_at(i);
        assert(self.key_at(i) == k);
        let j = self.pos_of(k);
        if j != i {
            assert(self.key_at(j) != self.key_at(i));
        }
    }

    /// A database over a device, with the given hot threshold and cache size in pages.
    /// Every block the device holds becomes a cold page, and the index is rebuilt from the
    /// stored entries in page order, a later entry of a key replacing an earlier one.
    /// `InvalidData` when a block does not hold a valid page of its id and size.
    pub fn with_cache_capacity(device: SsdDevice, hot_threshold: u32, cache_capacity: usize) -> (r: Result<
        Database,
        DatabaseError,
    >)
        requires
            cache_capacity >= 1,
        ensures
            r is Ok <==> forall|pid: u64| pid < device.spec_block_count() ==> #[trigger] stored_valid(device, pid),
            r is Err ==> r->Err_0 == DatabaseError::InvalidData,
            r is Ok ==> {
                let db = r->Ok_0;
                let n = device.spec_block_count();
                &&& db.wf()
                &&& db.contents() == apply_writes(Map::empty(), scan_entries(device, n))
                &&& n == 0 ==> db.contents() == Map::<Seq<u8>, Seq<u8>>::empty() && db.size() == 0
                &&& db.spec_hot_threshold() == hot_threshold
                &&& db.pm().spec_page_size() == device.spec_page_size()
                &&& db.pm().cache_bound() == cache_capacity
                &&& db.pm().spec_next_id() == n
                &&& db.pm().spec_hits() == 0 && db.pm().spec_misses() == 0 && db.pm().spec_loads() == 0
                &&& db.pm().cached() == Seq::<u64>::empty()
                &&& db.pm().index_of(true) == Map::<u64, u32>::empty()
                &&& n == 0 ==> db.pm().index_of(false) == Map::<u64, u32>::empty()
                &&& forall|q: u64| #[trigger] db.pm().spec_device().block(q) == device.block(q)
                &&& db.pm().spec_device().spec_metrics().spec_writes() == device.spec_metrics().spec_writes()
                &&& n == 0 ==> db.pm().spec_device() == device
            },
    {
        let ghost d0 = device;
        let (pm, list) = match PageManager::open(device, cache_capacity) {
            Ok(x) => x,
            Err(_) => {
                return Err(DatabaseError::InvalidData);
            },
        };
        let now = now_secs();
        let ghost pm0 = pm;
        let ghost n = d0.spec_block_count();
        let ghost entries = scan_entries(d0, n);
        let mut db = Database {
            index: Vec::new(),
            page_manager: pm,
            hot_threshold,
            freq_histogram: histogram_new(HISTOGRAM_SIGFIG),
        };
        proof {
            assert(db.contents() =~= Map::<Seq<u8>, Seq<u8>>::empty());
            assert(entries.take(0) =~= Seq::<(Seq<u8>, Seq<u8>)>::empty());
            pm0.lemma_stored_pages();
        }
        let mut i: usize = 0;
        while i < list.len()
            invariant
                db.wf(),
                db.page_manager == pm0,
                db.hot_threshold == hot_threshold,
                pm0.spec_next_id() == n,
                forall|q: u64| #[trigger] pm0.spec_device().block(q) == d0.block(q),
                forall|q: u64| q < n ==> #[trigger] pm0.entries_of(q) == d0.stored(q)->Ok_0.entries,
                entries == scan_entries(d0, n),
                list@.len() == scan_locations(d0, n).len(),
                forall|x: int| 0 <= x < list@.len() ==> (#[trigger] list@[x]).1 == scan_locations(d0, n)[x]
                    && list@[x].0@ == entries[x].0 && list@[x].2 == entries[x].0.len() + entries[x].1.len(),
                0 <= i <= list@.len(),
                db.contents() == apply_writes(Map::empty(), entries.take(i as int)),
            decreases list@.len() - i,
        {
            let loc = list[i].1;
            proof {
                lemma_scan_location(d0, n, i as int);
                assert(pm0.entries_of(loc.page_id) == d0.stored(loc.page_id)->Ok_0.entries);
            }
            let ghost before = db.contents();
            db.upsert(list[i].0.as_slice(), loc, list[i].2, now);
            proof {
                assert(entries.take(i + 1).drop_last() =~= entries.take(i as int));
                assert(entries.take(i + 1).last() == entries[i as int]);
            }
            i = i + 1;
        }
        proof {
            assert(entries.take(list@.len() as int) =~= entries);
            if n == 0 {
                assert(scan_locations(d0, 0) =~= Seq::<Location>::empty());
                assert(entries =~= Seq::<(Seq<u8>, Seq<u8>)>::empty());
                assert(db.contents() =~= Map::<Seq<u8>, Seq<u8>>::empty());
                db.lemma_size_is_key_count();
                assert(pm0.index_of(false) =~= Map::<u64, u32>::empty()) by {
                    pm0.lemma_free_space_index_consistent();
                }
            }
        }
        Ok(db)
    }

    /// A database over a device, with a cache of the default size; see
    /// `with_cache_capacity`.
    pub fn new(device: SsdDevice, hot_threshold: u32) -> (r: Result<Database, DatabaseError>)
        ensures
            r is Ok <==> forall|pid: u64| pid < device.spec_block_count() ==> #[trigger] stored_valid(device, pid),
            r is Err ==> r->Err_0 == DatabaseError::InvalidData,
            r is Ok ==> {
                let db = r->Ok_0;
                let n = device.spec_block_count();
                &&& db.wf()
                &&& db.contents() == apply_writes(Map::empty(), scan_entries(device, n))
                &&& n == 0 ==> db.contents() == Map::<Seq<u8>, Seq<u8>>::empty() && db.size() == 0
                &&& db.spec_hot_threshold() == hot_threshold
                &&& db.pm().spec_page_size() == device.spec_page_size()
                &&& db.pm().cache_bound() == DEFAULT_CACHE_SIZE
                &&& db.pm().spec_next_id() == n
                &&& db.pm().spec_hits() == 0 && db.pm().spec_misses() == 0 && db.pm().spec_loads() == 0
                &&& db.pm().cached() == Seq::<u64>::empty()
                &&& db.pm().index_of(true) == Map::<u64, u32>::empty()
                &&& n == 0 ==> db.pm().index_of(false) == Map::<u64, u32>::empty()
                &&& forall|q: u64| #[trigger] db.pm().spec_device().block(q) == device.block(q)
                &&& db.pm().spec_device().spec_metrics().spec_writes() == device.spec_metrics().spec_writes()
                &&& n == 0 ==> db.pm().spec_device() == device
            },
    {
        Database::with_cache_capacity(device, hot_threshold, DEFAULT_CACHE_SIZE)
    }

    /// Points `key` at `loc`, whose entry holds the key, as a key just written at `now`.
    fn upsert(&mut self, key: &[u8], loc: Location, size: u32, now: u64)
        requires
            old(self).wf(),
            loc.page_id < old(self).pm().spec_next_id(),
            loc.page_index < old(self).pm().entries_of(loc.page_id).len(),
            old(self).pm().entries_of(loc.page_id)[loc.page_index as int].0 == key@,
        ensures
            final(self).wf(),
            final(self).pm() == old(self).pm(),
            final(self).spec_hot_threshold() == old(self).spec_hot_threshold(),
            final(self).contents() == old(self).contents().insert(
                key@,
                old(self).pm().entries_of(loc.page_id)[loc.page_index as int].1,
            ),
    {
        let ghost v = self.page_manager.entries_of(loc.page_id)[loc.page_index as int].1;
        let meta = ObjectMetadata::fresh(loc, size, now);
        let ghost prev = *self;
        match self.find(key) {
            Some(p) => {
                self.index[p].meta = meta;
                proof {
                    self.lemma_after_update(&prev, p as int, loc, key@, v);
                }
            },
            None => {
                let i = self.insert_position(key);
                let k = copy_range(key, 0, key.len());
                assert(k@ =~= key@);
                self.index.insert(i, IndexEntry { key: k, meta });
                proof {
                    self.lemma_after_insert(&prev, i as int, loc, key@, v);
                }
            },
        }
    }

    /// The invariant and the contents carry over a step that kept every key and location,
    /// and kept each allocated page's entries or appended to them.
    proof fn lemma_entries_kept(&self, prev: &Database, pid: u64, e: (Seq<u8>, Seq<u8>))
        requires
            prev.wf(),
            self.page_manager.wf(),
            self.index@.len() == prev.index@.len(),
            forall|i: int| 0 <= i < self.index@.len() ==> #[trigger] self.key_at(i) == prev.key_at(i)
                && self.meta_at(i).location == prev.meta_at(i).location,
            self.page_manager.spec_next_id() >= prev.page_manager.spec_next_id(),
            forall|q: u64| q < prev.page_manager.spec_next_id() && q != pid ==> #[trigger] self.page_manager.entries_of(q)
                == prev.page_manager.entries_of(q),
            self.page_manager.entries_of(pid) == prev.page_manager.entries_of(pid)
                || self.page_manager.entries_of(pid) == prev.page_manager.entries_of(pid).push(e),
        ensures
            self.wf(),
            self.contents() == prev.contents(),
            forall|k: Seq<u8>| #[trigger] self.has_key(k) == prev.has_key(k),
            forall|k: Seq<u8>| prev.has_key(k) ==> #[trigger] self.pos_of(k) == prev.pos_of(k),
    {
        assert forall|q: u64| q < prev.page_manager.spec_next_id() implies prev.page_manager.entries_of(q).len()
            <= self.page_manager.entries_of(q).len()
            && #[trigger] self.page_manager.entries_of(q).take(prev.page_manager.entries_of(q).len() as int)
            == prev.page_manager.entries_of(q) by {
            assert(self.page_manager.entries_of(q).take(prev.page_manager.entries_of(q).len() as int)
                =~= prev.page_manager.entries_of(q));
        }
        self.lemma_same_locations(prev);
    }

    /// Carries the invariant and the contents over a step that changed only metadata other
    /// than locations, or appended entries to pages.
    proof fn lemma_same_locations(&self, prev: &Database)
        requires
            prev.wf(),
            self.page_manager.wf(),
            self.index@.len() == prev.index@.len(),
            forall|i: int| 0 <= i < self.index@.len() ==> #[trigger] self.key_at(i) == prev.key_at(i)
                && self.meta_at(i).location == prev.meta_at(i).location,
            self.page_manager.spec_next_id() >= prev.page_manager.spec_next_id(),
            forall|q: u64| q < prev.page_manager.spec_next_id() ==>
                prev.page_manager.entries_of(q).len() <= self.page_manager.entries_of(q).len()
                && #[trigger] self.page_manager.entries_of(q).take(prev.page_manager.entries_of(q).len() as int)
                == prev.page_manager.entries_of(q),
        ensures
            self.wf(),
            self.contents() == prev.contents(),
            forall|k: Seq<u8>| #[trigger] self.has_key(k) == prev.has_key(k),
            forall|k: Seq<u8>| prev.has_key(k) ==> #[trigger] self.pos_of(k) == prev.pos_of(k),
    {
        assert forall|i: int| 0 <= i < self.index@.len() implies #[trigger] self.loc_ok(i) by {
            assert(prev.loc_ok(i));
            assert(self.key_at(i) == prev.key_at(i));
            let loc = prev.meta_at(i).location;
            let es0 = prev.page_manager.entries_of(loc.page_id);
            assert(self.page_manager.entries_of(loc.page_id).take(es0.len() as int) == es0);
            assert(self.page_manager.entries_of(loc.page_id)[loc.page_index as int] == es0[loc.page_index as int]);
        }
        assert forall|i: int| 0 <= i < self.index@.len() - 1 implies lex_lt(#[trigger] self.key_at(i), self.key_at(i + 1)) by {
            assert(self.key_at(i) == prev.key_at(i));
            assert(self.key_at(i + 1) == prev.key_at(i + 1));
        }
        assert forall|i: int, j: int|
            0 <= i < self.index@.len() && 0 <= j < self.index@.len() && i != j implies self.key_at(i)
                != self.key_at(j) by {
            assert(self.key_at(i) == prev.key_at(i));
            assert(self.key_at(j) == prev.key_at(j));
        }
        assert forall|k: Seq<u8>| #[trigger] self.has_key(k) == prev.has_key(k) by {
            if self.has_key(k) {
                let i = choose|i: int| 0 <= i < self.size() && self.key_at(i) == k;
                assert(prev.key_at(i) == k);
            }
            if prev.has_key(k) {
                let i = choose|i: int| 0 <= i < prev.size() && prev.key_at(i) == k;
                assert(self.key_at(i) == k);
            }
        }
        assert forall|k: Seq<u8>| prev.has_key(k) implies #[trigger] self.pos_of(k) == prev.pos_of(k) by {
            let i = prev.pos_of(k);
            prev.lemma_pos_of(i);
            assert(self.key_at(i) == k);
            self.lemma_pos_of(i);
        }
        assert forall|k: Seq<u8>| #[trigger] self.contents().contains_key(k) implies self.contents()[k]
            == prev.contents()[k] by {
            let i = prev.pos_of(k);
            assert(self.has_key(k));
            prev.lemma_pos_of(i);
            assert(prev.loc_ok(i));
            let loc = prev.meta_at(i).location;
            let es0 = prev.page_manager.entries_of(loc.page_id);
            assert(self.page_manager.entries_of(loc.page_id).take(es0.len() as int) == es0);
            assert(self.page_manager.entries_of(loc.page_id)[loc.page_index as int] == es0[loc.page_index as int]);
        }
        assert(self.contents() =~= prev.contents());
    }

    /// The invariant carries over a rewrite of the key at position `p`: its older entry at
    /// `gone` was removed from its page, the locations after it on that page moved down
    /// one position, and the key now points at `placed`, which holds the new value.
    proof fn lemma_after_rewrite(&self, prev: &Database, p: int, gone: Location, placed: Location, k: Seq<u8>, v: Seq<u8>)
        requires
            prev.wf(),
            0 <= p < prev.size(),
            prev.key_at(p) == k,
            prev.meta_at(p).location == gone,
            self.page_manager.wf(),
            self.page_manager.spec_next_id() == prev.page_manager.spec_next_id(),
            self.page_manager.entries_of(gone.page_id) == prev.page_manager.entries_of(gone.page_id).remove(
                gone.page_index as int,
            ),
            forall|q: u64| q != gone.page_id ==> #[trigger] self.page_manager.entries_of(q) == prev.page_manager.entries_of(q),
            self.index@.len() == prev.index@.len(),
            forall|y: int| 0 <= y < self.index@.len() ==> #[trigger] self.index@[y].key == prev.index@[y].key,
            forall|y: int| #![trigger self.index@[y]] 0 <= y < self.index@.len() && y != p ==> {
                &&& self.index@[y].meta.freq_accessed == prev.index@[y].meta.freq_accessed
                &&& self.index@[y].meta.last_access == prev.index@[y].meta.last_access
                &&& self.index@[y].meta.size == prev.index@[y].meta.size
                &&& self.index@[y].meta.location == shifted(prev.index@[y].meta.location, gone)
            },
            self.meta_at(p).location == placed,
            placed.page_id < self.page_manager.spec_next_id(),
            placed.page_index < self.page_manager.entries_of(placed.page_id).len(),
            self.page_manager.entries_of(placed.page_id)[placed.page_index as int] == (k, v),
        ensures
            self.wf(),
            self.contents() == prev.contents().insert(k, v),
            self.size() == prev.size(),
            self.has_key(k),
            self.meta_of(k) == self.meta_at(p),
            forall|k2: Seq<u8>| #![trigger self.meta_of(k2)] k2 != k && prev.has_key(k2) ==> {
                &&& self.meta_of(k2).location == shifted(prev.meta_of(k2).location, gone)
                &&& self.meta_of(k2).freq_accessed == prev.meta_of(k2).freq_accessed
                &&& self.meta_of(k2).last_access == prev.meta_of(k2).last_access
                &&& self.meta_of(k2).size == prev.meta_of(k2).size
            },
    {
        assert(prev.loc_ok(p));
        assert forall|y: int| 0 <= y < self.index@.len() implies #[trigger] self.key_at(y) == prev.key_at(y) by {
            assert(self.index@[y].key == prev.index@[y].key);
        }
        assert forall|y: int| 0 <= y < self.index@.len() implies #[trigger] self.loc_ok(y) by {
            if y != p {
                assert(prev.loc_ok(y));
                assert(self.index@[y].key == prev.index@[y].key);
                let l = prev.index@[y].meta.location;
                let es = prev.page_manager.entries_of(l.page_id);
                if l.page_id == gone.page_id {
                    assert(prev.key_at(y) != k);
                    assert(l.page_index != gone.page_index);
                    if l.page_index > gone.page_index {
                        assert(self.page_manager.entries_of(l.page_id)[l.page_index - 1] == es[l.page_index as int]);
                    } else {
                        assert(self.page_manager.entries_of(l.page_id)[l.page_index as int] == es[l.page_index as int]);
                    }
                }
            } else {
                assert(self.index@[p].key == prev.index@[p].key);
            }
        }
        assert forall|i: int| 0 <= i < self.index@.len() - 1 implies lex_lt(#[trigger] self.key_at(i), self.key_at(i + 1)) by {
            assert(self.key_at(i) == prev.key_at(i));
            assert(self.key_at(i + 1) == prev.key_at(i + 1));
        }
        assert forall|i: int, j: int|
            0 <= i < self.index@.len() && 0 <= j < self.index@.len() && i != j implies self.key_at(i)
                != self.key_at(j) by {
            assert(self.key_at(i) == prev.key_at(i));
            assert(self.key_at(j) == prev.key_at(j));
        }
        self.lemma_pos_of(p);
        assert forall|k2: Seq<u8>| #[trigger] self.has_key(k2) == prev.has_key(k2) by {
            if self.has_key(k2) {
                let i = choose|i: int| 0 <= i < self.size() && self.key_at(i) == k2;
                assert(prev.key_at(i) == k2);
            }
            if prev.has_key(k2) {
                let i = choose|i: int| 0 <= i < prev.size() && prev.key_at(i) == k2;
                assert(self.key_at(i) == k2);
            }
        }
        assert forall|k2: Seq<u8>| #![trigger self.meta_of(k2)] k2 != k && prev.has_key(k2) implies {
            &&& self.meta_of(k2).location == shifted(prev.meta_of(k2).location, gone)
            &&& self.meta_of(k2).freq_accessed == prev.meta_of(k2).freq_accessed
            &&& self.meta_of(k2).last_access == prev.meta_of(k2).last_access
            &&& self.meta_of(k2).size == prev.meta_of(k2).size
        } by {
            let i = prev.pos_of(k2);
            prev.lemma_pos_of(i);
            assert(self.key_at(i) == k2);
            self.lemma_pos_of(i);
            assert(i != p);
            assert(self.index@[i].meta.location == shifted(prev.index@[i].meta.location, gone));
        }
        assert forall|k2: Seq<u8>| #[trigger] self.contents().contains_key(k2) implies self.contents()[k2]
            == prev.contents().insert(k, v)[k2] by {
            if k2 != k {
                let i = prev.pos_of(k2);
                prev.lemma_pos_of(i);
                assert(self.key_at(i) == k2);
                self.lemma_pos_of(i);
                assert(prev.loc_ok(i));
                assert(self.loc_ok(i));
                let l = prev.index@[i].meta.location;
                let es = prev.page_manager.entries_of(l.page_id);
                assert(self.index@[i].meta.location == shifted(l, gone));
                if l.page_id == gone.page_id {
                    assert(prev.key_at(i) != k);
                    assert(l.page_index != gone.page_index);
                    if l.page_index > gone.page_index {
                        assert(self.page_manager.entries_of(l.page_id)[l.page_index - 1] == es[l.page_index as int]);
                    } else {
                        assert(self.page_manager.entries_of(l.page_id)[l.page_index as int] == es[l.page_index as int]);
                    }
                }
            }
        }
        assert(self.contents() =~= prev.contents().insert(k, v));
    }

    proof fn lemma_after_update(&self, prev: &Database, p: int, loc: Location, k: Seq<u8>, v: Seq<u8>)
        requires
            prev.wf(),
            0 <= p < prev.size(),
            prev.key_at(p) == k,
            self.index@.len() == prev.index@.len(),
            forall|i: int| 0 <= i < self.index@.len() && i != p ==> #[trigger] self.index@[i] == prev.index@[i],
            self.key_at(p) == k,
            self.meta_at(p).location == loc,
            self.page_manager == prev.page_manager,
            loc.page_id < prev.page_manager.spec_next_id(),
            loc.page_index < prev.page_manager.entries_of(loc.page_id).len(),
            prev.page_manager.entries_of(loc.page_id)[loc.page_index as int] == (k, v),
        ensures
            self.wf(),
            self.contents() == prev.contents().insert(k, v),
            self.size() == prev.size(),
            self.has_key(k),
            self.meta_of(k) == self.meta_at(p),
            forall|k2: Seq<u8>| k2 != k && prev.has_key(k2) ==> #[trigger] self.meta_of(k2) == prev.meta_of(k2),
    {
        assert forall|i: int| 0 <= i < self.index@.len() implies #[trigger] self.loc_ok(i) by {
            if i != p {
                assert(prev.loc_ok(i));
                assert(self.index@[i] == prev.index@[i]);
            }
        }
        assert forall|i: int| 0 <= i < self.index@.len() implies #[trigger] self.key_at(i) == prev.key_at(i) by {
            if i != p {
                assert(self.index@[i] == prev.index@[i]);
            }
        }
        assert forall|i: int| 0 <= i < self.index@.len() - 1 implies lex_lt(#[trigger] self.key_at(i), self.key_at(i + 1)) by {
            assert(self.key_at(i) == prev.key_at(i));
            assert(self.key_at(i + 1) == prev.key_at(i + 1));
        }
        assert forall|i: int, j: int|
            0 <= i < self.index@.len() && 0 <= j < self.index@.len() && i != j implies self.key_at(i)
                != self.key_at(j) by {
            assert(self.key_at(i) == prev.key_at(i));
            assert(self.key_at(j) == prev.key_at(j));
        }
        self.lemma_pos_of(p);
        assert forall|k2: Seq<u8>| #[trigger] self.has_key(k2) == prev.has_key(k2) by {
            if self.has_key(k2) {
                let i = choose|i: int| 0 <= i < self.size() && self.key_at(i) == k2;
                assert(prev.key_at(i) == k2);
            }
            if prev.has_key(k2) {
                let i = choose|i: int| 0 <= i < prev.size() && prev.key_at(i) == k2;
                assert(self.key_at(i) == k2);
            }
        }
        assert forall|k2: Seq<u8>| #[trigger] self.contents().contains_key(k2) implies self.contents()[k2]
            == prev.contents().insert(k, v)[k2] by {
            if k2 != k {
                let i = prev.pos_of(k2);
                prev.lemma_pos_of(i);
                assert(self.key_at(i) == k2);
                self.lemma_pos_of(i);
                assert(self.index@[i] == prev.index@[i]);
            }
        }
        assert forall|k2: Seq<u8>| k2 != k && prev.has_key(k2) implies #[trigger] self.meta_of(k2) == prev.meta_of(k2) by {
            let i = prev.pos_of(k2);
            prev.lemma_pos_of(i);
            assert(self.index@[i] == prev.index@[i]);
            assert(self.key_at(i) == k2);
            self.lemma_pos_of(i);
        }
        assert(self.contents() =~= prev.contents().insert(k, v));
    }

    proof fn lemma_after_insert(&self, prev: &Database, p: int, loc: Location, k: Seq<u8>, v: Seq<u8>)
        requires
            prev.wf(),
            !prev.has_key(k),
            0 <= p <= prev.size(),
            forall|j: int| 0 <= j < p ==> lex_lt(#[trigger] prev.key_at(j), k),
            p < prev.size() ==> lex_lt(k, prev.key_at(p)),
            self.index@.len() == prev.index@.len() + 1,
            forall|i: int| 0 <= i < p ==> #[trigger] self.index@[i] == prev.index@[i],
            forall|i: int| p < i < self.index@.len() ==> #[trigger] self.index@[i] == prev.index@[i - 1],
            self.key_at(p) == k,
            self.meta_at(p).location == loc,
            self.page_manager == prev.page_manager,
            loc.page_id < prev.page_manager.spec_next_id(),
            loc.page_index < prev.page_manager.entries_of(loc.page_id).len(),
            prev.page_manager.entries_of(loc.page_id)[loc.page_index as int] == (k, v),
        ensures
            self.wf(),
            self.contents() == prev.contents().insert(k, v),
            self.size() == prev.size() + 1,
            self.has_key(k),
            self.meta_of(k) == self.meta_at(p),
            forall|k2: Seq<u8>| k2 != k && prev.has_key(k2) ==> #[trigger] self.meta_of(k2) == prev.meta_of(k2),
    {
        assert forall|i: int| 0 <= i < self.index@.len() implies #[trigger] self.loc_ok(i) by {
            if i < p {
                assert(prev.loc_ok(i));
                assert(self.index@[i] == prev.index@[i]);
            } else if i > p {
                assert(prev.loc_ok(i - 1));
                assert(self.index@[i] == prev.index@[i - 1]);
            }
        }
        assert forall|i: int| 0 <= i < self.index@.len() && i != p implies #[trigger] self.key_at(i) == prev.key_at(
            if i < p { i } else { i - 1 }) by {
            if i < p {
                assert(self.index@[i] == prev.index@[i]);
            } else {
                assert(self.index@[i] == prev.index@[i - 1]);
            }
        }
        assert forall|i: int| 0 <= i < self.index@.len() - 1 implies lex_lt(#[trigger] self.key_at(i), self.key_at(i + 1)) by {
            if i + 1 < p {
                assert(self.key_at(i) == prev.key_at(i));
                assert(self.key_at(i + 1) == prev.key_at(i + 1));
            } else if i + 1 == p {
                assert(self.key_at(i) == prev.key_at(i));
            } else if i == p {
                assert(self.key_at(i + 1) == prev.key_at(i));
            } else {
                assert(self.key_at(i) == prev.key_at(i - 1));
                assert(self.key_at(i + 1) == prev.key_at(i));
            }
        }
        assert forall|i: int, j: int|
            0 <= i < self.index@.len() && 0 <= j < self.index@.len() && i != j implies self.key_at(i)
                != self.key_at(j) by {
            let i2 = if i < p { i } else { i - 1 };
            let j2 = if j < p { j } else { j - 1 };
            if i != p && j != p {
                assert(self.key_at(i) == prev.key_at(i2));
                assert(self.key_at(j) == prev.key_at(j2));
            } else if i == p {
                assert(self.key_at(j) == prev.key_at(j2));
            } else {
                assert(self.key_at(i) == prev.key_at(i2));
            }
        }
        self.lemma_pos_of(p);
        assert forall|k2: Seq<u8>| #[trigger] self.has_key(k2) == (prev.has_key(k2) || k2 == k) by {
            if self.has_key(k2) {
                let i = choose|i: int| 0 <= i < self.size() && self.key_at(i) == k2;
                if i < p {
                    assert(prev.key_at(i) == k2);
                } else if i > p {
                    assert(prev.key_at(i - 1) == k2);
                }
            }
            if prev.has_key(k2) {
                let i = choose|i: int| 0 <= i < prev.size() && prev.key_at(i) == k2;
                if i < p {
                    assert(self.key_at(i) == k2);
                } else {
                    assert(self.key_at(i + 1) == k2);
                }
            }
        }
        assert forall|k2: Seq<u8>| #[trigger] self.contents().contains_key(k2) implies self.contents()[k2]
            == prev.contents().insert(k, v)[k2] by {
            if k2 != k {
                let i = prev.pos_of(k2);
                prev.lemma_pos_of(i);
                let i2 = if i < p { i } else { i + 1 };
                if i < p {
                    assert(self.index@[i2] == prev.index@[i]);
                } else {
                    assert(self.index@[i2] == prev.index@[i2 - 1]);
                }
                assert(self.key_at(i2) == k2);
                self.lemma_pos_of(i2);
            }
        }
        assert forall|k2: Seq<u8>| k2 != k && prev.has_key(k2) implies #[trigger] self.meta_of(k2) == prev.meta_of(k2) by {
            let i = prev.pos_of(k2);
            prev.lemma_pos_of(i);
            let i2 = if i < p { i } else { i + 1 };
            if i < p {
                assert(self.index@[i2] == prev.index@[i]);
            } else {
                assert(self.index@[i2] == prev.index@[i2 - 1]);
            }
            assert(self.key_at(i2) == k2);
            self.lemma_pos_of(i2);
        }
        assert(self.contents() =~= prev.contents().insert(k, v));
    }

    /// The class a write of `k` at `now` goes to: hot when `k` is present and its frequency
    /// after this access reaches the hot threshold; cold for a new key.
    pub open spec fn write_class(&self, k: Seq<u8>, now: u64) -> bool {
        self.contents().contains_key(k) && is_hot_freq(
            next_freq(self.meta_of(k).freq_accessed, self.meta_of(k).last_access, now),
            self.spec_hot_threshold(),
        )
    }

    /// Whether a page of the write's class has room for the entry.
    pub open spec fn fit_exists(&self, k: Seq<u8>, v: Seq<u8>, now: u64) -> bool {
        exists|p: u64|
            #[trigger] self.pm().index_of(self.write_class(k, now)).contains_key(p)
                && self.pm().index_of(self.write_class(k, now))[p] >= required_space(k, v)
    }

    /// What writing `v` under `k` at `now` does, taking `before` to `after` with result `r`.
    ///
    /// The entry is appended to a page; when the key was present, its older entry is then
    /// removed from its page, and the locations after it on that page move down one position,
    /// so that every stored key has exactly one entry.
    pub open spec fn set_outcome(
        before: Database,
        after: Database,
        k: Seq<u8>,
        v: Seq<u8>,
        now: u64,
        r: Result<(), DatabaseError>,
    ) -> bool {
        let ps = before.pm().spec_page_size();
        let loc = after.meta_of(k).location;
        let fit = before.fit_exists(k, v, now);
        let existing = before.contents().contains_key(k);
        let gone = before.meta_of(k).location;
        let p1 = loc.page_id;
        let j1 = before.pm().entries_of(p1).len();
        &&& after.pm().spec_page_size() == ps
        &&& after.pm().cache_bound() == before.pm().cache_bound()
        &&& after.spec_hot_threshold() == before.spec_hot_threshold()
        &&& before.pm().spec_next_id() <= after.pm().spec_next_id() <= before.pm().spec_next_id() + 1
        &&& fits_empty(ps, k, v) && before.pm().spec_next_id() < usize::MAX ==> r is Ok
        &&& !fits_empty(ps, k, v) ==> r is Err
        &&& r is Err ==> r == Err::<(), DatabaseError>(DatabaseError::StorageFull)
        &&& r is Ok ==> after.contents() == before.contents().insert(k, v)
        &&& r is Err ==> after.contents() == before.contents()
        &&& r is Ok ==> after.size() == before.size() + if before.contents().contains_key(k) {
            0int
        } else {
            1int
        }
        &&& r is Err ==> after.size() == before.size()
        &&& forall|k2: Seq<u8>| #![trigger after.meta_of(k2)]
            k2 != k && before.contents().contains_key(k2) ==> {
                &&& after.meta_of(k2).freq_accessed == before.meta_of(k2).freq_accessed
                &&& after.meta_of(k2).last_access == before.meta_of(k2).last_access
                &&& after.meta_of(k2).size == before.meta_of(k2).size
                &&& after.meta_of(k2).location == if r is Ok && existing {
                    shifted(before.meta_of(k2).location, gone)
                } else {
                    before.meta_of(k2).location
                }
            }
        &&& r is Ok ==> {
            &&& after.meta_of(k).freq_accessed == FREQ_ONE
            &&& after.meta_of(k).last_access == now
            &&& after.meta_of(k).size == k.len() + v.len()
            &&& after.pm().spec_is_hot(p1) == before.write_class(k, now)
            &&& p1 < after.pm().spec_next_id()
            &&& loc.page_index == if existing && gone.page_id == p1 { j1 - 1 } else { j1 as int }
            &&& forall|q: u64| #[trigger] after.pm().entries_of(q) == rewritten(
                before.pm().entries_of(q), q, p1, gone, existing, k, v)
            &&& forall|q: u64| q < before.pm().spec_next_id() && q != p1 ==> #[trigger] after.pm().spec_is_hot(q)
                == before.pm().spec_is_hot(q)
            &&& forall|q: u64| q < before.pm().spec_next_id() && q != p1 && !(existing && q == gone.page_id)
                ==> #[trigger] after.pm().spec_free_space(q) == before.pm().spec_free_space(q)
            &&& !existing ==> forall|h: bool| #[trigger] after.pm().index_of(h).remove(p1) == before.pm().index_of(h).remove(p1)
            &&& existing ==> forall|h: bool| #[trigger] after.pm().index_of(h).remove(p1).remove(gone.page_id)
                == before.pm().index_of(h).remove(p1).remove(gone.page_id)
            &&& !existing ==> cache_step(before.pm().cached(), after.pm().cached(), before.pm().cache_bound(), p1)
            &&& fit ==> {
                &&& p1 < before.pm().spec_next_id()
                &&& after.pm().spec_next_id() == before.pm().spec_next_id()
                &&& (!existing || gone.page_id != p1) ==> after.pm().spec_free_space(p1)
                    == before.pm().spec_free_space(p1) - required_space(k, v)
                &&& after.pm().spec_loads() == before.pm().spec_loads() + 1 + if existing { 1int } else { 0int }
                &&& (!existing && before.pm().cached().contains(p1) ==> after.pm().spec_hits() == sat_add(before.pm().spec_hits(), 1)
                    && after.pm().spec_misses() == before.pm().spec_misses())
                &&& (!existing && !before.pm().cached().contains(p1) ==> after.pm().spec_misses() == sat_add(before.pm().spec_misses(), 1)
                    && after.pm().spec_hits() == before.pm().spec_hits())
            }
            &&& !fit ==> {
                &&& p1 == before.pm().spec_next_id()
                &&& after.pm().spec_next_id() == before.pm().spec_next_id() + 1
                &&& after.pm().spec_loads() == before.pm().spec_loads() + if existing { 1int } else { 0int }
                &&& !existing ==> after.pm().spec_hits() == before.pm().spec_hits()
                    && after.pm().spec_misses() == before.pm().spec_misses()
            }
        }
        &&& r is Err ==> after.pm() == before.pm()
        &&& r is Err && before.contents().contains_key(k) ==> after.meta_of(k).location == before.meta_of(k).location
            && after.meta_of(k).freq_accessed == next_freq(before.meta_of(k).freq_accessed, before.meta_of(k).last_access, now)
    }

    /// Writes `value` under `key` at time `now`; keys are not empty. The new entry is
    /// appended to a page and the key's older entry, if any, is removed, which reclaims its
    /// bytes (see `set_outcome`). A key already present is first counted as
    /// accessed; the entry goes to a hot page when the key's frequency reaches the hot
    /// threshold, else to a cold page.
    #[verifier::rlimit(60)]
    pub fn set_at(&mut self, key: &[u8], value: &[u8], now: u64) -> (r: Result<(), DatabaseError>)
        requires
            old(self).wf(),
            key@.len() > 0,
        ensures
            final(self).wf(),
            Database::set_outcome(*old(self), *final(self), key@, value@, now, r),
    {
        let pos = self.find(key);
        let mut is_hot = false;
        let ghost before_hot = *self;
        match pos {
            Some(p) => {
                let mut m = self.index[p].meta;
                is_hot = m.update_hotness(self.hot_threshold, now);
                self.index[p].meta = m;
                let _ = histogram_record(&mut self.freq_histogram, m.freq_accessed / FREQ_ONE);
                proof {
                    self.lemma_entries_kept(&before_hot, 0, (Seq::empty(), Seq::empty()));
                    assert forall|k2: Seq<u8>| k2 != key@ && before_hot.has_key(k2) implies #[trigger] self.meta_of(k2)
                        == before_hot.meta_of(k2) by {
                        let i = before_hot.pos_of(k2);
                        before_hot.lemma_pos_of(i);
                        assert(i != p);
                        assert(self.index@[i] == before_hot.index@[i]);
                    }
                }
            },
            None => {},
        }
        let ghost mid = *self;
        let placed = self.page_manager.set(key, value, is_hot, now);
        match placed {
            Ok(Some(loc)) => {
                let size = (key.len() + value.len()) as u32;
                let meta = ObjectMetadata::fresh(loc, size, now);
                let ghost mid2 = *self;
                proof {
                    self.lemma_entries_kept(&mid, loc.page_id, (key@, value@));
                    assert(self.index@ == mid.index@);
                }
                match pos {
                    Some(p) => {
                        let gone = self.index[p].meta.location;
                        proof {
                            assert(mid2.loc_ok(p as int));
                            assert(mid.loc_ok(p as int));
                            assert(mid.index@[p as int].meta.location == gone);
                        }
                        let mut x: usize = 0;
                        while x < self.index.len()
                            invariant
                                mid2.wf(),
                                p < mid2.index@.len(),
                                mid2.key_at(p as int) == key@,
                                mid2.meta_at(p as int).location == gone,
                                self.page_manager == mid2.page_manager,
                                self.hot_threshold == mid2.hot_threshold,
                                self.index@.len() == mid2.index@.len(),
                                0 <= x <= self.index@.len(),
                                forall|y: int| 0 <= y < self.index@.len() ==> #[trigger] self.index@[y].key == mid2.index@[y].key,
                                forall|y: int| #![trigger self.index@[y]] 0 <= y < self.index@.len() ==> {
                                    &&& self.index@[y].meta.freq_accessed == mid2.index@[y].meta.freq_accessed
                                    &&& self.index@[y].meta.last_access == mid2.index@[y].meta.last_access
                                    &&& self.index@[y].meta.size == mid2.index@[y].meta.size
                                    &&& self.index@[y].meta.location == if y < x && y != p {
                                        shifted(mid2.index@[y].meta.location, gone)
                                    } else {
                                        mid2.index@[y].meta.location
                                    }
                                },
                            decreases self.index@.len() - x,
                        {
                            if x != p {
                                let l = self.index[x].meta.location;
                                if l.page_id == gone.page_id && l.page_index > gone.page_index {
                                    self.index[x].meta.location = Location { page_id: l.page_id, page_index: l.page_index - 1 };
                                }
                            }
                            x = x + 1;
                        }
                        proof {
                            mid2.page_manager.lemma_stored_pages();
                        }
                        self.page_manager.remove_at(gone.page_id, gone.page_index, now);
                        let placed = if loc.page_id == gone.page_id {
                            Location { page_id: loc.page_id, page_index: loc.page_index - 1 }
                        } else {
                            loc
                        };
                        proof {
                            if loc.page_id == gone.page_id {
                                assert(self.page_manager.entries_of(loc.page_id)[placed.page_index as int]
                                    == mid2.page_manager.entries_of(loc.page_id)[loc.page_index as int]);
                            }
                        }
                        self.index[p].meta = ObjectMetadata::fresh(placed, size, now);
                        proof {
                            self.lemma_after_rewrite(&mid2, p as int, gone, placed, key@, value@);
                            let b = *old(self);
                            let k = key@;
                            let v = value@;
                            assert(b.contents().contains_key(k));
                            assert(b.meta_of(k).location == gone);
                            assert(self.meta_of(k).location == placed);
                            assert forall|k2: Seq<u8>| #![trigger self.meta_of(k2)] k2 != k && b.contents().contains_key(k2) implies {
                                &&& self.meta_of(k2).freq_accessed == b.meta_of(k2).freq_accessed
                                &&& self.meta_of(k2).last_access == b.meta_of(k2).last_access
                                &&& self.meta_of(k2).size == b.meta_of(k2).size
                                &&& self.meta_of(k2).location == shifted(b.meta_of(k2).location, gone)
                            } by {
                                assert(mid2.meta_of(k2) == b.meta_of(k2));
                            }
                            assert forall|q: u64| #[trigger] self.pm().entries_of(q) == rewritten(
                                b.pm().entries_of(q), q, loc.page_id, gone, true, k, v) by {
                                assert(mid.pm().entries_of(q) == b.pm().entries_of(q));
                            }
                            let p1 = loc.page_id;
                            assert forall|q: u64| q < b.pm().spec_next_id() && q != p1 implies #[trigger] self.pm().spec_is_hot(q)
                                == b.pm().spec_is_hot(q) by {
                                assert(mid2.pm().spec_is_hot(q) == mid.pm().spec_is_hot(q));
                            }
                            assert forall|q: u64| q < b.pm().spec_next_id() && q != p1 && q != gone.page_id implies
                                #[trigger] self.pm().spec_free_space(q) == b.pm().spec_free_space(q) by {
                                assert(mid2.pm().spec_is_hot(q) == mid.pm().spec_is_hot(q));
                                assert(self.pm().spec_free_space(q) == mid2.pm().spec_free_space(q));
                            }
                            assert forall|h: bool| #[trigger] self.pm().index_of(h).remove(p1).remove(gone.page_id)
                                == b.pm().index_of(h).remove(p1).remove(gone.page_id) by {
                                assert(mid2.pm().index_of(h).remove(p1) == mid.pm().index_of(h).remove(p1));
                                assert(self.pm().index_of(h).remove(gone.page_id) == mid2.pm().index_of(h).remove(gone.page_id));
                                assert(self.pm().index_of(h).remove(p1).remove(gone.page_id) =~= self.pm().index_of(h).remove(gone.page_id).remove(p1));
                                assert(mid2.pm().index_of(h).remove(p1).remove(gone.page_id) =~= mid2.pm().index_of(h).remove(gone.page_id).remove(p1));
                            }
                            assert(b.write_class(k, now) == is_hot);
                            assert(b.pm().index_of(is_hot) == mid.pm().index_of(is_hot));
                            if b.fit_exists(k, v, now) {
                                assert(p1 < b.pm().spec_next_id());
                                assert(self.pm().spec_next_id() == b.pm().spec_next_id());
                                assert(self.pm().spec_loads() == b.pm().spec_loads() + 2);
                                if gone.page_id != p1 {
                                    assert(self.pm().spec_free_space(p1) == b.pm().spec_free_space(p1) - required_space(k, v));
                                }
                            } else {
                                assert(p1 == b.pm().spec_next_id());
                                assert(self.pm().spec_loads() == b.pm().spec_loads() + 1);
                            }
                            assert(self.pm().spec_is_hot(p1) == b.write_class(k, now));
                            assert(Database::set_outcome(*old(self), *self, key@, value@, now, Ok(())));
                            assert(placed.page_index == if gone.page_id == loc.page_id {
                                b.pm().entries_of(loc.page_id).len() - 1
                            } else {
                                b.pm().entries_of(loc.page_id).len() as int
                            });
                        }
                    },
                    None => {
                        let i = self.insert_position(key);
                        let k = copy_range(key, 0, key.len());
                        assert(k@ =~= key@);
                        self.index.insert(i, IndexEntry { key: k, meta });
                        proof {
                            self.lemma_after_insert(&mid2, i as int, loc, key@, value@);
                            let b = *old(self);
                            let k = key@;
                            assert(!b.contents().contains_key(k));
                            assert forall|k2: Seq<u8>| #![trigger self.meta_of(k2)] k2 != k && b.contents().contains_key(k2) implies
                                self.meta_of(k2) == b.meta_of(k2) by {
                                assert(mid2.pos_of(k2) == b.pos_of(k2));
                                assert(mid2.index@ == b.index@);
                            }
                            assert forall|q: u64| #[trigger] self.pm().entries_of(q) == rewritten(
                                b.pm().entries_of(q), q, loc.page_id, b.meta_of(k).location, false, k, value@) by {
                            }
                            assert(b.write_class(k, now) == is_hot);
                            assert(b.pm() == mid.pm());
                            assert(self.meta_of(k).location == loc);
                            assert(self.meta_of(k).size == k.len() + value@.len());
                            assert(self.size() == b.size() + 1);
                            assert(self.contents() == b.contents().insert(k, value@));
                            assert(self.pm().spec_is_hot(loc.page_id) == is_hot);
                            assert(cache_step(b.pm().cached(), self.pm().cached(), b.pm().cache_bound(), loc.page_id));
                            assert(self.pm().spec_next_id() <= b.pm().spec_next_id() + 1);
                            let p1 = loc.page_id;
                            assert(self.pm() == mid2.pm());
                            assert forall|q: u64| q < b.pm().spec_next_id() && q != p1 implies #[trigger] self.pm().spec_is_hot(q)
                                == b.pm().spec_is_hot(q) && self.pm().spec_free_space(q) == b.pm().spec_free_space(q) by {}
                            assert forall|q: u64| q < b.pm().spec_next_id() && q != p1 implies #[trigger] self.pm().spec_free_space(q)
                                == b.pm().spec_free_space(q) by {
                                assert(self.pm().spec_is_hot(q) == b.pm().spec_is_hot(q));
                            }
                            assert forall|h: bool| #[trigger] self.pm().index_of(h).remove(p1) == b.pm().index_of(h).remove(p1) by {}
                            if b.fit_exists(k, value@, now) {
                                assert(p1 < b.pm().spec_next_id());
                                assert(self.pm().spec_loads() == b.pm().spec_loads() + 1);
                                assert(self.pm().spec_free_space(p1) == b.pm().spec_free_space(p1) - required_space(k, value@));
                                assert(b.pm().cached().contains(p1) ==> self.pm().spec_hits() == sat_add(b.pm().spec_hits(), 1)
                                    && self.pm().spec_misses() == b.pm().spec_misses());
                                assert(!b.pm().cached().contains(p1) ==> self.pm().spec_misses() == sat_add(b.pm().spec_misses(), 1)
                                    && self.pm().spec_hits() == b.pm().spec_hits());
                            } else {
                                assert(p1 == b.pm().spec_next_id());
                                assert(self.pm().spec_hits() == b.pm().spec_hits());
                                assert(self.pm().spec_loads() == b.pm().spec_loads());
                            }
                            assert(self.meta_of(k).freq_accessed == FREQ_ONE && self.meta_of(k).last_access == now);
                            assert(self.pm().entries_of(p1) == b.pm().entries_of(p1).push((k, value@)));
                            assert(p1 < self.pm().spec_next_id());
                            assert(Database::set_outcome(*old(self), *self, key@, value@, now, Ok(())));
                        }
                    },
                }
                Ok(())
            },
            Ok(None) => {
                proof {
                    self.lemma_entries_kept(&mid, 0, (Seq::empty(), Seq::empty()));
                    if old(self).has_key(key@) {
                        assert(self.pos_of(key@) == mid.pos_of(key@));
                        assert(self.index@ == mid.index@);
                    }
                    assert(Database::set_outcome(*old(self), *self, key@, value@, now, Err(DatabaseError::StorageFull)));
                }
                Err(DatabaseError::StorageFull)
            },
            Err(e) => Err(DatabaseError::Storage(e)),
        }
    }

    /// What reading `k` at `now` does, taking `before` to `after` with result `r`.
    pub open spec fn get_outcome(
        before: Database,
        after: Database,
        k: Seq<u8>,
        now: u64,
        r: Result<Vec<u8>, DatabaseError>,
    ) -> bool {
        let pid = before.meta_of(k).location.page_id;
        let hit = before.pm().cached().contains(pid);
        &&& after.contents() == before.contents()
        &&& after.size() == before.size()
        &&& after.spec_keys() == before.spec_keys()
        &&& after.pm().spec_page_size() == before.pm().spec_page_size()
        &&& after.pm().cache_bound() == before.pm().cache_bound()
        &&& after.pm().spec_next_id() == before.pm().spec_next_id()
        &&& after.spec_hot_threshold() == before.spec_hot_threshold()
        &&& forall|k2: Seq<u8>|
            k2 != k && before.contents().contains_key(k2) ==> #[trigger] after.meta_of(k2) == before.meta_of(k2)
        &&& !before.contents().contains_key(k) ==> r == Err::<Vec<u8>, DatabaseError>(DatabaseError::KeyNotFound)
            && after.pm() == before.pm()
        &&& before.contents().contains_key(k) ==> {
            &&& r is Ok && r->Ok_0@ == before.contents()[k]
            &&& after.pm().spec_loads() == before.pm().spec_loads() + 1
            &&& after.meta_of(k).freq_accessed == next_freq(before.meta_of(k).freq_accessed, before.meta_of(k).last_access, now)
            &&& after.meta_of(k).last_access == now
            &&& after.meta_of(k).location == before.meta_of(k).location
            &&& cache_step(before.pm().cached(), after.pm().cached(), before.pm().cache_bound(), pid)
            &&& hit ==> after.pm().spec_hits() == sat_add(before.pm().spec_hits(), 1)
                && after.pm().spec_misses() == before.pm().spec_misses()
                && after.pm().spec_device().spec_metrics() == before.pm().spec_device().spec_metrics()
            &&& !hit ==> after.pm().spec_misses() == sat_add(before.pm().spec_misses(), 1)
                && after.pm().spec_hits() == before.pm().spec_hits()
                && after.pm().spec_device().spec_metrics().spec_reads() == sat_add(
                before.pm().spec_device().spec_metrics().spec_reads(), 1)
        }
    }

    /// Reads the value of `key` at time `now`, counting an access to the key.
    pub fn get_at(&mut self, key: &[u8], now: u64) -> (r: Result<Vec<u8>, DatabaseError>)
        requires
            old(self).wf(),
        ensures
            final(self).wf(),
            Database::get_outcome(*old(self), *final(self), key@, now, r),
    {
        match self.find(key) {
            None => Err(DatabaseError::KeyNotFound),
            Some(p) => {
                let ghost before = *self;
                let mut m = self.index[p].meta;
                let _ = m.update_hotness(self.hot_threshold, now);
                self.index[p].meta = m;
                proof {
                    self.lemma_entries_kept(&before, 0, (Seq::empty(), Seq::empty()));
                    assert(before.loc_ok(p as int));
                    assert(self.spec_keys() =~= before.spec_keys());
                }
                let loc = m.location;
                let ghost mid = *self;
                let got = self.page_manager.get(&loc, key, now);
                proof {
                    self.lemma_entries_kept(&mid, 0, (Seq::empty(), Seq::empty()));
                    assert(self.spec_keys() =~= mid.spec_keys());
                    assert(self.index@ == mid.index@);
                }
                match got {
                    Ok(Some(v)) => Ok(v),
                    Ok(None) => Err(DatabaseError::InvalidData),
                    Err(PageManagerError::Storage(SsdError::Decode(_))) => Err(DatabaseError::InvalidData),
                    Err(PageManagerError::Storage(SsdError::InvalidPageId)) => Err(DatabaseError::InvalidData),
                    Err(e) => Err(DatabaseError::Storage(e)),
                }
            },
        }
    }

    /// Writes `value` under `key`, timed by the system clock; see `set_at`.
    pub fn set(&mut self, key: &[u8], value: &[u8]) -> (r: Result<(), DatabaseError>)
        requires
            old(self).wf(),
            key@.len() > 0,
        ensures
            final(self).wf(),
            exists|now: u64| Database::set_outcome(*old(self), *final(self), key@, value@, now, r),
    {
        let now = now_secs();
        self.set_at(key, value, now)
    }

    /// Reads the value of `key`, timed by the system clock; see `get_at`.
    pub fn get(&mut self, key: &[u8]) -> (r: Result<Vec<u8>, DatabaseError>)
        requires
            old(self).wf(),
        ensures
            final(self).wf(),
            exists|now: u64| Database::get_outcome(*old(self), *final(self), key@, now, r),
    {
        let now = now_secs();
        self.get_at(key, now)
    }

    /// All keys, in strictly increasing byte-wise lexicographic order.
    pub fn keys(&self) -> (r: Vec<Vec<u8>>)
        requires
            self.wf(),
        ensures
            r@.len() == self.size(),
            forall|i: int| 0 <= i < r@.len() ==> #[trigger] r@[i]@ == self.spec_keys()[i],
            forall|i: int| 0 <= i < r@.len() - 1 ==> lex_lt(#[trigger] r@[i]@, r@[i + 1]@),
            forall|k: Seq<u8>| self.contents().contains_key(k) <==> exists|i: int| 0 <= i < r@.len() && #[trigger] r@[i]@ == k,
    {
        let mut r: Vec<Vec<u8>> = Vec::new();
        let mut i: usize = 0;
        while i < self.index.len()
            invariant
                self.wf(),
                0 <= i <= self.index@.len(),
                r@.len() == i,
                forall|j: int| 0 <= j < i ==> #[trigger] r@[j]@ == self.key_at(j),
            decreases self.index@.len() - i,
        {
            let k = self.index[i].key.as_slice();
            let c = copy_range(k, 0, k.len());
            assert(c@ =~= k@);
            r.push(c);
            i = i + 1;
        }
        proof {
            assert forall|i: int| 0 <= i < r@.len() - 1 implies lex_lt(#[trigger] r@[i]@, r@[i + 1]@) by {
                assert(lex_lt(self.key_at(i), self.key_at(i + 1)));
            }
            assert forall|k: Seq<u8>| self.contents().contains_key(k) <==> exists|i: int| 0 <= i < r@.len() && #[trigger] r@[i]@ == k by {
                if self.has_key(k) {
                    let i = choose|i: int| 0 <= i < self.size() && self.key_at(i) == k;
                    assert(r@[i]@ == k);
                }
            }
        }
        r
    }

    /// Number of keys.
    pub fn len(&self) -> (r: usize)
        requires
            self.wf(),
        ensures
            r == self.size(),
            r == self.contents().dom().len(),
    {
        proof {
            self.lemma_size_is_key_count();
        }
        self.index.len()
    }

    /// Whether no key is stored.
    pub fn is_empty(&self) -> (r: bool)
        requires
            self.wf(),
        ensures
            r == (self.contents().dom().len() == 0),
            r == (self.size() == 0),
    {
        proof {
            self.lemma_size_is_key_count();
        }
        self.index.len() == 0
    }

    /// The number of keys equals the number of distinct keys in the contents.
    pub proof fn lemma_size_is_key_count(&self)
        requires
            self.wf(),
        ensures
            self.contents().dom().len() == self.size(),
            self.contents().dom() == self.spec_keys().to_set(),
    {
        let ks = self.spec_keys();
        assert(self.contents().dom() =~= ks.to_set()) by {
            assert forall|k: Seq<u8>| self.contents().dom().contains(k) <==> ks.to_set().contains(k) by {
                if self.has_key(k) {
                    let i = choose|i: int| 0 <= i < self.size() && self.key_at(i) == k;
                    assert(ks[i] == k);
                }
                if ks.contains(k) {
                    let i = choose|i: int| 0 <= i < ks.len() && ks[i] == k;
                    assert(self.key_at(i) == k);
                }
            }
        }
        assert(ks.no_duplicates()) by {
            assert forall|i: int, j: int| 0 <= i < ks.len() && 0 <= j < ks.len() && i != j implies ks[i] != ks[j] by {
                assert(self.key_at(i) != self.key_at(j));
            }
        }
        ks.unique_seq_to_set();
    }

    /// Metadata of `key`: its location, size, frequency and last access.
    pub fn metadata(&self, key: &[u8]) -> (r: Option<ObjectMetadata>)
        requires
            self.wf(),
        ensures
            r is None <==> !self.contents().contains_key(key@),
            r is Some ==> r->Some_0 == self.meta_of(key@),
    {
        match self.find(key) {
            Some(p) => Some(self.index[p].meta),
            None => None,
        }
    }

    pub fn hot_threshold(&self) -> (r: u32)
        ensures
            r == self.spec_hot_threshold(),
    {
        self.hot_threshold
    }

    /// Keys among the first `n` of the index, in index order, whose location is on page `pid`.
    pub open spec fn keys_on_page(&self, pid: u64, n: int) -> Seq<(Seq<u8>, ObjectMetadata)>
        decreases n,
    {
        if n <= 0 {
            Seq::empty()
        } else {
            let rest = self.keys_on_page(pid, n - 1);
            if self.meta_at(n - 1).location.page_id == pid {
                rest.push((self.key_at(n - 1), self.meta_at(n - 1)))
            } else {
                rest
            }
        }
    }

    /// Every allocated page's status with the keys located on it, by page id.
    pub fn page_report(&self) -> (r: Vec<PageReport>)
        requires
            self.wf(),
        ensures
            r@.len() == self.pm().spec_next_id(),
            forall|i: int| 0 <= i < r@.len() ==> {
                &&& (#[trigger] r@[i]).metrics.page_id == i
                &&& r@[i].metrics.is_hot == self.pm().spec_is_hot(i as u64)
                &&& r@[i].metrics.free_space == self.pm().spec_free_space(i as u64)
                &&& report_view(r@[i].objects@) == self.keys_on_page(i as u64, self.size() as int)
            },
    {
        let n = self.page_manager.page_count();
        let mut r: Vec<PageReport> = Vec::new();
        let mut pid: u64 = 0;
        while pid < n
            invariant
                self.wf(),
                n == self.pm().spec_next_id(),
                pid <= n,
                r@.len() == pid,
                forall|i: int| 0 <= i < r@.len() ==> {
                    &&& (#[trigger] r@[i]).metrics.page_id == i
                    &&& r@[i].metrics.is_hot == self.pm().spec_is_hot(i as u64)
                    &&& r@[i].metrics.free_space == self.pm().spec_free_space(i as u64)
                    &&& report_view(r@[i].objects@) == self.keys_on_page(i as u64, self.size() as int)
                },
            decreases n - pid,
        {
            let mut objects: Vec<ObjectReport> = Vec::new();
            let mut j: usize = 0;
            while j < self.index.len()
                invariant
                    self.wf(),
                    0 <= j <= self.index@.len(),
                    report_view(objects@) == self.keys_on_page(pid, j as int),
                decreases self.index@.len() - j,
            {
                let e = &self.index[j];
                if e.meta.location.page_id == pid {
                    let k = copy_range(e.key.as_slice(), 0, e.key.len());
                    assert(k@ =~= e.key@);
                    let ghost prev = objects@;
                    objects.push(ObjectReport { key: k, meta: e.meta });
                    assert(report_view(objects@) =~= report_view(prev).push((k@, e.meta)));
                }
                j = j + 1;
            }
            match self.page_manager.page_metrics(pid) {
                Some(m) => r.push(PageReport { metrics: m, objects }),
                None => {},
            }
            pid = pid + 1;
        }
        r
    }

    /// Hits of the page cache.
    pub fn hit_count(&self) -> (r: u64)
        ensures
            r == self.pm().spec_hits(),
    {
        self.page_manager.hit_count()
    }

    /// Misses of the page cache.
    pub fn miss_count(&self) -> (r: u64)
        ensures
            r == self.pm().spec_misses(),
    {
        self.page_manager.miss_count()
    }

    /// Counters of the device.
    pub fn metrics(&self) -> (r: &SsdMetrics)
        ensures
            *r == self.pm().spec_device().spec_metrics(),
    {
        self.page_manager.device().metrics()
    }

    /// Frequencies recorded on rewrites of existing keys, in whole accesses.
    pub fn freq_histogram(&self) -> &FreqHistogram {
        &self.freq_histogram
    }

    /// The page manager, for inspection.
    pub fn page_manager(&self) -> (r: &PageManager)
        ensures
            *r == self.pm(),
    {
        &self.page_manager
    }

    /// Status of every allocated page, by page id.
    pub fn get_page_metrics(&self) -> (r: Vec<PageMetrics>)
        requires
            self.wf(),
        ensures
            r@.len() == self.pm().spec_next_id(),
            forall|i: int| 0 <= i < r@.len() ==> (#[trigger] r@[i]).page_id == i
                && r@[i].is_hot == self.pm().spec_is_hot(i as u64)
                && r@[i].free_space == self.pm().spec_free_space(i as u64),
    {
        let n = self.page_manager.page_count();
        let mut r: Vec<PageMetrics> = Vec::new();
        let mut pid: u64 = 0;
        while pid < n
            invariant
                self.wf(),
                n == self.pm().spec_next_id(),
                pid <= n,
                r@.len() == pid,
                forall|i: int| 0 <= i < r@.len() ==> (#[trigger] r@[i]).page_id == i
                    && r@[i].is_hot == self.pm().spec_is_hot(i as u64)
                    && r@[i].free_space == self.pm().spec_free_space(i as u64),
            decreases n - pid,
        {
            match self.page_manager.page_metrics(pid) {
                Some(m) => r.push(m),
                None => {},
            }
            pid = pid + 1;
        }
        r
    }

    /// Hands out the blocks written since the last call, as page ids with their bytes, in
    /// write order, so that the owner of the backing file can persist them.
    pub fn take_written_blocks(&mut self) -> (r: Vec<(u64, Vec<u8>)>)
        requires
            old(self).wf(),
        ensures
            final(self).wf(),
            final(self).contents() == old(self).contents(),
            final(self).size() == old(self).size(),
            r@.len() == old(self).pm().spec_device().spec_written().len(),
            forall|i: int| 0 <= i < r@.len() ==> (#[trigger] r@[i]).0 == old(self).pm().spec_device().spec_written()[i]
                && r@[i].1@ == final(self).pm().spec_device().block(r@[i].0),
    {
        let ghost before = *self;
        let ids = self.page_manager.take_written();
        proof {
            self.lemma_entries_kept(&before, 0, (Seq::empty(), Seq::empty()));
        }
        let mut r: Vec<(u64, Vec<u8>)> = Vec::new();
        let mut i: usize = 0;
        while i < ids.len()
            invariant
                self.wf(),
                0 <= i <= ids@.len(),
                r@.len() == i,
                forall|j: int| 0 <= j < i ==> (#[trigger] r@[j]).0 == ids@[j]
                    && r@[j].1@ == self.pm().spec_device().block(r@[j].0),
            decreases ids@.len() - i,
        {
            let pid = ids[i];
            let bytes = self.page_manager.device().block_bytes(pid);
            r.push((pid, bytes));
            i = i + 1;
        }
        r
    }

    /// What the device holds: for every key, the stored page of its location holds the key
    /// and its current value at the recorded position.
    pub proof fn lemma_persisted_values(&self, k: Seq<u8>)
        requires
            self.wf(),
            self.contents().contains_key(k),
        ensures
            ({
                let loc = self.meta_of(k).location;
                let d = self.pm().spec_device();
                &&& d.stored(loc.page_id) is Ok
                &&& loc.page_index < d.stored(loc.page_id)->Ok_0.entries.len()
                &&& d.stored(loc.page_id)->Ok_0.entries[loc.page_index as int] == (k, self.contents()[k])
            }),
    {
        let i = self.pos_of(k);
        assert(self.loc_ok(i));
        self.page_manager.lemma_stored_pages();
    }

    /// Keys earlier in the index sort before later ones.
    proof fn lemma_sorted(&self, i: int, j: int)
        requires
            self.wf(),
            0 <= i < j < self.size(),
        ensures
            lex_lt(self.key_at(i), self.key_at(j)),
        decreases j - i,
    {
        if j > i + 1 {
            self.lemma_sorted(i, j - 1);
            assert(lex_lt(self.key_at(j - 1), self.key_at(j)));
            lemma_lex_transitive(self.key_at(i), self.key_at(j - 1), self.key_at(j));
        }
    }

    /// Binary search for `key`: its position, or where it would go to keep the index sorted.
    fn search(&self, key: &[u8]) -> (r: Result<usize, usize>)
        requires
            self.wf(),
        ensures
            r is Ok ==> r->Ok_0 < self.size() && self.key_at(r->Ok_0 as int) == key@,
            r is Err ==> {
                let p = r->Err_0;
                &&& p <= self.size()
                &&& forall|j: int| 0 <= j < p ==> lex_lt(#[trigger] self.key_at(j), key@)
                &&& forall|j: int| p <= j < self.size() ==> lex_lt(key@, #[trigger] self.key_at(j))
            },
    {
        let mut lo: usize = 0;
        let mut hi: usize = self.index.len();
        while lo < hi
            invariant
                self.wf(),
                0 <= lo <= hi <= self.index@.len(),
                forall|j: int| 0 <= j < lo ==> lex_lt(#[trigger] self.key_at(j), key@),
                forall|j: int| hi <= j < self.index@.len() ==> lex_lt(key@, #[trigger] self.key_at(j)),
            decreases hi - lo,
        {
            let mid = lo + (hi - lo) / 2;
            let k = self.index[mid].key.as_slice();
            if lex_less(k, key) {
                proof {
                    assert forall|j: int| 0 <= j < mid + 1 implies lex_lt(#[trigger] self.key_at(j), key@) by {
                        if j < mid {
                            self.lemma_sorted(j, mid as int);
                            lemma_lex_transitive(self.key_at(j), self.key_at(mid as int), key@);
                        }
                    }
                }
                lo = mid + 1;
            } else if bytes_eq(k, key) {
                return Ok(mid);
            } else {
                proof {
                    lemma_lex_total(self.key_at(mid as int), key@);
                    assert forall|j: int| mid <= j < self.index@.len() implies lex_lt(key@, #[trigger] self.key_at(j)) by {
                        if j > mid {
                            self.lemma_sorted(mid as int, j);
                            lemma_lex_transitive(key@, self.key_at(mid as int), self.key_at(j));
                        }
                    }
                }
                hi = mid;
            }
        }
        Err(lo)
    }

    /// Position of `key` in the index.
    fn find(&self, key: &[u8]) -> (r: Option<usize>)
        requires
            self.wf(),
        ensures
            r is None <==> !self.has_key(key@),
            r is Some ==> r->Some_0 < self.size() && self.key_at(r->Some_0 as int) == key@
                && self.pos_of(key@) == r->Some_0,
    {
        match self.search(key) {
            Ok(p) => {
                proof {
                    self.lemma_pos_of(p as int);
                }
                Some(p)
            },
            Err(p) => {
                proof {
                    assert forall|j: int| 0 <= j < self.size() implies self.key_at(j) != key@ by {
                        if self.key_at(j) == key@ {
                            lemma_lex_irreflexive(key@);
                        }
                    }
                }
                None
            },
        }
    }

    /// Where a key not in the index goes to keep the index sorted.
    fn insert_position(&self, key: &[u8]) -> (r: usize)
        requires
            self.wf(),
            !self.has_key(key@),
        ensures
            r <= self.size(),
            forall|j: int| 0 <= j < r ==> lex_lt(#[trigger] self.key_at(j), key@),
            r < self.size() ==> lex_lt(key@, self.key_at(r as int)),
    {
        match self.search(key) {
            Ok(p) => p,
            Err(p) => p,
        }
    }
}

} // verus!
