//! The page manager: page allocation by hot/cold class and smallest fit, an LRU
//! page cache, and write-through to the device.
use hashlink::LruCache;
use vstd::prelude::*;

use crate::codec::{encode, lemma_decode_encode};
use crate::device::{sat_add, SsdDevice, SsdError};
use crate::free_space::FreeSpaceIndex;
use crate::lru::{lru_bound, lru_capacity, lru_insert, lru_len, lru_new, lru_order, lru_pop, lru_touch};
use crate::bytes::copy_range;
use crate::page::{fits, model_encodable, model_free, model_get, model_size, opt_bytes, Page, PageModel};

verus! {

/// Where an entry is stored: a page and a position in its entry vector.
#[derive(Debug, Clone, Copy, PartialEq, Eq, Structural)]
pub struct Location {
    pub page_id: u64,
    pub page_index: usize,
}

/// Errors of the page manager.
#[derive(Debug, Clone, Copy, PartialEq, Eq, Structural)]
pub enum PageManagerError {
    Storage(SsdError),
    InvalidPage,
}

impl From<SsdError> for PageManagerError {
    fn from(error: SsdError) -> (r: PageManagerError)
        ensures
            r == PageManagerError::Storage(error),
    {
        PageManagerError::Storage(error)
    }
}

impl vstd::std_specs::convert::FromSpecImpl<SsdError> for PageManagerError {
    open spec fn obeys_from_spec() -> bool {
        true
    }

    open spec fn from_spec(v: SsdError) -> PageManagerError {
        PageManagerError::Storage(v)
    }
}

/// What the manager knows of one page.
#[derive(Debug)]
pub struct PageStatus {
    in_memory: Option<Page>,
    is_hot: bool,
    free_space: u32,
    access_count: u64,
    last_access: u64,
}

/// Page metrics for reporting.
#[derive(Debug, Clone, Copy, PartialEq, Eq, Structural)]
pub struct PageMetrics {
    pub page_id: u64,
    pub is_hot: bool,
    pub free_space: u32,
    pub access_count: u64,
    pub last_access: u64,
}

/// Whether an entry of this key and value fits into an empty page of this size.
pub open spec fn fits_empty(page_size: u32, k: Seq<u8>, v: Seq<u8>) -> bool {
    27 + 8 + k.len() + v.len() <= page_size
}

/// How the cache's recency order changes when page `pid` is loaded: a cached page moves to
/// the most recently used end; another page joins there, after the least recently used page
/// left a full cache.
pub open spec fn cache_step(before: Seq<u64>, after: Seq<u64>, bound: nat, pid: u64) -> bool {
    if before.contains(pid) {
        exists|i: int| 0 <= i < before.len() && before[i] == pid && after == before.remove(i).push(pid)
    } else {
        after == (if before.len() >= bound {
            before.drop_first()
        } else {
            before
        }).push(pid)
    }
}

/// A block that a manager can take over as page `pid`: it decodes, names `pid`, has the
/// device's page size as capacity, and is within it.
pub open spec fn stored_valid(d: SsdDevice, pid: u64) -> bool {
    &&& d.stored(pid) is Ok
    &&& d.stored(pid)->Ok_0.id == pid
    &&& d.stored(pid)->Ok_0.capacity == d.spec_page_size()
    &&& model_size(d.stored(pid)->Ok_0) <= d.spec_page_size()
}

/// Locations of all entries of the first `n` stored pages, by page id, then position.
pub open spec fn scan_locations(d: SsdDevice, n: nat) -> Seq<Location>
    decreases n,
{
    if n == 0 {
        Seq::empty()
    } else {
        scan_locations(d, (n - 1) as nat) + Seq::new(
            d.stored((n - 1) as u64)->Ok_0.entries.len(),
            |j: int| Location { page_id: (n - 1) as u64, page_index: j as usize },
        )
    }
}

/// The entries at `scan_locations(d, n)`, in that order.
pub open spec fn scan_entries(d: SsdDevice, n: nat) -> Seq<(Seq<u8>, Seq<u8>)> {
    scan_locations(d, n).map_values(
        |l: Location| d.stored(l.page_id)->Ok_0.entries[l.page_index as int],
    )
}

/// Bytes an entry of this key and value takes in a page.
pub open spec fn required_space(k: Seq<u8>, v: Seq<u8>) -> nat {
    8 + k.len() + v.len()
}

/// A key moved to the most recently used end keeps the set of keys and their distinctness.
proof fn lemma_lru_touch(c0: Seq<u64>, c1: Seq<u64>, i: int, pid: u64)
    requires
        c0.no_duplicates(),
        0 <= i < c0.len(),
        c0[i] == pid,
        c1 == c0.remove(i).push(pid),
    ensures
        c1.no_duplicates(),
        c1.len() == c0.len(),
        forall|q: u64| #[trigger] c1.contains(q) <==> c0.contains(q),
{
    assert forall|q: u64| #[trigger] c1.contains(q) <==> c0.contains(q) by {
        if c0.contains(q) {
            let j = choose|j: int| 0 <= j < c0.len() && c0[j] == q;
            if j == i {
                assert(c1[c1.len() - 1] == q);
            } else if j < i {
                assert(c1[j] == q);
            } else {
                assert(c1[j - 1] == q);
            }
        }
        if c1.contains(q) {
            let j = choose|j: int| 0 <= j < c1.len() && c1[j] == q;
            if j == c1.len() - 1 {
            } else if j < i {
                assert(c0[j] == q);
            } else {
                assert(c0[j + 1] == q);
            }
        }
    }
    assert forall|a: int, b: int| 0 <= a < c1.len() && 0 <= b < c1.len() && a != b implies c1[a] != c1[b] by {
        let a2 = if a == c1.len() - 1 { i } else if a < i { a } else { a + 1 };
        let b2 = if b == c1.len() - 1 { i } else if b < i { b } else { b + 1 };
        assert(c1[a] == c0[a2] && c1[b] == c0[b2]);
    }
}

/// A new key joining at the most recently used end, after the least recently used key may
/// have left: the keys are the new one and the remaining old ones, all distinct.
proof fn lemma_lru_evict_push(c0: Seq<u64>, c1: Seq<u64>, c2: Seq<u64>, evicted: bool, pid: u64)
    requires
        c0.no_duplicates(),
        !c0.contains(pid),
        evicted ==> c0.len() > 0 && c1 == c0.drop_first(),
        !evicted ==> c1 == c0,
        c2 == c1.push(pid),
    ensures
        c2.no_duplicates(),
        !c1.contains(pid),
        c1.len() == c0.len() - if evicted { 1int } else { 0int },
        forall|q: u64| #[trigger] c2.contains(q) <==> (q == pid || (c0.contains(q) && !(evicted && q == c0[0]))),
{
    assert forall|q: u64| #[trigger] c1.contains(q) <==> (c0.contains(q) && !(evicted && q == c0[0])) by {
        if c0.contains(q) && !(evicted && q == c0[0]) {
            let j = choose|j: int| 0 <= j < c0.len() && c0[j] == q;
            if evicted {
                assert(j != 0);
                assert(c1[j - 1] == q);
            }
        }
        if c1.contains(q) {
            let j = choose|j: int| 0 <= j < c1.len() && c1[j] == q;
            if evicted {
                assert(c0[j + 1] == q);
                assert(j + 1 != 0);
            }
        }
    }
    assert forall|q: u64| #[trigger] c2.contains(q) <==> (q == pid || c1.contains(q)) by {
        if c2.contains(q) {
            let j = choose|j: int| 0 <= j < c2.len() && c2[j] == q;
            if j < c1.len() {
                assert(c1[j] == q);
            }
        }
        if c1.contains(q) {
            let j = choose|j: int| 0 <= j < c1.len() && c1[j] == q;
            assert(c2[j] == q);
        }
        if q == pid {
            assert(c2[c2.len() - 1] == pid);
        }
    }
    assert(c1.no_duplicates()) by {
        if evicted {
            assert forall|a: int, b: int| 0 <= a < c1.len() && 0 <= b < c1.len() && a != b implies c1[a] != c1[b] by {
                assert(c1[a] == c0[a + 1] && c1[b] == c0[b + 1]);
            }
        }
    }
    assert forall|a: int, b: int| 0 <= a < c2.len() && 0 <= b < c2.len() && a != b implies c2[a] != c2[b] by {
        if a < c1.len() && b < c1.len() {
            assert(c2[a] == c1[a] && c2[b] == c1[b]);
        } else if a < c1.len() {
            assert(c2[a] == c1[a]);
        } else if b < c1.len() {
            assert(c2[b] == c1[b]);
        }
    }
}

pub struct PageManager {
    pages: Vec<PageStatus>,
    device: SsdDevice,
    next_id: u64,
    page_size: u32,
    page_cache: LruCache<u64, ()>,
    hit_count: u64,
    miss_count: u64,
    hot_free_spaces: FreeSpaceIndex,
    cold_free_spaces: FreeSpaceIndex,
    loads: Ghost<nat>,
}

impl PageManager {
    /// Page loads issued so far: one per lookup of a page through the cache or the device.
    pub closed spec fn spec_loads(&self) -> nat {
        self.loads@
    }

    /// While no counter saturated, every load counted as exactly one hit or one miss.
    pub closed spec fn counters_ok(&self) -> bool {
        self.loads@ <= u64::MAX ==> self.hit_count + self.miss_count == self.loads@
    }

    pub closed spec fn spec_next_id(&self) -> u64 {
        self.next_id
    }

    pub closed spec fn spec_page_size(&self) -> u32 {
        self.page_size
    }

    pub closed spec fn spec_hits(&self) -> u64 {
        self.hit_count
    }

    pub closed spec fn spec_misses(&self) -> u64 {
        self.miss_count
    }

    pub closed spec fn spec_device(&self) -> SsdDevice {
        self.device
    }

    /// The page that the device holds for `pid`.
    pub open spec fn content(&self, pid: u64) -> PageModel {
        self.spec_device().stored(pid)->Ok_0
    }

    /// Entries of page `pid`; none for a page not yet allocated.
    pub open spec fn entries_of(&self, pid: u64) -> Seq<(Seq<u8>, Seq<u8>)> {
        if pid < self.spec_next_id() {
            self.content(pid).entries
        } else {
            Seq::empty()
        }
    }

    pub closed spec fn spec_is_hot(&self, pid: u64) -> bool {
        self.pages@[pid as int].is_hot
    }

    pub closed spec fn spec_free_space(&self, pid: u64) -> u32 {
        self.pages@[pid as int].free_space
    }

    pub closed spec fn spec_access_count(&self, pid: u64) -> u64 {
        self.pages@[pid as int].access_count
    }

    /// Whether the page is held in memory.
    pub closed spec fn resident(&self, pid: u64) -> bool {
        pid < self.next_id && self.pages@[pid as int].in_memory is Some
    }

    /// Page ids in the cache, from the least to the most recently used.
    pub closed spec fn cached(&self) -> Seq<u64> {
        lru_order(self.page_cache)
    }

    pub closed spec fn cache_bound(&self) -> nat {
        lru_bound(self.page_cache)
    }

    /// The free-space index of a class.
    pub closed spec fn index_of(&self, hot: bool) -> Map<u64, u32> {
        if hot {
            self.hot_free_spaces@
        } else {
            self.cold_free_spaces@
        }
    }

    /// A page belongs in the index of `hot` when it is of that class and has free bytes.
    pub closed spec fn listed_in(&self, pid: u64, hot: bool) -> bool {
        pid < self.next_id && self.pages@[pid as int].is_hot == hot
            && self.pages@[pid as int].free_space > 0
    }

    pub closed spec fn page_ok(&self, pid: u64) -> bool {
        let m = self.content(pid);
        let st = self.pages@[pid as int];
        &&& self.device.stored(pid) is Ok
        &&& m.id == pid
        &&& m.capacity == self.page_size
        &&& model_size(m) <= self.page_size
        &&& model_encodable(m)
        &&& st.free_space == model_free(m)
        &&& st.in_memory is Some ==> st.in_memory->Some_0.wf() && st.in_memory->Some_0@ == m
    }

    pub closed spec fn cache_ok(&self) -> bool {
        let c = lru_order(self.page_cache);
        &&& lru_bound(self.page_cache) >= 1
        &&& c.no_duplicates()
        &&& c.len() <= lru_bound(self.page_cache)
        &&& forall|pid: u64|
            #![trigger c.contains(pid)]
            #![trigger self.resident(pid)]
            c.contains(pid) <==> self.resident(pid)
    }

    pub closed spec fn index_ok(&self) -> bool {
        &&& self.hot_free_spaces.wf()
        &&& self.cold_free_spaces.wf()
        &&& forall|pid: u64, hot: bool|
            #![trigger self.index_of(hot).contains_key(pid)]
            #![trigger self.listed_in(pid, hot)]
            self.index_of(hot).contains_key(pid) <==> self.listed_in(pid, hot)
        &&& forall|pid: u64, hot: bool| #[trigger]
            self.index_of(hot).contains_key(pid) ==> self.index_of(hot)[pid]
                == self.pages@[pid as int].free_space
    }

    /// The manager's invariant.
    pub closed spec fn wf(&self) -> bool {
        &&& self.pages@.len() == self.next_id
        &&& self.device.spec_page_size() == self.page_size
        &&& forall|pid: u64| pid < self.next_id ==> #[trigger] self.page_ok(pid)
        &&& self.cache_ok()
        &&& self.index_ok()
        &&& self.counters_ok()
    }

    /// A manager over a device, with no page allocated yet.
    pub fn new(device: SsdDevice, cache_capacity: usize) -> (r: PageManager)
        requires
            cache_capacity >= 1,
        ensures
            r.wf(),
            r.spec_next_id() == 0,
            r.spec_page_size() == device.spec_page_size(),
            r.spec_hits() == 0,
            r.spec_misses() == 0,
            r.spec_loads() == 0,
            r.cache_bound() == cache_capacity,
    {
        let page_size = device.page_size();
        let r = PageManager {
            pages: Vec::new(),
            device,
            next_id: 0,
            page_size,
            page_cache: lru_new(cache_capacity),
            hit_count: 0,
            miss_count: 0,
            hot_free_spaces: FreeSpaceIndex::new(),
            cold_free_spaces: FreeSpaceIndex::new(),
            loads: Ghost(0),
        };
        proof {
            assert forall|pid: u64, hot: bool| #[trigger]
                r.index_of(hot).contains_key(pid) <==> r.listed_in(pid, hot) by {}
        }
        r
    }

    /// A manager over the pages a device already holds: every block up to the device's
    /// block count becomes a cold page that is not in memory. Also gives every stored
    /// entry's key, location and size, in page order.
    pub fn open(device: SsdDevice, cache_capacity: usize) -> (r: Result<
        (PageManager, Vec<(Vec<u8>, Location, u32)>),
        PageManagerError,
    >)
        requires
            cache_capacity >= 1,
        ensures
            r is Ok <==> forall|pid: u64| pid < device.spec_block_count() ==> #[trigger] stored_valid(device, pid),
            r is Ok ==> {
                let pm = r->Ok_0.0;
                let list = r->Ok_0.1;
                let n = device.spec_block_count();
                &&& pm.wf()
                &&& pm.spec_next_id() == n
                &&& pm.spec_page_size() == device.spec_page_size()
                &&& pm.spec_hits() == 0 && pm.spec_misses() == 0 && pm.spec_loads() == 0
                &&& pm.cached() == Seq::<u64>::empty()
                &&& pm.cache_bound() == cache_capacity
                &&& forall|q: u64| #[trigger] pm.spec_device().block(q) == device.block(q)
                &&& forall|q: u64| q < n ==> #[trigger] pm.entries_of(q) == device.stored(q)->Ok_0.entries
                    && !pm.spec_is_hot(q)
                &&& pm.index_of(true) == Map::<u64, u32>::empty()
                &&& pm.spec_device().spec_metrics().spec_writes() == device.spec_metrics().spec_writes()
                &&& n == 0 ==> pm.spec_device() == device
                &&& list@.len() == scan_locations(device, n).len()
                &&& forall|i: int| 0 <= i < list@.len() ==> (#[trigger] list@[i]).1 == scan_locations(device, n)[i]
                    && list@[i].0@ == scan_entries(device, n)[i].0
                    && list@[i].2 == scan_entries(device, n)[i].0.len() + scan_entries(device, n)[i].1.len()
            },
    {
        let ghost d0 = device;
        let mut dv = device;
        let n = dv.block_count();
        let ps = dv.page_size();
        let mut pages: Vec<PageStatus> = Vec::new();
        let mut cold = FreeSpaceIndex::new();
        let mut list: Vec<(Vec<u8>, Location, u32)> = Vec::new();
        let mut pid: usize = 0;
        while pid < n
            invariant
                d0 == device,
                n == d0.spec_block_count(),
                ps == d0.spec_page_size(),
                dv.spec_page_size() == ps,
                dv.spec_block_count() == n,
                forall|q: u64| #[trigger] dv.block(q) == d0.block(q),
                dv.spec_metrics().spec_writes() == d0.spec_metrics().spec_writes(),
                pid == 0 ==> dv == d0,
                pid <= n,
                pages@.len() == pid,
                forall|q: u64| q < pid ==> #[trigger] stored_valid(d0, q),
                forall|q: int| #![trigger pages@[q]] 0 <= q < pid ==> {
                    &&& pages@[q].in_memory is None
                    &&& !pages@[q].is_hot
                    &&& pages@[q].free_space == model_free(d0.stored(q as u64)->Ok_0)
                    &&& model_encodable(d0.stored(q as u64)->Ok_0)
                },
                cold.wf(),
                forall|q: u64| #[trigger] cold@.contains_key(q) <==> (q < pid && pages@[q as int].free_space > 0),
                forall|q: u64| #[trigger] cold@.contains_key(q) ==> cold@[q] == pages@[q as int].free_space,
                list@.len() == scan_locations(d0, pid as nat).len(),
                forall|i: int| 0 <= i < list@.len() ==> (#[trigger] list@[i]).1 == scan_locations(d0, pid as nat)[i]
                    && list@[i].0@ == scan_entries(d0, pid as nat)[i].0
                    && list@[i].2 == scan_entries(d0, pid as nat)[i].0.len() + scan_entries(d0, pid as nat)[i].1.len(),
            decreases n - pid,
        {
            assert(dv.block(pid as u64) == d0.block(pid as u64));
            assert(dv.stored(pid as u64) == d0.stored(pid as u64));
            let page = match dv.read_page(pid as u64) {
                Ok(p) => p,
                Err(e) => {
                    assert(!stored_valid(d0, pid as u64));
                    return Err(PageManagerError::Storage(e));
                },
            };
            if page.id() != pid as u64 || page.capacity() != ps as usize || page.size() > page.capacity() {
                assert(!stored_valid(d0, pid as u64));
                return Err(PageManagerError::InvalidPage);
            }
            assert(page@ == d0.stored(pid as u64)->Ok_0);
            proof {
                page.lemma_encodable();
                assert(stored_valid(d0, pid as u64));
            }
            let ghost base = list@.len();
            let ghost next = scan_locations(d0, (pid + 1) as nat);
            let ghost es = d0.stored(pid as u64)->Ok_0.entries;
            proof {
                assert(next == scan_locations(d0, pid as nat) + Seq::new(es.len(), |j: int| Location { page_id: pid as u64, page_index: j as usize }));
            }
            let cnt = page.entry_count();
            let mut j: usize = 0;
            while j < cnt
                invariant
                    cnt == es.len(),
                    es == d0.stored(pid as u64)->Ok_0.entries,
                    page@ == d0.stored(pid as u64)->Ok_0,
                    pid < n,
                    base == scan_locations(d0, pid as nat).len(),
                    next == scan_locations(d0, pid as nat) + Seq::new(es.len(), |j: int| Location { page_id: pid as u64, page_index: j as usize }),
                    j <= cnt,
                    list@.len() == base + j,
                    forall|i: int| 0 <= i < list@.len() ==> (#[trigger] list@[i]).1 == next[i]
                        && list@[i].0@ == d0.stored(next[i].page_id)->Ok_0.entries[next[i].page_index as int].0
                        && list@[i].2 == d0.stored(next[i].page_id)->Ok_0.entries[next[i].page_index as int].0.len()
                            + d0.stored(next[i].page_id)->Ok_0.entries[next[i].page_index as int].1.len(),
                    model_size(page@) <= ps,
                    page.wf(),
                decreases cnt - j,
            {
                let e = page.entry(j);
                let kb = e.key();
                let k = copy_range(kb, 0, kb.len());
                proof {
                    assert(e@ == es[j as int]);
                    assert(k@ =~= es[j as int].0);
                    crate::page::lemma_entries_size_bound(es, j as int);
                    assert(next[base + j] == Location { page_id: pid as u64, page_index: j });
                }
                let size = (kb.len() + e.value().len()) as u32;
                list.push((k, Location { page_id: pid as u64, page_index: j }, size));
                j = j + 1;
            }
            let free = page.free_space();
            let ghost pages_before = pages@;
            pages.push(PageStatus { in_memory: None, is_hot: false, free_space: free, access_count: 0, last_access: 0 });
            if free > 0 {
                cold.insert(pid as u64, free);
            }
            pid = pid + 1;
            proof {
                assert forall|i: int| 0 <= i < list@.len() implies (#[trigger] list@[i]).1 == scan_locations(d0, pid as nat)[i]
                    && list@[i].0@ == scan_entries(d0, pid as nat)[i].0
                    && list@[i].2 == scan_entries(d0, pid as nat)[i].0.len() + scan_entries(d0, pid as nat)[i].1.len() by {
                }
                assert forall|q: u64| #[trigger] cold@.contains_key(q) <==> (q < pid && pages@[q as int].free_space > 0) by {
                    if q < pid - 1 {
                        assert(pages@[q as int] == pages_before[q as int]);
                    }
                }
            }
        }
        let pm = PageManager {
            pages,
            device: dv,
            next_id: n as u64,
            page_size: ps,
            page_cache: lru_new(cache_capacity),
            hit_count: 0,
            miss_count: 0,
            hot_free_spaces: FreeSpaceIndex::new(),
            cold_free_spaces: cold,
            loads: Ghost(0),
        };
        proof {
            assert forall|q: u64| q < pm.next_id implies #[trigger] pm.page_ok(q) by {
                assert(stored_valid(d0, q));
                assert(pm.device.block(q) == d0.block(q));
            }
            assert forall|q: u64, hot: bool| #[trigger]
                pm.index_of(hot).contains_key(q) <==> pm.listed_in(q, hot) by {}
            assert forall|q: u64| q < n implies #[trigger] pm.entries_of(q) == d0.stored(q)->Ok_0.entries
                && !pm.spec_is_hot(q) by {
                assert(pm.device.block(q) == d0.block(q));
            }
            assert forall|q: u64| #[trigger] pm.spec_device().block(q) == d0.block(q) by {}
        }
        Ok((pm, list))
    }

    pub fn page_size(&self) -> (r: u32)
        ensures
            r == self.spec_page_size(),
    {
        self.page_size
    }

    pub fn page_count(&self) -> (r: u64)
        ensures
            r == self.spec_next_id(),
    {
        self.next_id
    }

    pub fn hit_count(&self) -> (r: u64)
        ensures
            r == self.spec_hits(),
    {
        self.hit_count
    }

    pub fn miss_count(&self) -> (r: u64)
        ensures
            r == self.spec_misses(),
    {
        self.miss_count
    }

    pub fn device(&self) -> (r: &SsdDevice)
        ensures
            *r == self.spec_device(),
    {
        &self.device
    }

    /// Hands out the ids of the blocks written since the last call, in write order.
    pub fn take_written(&mut self) -> (r: Vec<u64>)
        requires
            old(self).wf(),
        ensures
            final(self).wf(),
            r@ == old(self).spec_device().spec_written(),
            final(self).spec_next_id() == old(self).spec_next_id(),
            forall|pid: u64| #[trigger] final(self).entries_of(pid) == old(self).entries_of(pid),
    {
        let r = self.device.take_written();
        proof {
            assert forall|pid: u64|
                #![trigger lru_order(self.page_cache).contains(pid)]
                #![trigger self.resident(pid)]
                lru_order(self.page_cache).contains(pid) <==> self.resident(pid) by {
                assert(old(self).resident(pid) == self.resident(pid));
            }
            self.lemma_frame_status(old(self));
        }
        r
    }

    /// Status of a page for reporting; `None` for a page not allocated.
    pub fn page_metrics(&self, pid: u64) -> (r: Option<PageMetrics>)
        requires
            self.wf(),
        ensures
            pid >= self.spec_next_id() <==> r is None,
            r is Some ==> r->Some_0.page_id == pid && r->Some_0.is_hot == self.spec_is_hot(pid)
                && r->Some_0.free_space == self.spec_free_space(pid),
    {
        if pid >= self.next_id {
            return None;
        }
        assert(pid < self.pages.len());
        let st = &self.pages[pid as usize];
        Some(
            PageMetrics {
                page_id: pid,
                is_hot: st.is_hot,
                free_space: st.free_space,
                access_count: st.access_count,
                last_access: st.last_access,
            },
        )
    }

    /// The invariant carries over a step that keeps the device's pages, the classes, the
    /// free bytes and the indexes, and holds in memory only pages equal to the stored ones.
    proof fn lemma_frame_status(&self, prev: &PageManager)
        requires
            self.counters_ok(),
            prev.wf(),
            self.cache_ok(),
            self.pages@.len() == prev.pages@.len(),
            self.next_id == prev.next_id,
            self.page_size == prev.page_size,
            self.device.spec_page_size() == prev.device.spec_page_size(),
            forall|q: u64| #[trigger] self.device.block(q) == prev.device.block(q),
            forall|q: int|
                #![trigger self.pages@[q]]
                0 <= q < self.pages@.len() ==> self.pages@[q].is_hot == prev.pages@[q].is_hot
                    && self.pages@[q].free_space == prev.pages@[q].free_space && (
                self.pages@[q].in_memory == prev.pages@[q].in_memory || (
                self.pages@[q].in_memory is Some && self.pages@[q].in_memory->Some_0.wf()
                    && self.pages@[q].in_memory->Some_0@ == prev.content(q as u64))
                    || self.pages@[q].in_memory is None),
            self.hot_free_spaces == prev.hot_free_spaces,
            self.cold_free_spaces == prev.cold_free_spaces,
        ensures
            self.wf(),
            forall|q: u64| #[trigger] self.content(q) == prev.content(q),
            forall|q: u64| #[trigger] self.entries_of(q) == prev.entries_of(q),
            forall|q: u64| q < self.next_id ==> #[trigger] self.spec_is_hot(q) == prev.spec_is_hot(q)
                && self.spec_free_space(q) == prev.spec_free_space(q),
            forall|hot: bool| #[trigger] self.index_of(hot) == prev.index_of(hot),
    {
        assert forall|q: u64| #[trigger] self.content(q) == prev.content(q) by {
            assert(self.device.block(q) == prev.device.block(q));
        }
        assert forall|q: u64| q < self.next_id implies #[trigger] self.page_ok(q) by {
            assert(prev.page_ok(q));
            assert(self.device.block(q) == prev.device.block(q));
            assert(self.pages@[q as int].is_hot == prev.pages@[q as int].is_hot);
        }
        assert forall|q: u64, hot: bool| #[trigger]
            self.index_of(hot).contains_key(q) <==> self.listed_in(q, hot) by {
            assert(prev.index_of(hot).contains_key(q) <==> prev.listed_in(q, hot));
            if q < self.next_id {
                assert(self.pages@[q as int].is_hot == prev.pages@[q as int].is_hot);
            }
        }
        assert forall|q: u64, hot: bool| #[trigger]
            self.index_of(hot).contains_key(q) implies self.index_of(hot)[q]
                == self.pages@[q as int].free_space by {
            assert(prev.index_of(hot).contains_key(q) ==> prev.listed_in(q, hot));
            assert(self.pages@[q as int].free_space == prev.pages@[q as int].free_space);
        }
        assert forall|q: u64| q < self.next_id implies #[trigger] self.spec_is_hot(q) == prev.spec_is_hot(q)
            && self.spec_free_space(q) == prev.spec_free_space(q) by {
            assert(self.pages@[q as int].is_hot == prev.pages@[q as int].is_hot);
        }
    }

    /// The invariant carries over a step that rewrote page `pid` of class `hot` and its
    /// index entry, and changed nothing else.
    proof fn lemma_update_page(&self, prev: &PageManager, pid: u64, hot: bool)
        requires
            self.counters_ok(),
            prev.wf(),
            pid < prev.next_id,
            prev.pages@[pid as int].is_hot == hot,
            self.pages@[pid as int].is_hot == hot,
            self.pages@.len() == prev.pages@.len(),
            self.next_id == prev.next_id,
            self.page_size == prev.page_size,
            self.device.spec_page_size() == prev.device.spec_page_size(),
            self.page_cache == prev.page_cache,
            forall|q: u64| q != pid ==> #[trigger] self.device.block(q) == prev.device.block(q),
            forall|q: int| 0 <= q < self.pages@.len() && q != pid ==> #[trigger] self.pages@[q] == prev.pages@[q],
            self.page_ok(pid),
            prev.resident(pid),
            self.pages@[pid as int].in_memory is Some,
            self.hot_free_spaces.wf(),
            self.cold_free_spaces.wf(),
            self.index_of(!hot) == prev.index_of(!hot),
            self.index_of(hot) == if self.pages@[pid as int].free_space > 0 {
                prev.index_of(hot).remove(pid).insert(pid, self.pages@[pid as int].free_space)
            } else {
                prev.index_of(hot).remove(pid)
            },
        ensures
            self.wf(),
            forall|q: u64| q != pid ==> #[trigger] self.content(q) == prev.content(q),
            forall|q: u64| q != pid ==> #[trigger] self.entries_of(q) == prev.entries_of(q),
            forall|q: u64| q < self.next_id && q != pid ==> #[trigger] self.spec_is_hot(q) == prev.spec_is_hot(q)
                && self.spec_free_space(q) == prev.spec_free_space(q),
    {
        assert forall|q: u64| q != pid implies #[trigger] self.content(q) == prev.content(q) by {
            assert(self.device.block(q) == prev.device.block(q));
        }
        assert forall|q: u64| q < self.next_id implies #[trigger] self.page_ok(q) by {
            if q != pid {
                assert(prev.page_ok(q));
                assert(self.device.block(q) == prev.device.block(q));
                assert(self.pages@[q as int] == prev.pages@[q as int]);
            }
        }
        assert forall|q: u64|
            #![trigger lru_order(self.page_cache).contains(q)]
            #![trigger self.resident(q)]
            lru_order(self.page_cache).contains(q) <==> self.resident(q) by {
            assert(prev.resident(q) <==> lru_order(prev.page_cache).contains(q));
            if q != pid && q < self.next_id {
                assert(self.pages@[q as int] == prev.pages@[q as int]);
            }
        }
        assert forall|q: u64, h: bool| #[trigger]
            self.index_of(h).contains_key(q) <==> self.listed_in(q, h) by {
            assert(prev.index_of(h).contains_key(q) <==> prev.listed_in(q, h));
            if q != pid && q < self.next_id {
                assert(self.pages@[q as int] == prev.pages@[q as int]);
            }
        }
        assert forall|q: u64, h: bool| #[trigger]
            self.index_of(h).contains_key(q) implies self.index_of(h)[q]
                == self.pages@[q as int].free_space by {
            assert(prev.index_of(h).contains_key(q) ==> prev.listed_in(q, h));
            if q != pid && q < self.next_id {
                assert(self.pages@[q as int] == prev.pages@[q as int]);
            }
        }
        assert forall|q: u64| q < self.next_id && q != pid implies #[trigger] self.spec_is_hot(q) == prev.spec_is_hot(q)
            && self.spec_free_space(q) == prev.spec_free_space(q) by {
            assert(self.pages@[q as int] == prev.pages@[q as int]);
        }
    }

    /// Looks up `key` in the page of `location`, loading the page through the cache.
    /// A page id the manager never allocated is read through from the device.
    pub fn get(&mut self, location: &Location, key: &[u8], now: u64) -> (r: Result<
        Option<Vec<u8>>,
        PageManagerError,
    >)
        requires
            old(self).wf(),
        ensures
            final(self).wf(),
            final(self).spec_next_id() == old(self).spec_next_id(),
            final(self).spec_page_size() == old(self).spec_page_size(),
            final(self).cache_bound() == old(self).cache_bound(),
            final(self).spec_device().spec_written() == old(self).spec_device().spec_written(),
            forall|q: u64| #[trigger] final(self).content(q) == old(self).content(q),
            forall|q: u64| #[trigger] final(self).entries_of(q) == old(self).entries_of(q),
            forall|q: u64| q < old(self).spec_next_id() ==> #[trigger] final(self).spec_is_hot(q) == old(self).spec_is_hot(q)
                && final(self).spec_free_space(q) == old(self).spec_free_space(q),
            forall|hot: bool| #[trigger] final(self).index_of(hot) == old(self).index_of(hot),
            location.page_id < old(self).spec_next_id() ==> r is Ok && opt_bytes(r->Ok_0) == model_get(
                old(self).content(location.page_id),
                location.page_index as int,
                key@,
            ),
            location.page_id >= old(self).spec_next_id() ==> match old(self).spec_device().stored(location.page_id) {
                Ok(m) => r is Ok && opt_bytes(r->Ok_0) == model_get(m, location.page_index as int, key@),
                Err(e) => r == Err::<Option<Vec<u8>>, PageManagerError>(PageManagerError::Storage(e)),
            },
            final(self).spec_loads() == old(self).spec_loads() + 1,
            location.page_id < old(self).spec_next_id() && old(self).cached().contains(location.page_id)
                ==> final(self).spec_hits() == sat_add(old(self).spec_hits(), 1)
                && final(self).spec_misses() == old(self).spec_misses(),
            !(location.page_id < old(self).spec_next_id() && old(self).cached().contains(location.page_id))
                ==> final(self).spec_misses() == sat_add(old(self).spec_misses(), 1)
                && final(self).spec_hits() == old(self).spec_hits(),
            location.page_id < old(self).spec_next_id() ==> cache_step(
                old(self).cached(), final(self).cached(), old(self).cache_bound(), location.page_id),
            location.page_id >= old(self).spec_next_id() ==> final(self).cached() == old(self).cached(),
            location.page_id < old(self).spec_next_id() && old(self).cached().contains(location.page_id)
                ==> final(self).spec_device().spec_metrics() == old(self).spec_device().spec_metrics(),
            !(location.page_id < old(self).spec_next_id() && old(self).cached().contains(location.page_id))
                ==> final(self).spec_device().spec_metrics().spec_reads() == sat_add(
                old(self).spec_device().spec_metrics().spec_reads(), 1),
            final(self).spec_device().spec_metrics().spec_writes() == old(self).spec_device().spec_metrics().spec_writes(),
    {
        let pid = location.page_id;
        if pid < self.next_id {
            match self.ensure_page_loaded(pid, now) {
                Ok(()) => {},
                Err(e) => {
                    return Err(e);
                },
            }
            assert(pid < self.pages.len());
            proof {
                assert(self.page_ok(pid));
            }
            match &self.pages[pid as usize].in_memory {
                Some(p) => Ok(p.get(location.page_index, key)),
                None => Err(PageManagerError::InvalidPage),
            }
        } else {
            self.miss_count = self.miss_count.saturating_add(1);
            self.loads = Ghost(self.loads@ + 1);
            let r = match self.device.read_page(pid) {
                Ok(p) => Ok(p.get(location.page_index, key)),
                Err(e) => Err(PageManagerError::Storage(e)),
            };
            proof {
                assert forall|q: u64|
                    #![trigger lru_order(self.page_cache).contains(q)]
                    #![trigger self.resident(q)]
                    lru_order(self.page_cache).contains(q) <==> self.resident(q) by {
                    assert(old(self).resident(q) == self.resident(q));
                }
                self.lemma_frame_status(old(self));
            }
            r
        }
    }

    /// Places an entry: on the page of class `is_hot` with the fewest free bytes that still
    /// hold it, else on a new page. `None` when the entry does not fit an empty page, or no
    /// page fits and no page id is left.
    pub fn set(&mut self, key: &[u8], value: &[u8], is_hot: bool, now: u64) -> (r: Result<
        Option<Location>,
        PageManagerError,
    >)
        requires
            old(self).wf(),
        ensures
            final(self).wf(),
            r is Ok,
            final(self).spec_page_size() == old(self).spec_page_size(),
            final(self).cache_bound() == old(self).cache_bound(),
            ({
                let req = required_space(key@, value@);
                let idx = old(self).index_of(is_hot);
                let candidate = exists|p: u64| #[trigger] idx.contains_key(p) && idx[p] >= req;
                let fe = fits_empty(old(self).spec_page_size(), key@, value@);
                &&& (r->Ok_0 is None <==> (!fe || (!candidate && old(self).spec_next_id() >= usize::MAX)))
                &&& r->Ok_0 is None ==> *final(self) == *old(self)
                &&& r->Ok_0 is Some ==> {
                    let loc = r->Ok_0->Some_0;
                    let pid = loc.page_id;
                    &&& forall|q: u64| q < old(self).spec_next_id() && q != pid ==> #[trigger] final(self).spec_is_hot(q)
                        == old(self).spec_is_hot(q) && final(self).spec_free_space(q) == old(self).spec_free_space(q)
                    &&& forall|h: bool| #[trigger] final(self).index_of(h).remove(pid) == old(self).index_of(h).remove(pid)
                    &&& cache_step(old(self).cached(), final(self).cached(), old(self).cache_bound(), pid)
                    &&& loc.page_index == old(self).entries_of(pid).len()
                    &&& final(self).entries_of(pid) == old(self).entries_of(pid).push((key@, value@))
                    &&& forall|q: u64| q != pid ==> #[trigger] final(self).entries_of(q) == old(self).entries_of(q)
                    &&& pid < final(self).spec_next_id()
                    &&& final(self).spec_is_hot(pid) == is_hot
                    &&& candidate ==> {
                        &&& final(self).spec_next_id() == old(self).spec_next_id()
                        &&& idx.contains_key(pid)
                        &&& idx[pid] >= req
                        &&& forall|q: u64| #[trigger] idx.contains_key(q) && idx[q] >= req ==> idx[pid] <= idx[q]
                        &&& final(self).spec_free_space(pid) == old(self).spec_free_space(pid) - req
                        &&& final(self).spec_loads() == old(self).spec_loads() + 1
                        &&& (old(self).cached().contains(pid) ==> final(self).spec_hits() == sat_add(old(self).spec_hits(), 1)
                            && final(self).spec_misses() == old(self).spec_misses())
                        &&& (!old(self).cached().contains(pid) ==> final(self).spec_misses() == sat_add(old(self).spec_misses(), 1)
                            && final(self).spec_hits() == old(self).spec_hits())
                    }
                    &&& !candidate ==> {
                        &&& pid == old(self).spec_next_id()
                        &&& final(self).spec_next_id() == old(self).spec_next_id() + 1
                        &&& final(self).spec_hits() == old(self).spec_hits()
                        &&& final(self).spec_misses() == old(self).spec_misses()
                        &&& final(self).spec_loads() == old(self).spec_loads()
                    }
                }
            }),
    {
        let ps = self.page_size;
        let ghost req = required_space(key@, value@);
        let ghost idx0 = self.index_of(is_hot);
        if key.len() as u64 > ps as u64 || value.len() as u64 > ps as u64 || 35 + key.len() as u64
            + value.len() as u64 > ps as u64 {
            proof {
                assert forall|p: u64| #[trigger] idx0.contains_key(p) implies idx0[p] < req by {
                    assert(self.listed_in(p, is_hot));
                    assert(self.page_ok(p));
                }
            }
            return Ok(None);
        }
        let required = (8 + key.len() + value.len()) as u32;
        let cand = if is_hot {
            self.hot_free_spaces.find(required)
        } else {
            self.cold_free_spaces.find(required)
        };
        match cand {
            Some(pid) => {
                let loc = self.set_fit(pid, key, value, is_hot, now);
                Ok(Some(loc))
            },
            None => {
                if self.next_id >= usize::MAX as u64 {
                    return Ok(None);
                }
                let loc = self.set_new(key, value, is_hot, now);
                Ok(Some(loc))
            },
        }
    }

    /// Removes the entry at position `idx` of page `pid`: later entries of the page move down
    /// one position, the page is written through, and its free bytes grow by the entry's size.
    pub fn remove_at(&mut self, pid: u64, idx: usize, now: u64)
        requires
            old(self).wf(),
            pid < old(self).spec_next_id(),
            idx < old(self).entries_of(pid).len(),
        ensures
            final(self).wf(),
            final(self).spec_next_id() == old(self).spec_next_id(),
            final(self).spec_page_size() == old(self).spec_page_size(),
            final(self).cache_bound() == old(self).cache_bound(),
            final(self).entries_of(pid) == old(self).entries_of(pid).remove(idx as int),
            forall|q: u64| q != pid ==> #[trigger] final(self).entries_of(q) == old(self).entries_of(q),
            forall|q: u64| q < old(self).spec_next_id() ==> #[trigger] final(self).spec_is_hot(q)
                == old(self).spec_is_hot(q),
            forall|q: u64| q < old(self).spec_next_id() && q != pid ==> #[trigger] final(self).spec_free_space(q)
                == old(self).spec_free_space(q),
            forall|h: bool| #[trigger] final(self).index_of(h).remove(pid) == old(self).index_of(h).remove(pid),
            final(self).spec_loads() == old(self).spec_loads() + 1,
            cache_step(old(self).cached(), final(self).cached(), old(self).cache_bound(), pid),
    {
        assert(pid < self.pages.len());
        let i = pid as usize;
        let hot = self.pages[i].is_hot;
        proof {
            assert(self.page_ok(pid));
        }
        let _ = self.ensure_page_loaded(pid, now);
        let ghost mid = *self;
        proof {
            assert(self.page_ok(pid));
            assert(self.resident(pid));
            assert(mid.spec_is_hot(pid) == old(self).spec_is_hot(pid));
        }
        let mut slot: Option<Page> = None;
        std::mem::swap(&mut slot, &mut self.pages[i].in_memory);
        let mut page = match slot {
            Some(p) => p,
            None => {
                return;
            },
        };
        page.remove_at(idx);
        proof {
            page.lemma_encodable();
            assert(page@.capacity == self.device.spec_page_size());
            assert(model_size(page@) <= page@.capacity);
            assert(page@.id < usize::MAX);
        }
        let w = self.device.write_page(&mut page);
        assert(w is Ok);
        proof {
            let pad = Seq::new((page@.capacity - model_size(page@)) as nat, |j: int| 0u8);
            lemma_decode_encode(page@, pad);
            assert(self.device.block(pid) == encode(page@) + pad);
            assert(self.device.block(pid).len() > 0);
            assert(self.device.stored(pid) == Ok::<PageModel, SsdError>(page@));
        }
        let new_free = page.free_space();
        self.pages[i].in_memory = Some(page);
        self.pages[i].free_space = new_free;
        if hot {
            self.hot_free_spaces.remove(pid);
            if new_free > 0 {
                self.hot_free_spaces.insert(pid, new_free);
            }
        } else {
            self.cold_free_spaces.remove(pid);
            if new_free > 0 {
                self.cold_free_spaces.insert(pid, new_free);
            }
        }
        proof {
            assert(self.page_ok(pid));
            self.lemma_update_page(&mid, pid, hot);
            assert forall|q: u64| q < old(self).spec_next_id() implies #[trigger] self.spec_is_hot(q)
                == old(self).spec_is_hot(q) by {
                assert(mid.spec_is_hot(q) == old(self).spec_is_hot(q));
            }
            assert forall|q: u64| q < old(self).spec_next_id() && q != pid implies #[trigger] self.spec_free_space(q)
                == old(self).spec_free_space(q) by {
                assert(mid.spec_is_hot(q) == old(self).spec_is_hot(q));
                assert(mid.spec_free_space(q) == old(self).spec_free_space(q));
            }
            assert forall|h: bool| #[trigger] self.index_of(h).remove(pid) == old(self).index_of(h).remove(pid) by {
                assert(mid.index_of(h) == old(self).index_of(h));
                if h == hot {
                    assert(self.index_of(h).remove(pid) =~= mid.index_of(h).remove(pid));
                } else {
                    assert(self.index_of(!hot) == mid.index_of(!hot));
                }
            }
            assert(self.entries_of(pid) == old(self).entries_of(pid).remove(idx as int));
        }
    }

    /// Appends an entry to page `pid`, a page of class `is_hot` with enough free bytes.
    fn set_fit(&mut self, pid: u64, key: &[u8], value: &[u8], is_hot: bool, now: u64) -> (loc: Location)
        requires
            old(self).wf(),
            old(self).index_of(is_hot).contains_key(pid),
            old(self).index_of(is_hot)[pid] >= required_space(key@, value@),
        ensures
            final(self).wf(),
            final(self).spec_page_size() == old(self).spec_page_size(),
            final(self).cache_bound() == old(self).cache_bound(),
            loc.page_id == pid,
            loc.page_index == old(self).entries_of(pid).len(),
            final(self).entries_of(pid) == old(self).entries_of(pid).push((key@, value@)),
            forall|q: u64| q != pid ==> #[trigger] final(self).entries_of(q) == old(self).entries_of(q),
            final(self).spec_next_id() == old(self).spec_next_id(),
            final(self).spec_is_hot(pid) == is_hot,
            final(self).spec_free_space(pid) == old(self).spec_free_space(pid) - required_space(key@, value@),
            final(self).spec_loads() == old(self).spec_loads() + 1,
            old(self).cached().contains(pid) ==> final(self).spec_hits() == sat_add(old(self).spec_hits(), 1)
                && final(self).spec_misses() == old(self).spec_misses(),
            !old(self).cached().contains(pid) ==> final(self).spec_misses() == sat_add(old(self).spec_misses(), 1)
                && final(self).spec_hits() == old(self).spec_hits(),
            forall|q: u64| q < old(self).spec_next_id() && q != pid ==> #[trigger] final(self).spec_is_hot(q)
                == old(self).spec_is_hot(q) && final(self).spec_free_space(q) == old(self).spec_free_space(q),
            forall|h: bool| #[trigger] final(self).index_of(h).remove(pid) == old(self).index_of(h).remove(pid),
            cache_step(old(self).cached(), final(self).cached(), old(self).cache_bound(), pid),
    {
        proof {
            assert(self.listed_in(pid, is_hot));
            assert(self.page_ok(pid));
        }
        let _ = self.ensure_page_loaded(pid, now);
        let ghost mid = *self;
        assert(pid < self.pages.len());
        let i = pid as usize;
        proof {
            assert(self.page_ok(pid));
            assert(self.resident(pid));
        }
        let mut slot: Option<Page> = None;
        std::mem::swap(&mut slot, &mut self.pages[i].in_memory);
        let mut page = match slot {
            Some(p) => p,
            None => {
                return Location { page_id: pid, page_index: 0 };
            },
        };
        let pos = match page.push_entry(key, value) {
            Some(x) => x,
            None => {
                return Location { page_id: pid, page_index: 0 };
            },
        };
        proof {
            page.lemma_encodable();
            assert(page@.capacity == self.device.spec_page_size());
            assert(model_size(page@) <= page@.capacity);
            assert(page@.id < usize::MAX);
        }
        let w = self.device.write_page(&mut page);
        assert(w is Ok);
        proof {
            let pad = Seq::new((page@.capacity - model_size(page@)) as nat, |j: int| 0u8);
            lemma_decode_encode(page@, pad);
            assert(self.device.block(pid) == encode(page@) + pad);
            assert(self.device.block(pid).len() > 0);
            assert(self.device.stored(pid) == Ok::<PageModel, SsdError>(page@));
        }
        let new_free = page.free_space();
        self.pages[i].in_memory = Some(page);
        self.pages[i].free_space = new_free;
        self.pages[i].is_hot = is_hot;
        if is_hot {
            self.hot_free_spaces.remove(pid);
            if new_free > 0 {
                self.hot_free_spaces.insert(pid, new_free);
            }
        } else {
            self.cold_free_spaces.remove(pid);
            if new_free > 0 {
                self.cold_free_spaces.insert(pid, new_free);
            }
        }
        proof {
            assert(self.page_ok(pid));
            assert(mid.listed_in(pid, is_hot));
            self.lemma_update_page(&mid, pid, is_hot);
            assert forall|q: u64| q < old(self).spec_next_id() && q != pid implies #[trigger] self.spec_is_hot(q)
                == old(self).spec_is_hot(q) && self.spec_free_space(q) == old(self).spec_free_space(q) by {
                assert(mid.spec_is_hot(q) == old(self).spec_is_hot(q));
            }
            assert forall|h: bool| #[trigger] self.index_of(h).remove(pid) == old(self).index_of(h).remove(pid) by {
                assert(mid.index_of(h) == old(self).index_of(h));
                if h == is_hot {
                    assert(self.index_of(h).remove(pid) =~= mid.index_of(h).remove(pid));
                } else {
                    assert(self.index_of(!is_hot) == mid.index_of(!is_hot));
                }
            }
        }
        Location { page_id: pid, page_index: pos }
    }

    /// Puts an entry on a new page with the next page id.
    fn set_new(&mut self, key: &[u8], value: &[u8], is_hot: bool, now: u64) -> (loc: Location)
        requires
            old(self).wf(),
            old(self).spec_next_id() < usize::MAX,
            fits_empty(old(self).spec_page_size(), key@, value@),
        ensures
            final(self).wf(),
            final(self).spec_page_size() == old(self).spec_page_size(),
            final(self).cache_bound() == old(self).cache_bound(),
            loc.page_id == old(self).spec_next_id(),
            loc.page_index == 0,
            final(self).spec_next_id() == old(self).spec_next_id() + 1,
            final(self).entries_of(loc.page_id) == seq![(key@, value@)],
            forall|q: u64| q != loc.page_id ==> #[trigger] final(self).entries_of(q) == old(self).entries_of(q),
            final(self).spec_is_hot(loc.page_id) == is_hot,
            final(self).spec_hits() == old(self).spec_hits(),
            final(self).spec_misses() == old(self).spec_misses(),
            final(self).spec_loads() == old(self).spec_loads(),
            forall|q: u64| q < old(self).spec_next_id() ==> #[trigger] final(self).spec_is_hot(q)
                == old(self).spec_is_hot(q) && final(self).spec_free_space(q) == old(self).spec_free_space(q),
            forall|h: bool| #[trigger] final(self).index_of(h).remove(loc.page_id) == old(self).index_of(h).remove(loc.page_id),
            !old(self).cached().contains(loc.page_id),
            cache_step(old(self).cached(), final(self).cached(), old(self).cache_bound(), loc.page_id),
    {
        let ps = self.page_size;
        let pid = self.next_id;
        let mut page = Page::new(pid, ps);
        let pos = match page.push_entry(key, value) {
            Some(x) => x,
            None => {
                return Location { page_id: pid, page_index: 0 };
            },
        };
        proof {
            page.lemma_encodable();
        }
        let ghost before_write = *self;
        proof {
            assert(page@.capacity == self.device.spec_page_size());
            assert(model_size(page@) <= page@.capacity);
        }
        let w = self.device.write_page(&mut page);
        assert(w is Ok);
        proof {
            let pad = Seq::new((page@.capacity - model_size(page@)) as nat, |j: int| 0u8);
            lemma_decode_encode(page@, pad);
            assert(self.device.block(pid) == encode(page@) + pad);
            assert(self.device.block(pid).len() > 0);
            assert(self.device.stored(pid) == Ok::<PageModel, SsdError>(page@));
        }
        let free = page.free_space();
        let ghost c0 = lru_order(self.page_cache);
        if lru_len(&self.page_cache) >= lru_capacity(&self.page_cache) {
            match lru_pop(&mut self.page_cache) {
                Some(q) => {
                    proof {
                        assert(c0.contains(q));
                        assert(before_write.resident(q));
                    }
                    assert(q < self.pages.len());
                    self.pages[q as usize].in_memory = None;
                },
                None => {},
            }
        }
        let ghost c1 = lru_order(self.page_cache);
        proof {
            assert(!c0.contains(pid)) by {
                assert(!before_write.resident(pid));
            }
            assert(!c1.contains(pid)) by {
                if c1.contains(pid) {
                    let j = choose|j: int| 0 <= j < c1.len() && c1[j] == pid;
                    if c0.len() >= lru_bound(before_write.page_cache) {
                        assert(c0[j + 1] == pid);
                    } else {
                        assert(c0[j] == pid);
                    }
                }
            }
        }
        lru_insert(&mut self.page_cache, pid);
        self.pages.push(
            PageStatus { in_memory: Some(page), is_hot, free_space: free, access_count: 1, last_access: now },
        );
        self.next_id = pid + 1;
        proof {
            assert(!before_write.listed_in(pid, is_hot));
            assert(!self.index_of(is_hot).contains_key(pid));
        }
        if free > 0 {
            if is_hot {
                self.hot_free_spaces.insert(pid, free);
            } else {
                self.cold_free_spaces.insert(pid, free);
            }
        }
        proof {
            assert(self.page_ok(pid));
            self.lemma_append_page(&before_write, c0, c1);
            assert(!old(self).resident(pid));
            assert forall|q: u64| q < old(self).spec_next_id() implies #[trigger] self.spec_is_hot(q)
                == old(self).spec_is_hot(q) && self.spec_free_space(q) == old(self).spec_free_space(q) by {
                assert(self.pages@[q as int].is_hot == before_write.pages@[q as int].is_hot);
            }
            assert forall|h: bool| #[trigger] self.index_of(h).remove(pid) == old(self).index_of(h).remove(pid) by {
                assert(self.index_of(h).remove(pid) =~= old(self).index_of(h).remove(pid));
            }
            assert(seq![(key@, value@)] =~= Seq::<(Seq<u8>, Seq<u8>)>::empty().push((key@, value@)));
        }
        Location { page_id: pid, page_index: pos }
    }

    /// The invariant carries over a step that added page `prev.next_id`, made it the most
    /// recently used, possibly evicted the least recently used page, and listed the new page.
    proof fn lemma_append_page(&self, prev: &PageManager, c0: Seq<u64>, c1: Seq<u64>)
        requires
            self.counters_ok(),
            prev.wf(),
            prev.next_id < u64::MAX,
            self.next_id == prev.next_id + 1,
            self.pages@.len() == prev.pages@.len() + 1,
            self.page_size == prev.page_size,
            self.device.spec_page_size() == prev.device.spec_page_size(),
            forall|q: u64| q != prev.next_id ==> #[trigger] self.device.block(q) == prev.device.block(q),
            c0 == lru_order(prev.page_cache),
            lru_bound(self.page_cache) == lru_bound(prev.page_cache),
            c0.len() >= lru_bound(prev.page_cache) ==> c1 == c0.drop_first(),
            c0.len() < lru_bound(prev.page_cache) ==> c1 == c0,
            lru_order(self.page_cache) == c1.push(prev.next_id),
            forall|q: int|
                #![trigger self.pages@[q]]
                0 <= q < prev.pages@.len() ==> self.pages@[q].is_hot == prev.pages@[q].is_hot
                    && self.pages@[q].free_space == prev.pages@[q].free_space && (
                self.pages@[q].in_memory == prev.pages@[q].in_memory || (
                self.pages@[q].in_memory is None && c0.len() >= lru_bound(prev.page_cache) && q
                    == c0[0])),
            c0.len() >= lru_bound(prev.page_cache) ==> self.pages@[c0[0] as int].in_memory is None,
            self.page_ok(prev.next_id),
            self.pages@[prev.next_id as int].in_memory is Some,
            self.hot_free_spaces.wf(),
            self.cold_free_spaces.wf(),
            ({
                let pid = prev.next_id;
                let h = self.pages@[pid as int].is_hot;
                let f = self.pages@[pid as int].free_space;
                &&& self.index_of(!h) == prev.index_of(!h)
                &&& self.index_of(h) == if f > 0 {
                    prev.index_of(h).insert(pid, f)
                } else {
                    prev.index_of(h)
                }
            }),
        ensures
            self.wf(),
            forall|q: u64| q != prev.next_id ==> #[trigger] self.content(q) == prev.content(q),
            forall|q: u64| q != prev.next_id ==> #[trigger] self.entries_of(q) == prev.entries_of(q),
    {
        let pid = prev.next_id;
        let bound = lru_bound(prev.page_cache);
        let evicted = c0.len() >= bound;
        let c2 = lru_order(self.page_cache);
        assert forall|q: u64| q != pid implies #[trigger] self.content(q) == prev.content(q) by {
            assert(self.device.block(q) == prev.device.block(q));
        }
        assert forall|q: u64| q != pid implies #[trigger] self.entries_of(q) == prev.entries_of(q) by {
            assert(self.content(q) == prev.content(q));
        }
        assert forall|q: u64| q < self.next_id implies #[trigger] self.page_ok(q) by {
            if q != pid {
                assert(prev.page_ok(q));
                assert(self.device.block(q) == prev.device.block(q));
                assert(self.pages@[q as int].is_hot == prev.pages@[q as int].is_hot);
            }
        }
        assert(!c0.contains(pid)) by {
            assert(!prev.resident(pid));
        }
        lemma_lru_evict_push(c0, c1, c2, evicted, pid);
        assert forall|q: u64|
            #![trigger c2.contains(q)]
            #![trigger self.resident(q)]
            c2.contains(q) <==> self.resident(q) by {
            if q != pid {
                assert(prev.resident(q) <==> c0.contains(q));
                if !(evicted && q == c0[0]) && q < prev.next_id {
                    assert(self.pages@[q as int].in_memory == prev.pages@[q as int].in_memory);
                }
            }
        }
        assert(c2.len() <= bound);
        assert forall|q: u64, h: bool| #[trigger]
            self.index_of(h).contains_key(q) <==> self.listed_in(q, h) by {
            assert(prev.index_of(h).contains_key(q) <==> prev.listed_in(q, h));
            if q < prev.next_id {
                assert(self.pages@[q as int].is_hot == prev.pages@[q as int].is_hot);
            }
        }
        assert forall|q: u64, h: bool| #[trigger]
            self.index_of(h).contains_key(q) implies self.index_of(h)[q]
                == self.pages@[q as int].free_space by {
            assert(prev.index_of(h).contains_key(q) ==> prev.listed_in(q, h));
            if q < prev.next_id {
                assert(self.pages@[q as int].free_space == prev.pages@[q as int].free_space);
            }
        }
    }

    /// Hit ratio law: until a counter saturates, hits and misses add up to the page loads
    /// issued.
    pub proof fn lemma_hits_and_misses(&self)
        requires
            self.wf(),
            self.spec_loads() <= u64::MAX,
        ensures
            self.spec_hits() + self.spec_misses() == self.spec_loads(),
    {
    }

    /// Every allocated page has a stored, decodable block that belongs to it.
    pub proof fn lemma_stored_pages(&self)
        requires
            self.wf(),
        ensures
            forall|pid: u64| #![trigger self.spec_device().stored(pid)] pid < self.spec_next_id() ==> {
                &&& self.spec_device().stored(pid) is Ok
                &&& self.content(pid).id == pid
                &&& self.content(pid).capacity == self.spec_page_size()
                &&& model_size(self.content(pid)) <= self.spec_page_size()
                &&& self.spec_free_space(pid) == model_free(self.content(pid))
            },
    {
        assert forall|pid: u64| #![trigger self.spec_device().stored(pid)] pid < self.spec_next_id() implies {
            &&& self.spec_device().stored(pid) is Ok
            &&& self.content(pid).id == pid
            &&& self.content(pid).capacity == self.spec_page_size()
            &&& model_size(self.content(pid)) <= self.spec_page_size()
            &&& self.spec_free_space(pid) == model_free(self.content(pid))
        } by {
            assert(self.page_ok(pid));
        }
    }

    /// Free-space index consistency: a page listed under `f` in the index of a class has
    /// `f` free bytes and is of that class, so no page is listed in both indexes; every
    /// allocated page with free bytes is listed in the index of its class.
    pub proof fn lemma_free_space_index_consistent(&self)
        requires
            self.wf(),
        ensures
            forall|pid: u64, hot: bool| #[trigger] self.index_of(hot).contains_key(pid) ==> {
                &&& pid < self.spec_next_id()
                &&& self.spec_free_space(pid) == self.index_of(hot)[pid]
                &&& self.index_of(hot)[pid] > 0
                &&& self.spec_is_hot(pid) == hot
            },
            forall|pid: u64| !(#[trigger] self.index_of(true).contains_key(pid) && self.index_of(false).contains_key(pid)),
            forall|pid: u64| pid < self.spec_next_id() && self.spec_free_space(pid) > 0 ==> #[trigger] self.index_of(
                self.spec_is_hot(pid),
            ).contains_key(pid),
    {
        assert forall|pid: u64, hot: bool| #[trigger] self.index_of(hot).contains_key(pid) implies {
            &&& pid < self.spec_next_id()
            &&& self.spec_free_space(pid) == self.index_of(hot)[pid]
            &&& self.index_of(hot)[pid] > 0
            &&& self.spec_is_hot(pid) == hot
        } by {
            assert(self.listed_in(pid, hot));
        }
        assert forall|pid: u64| !(#[trigger] self.index_of(true).contains_key(pid) && self.index_of(false).contains_key(pid)) by {
            if self.index_of(true).contains_key(pid) {
                assert(self.listed_in(pid, true));
                assert(!self.listed_in(pid, false));
            }
        }
        assert forall|pid: u64| pid < self.spec_next_id() && self.spec_free_space(pid) > 0 implies #[trigger] self.index_of(
            self.spec_is_hot(pid),
        ).contains_key(pid) by {
            assert(self.listed_in(pid, self.spec_is_hot(pid)));
        }
    }

    /// Ensures the page is in memory: a cache hit counts a hit, anything else a miss and a
    /// read from the device, which may evict the least recently used page.
    fn ensure_page_loaded(&mut self, pid: u64, now: u64) -> (r: Result<(), PageManagerError>)
        requires
            old(self).wf(),
            pid < old(self).spec_next_id(),
        ensures
            final(self).wf(),
            r is Ok,
            final(self).resident(pid),
            final(self).spec_next_id() == old(self).spec_next_id(),
            final(self).spec_page_size() == old(self).spec_page_size(),
            final(self).cache_bound() == old(self).cache_bound(),
            forall|q: u64| #[trigger] final(self).spec_device().block(q) == old(self).spec_device().block(q),
            final(self).spec_device().spec_written() == old(self).spec_device().spec_written(),
            forall|q: u64| #[trigger] final(self).content(q) == old(self).content(q),
            forall|q: u64| #[trigger] final(self).entries_of(q) == old(self).entries_of(q),
            forall|q: u64| q < old(self).spec_next_id() ==> #[trigger] final(self).spec_is_hot(q) == old(self).spec_is_hot(q)
                && final(self).spec_free_space(q) == old(self).spec_free_space(q),
            forall|hot: bool| #[trigger] final(self).index_of(hot) == old(self).index_of(hot),
            final(self).spec_loads() == old(self).spec_loads() + 1,
            old(self).cached().contains(pid) ==> final(self).spec_hits() == sat_add(old(self).spec_hits(), 1)
                && final(self).spec_misses() == old(self).spec_misses(),
            !old(self).cached().contains(pid) ==> final(self).spec_misses() == sat_add(old(self).spec_misses(), 1)
                && final(self).spec_hits() == old(self).spec_hits(),
            cache_step(old(self).cached(), final(self).cached(), old(self).cache_bound(), pid),
            final(self).spec_access_count(pid) == sat_add(old(self).spec_access_count(pid), 1),
            old(self).cached().contains(pid) ==> final(self).spec_device().spec_metrics() == old(self).spec_device().spec_metrics(),
            !old(self).cached().contains(pid) ==> final(self).spec_device().spec_metrics().spec_reads() == sat_add(
                old(self).spec_device().spec_metrics().spec_reads(), 1),
            final(self).spec_device().spec_metrics().spec_writes() == old(self).spec_device().spec_metrics().spec_writes(),
    {
        assert(pid < self.pages.len());
        let idx = pid as usize;
        proof {
            assert(old(self).page_ok(pid));
        }
        self.loads = Ghost(self.loads@ + 1);
        if lru_touch(&mut self.page_cache, pid) {
            self.hit_count = self.hit_count.saturating_add(1);
            self.pages[idx].access_count = self.pages[idx].access_count.saturating_add(1);
            self.pages[idx].last_access = now;
            proof {
                let c0 = lru_order(old(self).page_cache);
                let c1 = lru_order(self.page_cache);
                let i = choose|i: int| 0 <= i < c0.len() && c0[i] == pid && c1 == c0.remove(i).push(pid);
                lemma_lru_touch(c0, c1, i, pid);
                self.lemma_frame_status(old(self));
            }
            return Ok(());
        }
        self.miss_count = self.miss_count.saturating_add(1);
        let page = match self.device.read_page(pid) {
            Ok(p) => p,
            Err(e) => {
                return Err(PageManagerError::Storage(e));
            },
        };
        let ghost c0 = lru_order(self.page_cache);
        let ghost pages0 = self.pages@;
        if lru_len(&self.page_cache) >= lru_capacity(&self.page_cache) {
            match lru_pop(&mut self.page_cache) {
                Some(q) => {
                    proof {
                        assert(c0.contains(q));
                        assert(old(self).resident(q));
                    }
                    assert(q < self.pages.len());
                    self.pages[q as usize].in_memory = None;
                },
                None => {},
            }
        }
        let ghost c1 = lru_order(self.page_cache);
        lru_insert(&mut self.page_cache, pid);
        self.pages[idx].in_memory = Some(page);
        self.pages[idx].access_count = self.pages[idx].access_count.saturating_add(1);
        self.pages[idx].last_access = now;
        proof {
            let c2 = lru_order(self.page_cache);
            let evicted = c0.len() >= lru_bound(old(self).page_cache);
            assert(!c0.contains(pid));
            assert(c2 == c1.push(pid));
            assert(self.pages@[pid as int].in_memory is Some);
            assert(self.resident(pid));
            if evicted {
                assert(c1 =~= c0.drop_first());
            } else {
                assert(c1 == c0);
            }
            lemma_lru_evict_push(c0, c1, c2, evicted, pid);
            assert forall|q: u64|
                #![trigger c2.contains(q)]
                #![trigger self.resident(q)]
                c2.contains(q) <==> self.resident(q) by {
                if q != pid {
                    assert(old(self).resident(q) <==> c0.contains(q));
                    if evicted && q == c0[0] {
                        assert(self.pages@[q as int].in_memory is None);
                    } else if q < self.next_id {
                        assert(self.pages@[q as int].in_memory == old(self).pages@[q as int].in_memory);
                    }
                }
            }
            self.lemma_frame_status(old(self));
        }
        Ok(())
    }
}

} // verus!
