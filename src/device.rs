//! A block device: fixed-size page blocks addressed by page id, with counters.
//!
//! The device keeps the image of the backing file as one block per page id and
//! records which blocks were written, so that the owner of the file can persist
//! them. Reading a block that was never written yields an empty page.
use vstd::prelude::*;

use crate::codec::{decode, encode, DecodeError};
use crate::page::{model_size, Page, PageModel};

verus! {

/// Errors of the block device.
#[derive(Debug, Clone, Copy, PartialEq, Eq, Structural)]
pub enum SsdError {
    /// A page size of zero, or a page whose capacity differs from the device's page size.
    InvalidPageSize,
    /// A page id that the device cannot address.
    InvalidPageId,
    /// A block that does not hold a valid page.
    Decode(DecodeError),
}

/// Read and write counters of a device.
#[derive(Debug, Clone, Copy)]
pub struct SsdMetrics {
    reads: u64,
    writes: u64,
    read_bytes: u64,
    write_bytes: u64,
}

impl SsdMetrics {
    pub closed spec fn spec_reads(&self) -> u64 {
        self.reads
    }

    pub closed spec fn spec_writes(&self) -> u64 {
        self.writes
    }

    pub closed spec fn spec_read_bytes(&self) -> u64 {
        self.read_bytes
    }

    pub closed spec fn spec_write_bytes(&self) -> u64 {
        self.write_bytes
    }

    pub fn reads(&self) -> (r: u64)
        ensures
            r == self.spec_reads(),
    {
        self.reads
    }

    pub fn writes(&self) -> (r: u64)
        ensures
            r == self.spec_writes(),
    {
        self.writes
    }

    pub fn read_bytes(&self) -> (r: u64)
        ensures
            r == self.spec_read_bytes(),
    {
        self.read_bytes
    }

    pub fn write_bytes(&self) -> (r: u64)
        ensures
            r == self.spec_write_bytes(),
    {
        self.write_bytes
    }
}

/// An empty page with the given id and capacity.
pub open spec fn empty_model(id: u64, capacity: u32) -> PageModel {
    PageModel { id, capacity, entries: Seq::empty() }
}

/// A count that grows by `n` and stops at the largest value.
pub open spec fn sat_add(a: u64, n: int) -> u64 {
    if a + n <= u64::MAX {
        (a + n) as u64
    } else {
        u64::MAX
    }
}

/// A page-addressed block store.
#[derive(Debug)]
pub struct SsdDevice {
    blocks: Vec<Vec<u8>>,
    page_size: u32,
    metrics: SsdMetrics,
    written: Vec<u64>,
}

impl SsdDevice {
    pub closed spec fn spec_page_size(&self) -> u32 {
        self.page_size
    }

    /// The bytes of the block of `pid`; empty for a block never written.
    pub closed spec fn block(&self, pid: u64) -> Seq<u8> {
        if pid < self.blocks@.len() {
            self.blocks@[pid as int]@
        } else {
            Seq::empty()
        }
    }

    /// What reading the block of `pid` gives.
    pub open spec fn stored(&self, pid: u64) -> Result<PageModel, SsdError> {
        if self.block(pid).len() == 0 {
            Ok(empty_model(pid, self.spec_page_size()))
        } else {
            match decode(self.block(pid)) {
                Ok(m) => Ok(m),
                Err(e) => Err(SsdError::Decode(e)),
            }
        }
    }

    /// Number of block slots; every block from this id on is empty.
    pub closed spec fn spec_block_count(&self) -> nat {
        self.blocks@.len()
    }

    pub fn block_count(&self) -> (r: usize)
        ensures
            r == self.spec_block_count(),
            forall|pid: u64| pid >= r ==> #[trigger] self.block(pid) == Seq::<u8>::empty(),
    {
        self.blocks.len()
    }

    pub closed spec fn spec_metrics(&self) -> SsdMetrics {
        self.metrics
    }

    /// Ids of the blocks written since the list was last taken.
    pub closed spec fn spec_written(&self) -> Seq<u64> {
        self.written@
    }

    /// A device with no block written.
    pub fn new(page_size: u32) -> (r: Result<SsdDevice, SsdError>)
        ensures
            page_size == 0 <==> r is Err,
            r is Err ==> r->Err_0 == SsdError::InvalidPageSize,
            r is Ok ==> {
                let d = r->Ok_0;
                &&& d.spec_page_size() == page_size
                &&& forall|pid: u64| #[trigger] d.block(pid) == Seq::<u8>::empty()
                &&& d.spec_written() == Seq::<u64>::empty()
                &&& d.spec_metrics().spec_reads() == 0
                &&& d.spec_metrics().spec_writes() == 0
            },
    {
        SsdDevice::from_blocks(page_size, Vec::new())
    }

    /// A device over existing blocks: block `i` of `blocks` is the block of page id `i`.
    pub fn from_blocks(page_size: u32, blocks: Vec<Vec<u8>>) -> (r: Result<SsdDevice, SsdError>)
        ensures
            page_size == 0 <==> r is Err,
            r is Err ==> r->Err_0 == SsdError::InvalidPageSize,
            r is Ok ==> {
                let d = r->Ok_0;
                &&& d.spec_page_size() == page_size
                &&& forall|pid: u64|
                    #[trigger] d.block(pid) == if pid < blocks@.len() {
                        blocks@[pid as int]@
                    } else {
                        Seq::<u8>::empty()
                    }
                &&& d.spec_written() == Seq::<u64>::empty()
                &&& d.spec_metrics().spec_reads() == 0
                &&& d.spec_metrics().spec_writes() == 0
            },
    {
        if page_size == 0 {
            return Err(SsdError::InvalidPageSize);
        }
        Ok(
            SsdDevice {
                blocks,
                page_size,
                metrics: SsdMetrics { reads: 0, writes: 0, read_bytes: 0, write_bytes: 0 },
                written: Vec::new(),
            },
        )
    }

    pub fn page_size(&self) -> (r: u32)
        ensures
            r == self.spec_page_size(),
    {
        self.page_size
    }

    pub fn metrics(&self) -> (r: &SsdMetrics)
        ensures
            *r == self.spec_metrics(),
    {
        &self.metrics
    }

    /// Byte offset of a page in the backing file.
    pub fn calculate_offset(&self, page_id: u64) -> (r: Option<u64>)
        ensures
            page_id * self.spec_page_size() <= u64::MAX ==> r == Some(
                (page_id * self.spec_page_size()) as u64,
            ),
            page_id * self.spec_page_size() > u64::MAX ==> r is None,
    {
        page_id.checked_mul(self.page_size as u64)
    }

    /// A copy of the block of `pid`.
    pub fn block_bytes(&self, pid: u64) -> (r: Vec<u8>)
        ensures
            r@ == self.block(pid),
    {
        if pid < self.blocks.len() as u64 {
            let b = self.blocks[pid as usize].as_slice();
            let r = crate::bytes::copy_range(b, 0, b.len());
            assert(r@ =~= b@);
            r
        } else {
            Vec::new()
        }
    }

    /// Hands out the ids of the blocks written since the last call, in write order.
    pub fn take_written(&mut self) -> (r: Vec<u64>)
        ensures
            r@ == old(self).spec_written(),
            final(self).spec_written() == Seq::<u64>::empty(),
            final(self).spec_page_size() == old(self).spec_page_size(),
            final(self).spec_metrics() == old(self).spec_metrics(),
            forall|pid: u64| #[trigger] final(self).block(pid) == old(self).block(pid),
    {
        let mut r: Vec<u64> = Vec::new();
        std::mem::swap(&mut r, &mut self.written);
        r
    }

    /// Reads the page of `page_id`: an empty page for a block never written, else the
    /// decoded block.
    pub fn read_page(&mut self, page_id: u64) -> (r: Result<Page, SsdError>)
        ensures
            r is Ok <==> old(self).stored(page_id) is Ok,
            r is Ok ==> r->Ok_0.wf() && r->Ok_0@ == old(self).stored(page_id)->Ok_0,
            r is Err ==> r->Err_0 == old(self).stored(page_id)->Err_0,
            final(self).spec_page_size() == old(self).spec_page_size(),
            final(self).spec_written() == old(self).spec_written(),
            forall|pid: u64| #[trigger] final(self).block(pid) == old(self).block(pid),
            final(self).spec_block_count() == old(self).spec_block_count(),
            final(self).spec_metrics().spec_reads() == sat_add(
                old(self).spec_metrics().spec_reads(),
                1,
            ),
            final(self).spec_metrics().spec_writes() == old(self).spec_metrics().spec_writes(),
            final(self).spec_metrics().spec_read_bytes() == sat_add(
                old(self).spec_metrics().spec_read_bytes(),
                old(self).block(page_id).len() as int,
            ),
            final(self).spec_metrics().spec_write_bytes() == old(self).spec_metrics().spec_write_bytes(),
    {
        let len: usize = if page_id < self.blocks.len() as u64 {
            self.blocks[page_id as usize].len()
        } else {
            0
        };
        self.metrics.reads = self.metrics.reads.saturating_add(1);
        self.metrics.read_bytes = self.metrics.read_bytes.saturating_add(len as u64);
        if len == 0 {
            return Ok(Page::new(page_id, self.page_size));
        }
        match Page::read_from_buffer(self.blocks[page_id as usize].as_slice()) {
            Ok(p) => Ok(p),
            Err(e) => Err(SsdError::Decode(e)),
        }
    }

    /// Writes a page into its block, zero-padded to the page size.
    pub fn write_page(&mut self, page: &mut Page) -> (r: Result<(), SsdError>)
        requires
            old(page).wf(),
        ensures
            final(page).wf(),
            final(page)@ == old(page)@,
            r is Err <==> (old(page)@.capacity != old(self).spec_page_size() || model_size(
                old(page)@,
            ) > old(page)@.capacity || old(page)@.id >= usize::MAX),
            r is Err ==> r->Err_0 == if old(page)@.capacity != old(self).spec_page_size()
                || model_size(old(page)@) > old(page)@.capacity {
                SsdError::InvalidPageSize
            } else {
                SsdError::InvalidPageId
            },
            r is Err ==> final(self).spec_metrics() == old(self).spec_metrics(),
            r is Ok ==> final(self).spec_metrics().spec_write_bytes() == sat_add(
                old(self).spec_metrics().spec_write_bytes(),
                old(self).spec_page_size() as int,
            ),
            final(self).spec_metrics().spec_read_bytes() == old(self).spec_metrics().spec_read_bytes(),
            final(self).spec_page_size() == old(self).spec_page_size(),
            r is Err ==> forall|pid: u64| #[trigger] final(self).block(pid) == old(self).block(pid),
            r is Ok ==> final(self).block(old(page)@.id) == encode(old(page)@) + Seq::new(
                (old(page)@.capacity - model_size(old(page)@)) as nat,
                |i: int| 0u8,
            ),
            r is Ok ==> forall|pid: u64|
                pid != old(page)@.id ==> #[trigger] final(self).block(pid) == old(self).block(pid),
            r is Ok ==> final(self).spec_written() == old(self).spec_written().push(old(page)@.id),
            r is Err ==> final(self).spec_written() == old(self).spec_written(),
            final(self).spec_metrics().spec_reads() == old(self).spec_metrics().spec_reads(),
            r is Ok ==> final(self).spec_metrics().spec_writes() == sat_add(
                old(self).spec_metrics().spec_writes(),
                1,
            ),
    {
        let id = page.id();
        if page.capacity() != self.page_size as usize || page.size() > page.capacity() {
            return Err(SsdError::InvalidPageSize);
        }
        if id >= usize::MAX as u64 {
            return Err(SsdError::InvalidPageId);
        }
        let mut bytes = page.to_bytes();
        let pad_len = self.page_size as usize - bytes.len();
        let mut pad = crate::bytes::zeros(pad_len);
        bytes.append(&mut pad);
        let n = bytes.len();
        let idx = id as usize;
        let ghost old_blocks = self.blocks@;
        while self.blocks.len() <= idx
            invariant
                idx < usize::MAX,
                self.page_size == old(self).page_size,
                self.written == old(self).written,
                self.metrics == old(self).metrics,
                old_blocks.len() <= self.blocks@.len(),
                forall|j: int| 0 <= j < old_blocks.len() ==> #[trigger] self.blocks@[j] == old_blocks[j],
                forall|j: int| old_blocks.len() <= j < self.blocks@.len() ==> #[trigger] self.blocks@[j]@.len() == 0,
            decreases idx + 1 - self.blocks@.len(),
        {
            self.blocks.push(Vec::new());
        }
        self.blocks[idx] = bytes;
        self.written.push(id);
        self.metrics.writes = self.metrics.writes.saturating_add(1);
        self.metrics.write_bytes = self.metrics.write_bytes.saturating_add(n as u64);
        proof {
            assert forall|pid: u64| pid != id implies #[trigger] self.block(pid) == old(self).block(pid) by {
                if pid < old_blocks.len() {
                    assert(self.blocks@[pid as int] == old_blocks[pid as int]);
                } else if pid < self.blocks@.len() {
                    assert(self.blocks@[pid as int]@.len() == 0);
                    assert(self.blocks@[pid as int]@ =~= Seq::<u8>::empty());
                }
            }
        }
        Ok(())
    }
}

} // verus!
