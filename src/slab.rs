//! A slab allocator over files: fixed-size slots grouped in size classes, each class
//! filling files of its own and reusing freed slots first.
//!
//! The allocator decides where items go; files are created, read and written by its
//! owner, which takes the list of files to create and the location of each slot.
use std::cmp::Ordering;
use vstd::prelude::*;
use vstd::string::StringSliceAdditionalSpecFns;

use crate::bytes::{bytes_eq, copy_range, lemma_lex_total, lex_less, lex_lt};

verus! {

/// The text of bytes read as UTF-8, each invalid sequence replaced by U+FFFD.
pub uninterp spec fn utf8_lossy(b: Seq<u8>) -> Seq<char>;

/// Relies on `String::from_utf8_lossy`: the text of the bytes, invalid sequences replaced.
#[verifier::external_body]
fn lossy_text(b: &[u8]) -> (r: String)
    ensures
        r@ == utf8_lossy(b@),
{
    String::from_utf8_lossy(b).into_owned()
}

/// Three-way byte-wise lexicographic comparison.
pub open spec fn lex_cmp(a: Seq<u8>, b: Seq<u8>) -> Ordering {
    if lex_lt(a, b) {
        Ordering::Less
    } else if a == b {
        Ordering::Equal
    } else {
        Ordering::Greater
    }
}

/// An owned byte string.
#[derive(Debug, Clone, Eq, Ord)]
pub struct Slice {
    data: Vec<u8>,
}

impl View for Slice {
    type V = Seq<u8>;

    closed spec fn view(&self) -> Seq<u8> {
        self.data@
    }
}

impl Slice {
    pub fn from_str(s: &str) -> (r: Slice)
        ensures
            r@ == s.spec_bytes(),
    {
        let b = s.as_bytes();
        let data = copy_range(b, 0, b.len());
        assert(data@ =~= b@);
        Slice { data }
    }

    pub fn from_vec(v: Vec<u8>) -> (r: Slice)
        ensures
            r@ == v@,
    {
        Slice { data: v }
    }

    pub fn deep_copy(&self) -> (r: Slice)
        ensures
            r@ == self@,
    {
        let data = copy_range(self.data.as_slice(), 0, self.data.len());
        assert(data@ =~= self.data@);
        Slice { data }
    }

    pub fn len(&self) -> (r: usize)
        ensures
            r == self@.len(),
    {
        self.data.len()
    }

    pub fn as_bytes(&self) -> (r: &[u8])
        ensures
            r@ == self@,
    {
        self.data.as_slice()
    }

    /// The bytes as text, invalid UTF-8 sequences replaced.
    pub fn to_string(&self) -> (r: String)
        ensures
            r@ == utf8_lossy(self@),
    {
        lossy_text(self.data.as_slice())
    }

    /// Byte-wise lexicographic comparison; a proper prefix sorts first.
    pub fn compare(&self, other: &Slice) -> (r: Ordering)
        ensures
            r == lex_cmp(self@, other@),
    {
        if lex_less(self.data.as_slice(), other.data.as_slice()) {
            Ordering::Less
        } else if bytes_eq(self.data.as_slice(), other.data.as_slice()) {
            Ordering::Equal
        } else {
            Ordering::Greater
        }
    }
}

impl PartialEq for Slice {
    fn eq(&self, other: &Slice) -> (r: bool) {
        bytes_eq(self.data.as_slice(), other.data.as_slice())
    }
}

impl vstd::std_specs::cmp::PartialEqSpecImpl for Slice {
    open spec fn obeys_eq_spec() -> bool {
        true
    }

    open spec fn eq_spec(&self, other: &Slice) -> bool {
        self@ == other@
    }
}

impl PartialOrd for Slice {
    fn partial_cmp(&self, other: &Slice) -> (r: Option<Ordering>) {
        Some(self.compare(other))
    }
}

impl vstd::std_specs::cmp::PartialOrdSpecImpl for Slice {
    open spec fn obeys_partial_cmp_spec() -> bool {
        true
    }

    open spec fn partial_cmp_spec(&self, other: &Slice) -> Option<Ordering> {
        Some(lex_cmp(self@, other@))
    }
}

/// A slot: its size class, its position in its file, and the file's id.
#[derive(Debug, Clone, Copy, PartialEq, Eq, Structural)]
pub struct Slab {
    pub size: u64,
    pub index: u64,
    pub file: u64,
}

/// Errors of the slab allocator.
#[derive(Debug, Clone, Copy, PartialEq, Eq, Structural)]
pub enum SlabError {
    /// No size class holds an item of this size.
    SizeTooLarge,
    /// No file id is left.
    NoFileId,
    /// No size class has the slot's size.
    SlabSizeNotFound,
    /// The slot's file does not belong to its size class.
    FileNotFound,
    /// The slot's byte offset does not fit 64 bits.
    OffsetOverflow,
    /// A slot header without the valid flag.
    InvalidSlab,
}

/// A file the allocator started: its id, its size class, and its position among the
/// class's files.
#[derive(Debug, Clone, Copy, PartialEq, Eq, Structural)]
pub struct SlabFile {
    pub file_id: u64,
    pub slab_size: u64,
    pub ordinal: u64,
}

/// Where a slot's bytes are: the file (size class and position among its files) and
/// the byte offset in it.
#[derive(Debug, Clone, Copy, PartialEq, Eq, Structural)]
pub struct SlabLocation {
    pub slab_size: u64,
    pub ordinal: u64,
    pub offset: u64,
}

/// What the allocator knows of one size class.
pub struct SlabClass {
    pub files: Seq<u64>,
    pub slab_size: u64,
    pub slab_per_file: u64,
    pub cur_file: u64,
    pub cur_slab: u64,
    pub free: Seq<Slab>,
}

/// One size class: the files it filled, the current file and slot, and freed slots.
struct SingleFileSlab {
    files: Vec<u64>,
    slab_size: u64,
    slab_per_file: u64,
    cur_file: u64,
    cur_slab: u64,
    free_slab: Vec<Slab>,
}

impl SingleFileSlab {
    /// A class with no file: the first allocation starts one.
    fn new(slab_per_file: u64, slab_size: u64) -> (r: SingleFileSlab)
        ensures
            r.files@ == Seq::<u64>::empty(),
            r.slab_size == slab_size,
            r.slab_per_file == slab_per_file,
            r.cur_file == 0,
            r.cur_slab == slab_per_file,
            r.free_slab@ == Seq::<Slab>::empty(),
    {
        SingleFileSlab {
            files: Vec::new(),
            slab_size,
            slab_per_file,
            cur_file: 0,
            cur_slab: slab_per_file,
            free_slab: Vec::new(),
        }
    }
}

/// Ids for the files of the allocator's directory.
struct FileSet {
    directory: String,
    next_file_id: u64,
}

impl FileSet {
    fn new(directory: &str) -> (r: FileSet)
        ensures
            r.directory@ == directory@,
            r.next_file_id == 0,
    {
        FileSet { directory: directory.to_owned(), next_file_id: 0 }
    }
}

/// The slab allocator.
pub struct FileSlab {
    file_set: FileSet,
    slabs: Vec<SingleFileSlab>,
    started: Vec<SlabFile>,
}

/// The first size class, from `from` on, whose slots hold `item` bytes; -1 when none.
pub open spec fn first_fit(classes: Seq<SlabClass>, item: int, from: int) -> int
    decreases classes.len() - from,
{
    if from < 0 || from >= classes.len() {
        -1
    } else if classes[from].slab_size >= item {
        from
    } else {
        first_fit(classes, item, from + 1)
    }
}

pub proof fn lemma_first_fit(classes: Seq<SlabClass>, item: int, from: int)
    requires
        0 <= from <= classes.len(),
    ensures
        first_fit(classes, item, from) == -1 <==> forall|c: int|
            from <= c < classes.len() ==> #[trigger] classes[c].slab_size < item,
        first_fit(classes, item, from) != -1 ==> from <= first_fit(classes, item, from) < classes.len(),
    decreases classes.len() - from,
{
    if from < classes.len() {
        lemma_first_fit(classes, item, from + 1);
    }
}

impl FileSlab {
    /// Marks a slot in use: the first two bytes of its header.
    pub const VALID: u16 = 1024;

    /// The size classes, in the order given at construction.
    pub closed spec fn classes(&self) -> Seq<SlabClass> {
        self.slabs@.map_values(
            |s: SingleFileSlab|
                SlabClass {
                    files: s.files@,
                    slab_size: s.slab_size,
                    slab_per_file: s.slab_per_file,
                    cur_file: s.cur_file,
                    cur_slab: s.cur_slab,
                    free: s.free_slab@,
                },
        )
    }

    pub closed spec fn spec_directory(&self) -> Seq<char> {
        self.file_set.directory@
    }

    pub closed spec fn spec_next_file_id(&self) -> u64 {
        self.file_set.next_file_id
    }

    /// Files started and not yet handed out.
    pub closed spec fn spec_started(&self) -> Seq<SlabFile> {
        self.started@
    }

    /// The size class an item of this key and value goes to: the first whose slots hold the
    /// item and its six-byte header; -1 when none does.
    pub open spec fn chosen(&self, key: Seq<u8>, value: Seq<u8>) -> int {
        first_fit(self.classes(), (key.len() + value.len() + 6) as int, 0)
    }

    /// The class of slot size `size` lists `file` at position `ordinal`.
    pub open spec fn file_at(&self, size: u64, ordinal: u64, file: u64) -> bool {
        exists|c: int|
            0 <= c < self.classes().len() && #[trigger] self.classes()[c].slab_size == size && ordinal
                < self.classes()[c].files.len() && self.classes()[c].files[ordinal as int] == file
    }

    /// The first size class of the slot's size lists the slot's file.
    pub open spec fn holds_slot_file(&self, slab: Slab) -> bool {
        exists|c: int|
            0 <= c < self.classes().len() && #[trigger] self.classes()[c].slab_size == slab.size
                && (forall|d: int| 0 <= d < c ==> #[trigger] self.classes()[d].slab_size != slab.size)
                && self.classes()[c].files.contains(slab.file)
    }

    /// Each class's current slot is at most the slots per file, and each freed slot has its
    /// class's slot size.
    pub closed spec fn wf(&self) -> bool {
        &&& forall|c: int| 0 <= c < self.slabs@.len() ==> #[trigger] self.slabs@[c].cur_slab <= self.slabs@[c].slab_per_file
        &&& forall|c: int, j: int|
            0 <= c < self.slabs@.len() && 0 <= j < self.slabs@[c].free_slab@.len() ==> #[trigger] self.slabs@[c].free_slab@[j].size
                == self.slabs@[c].slab_size
    }

    /// Freed slots of a class have the class's slot size.
    pub proof fn lemma_free_slot_sizes(&self)
        requires
            self.wf(),
        ensures
            forall|c: int, j: int|
                0 <= c < self.classes().len() && 0 <= j < self.classes()[c].free.len() ==> #[trigger] self.classes()[c].free[j].size
                    == self.classes()[c].slab_size,
    {
        assert forall|c: int, j: int|
            0 <= c < self.classes().len() && 0 <= j < self.classes()[c].free.len() implies #[trigger] self.classes()[c].free[j].size
                == self.classes()[c].slab_size by {
            assert(self.classes()[c].free == self.slabs@[c].free_slab@);
            assert(self.slabs@[c].free_slab@[j].size == self.slabs@[c].slab_size);
        }
    }

    pub fn new(directory: &str, slab_per_file: u64, slab_sizes: &[u64]) -> (r: FileSlab)
        ensures
            r.wf(),
            r.classes().len() == slab_sizes@.len(),
            forall|c: int| 0 <= c < slab_sizes@.len() ==> {
                let k = #[trigger] r.classes()[c];
                &&& k.slab_size == slab_sizes@[c]
                &&& k.slab_per_file == slab_per_file
                &&& k.cur_slab == slab_per_file
                &&& k.files == Seq::<u64>::empty()
                &&& k.free == Seq::<Slab>::empty()
            },
            r.spec_next_file_id() == 0,
            r.spec_started() == Seq::<SlabFile>::empty(),
            r.spec_directory() == directory@,
    {
        let file_set = FileSet::new(directory);
        let mut slabs: Vec<SingleFileSlab> = Vec::new();
        let mut i: usize = 0;
        while i < slab_sizes.len()
            invariant
                0 <= i <= slab_sizes@.len(),
                slabs@.len() == i,
                forall|c: int| 0 <= c < i ==> {
                    let s = #[trigger] slabs@[c];
                    &&& s.slab_size == slab_sizes@[c]
                    &&& s.slab_per_file == slab_per_file
                    &&& s.cur_slab == slab_per_file
                    &&& s.files@ == Seq::<u64>::empty()
                    &&& s.free_slab@ == Seq::<Slab>::empty()
                },
            decreases slab_sizes@.len() - i,
        {
            slabs.push(SingleFileSlab::new(slab_per_file, slab_sizes[i]));
            i = i + 1;
        }
        FileSlab { file_set, slabs, started: Vec::new() }
    }

    pub fn directory(&self) -> (r: &str)
        ensures
            r@ == self.spec_directory(),
    {
        self.file_set.directory.as_str()
    }

    pub fn valid(valid: u16) -> (r: bool)
        ensures
            r == (valid == 1024),
    {
        valid == FileSlab::VALID
    }

    /// Allocates a slot for an item of this key and value, with a six-byte header: from
    /// the first size class that holds it, a freed slot if there is one, else the next
    /// slot of the class's current file, else the first slot of a new file.
    pub fn create(&mut self, key: &Slice, value: &Slice) -> (r: Result<Slab, SlabError>)
        requires
            old(self).wf(),
        ensures
            final(self).wf(),
            final(self).classes().len() == old(self).classes().len(),
            old(self).chosen(key@, value@) == -1 ==> r == Err::<Slab, SlabError>(SlabError::SizeTooLarge)
                && final(self).classes() == old(self).classes(),
            old(self).chosen(key@, value@) != -1 ==> 0 <= old(self).chosen(key@, value@) < old(self).classes().len(),
            ({
                let c = old(self).chosen(key@, value@);
                let k = old(self).classes()[c];
                c != -1 && k.free.len() > 0 ==> r == Ok::<Slab, SlabError>(k.free.last())
                    && final(self).classes() == old(self).classes().update(c, SlabClass { free: k.free.drop_last(), ..k })
                    && final(self).spec_next_file_id() == old(self).spec_next_file_id()
            }),
            ({
                let c = old(self).chosen(key@, value@);
                let k = old(self).classes()[c];
                c != -1 && k.free.len() == 0 && k.cur_slab < k.slab_per_file ==> r == Ok::<Slab, SlabError>(
                    Slab { size: k.slab_size, index: (k.cur_slab + 1) as u64, file: k.cur_file })
                    && final(self).classes() == old(self).classes().update(c, SlabClass { cur_slab: (k.cur_slab + 1) as u64, ..k })
                    && final(self).spec_next_file_id() == old(self).spec_next_file_id()
            }),
            ({
                let c = old(self).chosen(key@, value@);
                let k = old(self).classes()[c];
                let id = old(self).spec_next_file_id();
                c != -1 && k.free.len() == 0 && k.cur_slab == k.slab_per_file && id < u64::MAX ==> {
                    &&& r == Ok::<Slab, SlabError>(Slab { size: k.slab_size, index: 0, file: id })
                    &&& final(self).classes() == old(self).classes().update(
                        c,
                        SlabClass { files: k.files.push(id), cur_file: id, cur_slab: 0, ..k },
                    )
                    &&& final(self).spec_next_file_id() == id + 1
                    &&& final(self).spec_started() == old(self).spec_started().push(
                        SlabFile { file_id: id, slab_size: k.slab_size, ordinal: k.files.len() as u64 },
                    )
                }
            }),
            ({
                let c = old(self).chosen(key@, value@);
                let k = old(self).classes()[c];
                c != -1 && k.free.len() == 0 && k.cur_slab == k.slab_per_file && old(self).spec_next_file_id() == u64::MAX
                    ==> r == Err::<Slab, SlabError>(SlabError::NoFileId) && final(self).classes() == old(self).classes()
            }),
    {
        let item: u128 = key.len() as u128 + value.len() as u128 + 6;
        let ghost classes0 = self.classes();
        proof {
            lemma_first_fit(classes0, item as int, 0);
        }
        let mut i: usize = 0;
        while i < self.slabs.len()
            invariant
                self.wf(),
                self == old(self),
                classes0 == self.classes(),
                item as int == key@.len() + value@.len() + 6,
                0 <= i <= self.slabs@.len(),
                first_fit(classes0, item as int, 0) == first_fit(classes0, item as int, i as int),
            decreases self.slabs@.len() - i,
        {
            assert(classes0[i as int].slab_size == self.slabs@[i as int].slab_size);
            if self.slabs[i].slab_size as u128 >= item {
                let ghost k = classes0[i as int];
                assert(first_fit(classes0, item as int, i as int) == i);
                assert(classes0 == old(self).classes());
                assert(item as int == key@.len() + value@.len() + 6);
                assert(old(self).chosen(key@, value@) == i);
                if self.slabs[i].free_slab.len() > 0 {
                    let ghost before = self.slabs@[i as int];
                    let s = self.slabs[i].free_slab.pop();
                    proof {
                        assert(self.classes() =~= classes0.update(i as int, SlabClass { free: k.free.drop_last(), ..k }));
                    }
                    match s {
                        Some(slab) => {
                            return Ok(slab);
                        },
                        None => {
                            return Err(SlabError::SizeTooLarge);
                        },
                    }
                }
                if self.slabs[i].cur_slab == self.slabs[i].slab_per_file {
                    if self.file_set.next_file_id == u64::MAX {
                        return Err(SlabError::NoFileId);
                    }
                    let file_id = self.file_set.next_file_id;
                    self.file_set.next_file_id = file_id + 1;
                    let ordinal = self.slabs[i].files.len() as u64;
                    self.slabs[i].cur_file = file_id;
                    self.slabs[i].cur_slab = 0;
                    self.slabs[i].files.push(file_id);
                    let size = self.slabs[i].slab_size;
                    self.started.push(SlabFile { file_id, slab_size: size, ordinal });
                    proof {
                        assert(self.classes() =~= classes0.update(
                            i as int,
                            SlabClass { files: k.files.push(file_id), cur_file: file_id, cur_slab: 0, ..k },
                        ));
                    }
                    return Ok(Slab { size, index: 0, file: file_id });
                }
                let next = self.slabs[i].cur_slab + 1;
                self.slabs[i].cur_slab = next;
                proof {
                    assert(self.classes() =~= classes0.update(i as int, SlabClass { cur_slab: next, ..k }));
                }
                return Ok(Slab { size: self.slabs[i].slab_size, index: next, file: self.slabs[i].cur_file });
            }
            i = i + 1;
        }
        proof {
            assert(first_fit(classes0, item as int, i as int) == -1);
        }
        Err(SlabError::SizeTooLarge)
    }

    /// Position of a slot's file among its class's files.
    fn find_file(&self, slab: Slab) -> (r: Result<(usize, u64), SlabError>)
        ensures
            r is Ok ==> {
                let (c, ordinal) = r->Ok_0;
                &&& c < self.classes().len()
                &&& self.classes()[c as int].slab_size == slab.size
                &&& forall|d: int| 0 <= d < c ==> #[trigger] self.classes()[d].slab_size != slab.size
                &&& ordinal < self.classes()[c as int].files.len()
                &&& self.classes()[c as int].files[ordinal as int] == slab.file
                &&& forall|j: int| 0 <= j < ordinal ==> #[trigger] self.classes()[c as int].files[j] != slab.file
            },
            r == Err::<(usize, u64), SlabError>(SlabError::SlabSizeNotFound) <==> forall|d: int|
                0 <= d < self.classes().len() ==> #[trigger] self.classes()[d].slab_size != slab.size,
            r is Err ==> r->Err_0 == SlabError::SlabSizeNotFound || r->Err_0 == SlabError::FileNotFound,
            r is Ok <==> self.holds_slot_file(slab),
    {
        let mut c: usize = 0;
        while c < self.slabs.len()
            invariant
                0 <= c <= self.slabs@.len(),
                forall|d: int| 0 <= d < c ==> #[trigger] self.classes()[d].slab_size != slab.size,
            decreases self.slabs@.len() - c,
        {
            assert(self.classes()[c as int].slab_size == self.slabs@[c as int].slab_size);
            assert(self.classes()[c as int].files == self.slabs@[c as int].files@);
            if self.slabs[c].slab_size == slab.size {
                let files = &self.slabs[c].files;
                let mut j: usize = 0;
                while j < files.len()
                    invariant
                        c < self.slabs@.len(),
                        self.classes()[c as int].slab_size == slab.size,
                        forall|d: int| 0 <= d < c ==> #[trigger] self.classes()[d].slab_size != slab.size,
                        0 <= j <= files@.len(),
                        files@ == self.classes()[c as int].files,
                        forall|x: int| 0 <= x < j ==> #[trigger] files@[x] != slab.file,
                    decreases files@.len() - j,
                {
                    if files[j] == slab.file {
                        assert(self.classes()[c as int].files[j as int] == slab.file);
                        return Ok((c, j as u64));
                    }
                    j = j + 1;
                }
                proof {
                    assert(!self.holds_slot_file(slab)) by {
                        if self.holds_slot_file(slab) {
                            let c2 = choose|c2: int|
                                0 <= c2 < self.classes().len() && #[trigger] self.classes()[c2].slab_size == slab.size
                                    && (forall|d: int| 0 <= d < c2 ==> #[trigger] self.classes()[d].slab_size != slab.size)
                                    && self.classes()[c2].files.contains(slab.file);
                            if c2 < c {
                            } else if c2 > c {
                                assert(self.classes()[c as int].slab_size != slab.size);
                            } else {
                                let x = choose|x: int| 0 <= x < files@.len() && files@[x] == slab.file;
                            }
                        }
                    }
                }
                return Err(SlabError::FileNotFound);
            }
            c = c + 1;
        }
        Err(SlabError::SlabSizeNotFound)
    }

    /// Where a slot's bytes are: the file of its class and the offset `size * index`.
    pub fn locate(&self, slab: Slab) -> (r: Result<SlabLocation, SlabError>)
        ensures
            r is Ok ==> r->Ok_0.slab_size == slab.size,
            r is Ok ==> r->Ok_0.offset == slab.size * slab.index,
            r is Ok ==> self.file_at(slab.size, r->Ok_0.ordinal, slab.file),
            (forall|c: int| 0 <= c < self.classes().len() ==> #[trigger] self.classes()[c].slab_size != slab.size)
                ==> r == Err::<SlabLocation, SlabError>(SlabError::SlabSizeNotFound),
            r is Ok <==> self.holds_slot_file(slab) && slab.size * slab.index <= u64::MAX,
            r is Err && self.holds_slot_file(slab) ==> r == Err::<SlabLocation, SlabError>(SlabError::OffsetOverflow),
    {
        let (c, ordinal) = match self.find_file(slab) {
            Ok(x) => x,
            Err(e) => {
                return Err(e);
            },
        };
        assert(self.classes()[c as int].files[ordinal as int] == slab.file);
        match slab.size.checked_mul(slab.index) {
            Some(offset) => Ok(SlabLocation { slab_size: slab.size, ordinal, offset }),
            None => Err(SlabError::OffsetOverflow),
        }
    }

    /// Frees a slot: it goes to its class's free list, to be handed out first. Returns the
    /// slot's location, whose header its owner marks invalid.
    pub fn delete(&mut self, slab: Slab) -> (r: Result<SlabLocation, SlabError>)
        requires
            old(self).wf(),
        ensures
            final(self).wf(),
            final(self).spec_next_file_id() == old(self).spec_next_file_id(),
            (forall|c: int| 0 <= c < old(self).classes().len() ==> #[trigger] old(self).classes()[c].slab_size != slab.size)
                <==> (r == Err::<SlabLocation, SlabError>(SlabError::SlabSizeNotFound)
                && final(self).classes() == old(self).classes()),
            r is Ok ==> exists|c: int| 0 <= c < old(self).classes().len() && #[trigger] old(self).classes()[c].slab_size == slab.size
                && (forall|d: int| 0 <= d < c ==> #[trigger] old(self).classes()[d].slab_size != slab.size)
                && final(self).classes() == old(self).classes().update(
                    c,
                    SlabClass { free: old(self).classes()[c].free.push(slab), ..old(self).classes()[c] },
                ),
            r is Ok <==> old(self).holds_slot_file(slab) && slab.size * slab.index <= u64::MAX,
    {
        let mut c: usize = 0;
        while c < self.slabs.len()
            invariant
                self == old(self),
                self.wf(),
                0 <= c <= self.slabs@.len(),
                forall|d: int| 0 <= d < c ==> #[trigger] self.classes()[d].slab_size != slab.size,
            decreases self.slabs@.len() - c,
        {
            assert(self.classes()[c as int].slab_size == self.slabs@[c as int].slab_size);
            if self.slabs[c].slab_size == slab.size {
                let ghost k = self.classes()[c as int];
                self.slabs[c].free_slab.push(slab);
                proof {
                    assert forall|d: int| 0 <= d < self.slabs@.len() implies #[trigger] self.slabs@[d].cur_slab
                        <= self.slabs@[d].slab_per_file by {
                        if d != c {
                            assert(self.slabs@[d] == old(self).slabs@[d]);
                        }
                    }
                    assert(self.classes() =~= old(self).classes().update(
                        c as int,
                        SlabClass { free: k.free.push(slab), ..k },
                    ));
                    assert(old(self).classes()[c as int].slab_size == slab.size);
                    assert forall|d: int| 0 <= d < self.classes().len() implies #[trigger] self.classes()[d].slab_size
                        == old(self).classes()[d].slab_size && self.classes()[d].files == old(self).classes()[d].files by {}
                    if self.holds_slot_file(slab) {
                        let c2 = choose|c2: int|
                            0 <= c2 < self.classes().len() && #[trigger] self.classes()[c2].slab_size == slab.size
                                && (forall|d: int| 0 <= d < c2 ==> #[trigger] self.classes()[d].slab_size != slab.size)
                                && self.classes()[c2].files.contains(slab.file);
                        assert(old(self).classes()[c2].slab_size == slab.size);
                        assert forall|d: int| 0 <= d < c2 implies #[trigger] old(self).classes()[d].slab_size != slab.size by {
                            assert(self.classes()[d].slab_size == old(self).classes()[d].slab_size);
                        }
                        assert(old(self).classes()[c2].files.contains(slab.file));
                    }
                    if old(self).holds_slot_file(slab) {
                        let c2 = choose|c2: int|
                            0 <= c2 < old(self).classes().len() && #[trigger] old(self).classes()[c2].slab_size == slab.size
                                && (forall|d: int| 0 <= d < c2 ==> #[trigger] old(self).classes()[d].slab_size != slab.size)
                                && old(self).classes()[c2].files.contains(slab.file);
                        assert(self.classes()[c2].slab_size == slab.size);
                        assert forall|d: int| 0 <= d < c2 implies #[trigger] self.classes()[d].slab_size != slab.size by {
                            assert(self.classes()[d].slab_size == old(self).classes()[d].slab_size);
                        }
                        assert(self.classes()[c2].files.contains(slab.file));
                    }
                }
                let loc = self.locate(slab);
                return match loc {
                    Ok(l) => Ok(l),
                    Err(SlabError::SlabSizeNotFound) => Err(SlabError::FileNotFound),
                    Err(e) => Err(e),
                };
            }
            c = c + 1;
        }
        Err(SlabError::SlabSizeNotFound)
    }

    /// Hands out the files started since the last call, in order.
    pub fn take_started_files(&mut self) -> (r: Vec<SlabFile>)
        ensures
            r@ == old(self).spec_started(),
            final(self).spec_started() == Seq::<SlabFile>::empty(),
            final(self).classes() == old(self).classes(),
            final(self).spec_next_file_id() == old(self).spec_next_file_id(),
            old(self).wf() ==> final(self).wf(),
    {
        let mut r: Vec<SlabFile> = Vec::new();
        std::mem::swap(&mut r, &mut self.started);
        r
    }
}

/// The bytes written to a slot: the valid flag, the key and value lengths (each a u16 LE),
/// the key, and the value. `None` when a length does not fit 16 bits.
pub fn encode_record(key: &Slice, value: &Slice) -> (r: Option<Vec<u8>>)
    ensures
        key@.len() > 65535 || value@.len() > 65535 <==> r is None,
        r is Some ==> r->Some_0@ == seq![0u8, 4u8] + vstd::bytes::spec_u16_to_le_bytes(key@.len() as u16)
            + vstd::bytes::spec_u16_to_le_bytes(value@.len() as u16) + key@ + value@,
{
    if key.len() > 65535 || value.len() > 65535 {
        return None;
    }
    let mut out: Vec<u8> = Vec::new();
    out.push(0u8);
    out.push(4u8);
    let mut ks = vstd::bytes::u16_to_le_bytes(key.len() as u16);
    out.append(&mut ks);
    let mut vs = vstd::bytes::u16_to_le_bytes(value.len() as u16);
    out.append(&mut vs);
    let kb = key.as_bytes();
    let mut k = copy_range(kb, 0, kb.len());
    assert(k@ =~= key@);
    out.append(&mut k);
    let vb = value.as_bytes();
    let mut v = copy_range(vb, 0, vb.len());
    assert(v@ =~= value@);
    out.append(&mut v);
    Some(out)
}

/// Reads a slot header: the key and value lengths, or `InvalidSlab` without the valid flag.
pub fn decode_record_header(header: &[u8]) -> (r: Result<(usize, usize), SlabError>)
    requires
        header@.len() == 6,
    ensures
        vstd::bytes::spec_u16_from_le_bytes(header@.subrange(0, 2)) != 1024 <==> r == Err::<(usize, usize), SlabError>(SlabError::InvalidSlab),
        r is Ok ==> r->Ok_0.0 == vstd::bytes::spec_u16_from_le_bytes(header@.subrange(2, 4))
            && r->Ok_0.1 == vstd::bytes::spec_u16_from_le_bytes(header@.subrange(4, 6)),
{
    let valid = vstd::bytes::u16_from_le_bytes(&header[0..2]);
    if !FileSlab::valid(valid) {
        return Err(SlabError::InvalidSlab);
    }
    let key_size = vstd::bytes::u16_from_le_bytes(&header[2..4]) as usize;
    let value_size = vstd::bytes::u16_from_le_bytes(&header[4..6]) as usize;
    Ok((key_size, value_size))
}

} // verus!
