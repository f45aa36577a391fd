use crate::base::TuplePointer;
use crate::codec::{
    lemma_le_round_trips, overwrite, read_u16, read_u32, read_u64, spliced, u16_at, u32_at, u64_at,
};
use vstd::bytes::*;
use vstd::prelude::*;

verus! {

/// Size of an index page.
pub const INDEX_PAGE_SIZE: usize = 4096;

/// Size of the header at the start of an index page.
pub const INDEX_HEADER_SIZE: usize = 64;

/// Size of one encoded entry.
pub const INDEX_ENTRY_SIZE: usize = 15;

/// Entries that fit after the header: (4096 - 64) / 15.
pub const MAX_INDEX_ENTRIES: usize = 268;

/// "INDX", stored little-endian in the first four bytes of every page.
pub const INDEX_MAGIC: u32 = 0x494E4458;

/// Why an index page operation failed.
#[derive(Debug, Clone, Copy, PartialEq, Eq, Structural)]
pub enum IndexError {
    /// The buffer handed in is not exactly one page long.
    WrongSize,
    /// The header's magic number is not "INDX": the page is corrupt.
    BadMagic,
    /// A position at or past the number of stored keys was read.
    EntryOutOfRange,
    /// The page already holds `MAX_INDEX_ENTRIES` entries.
    PageFull,
    /// An insert position past the number of stored keys.
    PositionOutOfRange,
    /// More entries than a page can hold.
    TooManyEntries,
}

/// Decoded index page header.
#[derive(Debug, Clone, Copy)]
pub struct IndexPageHeader {
    pub magic: u32,
    pub is_leaf: bool,
    pub num_keys: u16,
}

impl IndexPageHeader {
    pub fn new(is_leaf: bool) -> (r: IndexPageHeader)
        ensures
            r.magic == INDEX_MAGIC,
            r.is_leaf == is_leaf,
            r.num_keys == 0,
    {
        IndexPageHeader { magic: INDEX_MAGIC, is_leaf, num_keys: 0 }
    }

    pub fn validate(&self) -> (r: Result<(), IndexError>)
        ensures
            r is Ok <==> self.magic == INDEX_MAGIC,
            r is Err ==> r == Err::<(), IndexError>(IndexError::BadMagic),
    {
        if self.magic != INDEX_MAGIC {
            return Err(IndexError::BadMagic);
        }
        Ok(())
    }
}

/// One index entry: a key and the location of its row.
#[derive(Debug, Clone, Copy, PartialEq, Eq, Structural)]
pub struct IndexEntry {
    pub key: u64,
    pub segment_id: u32,
    pub block_id: u8,
    pub slot_id: u16,
}

impl IndexEntry {
    pub open spec fn pointer(self) -> TuplePointer {
        TuplePointer { segment_id: self.segment_id, block_id: self.block_id, slot_id: self.slot_id }
    }

    pub fn new(key: u64, ptr: TuplePointer) -> (r: IndexEntry)
        ensures
            r.key == key,
            r.pointer() == ptr,
    {
        IndexEntry {
            key,
            segment_id: ptr.segment_id,
            block_id: ptr.block_id,
            slot_id: ptr.slot_id,
        }
    }

    pub fn as_tuple_pointer(&self) -> (r: TuplePointer)
        ensures
            r == self.pointer(),
    {
        TuplePointer {
            segment_id: self.segment_id,
            block_id: self.block_id,
            slot_id: self.slot_id,
        }
    }
}

/// Byte offset of entry `i` in a page.
pub open spec fn entry_offset(i: int) -> int {
    INDEX_HEADER_SIZE + INDEX_ENTRY_SIZE * i
}

/// The 15 bytes that encode `e`: key, segment, block, slot, little-endian.
pub open spec fn entry_bytes(e: IndexEntry) -> Seq<u8> {
    spec_u64_to_le_bytes(e.key) + spec_u32_to_le_bytes(e.segment_id) + seq![e.block_id]
        + spec_u16_to_le_bytes(e.slot_id)
}

pub open spec fn page_magic(d: Seq<u8>) -> u32 {
    u32_at(d, 0)
}

pub open spec fn page_is_leaf(d: Seq<u8>) -> bool {
    d[4] != 0
}

pub open spec fn page_num_keys(d: Seq<u8>) -> nat {
    u16_at(d, 5) as nat
}

/// Entry `i` as the bytes of a page encode it.
pub open spec fn page_entry(d: Seq<u8>, i: int) -> IndexEntry {
    let off = entry_offset(i);
    IndexEntry {
        key: u64_at(d, off),
        segment_id: u32_at(d, off + 8),
        block_id: d[off + 12],
        slot_id: u16_at(d, off + 13),
    }
}

/// The stored entries of a page, in stored order.
pub open spec fn page_entries(d: Seq<u8>) -> Seq<IndexEntry> {
    Seq::new(page_num_keys(d), |i: int| page_entry(d, i))
}

/// A page buffer of the right size whose key count fits.
pub open spec fn page_ok(d: Seq<u8>) -> bool {
    d.len() == INDEX_PAGE_SIZE && page_num_keys(d) <= MAX_INDEX_ENTRIES
}

pub open spec fn keys_sorted(s: Seq<IndexEntry>) -> bool {
    forall|i: int, j: int| 0 <= i < j < s.len() ==> s[i].key < s[j].key
}

pub open spec fn same_header(d1: Seq<u8>, d2: Seq<u8>) -> bool {
    forall|j: int| 0 <= j < INDEX_HEADER_SIZE ==> d1[j] == d2[j]
}

proof fn lemma_entry_decode(d: Seq<u8>, i: int, e: IndexEntry)
    requires
        0 <= i,
        entry_offset(i) + INDEX_ENTRY_SIZE <= d.len(),
        d.subrange(entry_offset(i), entry_offset(i) + INDEX_ENTRY_SIZE) == entry_bytes(e),
    ensures
        page_entry(d, i) == e,
{
    lemma_le_round_trips();
    let off = entry_offset(i);
    let eb = entry_bytes(e);
    let a = spec_u64_to_le_bytes(e.key);
    let b = spec_u32_to_le_bytes(e.segment_id);
    let c = spec_u16_to_le_bytes(e.slot_id);
    assert(a.len() == 8 && b.len() == 4 && c.len() == 2);
    assert(forall|k: int| 0 <= k < 15 ==> d[off + k] == #[trigger] eb[k]);
    assert forall|k: int| 0 <= k < 8 implies d[off + k] == #[trigger] a[k] by {
        assert(eb[k] == a[k]);
    }
    assert forall|k: int| 0 <= k < 4 implies d[off + 8 + k] == #[trigger] b[k] by {
        assert(eb[8 + k] == b[k]);
    }
    assert forall|k: int| 0 <= k < 2 implies d[off + 13 + k] == #[trigger] c[k] by {
        assert(eb[13 + k] == c[k]);
    }
    assert(d[off + 12] == eb[12]);
    assert(d.subrange(off, off + 8) =~= a);
    assert(d.subrange(off + 8, off + 12) =~= b);
    assert(d.subrange(off + 13, off + 15) =~= c);
}

proof fn lemma_entry_frame(d1: Seq<u8>, d2: Seq<u8>, i: int)
    requires
        0 <= i,
        entry_offset(i) + INDEX_ENTRY_SIZE <= d1.len(),
        d1.len() == d2.len(),
        forall|j: int| entry_offset(i) <= j < entry_offset(i) + INDEX_ENTRY_SIZE ==> d1[j] == d2[j],
    ensures
        page_entry(d1, i) == page_entry(d2, i),
{
    let off = entry_offset(i);
    assert(d1.subrange(off, off + 8) =~= d2.subrange(off, off + 8));
    assert(d1.subrange(off + 8, off + 12) =~= d2.subrange(off + 8, off + 12));
    assert(d1.subrange(off + 13, off + 15) =~= d2.subrange(off + 13, off + 15));
}

proof fn lemma_header_frame(d1: Seq<u8>, d2: Seq<u8>)
    requires
        d1.len() >= INDEX_HEADER_SIZE,
        d1.len() == d2.len(),
        same_header(d1, d2),
    ensures
        page_magic(d1) == page_magic(d2),
        page_is_leaf(d1) == page_is_leaf(d2),
        page_num_keys(d1) == page_num_keys(d2),
{
    assert(d1.subrange(0, 4) =~= d2.subrange(0, 4));
    assert(d1.subrange(5, 7) =~= d2.subrange(5, 7));
}

fn entry_to_bytes(e: IndexEntry) -> (r: Vec<u8>)
    ensures
        r@ == entry_bytes(e),
{
    let mut r = u64_to_le_bytes(e.key);
    let mut seg = u32_to_le_bytes(e.segment_id);
    r.append(&mut seg);
    r.push(e.block_id);
    let mut slot = u16_to_le_bytes(e.slot_id);
    r.append(&mut slot);
    r
}

/// Writes entry `i` of the page buffer `d`, leaving every other byte alone.
fn write_entry_bytes(d: &mut Vec<u8>, i: usize, e: IndexEntry)
    requires
        old(d)@.len() == INDEX_PAGE_SIZE,
        i < MAX_INDEX_ENTRIES,
    ensures
        final(d)@.len() == INDEX_PAGE_SIZE,
        page_entry(final(d)@, i as int) == e,
        forall|k: int|
            0 <= k < MAX_INDEX_ENTRIES && k != i ==> #[trigger] page_entry(final(d)@, k)
                == page_entry(old(d)@, k),
        same_header(old(d)@, final(d)@),
        forall|j: int|
            0 <= j < INDEX_PAGE_SIZE && !(entry_offset(i as int) <= j < entry_offset(i as int) + INDEX_ENTRY_SIZE)
                ==> #[trigger] final(d)@[j] == old(d)@[j],
{
    let ghost d0 = d@;
    let b = entry_to_bytes(e);
    proof {
        lemma_le_round_trips();
    }
    let off = INDEX_HEADER_SIZE + INDEX_ENTRY_SIZE * i;
    overwrite(d, off, b.as_slice());
    proof {
        let d1 = d@;
        assert(d1.subrange(off as int, off + 15) =~= entry_bytes(e));
        lemma_entry_decode(d1, i as int, e);
        assert forall|k: int| 0 <= k < MAX_INDEX_ENTRIES && k != i implies #[trigger] page_entry(
            d1,
            k,
        ) == page_entry(d0, k) by {
            lemma_entry_frame(d0, d1, k);
        }
    }
}

/// Writes the whole header of the page buffer `d`.
fn write_header_bytes(d: &mut Vec<u8>, is_leaf: bool, num_keys: u16)
    requires
        old(d)@.len() == INDEX_PAGE_SIZE,
    ensures
        final(d)@.len() == INDEX_PAGE_SIZE,
        page_magic(final(d)@) == INDEX_MAGIC,
        page_is_leaf(final(d)@) == is_leaf,
        page_num_keys(final(d)@) == num_keys,
        forall|j: int| INDEX_HEADER_SIZE <= j < INDEX_PAGE_SIZE ==> final(d)@[j] == old(d)@[j],
        forall|j: int| 7 <= j < INDEX_HEADER_SIZE ==> final(d)@[j] == 0,
{
    let mut h = u32_to_le_bytes(INDEX_MAGIC);
    h.push(if is_leaf { 1u8 } else { 0u8 });
    let mut n = u16_to_le_bytes(num_keys);
    h.append(&mut n);
    let mut pad: Vec<u8> = vec![0u8; 57];
    h.append(&mut pad);
    proof {
        lemma_le_round_trips();
    }
    overwrite(d, 0, h.as_slice());
    proof {
        let d1 = d@;
        assert(d1.subrange(0, 4) =~= spec_u32_to_le_bytes(INDEX_MAGIC));
        assert(d1.subrange(5, 7) =~= spec_u16_to_le_bytes(num_keys));
        assert forall|j: int| 7 <= j < INDEX_HEADER_SIZE implies d1[j] == 0 by {
            assert(d1[j] == h@[j]);
        }
    }
}

/// Writes only the key count of the page buffer `d`.
fn write_num_keys(d: &mut Vec<u8>, num_keys: u16)
    requires
        old(d)@.len() == INDEX_PAGE_SIZE,
    ensures
        final(d)@.len() == INDEX_PAGE_SIZE,
        page_magic(final(d)@) == page_magic(old(d)@),
        page_is_leaf(final(d)@) == page_is_leaf(old(d)@),
        page_num_keys(final(d)@) == num_keys,
        forall|j: int| INDEX_HEADER_SIZE <= j < INDEX_PAGE_SIZE ==> final(d)@[j] == old(d)@[j],
{
    let ghost d0 = d@;
    let n = u16_to_le_bytes(num_keys);
    proof {
        lemma_le_round_trips();
    }
    overwrite(d, 5, n.as_slice());
    proof {
        let d1 = d@;
        assert(d1.subrange(5, 7) =~= spec_u16_to_le_bytes(num_keys));
        assert(d1.subrange(0, 4) =~= d0.subrange(0, 4));
    }
}

/// Reads entry `i` of the page buffer `d`.
fn read_entry_bytes(d: &Vec<u8>, i: usize) -> (r: IndexEntry)
    requires
        d@.len() == INDEX_PAGE_SIZE,
        i < MAX_INDEX_ENTRIES,
    ensures
        r == page_entry(d@, i as int),
{
    let off = INDEX_HEADER_SIZE + INDEX_ENTRY_SIZE * i;
    let key = read_u64(d.as_slice(), off);
    let segment_id = read_u32(d.as_slice(), off + 8);
    let block_id = d[off + 12];
    let slot_id = read_u16(d.as_slice(), off + 13);
    IndexEntry { key, segment_id, block_id, slot_id }
}

/// A 4096-byte B+Tree node: a 64-byte header followed by up to
/// `MAX_INDEX_ENTRIES` entries of 15 bytes, kept in ascending key order.
#[derive(Debug)]
pub struct IndexPage {
    data: Vec<u8>,
}

impl View for IndexPage {
    type V = Seq<u8>;

    closed spec fn view(&self) -> Seq<u8> {
        self.data@
    }
}

impl IndexPage {
    /// Size, key count in range, magic intact and keys strictly ascending.
    pub open spec fn wf(&self) -> bool {
        &&& page_ok(self@)
        &&& page_magic(self@) == INDEX_MAGIC
        &&& keys_sorted(page_entries(self@))
    }

    /// An empty page.
    pub fn new(is_leaf: bool) -> (r: IndexPage)
        ensures
            r.wf(),
            page_is_leaf(r@) == is_leaf,
            page_entries(r@) == Seq::<IndexEntry>::empty(),
    {
        let mut data: Vec<u8> = vec![0u8; INDEX_PAGE_SIZE];
        write_header_bytes(&mut data, is_leaf, 0);
        let r = IndexPage { data };
        assert(page_entries(r@) =~= Seq::<IndexEntry>::empty());
        r
    }

    /// Takes a page as it was stored. The magic is not checked here: a page
    /// with a corrupt magic fails on every later read.
    pub fn from_bytes(data: Vec<u8>) -> (r: Result<IndexPage, IndexError>)
        ensures
            data@.len() != INDEX_PAGE_SIZE ==> r == Err::<IndexPage, IndexError>(IndexError::WrongSize),
            data@.len() == INDEX_PAGE_SIZE && page_num_keys(data@) > MAX_INDEX_ENTRIES ==> r == Err::<IndexPage, IndexError>(IndexError::TooManyEntries),
            page_ok(data@) ==> r is Ok && r->Ok_0@ == data@,
    {
        if data.len() != INDEX_PAGE_SIZE {
            return Err(IndexError::WrongSize);
        }
        if read_u16(data.as_slice(), 5) as usize > MAX_INDEX_ENTRIES {
            return Err(IndexError::TooManyEntries);
        }
        Ok(IndexPage { data })
    }

    /// The page's bytes.
    pub fn data(&self) -> (r: &Vec<u8>)
        ensures
            r@ == self@,
    {
        &self.data
    }

    /// Reads and validates the header.
    pub fn header(&self) -> (r: Result<IndexPageHeader, IndexError>)
        requires
            page_ok(self@),
        ensures
            page_magic(self@) != INDEX_MAGIC ==> r == Err::<IndexPageHeader, IndexError>(IndexError::BadMagic),
            page_magic(self@) == INDEX_MAGIC ==> r is Ok,
            r matches Ok(h) ==> h.magic == INDEX_MAGIC && h.is_leaf == page_is_leaf(self@)
                && h.num_keys == page_num_keys(self@),
    {
        let magic = read_u32(self.data.as_slice(), 0);
        let is_leaf = self.data[4] != 0;
        let num_keys = read_u16(self.data.as_slice(), 5);
        let header = IndexPageHeader { magic, is_leaf, num_keys };
        match header.validate() {
            Ok(()) => Ok(header),
            Err(e) => Err(e),
        }
    }

    /// Number of entries that fit in a page.
    pub fn max_entries() -> (r: usize)
        ensures
            r == MAX_INDEX_ENTRIES,
    {
        (INDEX_PAGE_SIZE - INDEX_HEADER_SIZE) / INDEX_ENTRY_SIZE
    }

    /// The entry at `pos`.
    pub fn get_entry(&self, pos: usize) -> (r: Result<IndexEntry, IndexError>)
        requires
            page_ok(self@),
        ensures
            page_magic(self@) != INDEX_MAGIC ==> r == Err::<IndexEntry, IndexError>(IndexError::BadMagic),
            page_magic(self@) == INDEX_MAGIC && pos >= page_num_keys(self@) ==> r == Err::<IndexEntry, IndexError>(IndexError::EntryOutOfRange),
            page_magic(self@) == INDEX_MAGIC && pos < page_num_keys(self@) ==> r == Ok::<IndexEntry, IndexError>(page_entries(self@)[pos as int]),
    {
        let header = self.header()?;
        if pos >= header.num_keys as usize {
            return Err(IndexError::EntryOutOfRange);
        }
        Ok(read_entry_bytes(&self.data, pos))
    }

    /// Lower-bound search: `(true, i)` when entry `i` holds `key`, otherwise
    /// `(false, i)` with `i` the position where `key` belongs in key order.
    pub fn binary_search(&self, key: u64) -> (r: Result<(bool, usize), IndexError>)
        requires
            page_ok(self@),
        ensures
            page_magic(self@) != INDEX_MAGIC ==> r == Err::<(bool, usize), IndexError>(IndexError::BadMagic),
            page_magic(self@) == INDEX_MAGIC ==> r is Ok,
            r matches Ok((found, pos)) ==> {
                let s = page_entries(self@);
                &&& pos <= s.len()
                &&& found ==> pos < s.len() && s[pos as int].key == key
                &&& keys_sorted(s) && !found ==> (forall|i: int| 0 <= i < pos ==> s[i].key < key)
                    && (forall|i: int| pos <= i < s.len() ==> s[i].key > key)
            },
    {
        let header = self.header()?;
        let count = header.num_keys as usize;
        let ghost s = page_entries(self@);
        if count == 0 {
            return Ok((false, 0));
        }
        let mut left: usize = 0;
        let mut right: usize = count;
        while left < right
            invariant
                page_ok(self@),
                page_magic(self@) == INDEX_MAGIC,
                s == page_entries(self@),
                count == s.len(),
                left <= right <= count,
                keys_sorted(s) ==> forall|i: int| 0 <= i < left ==> s[i].key < key,
                keys_sorted(s) ==> forall|i: int| right <= i < count ==> s[i].key > key,
            decreases right - left,
        {
            let mid = (left + right) / 2;
            let mid_entry = read_entry_bytes(&self.data, mid);
            if mid_entry.key == key {
                return Ok((true, mid));
            } else if mid_entry.key < key {
                proof {
                    if keys_sorted(s) {
                        assert forall|i: int| 0 <= i <= mid implies s[i].key < key by {
                            if i < mid {
                                assert(s[i].key < s[mid as int].key);
                            }
                        }
                    }
                }
                left = mid + 1;
            } else {
                proof {
                    if keys_sorted(s) {
                        assert forall|i: int| mid <= i < count implies s[i].key > key by {
                            if i > mid {
                                assert(s[mid as int].key < s[i].key);
                            }
                        }
                    }
                }
                right = mid;
            }
        }
        Ok((false, left))
    }

    /// Inserts `entry` at `pos`, moving the entries from `pos` on one place up.
    pub fn insert_at(&mut self, pos: usize, entry: IndexEntry) -> (r: Result<(), IndexError>)
        requires
            page_ok(old(self)@),
        ensures
            page_ok(final(self)@),
            page_magic(old(self)@) != INDEX_MAGIC <==> r == Err::<(), IndexError>(IndexError::BadMagic),
            page_magic(old(self)@) == INDEX_MAGIC && page_num_keys(old(self)@) >= MAX_INDEX_ENTRIES
                <==> r == Err::<(), IndexError>(IndexError::PageFull),
            page_magic(old(self)@) == INDEX_MAGIC && page_num_keys(old(self)@) < MAX_INDEX_ENTRIES
                && pos > page_num_keys(old(self)@) <==> r == Err::<(), IndexError>(IndexError::PositionOutOfRange),
            r is Ok <==> page_magic(old(self)@) == INDEX_MAGIC && page_num_keys(old(self)@) < MAX_INDEX_ENTRIES
                && pos <= page_num_keys(old(self)@),
            r is Err ==> final(self)@ == old(self)@,
            r is Ok ==> {
                &&& page_magic(final(self)@) == INDEX_MAGIC
                &&& page_is_leaf(final(self)@) == page_is_leaf(old(self)@)
                &&& page_entries(final(self)@) == page_entries(old(self)@).insert(pos as int, entry)
            },
    {
        let header = self.header()?;
        let count = header.num_keys as usize;
        if count >= MAX_INDEX_ENTRIES {
            return Err(IndexError::PageFull);
        }
        if pos > count {
            return Err(IndexError::PositionOutOfRange);
        }
        let ghost d0 = self.data@;
        let mut j: usize = count;
        while j > pos
            invariant
                d0.len() == INDEX_PAGE_SIZE,
                self.data@.len() == INDEX_PAGE_SIZE,
                pos <= j <= count < MAX_INDEX_ENTRIES,
                same_header(d0, self.data@),
                forall|k: int| 0 <= k < j ==> #[trigger] page_entry(self.data@, k) == page_entry(d0, k),
                forall|k: int| j < k <= count ==> #[trigger] page_entry(self.data@, k) == page_entry(d0, k - 1),
            decreases j,
        {
            let e = read_entry_bytes(&self.data, j - 1);
            write_entry_bytes(&mut self.data, j, e);
            j = j - 1;
        }
        write_entry_bytes(&mut self.data, pos, entry);
        let ghost d1 = self.data@;
        write_num_keys(&mut self.data, (count + 1) as u16);
        proof {
            let d2 = self.data@;
            lemma_header_frame(d0, d1);
            assert forall|k: int| 0 <= k < MAX_INDEX_ENTRIES implies #[trigger] page_entry(d2, k)
                == page_entry(d1, k) by {
                lemma_entry_frame(d1, d2, k);
            }
            assert(page_entries(d2) =~= page_entries(d0).insert(pos as int, entry));
        }
        Ok(())
    }

    /// Overwrites the entry at `pos`, which must be a stored position.
    pub fn set_entry(&mut self, pos: usize, entry: IndexEntry)
        requires
            page_ok(old(self)@),
            pos < page_num_keys(old(self)@),
        ensures
            page_ok(final(self)@),
            page_magic(final(self)@) == page_magic(old(self)@),
            page_is_leaf(final(self)@) == page_is_leaf(old(self)@),
            page_entries(final(self)@) == page_entries(old(self)@).update(pos as int, entry),
    {
        let ghost d0 = self.data@;
        write_entry_bytes(&mut self.data, pos, entry);
        proof {
            lemma_header_frame(d0, self.data@);
            assert(page_entries(self.data@) =~= page_entries(d0).update(pos as int, entry));
        }
    }

    /// All stored entries, in stored order.
    pub fn entries(&self) -> (r: Result<Vec<IndexEntry>, IndexError>)
        requires
            page_ok(self@),
        ensures
            page_magic(self@) != INDEX_MAGIC ==> r == Err::<Vec<IndexEntry>, IndexError>(IndexError::BadMagic),
            page_magic(self@) == INDEX_MAGIC ==> r is Ok,
            r matches Ok(v) ==> v@ == page_entries(self@),
    {
        let header = self.header()?;
        let count = header.num_keys as usize;
        let mut result: Vec<IndexEntry> = Vec::new();
        let mut i: usize = 0;
        while i < count
            invariant
                page_ok(self@),
                count == page_num_keys(self@),
                i <= count,
                result@ == page_entries(self@).subrange(0, i as int),
            decreases count - i,
        {
            result.push(read_entry_bytes(&self.data, i));
            i = i + 1;
            assert(result@ =~= page_entries(self@).subrange(0, i as int));
        }
        assert(result@ =~= page_entries(self@));
        Ok(result)
    }

    /// Clears the page and stores `entries` in it, as a leaf or internal page.
    pub fn set_entries(&mut self, is_leaf: bool, entries: Vec<IndexEntry>) -> (r: Result<(), IndexError>)
        ensures
            entries@.len() > MAX_INDEX_ENTRIES ==> r == Err::<(), IndexError>(IndexError::TooManyEntries),
            entries@.len() <= MAX_INDEX_ENTRIES ==> r is Ok,
            r is Err ==> final(self)@ == old(self)@,
            r is Ok ==> {
                &&& page_ok(final(self)@)
                &&& page_magic(final(self)@) == INDEX_MAGIC
                &&& page_is_leaf(final(self)@) == is_leaf
                &&& page_entries(final(self)@) == entries@
                &&& forall|j: int| 7 <= j < INDEX_HEADER_SIZE ==> #[trigger] final(self)@[j] == 0
                &&& forall|j: int| entry_offset(entries@.len() as int) <= j < INDEX_PAGE_SIZE ==> #[trigger] final(self)@[j] == 0
            },
    {
        if entries.len() > MAX_INDEX_ENTRIES {
            return Err(IndexError::TooManyEntries);
        }
        let mut data: Vec<u8> = vec![0u8; INDEX_PAGE_SIZE];
        write_header_bytes(&mut data, is_leaf, entries.len() as u16);
        let ghost h = data@;
        let mut i: usize = 0;
        while i < entries.len()
            invariant
                entries@.len() <= MAX_INDEX_ENTRIES,
                data@.len() == INDEX_PAGE_SIZE,
                same_header(h, data@),
                h.len() == INDEX_PAGE_SIZE,
                page_magic(h) == INDEX_MAGIC,
                page_is_leaf(h) == is_leaf,
                page_num_keys(h) == entries@.len(),
                i <= entries@.len(),
                forall|k: int| 0 <= k < i ==> #[trigger] page_entry(data@, k) == entries@[k],
                forall|j: int| 7 <= j < INDEX_HEADER_SIZE ==> #[trigger] data@[j] == 0,
                forall|j: int| entry_offset(i as int) <= j < INDEX_PAGE_SIZE ==> #[trigger] data@[j] == 0,
            decreases entries@.len() - i,
        {
            write_entry_bytes(&mut data, i, entries[i]);
            i = i + 1;
        }
        proof {
            lemma_header_frame(h, data@);
            assert(page_entries(data@) =~= entries@);
        }
        self.data = data;
        Ok(())
    }
}

} // verus!
