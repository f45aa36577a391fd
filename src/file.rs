use crate::base::{TuplePointer, BLOCKS_PER_UNCOMPRESSED_SEGMENT, BLOCK_SIZE};
use crate::storage::{block_image, has_room, parse_block, slots_size, Block, Segment, StorageError, BLOCK_HEADER_SIZE};
use vstd::prelude::*;

verus! {

/// The database file: block 0 of the two reserved metadata segments, and
/// the table segments, segment `id` at position `id - 2`.
#[derive(Debug)]
pub struct DatabaseFile {
    meta: Vec<Vec<u8>>,
    segments: Vec<Segment>,
}

/// Position of table segment `id` among the table segments.
pub open spec fn seg_index(id: u32) -> int {
    id - 2
}

impl DatabaseFile {
    pub closed spec fn wf(&self) -> bool {
        &&& self.meta@.len() == 2
        &&& forall|i: int| 0 <= i < 2 ==> (#[trigger] self.meta@[i])@.len() == BLOCK_SIZE
        &&& forall|i: int| 0 <= i < self.segments@.len() ==> (#[trigger] self.segments@[i]).wf()
    }

    /// Block 0 of metadata segment `i`.
    pub closed spec fn meta_block(&self, i: int) -> Seq<u8> {
        self.meta@[i]@
    }

    /// The blocks of segment `id`, each as its tuples; `None` for a segment
    /// that was never initialized.
    pub closed spec fn segment_view(&self, id: u32) -> Option<Seq<Seq<Seq<u8>>>> {
        if 2 <= id && seg_index(id) < self.segments@.len() {
            Some(self.segments@[seg_index(id)].view())
        } else {
            None
        }
    }

    /// A file whose metadata blocks are all zero and that has no table segment.
    pub fn new() -> (r: DatabaseFile)
        ensures
            r.wf(),
            forall|i: int| 0 <= i < 2 ==> #[trigger] r.meta_block(i) == Seq::new(BLOCK_SIZE as nat, |k: int| 0u8),
            forall|id: u32| #[trigger] r.segment_view(id) is None,
    {
        let mut meta: Vec<Vec<u8>> = Vec::new();
        meta.push(vec![0u8; BLOCK_SIZE]);
        meta.push(vec![0u8; BLOCK_SIZE]);
        let r = DatabaseFile { meta, segments: Vec::new() };
        assert forall|i: int| 0 <= i < 2 implies #[trigger] r.meta_block(i) == Seq::new(BLOCK_SIZE as nat, |k: int| 0u8) by {
            assert(r.meta_block(i) =~= Seq::new(BLOCK_SIZE as nat, |k: int| 0u8));
        }
        r
    }

    /// Block 0 of metadata segment `segment_id` (0 or 1).
    pub fn read_meta_block(&self, segment_id: u32) -> (r: &Vec<u8>)
        requires
            self.wf(),
            segment_id < 2,
        ensures
            r@ == self.meta_block(segment_id as int),
    {
        &self.meta[segment_id as usize]
    }

    /// Replaces block 0 of metadata segment `segment_id` (0 or 1).
    pub fn write_meta_block(&mut self, segment_id: u32, block: Vec<u8>)
        requires
            old(self).wf(),
            segment_id < 2,
            block@.len() == BLOCK_SIZE,
        ensures
            final(self).wf(),
            final(self).meta_block(segment_id as int) == block@,
            final(self).meta_block(1 - segment_id) == old(self).meta_block(1 - segment_id),
            forall|id: u32| #[trigger] final(self).segment_view(id) == old(self).segment_view(id),
    {
        self.meta.set(segment_id as usize, block);
    }

    /// Makes segment `segment_id` an empty table segment, creating it and
    /// any missing segment below it.
    pub fn initialize_segment(&mut self, segment_id: u32) -> (r: Result<(), StorageError>)
        requires
            old(self).wf(),
        ensures
            final(self).wf(),
            r is Err <==> segment_id < 2,
            r is Err ==> *final(self) == *old(self),
            r is Ok ==> {
                &&& final(self).segment_view(segment_id) == Some(Seq::<Seq<Seq<u8>>>::empty())
                &&& forall|id: u32| id != segment_id && old(self).segment_view(id) is Some ==> #[trigger] final(self).segment_view(id) == old(self).segment_view(id)
                &&& forall|i: int| 0 <= i < 2 ==> #[trigger] final(self).meta_block(i) == old(self).meta_block(i)
            },
    {
        if segment_id < 2 {
            return Err(StorageError::NoSuchSegment);
        }
        let idx = (segment_id - 2) as usize;
        let ghost segs0 = self.segments@;
        while self.segments.len() <= idx
            invariant
                self.meta == old(self).meta,
                segs0 == old(self).segments@,
                self.segments@.len() >= segs0.len(),
                forall|i: int| 0 <= i < segs0.len() ==> #[trigger] self.segments@[i] == segs0[i],
                forall|i: int| 0 <= i < self.segments@.len() ==> (#[trigger] self.segments@[i]).wf(),
            decreases idx + 1 - self.segments@.len(),
        {
            self.segments.push(Segment::new());
        }
        self.segments.set(idx, Segment::new());
        Ok(())
    }

    /// The table segment `segment_id`, if it was initialized.
    pub fn segment(&self, segment_id: u32) -> (r: Option<&Segment>)
        requires
            self.wf(),
        ensures
            r is Some <==> self.segment_view(segment_id) is Some,
            r matches Some(s) ==> s.wf() && Some(s.view()) == self.segment_view(segment_id),
    {
        if segment_id >= 2 && ((segment_id - 2) as usize) < self.segments.len() {
            Some(&self.segments[(segment_id - 2) as usize])
        } else {
            None
        }
    }

    /// Appends a tuple to segment `segment_id` and returns where it went.
    pub fn append_tuple(&mut self, segment_id: u32, bytes: &[u8]) -> (r: Result<TuplePointer, StorageError>)
        requires
            old(self).wf(),
        ensures
            final(self).wf(),
            old(self).segment_view(segment_id) is None ==> r == Err::<TuplePointer, StorageError>(StorageError::NoSuchSegment),
            r is Err ==> final(self).segment_view(segment_id) == old(self).segment_view(segment_id),
            forall|i: int| 0 <= i < 2 ==> #[trigger] final(self).meta_block(i) == old(self).meta_block(i),
            forall|id: u32| id != segment_id ==> #[trigger] final(self).segment_view(id) == old(self).segment_view(id),
            old(self).segment_view(segment_id) matches Some(bs) ==> {
                let n = bytes@.len();
                let fits_last = bs.len() > 0 && has_room(bs.last(), n);
                &&& !has_room(Seq::empty(), n) ==> r == Err::<TuplePointer, StorageError>(StorageError::TupleTooLarge)
                &&& has_room(Seq::empty(), n) && !fits_last && bs.len() >= crate::base::BLOCKS_PER_UNCOMPRESSED_SEGMENT
                    ==> r == Err::<TuplePointer, StorageError>(StorageError::SegmentFull)
                &&& r is Ok <==> has_room(Seq::empty(), n) && (fits_last || bs.len() < crate::base::BLOCKS_PER_UNCOMPRESSED_SEGMENT)
                &&& r matches Ok(p) ==> {
                    &&& p.segment_id == segment_id
                    &&& final(self).segment_view(segment_id) matches Some(bs2) && bs2.flatten() == bs.flatten().push(bytes@)
                        && bs2[p.block_id as int][p.slot_id as int] == bytes@
                }
            },
    {
        if segment_id < 2 || ((segment_id - 2) as usize) >= self.segments.len() {
            return Err(StorageError::NoSuchSegment);
        }
        let idx = (segment_id - 2) as usize;
        assert(self.segments@[idx as int].wf());
        let mut seg = self.segments.remove(idx);
        match seg.append_tuple(bytes) {
            Ok((block_id, slot_id)) => {
                self.segments.insert(idx, seg);
                assert forall|i: int| 0 <= i < self.segments@.len() implies (#[trigger] self.segments@[i]).wf() by {
                    if i != idx {
                        assert(self.segments@[i] == old(self).segments@[i]);
                    }
                }
                assert forall|id: u32| id != segment_id implies #[trigger] self.segment_view(id) == old(self).segment_view(id) by {
                    if 2 <= id && seg_index(id) < self.segments@.len() {
                        assert(self.segments@[seg_index(id)] == old(self).segments@[seg_index(id)]);
                    }
                }
                Ok(TuplePointer { segment_id, block_id, slot_id })
            },
            Err(e) => {
                self.segments.insert(idx, seg);
                assert(self.segments@ =~= old(self).segments@);
                assert forall|id: u32| #[trigger] self.segment_view(id) == old(self).segment_view(id) by {
                    if 2 <= id && seg_index(id) < self.segments@.len() {
                        assert(self.segments@[seg_index(id)] == old(self).segments@[seg_index(id)]);
                    }
                }
                Err(e)
            },
        }
    }
}

/// Byte offset in the file of block `block_id` of segment `segment_id`.
pub open spec fn block_offset_of(segment_id: u32, block_id: u8) -> int {
    (segment_id * BLOCKS_PER_UNCOMPRESSED_SEGMENT + block_id) * BLOCK_SIZE
}

pub fn block_offset(segment_id: u32, block_id: u8) -> (r: u64)
    requires
        block_id < BLOCKS_PER_UNCOMPRESSED_SEGMENT,
    ensures
        r == block_offset_of(segment_id, block_id),
{
    let s = segment_id as u64;
    let b = block_id as u64;
    assert(s * 32 + b <= 0x1_0000_0000 * 32) by (nonlinear_arith)
        requires
            s < 0x1_0000_0000,
            b < 32,
    ;
    assert((s * 32 + b) * 4096 <= 0x1_0000_0000 * 32 * 4096) by (nonlinear_arith)
        requires
            s * 32 + b <= 0x1_0000_0000 * 32,
    ;
    (s * 32 + b) * 4096
}

impl DatabaseFile {
    /// A bound on the ids of the segments present in the file.
    pub fn segment_limit(&self) -> (r: u64)
        requires
            self.wf(),
        ensures
            forall|id: u32| #[trigger] self.segment_view(id) is Some ==> id < r,
    {
        let n = self.segments.len() as u64;
        if n > u64::MAX - 2 {
            u64::MAX
        } else {
            n + 2
        }
    }

    /// The bytes stored at block `block_id` of segment `segment_id`: the
    /// catalog copy for block 0 of a metadata segment, the stored form of a
    /// used block of a table segment, `None` for anything else.
    pub fn block_bytes(&self, segment_id: u32, block_id: u8) -> (r: Option<Vec<u8>>)
        requires
            self.wf(),
        ensures
            segment_id < 2 && block_id == 0 ==> (r matches Some(v) && v@ == self.meta_block(segment_id as int)),
            segment_id < 2 && block_id != 0 ==> r is None,
            self.segment_view(segment_id) matches Some(bs) ==> (block_id < bs.len() ==> (r matches Some(v)
                && v@ == block_image(bs[block_id as int]))) && (block_id >= bs.len() ==> r is None),
            segment_id >= 2 && self.segment_view(segment_id) is None ==> r is None,
    {
        if segment_id < 2 {
            if block_id == 0 {
                return Some(self.meta[segment_id as usize].clone());
            }
            return None;
        }
        match self.segment(segment_id) {
            Some(seg) => match seg.block(block_id) {
                Some(b) => Some(b.to_bytes()),
                None => None,
            },
            None => None,
        }
    }

    /// Puts a stored block back as the next used block of table segment
    /// `segment_id`, creating the segment when it is missing. Returns
    /// `false`, changing nothing, when the bytes do not hold a block or the
    /// segment has no free block.
    pub fn restore_block(&mut self, segment_id: u32, bytes: &[u8]) -> (r: bool)
        requires
            old(self).wf(),
        ensures
            final(self).wf(),
            forall|i: int| 0 <= i < 2 ==> #[trigger] final(self).meta_block(i) == old(self).meta_block(i),
            forall|id: u32| id != segment_id ==> #[trigger] final(self).segment_view(id) == old(self).segment_view(id) || (old(self).segment_view(id) is None),
            r <==> segment_id >= 2 && (parse_block(bytes@) matches Some(ts) && BLOCK_HEADER_SIZE + slots_size(ts) <= BLOCK_SIZE)
                && (match old(self).segment_view(segment_id) {
                    Some(bs) => bs.len() < BLOCKS_PER_UNCOMPRESSED_SEGMENT,
                    None => true,
                }),
            !r ==> forall|id: u32| #[trigger] final(self).segment_view(id) == old(self).segment_view(id),
            r ==> segment_id >= 2 && (parse_block(bytes@) matches Some(ts) && (final(self).segment_view(segment_id) matches Some(bs2)
                && bs2.last() == ts && bs2.drop_last() == (match old(self).segment_view(segment_id) {
                    Some(bs) => bs,
                    None => Seq::<Seq<Seq<u8>>>::empty(),
                }))),
    {
        if segment_id < 2 {
            return false;
        }
        let block = match Block::from_bytes(bytes) {
            Some(b) => b,
            None => return false,
        };
        if self.segment(segment_id).is_none() {
            let _ = self.initialize_segment(segment_id);
        }
        let ghost f1 = *self;
        let idx = (segment_id - 2) as usize;
        assert(self.segments@[idx as int].wf());
        let mut seg = self.segments.remove(idx);
        let ghost bs = seg.view();
        let pushed = seg.push_block(block);
        self.segments.insert(idx, seg);
        proof {
            assert forall|i: int| 0 <= i < self.segments@.len() implies (#[trigger] self.segments@[i]).wf() by {
                if i != idx {
                    assert(self.segments@[i] == f1.segments@[i]);
                }
            }
            assert forall|id: u32| id != segment_id implies #[trigger] self.segment_view(id) == f1.segment_view(id) by {
                if 2 <= id && seg_index(id) < self.segments@.len() {
                    assert(self.segments@[seg_index(id)] == f1.segments@[seg_index(id)]);
                }
            }
            if pushed {
                assert(bs.push(block@).drop_last() =~= bs);
            }
            assert(self.meta == f1.meta);
            assert forall|i: int| 0 <= i < 2 implies #[trigger] self.meta_block(i) == old(self).meta_block(i) by {
                assert(f1.meta_block(i) == old(self).meta_block(i));
            }
        }
        pushed
    }
}

} // verus!
