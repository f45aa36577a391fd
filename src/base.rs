use vstd::prelude::*;

verus! {

/// Identifier of a segment of the database file.
pub type SegmentId = u32;

/// Size of a block, the fixed unit of storage inside a segment.
pub const BLOCK_SIZE: usize = 4096;

/// Number of blocks that one segment holds.
pub const BLOCKS_PER_UNCOMPRESSED_SEGMENT: usize = 32;

/// Physical locator of one stored row: segment, block within the segment,
/// slot within the block.
#[derive(Debug, Clone, Copy, PartialEq, Eq, Structural)]
pub struct TuplePointer {
    pub segment_id: u32,
    pub block_id: u8,
    pub slot_id: u16,
}

impl TuplePointer {
    pub fn new(segment_id: u32, block_id: u8, slot_id: u16) -> (r: TuplePointer)
        ensures
            r == (TuplePointer { segment_id, block_id, slot_id }),
    {
        TuplePointer { segment_id, block_id, slot_id }
    }
}

} // verus!
