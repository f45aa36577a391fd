use crate::base::{BLOCKS_PER_UNCOMPRESSED_SEGMENT, BLOCK_SIZE};
use crate::codec::lemma_le_round_trips;
use crate::encoding::{
    enc_all, get_u32, holds_at, lemma_enc_all_len, lemma_enc_all_push, lemma_holds_split, lemma_parse_all,
    lemma_parse_u32, parse_all, parse_u32, put_u32,
};
use vstd::bytes::*;
use vstd::slice::slice_subrange;
use vstd::prelude::*;
use vstd::slice::slice_to_vec;

verus! {

broadcast use Seq::lemma_flatten_push;

/// Bytes a block spends on its slot count.
pub const BLOCK_HEADER_SIZE: usize = 4;

/// Bytes a block spends on each slot besides the tuple itself.
pub const SLOT_OVERHEAD: usize = 4;

/// Bytes taken in a block by the slots of `ts`.
pub open spec fn slots_size(ts: Seq<Seq<u8>>) -> nat
    decreases ts.len(),
{
    if ts.len() == 0 {
        0
    } else {
        (slots_size(ts.drop_last()) + SLOT_OVERHEAD + ts.last().len()) as nat
    }
}

proof fn lemma_slots_size_bound(ts: Seq<Seq<u8>>)
    ensures
        slots_size(ts) >= SLOT_OVERHEAD * ts.len(),
    decreases ts.len(),
{
    if ts.len() > 0 {
        lemma_slots_size_bound(ts.drop_last());
    }
}

/// Whether a tuple of `n` bytes still fits in a block holding `ts`.
pub open spec fn has_room(ts: Seq<Seq<u8>>, n: nat) -> bool {
    BLOCK_HEADER_SIZE + slots_size(ts) + SLOT_OVERHEAD + n <= BLOCK_SIZE
}

/// A block: tuples in slots, appended and never moved, so a slot id stays
/// valid for the block's lifetime.
#[derive(Debug)]
pub struct Block {
    tuples: Vec<Vec<u8>>,
    used: usize,
}

impl View for Block {
    type V = Seq<Seq<u8>>;

    closed spec fn view(&self) -> Seq<Seq<u8>> {
        self.tuples@.map_values(|t: Vec<u8>| t@)
    }
}

/// Header of a block: its number of occupied slots.
#[derive(Debug, Clone, Copy)]
pub struct BlockHeader {
    pub slot_count: u16,
}

impl Block {
    pub closed spec fn wf(&self) -> bool {
        &&& self.used == BLOCK_HEADER_SIZE + slots_size(self@)
        &&& self.used <= BLOCK_SIZE
    }

    pub fn new() -> (r: Block)
        ensures
            r.wf(),
            r@ == Seq::<Seq<u8>>::empty(),
    {
        let r = Block { tuples: Vec::new(), used: BLOCK_HEADER_SIZE };
        assert(r@ =~= Seq::<Seq<u8>>::empty());
        r
    }

    pub fn header(&self) -> (r: BlockHeader)
        requires
            self.wf(),
        ensures
            r.slot_count == self@.len(),
    {
        proof {
            lemma_slots_size_bound(self@);
        }
        BlockHeader { slot_count: self.tuples.len() as u16 }
    }

    /// Whether a tuple of `n` bytes fits.
    pub fn fits(&self, n: usize) -> (r: bool)
        requires
            self.wf(),
        ensures
            r == has_room(self@, n as nat),
    {
        n <= BLOCK_SIZE && self.used + SLOT_OVERHEAD + n <= BLOCK_SIZE
    }

    /// Appends a tuple and returns its slot id; `None` when it does not fit.
    pub fn append_tuple(&mut self, bytes: &[u8]) -> (r: Option<u16>)
        requires
            old(self).wf(),
        ensures
            final(self).wf(),
            r is Some <==> has_room(old(self)@, bytes@.len()),
            r matches Some(slot) ==> slot == old(self)@.len() && final(self)@ == old(self)@.push(bytes@),
            r is None ==> final(self)@ == old(self)@,
    {
        if !self.fits(bytes.len()) {
            return None;
        }
        proof {
            lemma_slots_size_bound(self@);
        }
        let slot = self.tuples.len() as u16;
        let ghost v0 = self@;
        self.tuples.push(slice_to_vec(bytes));
        self.used = self.used + SLOT_OVERHEAD + bytes.len();
        proof {
            assert(self@ =~= v0.push(bytes@));
            assert(self@.drop_last() =~= v0);
        }
        Some(slot)
    }

    /// The tuple in `slot_id`, if that slot is occupied.
    pub fn read_tuple(&self, slot_id: u16) -> (r: Option<&Vec<u8>>)
        ensures
            r is Some <==> slot_id < self@.len(),
            r matches Some(t) ==> t@ == self@[slot_id as int],
    {
        if (slot_id as usize) < self.tuples.len() {
            Some(&self.tuples[slot_id as usize])
        } else {
            None
        }
    }
}

/// One stored tuple: its length as a `u32`, then its bytes.
pub open spec fn enc_tuple(t: Seq<u8>) -> Seq<u8> {
    spec_u32_to_le_bytes(t.len() as u32) + t
}

pub open spec fn parse_tuple(b: Seq<u8>, pos: int) -> Option<(Seq<u8>, int)> {
    match parse_u32(b, pos) {
        Some((n, p)) => if p + n <= b.len() {
            Some((b.subrange(p, p + n), p + n))
        } else {
            None
        },
        None => None,
    }
}

/// The bytes of a block holding `ts`: the slot count as a `u32`, each
/// tuple in slot order, then zeros up to `BLOCK_SIZE`.
pub open spec fn block_image(ts: Seq<Seq<u8>>) -> Seq<u8> {
    let body = spec_u32_to_le_bytes(ts.len() as u32) + enc_all(ts, |t: Seq<u8>| enc_tuple(t));
    body + Seq::new((BLOCK_SIZE - body.len()) as nat, |i: int| 0u8)
}

/// The tuples that the block bytes `b` hold.
pub open spec fn parse_block(b: Seq<u8>) -> Option<Seq<Seq<u8>>> {
    match parse_u32(b, 0) {
        Some((n, p)) => match parse_all(b, p, n as nat, |b: Seq<u8>, p: int| parse_tuple(b, p)) {
            Some((ts, _)) => Some(ts),
            None => None,
        },
        None => None,
    }
}

proof fn lemma_slots_size_concat(a: Seq<Seq<u8>>, b: Seq<Seq<u8>>)
    ensures
        slots_size(a + b) == slots_size(a) + slots_size(b),
    decreases b.len(),
{
    if b.len() == 0 {
        assert(a + b =~= a);
    } else {
        assert((a + b).drop_last() =~= a + b.drop_last());
        lemma_slots_size_concat(a, b.drop_last());
    }
}

proof fn lemma_slots_size_is_encoding(ts: Seq<Seq<u8>>)
    ensures
        enc_all(ts, |t: Seq<u8>| enc_tuple(t)).len() == slots_size(ts),
    decreases ts.len(),
{
    lemma_le_round_trips();
    if ts.len() > 0 {
        lemma_slots_size_is_encoding(ts.drop_last());
        assert(ts.drop_last().push(ts.last()) =~= ts);
        lemma_enc_all_push(ts.drop_last(), ts.last(), |t: Seq<u8>| enc_tuple(t));
    }
}

/// Writing a block and reading it back gives the same tuples in the same
/// slots.
pub proof fn lemma_block_round_trip(ts: Seq<Seq<u8>>)
    requires
        BLOCK_HEADER_SIZE + slots_size(ts) <= BLOCK_SIZE,
    ensures
        parse_block(block_image(ts)) == Some(ts),
{
    lemma_le_round_trips();
    lemma_slots_size_is_encoding(ts);
    lemma_slots_size_bound(ts);
    let e = |t: Seq<u8>| enc_tuple(t);
    let f = |b: Seq<u8>, p: int| parse_tuple(b, p);
    let b = block_image(ts);
    let c = spec_u32_to_le_bytes(ts.len() as u32);
    let body = enc_all(ts, e);
    let pad = b.subrange((4 + body.len()) as int, b.len() as int);
    assert(b =~= c + body + pad);
    assert(b.subrange(0, b.len() as int) =~= b);
    lemma_holds_split(b, 0, c + body, pad);
    lemma_holds_split(b, 0, c, body);
    lemma_parse_u32(b, 0, ts.len() as u32);
    assert forall|i: int, p: int|
        #![trigger holds_at(b, p, e(ts[i]))]
        0 <= i < ts.len() && holds_at(b, p, e(ts[i])) implies f(b, p) == Some((ts[i], p + e(ts[i]).len())) by {
        let t = ts[i];
        assert(ts.len() > 0);
        lemma_enc_all_len(ts, e);
        lemma_holds_split(b, p, spec_u32_to_le_bytes(t.len() as u32), t);
        lemma_parse_u32(b, p, t.len() as u32);
        assert(t.len() <= BLOCK_SIZE) by {
            assert(holds_at(b, p + 4, t));
        }
    }
    lemma_parse_all(b, 4, ts, e, f);
}

impl Block {
    /// The block as it is stored.
    pub fn to_bytes(&self) -> (r: Vec<u8>)
        requires
            self.wf(),
        ensures
            r@ == block_image(self@),
            r@.len() == BLOCK_SIZE,
    {
        let ghost ts = self@;
        let ghost e = |t: Seq<u8>| enc_tuple(t);
        proof {
            lemma_slots_size_bound(ts);
            lemma_slots_size_is_encoding(ts);
            lemma_le_round_trips();
        }
        let mut out: Vec<u8> = Vec::new();
        put_u32(&mut out, self.tuples.len() as u32);
        let ghost o1 = out@;
        let mut i: usize = 0;
        while i < self.tuples.len()
            invariant
                ts == self@,
                i <= self.tuples@.len(),
                out@ == o1 + enc_all(ts.subrange(0, i as int), |t: Seq<u8>| enc_tuple(t)),
            decreases self.tuples@.len() - i,
        {
            let t = &self.tuples[i];
            assert(t@ == ts[i as int]);
            proof {
                lemma_slots_size_bound(ts);
            }
            put_u32(&mut out, #[verifier::truncate] (t.len() as u32));
            out.extend_from_slice(t.as_slice());
            proof {
                assert(ts.subrange(0, i + 1) =~= ts.subrange(0, i as int).push(ts[i as int]));
                lemma_enc_all_push(ts.subrange(0, i as int), ts[i as int], |t: Seq<u8>| enc_tuple(t));
                assert(out@ =~= o1 + enc_all(ts.subrange(0, i as int), |t: Seq<u8>| enc_tuple(t)) + enc_tuple(ts[i as int]));
            }
            i = i + 1;
        }
        assert(ts.subrange(0, ts.len() as int) =~= ts);
        let pad_len = BLOCK_SIZE - out.len();
        let mut pad: Vec<u8> = vec![0u8; pad_len];
        out.append(&mut pad);
        assert(out@ =~= block_image(ts));
        out
    }

    /// Reads a stored block; `None` when the bytes do not hold a block.
    pub fn from_bytes(b: &[u8]) -> (r: Option<Block>)
        ensures
            r is Some <==> (parse_block(b@) matches Some(ts) && BLOCK_HEADER_SIZE + slots_size(ts) <= BLOCK_SIZE),
            r matches Some(blk) ==> blk.wf() && parse_block(b@) == Some(blk@),
    {
        let (n, p0) = match get_u32(b, 0) {
            Some(x) => x,
            None => return None,
        };
        let mut tuples: Vec<Vec<u8>> = Vec::new();
        let mut used: usize = BLOCK_HEADER_SIZE;
        let mut p = p0;
        let mut i: u32 = 0;
        while i < n
            invariant
                i <= n,
                parse_u32(b@, 0) == Some((n, p0 as int)),
                used == BLOCK_HEADER_SIZE + slots_size(tuples@.map_values(|t: Vec<u8>| t@)),
                used <= BLOCK_SIZE,
                parse_all(b@, p0 as int, n as nat, |b: Seq<u8>, p: int| parse_tuple(b, p)) == (match parse_all(
                    b@,
                    p as int,
                    (n - i) as nat,
                    |b: Seq<u8>, p: int| parse_tuple(b, p),
                ) {
                    Some((rest, q)) => Some((tuples@.map_values(|t: Vec<u8>| t@) + rest, q)),
                    None => None,
                }),
            decreases n - i,
        {
            let ghost tv = tuples@.map_values(|t: Vec<u8>| t@);
            let (len, q1) = match get_u32(b, p) {
                Some(x) => x,
                None => {
                    assert(parse_all(b@, p as int, (n - i) as nat, |b: Seq<u8>, p: int| parse_tuple(b, p)) is None);
                    return None;
                },
            };
            if b.len() - q1 < len as usize {
                assert(parse_all(b@, p as int, (n - i) as nat, |b: Seq<u8>, p: int| parse_tuple(b, p)) is None);
                return None;
            }
            let end = q1 + len as usize;
            let t = slice_to_vec(slice_subrange(b, q1, end));
            proof {
                match parse_all(b@, end as int, (n - i - 1) as nat, |b: Seq<u8>, p: int| parse_tuple(b, p)) {
                    Some((rest, q)) => {
                        assert(tv.push(t@) + rest =~= tv + (seq![t@] + rest));
                    },
                    None => {},
                }
                assert(tuples@.push(t).map_values(|t: Vec<u8>| t@) =~= tv.push(t@));
                assert(tv.push(t@).drop_last() =~= tv);
            }
            if BLOCK_SIZE - used < SLOT_OVERHEAD + t.len() {
                proof {
                    match parse_all(b@, end as int, (n - i - 1) as nat, |b: Seq<u8>, p: int| parse_tuple(b, p)) {
                        Some((rest, q)) => {
                            lemma_slots_size_concat(tv.push(t@), rest);
                        },
                        None => {},
                    }
                }
                return None;
            }
            used = used + SLOT_OVERHEAD + t.len();
            tuples.push(t);
            p = end;
            i = i + 1;
        }
        let ghost tv = tuples@.map_values(|t: Vec<u8>| t@);
        assert(tv + Seq::<Seq<u8>>::empty() =~= tv);
        Some(Block { tuples, used })
    }
}

/// A segment: up to `BLOCKS_PER_UNCOMPRESSED_SEGMENT` blocks, used in order.
/// The blocks past the used ones are free.
#[derive(Debug)]
pub struct Segment {
    blocks: Vec<Block>,
}

/// Occupancy of a segment's blocks.
#[derive(Debug, Clone, Copy)]
pub struct SegmentHeader {
    pub used_blocks: u8,
}

impl SegmentHeader {
    pub fn is_block_free(&self, block_id: u8) -> (r: bool)
        ensures
            r == (block_id >= self.used_blocks),
    {
        block_id >= self.used_blocks
    }
}

pub open spec fn blocks_view(bs: Seq<Block>) -> Seq<Seq<Seq<u8>>> {
    bs.map_values(|b: Block| b@)
}

impl Segment {
    /// The tuples of each used block.
    pub closed spec fn view(&self) -> Seq<Seq<Seq<u8>>> {
        blocks_view(self.blocks@)
    }

    pub closed spec fn wf(&self) -> bool {
        &&& self.blocks@.len() <= BLOCKS_PER_UNCOMPRESSED_SEGMENT
        &&& forall|i: int| 0 <= i < self.blocks@.len() ==> #[trigger] self.blocks@[i].wf()
    }

    pub fn new() -> (r: Segment)
        ensures
            r.wf(),
            r.view() == Seq::<Seq<Seq<u8>>>::empty(),
    {
        let r = Segment { blocks: Vec::new() };
        assert(r.view() =~= Seq::<Seq<Seq<u8>>>::empty());
        r
    }

    pub fn header(&self) -> (r: SegmentHeader)
        requires
            self.wf(),
        ensures
            r.used_blocks == self.view().len(),
    {
        SegmentHeader { used_blocks: self.blocks.len() as u8 }
    }

    pub fn block(&self, block_id: u8) -> (r: Option<&Block>)
        requires
            self.wf(),
        ensures
            r is Some <==> block_id < self.view().len(),
            r matches Some(b) ==> b.wf() && b@ == self.view()[block_id as int],
    {
        if (block_id as usize) < self.blocks.len() {
            Some(&self.blocks[block_id as usize])
        } else {
            None
        }
    }

    /// Appends a tuple to the last used block, or to the first free block
    /// when it does not fit there; the error tells a full segment from a
    /// tuple larger than any block.
    pub fn append_tuple(&mut self, bytes: &[u8]) -> (r: Result<(u8, u16), StorageError>)
        requires
            old(self).wf(),
        ensures
            final(self).wf(),
            ({
                let bs = old(self).view();
                let n = bytes@.len();
                let fits_last = bs.len() > 0 && has_room(bs.last(), n);
                &&& !has_room(Seq::empty(), n) ==> r == Err::<(u8, u16), StorageError>(StorageError::TupleTooLarge)
                &&& has_room(Seq::empty(), n) && !fits_last && bs.len() >= BLOCKS_PER_UNCOMPRESSED_SEGMENT
                    ==> r == Err::<(u8, u16), StorageError>(StorageError::SegmentFull)
                &&& r is Err ==> *final(self) == *old(self)
                &&& r is Ok <==> has_room(Seq::empty(), n) && (fits_last || bs.len() < BLOCKS_PER_UNCOMPRESSED_SEGMENT)
                &&& r matches Ok((b, s)) ==> {
                    &&& fits_last ==> b == bs.len() - 1 && final(self).view() == bs.update(b as int, bs.last().push(bytes@))
                    &&& !fits_last ==> b == bs.len() && final(self).view() == bs.push(seq![bytes@])
                    &&& s == final(self).view()[b as int].len() - 1
                    &&& final(self).view().flatten() == bs.flatten().push(bytes@)
                }
            }),
    {
        let ghost bs = self.view();
        let empty = Block::new();
        if !empty.fits(bytes.len()) {
            return Err(StorageError::TupleTooLarge);
        }
        let count = self.blocks.len();
        if count > 0 && self.blocks[count - 1].fits(bytes.len()) {
            assert(self.blocks@[count - 1].wf());
            let mut last = self.blocks.pop().unwrap();
            let slot = match last.append_tuple(bytes) {
                Some(s) => s,
                None => 0,
            };
            self.blocks.push(last);
            proof {
                assert(self.view() =~= bs.update(count - 1, bs.last().push(bytes@)));
                assert(bs =~= bs.drop_last().push(bs.last()));
                assert(self.view() =~= bs.drop_last().push(bs.last().push(bytes@)));
                assert(bs.flatten() == bs.drop_last().flatten() + bs.last());
                assert(self.view().flatten() =~= bs.flatten().push(bytes@));
                assert forall|i: int| 0 <= i < self.blocks@.len() implies #[trigger] self.blocks@[i].wf() by {
                    if i < count - 1 {
                        assert(self.blocks@[i] == old(self).blocks@[i]);
                    }
                }
            }
            return Ok(((count - 1) as u8, slot));
        }
        if count >= BLOCKS_PER_UNCOMPRESSED_SEGMENT {
            return Err(StorageError::SegmentFull);
        }
        let mut block = Block::new();
        let slot = match block.append_tuple(bytes) {
            Some(s) => s,
            None => 0,
        };
        self.blocks.push(block);
        proof {
            assert(self.view() =~= bs.push(seq![bytes@]));
            assert(seq![bytes@] =~= Seq::<Seq<u8>>::empty().push(bytes@));
            assert(self.view().flatten() =~= bs.flatten() + seq![bytes@]);
            assert forall|i: int| 0 <= i < self.blocks@.len() implies #[trigger] self.blocks@[i].wf() by {
                if i < count {
                    assert(self.blocks@[i] == old(self).blocks@[i]);
                }
            }
        }
        Ok((count as u8, slot))
    }
}

impl Segment {
    /// Adds `block` as the next used block; `false` when every block of the
    /// segment is used already.
    pub fn push_block(&mut self, block: Block) -> (r: bool)
        requires
            old(self).wf(),
            block.wf(),
        ensures
            final(self).wf(),
            r <==> old(self).view().len() < BLOCKS_PER_UNCOMPRESSED_SEGMENT,
            r ==> final(self).view() == old(self).view().push(block@),
            !r ==> final(self).view() == old(self).view(),
    {
        if self.blocks.len() >= BLOCKS_PER_UNCOMPRESSED_SEGMENT {
            return false;
        }
        let ghost bs = self.view();
        self.blocks.push(block);
        proof {
            assert(self.view() =~= bs.push(block@));
            assert forall|i: int| 0 <= i < self.blocks@.len() implies #[trigger] self.blocks@[i].wf() by {
                if i < self.blocks@.len() - 1 {
                    assert(self.blocks@[i] == old(self).blocks@[i]);
                }
            }
        }
        true
    }
}

/// Why a storage operation failed.
#[derive(Debug, Clone, Copy, PartialEq, Eq, Structural)]
pub enum StorageError {
    /// No block of the segment has room for the tuple.
    SegmentFull,
    /// The tuple is larger than an empty block can hold.
    TupleTooLarge,
    /// The segment id names no segment of the file.
    NoSuchSegment,
}

} // verus!
