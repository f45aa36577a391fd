use vstd::bytes::*;
use vstd::prelude::*;
use vstd::slice::slice_subrange;

verus! {

/// The little-endian `u16` stored at `off` in `d`.
pub open spec fn u16_at(d: Seq<u8>, off: int) -> u16 {
    spec_u16_from_le_bytes(d.subrange(off, off + 2))
}

/// The little-endian `u32` stored at `off` in `d`.
pub open spec fn u32_at(d: Seq<u8>, off: int) -> u32 {
    spec_u32_from_le_bytes(d.subrange(off, off + 4))
}

/// The little-endian `u64` stored at `off` in `d`.
pub open spec fn u64_at(d: Seq<u8>, off: int) -> u64 {
    spec_u64_from_le_bytes(d.subrange(off, off + 8))
}

/// `d` with the bytes from `pos` on replaced by `src`.
pub open spec fn spliced(d: Seq<u8>, pos: int, src: Seq<u8>) -> Seq<u8> {
    d.subrange(0, pos) + src + d.subrange(pos + src.len(), d.len() as int)
}

pub proof fn lemma_le_round_trips()
    ensures
        forall|x: u16| #[trigger] spec_u16_to_le_bytes(x).len() == 2 && spec_u16_from_le_bytes(spec_u16_to_le_bytes(x)) == x,
        forall|x: u32| #[trigger] spec_u32_to_le_bytes(x).len() == 4 && spec_u32_from_le_bytes(spec_u32_to_le_bytes(x)) == x,
        forall|x: u64| #[trigger] spec_u64_to_le_bytes(x).len() == 8 && spec_u64_from_le_bytes(spec_u64_to_le_bytes(x)) == x,
{
    lemma_auto_spec_u16_to_from_le_bytes();
    lemma_auto_spec_u32_to_from_le_bytes();
    lemma_auto_spec_u64_to_from_le_bytes();
}

/// Overwrites `data[pos .. pos + src.len()]` with `src`.
pub fn overwrite(data: &mut Vec<u8>, pos: usize, src: &[u8])
    requires
        pos + src@.len() <= old(data)@.len(),
    ensures
        final(data)@ == spliced(old(data)@, pos as int, src@),
{
    let ghost d0 = data@;
    let n = data.len();
    let mut i: usize = 0;
    while i < src.len()
        invariant
            pos + src@.len() <= d0.len(),
            d0.len() == n,
            i <= src@.len(),
            data@.len() == d0.len(),
            forall|j: int| 0 <= j < pos ==> data@[j] == d0[j],
            forall|j: int| pos + i <= j < d0.len() ==> data@[j] == d0[j],
            forall|j: int| pos <= j < pos + i ==> data@[j] == src@[j - pos],
        decreases src@.len() - i,
    {
        data.set(pos + i, src[i]);
        i = i + 1;
    }
    assert(data@ =~= spliced(d0, pos as int, src@));
}

pub fn read_u16(data: &[u8], pos: usize) -> (r: u16)
    requires
        pos + 2 <= data@.len(),
    ensures
        r == u16_at(data@, pos as int),
{
    let _n = data.len();
    u16_from_le_bytes(slice_subrange(data, pos, pos + 2))
}

pub fn read_u32(data: &[u8], pos: usize) -> (r: u32)
    requires
        pos + 4 <= data@.len(),
    ensures
        r == u32_at(data@, pos as int),
{
    let _n = data.len();
    u32_from_le_bytes(slice_subrange(data, pos, pos + 4))
}

pub fn read_u64(data: &[u8], pos: usize) -> (r: u64)
    requires
        pos + 8 <= data@.len(),
    ensures
        r == u64_at(data@, pos as int),
{
    let _n = data.len();
    u64_from_le_bytes(slice_subrange(data, pos, pos + 8))
}

} // verus!
