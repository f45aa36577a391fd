use vstd::prelude::*;

verus! {

/// Alignment unit of Direct I/O: file offsets, buffer lengths and buffer
/// addresses must all be multiples of it.
pub const ALIGNMENT: usize = 4096;

/// Which of the three Direct I/O alignment conditions a transfer broke.
#[derive(Debug, Clone, Copy, PartialEq, Eq, Structural)]
pub enum AlignmentError {
    Offset,
    Length,
    Pointer,
}

pub open spec fn aligned(x: int) -> bool {
    x % (ALIGNMENT as int) == 0
}

/// Checks a positional transfer of `len` bytes at file offset `offset` from
/// or to a buffer at address `addr`. The conditions are tested in the order
/// offset, length, address; the first that fails is reported.
pub fn check_alignment(offset: u64, len: usize, addr: usize) -> (r: Result<(), AlignmentError>)
    ensures
        r is Ok <==> aligned(offset as int) && aligned(len as int) && aligned(addr as int),
        r == Err::<(), AlignmentError>(AlignmentError::Offset) <==> !aligned(offset as int),
        r == Err::<(), AlignmentError>(AlignmentError::Length) <==> aligned(offset as int)
            && !aligned(len as int),
        r == Err::<(), AlignmentError>(AlignmentError::Pointer) <==> aligned(offset as int)
            && aligned(len as int) && !aligned(addr as int),
{
    if offset % (ALIGNMENT as u64) != 0 {
        return Err(AlignmentError::Offset);
    }
    if len % ALIGNMENT != 0 {
        return Err(AlignmentError::Length);
    }
    if addr % ALIGNMENT != 0 {
        return Err(AlignmentError::Pointer);
    }
    Ok(())
}

/// The size of a Direct I/O buffer that holds `size` bytes: `size` rounded
/// up to the next multiple of the alignment unit.
pub fn aligned_size(size: usize) -> (r: usize)
    requires
        size + ALIGNMENT - 1 <= usize::MAX,
    ensures
        aligned(r as int),
        size <= r < size + ALIGNMENT,
{
    let r = (size + (ALIGNMENT - 1)) / ALIGNMENT * ALIGNMENT;
    assert(r == (size + 4095) / 4096 * 4096);
    assert((size + 4095) / 4096 * 4096 <= size + 4095 && (size + 4095) / 4096 * 4096 + 4096 > size + 4095
        && ((size + 4095) / 4096 * 4096) % 4096 == 0) by (nonlinear_arith);
    r
}

} // verus!
