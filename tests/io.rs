use flintdb::{aligned_size, check_alignment, AlignmentError, ALIGNMENT};

#[test]
fn aligned_transfer_is_accepted() {
    assert_eq!(ALIGNMENT, 4096);
    assert_eq!(check_alignment(0, 4096, 0), Ok(()));
    assert_eq!(check_alignment(8192, 12288, 4096 * 3), Ok(()));
}

#[test]
fn each_misalignment_is_named() {
    assert_eq!(check_alignment(1, 4096, 4096), Err(AlignmentError::Offset));
    assert_eq!(check_alignment(4096, 100, 4096), Err(AlignmentError::Length));
    assert_eq!(check_alignment(4096, 4096, 4097), Err(AlignmentError::Pointer));
    assert_eq!(check_alignment(3, 5, 7), Err(AlignmentError::Offset));
}

#[test]
fn buffer_size_rounds_up() {
    assert_eq!(aligned_size(0), 0);
    assert_eq!(aligned_size(1), 4096);
    assert_eq!(aligned_size(4096), 4096);
    assert_eq!(aligned_size(4097), 8192);
}
