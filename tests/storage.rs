use flintdb::file::block_offset;
use flintdb::{
    Block, Column, DataType, Database, DatabaseFile, Row, Schema, Segment, StorageError, Value, BLOCK_SIZE,
};

#[test]
fn block_slots_are_stable_and_bounded() {
    let mut b = Block::new();
    assert_eq!(b.append_tuple(&[1, 2, 3]), Some(0));
    assert_eq!(b.append_tuple(&[4]), Some(1));
    assert_eq!(b.header().slot_count, 2);
    assert_eq!(b.read_tuple(0).unwrap(), &vec![1, 2, 3]);
    assert_eq!(b.read_tuple(1).unwrap(), &vec![4]);
    assert_eq!(b.read_tuple(2), None);
    let big = vec![7u8; 4096 - 4 - 8 - 7 - 4];
    assert_eq!(b.append_tuple(&big), Some(2));
    assert_eq!(b.append_tuple(&[]), None);
}

#[test]
fn block_bytes_round_trip() {
    let mut b = Block::new();
    b.append_tuple(b"hello").unwrap();
    b.append_tuple(b"").unwrap();
    b.append_tuple(&[9u8; 300]).unwrap();
    let bytes = b.to_bytes();
    assert_eq!(bytes.len(), BLOCK_SIZE);
    assert_eq!(&bytes[0..4], &[3, 0, 0, 0]);
    assert_eq!(&bytes[4..8], &[5, 0, 0, 0]);
    assert_eq!(&bytes[8..13], b"hello");
    let back = Block::from_bytes(&bytes).unwrap();
    assert_eq!(back.header().slot_count, 3);
    assert_eq!(back.read_tuple(0).unwrap(), &b"hello".to_vec());
    assert_eq!(back.read_tuple(2).unwrap(), &vec![9u8; 300]);
    let empty = Block::from_bytes(&vec![0u8; BLOCK_SIZE]).unwrap();
    assert_eq!(empty.header().slot_count, 0);
    let mut bad = bytes.clone();
    bad[4] = 0xff;
    bad[5] = 0xff;
    assert!(Block::from_bytes(&bad).is_none());
}

#[test]
fn segment_reports_full_and_too_large() {
    let mut s = Segment::new();
    assert_eq!(s.append_tuple(&vec![0u8; 5000]), Err(StorageError::TupleTooLarge));
    for i in 0..32u8 {
        assert_eq!(s.append_tuple(&vec![1u8; 3000]), Ok((i, 0)));
    }
    assert_eq!(s.append_tuple(&vec![1u8; 3000]), Err(StorageError::SegmentFull));
    assert_eq!(s.append_tuple(&vec![1u8; 100]), Ok((31, 1)));
    assert_eq!(s.header().used_blocks, 32);
    assert!(!s.header().is_block_free(31));
}

#[test]
fn block_offsets_follow_segments() {
    assert_eq!(block_offset(0, 0), 0);
    assert_eq!(block_offset(1, 0), 32 * 4096);
    assert_eq!(block_offset(2, 3), (2 * 32 + 3) * 4096);
}

#[test]
fn database_restores_from_stored_blocks() {
    let mut db = Database::new();
    let schema = Schema::new(vec![Column { name: "a".to_string(), data_type: DataType::Int }]);
    db.create_table("t".to_string(), schema).unwrap();
    for i in 0..5 {
        db.insert_row("t", Row::new(vec![Value::Int(i)])).unwrap();
    }
    let file = db.into_file();
    let mut copy = DatabaseFile::new();
    for seg in 0..2u32 {
        copy.write_meta_block(seg, file.block_bytes(seg, 0).unwrap());
    }
    let stored = file.block_bytes(2, 0).unwrap();
    assert!(file.block_bytes(2, 1).is_none());
    assert!(copy.restore_block(2, &stored));
    let reopened = Database::open(copy);
    let rows = reopened.scan_table("t").unwrap();
    assert_eq!(rows.len(), 5);
    assert_eq!(rows[4].values, vec![Value::Int(4)]);
}
