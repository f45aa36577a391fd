use flintdb::{BTree, InMemoryBTree, IndexEntry, IndexError, IndexPage, TuplePointer, MAX_INDEX_ENTRIES};

#[test]
fn test_insert_and_search() -> Result<(), IndexError> {
    let mut tree = InMemoryBTree::new();
    let ptr = TuplePointer::new(0, 5, 10);

    tree.insert(42, ptr)?;

    let found = tree.search(42)?;
    assert_eq!(found, Some(ptr));

    let not_found = tree.search(99)?;
    assert_eq!(not_found, None);

    Ok(())
}

#[test]
fn test_split_on_overflow() -> Result<(), IndexError> {
    let mut tree = InMemoryBTree::new();
    let ptr1 = TuplePointer::new(0, 0, 1);
    let ptr2 = TuplePointer::new(0, 0, 2);

    tree.insert(10, ptr1)?;
    tree.insert(20, ptr2)?;

    let found = tree.search(10)?;
    assert_eq!(found, Some(ptr1));

    let found = tree.search(20)?;
    assert_eq!(found, Some(ptr2));

    Ok(())
}

fn ptr_for(key: u64) -> TuplePointer {
    TuplePointer::new((key % 1000) as u32, (key % 7) as u8, (key % 500) as u16)
}

#[test]
fn page_insert_then_search_returns_stored_pointer() {
    let mut page = IndexPage::new(true);
    let p = TuplePointer::new(3, 1, 9);
    assert!(BTree::insert_into_page(&mut page, 7, p).unwrap().is_none());
    assert_eq!(BTree::search_page(&page, 7).unwrap(), Some(p));
    assert_eq!(BTree::search_page(&page, 8).unwrap(), None);
}

#[test]
fn page_insert_existing_key_overwrites() {
    let mut page = IndexPage::new(true);
    let p1 = TuplePointer::new(1, 1, 1);
    let p2 = TuplePointer::new(2, 2, 2);
    BTree::insert_into_page(&mut page, 5, p1).unwrap();
    BTree::insert_into_page(&mut page, 5, p2).unwrap();
    assert_eq!(BTree::search_page(&page, 5).unwrap(), Some(p2));
    assert_eq!(page.entries().unwrap().len(), 1);
}

#[test]
fn page_keeps_keys_sorted() {
    let mut page = IndexPage::new(true);
    for k in [50u64, 10, 40, 20, 30] {
        BTree::insert_into_page(&mut page, k, ptr_for(k)).unwrap();
    }
    let keys: Vec<u64> = page.entries().unwrap().iter().map(|e| e.key).collect();
    assert_eq!(keys, vec![10, 20, 30, 40, 50]);
    assert_eq!(page.binary_search(30).unwrap(), (true, 2));
    assert_eq!(page.binary_search(35).unwrap(), (false, 3));
}

#[test]
fn full_page_splits_at_midpoint() {
    assert_eq!(IndexPage::max_entries(), 268);
    assert_eq!(MAX_INDEX_ENTRIES, 268);
    let mut page = IndexPage::new(true);
    for i in 0..268u64 {
        let key = 2 * i;
        assert!(BTree::insert_into_page(&mut page, key, ptr_for(key)).unwrap().is_none());
    }
    assert_eq!(page.insert_at(0, IndexEntry::new(1, ptr_for(1))), Err(IndexError::PageFull));
    let split = BTree::insert_into_page(&mut page, 101, ptr_for(101)).unwrap().expect("split");
    let left = page.entries().unwrap();
    let right = split.right_page.entries().unwrap();
    assert_eq!(left.len(), 134);
    assert_eq!(right.len(), 135);
    assert_eq!(split.promoted_key, right[0].key);
    let mut expected: Vec<u64> = (0..268u64).map(|i| 2 * i).collect();
    expected.push(101);
    expected.sort();
    let combined: Vec<u64> = left.iter().chain(right.iter()).map(|e| e.key).collect();
    assert_eq!(combined, expected);
    assert!(left.iter().all(|e| e.key < split.promoted_key));
}

#[test]
fn range_scan_is_inclusive() {
    let mut page = IndexPage::new(true);
    for k in 1..=10u64 {
        BTree::insert_into_page(&mut page, k, ptr_for(k)).unwrap();
    }
    let hits: Vec<u64> = BTree::range_scan_page(&page, 3, 6).unwrap().iter().map(|p| p.0).collect();
    assert_eq!(hits, vec![3, 4, 5, 6]);
    assert_eq!(BTree::scan_page(&page).unwrap().len(), 10);
    assert_eq!(BTree::scan_page(&page).unwrap()[0], (1, ptr_for(1)));
}

#[test]
fn corrupt_magic_is_a_read_failure() {
    let page = IndexPage::new(true);
    let mut bytes = page.data().clone();
    bytes[0] ^= 0xff;
    let bad = IndexPage::from_bytes(bytes).unwrap();
    assert!(matches!(bad.header(), Err(IndexError::BadMagic)));
    assert_eq!(BTree::search_page(&bad, 1), Err(IndexError::BadMagic));
    assert!(matches!(IndexPage::from_bytes(vec![0u8; 100]), Err(IndexError::WrongSize)));
}

#[test]
fn insert_position_out_of_range() {
    let mut page = IndexPage::new(true);
    assert_eq!(page.insert_at(1, IndexEntry::new(1, ptr_for(1))), Err(IndexError::PositionOutOfRange));
    assert_eq!(page.get_entry(0), Err(IndexError::EntryOutOfRange));
}

#[test]
fn tree_grows_past_one_page() -> Result<(), IndexError> {
    let mut tree = InMemoryBTree::new();
    for i in 0..5000u64 {
        let key = (i * 7919) % 5003;
        tree.insert(key, ptr_for(key))?;
    }
    for i in 0..5000u64 {
        let key = (i * 7919) % 5003;
        assert_eq!(tree.search(key)?, Some(ptr_for(key)));
    }
    assert_eq!(tree.search(5003)?, None);
    let root = tree.root_page().expect("root");
    assert!(!root.header().unwrap().is_leaf);
    tree.insert(3, TuplePointer::new(9, 9, 9))?;
    assert_eq!(tree.search(3)?, Some(TuplePointer::new(9, 9, 9)));
    Ok(())
}

#[test]
fn tree_routes_keys_below_first_routing_key() -> Result<(), IndexError> {
    let mut tree = InMemoryBTree::new();
    for k in 1000..1400u64 {
        tree.insert(k, ptr_for(k))?;
    }
    for k in 0..300u64 {
        tree.insert(k, ptr_for(k))?;
    }
    for k in (0..300u64).chain(1000..1400) {
        assert_eq!(tree.search(k)?, Some(ptr_for(k)));
    }
    Ok(())
}
