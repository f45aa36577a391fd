use flintdb::{
    compute_checksum, decode_catalog, encode_catalog, CatalogError, CatalogHeader, Column, DataType,
    Database, DbError, Row, Schema, TableMetadata, Value, BLOCK_SIZE,
};

fn int_schema(names: &[&str]) -> Schema {
    Schema::new(
        names
            .iter()
            .map(|n| Column { name: n.to_string(), data_type: DataType::Int })
            .collect(),
    )
}

#[test]
fn create_insert_scan_single_row() {
    let mut db = Database::new();
    db.create_table("t".to_string(), int_schema(&["a"])).unwrap();
    db.insert_row("t", Row::new(vec![Value::Int(5)])).unwrap();
    let rows = db.scan_table("t").unwrap();
    assert_eq!(rows.len(), 1);
    assert_eq!(rows[0].values, vec![Value::Int(5)]);
}

#[test]
fn duplicate_table_is_rejected() {
    let mut db = Database::new();
    db.create_table("t".to_string(), int_schema(&["a"])).unwrap();
    let active = db.active_segment();
    assert_eq!(db.create_table("t".to_string(), int_schema(&["b", "c"])), Err(DbError::TableExists));
    assert_eq!(db.table_count(), 1);
    assert_eq!(db.active_segment(), active);
    assert_eq!(db.get_schema("t").unwrap().columns[0].name, "a");
    assert_eq!(db.get_table("t").unwrap().segments, vec![2]);
}

#[test]
fn column_count_mismatch_writes_nothing() {
    let mut db = Database::new();
    db.create_table("t".to_string(), int_schema(&["a", "b", "c"])).unwrap();
    let r = db.insert_row("t", Row::new(vec![Value::Int(1), Value::Int(2)]));
    assert_eq!(r, Err(DbError::ColumnCountMismatch { expected: 3, got: 2 }));
    assert!(db.scan_table("t").unwrap().is_empty());
}

#[test]
fn missing_table_is_reported() {
    let mut db = Database::new();
    assert_eq!(db.insert_row("nope", Row::new(vec![])), Err(DbError::TableNotFound));
    assert!(matches!(db.scan_table("nope"), Err(DbError::TableNotFound)));
    assert!(matches!(db.get_schema("nope"), Err(DbError::TableNotFound)));
}

#[test]
fn rows_keep_their_values_and_order() {
    let mut db = Database::new();
    let schema = Schema::new(vec![
        Column { name: "id".to_string(), data_type: DataType::Int },
        Column { name: "name".to_string(), data_type: DataType::String },
        Column { name: "ok".to_string(), data_type: DataType::Bool },
        Column { name: "x".to_string(), data_type: DataType::Float },
        Column { name: "n".to_string(), data_type: DataType::Null },
    ]);
    db.create_table("people".to_string(), schema).unwrap();
    for i in 0..3i64 {
        let row = Row::new(vec![
            Value::Int(-i),
            Value::String(format!("näme {}", i)),
            Value::Bool(i % 2 == 0),
            Value::Float((1.5f64 * i as f64).to_bits()),
            Value::Null,
        ]);
        db.insert_row("people", row).unwrap();
    }
    let rows = db.scan_table("people").unwrap();
    assert_eq!(rows.len(), 3);
    assert_eq!(rows[2].values[0], Value::Int(-2));
    assert_eq!(rows[1].values[1], Value::String("näme 1".to_string()));
    assert_eq!(rows[1].values[2], Value::Bool(false));
    assert_eq!(rows[2].values[3], Value::Float(3.0f64.to_bits()));
    assert_eq!(rows[0].values[4], Value::Null);
}

#[test]
fn full_segment_grows_the_table() {
    let mut db = Database::new();
    db.create_table("t".to_string(), int_schema(&["a"])).unwrap();
    db.create_table("u".to_string(), int_schema(&["a"])).unwrap();
    let big = "x".repeat(1500);
    let n = 80;
    for i in 0..n {
        let row = Row::new(vec![Value::String(format!("{}{}", big, i))]);
        db.insert_row("t", row).unwrap();
    }
    let rows = db.scan_table("t").unwrap();
    assert_eq!(rows.len(), n);
    assert_eq!(rows[n - 1].values[0], Value::String(format!("{}{}", big, n - 1)));
    let segments = db.get_table("t").unwrap().segments.clone();
    assert_eq!(segments, vec![2, 4]);
    assert!(db.scan_table("u").unwrap().is_empty());
}

#[test]
fn oversized_row_is_rejected() {
    let mut db = Database::new();
    db.create_table("t".to_string(), int_schema(&["a"])).unwrap();
    let r = db.insert_row("t", Row::new(vec![Value::String("y".repeat(5000))]));
    assert_eq!(r, Err(DbError::RowTooLarge));
    assert!(db.scan_table("t").unwrap().is_empty());
}

#[test]
fn catalog_survives_reopen() {
    let mut db = Database::new();
    db.create_table("alpha".to_string(), int_schema(&["a", "b"])).unwrap();
    db.create_table("beta".to_string(), int_schema(&["c"])).unwrap();
    let file = db.into_file();
    let reopened = Database::open(file);
    assert_eq!(reopened.table_count(), 2);
    assert_eq!(reopened.get_table("alpha").unwrap().segments, vec![2]);
    assert_eq!(reopened.get_table("beta").unwrap().segments, vec![3]);
    assert_eq!(reopened.get_schema("alpha").unwrap().len(), 2);
    assert_eq!(reopened.get_schema("beta").unwrap().columns[0].name, "c");
}

#[test]
fn catalog_round_trips_through_a_block() {
    let tables = vec![
        ("t1".to_string(), TableMetadata { schema: int_schema(&["a", "b"]), segments: vec![2, 7] }),
        ("zweite".to_string(), TableMetadata { schema: int_schema(&["ü"]), segments: vec![3] }),
    ];
    let image = encode_catalog(&tables).unwrap();
    assert_eq!(image.len(), BLOCK_SIZE);
    let back = decode_catalog(&image).unwrap();
    assert_eq!(back.len(), 2);
    assert_eq!(back[0].0, "t1");
    assert_eq!(back[0].1.segments, vec![2, 7]);
    assert_eq!(back[0].1.schema.columns[1].name, "b");
    assert_eq!(back[1].0, "zweite");
    assert_eq!(back[1].1.schema.columns[0].name, "ü");
}

#[test]
fn oversized_catalog_is_rejected() {
    let mut db = Database::new();
    let long = "c".repeat(1000);
    let mut created = 0;
    let mut last = Ok(());
    for i in 0..10 {
        last = db.create_table(format!("t{}", i), int_schema(&[long.as_str()]));
        if last.is_err() {
            break;
        }
        created += 1;
    }
    assert_eq!(last, Err(DbError::CatalogTooLarge));
    assert_eq!(db.table_count(), created);
}

#[test]
fn corrupt_checksum_falls_back_to_other_copy() {
    let mut db = Database::new();
    db.create_table("first".to_string(), int_schema(&["a"])).unwrap();
    assert_eq!(db.active_segment(), 1);
    db.create_table("second".to_string(), int_schema(&["b"])).unwrap();
    assert_eq!(db.active_segment(), 0);
    let mut file = db.into_file();
    let mut block = file.read_meta_block(0).clone();
    // version, count, two entries (length, name, offset), then the checksum
    let checksum_at = 4 + 4 + (4 + "first".len() + 4) + (4 + "second".len() + 4);
    block[checksum_at] ^= 0x5a;
    assert_eq!(decode_catalog(&block).err(), Some(CatalogError::ChecksumMismatch));
    file.write_meta_block(0, block);
    let recovered = Database::open(file);
    assert_eq!(recovered.active_segment(), 1);
    assert_eq!(recovered.table_count(), 1);
    assert!(recovered.get_table("first").is_ok());
    assert!(recovered.get_table("second").is_err());
}

#[test]
fn corrupt_version_falls_back_to_other_copy() {
    let mut db = Database::new();
    db.create_table("first".to_string(), int_schema(&["a"])).unwrap();
    db.create_table("second".to_string(), int_schema(&["b"])).unwrap();
    let mut file = db.into_file();
    let mut block = file.read_meta_block(0).clone();
    block[0] = 9;
    assert_eq!(decode_catalog(&block).err(), Some(CatalogError::Decode));
    file.write_meta_block(0, block);
    let mut recovered = Database::open(file);
    assert_eq!(recovered.active_segment(), 1);
    assert_eq!(recovered.table_count(), 1);
    recovered.create_table("third".to_string(), int_schema(&["c"])).unwrap();
    assert_eq!(recovered.get_table("third").unwrap().segments, vec![3]);
}

#[test]
fn fresh_file_opens_empty() {
    let db = Database::open(flintdb::DatabaseFile::new());
    assert_eq!(db.table_count(), 0);
    assert_eq!(db.active_segment(), 0);
}

#[test]
fn checksum_formula() {
    assert_eq!(compute_checksum(&[]), 0);
    assert_eq!(compute_checksum(&[1, 2]), 33);
    assert_eq!(compute_checksum(&[1, 2, 3]), 33 * 31 + 3);
    let many = vec![255u8; 40];
    let mut acc: u64 = 0;
    for b in &many {
        acc = acc.wrapping_mul(31).wrapping_add(*b as u64);
    }
    assert_eq!(compute_checksum(&many), acc);
}

#[test]
fn catalog_header_starts_empty() {
    let h = CatalogHeader::new();
    assert_eq!(h.catalog_version, 1);
    assert_eq!(h.num_tables, 0);
    assert!(h.table_offsets.is_empty());
    assert_eq!(h.checksum, 0);
}

#[test]
fn checksum_covers_the_blob_only() {
    let tables = vec![("t".to_string(), TableMetadata { schema: int_schema(&["a"]), segments: vec![2] })];
    let image = encode_catalog(&tables).unwrap();
    let header_len = 4 + 4 + (4 + 1 + 4) + 8;
    let blob_len = 4 + (4 + 1 + 1) + 4 + 4;
    let stored = u64::from_le_bytes(image[header_len - 8..header_len].try_into().unwrap());
    assert_eq!(stored, compute_checksum(&image[header_len..header_len + blob_len]));
    assert!(image[header_len + blob_len..].iter().all(|b| *b == 0));
    let mut changed = image.clone();
    changed[header_len + 8] ^= 1;
    assert_eq!(decode_catalog(&changed).err(), Some(CatalogError::ChecksumMismatch));
}

#[test]
fn reopening_creates_segments_the_catalog_names() {
    let mut db = Database::new();
    db.create_table("t".to_string(), int_schema(&["a"])).unwrap();
    let file = db.into_file();
    let mut copy = flintdb::DatabaseFile::new();
    for seg in 0..2u32 {
        copy.write_meta_block(seg, file.read_meta_block(seg).clone());
    }
    let mut reopened = Database::open(copy);
    assert!(reopened.scan_table("t").unwrap().is_empty());
    reopened.insert_row("t", Row::new(vec![Value::Int(1)])).unwrap();
    assert_eq!(reopened.scan_table("t").unwrap().len(), 1);
}
