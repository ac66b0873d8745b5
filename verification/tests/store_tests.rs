use cdbe::ColumnStore;
use cdbe::DataType;
use cdbe::DbError;
use cdbe::LaneWidth;
use cdbe::MinMaxIndex;
use cdbe::SimdOp;
use cdbe::TableSchema;
use cdbe::Value;
use cdbe::str_lex_lt;
use cdbe::zone_check;

/// Plays the caller's side of the file boundary: keeps one column's data and
/// index file contents in memory and appends what `insert_row` hands back.
struct OneColumn {
    store: ColumnStore,
    schema: TableSchema,
    data: Vec<u8>,
    index: Vec<MinMaxIndex>,
}

impl OneColumn {
    fn new(decl: &str) -> OneColumn {
        OneColumn {
            store: ColumnStore::new("data"),
            schema: TableSchema::new("employees".to_string(), vec![decl.to_string()]).unwrap(),
            data: Vec::new(),
            index: Vec::new(),
        }
    }

    fn insert(&mut self, text: &str) {
        let writes = self
            .store
            .insert_row(
                &self.schema,
                &vec![text.to_string()],
                &vec![self.data.len() as u64],
            )
            .unwrap();
        for w in writes {
            self.data.extend_from_slice(&w.data_bytes);
            self.index.push(w.index_entry);
        }
    }
}

#[test]
fn schema_parses_column_declarations() {
    let schema = TableSchema::new(
        "employees".to_string(),
        vec!["age:int".to_string(), "name:string".to_string()],
    )
    .unwrap();
    assert_eq!(schema.table_name, "employees");
    assert_eq!(schema.columns.len(), 2);
    assert_eq!(schema.columns[0].name, "age");
    assert_eq!(schema.columns[0].data_type, DataType::Int32);
    assert_eq!(schema.columns[1].name, "name");
    assert_eq!(schema.columns[1].data_type, DataType::Utf8String);
}

#[test]
fn schema_rejects_malformed_declarations() {
    for bad in ["age", "age:float", "a:b:c", ":", "x:"] {
        assert_eq!(
            TableSchema::new("t".to_string(), vec![bad.to_string()]).err(),
            Some(DbError::UnsupportedType),
            "declaration {:?} should be rejected",
            bad
        );
    }
}

#[test]
fn file_paths_follow_the_layout() {
    let store = ColumnStore::new("data");
    assert_eq!(store.data_path("employees", "age"), "data/employees_age.data");
    assert_eq!(store.index_path("employees", "age"), "data/employees_age.idx");
}

#[test]
fn insert_reports_type_mismatch_with_the_column() {
    let store = ColumnStore::new("data");
    let schema = TableSchema::new(
        "t".to_string(),
        vec!["name:string".to_string(), "age:int".to_string()],
    )
    .unwrap();
    let r = store.insert_row(
        &schema,
        &vec!["Alice".to_string(), "abc".to_string()],
        &vec![0u64, 0u64],
    );
    assert_eq!(r.err(), Some(DbError::TypeMismatch { column: 1 }));
}

#[test]
fn zone_index_has_one_record_per_insert() {
    let mut col = OneColumn::new("age:int");
    for v in ["25", "30", "40", "50"] {
        col.insert(v);
    }
    assert_eq!(col.index.len(), 4);
    for (k, expected) in ["25", "30", "40", "50"].iter().enumerate() {
        assert_eq!(col.index[k].min_value, *expected);
        assert_eq!(col.index[k].max_value, *expected);
        assert_eq!(col.index[k].chunk_offset, (4 * k) as u64);
    }
}

#[test]
fn employees_scenario_filters_by_value_and_threshold() {
    let mut col = OneColumn::new("age:int");
    for v in ["25", "30", "40", "50"] {
        col.insert(v);
    }
    let matches = col
        .store
        .filter_column(&col.schema, "age", "30", &col.index, &col.data)
        .unwrap();
    assert_eq!(matches, vec!["30".to_string()]);

    let (buffer, positions) =
        col.store
            .filter_column_simd(&col.data, 29, SimdOp::Gt, LaneWidth::Narrow);
    assert_eq!(buffer, vec![25, 30, 40, 50]);
    assert_eq!(positions, vec![1, 2, 3]);
}

#[test]
fn string_insert_then_scan_yields_exactly_the_string() {
    let mut col = OneColumn::new("name:string");
    col.insert("Alice");
    let values = col
        .store
        .scan_column(&col.schema, "name", &col.data)
        .unwrap();
    assert_eq!(values, vec![Value::Str("Alice".to_string())]);
}

#[test]
fn scan_of_unknown_column_fails_visibly() {
    let col = OneColumn::new("age:int");
    assert_eq!(
        col.store.scan_column(&col.schema, "salary", &col.data).err(),
        Some(DbError::ColumnNotFound)
    );
    assert_eq!(
        col.store
            .filter_column(&col.schema, "salary", "1", &col.index, &col.data)
            .err(),
        Some(DbError::ColumnNotFound)
    );
}

#[test]
fn filtering_never_misses_a_match() {
    // every stored occurrence of the predicate value is returned at least once
    let mut col = OneColumn::new("age:int");
    for v in ["30", "25", "30", "50", "30"] {
        col.insert(v);
    }
    let matches = col
        .store
        .filter_column(&col.schema, "age", "30", &col.index, &col.data)
        .unwrap();
    assert!(matches.len() >= 3, "under-returned: {:?}", matches);
    assert!(matches.iter().all(|m| m == "30"));
}

#[test]
fn surviving_zones_scan_to_end_of_file() {
    // both zones for "7" survive; each scans to end-of-file, so the second
    // occurrence is emitted by both scans: over-returning is preserved
    let mut col = OneColumn::new("age:int");
    for v in ["7", "7"] {
        col.insert(v);
    }
    let matches = col
        .store
        .filter_column(&col.schema, "age", "7", &col.index, &col.data)
        .unwrap();
    assert_eq!(matches, vec!["7".to_string(), "7".to_string(), "7".to_string()]);
}

#[test]
fn lexicographic_pruning_quirk_is_preserved() {
    // "10" < "9" lexicographically, so the 9..9 zone is skipped even though
    // 10 > 9 numerically
    let rec = MinMaxIndex {
        chunk_offset: 0,
        min_value: "9".to_string(),
        max_value: "9".to_string(),
    };
    assert!(str_lex_lt("10", "9"));
    assert!(!zone_check(&rec, "10"));
    assert!(zone_check(&rec, "9"));
}

#[test]
fn pruning_skips_zones_outside_the_bounds() {
    let rec = MinMaxIndex {
        chunk_offset: 0,
        min_value: "b".to_string(),
        max_value: "d".to_string(),
    };
    assert!(!zone_check(&rec, "a"));
    assert!(zone_check(&rec, "b"));
    assert!(zone_check(&rec, "c"));
    assert!(zone_check(&rec, "d"));
    assert!(!zone_check(&rec, "e"));
}

#[test]
fn filter_on_string_column_compares_whole_values() {
    let mut col = OneColumn::new("name:string");
    for v in ["Alice", "Bob", "Alice"] {
        col.insert(v);
    }
    let matches = col
        .store
        .filter_column(&col.schema, "name", "Bob", &col.index, &col.data)
        .unwrap();
    assert_eq!(matches, vec!["Bob".to_string()]);
}

#[test]
fn filter_reports_corrupt_data_reached_through_a_zone() {
    let schema = TableSchema::new("t".to_string(), vec!["name:string".to_string()]).unwrap();
    let store = ColumnStore::new("data");
    // a lone zone pointing at a truncated record
    let index = vec![MinMaxIndex {
        chunk_offset: 0,
        min_value: "a".to_string(),
        max_value: "a".to_string(),
    }];
    let data = vec![9u8, 0, 0, 0, b'a'];
    assert_eq!(
        store.filter_column(&schema, "name", "a", &index, &data).err(),
        Some(DbError::CorruptData)
    );
}

#[test]
fn zone_offset_past_end_of_file_emits_nothing() {
    let schema = TableSchema::new("t".to_string(), vec!["age:int".to_string()]).unwrap();
    let store = ColumnStore::new("data");
    let index = vec![MinMaxIndex {
        chunk_offset: 100,
        min_value: "7".to_string(),
        max_value: "7".to_string(),
    }];
    let data = vec![7u8, 0, 0, 0];
    let matches = store
        .filter_column(&schema, "age", "7", &index, &data)
        .unwrap();
    assert!(matches.is_empty());
}

#[test]
fn two_column_insert_keeps_files_in_lock_step() {
    let store = ColumnStore::new("data");
    let schema = TableSchema::new(
        "t".to_string(),
        vec!["age:int".to_string(), "name:string".to_string()],
    )
    .unwrap();
    let writes = store
        .insert_row(
            &schema,
            &vec!["33".to_string(), "Ada".to_string()],
            &vec![8u64, 21u64],
        )
        .unwrap();
    assert_eq!(writes.len(), 2);
    assert_eq!(writes[0].data_bytes, vec![33, 0, 0, 0]);
    assert_eq!(writes[0].index_entry.chunk_offset, 8);
    assert_eq!(writes[0].index_entry.min_value, "33");
    assert_eq!(writes[1].data_bytes, vec![3, 0, 0, 0, b'A', b'd', b'a']);
    assert_eq!(writes[1].index_entry.chunk_offset, 21);
    assert_eq!(writes[1].index_entry.max_value, "Ada");
}

#[test]
fn logical_filter_over_two_columns() {
    let store = ColumnStore::new("data");
    // ages [25, 30, 40] and flags [1, 1, 0], positionally aligned
    let ages: Vec<u8> = vec![25, 0, 0, 0, 30, 0, 0, 0, 40, 0, 0, 0];
    let flags: Vec<u8> = vec![1, 0, 0, 0, 1, 0, 0, 0, 0, 0, 0, 0];
    let mut and = store.filter_columns_logical_simd(
        &ages,
        SimdOp::Gt,
        29,
        &flags,
        SimdOp::Eq,
        1,
        cdbe::LogicalOp::And,
    );
    and.sort();
    assert_eq!(and, vec![1]);
    let mut or = store.filter_columns_logical_simd(
        &ages,
        SimdOp::Gt,
        29,
        &flags,
        SimdOp::Eq,
        1,
        cdbe::LogicalOp::Or,
    );
    or.sort();
    assert_eq!(or, vec![0, 1, 2]);
}
