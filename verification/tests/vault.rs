use neural_vault::database::{DatabaseStats, NeuralVault};
use neural_vault::error::NeuralVaultError;
use neural_vault::models::{
    DatabaseConfig, LogicalOperator, NVField, NVQuery, NVValue, QueryOperator, UpdateOperation,
};

fn test_config() -> DatabaseConfig {
    DatabaseConfig { path: "./test_vault_data".to_string(), ..Default::default() }
}

fn field(key: &str, value: NVValue) -> NVField {
    NVField { key: key.to_string(), value }
}

#[test]
fn test_create_and_find() {
    let mut db = NeuralVault::new(test_config()).unwrap();

    let data = vec![
        field("name", NVValue::String("John".to_string())),
        field("age", NVValue::Number(30)),
    ];

    let id = db.create("users".to_string(), data).unwrap();

    let doc = db.find_by_id(&id).unwrap();
    assert_eq!(doc.id, id);
    assert_eq!(doc.collection, "users");
}

#[test]
fn test_query_with_filter() {
    let mut db = NeuralVault::new(test_config()).unwrap();

    for i in 1..=5 {
        let data = vec![
            field("name", NVValue::String(format!("User{}", i))),
            field("age", NVValue::Number(20 + i)),
        ];
        db.create("users".to_string(), data).unwrap();
    }

    let mut query = NVQuery::new("users".to_string());
    query.add_condition("age".to_string(), QueryOperator::GreaterThan, NVValue::Number(22), None);

    let results = db.find(query).unwrap();
    assert_eq!(results.len(), 3); // Users with age > 22
}

#[test]
fn test_update_and_delete() {
    let mut db = NeuralVault::new(test_config()).unwrap();

    let data = vec![
        field("name", NVValue::String("Alice".to_string())),
        field("status", NVValue::String("active".to_string())),
    ];

    let id = db.create("users".to_string(), data).unwrap();

    let updates = vec![UpdateOperation {
        field: "status".to_string(),
        value: NVValue::String("inactive".to_string()),
    }];
    db.update_by_id(&id, updates).unwrap();

    let doc = db.find_by_id(&id).unwrap();
    assert_eq!(doc.get("status"), Some(&NVValue::String("inactive".to_string())));

    db.kill_by_id(&id).unwrap();

    assert!(db.find_by_id(&id).is_err());
}

#[test]
fn soft_delete_hides_from_reads_and_counts() {
    let mut db = NeuralVault::new(test_config()).unwrap();

    let id = db
        .create("users".to_string(), vec![field("name", NVValue::String("Bob".to_string()))])
        .unwrap();
    assert_eq!(db.count(&"users".to_string()).unwrap(), 1);

    db.kill_by_id(&id).unwrap();

    match db.find_by_id(&id) {
        Err(NeuralVaultError::DocumentNotFound(_)) => {}
        other => panic!("expected not-found, got {:?}", other.map(|d| d.id)),
    }
    assert_eq!(db.count(&"users".to_string()).unwrap(), 0);
}

#[test]
fn update_by_id_counts_and_batch_update() {
    let mut db = NeuralVault::new(test_config()).unwrap();

    for name in ["a", "b", "c"] {
        db.create(
            "items".to_string(),
            vec![
                field("name", NVValue::String(name.to_string())),
                field("flag", NVValue::Bool(false)),
            ],
        )
        .unwrap();
    }

    let query = NVQuery::new("items".to_string());
    let updates =
        vec![UpdateOperation { field: "flag".to_string(), value: NVValue::Bool(true) }];
    let n = db.update(query, updates).unwrap();
    assert_eq!(n, 3);

    let all = db.find(NVQuery::new("items".to_string())).unwrap();
    assert_eq!(all.len(), 3);
    for doc in &all {
        assert_eq!(doc.get("flag"), Some(&NVValue::Bool(true)));
    }
}

#[test]
fn filter_example_returns_matching_in_insertion_order() {
    let mut db = NeuralVault::new(test_config()).unwrap();

    for age in [21, 23, 25] {
        db.create("users".to_string(), vec![field("age", NVValue::Number(age))]).unwrap();
    }

    let mut query = NVQuery::new("users".to_string());
    query.add_condition("age".to_string(), QueryOperator::GreaterThan, NVValue::Number(22), None);
    let results = db.find(query).unwrap();

    assert_eq!(results.len(), 2);
    assert_eq!(results[0].get("age"), Some(&NVValue::Number(23)));
    assert_eq!(results[1].get("age"), Some(&NVValue::Number(25)));
}

#[test]
fn pagination_skip_before_limit() {
    let mut db = NeuralVault::new(test_config()).unwrap();

    for i in 0..5 {
        db.create("pages".to_string(), vec![field("n", NVValue::Number(i))]).unwrap();
    }

    let mut query = NVQuery::new("pages".to_string());
    query.skip = Some(2);
    query.limit = Some(2);
    let results = db.find(query).unwrap();

    assert_eq!(results.len(), 2);
    assert_eq!(results[0].get("n"), Some(&NVValue::Number(2)));
    assert_eq!(results[1].get("n"), Some(&NVValue::Number(3)));

    let mut past_end = NVQuery::new("pages".to_string());
    past_end.skip = Some(10);
    assert_eq!(db.find(past_end).unwrap().len(), 0);
}

#[test]
fn sort_with_missing_field_places_missing_last_ascending() {
    let mut db = NeuralVault::new(test_config()).unwrap();

    db.create("docs".to_string(), vec![field("a", NVValue::Number(1))]).unwrap();
    db.create("docs".to_string(), vec![field("b", NVValue::Number(2))]).unwrap();

    let mut asc = NVQuery::new("docs".to_string());
    asc.order_by = Some("a".to_string());
    let up = db.find(asc).unwrap();
    assert_eq!(up.len(), 2);
    assert_eq!(up[0].get("a"), Some(&NVValue::Number(1)));
    assert_eq!(up[1].get("a"), None);

    let mut desc = NVQuery::new("docs".to_string());
    desc.order_by = Some("a".to_string());
    desc.order_desc = true;
    let down = db.find(desc).unwrap();
    assert_eq!(down.len(), 2);
    assert_eq!(down[0].get("a"), None);
    assert_eq!(down[1].get("a"), Some(&NVValue::Number(1)));
}

#[test]
fn collections_listing_excludes_fully_tombstoned_groups() {
    let mut db = NeuralVault::new(test_config()).unwrap();

    db.create("kept".to_string(), vec![field("x", NVValue::Number(1))]).unwrap();
    let doomed = db.create("ghost".to_string(), vec![field("x", NVValue::Number(2))]).unwrap();
    db.kill_by_id(&doomed).unwrap();

    let names = db.collections().unwrap();
    assert_eq!(names, vec!["kept".to_string()]);
}

#[test]
fn collections_are_sorted_and_unique() {
    let mut db = NeuralVault::new(test_config()).unwrap();

    for coll in ["zoo", "bar", "zoo", "foo"] {
        db.create(coll.to_string(), vec![field("x", NVValue::Null)]).unwrap();
    }

    let names = db.collections().unwrap();
    assert_eq!(names, vec!["bar".to_string(), "foo".to_string(), "zoo".to_string()]);
}

#[test]
fn stats_report_documents_collections_and_bytes() {
    let mut db = NeuralVault::new(test_config()).unwrap();

    db.create("a".to_string(), vec![field("x", NVValue::Number(1))]).unwrap();
    db.create("b".to_string(), vec![field("x", NVValue::Number(2))]).unwrap();

    let stats: DatabaseStats = db.stats().unwrap();
    assert_eq!(stats.total_documents, 2);
    assert_eq!(stats.total_collections, 2);
    assert_eq!(stats.collections, vec!["a".to_string(), "b".to_string()]);
    assert_eq!(stats.storage_size_bytes, db.log_bytes().len() as u64);
}

#[test]
fn logical_fold_is_left_to_right_without_precedence() {
    let mut db = NeuralVault::new(test_config()).unwrap();

    // age = 10, name = "x"
    db.create(
        "t".to_string(),
        vec![
            field("age", NVValue::Number(10)),
            field("name", NVValue::String("x".to_string())),
        ],
    )
    .unwrap();

    // (false OR true) AND false == false under left-to-right folding,
    // while false OR (true AND false) would differ from
    // ((false OR true) AND false) only without the flat fold.
    let mut q = NVQuery::new("t".to_string());
    q.add_condition("age".to_string(), QueryOperator::Equals, NVValue::Number(11), None);
    q.add_condition(
        "age".to_string(),
        QueryOperator::Equals,
        NVValue::Number(10),
        Some(LogicalOperator::Or),
    );
    q.add_condition(
        "name".to_string(),
        QueryOperator::Equals,
        NVValue::String("y".to_string()),
        Some(LogicalOperator::And),
    );
    assert_eq!(db.find(q).unwrap().len(), 0);
}

#[test]
fn restart_from_log_rebuilds_the_same_view() {
    let mut db = NeuralVault::new(test_config()).unwrap();

    let id1 = db.create("users".to_string(), vec![field("n", NVValue::Number(1))]).unwrap();
    let id2 = db.create("users".to_string(), vec![field("n", NVValue::Number(2))]).unwrap();
    db.update_by_id(
        &id1,
        vec![UpdateOperation { field: "n".to_string(), value: NVValue::Number(7) }],
    )
    .unwrap();
    db.kill_by_id(&id2).unwrap();

    let bytes = db.log_bytes();
    let db2 = NeuralVault::from_log(test_config(), bytes).unwrap();

    let doc = db2.find_by_id(&id1).unwrap();
    assert_eq!(doc.get("n"), Some(&NVValue::Number(7)));
    assert!(db2.find_by_id(&id2).is_err());
    assert_eq!(db2.count(&"users".to_string()).unwrap(), 1);
}

#[test]
fn truncated_trailing_record_is_an_error_on_startup() {
    let mut db = NeuralVault::new(test_config()).unwrap();
    db.create("users".to_string(), vec![field("n", NVValue::Number(1))]).unwrap();

    let mut bytes = db.log_bytes();
    // chop into the payload: the record now runs past the end of the log
    bytes.truncate(bytes.len() - 5);

    match NeuralVault::from_log(test_config(), bytes) {
        Err(NeuralVaultError::IoError(_)) => {}
        other => panic!("expected an io error, got {:?}", other.map(|_| ())),
    }
}

#[test]
fn checksum_mismatch_surfaces_as_storage_fault() {
    let mut db = NeuralVault::new(test_config()).unwrap();
    let id = db
        .create("users".to_string(), vec![field("tag", NVValue::String("aaaa".to_string()))])
        .unwrap();

    let mut bytes = db.log_bytes();
    // flip one payload byte of the string content: the payload still
    // decodes, so the rebuilt index points at the record, but the stored
    // checksum no longer matches
    let pos = bytes.iter().rposition(|&b| b == b'a').unwrap();
    bytes[pos] = b'b';

    let db2 = NeuralVault::from_log(test_config(), bytes).unwrap();
    match db2.find_by_id(&id) {
        Err(NeuralVaultError::StorageError(_)) => {}
        other => panic!("expected a storage fault, got {:?}", other.map(|d| d.id)),
    }
}

#[test]
fn corrupted_records_are_skipped_by_scans_and_listings() {
    let mut db = NeuralVault::new(test_config()).unwrap();
    db.create("kept".to_string(), vec![field("x", NVValue::Number(1))]).unwrap();
    let id = db
        .create("ghost".to_string(), vec![field("tag", NVValue::String("aaaa".to_string()))])
        .unwrap();

    let mut bytes = db.log_bytes();
    // flip one payload byte of the second record's string content: the
    // payload still decodes, but its stored checksum no longer matches
    let pos = bytes.iter().rposition(|&b| b == b'a').unwrap();
    bytes[pos] = b'b';

    let db2 = NeuralVault::from_log(test_config(), bytes).unwrap();
    // a point read surfaces the corruption
    match db2.find_by_id(&id) {
        Err(NeuralVaultError::StorageError(_)) => {}
        other => panic!("expected a storage fault, got {:?}", other.map(|d| d.id)),
    }
    // the full-log walk silently skips the corrupt record, so the
    // collection never appears anywhere
    assert_eq!(db2.collections().unwrap(), vec!["kept".to_string()]);
    assert_eq!(db2.count(&"ghost".to_string()).unwrap(), 0);
}

#[test]
fn created_identifiers_have_uuid_length() {
    let mut db = NeuralVault::new(test_config()).unwrap();
    let id = db.create("users".to_string(), vec![]).unwrap();
    assert_eq!(id.len(), 36);
}
