use neural_vault::codec::{decode_document, encode_document};
use neural_vault::error::NeuralVaultError;
use neural_vault::models::{NVDocument, NVField, NVQuery, NVValue, QueryOperator};
use neural_vault::query::QueryProcessor;
use neural_vault::storage::FileManager;

fn field(key: &str, value: NVValue) -> NVField {
    NVField { key: key.to_string(), value }
}

fn sample_document() -> NVDocument {
    NVDocument::new(
        "id-0001".to_string(),
        "things".to_string(),
        vec![
            field("null", NVValue::Null),
            field("truth", NVValue::Bool(true)),
            field("count", NVValue::Number(-42)),
            field("text", NVValue::String("héllo wörld".to_string())),
            field(
                "list",
                NVValue::Array(vec![
                    NVValue::Number(1),
                    NVValue::String("two".to_string()),
                    NVValue::Null,
                ]),
            ),
            field(
                "nested",
                NVValue::Object(vec![field("inner", NVValue::Bool(false))]),
            ),
        ],
    )
}

#[test]
fn codec_round_trip_reproduces_the_document() {
    let doc = sample_document();
    let bytes = encode_document(&doc).unwrap();
    let back = decode_document(&bytes).unwrap();

    assert_eq!(back.id, doc.id);
    assert_eq!(back.collection, doc.collection);
    assert_eq!(back.data, doc.data);
    assert_eq!(back.created_at, doc.created_at);
    assert_eq!(back.updated_at, doc.updated_at);
    assert_eq!(back.deleted, doc.deleted);
}

#[test]
fn append_then_read_returns_the_document() {
    let mut fm = FileManager::new();
    let doc = sample_document();
    fm.append(&doc).unwrap();

    let back = fm.read(&doc.id).unwrap();
    assert_eq!(back.id, doc.id);
    assert_eq!(back.data, doc.data);
}

#[test]
fn scan_all_keeps_history_but_mark_deleted_hides_reads() {
    let mut fm = FileManager::new();
    let doc = sample_document();
    fm.append(&doc).unwrap();
    fm.mark_deleted(&doc.id).unwrap();

    match fm.read(&doc.id) {
        Err(NeuralVaultError::DocumentNotFound(_)) => {}
        other => panic!("expected not-found, got {:?}", other.map(|d| d.id)),
    }
    // the bytes are still in the log, but the tombstoned record is
    // excluded from the live output
    assert!(fm.statistics().file_size_bytes > 0);
    assert_eq!(fm.scan_all().unwrap().len(), 0);
}

#[test]
fn update_appends_new_records_and_read_resolves_latest() {
    let mut fm = FileManager::new();
    let mut doc = sample_document();
    fm.append(&doc).unwrap();

    doc.set("count".to_string(), NVValue::Number(1));
    fm.append(&doc).unwrap();
    doc.set("count".to_string(), NVValue::Number(2));
    fm.append(&doc).unwrap();

    // three physical records for the identifier remain in the log
    assert_eq!(fm.scan_all().unwrap().len(), 3);
    // a point read resolves only the most recent
    let back = fm.read(&doc.id).unwrap();
    assert_eq!(back.get("count"), Some(&NVValue::Number(2)));
    // reconstruction also resolves only the most recent
    fm.rebuild_index().unwrap();
    assert_eq!(fm.statistics().document_count, 1);
    let back2 = fm.read(&doc.id).unwrap();
    assert_eq!(back2.get("count"), Some(&NVValue::Number(2)));
}

#[test]
fn rebuild_index_twice_gives_the_same_index() {
    let mut fm = FileManager::new();
    let mut a = sample_document();
    a.id = "id-a".to_string();
    let mut b = sample_document();
    b.id = "id-b".to_string();
    fm.append(&a).unwrap();
    fm.append(&b).unwrap();
    fm.append(&a).unwrap();
    fm.mark_deleted(&b.id).unwrap();

    fm.rebuild_index().unwrap();
    let first_stats = fm.statistics();
    let first_read = fm.read(&a.id).unwrap();

    fm.rebuild_index().unwrap();
    let second_stats = fm.statistics();
    let second_read = fm.read(&a.id).unwrap();

    assert_eq!(first_stats.document_count, second_stats.document_count);
    assert_eq!(first_stats.file_size_bytes, second_stats.file_size_bytes);
    assert_eq!(first_read.data, second_read.data);
}

#[test]
fn test_equals_operator() {
    let processor = QueryProcessor::new();

    let left = NVValue::String("test".to_string());
    let right = NVValue::String("test".to_string());

    assert!(processor.compare_values(&left, &right, &QueryOperator::Equals));
}

#[test]
fn test_greater_than_operator() {
    let processor = QueryProcessor::new();

    let left = NVValue::Number(10);
    let right = NVValue::Number(5);

    assert!(processor.compare_values(&left, &right, &QueryOperator::GreaterThan));
}

#[test]
fn test_contains_operator() {
    let processor = QueryProcessor::new();

    let left = NVValue::String("hello world".to_string());
    let right = NVValue::String("world".to_string());

    assert!(processor.compare_values(&left, &right, &QueryOperator::Contains));
}

#[test]
fn comparison_operators_cover_types_and_edges() {
    let p = QueryProcessor::new();

    // cross-type comparisons are always unequal
    assert!(!p.compare_values(&NVValue::Number(1), &NVValue::String("1".to_string()), &QueryOperator::Equals));
    assert!(p.compare_values(&NVValue::Number(1), &NVValue::String("1".to_string()), &QueryOperator::NotEquals));
    // order operators are numeric-only
    assert!(!p.compare_values(&NVValue::String("9".to_string()), &NVValue::String("5".to_string()), &QueryOperator::GreaterThan));
    assert!(p.compare_values(&NVValue::Number(5), &NVValue::Number(5), &QueryOperator::GreaterThanOrEqual));
    assert!(p.compare_values(&NVValue::Number(4), &NVValue::Number(5), &QueryOperator::LessThan));
    assert!(p.compare_values(&NVValue::Number(5), &NVValue::Number(5), &QueryOperator::LessThanOrEqual));
    // string tests are string-only
    assert!(p.compare_values(&NVValue::String("hello".to_string()), &NVValue::String("he".to_string()), &QueryOperator::StartsWith));
    assert!(p.compare_values(&NVValue::String("hello".to_string()), &NVValue::String("lo".to_string()), &QueryOperator::EndsWith));
    assert!(!p.compare_values(&NVValue::Number(5), &NVValue::String("5".to_string()), &QueryOperator::Contains));
    // membership needs a sequence on the right
    let arr = NVValue::Array(vec![NVValue::Number(1), NVValue::Number(2)]);
    assert!(p.compare_values(&NVValue::Number(2), &arr, &QueryOperator::In));
    assert!(p.compare_values(&NVValue::Number(3), &arr, &QueryOperator::NotIn));
    assert!(!p.compare_values(&NVValue::Number(1), &NVValue::Number(1), &QueryOperator::In));
}

#[test]
fn structural_equality_reaches_arrays_and_objects() {
    let p = QueryProcessor::new();

    let arr1 = NVValue::Array(vec![NVValue::Number(1), NVValue::String("x".to_string())]);
    let arr2 = NVValue::Array(vec![NVValue::Number(1), NVValue::String("x".to_string())]);
    assert!(p.compare_values(&arr1, &arr1, &QueryOperator::Equals));
    assert!(p.compare_values(&arr1, &arr2, &QueryOperator::Equals));

    let reordered = NVValue::Array(vec![NVValue::String("x".to_string()), NVValue::Number(1)]);
    assert!(!p.compare_values(&arr1, &reordered, &QueryOperator::Equals));
    assert!(p.compare_values(&arr1, &reordered, &QueryOperator::NotEquals));

    let obj1 = NVValue::Object(vec![field("k", NVValue::Number(2))]);
    let obj2 = NVValue::Object(vec![field("k", NVValue::Number(2))]);
    let obj3 = NVValue::Object(vec![field("k", NVValue::Number(3))]);
    assert!(p.compare_values(&obj1, &obj1, &QueryOperator::Equals));
    assert!(p.compare_values(&obj1, &obj2, &QueryOperator::Equals));
    assert!(!p.compare_values(&obj1, &obj3, &QueryOperator::Equals));

    // membership uses the same structural equality
    let inner = NVValue::Array(vec![NVValue::Number(1)]);
    let outer = NVValue::Array(vec![NVValue::Array(vec![NVValue::Number(1)])]);
    assert!(p.compare_values(&inner, &outer, &QueryOperator::In));
}

#[test]
fn filter_with_no_conditions_matches_everything() {
    let p = QueryProcessor::new();
    let docs = vec![
        NVDocument::new("one".to_string(), "c".to_string(), vec![]),
        NVDocument::new("two".to_string(), "c".to_string(), vec![]),
    ];
    let q = NVQuery::new("c".to_string());
    assert_eq!(p.filter(docs, &q).unwrap().len(), 2);
}

#[test]
fn string_sort_is_lexicographic() {
    let p = QueryProcessor::new();
    let mk = |id: &str, name: &str| {
        NVDocument::new(
            id.to_string(),
            "c".to_string(),
            vec![field("name", NVValue::String(name.to_string()))],
        )
    };
    let docs = vec![mk("1", "pear"), mk("2", "apple"), mk("3", "orange")];
    let mut q = NVQuery::new("c".to_string());
    q.order_by = Some("name".to_string());
    let sorted = p.filter(docs, &q).unwrap();
    assert_eq!(sorted[0].get("name"), Some(&NVValue::String("apple".to_string())));
    assert_eq!(sorted[1].get("name"), Some(&NVValue::String("orange".to_string())));
    assert_eq!(sorted[2].get("name"), Some(&NVValue::String("pear".to_string())));
}
