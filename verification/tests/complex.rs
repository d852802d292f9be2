use record_store::infer::parse_operator;
use record_store::query::QueryOperator;
use record_store::record::Record;
use record_store::value::ValueOrder;
use record_store::store::Store;
use record_store::value::Value;

fn create_test_store() -> Store {
    let mut store = Store::make_store(
        "Test Store".to_string(),
        vec!["name".to_string(), "age".to_string(), "city".to_string()],
    )
    .unwrap();

    let mut r1 = Record::new();
    r1.insert("name".to_string(), Value::Text("Alice".to_string()));
    r1.insert("age".to_string(), Value::Int(30));
    r1.insert("city".to_string(), Value::Text("Paris".to_string()));
    store.add_record(r1).unwrap();

    let mut r2 = Record::new();
    r2.insert("name".to_string(), Value::Text("Bob".to_string()));
    r2.insert("age".to_string(), Value::Int(25));
    r2.insert("city".to_string(), Value::Text("London".to_string()));
    store.add_record(r2).unwrap();

    let mut r3 = Record::new();
    r3.insert("name".to_string(), Value::Text("Charlie".to_string()));
    r3.insert("age".to_string(), Value::Int(35));
    r3.insert("city".to_string(), Value::Text("Paris".to_string()));
    store.add_record(r3).unwrap();

    store
}

#[test]
fn test_filter() {
    let store = create_test_store();
    let result = store.filter("city", "Paris").unwrap();
    assert_eq!(result.len(), 2);
}

#[test]
fn test_filter_non_existent_attribute() {
    let store = create_test_store();
    let result = store.filter("country", "France");
    assert!(result.is_err());
}

#[test]
fn test_filter_attributes() {
    let store = create_test_store();
    let attributes = vec!["name".to_string(), "city".to_string()];
    let values = vec!["Alice".to_string(), "Paris".to_string()];
    let result = store.filter_attributes(&attributes, &values).unwrap();
    assert_eq!(result.len(), 1);
}

#[test]
fn test_sort_by() {
    let store = create_test_store();
    let result = store.sort_by("age", true).unwrap();
    let ages: Vec<i64> = result
        .iter()
        .map(|(_, v)| match v.get("age").unwrap() {
            Value::Int(i) => *i,
            _ => panic!("age should be an integer"),
        })
        .collect();
    assert_eq!(ages, vec![25, 30, 35]);
}

#[test]
fn test_query_equal() {
    let store = create_test_store();
    let result = store
        .query("age", QueryOperator::Eq, Value::Int(30))
        .unwrap();
    assert_eq!(result.len(), 1);
}

#[test]
fn test_query_greater_than() {
    let store = create_test_store();
    let result = store
        .query("age", QueryOperator::Gt, Value::Int(30))
        .unwrap();
    assert_eq!(result.len(), 1);
}

#[test]
fn test_filter_numeric_value_never_matches_text_probe() {
    // storing age as a number means a text probe finds nothing,
    // even though the display form agrees
    let store = create_test_store();
    let result = store.filter("age", "30").unwrap();
    assert_eq!(result.len(), 0);
}

#[test]
fn test_filter_attributes_length_mismatch() {
    let store = create_test_store();
    let attributes = vec!["name".to_string(), "city".to_string()];
    let values = vec!["Alice".to_string()];
    let result = store.filter_attributes(&attributes, &values);
    assert_eq!(result.unwrap_err(), record_store::Error::InvalidInput);
}

#[test]
fn test_query_eq_neq_partition() {
    let store = create_test_store();
    let eq = store
        .query("age", QueryOperator::Eq, Value::Int(30))
        .unwrap();
    let neq = store
        .query("age", QueryOperator::Neq, Value::Int(30))
        .unwrap();
    // every record has "age", so the two results partition all three
    assert_eq!(eq.len() + neq.len(), 3);
    for (id, _) in &eq {
        assert!(!neq.iter().any(|(j, _)| j == id));
    }
}

#[test]
fn test_query_contains() {
    let store = create_test_store();
    let result = store
        .query(
            "name",
            QueryOperator::Contains,
            Value::Text("li".to_string()),
        )
        .unwrap();
    // Alice and Charlie contain "li"
    assert_eq!(result.len(), 2);
}

#[test]
fn test_query_relational_ignores_text() {
    let store = create_test_store();
    // Gt between a text value and a numeric probe never matches
    let result = store
        .query("name", QueryOperator::Gt, Value::Int(0))
        .unwrap();
    assert_eq!(result.len(), 0);
}

#[test]
fn test_sort_desc_reverses_comparable_entries() {
    let store = create_test_store();
    let asc = store.sort_by("age", true).unwrap();
    let desc = store.sort_by("age", false).unwrap();
    let up: Vec<i64> = asc.iter().map(|(id, _)| *id).collect();
    let mut down: Vec<i64> = desc.iter().map(|(id, _)| *id).collect();
    down.reverse();
    assert_eq!(up, down);
}

#[test]
fn test_sort_stability_for_ties() {
    let mut store = Store::make_store("t".to_string(), vec!["k".to_string()]).unwrap();
    for name in ["a", "b", "c"] {
        let mut r = Record::new();
        r.insert("k".to_string(), Value::Int(1));
        r.insert("n".to_string(), Value::Text(name.to_string()));
        store.add_record(r).unwrap();
    }
    // all tied on "k": both passes keep insertion order
    let asc = store.sort_by("k", true).unwrap();
    let desc = store.sort_by("k", false).unwrap();
    let ids_asc: Vec<i64> = asc.iter().map(|(id, _)| *id).collect();
    let ids_desc: Vec<i64> = desc.iter().map(|(id, _)| *id).collect();
    assert_eq!(ids_asc, vec![0, 1, 2]);
    assert_eq!(ids_desc, vec![0, 1, 2]);
}

#[test]
fn test_infer_order() {
    assert_eq!(Value::infer("30"), Value::Int(30));
    assert_eq!(
        Value::infer("30.5"),
        Value::Dec(record_store::value::Decimal { man: 305, scale: 1 })
    );
    assert_eq!(Value::infer("true"), Value::Bool(true));
    assert_eq!(Value::infer("TRUE"), Value::Bool(true));
    assert_eq!(Value::infer("false"), Value::Bool(false));
    assert_eq!(Value::infer("abc"), Value::Text("abc".to_string()));
    assert_eq!(Value::infer("-12"), Value::Int(-12));
    assert_eq!(
        Value::infer("30.50"),
        Value::Dec(record_store::value::Decimal { man: 305, scale: 1 })
    );
    assert_eq!(Value::infer("1e5"), Value::Text("1e5".to_string()));
}

#[test]
fn test_parse_operator_keywords() {
    assert_eq!(parse_operator("eq"), Some(QueryOperator::Eq));
    assert_eq!(parse_operator("NEQ"), Some(QueryOperator::Neq));
    assert_eq!(parse_operator("gt"), Some(QueryOperator::Gt));
    assert_eq!(parse_operator("lt"), Some(QueryOperator::Lt));
    assert_eq!(parse_operator("ge"), Some(QueryOperator::Ge));
    assert_eq!(parse_operator("le"), Some(QueryOperator::Le));
    assert_eq!(parse_operator("contains"), Some(QueryOperator::Contains));
    assert_eq!(parse_operator("between"), None);
}

#[test]
fn test_value_equality_is_structural() {
    let five_int = Value::Int(5);
    let five_dec = Value::infer("5.0");
    // equal numeric readings, different kinds: never equal
    assert_ne!(five_int, five_dec);
}

#[test]
fn test_numeric_comparison_across_kinds() {
    let a = Value::Int(30);
    let b = Value::infer("30.0");
    // Int 30 and Dec 30.0 compare as equal numerically
    assert_eq!(a.compare(&b), ValueOrder::Equal);
    let c = Value::infer("29.5");
    assert_eq!(a.compare(&c), ValueOrder::Greater);
    let t = Value::Text("x".to_string());
    assert_eq!(a.compare(&t), ValueOrder::Unordered);
}
