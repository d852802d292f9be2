use record_store::record::Record;
use record_store::store::Store;
use record_store::value::Value;

fn new_store() -> Store {
    Store::new().unwrap()
}

#[test]
fn test_add_record() {
    let mut store = new_store();
    let mut record = Record::new();
    record.insert("name".to_string(), Value::Text("Alice".to_string()));
    record.insert("age".to_string(), Value::Int(30));

    let record_id = store.add_record(record).unwrap();
    assert_eq!(record_id, 0);
}

#[test]
fn test_get_record() {
    let mut store = new_store();
    let mut record = Record::new();
    record.insert("name".to_string(), Value::Text("Bob".to_string()));
    record.insert("age".to_string(), Value::Int(25));

    let record_id = store.add_record(record).unwrap();
    let retrieved_record = store.get_record(record_id).unwrap();

    assert_eq!(retrieved_record.len(), 2);
    assert_eq!(
        retrieved_record.get("name").unwrap(),
        &Value::Text("Bob".to_string())
    );
    assert_eq!(retrieved_record.get("age").unwrap(), &Value::Int(25));
}

#[test]
fn test_delete_record() {
    let mut store = new_store();
    let mut record = Record::new();
    record.insert("name".to_string(), Value::Text("Charlie".to_string()));
    record.insert("age".to_string(), Value::Int(22));

    let record_id = store.add_record(record).unwrap();
    assert!(store.get_record(record_id).is_ok());

    store.delete_record(record_id).unwrap();
    assert!(store.get_record(record_id).is_err());
}

#[test]
fn test_update_record() {
    let mut store = new_store();
    let mut record = Record::new();
    record.insert("name".to_string(), Value::Text("Dave".to_string()));
    record.insert("age".to_string(), Value::Int(35));

    let record_id = store.add_record(record).unwrap();

    let mut updated_record = Record::new();
    updated_record.insert("name".to_string(), Value::Text("David".to_string()));
    updated_record.insert("age".to_string(), Value::Int(36));

    store.update_record(record_id, updated_record).unwrap();

    let updated_record = store.get_record(record_id).unwrap();
    assert_eq!(updated_record.len(), 2);
    assert_eq!(
        updated_record.get("name").unwrap(),
        &Value::Text("David".to_string())
    );
    assert_eq!(updated_record.get("age").unwrap(), &Value::Int(36));
}

#[test]
fn test_get_all_records() {
    let mut store = new_store();
    let mut record1 = Record::new();
    record1.insert("name".to_string(), Value::Text("Eve".to_string()));
    record1.insert("age".to_string(), Value::Int(28));

    let mut record2 = Record::new();
    record2.insert("name".to_string(), Value::Text("Frank".to_string()));
    record2.insert("age".to_string(), Value::Int(40));

    store.add_record(record1).unwrap();
    store.add_record(record2).unwrap();

    let all_records = store.get_all_records().unwrap();
    assert_eq!(all_records.len(), 2);
}

#[test]
fn test_deleted_id_never_reused() {
    let mut store = new_store();
    let mut r1 = Record::new();
    r1.insert("name".to_string(), Value::Text("Gina".to_string()));
    let id1 = store.add_record(r1).unwrap();
    store.delete_record(id1).unwrap();

    let mut r2 = Record::new();
    r2.insert("name".to_string(), Value::Text("Hugo".to_string()));
    let id2 = store.add_record(r2).unwrap();
    assert_ne!(id1, id2);
    assert!(id2 > id1);
}

#[test]
fn test_delete_record_not_found() {
    let mut store = new_store();
    assert_eq!(
        store.delete_record(7),
        Err(record_store::Error::NotFound)
    );
}

#[test]
fn test_add_record_widens_attributes() {
    let mut store = Store::make_store("people".to_string(), vec!["name".to_string()]).unwrap();
    let mut r = Record::new();
    r.insert("name".to_string(), Value::Text("Ivy".to_string()));
    r.insert("city".to_string(), Value::Text("Paris".to_string()));
    store.add_record(r).unwrap();
    // the unseen attribute was adopted: filtering by it is now allowed
    let hits = store.filter("city", "Paris").unwrap();
    assert_eq!(hits.len(), 1);
}
