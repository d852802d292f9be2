use record_store::database::Database;
use record_store::record::Record;
use record_store::value::Value;

fn setup_database() -> Database {
    Database::new("test_db").unwrap()
}

#[test]
fn test_add_store() {
    let mut db = setup_database();
    let attributes = vec!["name".to_string(), "age".to_string()];

    assert!(db.add_store("users".to_string(), attributes).is_ok());
    assert!(db.get_store("users").is_some());
}

#[test]
fn test_get_store() {
    let mut db = setup_database();
    let attributes = vec!["email".to_string()];

    db.add_store("contacts".to_string(), attributes).unwrap();
    let store = db.get_store("contacts");
    assert!(store.is_some());
}

#[test]
fn test_get_store_mut() {
    let mut db = setup_database();
    let attributes = vec!["score".to_string()];

    db.add_store("leaderboard".to_string(), attributes).unwrap();
    let store_mut = db.get_store_mut("leaderboard");
    assert!(store_mut.is_some());
}

#[test]
fn test_delete_store() {
    let mut db = setup_database();
    let attributes = vec!["location".to_string()];

    db.add_store("places".to_string(), attributes).unwrap();
    assert!(db.get_store("places").is_some());

    db.delete_store("places");
    assert!(db.get_store("places").is_none());
}

#[test]
fn test_store_and_load_database() {
    let mut db = setup_database();
    let attributes = vec!["username".to_string()];

    db.add_store("accounts".to_string(), attributes).unwrap();
    let json = db.to_json();

    let loaded_db = Database::from_json("test_db", json.as_str()).unwrap();
    assert!(loaded_db.get_store("accounts").is_some());
}

#[test]
fn test_round_trip_preserves_stores() {
    let mut db = Database::new("d").unwrap();
    db.add_store(
        "people".to_string(),
        vec!["name".to_string(), "age".to_string()],
    )
    .unwrap();
    {
        let store = db.get_store_mut("people").unwrap();
        let mut alice = Record::new();
        alice.insert("name".to_string(), Value::Text("Al\"ice\\".to_string()));
        alice.insert("age".to_string(), Value::Int(30));
        alice.insert("height".to_string(), Value::infer("1.75"));
        alice.insert("member".to_string(), Value::Bool(true));
        store.add_record(alice).unwrap();
        let mut bob = Record::new();
        bob.insert("name".to_string(), Value::Text("Bob".to_string()));
        bob.insert("age".to_string(), Value::Int(-25));
        let bid = store.add_record(bob).unwrap();
        store.delete_record(bid).unwrap();
    }

    let json = db.to_json();
    let mut loaded = Database::from_json("d", json.as_str()).unwrap();
    // writing the loaded state again gives the same text
    assert_eq!(json, loaded.to_json());
    // the id counter was kept: a fresh record does not reuse Bob's id
    let mut carol = Record::new();
    carol.insert("name".to_string(), Value::Text("Carol".to_string()));
    let s = loaded.get_store_mut("people").unwrap();
    let cid = s.add_record(carol).unwrap();
    assert_eq!(cid, 2);
    // and the record contents came back exactly
    let rec = s.get_record(0).unwrap();
    assert_eq!(rec.get("name").unwrap(), &Value::Text("Al\"ice\\".to_string()));
    assert_eq!(rec.get("age").unwrap(), &Value::Int(30));
    assert_eq!(rec.get("member").unwrap(), &Value::Bool(true));
}

#[test]
fn test_from_json_rejects_bad_shape() {
    assert_eq!(
        Database::from_json("x", "not json").unwrap_err(),
        record_store::Error::DeserializationError
    );
    assert_eq!(
        Database::from_json("x", "{\"a\":1}").unwrap_err(),
        record_store::Error::DeserializationError
    );
    assert!(Database::from_json("x", "{}").is_ok());
}

#[test]
fn test_add_store_replaces_same_name() {
    let mut db = setup_database();
    db.add_store("users".to_string(), vec!["a".to_string()]).unwrap();
    {
        let s = db.get_store_mut("users").unwrap();
        let mut r = Record::new();
        r.insert("a".to_string(), Value::Int(1));
        s.add_record(r).unwrap();
    }
    db.add_store("users".to_string(), vec!["b".to_string()]).unwrap();
    // the name now maps to the fresh, empty store
    let s = db.get_store("users").unwrap();
    assert_eq!(s.get_all_records().unwrap().len(), 0);
}
