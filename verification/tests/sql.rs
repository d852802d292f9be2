use record_store::database::Database;
use record_store::record::Record;
use record_store::store::Store;
use record_store::value::Value;

#[test]
fn test_to_sql_create_table() {
    let store = Store::make_store(
        "test".to_string(),
        vec!["name".to_string(), "age".to_string()],
    )
    .unwrap();
    let sql = store.to_sql_create_table("users").unwrap();
    assert_eq!(
        sql.as_str(),
        "CREATE TABLE users (id INTEGER PRIMARY KEY, age TEXT, name TEXT);"
    );
}

#[test]
fn test_to_sql_inserts() {
    let mut user1 = Record::new();
    user1.insert("name".to_string(), Value::Text("Alice".to_string()));
    user1.insert("age".to_string(), Value::Int(25));

    let mut user2 = Record::new();
    user2.insert("name".to_string(), Value::Text("Bob".to_string()));
    user2.insert("age".to_string(), Value::Int(30));

    let mut store = Store::make_store(
        "test".to_string(),
        vec!["name".to_string(), "age".to_string()],
    )
    .unwrap();
    store.add_record(user1).unwrap();
    store.add_record(user2).unwrap();

    let sql_inserts = store.to_sql_inserts("users").unwrap();
    assert_eq!(sql_inserts.len(), 2);

    assert!(sql_inserts
        .contains(&"INSERT INTO users (id, age, name) VALUES (0, '25', 'Alice');".to_string()));
    assert!(sql_inserts
        .contains(&"INSERT INTO users (id, age, name) VALUES (1, '30', 'Bob');".to_string()));
}

#[test]
fn test_to_sql_select() {
    let store = Store::make_store(
        "test".to_string(),
        vec!["name".to_string(), "age".to_string()],
    )
    .unwrap();

    let sql_all = store.to_sql_select("users", None);
    assert_eq!(sql_all.as_str(), "SELECT * FROM users;");

    let sql_specific = store.to_sql_select("users", Some(vec!["name", "age"]));
    assert_eq!(sql_specific.as_str(), "SELECT name, age FROM users;");
}

#[test]
fn test_to_sql_delete() {
    let store = Store::make_store("test".to_string(), Vec::new()).unwrap();
    let sql_delete = store.to_sql_delete("users", "id = 1");
    assert_eq!(sql_delete.as_str(), "DELETE FROM users WHERE id = 1;");
}

#[test]
fn test_to_sql_update() {
    let store = Store::make_store("test".to_string(), Vec::new()).unwrap();
    let mut updates = Record::new();
    updates.insert("name".to_string(), Value::Text("Charlie".to_string()));
    updates.insert("age".to_string(), Value::Int(28));
    let sql_update = store.to_sql_update("users", 1, &updates);
    assert_eq!(
        sql_update.as_str(),
        "UPDATE users SET name = 'Charlie', age = 28 WHERE id = 1;"
    );
}

#[test]
fn test_database_to_sql_create() {
    let db = Database::new("test_db").unwrap();
    let sql_create = db.to_sql_create().unwrap();
    assert_eq!(sql_create.as_str(), "CREATE DATABASE test_db;");
}

#[test]
fn test_database_to_sql_drop() {
    let db = Database::new("test_db").unwrap();
    let sql_drop = db.to_sql_drop().unwrap();
    assert_eq!(sql_drop.as_str(), "DROP DATABASE test_db;");
}

#[test]
fn test_database_convert_to_sql() {
    let mut db = Database::new("test_db").unwrap();
    db.add_store(
        "users".to_string(),
        vec!["name".to_string(), "age".to_string()],
    )
    .unwrap();
    {
        let store = db.get_store_mut("users").unwrap();
        // occupy id 0 with a placeholder, then delete it, so the record
        // of interest sits at id 1 as in the expected statements
        let mut placeholder = Record::new();
        placeholder.insert("name".to_string(), Value::Text("x".to_string()));
        let first = store.add_record(placeholder).unwrap();
        let mut alice = Record::new();
        alice.insert("name".to_string(), Value::Text("Alice".to_string()));
        alice.insert("age".to_string(), Value::Int(25));
        store.add_record(alice).unwrap();
        store.delete_record(first).unwrap();
    }

    let sql_script = db.convert_to_sql().unwrap();
    assert!(sql_script.contains("CREATE DATABASE test_db;"));
    assert!(sql_script.contains("CREATE TABLE users (id INTEGER PRIMARY KEY, age TEXT, name TEXT);"));
    assert!(sql_script.contains("INSERT INTO users (id, age, name) VALUES (1, '25', 'Alice');"));
    assert!(sql_script.contains("DROP DATABASE test_db;"));
}

#[test]
fn test_sql_quote_escaping() {
    let mut store = Store::make_store("test".to_string(), vec!["name".to_string()]).unwrap();
    let mut rec = Record::new();
    rec.insert("name".to_string(), Value::Text("O'Hara".to_string()));
    store.add_record(rec).unwrap();
    let inserts = store.to_sql_inserts("users").unwrap();
    assert_eq!(
        inserts[0].as_str(),
        "INSERT INTO users (id, name) VALUES (0, 'O''Hara');"
    );
}

#[test]
fn test_sql_values_quoted_by_kind() {
    let mut store = Store::make_store("test".to_string(), Vec::new()).unwrap();
    let mut rec = Record::new();
    rec.insert("flag".to_string(), Value::Bool(true));
    rec.insert("score".to_string(), Value::infer("2.5"));
    store.add_record(rec).unwrap();
    let inserts = store.to_sql_inserts("t").unwrap();
    // inserts quote every value; updates leave non-text values bare
    assert_eq!(
        inserts[0].as_str(),
        "INSERT INTO t (id, flag, score) VALUES (0, 'true', '2.5');"
    );
    let mut updates = Record::new();
    updates.insert("flag".to_string(), Value::Bool(false));
    updates.insert("who".to_string(), Value::Text("O'Hara".to_string()));
    let upd = store.to_sql_update("t", 0, &updates);
    assert_eq!(
        upd.as_str(),
        "UPDATE t SET flag = false, who = 'O''Hara' WHERE id = 0;"
    );
}

#[test]
fn test_full_script_order() {
    let mut db = Database::new("d").unwrap();
    db.add_store("s".to_string(), vec!["a".to_string()]).unwrap();
    let script = db.convert_to_sql().unwrap();
    assert_eq!(
        script.as_str(),
        "CREATE DATABASE d;\nCREATE TABLE s (id INTEGER PRIMARY KEY, a TEXT);\nDROP DATABASE d;\n"
    );
}
