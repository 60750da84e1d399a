use sourisdb::client::CreationResult;
use sourisdb::sourisd::error::SourisError;
use sourisdb::sourisd::v1_routes::state::SourisState;
use sourisdb::sourisd::v1_routes::value::{KeyAndDb, NewKeyArgs};
use sourisdb::store::Store;
use sourisdb::values::Value;

fn add(state: &mut SourisState, db: &str, key: &str, v: Value, create: bool, overwrite: bool) -> CreationResult {
    state.add_key_value_pair(
        NewKeyArgs {
            db_name: db.to_string(),
            key: key.to_string(),
            create_new_database: create,
            overwrite_key: overwrite,
        },
        v,
    )
}

fn get<'a>(state: &'a SourisState, db: &str, key: &str) -> Result<&'a Value, SourisError> {
    state.get_value(KeyAndDb { db_name: db.to_string(), key: key.to_string() })
}

#[test]
fn new_db_creates_then_finds() {
    let mut state = SourisState::new();
    assert_eq!(state.new_db("a".to_string(), false).unwrap(), 201);
    assert_eq!(state.new_db("a".to_string(), false).unwrap(), 200);
    assert_eq!(state.get_all_db_names(), vec!["a".to_string()]);
}

#[test]
fn new_db_refuses_bad_names() {
    let mut state = SourisState::new();
    assert!(matches!(state.new_db("meta".to_string(), false), Err(SourisError::InvalidDatabaseName)));
    assert!(matches!(state.new_db("café".to_string(), false), Err(SourisError::InvalidDatabaseName)));
    assert!(state.get_all_db_names().is_empty());
}

#[test]
fn new_db_with_overwrite_empties() {
    let mut state = SourisState::new();
    add(&mut state, "a", "k", Value::Boolean(true), true, false);
    assert_eq!(state.new_db("a".to_string(), false).unwrap(), 200);
    assert!(get(&state, "a", "k").is_ok());
    assert_eq!(state.new_db("a".to_string(), true).unwrap(), 200);
    assert!(matches!(get(&state, "a", "k"), Err(SourisError::KeyNotFound)));
}

#[test]
fn add_key_value_pair_reports_what_happened() {
    let mut state = SourisState::new();
    assert_eq!(add(&mut state, "db", "k", Value::Boolean(true), false, false), CreationResult::UnableToFindDB);
    assert!(matches!(get(&state, "db", "k"), Err(SourisError::DatabaseNotFound)));
    assert_eq!(add(&mut state, "db", "k", Value::Boolean(true), true, false), CreationResult::InsertedKeyIntoNewDB);
    assert_eq!(get(&state, "db", "k").unwrap(), &Value::Boolean(true));
    assert_eq!(add(&mut state, "db", "k", Value::Boolean(false), true, false), CreationResult::FoundExistingKey);
    assert_eq!(get(&state, "db", "k").unwrap(), &Value::Boolean(true));
    assert_eq!(add(&mut state, "db", "k", Value::Boolean(false), true, true), CreationResult::OverwroteKeyInExistingDB);
    assert_eq!(get(&state, "db", "k").unwrap(), &Value::Boolean(false));
    assert_eq!(add(&mut state, "db", "k2", Value::Null(()), false, false), CreationResult::InsertedKeyIntoExistingDB);
    assert_eq!(get(&state, "db", "k2").unwrap(), &Value::Null(()));
}

#[test]
fn remove_key_then_get_finds_nothing() {
    let mut state = SourisState::new();
    add(&mut state, "db", "k", Value::Boolean(true), true, false);
    assert!(matches!(
        state.remove_key(KeyAndDb { db_name: "db".to_string(), key: "missing".to_string() }),
        Err(SourisError::KeyNotFound)
    ));
    assert!(matches!(
        state.remove_key(KeyAndDb { db_name: "nope".to_string(), key: "k".to_string() }),
        Err(SourisError::DatabaseNotFound)
    ));
    assert!(state.remove_key(KeyAndDb { db_name: "db".to_string(), key: "k".to_string() }).is_ok());
    assert!(matches!(get(&state, "db", "k"), Err(SourisError::KeyNotFound)));
}

#[test]
fn clear_and_remove_db() {
    let mut state = SourisState::new();
    add(&mut state, "a", "k", Value::Boolean(true), true, false);
    add(&mut state, "b", "k", Value::Boolean(true), true, false);
    assert!(state.clear_db("a".to_string()).is_ok());
    assert!(state.get_db("a").unwrap().is_empty());
    assert!(matches!(state.clear_db("c".to_string()), Err(SourisError::DatabaseNotFound)));
    assert!(state.remove_db("a".to_string()).is_ok());
    assert!(matches!(state.get_db("a"), Err(SourisError::DatabaseNotFound)));
    assert!(matches!(state.remove_db("a".to_string()), Err(SourisError::DatabaseNotFound)));
    assert_eq!(state.get_all_db_names(), vec!["b".to_string()]);
}

#[test]
fn new_db_with_contents_merges_or_replaces() {
    let mut state = SourisState::new();
    let mut first = Store::new();
    first.insert("x".to_string(), Value::Boolean(true));
    assert_eq!(state.new_db_with_contents("a".to_string(), false, first), 200);

    let mut second = Store::new();
    second.insert("y".to_string(), Value::Boolean(false));
    assert_eq!(state.new_db_with_contents("a".to_string(), false, second), 201);
    assert_eq!(get(&state, "a", "x").unwrap(), &Value::Boolean(true));
    assert_eq!(get(&state, "a", "y").unwrap(), &Value::Boolean(false));

    let mut third = Store::new();
    third.insert("z".to_string(), Value::Null(()));
    assert_eq!(state.new_db_with_contents("a".to_string(), true, third), 201);
    assert!(matches!(get(&state, "a", "x"), Err(SourisError::KeyNotFound)));
    assert_eq!(get(&state, "a", "z").unwrap(), &Value::Null(()));
}

#[test]
fn meta_store_lists_names() {
    let meta = SourisState::meta_with_names(vec!["one".to_string(), "two".to_string()]);
    assert_eq!(
        SourisState::db_names_in_meta(&meta),
        Some(vec!["one".to_string(), "two".to_string()])
    );
    assert_eq!(SourisState::db_names_in_meta(&Store::new()), None);

    let mut mixed = Store::new();
    mixed.insert(
        "existing_dbs".to_string(),
        Value::Array(vec![Value::String("a".to_string()), Value::Boolean(true), Value::String("b".to_string())]),
    );
    assert_eq!(SourisState::db_names_in_meta(&mixed), Some(vec!["a".to_string(), "b".to_string()]));
}

#[test]
fn error_status_codes() {
    assert_eq!(SourisError::DatabaseNotFound.status_code(), 404);
    assert_eq!(SourisError::KeyNotFound.status_code(), 404);
    assert_eq!(SourisError::InvalidDatabaseName.status_code(), 400);
}
