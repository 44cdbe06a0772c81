use ezadb::engine::{initialize_db, DBState};
use ezadb::kv::{get, multi_set, scan};
use ezadb::rows::{get_by_col, get_row, insert_row, update_row};
use ezadb::smap::StrMap;

fn setup() -> DBState {
    initialize_db(Vec::new(), Vec::new())
}

#[test]
fn test_set() {
    let mut db = setup();
    let res = ezadb::kv::set(&mut db, String::from("hello"), String::from("world")).unwrap();
    assert_eq!(res, "Set key: hello to value: world");
}

#[test]
fn test_multi_set() {
    let mut db = setup();
    let mut keyvals: StrMap<String> = StrMap::new();
    keyvals.insert("hello".to_string(), "world".to_string());
    keyvals.insert("foo".to_string(), "bar".to_string());
    multi_set(&mut db, keyvals).unwrap();
    assert_eq!(
        get(&mut db, "hello".to_string()).unwrap(),
        "world".to_string()
    );
    assert_eq!(get(&mut db, "foo".to_string()).unwrap(), "bar".to_string());
}

#[test]
fn test_rows() {
    let mut db = setup();
    let mut record0: StrMap<String> = StrMap::new();
    record0.insert("name".to_string(), "charles darwin".to_string());
    record0.insert("job".to_string(), "biologist".to_string());
    let mut record1: StrMap<String> = StrMap::new();
    record1.insert("name".to_string(), "rosalind franklin".to_string());
    record1.insert("job".to_string(), "chemist".to_string());
    let mut record2: StrMap<String> = StrMap::new();
    record2.insert("name".to_string(), "carmen sandiego".to_string());
    record2.insert("job".to_string(), "incognito person".to_string());
    insert_row(&mut db, "people", &record0).expect("Failed to insert row.");
    insert_row(&mut db, "people", &record1).expect("Failed to insert row.");
    insert_row(&mut db, "people", &record2).expect("Failed to insert row.");
    let rec = get_row(&mut db, "people", 1);
    assert_eq!(
        rec.get("name").expect("Failed to find name in record").as_str(),
        "rosalind franklin"
    );
    assert_eq!(
        rec.get("job").expect("Failed to find job in record").as_str(),
        "chemist"
    );
}

#[test]
fn test_update_row() {
    let mut db = setup();
    let mut record: StrMap<String> = StrMap::new();
    record.insert("foo".to_string(), "bar".to_string());
    let id = insert_row(&mut db, "testtable", &record).unwrap();
    let rec = get_row(&mut db, "testtable", id);
    assert_eq!(rec.get("foo").unwrap().as_str(), "bar");

    record.insert("foo".to_string(), "baz".to_string());
    update_row(&mut db, "testtable", id, &record).unwrap();
    let rec = get_row(&mut db, "testtable", id);
    assert_eq!(rec.get("foo").unwrap().as_str(), "baz");
}

#[test]
fn test_get_by_col() {
    let mut db = setup();
    let mut record0: StrMap<String> = StrMap::new();
    record0.insert("foo".to_string(), "bar".to_string());
    record0.insert("other_key".to_string(), "other_value".to_string());
    insert_row(&mut db, "testtable", &record0).unwrap();
    let mut record1: StrMap<String> = StrMap::new();
    record1.insert("foo".to_string(), "not-looked-for".to_string());
    record1.insert("other_key".to_string(), "not-loooked-for".to_string());
    insert_row(&mut db, "testtable", &record1).unwrap();
    let rec = get_by_col(&mut db, "testtable", "foo".to_string(), "bar".to_string()).unwrap();
    assert_eq!(rec.get("other_key").unwrap().as_str(), "other_value");
}

#[test]
fn test_get() {
    let mut db = setup();
    ezadb::kv::set(&mut db, String::from("hello"), String::from("world")).unwrap();
    let res = get(&mut db, String::from("hello")).unwrap();
    assert_eq!(res, String::from("world"));
}

#[test]
fn test_scan() {
    let mut db = setup();
    ezadb::kv::set(&mut db, "3".to_string(), "should-be-ignored".to_string()).unwrap();
    let mut keyvals: StrMap<String> = StrMap::new();
    keyvals.insert("1".to_string(), "first".to_string());
    keyvals.insert("2".to_string(), "second".to_string());
    keyvals.insert("3".to_string(), "third".to_string());
    keyvals.insert("4".to_string(), "fourth".to_string());
    keyvals.insert("5".to_string(), "fifth".to_string());
    multi_set(&mut db, keyvals).unwrap();
    let res = scan(&mut db, "2".to_string(), "3".to_string());
    assert_eq!(res, vec!["second".to_string(), "third".to_string()]);
}

#[test]
fn test_crashed() {
    // Writes land in the store, but the log is lost before the restart: the
    // recovered status table is empty, so the surviving versions stay
    // invisible forever.
    let crashed_entries = {
        let mut setup_state = setup();
        let mut crashed_keyvals: StrMap<String> = StrMap::new();
        crashed_keyvals.insert("hello".to_string(), "world".to_string());
        crashed_keyvals.insert("foo".to_string(), "bar".to_string());
        multi_set(&mut setup_state, crashed_keyvals).expect("Cannot set multiple keys.");
        setup_state.db.entries.clone()
    };

    let mut db = initialize_db(crashed_entries, Vec::new());
    let mut good_keyvals: StrMap<String> = StrMap::new();
    good_keyvals.insert("good_hello".to_string(), "good_world".to_string());
    good_keyvals.insert("good_foo".to_string(), "good_bar".to_string());
    multi_set(&mut db, good_keyvals).expect("Cannot set multiple keys.");

    assert_eq!(
        get(&mut db, String::from("hello")),
        Err("Not found!".to_string())
    );
    let res = get(&mut db, String::from("good_hello")).unwrap();
    assert_eq!(res, String::from("good_world"));
}
