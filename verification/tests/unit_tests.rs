use ezadb::engine::{get_mutex, initialize_db, mem_get, wal_new_tx, DBState};
use ezadb::index;
use ezadb::keys::{bytes_to_string, col, data_tx_id, data_value, is_meta, primary_key, row_tx_id,
    table_name};
use ezadb::kv::{get, multi_set, scan};
use ezadb::numstr::{canon_str, dec_str, parse_u64};
use ezadb::rows::{get_by_col, get_row, insert_row, table_next_id, update_row};
use ezadb::smap::StrMap;
use ezadb::strutil::{str_eq, str_le, str_lt};
use ezadb::wal::wal_recover;

fn setup() -> DBState {
    initialize_db(Vec::new(), Vec::new())
}

#[test]
fn test_banner() {
    assert_eq!(index(), "Eza DB!");
}

#[test]
fn test_empty_store() {
    let mut db = setup();
    assert_eq!(get(&mut db, "x".to_string()), Err("Not found!".to_string()));
    let res = scan(&mut db, "a".to_string(), "z".to_string());
    assert_eq!(res, Vec::<String>::new());
}

#[test]
fn test_newest_wins_two_sets() {
    let mut db = setup();
    ezadb::kv::set(&mut db, "k".to_string(), "old".to_string()).unwrap();
    ezadb::kv::set(&mut db, "k".to_string(), "new".to_string()).unwrap();
    assert_eq!(get(&mut db, "k".to_string()).unwrap(), "new".to_string());
}

#[test]
fn test_monotonic_tx_ids() {
    let mut db = setup();
    let t1 = wal_new_tx(&mut db);
    let t2 = wal_new_tx(&mut db);
    let t3 = wal_new_tx(&mut db);
    assert!(t1.id < t2.id);
    assert!(t2.id < t3.id);
    assert_eq!(t1.id.len(), 20);
}

#[test]
fn test_insert_ids_sequential() {
    let mut db = setup();
    let mut record: StrMap<String> = StrMap::new();
    record.insert("c".to_string(), "v".to_string());
    let id0 = insert_row(&mut db, "people", &record).unwrap();
    let id1 = insert_row(&mut db, "people", &record).unwrap();
    let id2 = insert_row(&mut db, "people", &record).unwrap();
    assert_eq!(id0, 0);
    assert_eq!(id1, 1);
    assert_eq!(id2, 2);
}

#[test]
fn test_auto_increment_per_table() {
    let mut db = setup();
    assert_eq!(table_next_id(&mut db, "a"), 0);
    assert_eq!(table_next_id(&mut db, "a"), 1);
    assert_eq!(table_next_id(&mut db, "b"), 0);
    assert_eq!(table_next_id(&mut db, "a"), 2);
}

#[test]
fn test_meta_excluded_from_scan() {
    // The auto-increment counter lives under a meta key; a scan across the
    // whole keyspace never hands its value ("1") out.
    let mut db = setup();
    let mut record: StrMap<String> = StrMap::new();
    record.insert("c".to_string(), "v".to_string());
    insert_row(&mut db, "t", &record).unwrap();
    let res = scan(&mut db, "*".to_string(), "~".to_string());
    assert!(!res.contains(&"1".to_string()));
    assert!(res.contains(&"v".to_string()));
}

#[test]
fn test_recovery_preserves_committed_writes() {
    // A restart that replays the surviving log sees the committed value.
    let (entries, wal) = {
        let mut db = setup();
        ezadb::kv::set(&mut db, "hello".to_string(), "world".to_string()).unwrap();
        (db.db.entries.clone(), db.wal.clone())
    };
    let mut db = initialize_db(entries, wal);
    assert_eq!(get(&mut db, "hello".to_string()).unwrap(), "world".to_string());
}

#[test]
fn test_recovery_cache() {
    // Startup warms the cache with the newest committed value per key.
    let (entries, wal) = {
        let mut db = setup();
        ezadb::kv::set(&mut db, "k".to_string(), "v1".to_string()).unwrap();
        ezadb::kv::set(&mut db, "k".to_string(), "v2".to_string()).unwrap();
        (db.db.entries.clone(), db.wal.clone())
    };
    let db = initialize_db(entries, wal);
    assert_eq!(mem_get(&db, "k".to_string()), Ok("v2".to_string()));
    assert_eq!(mem_get(&db, "zzz".to_string()), Err("Not found!".to_string()));
}

#[test]
fn test_wal_recover_lines() {
    let lines = vec![
        "7:false".to_string(),
        "7:somekey:somevalue".to_string(),
        "7:true".to_string(),
        "8:false".to_string(),
        "garbage line".to_string(),
    ];
    let txs = wal_recover(&lines);
    assert_eq!(txs.get("7"), Some(&true));
    assert_eq!(txs.get("8"), Some(&false));
    assert_eq!(txs.get("garbage line"), None);
}

#[test]
fn test_pending_tx_invisible() {
    // A log whose trail for a transaction ends at BEGIN leaves its data
    // invisible: the store holds the version, but it never committed.
    let entries = vec![("k:00000000000000000005".to_string(), "v".to_string())];
    let wal = vec!["00000000000000000005:false".to_string()];
    let mut db = initialize_db(entries, wal);
    assert_eq!(get(&mut db, "k".to_string()), Err("Not found!".to_string()));
}

#[test]
fn test_committed_tx_visible_after_recovery() {
    let entries = vec![("k:00000000000000000005".to_string(), "v".to_string())];
    let wal = vec![
        "00000000000000000005:false".to_string(),
        "00000000000000000005:true".to_string(),
    ];
    let mut db = initialize_db(entries, wal);
    assert_eq!(get(&mut db, "k".to_string()).unwrap(), "v".to_string());
}

#[test]
fn test_multi_set_message() {
    let mut db = setup();
    let mut keyvals: StrMap<String> = StrMap::new();
    keyvals.insert("a".to_string(), "1".to_string());
    keyvals.insert("b".to_string(), "2".to_string());
    let msg = multi_set(&mut db, keyvals).unwrap();
    assert_eq!(msg, "Set key: a to value: 1;Set key: b to value: 2;");
}

#[test]
fn test_wal_records_of_set() {
    let mut db = setup();
    ezadb::kv::set(&mut db, "k".to_string(), "v".to_string()).unwrap();
    assert_eq!(db.wal.len(), 3);
    let tx = &db.wal[0][..20];
    assert_eq!(db.wal[0], format!("{}:false", tx));
    assert_eq!(db.wal[1], format!("{}:k:v", tx));
    assert_eq!(db.wal[2], format!("{}:true", tx));
}

#[test]
fn test_index_follows_update() {
    // An update writes no fresh index entry and removes none: the old
    // index entry still resolves, and dereferencing it shows the row's
    // newest committed columns.
    let mut db = setup();
    let mut record: StrMap<String> = StrMap::new();
    record.insert("job".to_string(), "chemist".to_string());
    let id = insert_row(&mut db, "people", &record).unwrap();
    let mut upd: StrMap<String> = StrMap::new();
    upd.insert("job".to_string(), "crystallographer".to_string());
    update_row(&mut db, "people", id, &upd).unwrap();
    let rec = get_by_col(&mut db, "people", "job".to_string(), "chemist".to_string()).unwrap();
    assert_eq!(rec.get("job").unwrap().as_str(), "crystallographer");
}

#[test]
fn test_get_by_col_none() {
    let mut db = setup();
    let mut record: StrMap<String> = StrMap::new();
    record.insert("c".to_string(), "v".to_string());
    insert_row(&mut db, "t", &record).unwrap();
    let r = get_by_col(&mut db, "t", "c".to_string(), "absent".to_string());
    assert!(r.is_none());
}

#[test]
fn test_get_mutex_cells() {
    let mut locks: StrMap<bool> = StrMap::new();
    assert_eq!(*get_mutex(&mut locks, "**autoincrement**a"), true);
    assert_eq!(locks.len(), 1);
    let _ = get_mutex(&mut locks, "**autoincrement**a");
    assert_eq!(locks.len(), 1);
    let _ = get_mutex(&mut locks, "**autoincrement**b");
    assert_eq!(locks.len(), 2);
}

#[test]
fn test_key_codec() {
    assert!(is_meta("**autoincrement**people"));
    assert!(!is_meta("people"));
    assert!(!is_meta("*"));
    assert_eq!(data_value("hello:123"), "hello");
    assert_eq!(data_value("nocolon"), "nocolon");
    assert_eq!(data_tx_id("hello:123"), "123");
    assert_eq!(data_tx_id("a:b:123"), "123");
    assert_eq!(row_tx_id("people:0:name:42"), "42");
    assert_eq!(row_tx_id("nocolon"), "nocolon");
    assert_eq!(table_name("people:0:name:42"), "0");
    assert_eq!(primary_key("people:7:name:42"), 7);
    assert_eq!(col("people:7:name:42"), "name");
    assert_eq!(bytes_to_string(b"abc"), "abc");
}

#[test]
fn test_decimal_codec() {
    assert_eq!(parse_u64("0"), Some(0));
    assert_eq!(parse_u64("123"), Some(123));
    assert_eq!(parse_u64(""), None);
    assert_eq!(parse_u64("12a"), None);
    assert_eq!(parse_u64("18446744073709551615"), Some(u64::MAX));
    assert_eq!(parse_u64("18446744073709551616"), None);
    assert_eq!(dec_str(0), "0");
    assert_eq!(dec_str(407), "407");
    assert_eq!(canon_str(7), "00000000000000000007");
    assert_eq!(canon_str(u64::MAX), "18446744073709551615");
}

#[test]
fn test_string_order() {
    assert!(str_lt("a", "b"));
    assert!(str_lt("a", "ab"));
    assert!(!str_lt("b", "a"));
    assert!(str_le("a", "a"));
    assert!(!str_le("b", "a"));
    assert!(str_eq("same", "same"));
    assert!(!str_eq("same", "other"));
    assert!(str_lt("00000000000000000009", "00000000000000000010"));
}

#[test]
fn test_scan_fresh_batch() {
    let mut db = setup();
    let mut keyvals: StrMap<String> = StrMap::new();
    keyvals.insert("1".to_string(), "first".to_string());
    keyvals.insert("2".to_string(), "second".to_string());
    keyvals.insert("3".to_string(), "third".to_string());
    keyvals.insert("4".to_string(), "fourth".to_string());
    keyvals.insert("5".to_string(), "fifth".to_string());
    multi_set(&mut db, keyvals).unwrap();
    let res = scan(&mut db, "2".to_string(), "3".to_string());
    assert_eq!(res, vec!["second".to_string(), "third".to_string()]);
}

#[test]
fn test_scan_empty_range() {
    let mut db = setup();
    ezadb::kv::set(&mut db, "a".to_string(), "v".to_string()).unwrap();
    let res = scan(&mut db, "x".to_string(), "b".to_string());
    assert_eq!(res, Vec::<String>::new());
}
