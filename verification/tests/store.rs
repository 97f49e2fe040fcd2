//! The typed store: expiration, type replacement, list and hash ops.

use p_rudis::db::{Db, DbType};

#[test]
fn ttl_respected_by_get() {
    let mut db = Db::new(false);
    let key = String::from("k");
    db.set(&key, DbType::String(String::from("v")), Some(100), 1000);
    match db.get(&key, 1099) {
        Some(DbType::String(s)) => assert_eq!(s, "v"),
        _ => panic!("live before the deadline"),
    }
    assert!(db.get(&key, 1100).is_none());
    assert!(db.get(&key, 1050).is_none());
}

#[test]
fn ttl_respected_after_sweep() {
    let mut db = Db::new(false);
    let dead = String::from("dead");
    let live = String::from("live");
    db.set(&dead, DbType::String(String::from("a")), Some(10), 0);
    db.set(&live, DbType::String(String::from("b")), Some(1000), 0);
    db.cleanup_expired(500);
    assert!(db.get(&dead, 500).is_none());
    match db.get(&live, 500) {
        Some(DbType::String(s)) => assert_eq!(s, "b"),
        _ => panic!("unexpired entry must survive the sweep"),
    }
}

#[test]
fn set_replaces_across_types() {
    let mut db = Db::new(false);
    let key = String::from("k");
    db.set(&key, DbType::String(String::from("v")), None, 0);
    db.set(
        &key,
        DbType::Hash(vec![(String::from("f"), String::from("x"))]),
        None,
        0,
    );
    match db.get(&key, 0) {
        Some(DbType::Hash(pairs)) => {
            assert_eq!(pairs.len(), 1);
            assert_eq!(pairs[0].0, "f");
            assert_eq!(pairs[0].1, "x");
        }
        _ => panic!("the hash must fully replace the string"),
    }
}

#[test]
fn collection_op_on_wrong_type_changes_nothing() {
    let mut db = Db::new(false);
    let key = String::from("k");
    db.set(&key, DbType::String(String::from("v")), None, 0);
    let f = String::from("f");
    let v = String::from("x");
    assert!(db.hash_set(&key, &f, &v).is_err());
    assert!(db.list_push(&key, &vec![v.clone()], false).is_err());
    assert!(db.list_rem(&key, 0, &v).is_err());
    match db.get(&key, 0) {
        Some(DbType::String(s)) => assert_eq!(s, "v"),
        _ => panic!("the string must be untouched"),
    }
}

#[test]
fn del_and_exists() {
    let mut db = Db::new(false);
    let key = String::from("k");
    db.set(&key, DbType::String(String::from("v")), None, 0);
    assert!(db.key_exists(&key, 0));
    assert!(db.del(&key, 0));
    assert!(!db.key_exists(&key, 0));
    assert!(!db.del(&key, 0));
}

#[test]
fn list_ops_in_order() {
    let mut db = Db::new(false);
    let key = String::from("l");
    db.list_push(&key, &vec![String::from("a")], true).unwrap();
    db.list_push(&key, &vec![String::from("b")], false).unwrap();
    let items = db.list_read(&key).unwrap().unwrap();
    assert_eq!(items, &vec![String::from("a"), String::from("b")]);
    assert_eq!(db.list_pop(&key, true).unwrap(), Some(String::from("a")));
    assert_eq!(db.list_pop(&key, false).unwrap(), Some(String::from("b")));
    assert_eq!(db.list_pop(&key, true).unwrap(), None);
}

#[test]
fn list_rem_directions() {
    let mut db = Db::new(false);
    let key = String::from("l");
    let x = String::from("x");
    let vals: Vec<String> = ["x", "y", "x", "z", "x"].iter().map(|s| s.to_string()).collect();
    db.list_push(&key, &vals, false).unwrap();
    assert_eq!(db.list_rem(&key, 1, &x).unwrap(), 1);
    let items = db.list_read(&key).unwrap().unwrap().clone();
    assert_eq!(items, vec!["y", "x", "z", "x"]);
    assert_eq!(db.list_rem(&key, -1, &x).unwrap(), 1);
    let items = db.list_read(&key).unwrap().unwrap().clone();
    assert_eq!(items, vec!["y", "x", "z"]);
    assert_eq!(db.list_rem(&key, 0, &x).unwrap(), 1);
    let items = db.list_read(&key).unwrap().unwrap().clone();
    assert_eq!(items, vec!["y", "z"]);
}

#[test]
fn list_trim_clamps() {
    let mut db = Db::new(false);
    let key = String::from("l");
    let vals: Vec<String> = ["a", "b", "c", "d"].iter().map(|s| s.to_string()).collect();
    db.list_push(&key, &vals, false).unwrap();
    assert_eq!(db.list_trim(&key, 1, -2).unwrap(), 2);
    let items = db.list_read(&key).unwrap().unwrap().clone();
    assert_eq!(items, vec!["b", "c"]);
}

#[test]
fn hash_set_del() {
    let mut db = Db::new(false);
    let key = String::from("h");
    let f = String::from("f");
    let g = String::from("g");
    assert_eq!(db.hash_set(&key, &f, &String::from("1")).unwrap(), true);
    assert_eq!(db.hash_set(&key, &f, &String::from("2")).unwrap(), false);
    assert_eq!(db.hash_set(&key, &g, &String::from("3")).unwrap(), true);
    assert_eq!(db.hash_del(&key, &f).unwrap(), true);
    assert_eq!(db.hash_del(&key, &f).unwrap(), false);
    match db.get(&key, 0) {
        Some(DbType::Hash(pairs)) => assert_eq!(pairs, &vec![(g, String::from("3"))]),
        _ => panic!("hash expected"),
    }
}

#[test]
fn pubsub_registry_prefix_match() {
    let mut db = Db::new(false);
    assert!(db.subscribe(&String::from("news")));
    assert!(!db.subscribe(&String::from("news")));
    assert!(db.psubscribe(&String::from("user:*")));
    assert!(db.psubscribe(&String::from("plain")));
    let (patterns, exact) = db.publish_targets(&String::from("user:42"));
    assert_eq!(patterns, vec![String::from("user:")]);
    assert!(!exact);
    let (patterns, exact) = db.publish_targets(&String::from("news"));
    assert!(patterns.is_empty());
    assert!(exact);
    let (patterns, exact) = db.publish_targets(&String::from("plain"));
    assert!(patterns.is_empty());
    assert!(exact);
}
