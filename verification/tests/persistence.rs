//! The append-only log and the snapshot, written and read back.

use p_rudis::aof::{load_aof, parse_aof_command, split_lines};
use p_rudis::db::{Db, DbType};
use p_rudis::rdb::{dump, load_rdb, RdbError, RdbWriter};

#[test]
fn set_writes_a_framed_record() {
    let mut db = Db::new(true);
    let key = String::from("foo");
    db.set(&key, DbType::String(String::from("bar")), None, 0);
    let buf = db.take_aof_buffer();
    assert_eq!(buf, b"*3\r\n$3\r\nset\r\n$3\r\nfoo\r\n$3\r\nbar\r\n".to_vec());
    assert!(db.take_aof_buffer().is_empty());
}

#[test]
fn set_with_ttl_logs_absolute_expiration() {
    let mut db = Db::new(true);
    let key = String::from("k");
    db.set(&key, DbType::String(String::from("v")), Some(50), 1000);
    let buf = db.take_aof_buffer();
    assert_eq!(buf, b"*4\r\n$3\r\nset\r\n$1\r\nk\r\n$1\r\nv\r\n$4\r\n1050\r\n".to_vec());
}

#[test]
fn disabled_log_stays_empty() {
    let mut db = Db::new(false);
    let key = String::from("foo");
    db.set(&key, DbType::String(String::from("bar")), None, 0);
    db.del(&key, 0);
    assert!(db.take_aof_buffer().is_empty());
}

#[test]
fn replay_rebuilds_state() {
    let mut db = Db::new(true);
    let k1 = String::from("a");
    let k2 = String::from("h");
    db.set(&k1, DbType::String(String::from("1")), None, 0);
    db.hash_set(&k2, &String::from("f"), &String::from("v")).unwrap();
    db.list_push(&String::from("l"), &vec![String::from("x"), String::from("y")], false).unwrap();
    let log = db.take_aof_buffer();

    let mut fresh = Db::new(false);
    load_aof(&mut fresh, &log);
    match fresh.get(&k1, 0) {
        Some(DbType::String(s)) => assert_eq!(s, "1"),
        _ => panic!("string must replay"),
    }
    match fresh.get(&k2, 0) {
        Some(DbType::Hash(pairs)) => {
            assert_eq!(pairs, &vec![(String::from("f"), String::from("v"))])
        }
        _ => panic!("hash must replay"),
    }
    match fresh.get(&String::from("l"), 0) {
        Some(DbType::List(items)) => {
            assert_eq!(items, &vec![String::from("x"), String::from("y")])
        }
        _ => panic!("list must replay in push order"),
    }
}

#[test]
fn replay_twice_of_absolute_records_is_idempotent() {
    let mut db = Db::new(true);
    db.set(&String::from("a"), DbType::String(String::from("1")), None, 0);
    db.set(&String::from("a"), DbType::String(String::from("2")), None, 0);
    db.set(&String::from("b"), DbType::String(String::from("3")), None, 0);
    db.hash_set(&String::from("h"), &String::from("f"), &String::from("v")).unwrap();
    let log = db.take_aof_buffer();

    let mut once = Db::new(false);
    load_aof(&mut once, &log);
    let mut twice = Db::new(false);
    load_aof(&mut twice, &log);
    load_aof(&mut twice, &log);
    for key in ["a", "b"] {
        let key = String::from(key);
        match (once.get(&key, 0), twice.get(&key, 0)) {
            (Some(DbType::String(x)), Some(DbType::String(y))) => assert_eq!(x, y),
            _ => panic!("strings must agree"),
        }
    }
    match (once.get(&String::from("h"), 0), twice.get(&String::from("h"), 0)) {
        (Some(DbType::Hash(x)), Some(DbType::Hash(y))) => assert_eq!(x, y),
        _ => panic!("hashes must agree"),
    }
}

#[test]
fn replay_skips_bad_records() {
    let mut log = b"garbage line\r\n".to_vec();
    log.extend_from_slice(b"*3\r\n$3\r\nset\r\n$1\r\nk\r\n$1\r\nv\r\n");
    let mut db = Db::new(false);
    load_aof(&mut db, &log);
    match db.get(&String::from("k"), 0) {
        Some(DbType::String(s)) => assert_eq!(s, "v"),
        _ => panic!("the good record must still apply"),
    }
}

#[test]
fn parse_aof_command_exact_group() {
    let buffer: Vec<Vec<u8>> = vec![
        b"*3".to_vec(),
        b"$3".to_vec(),
        b"set".to_vec(),
        b"$1".to_vec(),
        b"k".to_vec(),
        b"$1".to_vec(),
        b"v".to_vec(),
    ];
    let (cmd, args) = parse_aof_command(&buffer).expect("complete record");
    assert_eq!(cmd, "set");
    assert_eq!(args, vec![String::from("k"), String::from("v")]);
    assert!(parse_aof_command(&buffer[..3].to_vec()).is_none());
}

#[test]
fn split_lines_strips_terminators() {
    let lines = split_lines(&b"ab\r\ncd\n\r\nef".to_vec());
    assert_eq!(lines, vec![b"ab".to_vec(), b"cd".to_vec(), b"ef".to_vec()]);
}

#[test]
fn snapshot_round_trip() {
    let mut db = Db::new(false);
    db.set(&String::from("s"), DbType::String(String::from("v")), Some(1000), 0);
    db.list_push(
        &String::from("l"),
        &vec![String::from("a"), String::from("b"), String::from("c")],
        false,
    )
    .unwrap();
    db.hash_set(&String::from("h"), &String::from("f1"), &String::from("v1")).unwrap();
    db.hash_set(&String::from("h"), &String::from("f2"), &String::from("v2")).unwrap();
    db.set(&String::from("gone"), DbType::String(String::from("x")), Some(5), 0);

    let writer = dump(&db, 100).expect("everything fits");
    let mut fresh = Db::new(false);
    load_rdb(&mut fresh, &writer, 100).expect("valid snapshot");

    match fresh.get(&String::from("s"), 100) {
        Some(DbType::String(s)) => assert_eq!(s, "v"),
        _ => panic!("string with future expiration must survive"),
    }
    assert!(fresh.get(&String::from("s"), 1000).is_none());
    match fresh.get(&String::from("l"), 100) {
        Some(DbType::List(items)) => {
            assert_eq!(items, &vec![String::from("a"), String::from("b"), String::from("c")])
        }
        _ => panic!("list must survive in order"),
    }
    match fresh.get(&String::from("h"), 100) {
        Some(DbType::Hash(pairs)) => {
            assert_eq!(
                pairs,
                &vec![
                    (String::from("f1"), String::from("v1")),
                    (String::from("f2"), String::from("v2")),
                ]
            )
        }
        _ => panic!("hash must survive"),
    }
    assert!(fresh.get(&String::from("gone"), 100).is_none());
}

#[test]
fn snapshot_load_merges_collections() {
    let mut db = Db::new(false);
    db.list_push(&String::from("l"), &vec![String::from("a")], false).unwrap();
    let writer = dump(&db, 0).expect("fits");

    let mut target = Db::new(false);
    target.list_push(&String::from("l"), &vec![String::from("z")], false).unwrap();
    load_rdb(&mut target, &writer, 0).expect("valid");
    match target.get(&String::from("l"), 0) {
        Some(DbType::List(items)) => {
            assert_eq!(items, &vec![String::from("z"), String::from("a")])
        }
        _ => panic!("snapshot lists merge into existing lists"),
    }
}

#[test]
fn snapshot_rejects_overlong_key() {
    let mut db = Db::new(false);
    let long: String = std::iter::repeat('x').take(256).collect();
    db.set(&long, DbType::String(String::from("v")), None, 0);
    assert!(matches!(dump(&db, 0), Err(RdbError::TooLong)));
}

#[test]
fn snapshot_rejects_bad_magic() {
    let writer = RdbWriter::from_bytes(b"NOTRDB0001\xff".to_vec());
    let mut db = Db::new(false);
    assert_eq!(load_rdb(&mut db, &writer, 0), Err(RdbError::BadFormat));
}
