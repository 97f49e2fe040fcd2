//! The command handlers, driven the way a connection drives them.

use p_rudis::cmd_hash::{Hget, Hset};
use p_rudis::cmd_list::{Lrange, Rpush};
use p_rudis::cmd_string::{Get, SetCmd};
use p_rudis::db::{Db, DbType};
use p_rudis::frame::Frame;
use p_rudis::parse::Parse;

fn args(parts: &[&str]) -> Parse {
    let frames: Vec<Frame> = parts.iter().map(|p| Frame::Bulk(p.as_bytes().to_vec())).collect();
    Parse::new(Some(Frame::Array(frames))).expect("array frame")
}

#[test]
fn set_get_del_scenario() {
    let mut db = Db::new(false);
    let r = SetCmd::set_command(&mut db, &mut args(&["foo", "bar"]), 0);
    assert_eq!(r, Frame::Simple(String::from("OK")));
    let r = Get::get_command(&mut db, &mut args(&["foo"]), 0);
    assert_eq!(r, Frame::Bulk(b"bar".to_vec()));
    let r = p_rudis::cmd_string::Del::del_command(&mut db, &mut args(&["foo"]), 0);
    assert_eq!(r, Frame::Integer(1));
    let r = Get::get_command(&mut db, &mut args(&["foo"]), 0);
    assert_eq!(r, Frame::Null);
}

#[test]
fn hset_hget_scenario() {
    let mut db = Db::new(false);
    let r = Hset::hset_command(&mut db, &mut args(&["h", "f", "v"]), 0);
    assert_eq!(r, Frame::Integer(1));
    let r = Hget::hget_command(&mut db, &mut args(&["h", "f"]), 0);
    assert_eq!(r, Frame::Bulk(b"v".to_vec()));
    let r = Hset::hset_command(&mut db, &mut args(&["h", "f", "v2"]), 0);
    assert_eq!(r, Frame::Integer(0));
    let r = Hget::hget_command(&mut db, &mut args(&["h", "f"]), 0);
    assert_eq!(r, Frame::Bulk(b"v2".to_vec()));
}

#[test]
fn push_then_range_scenario() {
    let mut db = Db::new(false);
    let key = String::from("l");
    db.list_push(&key, &vec![String::from("a")], true).unwrap();
    let r = Rpush::rpush_command(&mut db, &mut args(&["l", "b"]), 0);
    assert_eq!(r, Frame::Integer(2));
    let r = Lrange::lrange_command(&mut db, &mut args(&["l", "0", "-1"]), 0);
    assert_eq!(
        r,
        Frame::Array(vec![Frame::Bulk(b"a".to_vec()), Frame::Bulk(b"b".to_vec())])
    );
}

#[test]
fn set_with_expiration_options() {
    let mut db = Db::new(false);
    let r = SetCmd::set_command(&mut db, &mut args(&["k", "v", "PX", "50"]), 1000);
    assert_eq!(r, Frame::Simple(String::from("OK")));
    let r = Get::get_command(&mut db, &mut args(&["k"]), 1049);
    assert_eq!(r, Frame::Bulk(b"v".to_vec()));
    let r = Get::get_command(&mut db, &mut args(&["k"]), 1050);
    assert_eq!(r, Frame::Null);
    let r = SetCmd::set_command(&mut db, &mut args(&["k", "v", "NX"]), 2000);
    assert_eq!(r, Frame::Simple(String::from("OK")));
    let r = SetCmd::set_command(&mut db, &mut args(&["k", "w", "NX"]), 2000);
    assert_eq!(r, Frame::Null);
    let r = SetCmd::set_command(&mut db, &mut args(&["missing", "w", "XX"]), 2000);
    assert_eq!(r, Frame::Null);
}

#[test]
fn wrong_type_reported_not_applied() {
    let mut db = Db::new(false);
    SetCmd::set_command(&mut db, &mut args(&["k", "v"]), 0);
    let r = Hset::hset_command(&mut db, &mut args(&["k", "f", "x"]), 0);
    assert_eq!(
        r,
        Frame::Error(String::from(
            "WRONGTYPE Operation against a key holding the wrong kind of value"
        ))
    );
    let r = Get::get_command(&mut db, &mut args(&["k"]), 0);
    assert_eq!(r, Frame::Bulk(b"v".to_vec()));
}

#[test]
fn incr_and_errors() {
    let mut db = Db::new(false);
    let r = p_rudis::cmd_string::Incr::incr_command(&mut db, &mut args(&["n"]), 0);
    assert_eq!(r, Frame::Integer(1));
    let r = p_rudis::cmd_string::IncrBy::incrby_command(&mut db, &mut args(&["n", "41"]), 0);
    assert_eq!(r, Frame::Integer(42));
    let r = p_rudis::cmd_string::Decr::decr_command(&mut db, &mut args(&["n"]), 0);
    assert_eq!(r, Frame::Integer(41));
    SetCmd::set_command(&mut db, &mut args(&["s", "abc"]), 0);
    let r = p_rudis::cmd_string::Incr::incr_command(&mut db, &mut args(&["s"]), 0);
    assert_eq!(
        r,
        Frame::Error(String::from("ERR value is not an integer or out of range"))
    );
}

#[test]
fn arity_errors() {
    let mut db = Db::new(false);
    let r = Hset::hset_command(&mut db, &mut args(&["h", "f"]), 0);
    assert_eq!(
        r,
        Frame::Error(String::from("ERR wrong number of arguments for 'hset' command"))
    );
    let r = Get::get_command(&mut db, &mut args(&[]), 0);
    assert_eq!(
        r,
        Frame::Error(String::from("ERR wrong number of arguments for 'get' command"))
    );
}

#[test]
fn publish_counts_targets() {
    let mut db = Db::new(false);
    db.subscribe(&String::from("chan"));
    db.psubscribe(&String::from("ch*"));
    let (reply, patterns, exact) =
        p_rudis::cmd_pubsub::Publish::publish_command(&mut db, &mut args(&["chan", "msg"]));
    assert_eq!(reply, Frame::Integer(2));
    assert_eq!(patterns, vec![String::from("ch")]);
    assert!(exact);
}

#[test]
fn subscribe_confirmations() {
    let mut db = Db::new(false);
    let sub = p_rudis::cmd_pubsub::Subscribe::parse_command(&mut args(&["a", "b"])).unwrap();
    let frames = sub.subscribe_channels(&mut db);
    assert_eq!(frames.len(), 2);
    assert_eq!(
        frames[0],
        Frame::Array(vec![
            Frame::Bulk(b"subscribe".to_vec()),
            Frame::Bulk(b"a".to_vec()),
            Frame::Integer(1),
        ])
    );
    assert_eq!(
        frames[1],
        Frame::Array(vec![
            Frame::Bulk(b"subscribe".to_vec()),
            Frame::Bulk(b"b".to_vec()),
            Frame::Integer(2),
        ])
    );
}

#[test]
fn echo_and_ping() {
    let mut db = Db::new(false);
    let r = p_rudis::cmd_misc::Ping::ping_command(&mut db, &mut args(&[]));
    assert_eq!(r, Frame::Simple(String::from("PONG")));
    let r = p_rudis::cmd_misc::Echo::echo_command(&mut db, &mut args(&["hey"]));
    assert_eq!(r, Frame::Bulk(b"hey".to_vec()));
}
