//! The remaining command surfaces and the argument reader.

use p_rudis::cmd_hash::{Hdel, Hexists, Hgetall, Hlen, Hmget, Hmset, Hsetnx, Hkeys, Hvals};
use p_rudis::cmd_list::{Blpop, Lindex, Llen, Lpop, Lrem, Lset, Ltrim, Rpop, Rpush};
use p_rudis::cmd_string::{Mget, Mset, Msetnx, SetCmd, Strlen, Append};
use p_rudis::db::Db;
use p_rudis::frame::Frame;
use p_rudis::parse::{Parse, ParseError};

fn argv(parts: &[&str]) -> Parse {
    let frames: Vec<Frame> = parts.iter().map(|p| Frame::Bulk(p.as_bytes().to_vec())).collect();
    Parse::new(Some(Frame::Array(frames))).expect("array frame")
}

#[test]
fn parse_rejects_non_arrays() {
    assert!(matches!(Parse::new(None), Err(ParseError::EndOfStream)));
    assert!(matches!(
        Parse::new(Some(Frame::Simple(String::from("hi")))),
        Err(ParseError::WrongType)
    ));
}

#[test]
fn next_string_errors() {
    let mut p = Parse::new(Some(Frame::Array(vec![Frame::Integer(3)]))).unwrap();
    assert!(matches!(p.next_string(), Err(ParseError::WrongType)));
    assert!(matches!(p.next_string(), Err(ParseError::EndOfStream)));
    let mut p = Parse::new(Some(Frame::Array(vec![Frame::Bulk(vec![0xff])]))).unwrap();
    assert!(matches!(p.next_string(), Err(ParseError::RevertFailed)));
}

#[test]
fn args_number_counts_leading_strings() {
    let mut p = Parse::new(Some(Frame::Array(vec![
        Frame::Bulk(b"a".to_vec()),
        Frame::Simple(String::from("b")),
        Frame::Integer(1),
        Frame::Bulk(b"c".to_vec()),
    ])))
    .unwrap();
    assert_eq!(p.args_number(), 2);
    assert_eq!(p.next_string().unwrap(), "a");
    assert_eq!(p.args_number(), 1);
}

#[test]
fn mset_msetnx_mget() {
    let mut db = Db::new(false);
    let r = Mset::mset_command(&mut db, &mut argv(&["a", "1", "b", "2"]), 0);
    assert_eq!(r, Frame::Simple(String::from("OK")));
    let r = Mset::mset_command(&mut db, &mut argv(&["a", "1"]), 0);
    assert_eq!(
        r,
        Frame::Error(String::from("ERR wrong number of arguments for 'mset' command"))
    );
    let r = Msetnx::msetnx_command(&mut db, &mut argv(&["a", "9", "c", "3"]), 0);
    assert_eq!(r, Frame::Integer(0));
    let r = Msetnx::msetnx_command(&mut db, &mut argv(&["c", "3", "d", "4"]), 0);
    assert_eq!(r, Frame::Integer(1));
    let r = Mget::mget_command(&mut db, &mut argv(&["a", "missing", "c"]), 0);
    assert_eq!(
        r,
        Frame::Array(vec![
            Frame::Simple(String::from("1")),
            Frame::Null,
            Frame::Simple(String::from("3")),
        ])
    );
}

#[test]
fn append_and_strlen() {
    let mut db = Db::new(false);
    let r = Append::append_command(&mut db, &mut argv(&["k", "ab"]), 0);
    assert_eq!(r, Frame::Integer(2));
    let r = Append::append_command(&mut db, &mut argv(&["k", "cde"]), 0);
    assert_eq!(r, Frame::Integer(5));
    let r = Strlen::strlen_command(&mut db, &mut argv(&["k"]), 0);
    assert_eq!(r, Frame::Integer(5));
    let r = Strlen::strlen_command(&mut db, &mut argv(&["missing"]), 0);
    assert_eq!(r, Frame::Integer(0));
}

#[test]
fn hash_command_surfaces() {
    let mut db = Db::new(false);
    let r = Hmset::hmset_command(&mut db, &mut argv(&["h", "f1", "1", "f2", "2"]), 0);
    assert_eq!(r, Frame::Simple(String::from("OK")));
    let r = Hsetnx::hsetnx_command(&mut db, &mut argv(&["h", "f1", "9"]), 0);
    assert_eq!(r, Frame::Integer(0));
    let r = Hsetnx::hsetnx_command(&mut db, &mut argv(&["h", "f3", "3"]), 0);
    assert_eq!(r, Frame::Integer(1));
    let r = Hlen::hlen_command(&mut db, &mut argv(&["h"]), 0);
    assert_eq!(r, Frame::Integer(3));
    let r = Hexists::hexists_command(&mut db, &mut argv(&["h", "f2"]), 0);
    assert_eq!(r, Frame::Integer(1));
    let r = Hmget::hmget_command(&mut db, &mut argv(&["h", "f2", "nope"]), 0);
    assert_eq!(r, Frame::Array(vec![Frame::Bulk(b"2".to_vec()), Frame::Null]));
    let r = Hkeys::hkeys_command(&mut db, &mut argv(&["h"]), 0);
    assert_eq!(
        r,
        Frame::Array(vec![
            Frame::Bulk(b"f1".to_vec()),
            Frame::Bulk(b"f2".to_vec()),
            Frame::Bulk(b"f3".to_vec()),
        ])
    );
    let r = Hvals::hvals_command(&mut db, &mut argv(&["h"]), 0);
    assert_eq!(
        r,
        Frame::Array(vec![
            Frame::Bulk(b"1".to_vec()),
            Frame::Bulk(b"2".to_vec()),
            Frame::Bulk(b"3".to_vec()),
        ])
    );
    let r = Hgetall::hgetall_command(&mut db, &mut argv(&["h"]), 0);
    assert_eq!(
        r,
        Frame::Array(vec![
            Frame::Bulk(b"f1".to_vec()),
            Frame::Bulk(b"1".to_vec()),
            Frame::Bulk(b"f2".to_vec()),
            Frame::Bulk(b"2".to_vec()),
            Frame::Bulk(b"f3".to_vec()),
            Frame::Bulk(b"3".to_vec()),
        ])
    );
    let r = Hdel::hdel_command(&mut db, &mut argv(&["h", "f1", "nope", "f2"]), 0);
    assert_eq!(r, Frame::Integer(2));
    let r = Hgetall::hgetall_command(&mut db, &mut argv(&["missing"]), 0);
    assert_eq!(r, Frame::Simple(String::from("(empty list or set)")));
}

#[test]
fn list_command_surfaces() {
    let mut db = Db::new(false);
    Rpush::rpush_command(&mut db, &mut argv(&["l", "a", "b", "c", "b"]), 0);
    let r = Llen::llen_command(&mut db, &mut argv(&["l"]), 0);
    assert_eq!(r, Frame::Integer(4));
    let r = Lindex::lindex_command(&mut db, &mut argv(&["l", "-1"]), 0);
    assert_eq!(r, Frame::Bulk(b"b".to_vec()));
    let r = Lset::lset_command(&mut db, &mut argv(&["l", "1", "z"]), 0);
    assert_eq!(r, Frame::Simple(String::from("OK")));
    let r = Lset::lset_command(&mut db, &mut argv(&["l", "9", "z"]), 0);
    assert_eq!(r, Frame::Error(String::from("ERR index out of range")));
    let r = Lrem::lrem_command(&mut db, &mut argv(&["l", "0", "b"]), 0);
    assert_eq!(r, Frame::Integer(1));
    let r = Ltrim::ltrim_command(&mut db, &mut argv(&["l", "0", "1"]), 0);
    assert_eq!(r, Frame::Integer(2));
    let r = Lpop::lpop_command(&mut db, &mut argv(&["l"]), 0);
    assert_eq!(r, Frame::Bulk(b"a".to_vec()));
    let r = Rpop::rpop_command(&mut db, &mut argv(&["l"]), 0);
    assert_eq!(r, Frame::Bulk(b"z".to_vec()));
    let r = Lpop::lpop_command(&mut db, &mut argv(&["l"]), 0);
    assert_eq!(r, Frame::Null);
}

#[test]
fn blocking_pop_parses_key_and_timeout() {
    let parsed = Blpop::parse_command(&mut argv(&["l", "5"])).unwrap();
    assert_eq!(parsed.0, "l");
    assert_eq!(parsed.1, 5);
    assert!(Blpop::parse_command(&mut argv(&["l", "soon"])).is_err());
    assert!(Blpop::parse_command(&mut argv(&["l"])).is_err());
}

#[test]
fn set_ex_seconds_becomes_milliseconds() {
    let mut db = Db::new(false);
    let r = SetCmd::set_command(&mut db, &mut argv(&["k", "v", "ex", "2"]), 1000);
    assert_eq!(r, Frame::Simple(String::from("OK")));
    let r = p_rudis::cmd_string::Get::get_command(&mut db, &mut argv(&["k"]), 2999);
    assert_eq!(r, Frame::Bulk(b"v".to_vec()));
    let r = p_rudis::cmd_string::Get::get_command(&mut db, &mut argv(&["k"]), 3000);
    assert_eq!(r, Frame::Null);
}

#[test]
fn psubscribe_confirmations_and_wildcards() {
    let mut db = Db::new(false);
    let sub = p_rudis::cmd_pubsub::PSubscribe::parse_command(&mut argv(&["user:*", "exact"]))
        .unwrap();
    let frames = sub.subscribe_patterns(&mut db);
    assert_eq!(frames.len(), 2);
    assert_eq!(
        frames[0],
        Frame::Array(vec![
            Frame::Bulk(b"psubscribe".to_vec()),
            Frame::Bulk(b"user:*".to_vec()),
            Frame::Integer(1),
        ])
    );
    let (patterns, exact) = db.publish_targets(&String::from("user:7"));
    assert_eq!(patterns, vec![String::from("user:")]);
    assert!(!exact);
    let (patterns, exact) = db.publish_targets(&String::from("exact"));
    assert!(patterns.is_empty());
    assert!(exact);
}
