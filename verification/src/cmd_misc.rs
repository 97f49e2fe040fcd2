//! The connection-test and echo commands, and small reply helpers the
//! other commands share.

use vstd::prelude::*;

verus! {

broadcast use vstd::std_specs::vec::group_vec_axioms, vstd::seq::group_seq_axioms,
    vstd::map::group_map_axioms;

use vstd::utf8::encode_utf8;
use crate::db::Db;
use crate::frame::{Frame, FrameV};
use crate::parse::{Parse, string_arg};

/// `PING`: replies `PONG`, touching nothing.
pub struct Ping;

impl Ping {
    pub fn ping_command(db: &mut Db, _parse: &mut Parse) -> (r: Frame)
        ensures
            *final(db) == *old(db),
            r@ == FrameV::Simple("PONG"@),
    {
        Frame::Simple(String::from_str("PONG"))
    }
}

/// `ECHO message`: replies the message itself.
pub struct Echo {
    pub message: String,
}

impl Echo {
    /// Replies the argument as a bulk string, or the arity error when it
    /// is missing or is no string.
    pub fn echo_command(db: &mut Db, parse: &mut Parse) -> (r: Frame)
        ensures
            *final(db) == *old(db),
            match string_arg(old(parse).remaining(), 0) {
                Option::Some(msg) => r@ == FrameV::Bulk(encode_utf8(msg)),
                Option::None => r@ == FrameV::Error(
                    "ERR wrong number of arguments for 'echo' command"@,
                ),
            },
    {
        match Echo::parse_command(parse) {
            Result::Ok(echo) => Frame::Bulk(echo.message.as_str().as_bytes_vec()),
            Result::Err(_) => Frame::Error(
                String::from_str("ERR wrong number of arguments for 'echo' command"),
            ),
        }
    }

    fn parse_command(parse: &mut Parse) -> (r: Result<Self, crate::parse::ParseError>)
        ensures
            match string_arg(old(parse).remaining(), 0) {
                Option::Some(msg) => (r matches Ok(e) && e.message@ == msg),
                Option::None => r is Err,
            },
    {
        let message = match parse.next_string() {
            Result::Ok(s) => s,
            Result::Err(e) => {
                return Err(e);
            }
        };
        Ok(Echo { message })
    }
}

/// A length as an integer reply value, clamped to the reply's range.
pub open spec fn int_len(n: nat) -> i64 {
    if n > i64::MAX {
        i64::MAX
    } else {
        n as i64
    }
}

/// Converts a length for an integer reply.
pub fn len_to_i64(n: usize) -> (r: i64)
    ensures
        r == int_len(n as nat),
{
    if (n as u64) > (i64::MAX as u64) {
        i64::MAX
    } else {
        n as i64
    }
}

/// The wrong-type reply every typed command shares.
pub open spec fn wrongtype() -> Seq<char> {
    "WRONGTYPE Operation against a key holding the wrong kind of value"@
}

/// Builds the wrong-type error reply.
pub fn wrongtype_frame() -> (r: Frame)
    ensures
        r@ == FrameV::Error(wrongtype()),
{
    Frame::Error(String::from_str("WRONGTYPE Operation against a key holding the wrong kind of value"))
}

} // verus!
