//! The string-type commands.

use vstd::prelude::*;

verus! {

broadcast use vstd::std_specs::vec::group_vec_axioms, vstd::seq::group_seq_axioms,
    vstd::map::group_map_axioms;

use vstd::utf8::encode_utf8;
use crate::aof::{cmds_match, spec_parse_u64_chars, spec_parse_i64_chars, parse_u64_string,
    parse_i64_string, record_if};
use crate::db::{Db, DbType, EntryV, ValueV, abs_expiration, set_record};
use crate::frame::{Frame, FrameV, dec_chars_int};
use crate::parse::{Parse, ParseError, string_arg};
use crate::cmd_misc::{int_len, len_to_i64, wrongtype, wrongtype_frame};

/// The trailing options of a `SET`, read left to right: `EX seconds`,
/// `PX milliseconds`, `NX`, `XX`, case-insensitively; an option that is
/// none of these ends the options; a bad or missing number, an `EX`
/// overflowing milliseconds, or `NX` with `XX` is a parse error.
pub open spec fn set_options(rem: Seq<FrameV>, exp: Option<u64>, nx: bool, xx: bool) -> Option<
    (Option<u64>, bool, bool),
>
    decreases rem.len(),
{
    match string_arg(rem, 0) {
        Option::None => Some((exp, nx, xx)),
        Option::Some(o) => {
            if cmds_match(o, "EX"@) {
                match string_arg(rem, 1) {
                    Option::None => None::<(Option<u64>, bool, bool)>,
                    Option::Some(es) => match spec_parse_u64_chars(es) {
                        Option::None => None::<(Option<u64>, bool, bool)>,
                        Option::Some(v) => if v <= u64::MAX / 1000 {
                            set_options(rem.skip(2), Some((v * 1000) as u64), nx, xx)
                        } else {
                            None::<(Option<u64>, bool, bool)>
                        },
                    },
                }
            } else if cmds_match(o, "PX"@) {
                match string_arg(rem, 1) {
                    Option::None => None::<(Option<u64>, bool, bool)>,
                    Option::Some(es) => match spec_parse_u64_chars(es) {
                        Option::None => None::<(Option<u64>, bool, bool)>,
                        Option::Some(v) => set_options(rem.skip(2), Some(v), nx, xx),
                    },
                }
            } else if cmds_match(o, "NX"@) {
                if xx {
                    None::<(Option<u64>, bool, bool)>
                } else {
                    set_options(rem.skip(1), exp, true, xx)
                }
            } else if cmds_match(o, "XX"@) {
                if nx {
                    None::<(Option<u64>, bool, bool)>
                } else {
                    set_options(rem.skip(1), exp, nx, true)
                }
            } else {
                Some((exp, nx, xx))
            }
        },
    }
}

/// `SET key value [EX s] [PX ms] [NX|XX]`.
pub struct SetCmd {
    pub key: String,
    pub value: String,
    pub expiration: Option<u64>,
    pub nx: bool,
    pub xx: bool,
}

impl SetCmd {
    /// Stores the value, honouring `NX`/`XX` against the key's liveness:
    /// an unmet condition replies null and stores nothing.  A met `SET`
    /// replies `OK`, replaces any prior entry whatever its type, and is
    /// recorded in the log.
    pub fn set_command(db: &mut Db, parse: &mut Parse, now: u64) -> (r: Frame)
        requires
            old(db).wf(),
        ensures
            final(db).wf(),
            final(db).channels() == old(db).channels(),
            final(db).patterns() == old(db).patterns(),
            final(db).wal_enabled() == old(db).wal_enabled(),
            ({
                let rem = old(parse).remaining();
                let k = string_arg(rem, 0);
                let v = string_arg(rem, 1);
                if k is Some && v is Some && rem.len() >= 2 && set_options(
                    rem.skip(2),
                    None::<u64>,
                    false,
                    false,
                ) is Some {
                    let key = k->Some_0;
                    let opts = set_options(rem.skip(2), None::<u64>, false, false)->Some_0;
                    let existed = old(db).spec_live_get(key, now) is Some;
                    if (opts.1 && existed) || (opts.2 && !existed) {
                        &&& r@ == FrameV::Null
                        &&& final(db).spec_get(key) == (if existed {
                            old(db).spec_get(key)
                        } else {
                            Option::<EntryV>::None
                        })
                        &&& (forall|k2: Seq<char>|
                            k2 != key ==> final(db).spec_get(k2) == old(db).spec_get(k2))
                        &&& final(db).wal_pending() == old(db).wal_pending()
                    } else {
                        &&& r@ == FrameV::Simple("OK"@)
                        &&& final(db).spec_get(key) == Option::Some(
                            EntryV {
                                value: ValueV::String(v->Some_0),
                                expiration: abs_expiration(now, opts.0),
                            },
                        )
                        &&& (forall|k2: Seq<char>|
                            k2 != key ==> final(db).spec_get(k2) == old(db).spec_get(k2))
                        &&& final(db).wal_pending() == old(db).wal_pending() + set_record(
                            old(db).wal_enabled(),
                            key,
                            ValueV::String(v->Some_0),
                            abs_expiration(now, opts.0),
                        )
                    }
                } else {
                    &&& r@ == FrameV::Error("ERR wrong number of arguments for 'set' command"@)
                    &&& final(db).spec_map() == old(db).spec_map()
                    &&& final(db).wal_pending() == old(db).wal_pending()
                }
            }),
    {
        match SetCmd::parse_command(parse) {
            Result::Ok(set) => {
                let existed = db.key_exists(&set.key, now);
                if (set.nx && existed) || (set.xx && !existed) {
                    return Frame::Null;
                }
                db.set(&set.key, DbType::String(set.value), set.expiration, now);
                Frame::Simple(String::from_str("OK"))
            }
            Result::Err(_) => {
                proof {
                    assert(db.spec_map() =~= old(db).spec_map());
                }
                Frame::Error(String::from_str("ERR wrong number of arguments for 'set' command"))
            }
        }
    }

    /// Reads the key, the value and the trailing options.
    fn parse_command(parse: &mut Parse) -> (r: Result<Self, ParseError>)
        ensures
            ({
                let rem = old(parse).remaining();
                let k = string_arg(rem, 0);
                let v = string_arg(rem, 1);
                if k is Some && v is Some && rem.len() >= 2 && set_options(
                    rem.skip(2),
                    None::<u64>,
                    false,
                    false,
                ) is Some {
                    let opts = set_options(rem.skip(2), None::<u64>, false, false)->Some_0;
                    (r matches Ok(s) && s.key@ == k->Some_0 && s.value@ == v->Some_0
                        && s.expiration == opts.0 && s.nx == opts.1 && s.xx == opts.2)
                } else {
                    r is Err
                }
            }),
    {
        let ghost rem = parse.remaining();
        let key = match parse.next_string() {
            Result::Ok(s) => s,
            Result::Err(e) => {
                return Err(e);
            }
        };
        let value = match parse.next_string() {
            Result::Ok(s) => s,
            Result::Err(e) => {
                return Err(e);
            }
        };
        proof {
            assert(parse.remaining() =~= rem.skip(2));
        }
        let mut expiration: Option<u64> = None;
        let mut nx = false;
        let mut xx = false;
        let mut r_opts: Result<(Option<u64>, bool, bool), ParseError> = Err(
            ParseError::EndOfStream,
        );
        loop
            invariant_except_break
                set_options(rem.skip(2), None::<u64>, false, false) == set_options(
                    parse.remaining(),
                    expiration,
                    nx,
                    xx,
                ),
            ensures
                ({
                    let done = set_options(rem.skip(2), None::<u64>, false, false);
                    match r_opts {
                        Result::Ok(o) => done == Some((o.0, o.1, o.2)),
                        Result::Err(_) => done is None,
                    }
                }),
            decreases parse.remaining().len(),
        {
            let ghost cur = parse.remaining();
            match parse.next_string() {
                Result::Err(_) => {
                    proof {
                        assert(string_arg(cur, 0) is None);
                    }
                    r_opts = Ok((expiration, nx, xx));
                    break ;
                }
                Result::Ok(option) => {
                    proof {
                        assert(cur.len() > 0);
                        assert(string_arg(cur, 0) == Some(option@));
                    }
                    if crate::aof::cmd_is(&option, "EX") {
                        let ghost cur2 = parse.remaining();
                        match parse.next_string() {
                            Result::Err(_) => {
                                proof {
                                    assert(string_arg(cur, 1) is None) by {
                                        assert(cur.skip(1) =~= cur2);
                                    }
                                }
                                r_opts = Err(ParseError::EndOfStream);
                                break ;
                            }
                            Result::Ok(es) => {
                                proof {
                                    assert(string_arg(cur, 1) == Some(es@)) by {
                                        assert(cur.skip(1) =~= cur2);
                                    }
                                    assert(parse.remaining() =~= cur.skip(2));
                                }
                                match parse_u64_string(&es) {
                                    Option::Some(secs) => {
                                        if secs > u64::MAX / 1000 {
                                            r_opts = Err(ParseError::RevertFailed);
                                            break ;
                                        }
                                        expiration = Some(secs * 1000);
                                    }
                                    Option::None => {
                                        r_opts = Err(ParseError::RevertFailed);
                                        break ;
                                    }
                                }
                            }
                        }
                    } else if crate::aof::cmd_is(&option, "PX") {
                        let ghost cur2 = parse.remaining();
                        match parse.next_string() {
                            Result::Err(_) => {
                                proof {
                                    assert(string_arg(cur, 1) is None) by {
                                        assert(cur.skip(1) =~= cur2);
                                    }
                                }
                                r_opts = Err(ParseError::EndOfStream);
                                break ;
                            }
                            Result::Ok(es) => {
                                proof {
                                    assert(string_arg(cur, 1) == Some(es@)) by {
                                        assert(cur.skip(1) =~= cur2);
                                    }
                                    assert(parse.remaining() =~= cur.skip(2));
                                }
                                match parse_u64_string(&es) {
                                    Option::Some(ms) => {
                                        expiration = Some(ms);
                                    }
                                    Option::None => {
                                        r_opts = Err(ParseError::RevertFailed);
                                        break ;
                                    }
                                }
                            }
                        }
                    } else if crate::aof::cmd_is(&option, "NX") {
                        if xx {
                            r_opts = Err(ParseError::WrongType);
                            break ;
                        }
                        nx = true;
                    } else if crate::aof::cmd_is(&option, "XX") {
                        if nx {
                            r_opts = Err(ParseError::WrongType);
                            break ;
                        }
                        xx = true;
                    } else {
                        r_opts = Ok((expiration, nx, xx));
                        break ;
                    }
                }
            }
        }
        match r_opts {
            Result::Ok(o) => Ok(SetCmd { key, value, expiration: o.0, nx: o.1, xx: o.2 }),
            Result::Err(e) => Err(e),
        }
    }
}

/// `GET key`.
pub struct Get {
    pub key: String,
}

impl Get {
    /// Replies the string value, null for an absent or expired key (which
    /// a read evicts), and the wrong-type error for any other type.
    pub fn get_command(db: &mut Db, parse: &mut Parse, now: u64) -> (r: Frame)
        requires
            old(db).wf(),
        ensures
            final(db).wf(),
            final(db).channels() == old(db).channels(),
            final(db).patterns() == old(db).patterns(),
            final(db).wal_enabled() == old(db).wal_enabled(),
            final(db).wal_pending() == old(db).wal_pending(),
            ({
                let rem = old(parse).remaining();
                match string_arg(rem, 0) {
                    Option::Some(k) => {
                        &&& (forall|k2: Seq<char>|
                            k2 != k ==> final(db).spec_get(k2) == old(db).spec_get(k2))
                        &&& match old(db).spec_live_get(k, now) {
                            Option::Some(e) => final(db).spec_get(k) == old(db).spec_get(k)
                                && (match e.value {
                                ValueV::String(sv) => r@ == FrameV::Bulk(encode_utf8(sv)),
                                _ => r@ == FrameV::Error(wrongtype()),
                            }),
                            Option::None => final(db).spec_get(k) is None && r@ == FrameV::Null,
                        }
                    },
                    Option::None => r@ == FrameV::Error(
                        "ERR wrong number of arguments for 'get' command"@,
                    ) && final(db).spec_map() == old(db).spec_map(),
                }
            }),
    {
        match Get::parse_command(parse) {
            Result::Ok(get) => match db.get(&get.key, now) {
                Option::Some(v) => match v {
                    DbType::String(sv) => Frame::Bulk(sv.as_str().as_bytes_vec()),
                    _ => wrongtype_frame(),
                },
                Option::None => Frame::Null,
            },
            Result::Err(_) => {
                proof {
                    assert(db.spec_map() =~= old(db).spec_map());
                }
                Frame::Error(String::from_str("ERR wrong number of arguments for 'get' command"))
            }
        }
    }

    fn parse_command(parse: &mut Parse) -> (r: Result<Self, ParseError>)
        ensures
            match string_arg(old(parse).remaining(), 0) {
                Option::Some(k) => (r matches Ok(g) && g.key@ == k),
                Option::None => r is Err,
            },
    {
        let key = match parse.next_string() {
            Result::Ok(s) => s,
            Result::Err(e) => {
                return Err(e);
            }
        };
        Ok(Get { key })
    }
}

/// `STRLEN key`.
pub struct Strlen {
    pub key: String,
}

impl Strlen {
    /// Replies the byte length of the string value; an absent, expired or
    /// non-string key replies zero.  An expired entry found is evicted.
    pub fn strlen_command(db: &mut Db, parse: &mut Parse, now: u64) -> (r: Frame)
        requires
            old(db).wf(),
        ensures
            final(db).wf(),
            final(db).channels() == old(db).channels(),
            final(db).patterns() == old(db).patterns(),
            final(db).wal_enabled() == old(db).wal_enabled(),
            final(db).wal_pending() == old(db).wal_pending(),
            ({
                let rem = old(parse).remaining();
                match string_arg(rem, 0) {
                    Option::Some(k) => {
                        &&& (forall|k2: Seq<char>|
                            k2 != k ==> final(db).spec_get(k2) == old(db).spec_get(k2))
                        &&& match old(db).spec_live_get(k, now) {
                            Option::Some(e) => final(db).spec_get(k) == old(db).spec_get(k)
                                && (match e.value {
                                ValueV::String(sv) => r@ == FrameV::Integer(
                                    int_len(encode_utf8(sv).len()),
                                ),
                                _ => r@ == FrameV::Integer(0),
                            }),
                            Option::None => final(db).spec_get(k) is None && r@ == FrameV::Integer(
                                0,
                            ),
                        }
                    },
                    Option::None => r@ == FrameV::Error(
                        "ERR wrong number of arguments for 'strlen' command"@,
                    ) && final(db).spec_map() == old(db).spec_map(),
                }
            }),
    {
        match Get::parse_keylike(parse) {
            Result::Ok(key) => match db.get(&key, now) {
                Option::Some(v) => match v {
                    DbType::String(sv) => Frame::Integer(len_to_i64(sv.as_str().as_bytes_vec().len())),
                    _ => Frame::Integer(0),
                },
                Option::None => Frame::Integer(0),
            },
            Result::Err(_) => {
                proof {
                    assert(db.spec_map() =~= old(db).spec_map());
                }
                Frame::Error(String::from_str("ERR wrong number of arguments for 'strlen' command"))
            }
        }
    }
}

impl Get {
    /// Reads one key argument; several commands share this shape.
    pub(crate) fn parse_keylike(parse: &mut Parse) -> (r: Result<String, ParseError>)
        ensures
            match string_arg(old(parse).remaining(), 0) {
                Option::Some(k) => (r matches Ok(s) && s@ == k),
                Option::None => r is Err,
            },
    {
        parse.next_string()
    }
}

/// `APPEND key value`.
pub struct Append {
    pub key: String,
    pub value: String,
}

impl Append {
    /// Appends to the stored string, or starts a fresh one when the key
    /// is absent or holds another type, and replies the new byte length.
    /// The resulting `SET` is recorded in the log.
    pub fn append_command(db: &mut Db, parse: &mut Parse, now: u64) -> (r: Frame)
        requires
            old(db).wf(),
        ensures
            final(db).wf(),
            final(db).channels() == old(db).channels(),
            final(db).patterns() == old(db).patterns(),
            final(db).wal_enabled() == old(db).wal_enabled(),
            ({
                let rem = old(parse).remaining();
                let k = string_arg(rem, 0);
                let v = string_arg(rem, 1);
                if k is Some && v is Some {
                    let key = k->Some_0;
                    let newv = (match old(db).spec_live_get(key, now) {
                        Option::Some(e) => match e.value {
                            ValueV::String(sv) => sv + v->Some_0,
                            _ => v->Some_0,
                        },
                        Option::None => v->Some_0,
                    });
                    &&& r@ == FrameV::Integer(int_len(encode_utf8(newv).len()))
                    &&& final(db).spec_get(key) == Option::Some(
                        EntryV { value: ValueV::String(newv), expiration: Option::None },
                    )
                    &&& (forall|k2: Seq<char>|
                        k2 != key ==> final(db).spec_get(k2) == old(db).spec_get(k2))
                    &&& final(db).wal_pending() == old(db).wal_pending() + set_record(
                        old(db).wal_enabled(),
                        key,
                        ValueV::String(newv),
                        Option::<u64>::None,
                    )
                } else {
                    &&& r@ == FrameV::Error("ERR wrong number of arguments for 'append' command"@)
                    &&& final(db).spec_map() == old(db).spec_map()
                    &&& final(db).wal_pending() == old(db).wal_pending()
                }
            }),
    {
        match Append::parse_command(parse) {
            Result::Ok(append) => {
                let new_value: String = match db.get(&append.key, now) {
                    Option::Some(v) => match v {
                        DbType::String(sv) => sv.clone().concat(append.value.as_str()),
                        _ => append.value.clone(),
                    },
                    Option::None => append.value.clone(),
                };
                let n = new_value.as_str().as_bytes_vec().len();
                db.set(&append.key, DbType::String(new_value), None, now);
                Frame::Integer(len_to_i64(n))
            }
            Result::Err(_) => {
                proof {
                    assert(db.spec_map() =~= old(db).spec_map());
                }
                Frame::Error(String::from_str("ERR wrong number of arguments for 'append' command"))
            }
        }
    }

    fn parse_command(parse: &mut Parse) -> (r: Result<Self, ParseError>)
        ensures
            ({
                let rem = old(parse).remaining();
                let k = string_arg(rem, 0);
                let v = string_arg(rem, 1);
                if k is Some && v is Some {
                    (r matches Ok(a) && a.key@ == k->Some_0 && a.value@ == v->Some_0)
                } else {
                    r is Err
                }
            }),
    {
        let ghost rem = parse.remaining();
        let key = match parse.next_string() {
            Result::Ok(s) => s,
            Result::Err(e) => {
                return Err(e);
            }
        };
        let value = match parse.next_string() {
            Result::Ok(s) => s,
            Result::Err(e) => {
                return Err(e);
            }
        };
        Ok(Append { key, value })
    }
}

/// What one increment-style command does to a key: the new value, or
/// nothing when the stored text is no 64-bit integer or the sum leaves
/// the range.
pub open spec fn incr_outcome(cur: Option<EntryV>, step: i64) -> Option<i64> {
    match cur {
        Option::Some(e) => match e.value {
            ValueV::String(sv) => match spec_parse_i64_chars(sv) {
                Option::Some(v) => if i64::MIN <= v + step <= i64::MAX {
                    Some((v + step) as i64)
                } else {
                    None::<i64>
                },
                Option::None => None::<i64>,
            },
            _ => Some(step),
        },
        Option::None => Some(step),
    }
}

/// Adds `step` to the integer stored under the key the parser yields;
/// the shared engine of the increment and decrement commands.  An absent
/// key, or one of another type, starts from zero, so the key ends up
/// holding `step`.  A stored text that is no integer, or a sum leaving
/// the 64-bit range, replies the integer error and stores nothing.
fn incr_by(db: &mut Db, key: &String, step: i64, now: u64) -> (r: Frame)
    requires
        old(db).wf(),
    ensures
        final(db).wf(),
        final(db).channels() == old(db).channels(),
        final(db).patterns() == old(db).patterns(),
        final(db).wal_enabled() == old(db).wal_enabled(),
        (forall|k2: Seq<char>| k2 != key@ ==> final(db).spec_get(k2) == old(db).spec_get(k2)),
        match incr_outcome(old(db).spec_live_get(key@, now), step) {
            Option::Some(n) => {
                &&& r@ == FrameV::Integer(n)
                &&& final(db).spec_get(key@) == Option::Some(
                    EntryV {
                        value: ValueV::String(dec_chars_int(n as int)),
                        expiration: Option::None,
                    },
                )
                &&& final(db).wal_pending() == old(db).wal_pending() + set_record(
                    old(db).wal_enabled(),
                    key@,
                    ValueV::String(dec_chars_int(n as int)),
                    Option::<u64>::None,
                )
            },
            Option::None => {
                &&& r@ == FrameV::Error("ERR value is not an integer or out of range"@)
                &&& final(db).spec_get(key@) == old(db).spec_live_get(key@, now)
                &&& final(db).wal_pending() == old(db).wal_pending()
            },
        },
{
    let stored: Option<i64> = match db.get(key, now) {
        Option::Some(v) => match v {
            DbType::String(sv) => match parse_i64_string(sv) {
                Option::Some(cur) => Some(cur),
                Option::None => {
                    return Frame::Error(
                        String::from_str("ERR value is not an integer or out of range"),
                    );
                }
            },
            _ => None,
        },
        Option::None => None,
    };
    let new_value: i64 = match stored {
        Option::Some(cur) => {
            match cur.checked_add(step) {
                Option::Some(n) => n,
                Option::None => {
                    return Frame::Error(
                        String::from_str("ERR value is not an integer or out of range"),
                    );
                }
            }
        }
        Option::None => step,
    };
    db.set(key, DbType::String(crate::frame::i64_to_string(new_value)), None, now);
    Frame::Integer(new_value)
}

/// `INCR key`: adds one.
pub struct Incr {
    pub key: String,
    pub step: i64,
}

impl Incr {
    pub fn incr_command(db: &mut Db, parse: &mut Parse, now: u64) -> (r: Frame)
        requires
            old(db).wf(),
        ensures
            final(db).wf(),
            final(db).channels() == old(db).channels(),
            final(db).patterns() == old(db).patterns(),
            final(db).wal_enabled() == old(db).wal_enabled(),
            match string_arg(old(parse).remaining(), 0) {
                Option::Some(k) => (forall|k2: Seq<char>|
                    k2 != k ==> final(db).spec_get(k2) == old(db).spec_get(k2)) && (
                match incr_outcome(old(db).spec_live_get(k, now), 1) {
                    Option::Some(n) => r@ == FrameV::Integer(n) && final(db).spec_get(k)
                        == Option::Some(
                        EntryV {
                            value: ValueV::String(dec_chars_int(n as int)),
                            expiration: Option::None,
                        },
                    ),
                    Option::None => r@ == FrameV::Error(
                        "ERR value is not an integer or out of range"@,
                    ) && final(db).spec_get(k) == old(db).spec_live_get(k, now),
                }),
                Option::None => r@ == FrameV::Error(
                    "ERR wrong number of arguments for 'incr' command"@,
                ) && final(db).spec_map() == old(db).spec_map() && final(db).wal_pending() == old(db).wal_pending(),
            },
    {
        match Get::parse_keylike(parse) {
            Result::Ok(key) => incr_by(db, &key, 1, now),
            Result::Err(_) => {
                proof {
                    assert(db.spec_map() =~= old(db).spec_map());
                }
                Frame::Error(String::from_str("ERR wrong number of arguments for 'incr' command"))
            }
        }
    }
}

/// `DECR key`: subtracts one.
pub struct Decr {
    pub key: String,
}

impl Decr {
    pub fn decr_command(db: &mut Db, parse: &mut Parse, now: u64) -> (r: Frame)
        requires
            old(db).wf(),
        ensures
            final(db).wf(),
            final(db).channels() == old(db).channels(),
            final(db).patterns() == old(db).patterns(),
            final(db).wal_enabled() == old(db).wal_enabled(),
            match string_arg(old(parse).remaining(), 0) {
                Option::Some(k) => (forall|k2: Seq<char>|
                    k2 != k ==> final(db).spec_get(k2) == old(db).spec_get(k2)) && (
                match incr_outcome(old(db).spec_live_get(k, now), -1i64) {
                    Option::Some(n) => r@ == FrameV::Integer(n) && final(db).spec_get(k)
                        == Option::Some(
                        EntryV {
                            value: ValueV::String(dec_chars_int(n as int)),
                            expiration: Option::None,
                        },
                    ),
                    Option::None => r@ == FrameV::Error(
                        "ERR value is not an integer or out of range"@,
                    ) && final(db).spec_get(k) == old(db).spec_live_get(k, now),
                }),
                Option::None => r@ == FrameV::Error(
                    "ERR wrong number of arguments for 'decr' command"@,
                ) && final(db).spec_map() == old(db).spec_map() && final(db).wal_pending() == old(db).wal_pending(),
            },
    {
        match Get::parse_keylike(parse) {
            Result::Ok(key) => incr_by(db, &key, -1, now),
            Result::Err(_) => {
                proof {
                    assert(db.spec_map() =~= old(db).spec_map());
                }
                Frame::Error(String::from_str("ERR wrong number of arguments for 'decr' command"))
            }
        }
    }
}

/// `INCRBY key step`.
pub struct IncrBy {
    pub key: String,
    pub step: i64,
}

impl IncrBy {
    pub fn incrby_command(db: &mut Db, parse: &mut Parse, now: u64) -> (r: Frame)
        requires
            old(db).wf(),
        ensures
            final(db).wf(),
            final(db).channels() == old(db).channels(),
            final(db).patterns() == old(db).patterns(),
            final(db).wal_enabled() == old(db).wal_enabled(),
            ({
                let rem = old(parse).remaining();
                let k = string_arg(rem, 0);
                let st = match string_arg(rem, 1) {
                    Option::Some(t) => spec_parse_i64_chars(t),
                    Option::None => None::<i64>,
                };
                if k is Some && st is Some {
                    let key = k->Some_0;
                    &&& (forall|k2: Seq<char>|
                        k2 != key ==> final(db).spec_get(k2) == old(db).spec_get(k2))
                    &&& match incr_outcome(old(db).spec_live_get(key, now), st->Some_0) {
                        Option::Some(n) => r@ == FrameV::Integer(n) && final(db).spec_get(key)
                            == Option::Some(
                            EntryV {
                                value: ValueV::String(dec_chars_int(n as int)),
                                expiration: Option::None,
                            },
                        ),
                        Option::None => r@ == FrameV::Error(
                            "ERR value is not an integer or out of range"@,
                        ) && final(db).spec_get(key) == old(db).spec_live_get(key, now),
                    }
                } else if k is Some && string_arg(rem, 1) is Some {
                    r@ == FrameV::Error("ERR value is not an integer or out of range"@) && final(db).spec_map() == old(db).spec_map()
                } else {
                    r@ == FrameV::Error("ERR wrong number of arguments for 'incrby' command"@)
                        && final(db).spec_map() == old(db).spec_map()
                }
            }),
    {
        let ghost rem = parse.remaining();
        let key = match parse.next_string() {
            Result::Ok(s) => s,
            Result::Err(_) => {
                proof {
                    assert(db.spec_map() =~= old(db).spec_map());
                }
                return Frame::Error(
                    String::from_str("ERR wrong number of arguments for 'incrby' command"),
                );
            }
        };
        let ghost cur2 = parse.remaining();
        let step_text = match parse.next_string() {
            Result::Ok(s) => s,
            Result::Err(_) => {
                proof {
                    assert(string_arg(rem, 1) is None) by {
                        assert(rem.skip(1) =~= cur2);
                    }
                    assert(db.spec_map() =~= old(db).spec_map());
                }
                return Frame::Error(
                    String::from_str("ERR wrong number of arguments for 'incrby' command"),
                );
            }
        };
        proof {
            assert(string_arg(rem, 1) == Some(step_text@)) by {
                assert(rem.skip(1) =~= cur2);
            }
        }
        match parse_i64_string(&step_text) {
            Option::Some(step) => incr_by(db, &key, step, now),
            Option::None => {
                proof {
                    assert(db.spec_map() =~= old(db).spec_map());
                }
                Frame::Error(String::from_str("ERR value is not an integer or out of range"))
            }
        }
    }
}

/// `DECRBY key step`.
pub struct DecrBy {
    pub key: String,
    pub step: i64,
}

impl DecrBy {
    pub fn decrby_command(db: &mut Db, parse: &mut Parse, now: u64) -> (r: Frame)
        requires
            old(db).wf(),
        ensures
            final(db).wf(),
            final(db).channels() == old(db).channels(),
            final(db).patterns() == old(db).patterns(),
            final(db).wal_enabled() == old(db).wal_enabled(),
            ({
                let rem = old(parse).remaining();
                let k = string_arg(rem, 0);
                let st = match string_arg(rem, 1) {
                    Option::Some(t) => spec_parse_i64_chars(t),
                    Option::None => None::<i64>,
                };
                if k is Some && st is Some && st->Some_0 > i64::MIN {
                    let key = k->Some_0;
                    &&& (forall|k2: Seq<char>|
                        k2 != key ==> final(db).spec_get(k2) == old(db).spec_get(k2))
                    &&& match incr_outcome(
                        old(db).spec_live_get(key, now),
                        (0 - st->Some_0) as i64,
                    ) {
                        Option::Some(n) => r@ == FrameV::Integer(n) && final(db).spec_get(key)
                            == Option::Some(
                            EntryV {
                                value: ValueV::String(dec_chars_int(n as int)),
                                expiration: Option::None,
                            },
                        ),
                        Option::None => r@ == FrameV::Error(
                            "ERR value is not an integer or out of range"@,
                        ) && final(db).spec_get(key) == old(db).spec_live_get(key, now),
                    }
                } else if k is Some && st is Some {
                    r@ == FrameV::Error("ERR value is not an integer or out of range"@) && final(db).spec_map() == old(db).spec_map()
                } else if k is Some && string_arg(rem, 1) is Some {
                    r@ == FrameV::Error("ERR value is not an integer or out of range"@) && final(db).spec_map() == old(db).spec_map()
                } else {
                    r@ == FrameV::Error("ERR wrong number of arguments for 'decrby' command"@)
                        && final(db).spec_map() == old(db).spec_map()
                }
            }),
    {
        let ghost rem = parse.remaining();
        let key = match parse.next_string() {
            Result::Ok(s) => s,
            Result::Err(_) => {
                proof {
                    assert(db.spec_map() =~= old(db).spec_map());
                }
                return Frame::Error(
                    String::from_str("ERR wrong number of arguments for 'decrby' command"),
                );
            }
        };
        let ghost cur2 = parse.remaining();
        let step_text = match parse.next_string() {
            Result::Ok(s) => s,
            Result::Err(_) => {
                proof {
                    assert(string_arg(rem, 1) is None) by {
                        assert(rem.skip(1) =~= cur2);
                    }
                    assert(db.spec_map() =~= old(db).spec_map());
                }
                return Frame::Error(
                    String::from_str("ERR wrong number of arguments for 'decrby' command"),
                );
            }
        };
        proof {
            assert(string_arg(rem, 1) == Some(step_text@)) by {
                assert(rem.skip(1) =~= cur2);
            }
        }
        match parse_i64_string(&step_text) {
            Option::Some(step) => {
                if step == i64::MIN {
                    proof {
                        assert(db.spec_map() =~= old(db).spec_map());
                    }
                    return Frame::Error(
                        String::from_str("ERR value is not an integer or out of range"),
                    );
                }
                incr_by(db, &key, -step, now)
            }
            Option::None => {
                proof {
                    assert(db.spec_map() =~= old(db).spec_map());
                }
                Frame::Error(String::from_str("ERR value is not an integer or out of range"))
            }
        }
    }
}

/// The binding of `k` in `m` when it is live at `now`.
pub open spec fn live_of(m: Map<Seq<char>, EntryV>, k: Seq<char>, now: u64) -> Option<EntryV> {
    if m.dom().contains(k) && crate::db::entry_live(m[k], now) {
        Some(m[k])
    } else {
        None::<EntryV>
    }
}

/// The store after deleting `keys[i..]` in order.
pub open spec fn dels_map(m: Map<Seq<char>, EntryV>, keys: Seq<Seq<char>>, i: int) -> Map<
    Seq<char>,
    EntryV,
>
    decreases keys.len() - i,
{
    if i < 0 || i >= keys.len() {
        m
    } else {
        dels_map(m.remove(keys[i]), keys, i + 1)
    }
}

/// How many of those deletions removed a live entry.
pub open spec fn dels_count(m: Map<Seq<char>, EntryV>, keys: Seq<Seq<char>>, i: int, now: u64) -> int
    decreases keys.len() - i,
{
    if i < 0 || i >= keys.len() {
        0
    } else {
        (if live_of(m, keys[i], now) is Some {
            1int
        } else {
            0int
        }) + dels_count(m.remove(keys[i]), keys, i + 1, now)
    }
}

/// The log records those deletions emit, one per counted removal.
pub open spec fn dels_wal(
    enabled: bool,
    m: Map<Seq<char>, EntryV>,
    keys: Seq<Seq<char>>,
    i: int,
    now: u64,
) -> Seq<u8>
    decreases keys.len() - i,
{
    if i < 0 || i >= keys.len() {
        Seq::<u8>::empty()
    } else {
        (if live_of(m, keys[i], now) is Some {
            record_if(enabled, "del"@, seq![keys[i]])
        } else {
            Seq::<u8>::empty()
        }) + dels_wal(enabled, m.remove(keys[i]), keys, i + 1, now)
    }
}

/// `DEL key [key ...]`.
pub struct Del {
    pub keys: Vec<String>,
}

impl Del {
    /// Removes every named key, replying how many held a live entry; a
    /// dead entry met on the way is evicted without being counted.  Each
    /// counted removal is recorded in the log.
    #[verifier::loop_isolation(false)]
    pub fn del_command(db: &mut Db, parse: &mut Parse, now: u64) -> (r: Frame)
        requires
            old(db).wf(),
        ensures
            final(db).wf(),
            final(db).channels() == old(db).channels(),
            final(db).patterns() == old(db).patterns(),
            final(db).wal_enabled() == old(db).wal_enabled(),
            ({
                let keys = crate::parse::args_prefix(old(parse).remaining());
                if keys.len() == 0 {
                    &&& r@ == FrameV::Error("ERR wrong number of arguments for 'del' command"@)
                    &&& final(db).spec_map() == old(db).spec_map()
                    &&& final(db).wal_pending() == old(db).wal_pending()
                } else {
                    &&& r@ == FrameV::Integer(
                        int_len(dels_count(old(db).spec_map(), keys, 0, now) as nat),
                    )
                    &&& final(db).spec_map() == dels_map(old(db).spec_map(), keys, 0)
                    &&& final(db).wal_pending() == old(db).wal_pending() + dels_wal(
                        old(db).wal_enabled(),
                        old(db).spec_map(),
                        keys,
                        0,
                        now,
                    )
                }
            }),
    {
        let keys = parse.collect_strings();
        let ghost kv = keys.deep_view();
        if keys.len() == 0 {
            proof {
                assert(db.spec_map() =~= old(db).spec_map());
            }
            return Frame::Error(String::from_str("ERR wrong number of arguments for 'del' command"));
        }
        let ghost m0 = db.spec_map();
        let ghost w0 = db.wal_pending();
        let mut count: usize = 0;
        let mut j: usize = 0;
        proof {
            lemma_dels_count_bounds(m0, kv, 0, now);
        }
        while j < keys.len()
            invariant
                0 <= j <= kv.len(),
                count <= j,
                db.wf(),
                db.channels() == old(db).channels(),
                db.patterns() == old(db).patterns(),
                db.wal_enabled() == old(db).wal_enabled(),
                dels_map(m0, kv, 0) == dels_map(db.spec_map(), kv, j as int),
                dels_count(m0, kv, 0, now) == count + dels_count(db.spec_map(), kv, j as int, now),
                w0 + dels_wal(old(db).wal_enabled(), m0, kv, 0, now) == db.wal_pending()
                    + dels_wal(old(db).wal_enabled(), db.spec_map(), kv, j as int, now),
            decreases kv.len() - j,
        {
            let ghost mcur = db.spec_map();
            let ghost wcur = db.wal_pending();
            proof {
                assert(kv[j as int] == keys@[j as int]@);
                assert(live_of(mcur, kv[j as int], now) is Some <==> db.spec_live_get(
                    kv[j as int],
                    now,
                ) is Some);
            }
            let removed = db.del(&keys[j], now);
            proof {
                assert(db.spec_map() =~= mcur.remove(kv[j as int]));
                lemma_dels_count_bounds(db.spec_map(), kv, j + 1, now);
            }
            if removed {
                count = count + 1;
            } else {
                proof {
                    assert(db.wal_pending() =~= wcur + Seq::<u8>::empty());
                    assert(db.wal_pending() =~= wcur);
                }
            }
            j = j + 1;
        }
        proof {
            assert(dels_map(db.spec_map(), kv, kv.len() as int) == db.spec_map());
            assert(db.wal_pending() + Seq::<u8>::empty() =~= db.wal_pending());
        }
        Frame::Integer(len_to_i64(count))
    }
}

/// Each deletion counts at most one.
pub proof fn lemma_dels_count_bounds(
    m: Map<Seq<char>, EntryV>,
    keys: Seq<Seq<char>>,
    i: int,
    now: u64,
)
    requires
        0 <= i <= keys.len(),
    ensures
        0 <= dels_count(m, keys, i, now) <= keys.len() - i,
    decreases keys.len() - i,
{
    if i < keys.len() {
        lemma_dels_count_bounds(m.remove(keys[i]), keys, i + 1, now);
    }
}

/// The replies one multi-get produces, in key order.
pub open spec fn mget_frames(
    m: Map<Seq<char>, EntryV>,
    keys: Seq<Seq<char>>,
    i: int,
    now: u64,
) -> Seq<FrameV>
    decreases keys.len() - i,
{
    if i < 0 || i >= keys.len() {
        Seq::<FrameV>::empty()
    } else {
        let f = match live_of(m, keys[i], now) {
            Option::Some(e) => match e.value {
                ValueV::String(sv) => FrameV::Simple(sv),
                _ => FrameV::Error(wrongtype()),
            },
            Option::None => FrameV::Null,
        };
        seq![f] + mget_frames(mget_step(m, keys[i], now), keys, i + 1, now)
    }
}

/// The store after one read's lazy eviction.
pub open spec fn mget_step(m: Map<Seq<char>, EntryV>, k: Seq<char>, now: u64) -> Map<
    Seq<char>,
    EntryV,
> {
    if m.dom().contains(k) && !crate::db::entry_live(m[k], now) {
        m.remove(k)
    } else {
        m
    }
}

/// The store after all the reads.
pub open spec fn mget_map(m: Map<Seq<char>, EntryV>, keys: Seq<Seq<char>>, i: int, now: u64) -> Map<
    Seq<char>,
    EntryV,
>
    decreases keys.len() - i,
{
    if i < 0 || i >= keys.len() {
        m
    } else {
        mget_map(mget_step(m, keys[i], now), keys, i + 1, now)
    }
}

/// `MGET key [key ...]`.
pub struct Mget {
    pub keys: Vec<String>,
}

impl Mget {
    /// Replies an array with one element per key: the string value, the
    /// wrong-type error for another type, null for an absent or expired
    /// key.  Dead entries met are evicted.
    #[verifier::loop_isolation(false)]
    pub fn mget_command(db: &mut Db, parse: &mut Parse, now: u64) -> (r: Frame)
        requires
            old(db).wf(),
        ensures
            final(db).wf(),
            final(db).channels() == old(db).channels(),
            final(db).patterns() == old(db).patterns(),
            final(db).wal_enabled() == old(db).wal_enabled(),
            final(db).wal_pending() == old(db).wal_pending(),
            ({
                let keys = crate::parse::args_prefix(old(parse).remaining());
                if keys.len() == 0 {
                    &&& r@ == FrameV::Error("ERR wrong number of arguments for 'mget' command"@)
                    &&& final(db).spec_map() == old(db).spec_map()
                } else {
                    &&& r@ == FrameV::Array(mget_frames(old(db).spec_map(), keys, 0, now))
                    &&& final(db).spec_map() == mget_map(old(db).spec_map(), keys, 0, now)
                }
            }),
    {
        let keys = parse.collect_strings();
        let ghost kv = keys.deep_view();
        if keys.len() == 0 {
            proof {
                assert(db.spec_map() =~= old(db).spec_map());
            }
            return Frame::Error(String::from_str("ERR wrong number of arguments for 'mget' command"));
        }
        let ghost m0 = db.spec_map();
        let mut result: Vec<Frame> = Vec::new();
        let mut j: usize = 0;
        proof {
            crate::frame::lemma_views_of(result@);
        }
        while j < keys.len()
            invariant
                0 <= j <= kv.len(),
                db.wf(),
                db.channels() == old(db).channels(),
                db.patterns() == old(db).patterns(),
                db.wal_enabled() == old(db).wal_enabled(),
                db.wal_pending() == old(db).wal_pending(),
                mget_map(m0, kv, 0, now) == mget_map(db.spec_map(), kv, j as int, now),
                mget_frames(m0, kv, 0, now) == crate::frame::views_of(result@) + mget_frames(
                    db.spec_map(),
                    kv,
                    j as int,
                    now,
                ),
            decreases kv.len() - j,
        {
            let ghost mcur = db.spec_map();
            proof {
                assert(kv[j as int] == keys@[j as int]@);
            }
            let f: Frame = match db.get(&keys[j], now) {
                Option::Some(v) => match v {
                    DbType::String(sv) => Frame::Simple(sv.clone()),
                    _ => wrongtype_frame(),
                },
                Option::None => Frame::Null,
            };
            proof {
                assert(db.spec_map() =~= mget_step(mcur, kv[j as int], now));
            }
            let ghost pre = result@;
            result.push(f);
            proof {
                crate::frame::lemma_views_of_push(pre, result@.last());
                crate::frame::lemma_views_of(result@);
                assert(crate::frame::views_of(pre) + (seq![result@.last()@] + mget_frames(
                    db.spec_map(),
                    kv,
                    j + 1,
                    now,
                )) =~= crate::frame::views_of(result@) + mget_frames(db.spec_map(), kv, j + 1, now));
            }
            j = j + 1;
        }
        proof {
            assert(crate::frame::views_of(result@) + Seq::<FrameV>::empty() =~= crate::frame::views_of(
                result@,
            ));
        }
        Frame::Array(result)
    }
}

/// The key/value pairs at the front of the arguments: pairs of readable
/// strings up to the first unreadable key; a key whose value is missing
/// or unreadable is a parse error.
pub open spec fn kv_pairs(rem: Seq<FrameV>) -> Option<Seq<(Seq<char>, Seq<char>)>>
    decreases rem.len(),
{
    match string_arg(rem, 0) {
        Option::None => Some(Seq::<(Seq<char>, Seq<char>)>::empty()),
        Option::Some(k) => match string_arg(rem, 1) {
            Option::None => None::<Seq<(Seq<char>, Seq<char>)>>,
            Option::Some(v) => match kv_pairs(rem.skip(2)) {
                Option::Some(rest) => Some(seq![(k, v)] + rest),
                Option::None => None::<Seq<(Seq<char>, Seq<char>)>>,
            },
        },
    }
}

/// The store after setting each pair in order, no expirations.
pub open spec fn msets_map(
    m: Map<Seq<char>, EntryV>,
    pairs: Seq<(Seq<char>, Seq<char>)>,
    i: int,
) -> Map<Seq<char>, EntryV>
    decreases pairs.len() - i,
{
    if i < 0 || i >= pairs.len() {
        m
    } else {
        msets_map(
            m.insert(
                pairs[i].0,
                EntryV { value: ValueV::String(pairs[i].1), expiration: None },
            ),
            pairs,
            i + 1,
        )
    }
}

/// The log records those sets emit.
pub open spec fn msets_wal(enabled: bool, pairs: Seq<(Seq<char>, Seq<char>)>, i: int) -> Seq<u8>
    decreases pairs.len() - i,
{
    if i < 0 || i >= pairs.len() {
        Seq::<u8>::empty()
    } else {
        set_record(enabled, pairs[i].0, ValueV::String(pairs[i].1), None::<u64>) + msets_wal(
            enabled,
            pairs,
            i + 1,
        )
    }
}

/// Whether the pair list satisfies the command's arity rule: at least
/// one pair, and an even number of them.
pub open spec fn pairs_arity_ok(pairs: Seq<(Seq<char>, Seq<char>)>) -> bool {
    pairs.len() >= 1 && pairs.len() % 2 == 0
}

/// `MSET key value [key value ...]`.
pub struct Mset {
    pub keys_values: Vec<(String, String)>,
}

impl Mset {
    /// Stores each pair in order and replies `OK`; each set is recorded
    /// in the log.
    #[verifier::loop_isolation(false)]
    pub fn mset_command(db: &mut Db, parse: &mut Parse, now: u64) -> (r: Frame)
        requires
            old(db).wf(),
        ensures
            final(db).wf(),
            final(db).channels() == old(db).channels(),
            final(db).patterns() == old(db).patterns(),
            final(db).wal_enabled() == old(db).wal_enabled(),
            ({
                let ps = kv_pairs(old(parse).remaining());
                if ps is Some && pairs_arity_ok(ps->Some_0) {
                    &&& r@ == FrameV::Simple("OK"@)
                    &&& final(db).spec_map() == msets_map(old(db).spec_map(), ps->Some_0, 0)
                    &&& final(db).wal_pending() == old(db).wal_pending() + msets_wal(
                        old(db).wal_enabled(),
                        ps->Some_0,
                        0,
                    )
                } else {
                    &&& r@ == FrameV::Error("ERR wrong number of arguments for 'mset' command"@)
                    &&& final(db).spec_map() == old(db).spec_map()
                    &&& final(db).wal_pending() == old(db).wal_pending()
                }
            }),
    {
        match collect_pairs(parse) {
            Result::Err(_) => {
                proof {
                    assert(db.spec_map() =~= old(db).spec_map());
                }
                Frame::Error(String::from_str("ERR wrong number of arguments for 'mset' command"))
            }
            Result::Ok(pairs) => {
                if pairs.len() == 0 || pairs.len() % 2 != 0 {
                    proof {
                        assert(db.spec_map() =~= old(db).spec_map());
                    }
                    return Frame::Error(
                        String::from_str("ERR wrong number of arguments for 'mset' command"),
                    );
                }
                apply_msets(db, &pairs, now);
                Frame::Simple(String::from_str("OK"))
            }
        }
    }
}

/// Stores each pair in order with no expiration, recording each set.
#[verifier::loop_isolation(false)]
fn apply_msets(db: &mut Db, pairs: &Vec<(String, String)>, now: u64)
    requires
        old(db).wf(),
    ensures
        final(db).wf(),
        final(db).channels() == old(db).channels(),
        final(db).patterns() == old(db).patterns(),
        final(db).wal_enabled() == old(db).wal_enabled(),
        final(db).spec_map() == msets_map(old(db).spec_map(), crate::db::pair_views(pairs@), 0),
        final(db).wal_pending() == old(db).wal_pending() + msets_wal(
            old(db).wal_enabled(),
            crate::db::pair_views(pairs@),
            0,
        ),
{
    let ghost pv = crate::db::pair_views(pairs@);
    let ghost m0 = db.spec_map();
    let ghost w0 = db.wal_pending();
    let mut j: usize = 0;
    while j < pairs.len()
        invariant
            0 <= j <= pv.len(),
            db.wf(),
            db.channels() == old(db).channels(),
            db.patterns() == old(db).patterns(),
            db.wal_enabled() == old(db).wal_enabled(),
            msets_map(m0, pv, 0) == msets_map(db.spec_map(), pv, j as int),
            w0 + msets_wal(old(db).wal_enabled(), pv, 0) == db.wal_pending() + msets_wal(
                old(db).wal_enabled(),
                pv,
                j as int,
            ),
        decreases pv.len() - j,
    {
        let ghost mcur = db.spec_map();
        proof {
            assert(pv[j as int] == (pairs@[j as int].0@, pairs@[j as int].1@));
        }
        let kv = &pairs[j];
        db.set(&kv.0, DbType::String(kv.1.clone()), None, now);
        proof {
            assert(db.spec_map() =~= mcur.insert(
                pv[j as int].0,
                EntryV { value: ValueV::String(pv[j as int].1), expiration: None },
            ));
        }
        j = j + 1;
    }
    proof {
        assert(db.wal_pending() + Seq::<u8>::empty() =~= db.wal_pending());
    }
}

/// Reads pairs of arguments until the first frame that is no readable
/// key; a key without a readable value is an error.
pub(crate) fn collect_pairs(parse: &mut Parse) -> (r: Result<Vec<(String, String)>, ParseError>)
    ensures
        match kv_pairs(old(parse).remaining()) {
            Option::Some(ps) => (r matches Ok(v) && crate::db::pair_views(v@) == ps),
            Option::None => r is Err,
        },
{
    let mut out: Vec<(String, String)> = Vec::new();
    let mut failed = false;
    proof {
        assert(crate::db::pair_views(out@) =~= Seq::<(Seq<char>, Seq<char>)>::empty());
    }
    loop
        invariant_except_break
            !failed,
            kv_pairs(old(parse).remaining()) == (match kv_pairs(parse.remaining()) {
                Option::Some(rest) => Option::Some(crate::db::pair_views(out@) + rest),
                Option::None => Option::<Seq<(Seq<char>, Seq<char>)>>::None,
            }),
        ensures
            match kv_pairs(old(parse).remaining()) {
                Option::Some(ps) => !failed && crate::db::pair_views(out@) == ps,
                Option::None => failed,
            },
        decreases parse.remaining().len(),
    {
        let ghost cur = parse.remaining();
        let ghost pre = crate::db::pair_views(out@);
        let key = match parse.next_string() {
            Result::Ok(s) => s,
            Result::Err(_) => {
                proof {
                    assert(string_arg(cur, 0) is None);
                    assert(pre + Seq::<(Seq<char>, Seq<char>)>::empty() =~= pre);
                }
                break ;
            }
        };
        proof {
            assert(cur.len() > 0);
            assert(string_arg(cur, 0) == Some(key@));
        }
        let ghost cur2 = parse.remaining();
        let value = match parse.next_string() {
            Result::Ok(s) => s,
            Result::Err(_) => {
                proof {
                    assert(string_arg(cur, 1) is None) by {
                        assert(cur.skip(1) =~= cur2);
                    }
                }
                failed = true;
                break ;
            }
        };
        proof {
            assert(string_arg(cur, 1) == Some(value@)) by {
                assert(cur.skip(1) =~= cur2);
            }
            assert(parse.remaining() =~= cur.skip(2));
        }
        let ghost kvv = (key@, value@);
        out.push((key, value));
        proof {
            assert(crate::db::pair_views(out@) =~= pre.push(kvv));
            assert forall|rest0: Seq<(Seq<char>, Seq<char>)>| true implies pre + (seq![kvv]
                + rest0) =~= crate::db::pair_views(out@) + rest0 by {}
        }
    }
    if failed {
        Err(ParseError::EndOfStream)
    } else {
        Ok(out)
    }
}

/// `MSETNX key value [key value ...]`.
pub struct Msetnx {
    pub keys_values: Vec<(String, String)>,
}

impl Msetnx {
    /// Stores every pair only when none of the keys is live: replies one
    /// and records each set when it stores, zero and touches nothing
    /// when any key is live.
    #[verifier::loop_isolation(false)]
    pub fn msetnx_command(db: &mut Db, parse: &mut Parse, now: u64) -> (r: Frame)
        requires
            old(db).wf(),
        ensures
            final(db).wf(),
            final(db).channels() == old(db).channels(),
            final(db).patterns() == old(db).patterns(),
            final(db).wal_enabled() == old(db).wal_enabled(),
            ({
                let ps = kv_pairs(old(parse).remaining());
                if ps is Some && pairs_arity_ok(ps->Some_0) {
                    let pairs = ps->Some_0;
                    if exists|q: int|
                        0 <= q < pairs.len() && live_of(
                            old(db).spec_map(),
                            (#[trigger] pairs[q]).0,
                            now,
                        ) is Some {
                        &&& r@ == FrameV::Integer(0)
                        &&& final(db).spec_map() == old(db).spec_map()
                        &&& final(db).wal_pending() == old(db).wal_pending()
                    } else {
                        &&& r@ == FrameV::Integer(1)
                        &&& final(db).spec_map() == msets_map(old(db).spec_map(), pairs, 0)
                        &&& final(db).wal_pending() == old(db).wal_pending() + msets_wal(
                            old(db).wal_enabled(),
                            pairs,
                            0,
                        )
                    }
                } else {
                    &&& r@ == FrameV::Error("ERR wrong number of arguments for 'msetnx' command"@)
                    &&& final(db).spec_map() == old(db).spec_map()
                    &&& final(db).wal_pending() == old(db).wal_pending()
                }
            }),
    {
        match collect_pairs(parse) {
            Result::Err(_) => {
                proof {
                    assert(db.spec_map() =~= old(db).spec_map());
                }
                Frame::Error(String::from_str("ERR wrong number of arguments for 'msetnx' command"))
            }
            Result::Ok(pairs) => {
                let ghost pv = crate::db::pair_views(pairs@);
                if pairs.len() == 0 || pairs.len() % 2 != 0 {
                    proof {
                        assert(db.spec_map() =~= old(db).spec_map());
                    }
                    return Frame::Error(
                        String::from_str("ERR wrong number of arguments for 'msetnx' command"),
                    );
                }
                let mut j: usize = 0;
                while j < pairs.len()
                    invariant
                        0 <= j <= pv.len(),
                        db.wf(),
                        *db == *old(db),
                        forall|q: int|
                            0 <= q < j ==> live_of(db.spec_map(), (#[trigger] pv[q]).0, now)
                                is None,
                    decreases pv.len() - j,
                {
                    proof {
                        assert(pv[j as int] == (pairs@[j as int].0@, pairs@[j as int].1@));
                    }
                    if db.has_live(&pairs[j].0, now) {
                        proof {
                            assert(live_of(db.spec_map(), pv[j as int].0, now) is Some);
                        }
                        return Frame::Integer(0);
                    }
                    j = j + 1;
                }
                apply_msets(db, &pairs, now);
                Frame::Integer(1)
            }
        }
    }
}

} // verus!
