//! The list-type commands.
//!
//! The blocking pops (`BLPOP`, `BRPOP`) parse here and pop through the
//! store like their plain forms; the waiting loop between attempts needs
//! a clock and a sleep, so the binary drives it.

use vstd::prelude::*;

verus! {

broadcast use vstd::std_specs::vec::group_vec_axioms, vstd::seq::group_seq_axioms,
    vstd::map::group_map_axioms;

use vstd::utf8::encode_utf8;
use crate::aof::{parse_i64_string, parse_u64_string, spec_parse_i64_chars, spec_parse_u64_chars,
    record_if};
use crate::db::{Db, DbType, EntryV, ValueV, WrongType, clamp_index, trim_spec, lrem_spec,
    push_spec, string_views};
use crate::frame::{Frame, FrameV, views_of, lemma_views_of, lemma_views_of_push, dec_chars_int};
use crate::parse::{Parse, ParseError, string_arg, args_prefix, count_leading_strings};
use crate::cmd_misc::{int_len, len_to_i64, wrongtype, wrongtype_frame};

/// `RPUSH key value [value ...]`.
pub struct Rpush {
    pub key: String,
    pub values: Vec<String>,
}

impl Rpush {
    /// Appends the values in order, creating the list when the key is
    /// absent, and replies the list's new length; a key of another type
    /// changes nothing and replies the wrong-type error.  The push is
    /// recorded in the log as one record.
    pub fn rpush_command(db: &mut Db, parse: &mut Parse, _now: u64) -> (r: Frame)
        requires
            old(db).wf(),
        ensures
            final(db).wf(),
            final(db).channels() == old(db).channels(),
            final(db).patterns() == old(db).patterns(),
            final(db).wal_enabled() == old(db).wal_enabled(),
            ({
                let rem = old(parse).remaining();
                let cnt = count_leading_strings(rem);
                let k = string_arg(rem, 0);
                let values = args_prefix(rem.skip(1));
                if cnt >= 2 && k is Some {
                    let key = k->Some_0;
                    &&& (forall|k2: Seq<char>|
                        k2 != key ==> final(db).spec_get(k2) == old(db).spec_get(k2))
                    &&& match old(db).spec_get(key) {
                        Option::Some(e) => match e.value {
                            ValueV::List(l) => {
                                &&& r@ == FrameV::Integer(int_len(l.len() + values.len()))
                                &&& final(db).spec_get(key) == Option::Some(
                                    EntryV {
                                        value: ValueV::List(push_spec(l, values, false)),
                                        expiration: e.expiration,
                                    },
                                )
                                &&& final(db).wal_pending() == old(db).wal_pending() + record_if(
                                    old(db).wal_enabled(),
                                    "rpush"@,
                                    seq![key] + values,
                                )
                            },
                            _ => r@ == FrameV::Error(wrongtype()) && final(db).spec_get(key)
                                == old(db).spec_get(key) && final(db).wal_pending() == old(db).wal_pending(),
                        },
                        Option::None => {
                            &&& r@ == FrameV::Integer(int_len(values.len()))
                            &&& final(db).spec_get(key) == Option::Some(
                                EntryV {
                                    value: ValueV::List(
                                        push_spec(Seq::<Seq<char>>::empty(), values, false),
                                    ),
                                    expiration: Option::None,
                                },
                            )
                            &&& final(db).wal_pending() == old(db).wal_pending() + record_if(
                                old(db).wal_enabled(),
                                "rpush"@,
                                seq![key] + values,
                            )
                        },
                    }
                } else {
                    r@ == FrameV::Error("ERR wrong number of arguments for 'rpush' command"@)
                        && final(db).spec_map() == old(db).spec_map() && final(db).wal_pending()
                        == old(db).wal_pending()
                }
            }),
    {
        let ghost rem = parse.remaining();
        let n = parse.args_number();
        if n < 2 {
            proof {
                assert(db.spec_map() =~= old(db).spec_map());
            }
            return Frame::Error(String::from_str("ERR wrong number of arguments for 'rpush' command"));
        }
        let key = match parse.next_string() {
            Result::Ok(s) => s,
            Result::Err(_) => {
                proof {
                    assert(db.spec_map() =~= old(db).spec_map());
                }
                return Frame::Error(
                    String::from_str("ERR wrong number of arguments for 'rpush' command"),
                );
            }
        };
        proof {
            assert(parse.remaining() =~= rem.skip(1));
        }
        let values = parse.collect_strings();
        match db.list_push(&key, &values, false) {
            Result::Ok(len) => Frame::Integer(len_to_i64(len)),
            Result::Err(_) => wrongtype_frame(),
        }
    }
}

/// Pops one element from the chosen end: the shared engine of the four
/// pop commands.
fn pop_command(db: &mut Db, parse: &mut Parse, front: bool, errtext: &str) -> (r: Frame)
    requires
        old(db).wf(),
    ensures
        final(db).wf(),
        final(db).channels() == old(db).channels(),
        final(db).patterns() == old(db).patterns(),
        final(db).wal_enabled() == old(db).wal_enabled(),
        ({
            let rem = old(parse).remaining();
            let k = string_arg(rem, 0);
            if count_leading_strings(rem) == 1 && k is Some {
                let key = k->Some_0;
                &&& (forall|k2: Seq<char>|
                    k2 != key ==> final(db).spec_get(k2) == old(db).spec_get(k2))
                &&& match old(db).spec_get(key) {
                    Option::Some(e) => match e.value {
                        ValueV::List(l) => if l.len() == 0 {
                            r@ == FrameV::Null && final(db).spec_get(key) == old(db).spec_get(key)
                                && final(db).wal_pending() == old(db).wal_pending()
                        } else {
                            &&& r@ == FrameV::Bulk(
                                encode_utf8(
                                    if front {
                                        l[0]
                                    } else {
                                        l.last()
                                    },
                                ),
                            )
                            &&& final(db).spec_get(key) == Option::Some(
                                EntryV {
                                    value: ValueV::List(
                                        if front {
                                            l.skip(1)
                                        } else {
                                            l.drop_last()
                                        },
                                    ),
                                    expiration: e.expiration,
                                },
                            )
                            &&& final(db).wal_pending() == old(db).wal_pending() + record_if(
                                old(db).wal_enabled(),
                                if front {
                                    "lpop"@
                                } else {
                                    "rpop"@
                                },
                                seq![key],
                            )
                        },
                        _ => r@ == FrameV::Error(wrongtype()) && final(db).spec_get(key) == old(db).spec_get(key) && final(db).wal_pending() == old(db).wal_pending(),
                    },
                    Option::None => r@ == FrameV::Null && final(db).spec_get(key) is None && final(db).wal_pending() == old(db).wal_pending(),
                }
            } else {
                r@ == FrameV::Error(errtext@) && final(db).spec_map() == old(db).spec_map()
                    && final(db).wal_pending() == old(db).wal_pending()
            }
        }),
{
    let key = match crate::cmd_hash::parse_exactly_one(parse) {
        Result::Ok(k) => k,
        Result::Err(_) => {
            proof {
                assert(db.spec_map() =~= old(db).spec_map());
            }
            return Frame::Error(String::from_str(errtext));
        }
    };
    match db.list_pop(&key, front) {
        Result::Ok(Option::Some(v)) => Frame::Bulk(v.as_str().as_bytes_vec()),
        Result::Ok(Option::None) => Frame::Null,
        Result::Err(_) => wrongtype_frame(),
    }
}

/// `LPOP key`.
pub struct Lpop {
    pub key: String,
}

impl Lpop {
    /// Pops the first element, replying it, or null for an empty list or
    /// absent key; a key of another type replies the wrong-type error.
    /// A removal is recorded in the log.
    pub fn lpop_command(db: &mut Db, parse: &mut Parse, _now: u64) -> (r: Frame)
        requires
            old(db).wf(),
        ensures
            final(db).wf(),
            final(db).channels() == old(db).channels(),
            final(db).patterns() == old(db).patterns(),
            final(db).wal_enabled() == old(db).wal_enabled(),
            ({
                let rem = old(parse).remaining();
                let k = string_arg(rem, 0);
                if count_leading_strings(rem) == 1 && k is Some {
                    let key = k->Some_0;
                    &&& (forall|k2: Seq<char>|
                        k2 != key ==> final(db).spec_get(k2) == old(db).spec_get(k2))
                    &&& match old(db).spec_get(key) {
                        Option::Some(e) => match e.value {
                            ValueV::List(l) => if l.len() == 0 {
                                r@ == FrameV::Null && final(db).spec_get(key) == old(db).spec_get(
                                    key,
                                ) && final(db).wal_pending() == old(db).wal_pending()
                            } else {
                                r@ == FrameV::Bulk(encode_utf8(l[0])) && final(db).spec_get(key)
                                    == Option::Some(
                                    EntryV {
                                        value: ValueV::List(l.skip(1)),
                                        expiration: e.expiration,
                                    },
                                ) && final(db).wal_pending() == old(db).wal_pending() + record_if(
                                    old(db).wal_enabled(),
                                    "lpop"@,
                                    seq![key],
                                )
                            },
                            _ => r@ == FrameV::Error(wrongtype()) && final(db).spec_get(key)
                                == old(db).spec_get(key) && final(db).wal_pending() == old(db).wal_pending(),
                        },
                        Option::None => r@ == FrameV::Null && final(db).spec_get(key) is None
                            && final(db).wal_pending() == old(db).wal_pending(),
                    }
                } else {
                    r@ == FrameV::Error("ERR wrong number of arguments for 'lpop' command"@)
                        && final(db).spec_map() == old(db).spec_map() && final(db).wal_pending()
                        == old(db).wal_pending()
                }
            }),
    {
        pop_command(db, parse, true, "ERR wrong number of arguments for 'lpop' command")
    }
}

/// `RPOP key`.
pub struct Rpop {
    pub key: String,
}

impl Rpop {
    /// Pops the last element, replying it, or null for an empty list or
    /// absent key; a key of another type replies the wrong-type error.
    /// A removal is recorded in the log.
    pub fn rpop_command(db: &mut Db, parse: &mut Parse, _now: u64) -> (r: Frame)
        requires
            old(db).wf(),
        ensures
            final(db).wf(),
            final(db).channels() == old(db).channels(),
            final(db).patterns() == old(db).patterns(),
            final(db).wal_enabled() == old(db).wal_enabled(),
            ({
                let rem = old(parse).remaining();
                let k = string_arg(rem, 0);
                if count_leading_strings(rem) == 1 && k is Some {
                    let key = k->Some_0;
                    &&& (forall|k2: Seq<char>|
                        k2 != key ==> final(db).spec_get(k2) == old(db).spec_get(k2))
                    &&& match old(db).spec_get(key) {
                        Option::Some(e) => match e.value {
                            ValueV::List(l) => if l.len() == 0 {
                                r@ == FrameV::Null && final(db).spec_get(key) == old(db).spec_get(
                                    key,
                                ) && final(db).wal_pending() == old(db).wal_pending()
                            } else {
                                r@ == FrameV::Bulk(encode_utf8(l.last())) && final(db).spec_get(
                                    key,
                                ) == Option::Some(
                                    EntryV {
                                        value: ValueV::List(l.drop_last()),
                                        expiration: e.expiration,
                                    },
                                ) && final(db).wal_pending() == old(db).wal_pending() + record_if(
                                    old(db).wal_enabled(),
                                    "rpop"@,
                                    seq![key],
                                )
                            },
                            _ => r@ == FrameV::Error(wrongtype()) && final(db).spec_get(key)
                                == old(db).spec_get(key) && final(db).wal_pending() == old(db).wal_pending(),
                        },
                        Option::None => r@ == FrameV::Null && final(db).spec_get(key) is None
                            && final(db).wal_pending() == old(db).wal_pending(),
                    }
                } else {
                    r@ == FrameV::Error("ERR wrong number of arguments for 'rpop' command"@)
                        && final(db).spec_map() == old(db).spec_map() && final(db).wal_pending()
                        == old(db).wal_pending()
                }
            }),
    {
        pop_command(db, parse, false, "ERR wrong number of arguments for 'rpop' command")
    }
}

/// `LLEN key`.
pub struct Llen {
    pub key: String,
}

impl Llen {
    /// Replies the list's length; an absent key or another type replies
    /// zero.
    pub fn llen_command(db: &mut Db, parse: &mut Parse, _now: u64) -> (r: Frame)
        requires
            old(db).wf(),
        ensures
            final(db).wf(),
            *final(db) == *old(db),
            ({
                let rem = old(parse).remaining();
                let k = string_arg(rem, 0);
                if count_leading_strings(rem) == 1 && k is Some {
                    match old(db).spec_get(k->Some_0) {
                        Option::Some(e) => match e.value {
                            ValueV::List(l) => r@ == FrameV::Integer(int_len(l.len())),
                            _ => r@ == FrameV::Integer(0),
                        },
                        Option::None => r@ == FrameV::Integer(0),
                    }
                } else {
                    r@ == FrameV::Error("ERR wrong number of arguments for 'llen' command"@)
                }
            }),
    {
        match crate::cmd_hash::parse_exactly_one(parse) {
            Result::Ok(key) => match db.list_read(&key) {
                Result::Ok(Option::Some(items)) => Frame::Integer(len_to_i64(items.len())),
                Result::Ok(Option::None) => Frame::Integer(0),
                Result::Err(_) => Frame::Integer(0),
            },
            Result::Err(_) => Frame::Error(
                String::from_str("ERR wrong number of arguments for 'llen' command"),
            ),
        }
    }
}

/// Clamps a possibly negative index into a non-empty list's range.
fn clamp_exec(x: i64, len: usize) -> (r: usize)
    requires
        len >= 1,
    ensures
        r == clamp_index(x as int, len as int),
        r < len,
{
    let n: i128 = len as i128;
    let y: i128 = if x < 0 {
        n + x as i128
    } else {
        x as i128
    };
    let c: i128 = if y < 0 {
        0
    } else if y > n - 1 {
        n - 1
    } else {
        y
    };
    c as usize
}

/// The bulk reply frames of `items[i..]`.
pub open spec fn bulk_frames(items: Seq<Seq<char>>, i: int) -> Seq<FrameV>
    decreases items.len() - i,
{
    if 0 <= i < items.len() {
        seq![FrameV::Bulk(encode_utf8(items[i]))] + bulk_frames(items, i + 1)
    } else {
        Seq::<FrameV>::empty()
    }
}

/// Builds the bulk reply frames for `items[a..=b]`.
#[verifier::loop_isolation(false)]
fn bulk_range_reply(items: &Vec<String>, a: usize, b: usize) -> (r: Vec<Frame>)
    requires
        a <= b < items@.len(),
    ensures
        views_of(r@) == bulk_frames(string_views(items@).subrange(a as int, b + 1), 0),
{
    let ghost lv = string_views(items@);
    let ghost win = lv.subrange(a as int, b + 1);
    let mut out: Vec<Frame> = Vec::new();
    let n = items.len();
    let mut j: usize = a;
    proof {
        lemma_views_of(out@);
        assert(views_of(out@) + bulk_frames(win, 0) =~= bulk_frames(win, 0));
    }
    while j <= b
        invariant
            a <= j <= b + 1,
            b < n,
            n == items@.len(),
            bulk_frames(win, 0) == views_of(out@) + bulk_frames(win, j - a),
        decreases b + 1 - j,
    {
        proof {
            assert(win[j - a] == lv[j as int]);
            assert(lv[j as int] == items@[j as int]@);
        }
        let ghost pre = out@;
        out.push(Frame::Bulk(items[j].as_str().as_bytes_vec()));
        proof {
            lemma_views_of_push(pre, out@.last());
            assert(views_of(pre) + (seq![out@.last()@] + bulk_frames(win, j + 1 - a))
                =~= views_of(out@) + bulk_frames(win, j + 1 - a));
        }
        j = j + 1;
    }
    proof {
        assert(views_of(out@) + Seq::<FrameV>::empty() =~= views_of(out@));
    }
    out
}

/// `LINDEX key index`.
pub struct Lindex {
    pub key: String,
    pub index: i64,
}

impl Lindex {
    /// Replies the element at the clamped index; an empty list, an
    /// absent key or another type replies null.
    pub fn lindex_command(db: &mut Db, parse: &mut Parse, _now: u64) -> (r: Frame)
        requires
            old(db).wf(),
        ensures
            final(db).wf(),
            *final(db) == *old(db),
            ({
                let rem = old(parse).remaining();
                let k = string_arg(rem, 0);
                let ix = match string_arg(rem, 1) {
                    Option::Some(t) => spec_parse_i64_chars(t),
                    Option::None => None::<i64>,
                };
                if count_leading_strings(rem) == 2 && k is Some && ix is Some {
                    match old(db).spec_get(k->Some_0) {
                        Option::Some(e) => match e.value {
                            ValueV::List(l) => if l.len() == 0 {
                                r@ == FrameV::Null
                            } else {
                                r@ == FrameV::Bulk(
                                    encode_utf8(l[clamp_index(ix->Some_0 as int, l.len() as int)]),
                                )
                            },
                            _ => r@ == FrameV::Null,
                        },
                        Option::None => r@ == FrameV::Null,
                    }
                } else {
                    r@ == FrameV::Error("ERR wrong number of arguments for 'lindex' command"@)
                }
            }),
    {
        match crate::cmd_hash::parse_exactly_two(parse) {
            Result::Ok(t) => match parse_i64_string(&t.1) {
                Option::Some(ix) => match db.list_read(&t.0) {
                    Result::Ok(Option::Some(items)) => {
                        if items.len() == 0 {
                            Frame::Null
                        } else {
                            let idx = clamp_exec(ix, items.len());
                            Frame::Bulk(items[idx].as_str().as_bytes_vec())
                        }
                    }
                    Result::Ok(Option::None) => Frame::Null,
                    Result::Err(_) => Frame::Null,
                },
                Option::None => Frame::Error(
                    String::from_str("ERR wrong number of arguments for 'lindex' command"),
                ),
            },
            Result::Err(_) => Frame::Error(
                String::from_str("ERR wrong number of arguments for 'lindex' command"),
            ),
        }
    }
}

/// `LRANGE key start end`.
pub struct Lrange {
    pub key: String,
    pub start: i64,
    pub end: i64,
}

impl Lrange {
    /// Replies the elements in the clamped inclusive range, in order; an
    /// empty range, an empty list or an absent key replies an empty
    /// array, another type the wrong-type error.
    pub fn lrange_command(db: &mut Db, parse: &mut Parse, _now: u64) -> (r: Frame)
        requires
            old(db).wf(),
        ensures
            final(db).wf(),
            *final(db) == *old(db),
            ({
                let rem = old(parse).remaining();
                let k = string_arg(rem, 0);
                let a0 = match string_arg(rem, 1) {
                    Option::Some(t) => spec_parse_i64_chars(t),
                    Option::None => None::<i64>,
                };
                let b0 = match string_arg(rem, 2) {
                    Option::Some(t) => spec_parse_i64_chars(t),
                    Option::None => None::<i64>,
                };
                if count_leading_strings(rem) == 3 && k is Some && a0 is Some && b0 is Some {
                    match old(db).spec_get(k->Some_0) {
                        Option::Some(e) => match e.value {
                            ValueV::List(l) => r@ == FrameV::Array(
                                bulk_frames(trim_spec(l, a0->Some_0 as int, b0->Some_0 as int), 0),
                            ),
                            _ => r@ == FrameV::Error(wrongtype()),
                        },
                        Option::None => r@ == FrameV::Array(Seq::<FrameV>::empty()),
                    }
                } else {
                    r@ == FrameV::Error("ERR wrong number of arguments for 'lrange' command"@)
                }
            }),
    {
        match crate::cmd_hash::parse_exactly_three(parse) {
            Result::Ok(t) => match (parse_i64_string(&t.1), parse_i64_string(&t.2)) {
                (Option::Some(a0), Option::Some(b0)) => match db.list_read(&t.0) {
                    Result::Ok(Option::None) => {
                        let empty: Vec<Frame> = Vec::new();
                        proof {
                            assert(views_of(empty@) =~= Seq::<FrameV>::empty());
                        }
                        Frame::Array(empty)
                    }
                    Result::Err(_) => wrongtype_frame(),
                    Result::Ok(Option::Some(items)) => {
                        let ghost lv = string_views(items@);
                        if items.len() == 0 {
                            proof {
                                assert(bulk_frames(trim_spec(lv, a0 as int, b0 as int), 0)
                                    =~= Seq::<FrameV>::empty());
                                crate::frame::lemma_views_of(Seq::<Frame>::empty());
                            }
                            let empty: Vec<Frame> = Vec::new();
                            proof {
                                assert(views_of(empty@) =~= Seq::<FrameV>::empty());
                            }
                            Frame::Array(empty)
                        } else {
                            let a = clamp_exec(a0, items.len());
                            let b = clamp_exec(b0, items.len());
                            if a <= b {
                                Frame::Array(bulk_range_reply(items, a, b))
                            } else {
                                let empty: Vec<Frame> = Vec::new();
                                proof {
                                    assert(views_of(empty@) =~= Seq::<FrameV>::empty());
                                    assert(bulk_frames(trim_spec(lv, a0 as int, b0 as int), 0)
                                        =~= Seq::<FrameV>::empty());
                                }
                                Frame::Array(empty)
                            }
                        }
                    }
                },
                _ => Frame::Error(
                    String::from_str("ERR wrong number of arguments for 'lrange' command"),
                ),
            },
            Result::Err(_) => Frame::Error(
                String::from_str("ERR wrong number of arguments for 'lrange' command"),
            ),
        }
    }
}

/// `LREM key count value`.
pub struct Lrem {
    pub key: String,
    pub count: i64,
    pub value: String,
}

impl Lrem {
    /// Removes occurrences of the value per the count convention — all
    /// of them for zero, from the head for positive, from the tail for
    /// negative — replying how many left; the pass is recorded in the
    /// log.  An absent key or another type replies the wrong-type error.
    pub fn lrem_command(db: &mut Db, parse: &mut Parse, _now: u64) -> (r: Frame)
        requires
            old(db).wf(),
        ensures
            final(db).wf(),
            final(db).channels() == old(db).channels(),
            final(db).patterns() == old(db).patterns(),
            final(db).wal_enabled() == old(db).wal_enabled(),
            ({
                let rem = old(parse).remaining();
                let k = string_arg(rem, 0);
                let c = match string_arg(rem, 1) {
                    Option::Some(t) => spec_parse_i64_chars(t),
                    Option::None => None::<i64>,
                };
                let v = string_arg(rem, 2);
                if count_leading_strings(rem) == 3 && k is Some && c is Some && v is Some {
                    let key = k->Some_0;
                    &&& (forall|k2: Seq<char>|
                        k2 != key ==> final(db).spec_get(k2) == old(db).spec_get(k2))
                    &&& match old(db).spec_get(key) {
                        Option::Some(e) => match e.value {
                            ValueV::List(l) => {
                                &&& r@ == FrameV::Integer(
                                    int_len(
                                        (l.len() - lrem_spec(
                                            l,
                                            c->Some_0 as int,
                                            v->Some_0,
                                        ).len()) as nat,
                                    ),
                                )
                                &&& final(db).spec_get(key) == Option::Some(
                                    EntryV {
                                        value: ValueV::List(
                                            lrem_spec(l, c->Some_0 as int, v->Some_0),
                                        ),
                                        expiration: e.expiration,
                                    },
                                )
                                &&& final(db).wal_pending() == old(db).wal_pending() + record_if(
                                    old(db).wal_enabled(),
                                    "lrem"@,
                                    seq![key, dec_chars_int(c->Some_0 as int), v->Some_0],
                                )
                            },
                            _ => r@ == FrameV::Error(wrongtype()) && final(db).spec_get(key)
                                == old(db).spec_get(key) && final(db).wal_pending() == old(db).wal_pending(),
                        },
                        Option::None => r@ == FrameV::Error(wrongtype()) && final(db).spec_get(
                            key,
                        ) is None && final(db).wal_pending() == old(db).wal_pending(),
                    }
                } else {
                    r@ == FrameV::Error("ERR wrong number of arguments for 'lrem' command"@)
                        && final(db).spec_map() == old(db).spec_map() && final(db).wal_pending()
                        == old(db).wal_pending()
                }
            }),
    {
        match crate::cmd_hash::parse_exactly_three(parse) {
            Result::Ok(t) => match parse_i64_string(&t.1) {
                Option::Some(c) => match db.list_rem(&t.0, c, &t.2) {
                    Result::Ok(removed) => Frame::Integer(len_to_i64(removed)),
                    Result::Err(_) => wrongtype_frame(),
                },
                Option::None => {
                    proof {
                        assert(db.spec_map() =~= old(db).spec_map());
                    }
                    Frame::Error(String::from_str("ERR wrong number of arguments for 'lrem' command"))
                }
            },
            Result::Err(_) => {
                proof {
                    assert(db.spec_map() =~= old(db).spec_map());
                }
                Frame::Error(String::from_str("ERR wrong number of arguments for 'lrem' command"))
            }
        }
    }
}

/// `LSET key index value`.
pub struct Lset {
    pub key: String,
    pub index: i64,
    pub value: String,
}

impl Lset {
    /// Sets the element at the index and replies `OK`, recording the
    /// mutation; an index out of range replies its own error and changes
    /// nothing; an absent key or another type replies the wrong-type
    /// error.
    pub fn lset_command(db: &mut Db, parse: &mut Parse, _now: u64) -> (r: Frame)
        requires
            old(db).wf(),
        ensures
            final(db).wf(),
            final(db).channels() == old(db).channels(),
            final(db).patterns() == old(db).patterns(),
            final(db).wal_enabled() == old(db).wal_enabled(),
            ({
                let rem = old(parse).remaining();
                let k = string_arg(rem, 0);
                let ix = match string_arg(rem, 1) {
                    Option::Some(t) => spec_parse_i64_chars(t),
                    Option::None => None::<i64>,
                };
                let v = string_arg(rem, 2);
                if count_leading_strings(rem) == 3 && k is Some && ix is Some && v is Some {
                    let key = k->Some_0;
                    &&& (forall|k2: Seq<char>|
                        k2 != key ==> final(db).spec_get(k2) == old(db).spec_get(k2))
                    &&& match old(db).spec_get(key) {
                        Option::Some(e) => match e.value {
                            ValueV::List(l) => if 0 <= ix->Some_0 < l.len() {
                                r@ == FrameV::Simple("OK"@) && final(db).spec_get(key)
                                    == Option::Some(
                                    EntryV {
                                        value: ValueV::List(
                                            l.update(ix->Some_0 as int, v->Some_0),
                                        ),
                                        expiration: e.expiration,
                                    },
                                ) && final(db).wal_pending() == old(db).wal_pending() + record_if(
                                    old(db).wal_enabled(),
                                    "lset"@,
                                    seq![key, dec_chars_int(ix->Some_0 as int), v->Some_0],
                                )
                            } else {
                                r@ == FrameV::Error("ERR index out of range"@) && final(db).spec_get(key) == old(db).spec_get(key) && final(db).wal_pending()
                                    == old(db).wal_pending()
                            },
                            _ => r@ == FrameV::Error(wrongtype()) && final(db).spec_get(key)
                                == old(db).spec_get(key) && final(db).wal_pending() == old(db).wal_pending(),
                        },
                        Option::None => r@ == FrameV::Error(wrongtype()) && final(db).spec_get(
                            key,
                        ) is None && final(db).wal_pending() == old(db).wal_pending(),
                    }
                } else {
                    r@ == FrameV::Error("ERR wrong number of arguments for 'lset' command"@)
                        && final(db).spec_map() == old(db).spec_map() && final(db).wal_pending()
                        == old(db).wal_pending()
                }
            }),
    {
        match crate::cmd_hash::parse_exactly_three(parse) {
            Result::Ok(t) => match parse_i64_string(&t.1) {
                Option::Some(ix) => match db.list_set(&t.0, ix, &t.2) {
                    Result::Ok(true) => Frame::Simple(String::from_str("OK")),
                    Result::Ok(false) => Frame::Error(String::from_str("ERR index out of range")),
                    Result::Err(_) => wrongtype_frame(),
                },
                Option::None => {
                    proof {
                        assert(db.spec_map() =~= old(db).spec_map());
                    }
                    Frame::Error(String::from_str("ERR wrong number of arguments for 'lset' command"))
                }
            },
            Result::Err(_) => {
                proof {
                    assert(db.spec_map() =~= old(db).spec_map());
                }
                Frame::Error(String::from_str("ERR wrong number of arguments for 'lset' command"))
            }
        }
    }
}

/// `LTRIM key start stop`.
pub struct Ltrim {
    pub key: String,
    pub start: i64,
    pub stop: i64,
}

impl Ltrim {
    /// Keeps only the clamped inclusive range and replies the remaining
    /// length, recording the trim; an absent key or another type replies
    /// the wrong-type error.
    pub fn ltrim_command(db: &mut Db, parse: &mut Parse, _now: u64) -> (r: Frame)
        requires
            old(db).wf(),
        ensures
            final(db).wf(),
            final(db).channels() == old(db).channels(),
            final(db).patterns() == old(db).patterns(),
            final(db).wal_enabled() == old(db).wal_enabled(),
            ({
                let rem = old(parse).remaining();
                let k = string_arg(rem, 0);
                let a = match string_arg(rem, 1) {
                    Option::Some(t) => spec_parse_i64_chars(t),
                    Option::None => None::<i64>,
                };
                let b = match string_arg(rem, 2) {
                    Option::Some(t) => spec_parse_i64_chars(t),
                    Option::None => None::<i64>,
                };
                if count_leading_strings(rem) == 3 && k is Some && a is Some && b is Some {
                    let key = k->Some_0;
                    &&& (forall|k2: Seq<char>|
                        k2 != key ==> final(db).spec_get(k2) == old(db).spec_get(k2))
                    &&& match old(db).spec_get(key) {
                        Option::Some(e) => match e.value {
                            ValueV::List(l) => {
                                &&& r@ == FrameV::Integer(
                                    int_len(
                                        trim_spec(l, a->Some_0 as int, b->Some_0 as int).len(),
                                    ),
                                )
                                &&& final(db).spec_get(key) == Option::Some(
                                    EntryV {
                                        value: ValueV::List(
                                            trim_spec(l, a->Some_0 as int, b->Some_0 as int),
                                        ),
                                        expiration: e.expiration,
                                    },
                                )
                                &&& final(db).wal_pending() == old(db).wal_pending() + record_if(
                                    old(db).wal_enabled(),
                                    "ltrim"@,
                                    seq![
                                        key,
                                        dec_chars_int(a->Some_0 as int),
                                        dec_chars_int(b->Some_0 as int),
                                    ],
                                )
                            },
                            _ => r@ == FrameV::Error(wrongtype()) && final(db).spec_get(key)
                                == old(db).spec_get(key) && final(db).wal_pending() == old(db).wal_pending(),
                        },
                        Option::None => r@ == FrameV::Error(wrongtype()) && final(db).spec_get(
                            key,
                        ) is None && final(db).wal_pending() == old(db).wal_pending(),
                    }
                } else {
                    r@ == FrameV::Error("ERR wrong number of arguments for 'ltrim' command"@)
                        && final(db).spec_map() == old(db).spec_map() && final(db).wal_pending()
                        == old(db).wal_pending()
                }
            }),
    {
        match crate::cmd_hash::parse_exactly_three(parse) {
            Result::Ok(t) => match (parse_i64_string(&t.1), parse_i64_string(&t.2)) {
                (Option::Some(a), Option::Some(b)) => match db.list_trim(&t.0, a, b) {
                    Result::Ok(n) => Frame::Integer(len_to_i64(n)),
                    Result::Err(_) => wrongtype_frame(),
                },
                _ => {
                    proof {
                        assert(db.spec_map() =~= old(db).spec_map());
                    }
                    Frame::Error(String::from_str("ERR wrong number of arguments for 'ltrim' command"))
                }
            },
            Result::Err(_) => {
                proof {
                    assert(db.spec_map() =~= old(db).spec_map());
                }
                Frame::Error(String::from_str("ERR wrong number of arguments for 'ltrim' command"))
            }
        }
    }
}

/// `BLPOP key timeout`: the waiting loop between pop attempts needs a
/// clock and a sleep, so the binary drives it with the parsed key and
/// timeout; each attempt pops through [`Db::list_pop`].
pub struct Blpop {
    pub key: String,
    pub timeout: u64,
}

impl Blpop {
    /// Reads the key and the timeout in seconds.
    pub fn parse_command(parse: &mut Parse) -> (r: Result<(String, u64), ParseError>)
        ensures
            ({
                let rem = old(parse).remaining();
                let k = string_arg(rem, 0);
                let t = match string_arg(rem, 1) {
                    Option::Some(x) => spec_parse_u64_chars(x),
                    Option::None => None::<u64>,
                };
                if count_leading_strings(rem) == 2 && k is Some && t is Some {
                    (r matches Ok(p) && p.0@ == k->Some_0 && p.1 == t->Some_0)
                } else {
                    r is Err
                }
            }),
    {
        let t = match crate::cmd_hash::parse_exactly_two(parse) {
            Result::Ok(t) => t,
            Result::Err(e) => {
                return Err(e);
            }
        };
        match parse_u64_string(&t.1) {
            Option::Some(secs) => Ok((t.0, secs)),
            Option::None => Err(ParseError::RevertFailed),
        }
    }
}

/// `BRPOP key timeout`: as [`Blpop`], popping from the tail.
pub struct Brpop {
    pub key: String,
    pub timeout: u64,
}

impl Brpop {
    /// Reads the key and the timeout in seconds.
    pub fn parse_command(parse: &mut Parse) -> (r: Result<(String, u64), ParseError>)
        ensures
            ({
                let rem = old(parse).remaining();
                let k = string_arg(rem, 0);
                let t = match string_arg(rem, 1) {
                    Option::Some(x) => spec_parse_u64_chars(x),
                    Option::None => None::<u64>,
                };
                if count_leading_strings(rem) == 2 && k is Some && t is Some {
                    (r matches Ok(p) && p.0@ == k->Some_0 && p.1 == t->Some_0)
                } else {
                    r is Err
                }
            }),
    {
        Blpop::parse_command(parse)
    }
}

} // verus!
