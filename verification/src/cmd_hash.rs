//! The hash-type commands.

use vstd::prelude::*;

verus! {

broadcast use vstd::std_specs::vec::group_vec_axioms, vstd::seq::group_seq_axioms,
    vstd::map::group_map_axioms;

use vstd::utf8::encode_utf8;
use crate::aof::{apply_hset, apply_hdel, record_if};
use crate::db::{Db, DbType, EntryV, ValueV, WrongType, assoc_get, hash_pairs_find};
use crate::frame::{Frame, FrameV, views_of, lemma_views_of, lemma_views_of_push};
use crate::parse::{Parse, ParseError, string_arg, args_prefix, count_leading_strings};
use crate::cmd_misc::{int_len, len_to_i64, wrongtype, wrongtype_frame};
use crate::cmd_string::{kv_pairs, live_of};

/// `HSET key field value`.
pub struct Hset {
    pub key: String,
    pub field: String,
    pub value: String,
}

impl Hset {
    /// Sets the field, creating the hash when the key is absent: replies
    /// one when the field is new, zero when it was overwritten, and the
    /// wrong-type error (changing nothing) for a key of another type.
    /// The mutation is recorded in the log.
    pub fn hset_command(db: &mut Db, parse: &mut Parse, _now: u64) -> (r: Frame)
        requires
            old(db).wf(),
        ensures
            final(db).wf(),
            final(db).channels() == old(db).channels(),
            final(db).patterns() == old(db).patterns(),
            final(db).wal_enabled() == old(db).wal_enabled(),
            ({
                let rem = old(parse).remaining();
                let k = string_arg(rem, 0);
                let f = string_arg(rem, 1);
                let v = string_arg(rem, 2);
                if count_leading_strings(rem) == 3 && k is Some && f is Some && v is Some {
                    let key = k->Some_0;
                    &&& final(db).spec_map() == apply_hset(
                        old(db).spec_map(),
                        key,
                        f->Some_0,
                        v->Some_0,
                    )
                    &&& match old(db).spec_get(key) {
                        Option::Some(e) => match e.value {
                            ValueV::Hash(h) => r@ == FrameV::Integer(
                                if assoc_get(h, f->Some_0) is None {
                                    1int as i64
                                } else {
                                    0
                                },
                            ) && final(db).wal_pending() == old(db).wal_pending() + record_if(
                                old(db).wal_enabled(),
                                "hset"@,
                                seq![key, f->Some_0, v->Some_0],
                            ),
                            _ => r@ == FrameV::Error(wrongtype()) && final(db).wal_pending()
                                == old(db).wal_pending(),
                        },
                        Option::None => r@ == FrameV::Integer(1) && final(db).wal_pending() == old(db).wal_pending() + record_if(
                            old(db).wal_enabled(),
                            "hset"@,
                            seq![key, f->Some_0, v->Some_0],
                        ),
                    }
                } else {
                    &&& r@ == FrameV::Error("ERR wrong number of arguments for 'hset' command"@)
                    &&& final(db).spec_map() == old(db).spec_map()
                    &&& final(db).wal_pending() == old(db).wal_pending()
                }
            }),
    {
        match Hset::parse_command(parse) {
            Result::Ok(hset) => {
                let ghost mcur = db.spec_map();
                match db.hash_set(&hset.key, &hset.field, &hset.value) {
                    Result::Ok(fresh) => {
                        proof {
                            assert(db.spec_map() =~= apply_hset(
                                mcur,
                                hset.key@,
                                hset.field@,
                                hset.value@,
                            ));
                        }
                        Frame::Integer(
                            if fresh {
                                1
                            } else {
                                0
                            },
                        )
                    }
                    Result::Err(_) => {
                        proof {
                            assert(db.spec_map() =~= apply_hset(
                                mcur,
                                hset.key@,
                                hset.field@,
                                hset.value@,
                            ));
                        }
                        wrongtype_frame()
                    }
                }
            }
            Result::Err(_) => {
                proof {
                    assert(db.spec_map() =~= old(db).spec_map());
                }
                Frame::Error(String::from_str("ERR wrong number of arguments for 'hset' command"))
            }
        }
    }

    fn parse_command(parse: &mut Parse) -> (r: Result<Self, ParseError>)
        ensures
            ({
                let rem = old(parse).remaining();
                let k = string_arg(rem, 0);
                let f = string_arg(rem, 1);
                let v = string_arg(rem, 2);
                if count_leading_strings(rem) == 3 && k is Some && f is Some && v is Some {
                    (r matches Ok(h) && h.key@ == k->Some_0 && h.field@ == f->Some_0 && h.value@
                        == v->Some_0)
                } else {
                    r is Err
                }
            }),
    {
        match parse_exactly_three(parse) {
            Result::Ok(t) => Ok(Hset { key: t.0, field: t.1, value: t.2 }),
            Result::Err(e) => Err(e),
        }
    }
}

/// Reads exactly three string arguments, requiring exactly three to be
/// present.
pub(crate) fn parse_exactly_three(parse: &mut Parse) -> (r: Result<(String, String, String), ParseError>)
    ensures
        ({
            let rem = old(parse).remaining();
            let k = string_arg(rem, 0);
            let f = string_arg(rem, 1);
            let v = string_arg(rem, 2);
            if count_leading_strings(rem) == 3 && k is Some && f is Some && v is Some {
                (r matches Ok(t) && t.0@ == k->Some_0 && t.1@ == f->Some_0 && t.2@ == v->Some_0)
            } else {
                r is Err
            }
        }),
{
    let ghost rem = parse.remaining();
    if parse.args_number() != 3 {
        return Err(ParseError::WrongType);
    }
    let a = match parse.next_string() {
        Result::Ok(s) => s,
        Result::Err(e) => {
            return Err(e);
        }
    };
    let ghost r1 = parse.remaining();
    let b = match parse.next_string() {
        Result::Ok(s) => s,
        Result::Err(e) => {
            proof {
                assert(rem.skip(1) =~= r1);
            }
            return Err(e);
        }
    };
    let ghost r2 = parse.remaining();
    let c = match parse.next_string() {
        Result::Ok(s) => s,
        Result::Err(e) => {
            proof {
                assert(rem.skip(1) =~= r1);
                assert(r1.skip(1) =~= r2);
            }
            return Err(e);
        }
    };
    proof {
        assert(rem.skip(1) =~= r1);
        assert(r1.skip(1) =~= r2);
    }
    Ok((a, b, c))
}

/// Reads exactly two string arguments, requiring exactly two to be
/// present.
pub(crate) fn parse_exactly_two(parse: &mut Parse) -> (r: Result<(String, String), ParseError>)
    ensures
        ({
            let rem = old(parse).remaining();
            let k = string_arg(rem, 0);
            let f = string_arg(rem, 1);
            if count_leading_strings(rem) == 2 && k is Some && f is Some {
                (r matches Ok(t) && t.0@ == k->Some_0 && t.1@ == f->Some_0)
            } else {
                r is Err
            }
        }),
{
    let ghost rem = parse.remaining();
    if parse.args_number() != 2 {
        return Err(ParseError::WrongType);
    }
    let a = match parse.next_string() {
        Result::Ok(s) => s,
        Result::Err(e) => {
            return Err(e);
        }
    };
    let ghost r1 = parse.remaining();
    let b = match parse.next_string() {
        Result::Ok(s) => s,
        Result::Err(e) => {
            proof {
                assert(rem.skip(1) =~= r1);
            }
            return Err(e);
        }
    };
    proof {
        assert(rem.skip(1) =~= r1);
    }
    Ok((a, b))
}

/// Reads exactly one string argument, requiring exactly one to be
/// present.
pub(crate) fn parse_exactly_one(parse: &mut Parse) -> (r: Result<String, ParseError>)
    ensures
        ({
            let rem = old(parse).remaining();
            let k = string_arg(rem, 0);
            if count_leading_strings(rem) == 1 && k is Some {
                (r matches Ok(s) && s@ == k->Some_0)
            } else {
                r is Err
            }
        }),
{
    if parse.args_number() != 1 {
        return Err(ParseError::WrongType);
    }
    parse.next_string()
}

/// `HSETNX key field value`.
pub struct Hsetnx {
    pub key: String,
    pub field: String,
    pub value: String,
}

impl Hsetnx {
    /// Sets the field only when it is not bound yet: replies one and
    /// records the mutation when it writes, zero when the field existed,
    /// and the wrong-type error for a key of another type.
    pub fn hsetnx_command(db: &mut Db, parse: &mut Parse, _now: u64) -> (r: Frame)
        requires
            old(db).wf(),
        ensures
            final(db).wf(),
            final(db).channels() == old(db).channels(),
            final(db).patterns() == old(db).patterns(),
            final(db).wal_enabled() == old(db).wal_enabled(),
            ({
                let rem = old(parse).remaining();
                let k = string_arg(rem, 0);
                let f = string_arg(rem, 1);
                let v = string_arg(rem, 2);
                if count_leading_strings(rem) == 3 && k is Some && f is Some && v is Some {
                    let key = k->Some_0;
                    match old(db).spec_get(key) {
                        Option::Some(e) => match e.value {
                            ValueV::Hash(h) => if assoc_get(h, f->Some_0) is Some {
                                r@ == FrameV::Integer(0) && final(db).spec_map() == old(db).spec_map() && final(db).wal_pending() == old(db).wal_pending()
                            } else {
                                r@ == FrameV::Integer(1) && final(db).spec_map() == apply_hset(
                                    old(db).spec_map(),
                                    key,
                                    f->Some_0,
                                    v->Some_0,
                                ) && final(db).wal_pending() == old(db).wal_pending() + record_if(
                                    old(db).wal_enabled(),
                                    "hset"@,
                                    seq![key, f->Some_0, v->Some_0],
                                )
                            },
                            _ => r@ == FrameV::Error(wrongtype()) && final(db).spec_map() == old(db).spec_map() && final(db).wal_pending() == old(db).wal_pending(),
                        },
                        Option::None => r@ == FrameV::Integer(1) && final(db).spec_map()
                            == apply_hset(old(db).spec_map(), key, f->Some_0, v->Some_0) && final(db).wal_pending() == old(db).wal_pending() + record_if(
                            old(db).wal_enabled(),
                            "hset"@,
                            seq![key, f->Some_0, v->Some_0],
                        ),
                    }
                } else {
                    &&& r@ == FrameV::Error("ERR wrong number of arguments for 'hsetnx' command"@)
                    &&& final(db).spec_map() == old(db).spec_map()
                    &&& final(db).wal_pending() == old(db).wal_pending()
                }
            }),
    {
        match parse_exactly_three(parse) {
            Result::Ok(t) => {
                let ghost mcur = db.spec_map();
                match db.hash_setnx(&t.0, &t.1, &t.2) {
                    Result::Ok(fresh) => {
                        proof {
                            if fresh {
                                assert(db.spec_map() =~= apply_hset(mcur, t.0@, t.1@, t.2@));
                            } else {
                                assert(db.spec_map() =~= mcur);
                            }
                        }
                        Frame::Integer(
                            if fresh {
                                1
                            } else {
                                0
                            },
                        )
                    }
                    Result::Err(_) => {
                        proof {
                            assert(db.spec_map() =~= mcur);
                        }
                        wrongtype_frame()
                    }
                }
            }
            Result::Err(_) => {
                proof {
                    assert(db.spec_map() =~= old(db).spec_map());
                }
                Frame::Error(String::from_str("ERR wrong number of arguments for 'hsetnx' command"))
            }
        }
    }
}

/// `HGET key field`.
pub struct Hget {
    pub key: String,
    pub field: String,
}

impl Hget {
    /// Replies the field's value, null for a missing field or key, and
    /// the wrong-type error for a key of another type.  Reads evict a
    /// dead entry.
    pub fn hget_command(db: &mut Db, parse: &mut Parse, now: u64) -> (r: Frame)
        requires
            old(db).wf(),
        ensures
            final(db).wf(),
            final(db).channels() == old(db).channels(),
            final(db).patterns() == old(db).patterns(),
            final(db).wal_enabled() == old(db).wal_enabled(),
            final(db).wal_pending() == old(db).wal_pending(),
            ({
                let rem = old(parse).remaining();
                let k = string_arg(rem, 0);
                let f = string_arg(rem, 1);
                if count_leading_strings(rem) == 2 && k is Some && f is Some {
                    let key = k->Some_0;
                    &&& (forall|k2: Seq<char>|
                        k2 != key ==> final(db).spec_get(k2) == old(db).spec_get(k2))
                    &&& match old(db).spec_live_get(key, now) {
                        Option::Some(e) => final(db).spec_get(key) == old(db).spec_get(key) && (
                        match e.value {
                            ValueV::Hash(h) => match assoc_get(h, f->Some_0) {
                                Option::Some(v) => r@ == FrameV::Bulk(encode_utf8(v)),
                                Option::None => r@ == FrameV::Null,
                            },
                            _ => r@ == FrameV::Error(wrongtype()),
                        }),
                        Option::None => final(db).spec_get(key) is None && r@ == FrameV::Null,
                    }
                } else {
                    r@ == FrameV::Error("ERR wrong number of arguments for 'hget' command"@)
                        && final(db).spec_map() == old(db).spec_map()
                }
            }),
    {
        match parse_exactly_two(parse) {
            Result::Ok(t) => match db.get(&t.0, now) {
                Option::Some(v) => match v {
                    DbType::Hash(pairs) => match hash_pairs_find(pairs, &t.1) {
                        Option::Some(value) => Frame::Bulk(value.as_str().as_bytes_vec()),
                        Option::None => Frame::Null,
                    },
                    _ => wrongtype_frame(),
                },
                Option::None => Frame::Null,
            },
            Result::Err(_) => {
                proof {
                    assert(db.spec_map() =~= old(db).spec_map());
                }
                Frame::Error(String::from_str("ERR wrong number of arguments for 'hget' command"))
            }
        }
    }
}

/// `HEXISTS key field`.
pub struct Hexists {
    pub key: String,
    pub field: String,
}

impl Hexists {
    /// Replies one when the field is bound, zero when the field or the
    /// key is missing, and the wrong-type error for another type.
    pub fn hexists_command(db: &mut Db, parse: &mut Parse, now: u64) -> (r: Frame)
        requires
            old(db).wf(),
        ensures
            final(db).wf(),
            final(db).channels() == old(db).channels(),
            final(db).patterns() == old(db).patterns(),
            final(db).wal_enabled() == old(db).wal_enabled(),
            final(db).wal_pending() == old(db).wal_pending(),
            ({
                let rem = old(parse).remaining();
                let k = string_arg(rem, 0);
                let f = string_arg(rem, 1);
                if count_leading_strings(rem) == 2 && k is Some && f is Some {
                    let key = k->Some_0;
                    &&& (forall|k2: Seq<char>|
                        k2 != key ==> final(db).spec_get(k2) == old(db).spec_get(k2))
                    &&& match old(db).spec_live_get(key, now) {
                        Option::Some(e) => final(db).spec_get(key) == old(db).spec_get(key) && (
                        match e.value {
                            ValueV::Hash(h) => r@ == FrameV::Integer(
                                if assoc_get(h, f->Some_0) is Some {
                                    1int as i64
                                } else {
                                    0
                                },
                            ),
                            _ => r@ == FrameV::Error(wrongtype()),
                        }),
                        Option::None => final(db).spec_get(key) is None && r@ == FrameV::Integer(0),
                    }
                } else {
                    r@ == FrameV::Error("ERR wrong number of arguments for 'hexists' command"@)
                        && final(db).spec_map() == old(db).spec_map()
                }
            }),
    {
        match parse_exactly_two(parse) {
            Result::Ok(t) => match db.get(&t.0, now) {
                Option::Some(v) => match v {
                    DbType::Hash(pairs) => match hash_pairs_find(pairs, &t.1) {
                        Option::Some(_) => Frame::Integer(1),
                        Option::None => Frame::Integer(0),
                    },
                    _ => wrongtype_frame(),
                },
                Option::None => Frame::Integer(0),
            },
            Result::Err(_) => {
                proof {
                    assert(db.spec_map() =~= old(db).spec_map());
                }
                Frame::Error(String::from_str("ERR wrong number of arguments for 'hexists' command"))
            }
        }
    }
}

/// `HLEN key`.
pub struct Hlen {
    pub key: String,
}

impl Hlen {
    /// Replies how many fields the hash holds, zero for an absent key,
    /// and the wrong-type error for another type.
    pub fn hlen_command(db: &mut Db, parse: &mut Parse, now: u64) -> (r: Frame)
        requires
            old(db).wf(),
        ensures
            final(db).wf(),
            final(db).channels() == old(db).channels(),
            final(db).patterns() == old(db).patterns(),
            final(db).wal_enabled() == old(db).wal_enabled(),
            final(db).wal_pending() == old(db).wal_pending(),
            ({
                let rem = old(parse).remaining();
                let k = string_arg(rem, 0);
                if count_leading_strings(rem) == 1 && k is Some {
                    let key = k->Some_0;
                    &&& (forall|k2: Seq<char>|
                        k2 != key ==> final(db).spec_get(k2) == old(db).spec_get(k2))
                    &&& match old(db).spec_live_get(key, now) {
                        Option::Some(e) => final(db).spec_get(key) == old(db).spec_get(key) && (
                        match e.value {
                            ValueV::Hash(h) => r@ == FrameV::Integer(int_len(h.len())),
                            _ => r@ == FrameV::Error(wrongtype()),
                        }),
                        Option::None => final(db).spec_get(key) is None && r@ == FrameV::Integer(0),
                    }
                } else {
                    r@ == FrameV::Error("ERR wrong number of arguments for 'hlen' command"@)
                        && final(db).spec_map() == old(db).spec_map()
                }
            }),
    {
        match parse_exactly_one(parse) {
            Result::Ok(key) => match db.get(&key, now) {
                Option::Some(v) => match v {
                    DbType::Hash(pairs) => Frame::Integer(len_to_i64(pairs.len())),
                    _ => wrongtype_frame(),
                },
                Option::None => Frame::Integer(0),
            },
            Result::Err(_) => {
                proof {
                    assert(db.spec_map() =~= old(db).spec_map());
                }
                Frame::Error(String::from_str("ERR wrong number of arguments for 'hlen' command"))
            }
        }
    }
}

/// The field/value reply frames of a whole hash, in field order.
pub open spec fn hgetall_frames(h: Seq<(Seq<char>, Seq<char>)>, i: int) -> Seq<FrameV>
    decreases h.len() - i,
{
    if 0 <= i < h.len() {
        seq![FrameV::Bulk(encode_utf8(h[i].0)), FrameV::Bulk(encode_utf8(h[i].1))]
            + hgetall_frames(h, i + 1)
    } else {
        Seq::<FrameV>::empty()
    }
}

/// The field-name reply frames of a whole hash.
pub open spec fn hkeys_frames(h: Seq<(Seq<char>, Seq<char>)>, i: int) -> Seq<FrameV>
    decreases h.len() - i,
{
    if 0 <= i < h.len() {
        seq![FrameV::Bulk(encode_utf8(h[i].0))] + hkeys_frames(h, i + 1)
    } else {
        Seq::<FrameV>::empty()
    }
}

/// The value reply frames of a whole hash.
pub open spec fn hvals_frames(h: Seq<(Seq<char>, Seq<char>)>, i: int) -> Seq<FrameV>
    decreases h.len() - i,
{
    if 0 <= i < h.len() {
        seq![FrameV::Bulk(encode_utf8(h[i].1))] + hvals_frames(h, i + 1)
    } else {
        Seq::<FrameV>::empty()
    }
}

/// Builds the reply array for one hash under a chosen shape: both
/// columns, the fields, or the values.
#[verifier::loop_isolation(false)]
fn hash_reply(pairs: &Vec<(String, String)>, shape: u8) -> (r: Vec<Frame>)
    requires
        shape == 0 || shape == 1 || shape == 2,
    ensures
        views_of(r@) == (if shape == 0 {
            hgetall_frames(crate::db::pair_views(pairs@), 0)
        } else if shape == 1 {
            hkeys_frames(crate::db::pair_views(pairs@), 0)
        } else {
            hvals_frames(crate::db::pair_views(pairs@), 0)
        }),
{
    let ghost hv = crate::db::pair_views(pairs@);
    let mut out: Vec<Frame> = Vec::new();
    let mut j: usize = 0;
    proof {
        lemma_views_of(out@);
    }
    while j < pairs.len()
        invariant
            0 <= j <= hv.len(),
            (if shape == 0 {
                hgetall_frames(hv, 0)
            } else if shape == 1 {
                hkeys_frames(hv, 0)
            } else {
                hvals_frames(hv, 0)
            }) == views_of(out@) + (if shape == 0 {
                hgetall_frames(hv, j as int)
            } else if shape == 1 {
                hkeys_frames(hv, j as int)
            } else {
                hvals_frames(hv, j as int)
            }),
        decreases hv.len() - j,
    {
        proof {
            assert(hv[j as int] == (pairs@[j as int].0@, pairs@[j as int].1@));
        }
        let ghost pre = out@;
        if shape == 0 {
            out.push(Frame::Bulk(pairs[j].0.as_str().as_bytes_vec()));
            proof {
                lemma_views_of_push(pre, out@.last());
            }
            let ghost pre2 = out@;
            out.push(Frame::Bulk(pairs[j].1.as_str().as_bytes_vec()));
            proof {
                lemma_views_of_push(pre2, out@.last());
                assert(views_of(pre) + (seq![
                    FrameV::Bulk(encode_utf8(hv[j as int].0)),
                    FrameV::Bulk(encode_utf8(hv[j as int].1)),
                ] + hgetall_frames(hv, j + 1)) =~= views_of(out@) + hgetall_frames(hv, j + 1));
            }
        } else if shape == 1 {
            out.push(Frame::Bulk(pairs[j].0.as_str().as_bytes_vec()));
            proof {
                lemma_views_of_push(pre, out@.last());
                assert(views_of(pre) + (seq![FrameV::Bulk(encode_utf8(hv[j as int].0))]
                    + hkeys_frames(hv, j + 1)) =~= views_of(out@) + hkeys_frames(hv, j + 1));
            }
        } else {
            out.push(Frame::Bulk(pairs[j].1.as_str().as_bytes_vec()));
            proof {
                lemma_views_of_push(pre, out@.last());
                assert(views_of(pre) + (seq![FrameV::Bulk(encode_utf8(hv[j as int].1))]
                    + hvals_frames(hv, j + 1)) =~= views_of(out@) + hvals_frames(hv, j + 1));
            }
        }
        j = j + 1;
    }
    proof {
        assert(views_of(out@) + Seq::<FrameV>::empty() =~= views_of(out@));
    }
    out
}

/// `HGETALL key`.
pub struct Hgetall {
    pub key: String,
}

impl Hgetall {
    /// Replies fields and values interleaved in field order; an absent
    /// key replies an empty-set notice, another type the wrong-type
    /// error.
    pub fn hgetall_command(db: &mut Db, parse: &mut Parse, now: u64) -> (r: Frame)
        requires
            old(db).wf(),
        ensures
            final(db).wf(),
            final(db).channels() == old(db).channels(),
            final(db).patterns() == old(db).patterns(),
            final(db).wal_enabled() == old(db).wal_enabled(),
            final(db).wal_pending() == old(db).wal_pending(),
            ({
                let rem = old(parse).remaining();
                let k = string_arg(rem, 0);
                if count_leading_strings(rem) == 1 && k is Some {
                    let key = k->Some_0;
                    &&& (forall|k2: Seq<char>|
                        k2 != key ==> final(db).spec_get(k2) == old(db).spec_get(k2))
                    &&& match old(db).spec_live_get(key, now) {
                        Option::Some(e) => final(db).spec_get(key) == old(db).spec_get(key) && (
                        match e.value {
                            ValueV::Hash(h) => r@ == FrameV::Array(hgetall_frames(h, 0)),
                            _ => r@ == FrameV::Error(wrongtype()),
                        }),
                        Option::None => final(db).spec_get(key) is None && r@ == FrameV::Simple(
                            "(empty list or set)"@,
                        ),
                    }
                } else {
                    r@ == FrameV::Error("ERR wrong number of arguments for 'hgetall' command"@)
                        && final(db).spec_map() == old(db).spec_map()
                }
            }),
    {
        match parse_exactly_one(parse) {
            Result::Ok(key) => match db.get(&key, now) {
                Option::Some(v) => match v {
                    DbType::Hash(pairs) => Frame::Array(hash_reply(pairs, 0)),
                    _ => wrongtype_frame(),
                },
                Option::None => Frame::Simple(String::from_str("(empty list or set)")),
            },
            Result::Err(_) => {
                proof {
                    assert(db.spec_map() =~= old(db).spec_map());
                }
                Frame::Error(String::from_str("ERR wrong number of arguments for 'hgetall' command"))
            }
        }
    }
}

/// `HKEYS key`.
pub struct Hkeys {
    pub key: String,
}

impl Hkeys {
    /// Replies the field names in field order; an absent key replies
    /// null, another type the wrong-type error.
    pub fn hkeys_command(db: &mut Db, parse: &mut Parse, now: u64) -> (r: Frame)
        requires
            old(db).wf(),
        ensures
            final(db).wf(),
            final(db).channels() == old(db).channels(),
            final(db).patterns() == old(db).patterns(),
            final(db).wal_enabled() == old(db).wal_enabled(),
            final(db).wal_pending() == old(db).wal_pending(),
            ({
                let rem = old(parse).remaining();
                let k = string_arg(rem, 0);
                if count_leading_strings(rem) == 1 && k is Some {
                    let key = k->Some_0;
                    &&& (forall|k2: Seq<char>|
                        k2 != key ==> final(db).spec_get(k2) == old(db).spec_get(k2))
                    &&& match old(db).spec_live_get(key, now) {
                        Option::Some(e) => final(db).spec_get(key) == old(db).spec_get(key) && (
                        match e.value {
                            ValueV::Hash(h) => r@ == FrameV::Array(hkeys_frames(h, 0)),
                            _ => r@ == FrameV::Error(wrongtype()),
                        }),
                        Option::None => final(db).spec_get(key) is None && r@ == FrameV::Null,
                    }
                } else {
                    r@ == FrameV::Error("ERR wrong number of arguments for 'hkeys' command"@)
                        && final(db).spec_map() == old(db).spec_map()
                }
            }),
    {
        match parse_exactly_one(parse) {
            Result::Ok(key) => match db.get(&key, now) {
                Option::Some(v) => match v {
                    DbType::Hash(pairs) => Frame::Array(hash_reply(pairs, 1)),
                    _ => wrongtype_frame(),
                },
                Option::None => Frame::Null,
            },
            Result::Err(_) => {
                proof {
                    assert(db.spec_map() =~= old(db).spec_map());
                }
                Frame::Error(String::from_str("ERR wrong number of arguments for 'hkeys' command"))
            }
        }
    }
}

/// `HVALS key`.
pub struct Hvals {
    pub key: String,
}

impl Hvals {
    /// Replies the values in field order; an absent key replies null,
    /// another type the wrong-type error.
    pub fn hvals_command(db: &mut Db, parse: &mut Parse, now: u64) -> (r: Frame)
        requires
            old(db).wf(),
        ensures
            final(db).wf(),
            final(db).channels() == old(db).channels(),
            final(db).patterns() == old(db).patterns(),
            final(db).wal_enabled() == old(db).wal_enabled(),
            final(db).wal_pending() == old(db).wal_pending(),
            ({
                let rem = old(parse).remaining();
                let k = string_arg(rem, 0);
                if count_leading_strings(rem) == 1 && k is Some {
                    let key = k->Some_0;
                    &&& (forall|k2: Seq<char>|
                        k2 != key ==> final(db).spec_get(k2) == old(db).spec_get(k2))
                    &&& match old(db).spec_live_get(key, now) {
                        Option::Some(e) => final(db).spec_get(key) == old(db).spec_get(key) && (
                        match e.value {
                            ValueV::Hash(h) => r@ == FrameV::Array(hvals_frames(h, 0)),
                            _ => r@ == FrameV::Error(wrongtype()),
                        }),
                        Option::None => final(db).spec_get(key) is None && r@ == FrameV::Null,
                    }
                } else {
                    r@ == FrameV::Error("ERR wrong number of arguments for 'hvals' command"@)
                        && final(db).spec_map() == old(db).spec_map()
                }
            }),
    {
        match parse_exactly_one(parse) {
            Result::Ok(key) => match db.get(&key, now) {
                Option::Some(v) => match v {
                    DbType::Hash(pairs) => Frame::Array(hash_reply(pairs, 2)),
                    _ => wrongtype_frame(),
                },
                Option::None => Frame::Null,
            },
            Result::Err(_) => {
                proof {
                    assert(db.spec_map() =~= old(db).spec_map());
                }
                Frame::Error(String::from_str("ERR wrong number of arguments for 'hvals' command"))
            }
        }
    }
}

/// The per-field reply frames of a multi-field read.
pub open spec fn hmget_frames(
    h: Seq<(Seq<char>, Seq<char>)>,
    fields: Seq<Seq<char>>,
    i: int,
) -> Seq<FrameV>
    decreases fields.len() - i,
{
    if 0 <= i < fields.len() {
        let f = match assoc_get(h, fields[i]) {
            Option::Some(v) => FrameV::Bulk(encode_utf8(v)),
            Option::None => FrameV::Null,
        };
        seq![f] + hmget_frames(h, fields, i + 1)
    } else {
        Seq::<FrameV>::empty()
    }
}

/// `HMGET key field [field ...]`.
pub struct Hmget {
    pub key: String,
    pub fields: Vec<String>,
}

impl Hmget {
    /// Replies one element per field: the value or null.  An absent key
    /// replies all nulls; another type the wrong-type error.
    #[verifier::loop_isolation(false)]
    pub fn hmget_command(db: &mut Db, parse: &mut Parse, now: u64) -> (r: Frame)
        requires
            old(db).wf(),
        ensures
            final(db).wf(),
            final(db).channels() == old(db).channels(),
            final(db).patterns() == old(db).patterns(),
            final(db).wal_enabled() == old(db).wal_enabled(),
            final(db).wal_pending() == old(db).wal_pending(),
            ({
                let rem = old(parse).remaining();
                let k = string_arg(rem, 0);
                let fields = args_prefix(rem.skip(1));
                if count_leading_strings(rem) >= 2 && k is Some && fields.len()
                    == count_leading_strings(rem) - 1 {
                    let key = k->Some_0;
                    &&& (forall|k2: Seq<char>|
                        k2 != key ==> final(db).spec_get(k2) == old(db).spec_get(k2))
                    &&& match old(db).spec_live_get(key, now) {
                        Option::Some(e) => final(db).spec_get(key) == old(db).spec_get(key) && (
                        match e.value {
                            ValueV::Hash(h) => r@ == FrameV::Array(hmget_frames(h, fields, 0)),
                            _ => r@ == FrameV::Error(wrongtype()),
                        }),
                        Option::None => final(db).spec_get(key) is None && r@ == FrameV::Array(
                            hmget_frames(Seq::<(Seq<char>, Seq<char>)>::empty(), fields, 0),
                        ),
                    }
                } else {
                    r@ == FrameV::Error("ERR wrong number of arguments for 'hmget' command"@)
                        && final(db).spec_map() == old(db).spec_map()
                }
            }),
    {
        let ghost rem = parse.remaining();
        let n = parse.args_number();
        if n < 2 {
            proof {
                assert(db.spec_map() =~= old(db).spec_map());
            }
            return Frame::Error(String::from_str("ERR wrong number of arguments for 'hmget' command"));
        }
        let key = match parse.next_string() {
            Result::Ok(s) => s,
            Result::Err(_) => {
                proof {
                    assert(db.spec_map() =~= old(db).spec_map());
                }
                return Frame::Error(
                    String::from_str("ERR wrong number of arguments for 'hmget' command"),
                );
            }
        };
        proof {
            assert(parse.remaining() =~= rem.skip(1));
        }
        let fields = parse.collect_strings();
        let ghost fv = fields.deep_view();
        if fields.len() != n - 1 {
            proof {
                assert(db.spec_map() =~= old(db).spec_map());
            }
            return Frame::Error(String::from_str("ERR wrong number of arguments for 'hmget' command"));
        }
        let found: Option<&DbType> = db.get(&key, now);
        let pairs_or: Result<&Vec<(String, String)>, bool> = match found {
            Option::Some(v) => match v {
                DbType::Hash(pairs) => Ok(pairs),
                _ => Err(true),
            },
            Option::None => Err(false),
        };
        match pairs_or {
            Result::Err(true) => wrongtype_frame(),
            Result::Err(false) => {
                let empty_pairs: Vec<(String, String)> = Vec::new();
                proof {
                    assert(crate::db::pair_views(empty_pairs@) =~= Seq::<
                        (Seq<char>, Seq<char>),
                    >::empty());
                }
                Frame::Array(hmget_reply(&empty_pairs, &fields))
            }
            Result::Ok(pairs) => Frame::Array(hmget_reply(pairs, &fields)),
        }
    }
}

/// Builds the per-field reply frames against one hash.
#[verifier::loop_isolation(false)]
fn hmget_reply(pairs: &Vec<(String, String)>, fields: &Vec<String>) -> (r: Vec<Frame>)
    ensures
        views_of(r@) == hmget_frames(crate::db::pair_views(pairs@), fields.deep_view(), 0),
{
    let ghost hv = crate::db::pair_views(pairs@);
    let ghost fv = fields.deep_view();
    let mut out: Vec<Frame> = Vec::new();
    let mut j: usize = 0;
    proof {
        lemma_views_of(out@);
    }
    while j < fields.len()
        invariant
            0 <= j <= fv.len(),
            hmget_frames(hv, fv, 0) == views_of(out@) + hmget_frames(hv, fv, j as int),
        decreases fv.len() - j,
    {
        proof {
            assert(fv[j as int] == fields@[j as int]@);
        }
        let ghost pre = out@;
        let f: Frame = match hash_pairs_find(pairs, &fields[j]) {
            Option::Some(v) => Frame::Bulk(v.as_str().as_bytes_vec()),
            Option::None => Frame::Null,
        };
        out.push(f);
        proof {
            lemma_views_of_push(pre, out@.last());
            assert(views_of(pre) + (seq![out@.last()@] + hmget_frames(hv, fv, j + 1))
                =~= views_of(out@) + hmget_frames(hv, fv, j + 1));
        }
        j = j + 1;
    }
    proof {
        assert(views_of(out@) + Seq::<FrameV>::empty() =~= views_of(out@));
    }
    out
}

/// The store after setting each field pair in order under one key.
pub open spec fn hmsets_map(
    m: Map<Seq<char>, EntryV>,
    k: Seq<char>,
    pairs: Seq<(Seq<char>, Seq<char>)>,
    i: int,
) -> Map<Seq<char>, EntryV>
    decreases pairs.len() - i,
{
    if i < 0 || i >= pairs.len() {
        m
    } else {
        hmsets_map(apply_hset(m, k, pairs[i].0, pairs[i].1), k, pairs, i + 1)
    }
}

/// The log records those sets emit when the key is not of another type.
pub open spec fn hmsets_wal(
    enabled: bool,
    k: Seq<char>,
    pairs: Seq<(Seq<char>, Seq<char>)>,
    i: int,
) -> Seq<u8>
    decreases pairs.len() - i,
{
    if i < 0 || i >= pairs.len() {
        Seq::<u8>::empty()
    } else {
        record_if(enabled, "hset"@, seq![k, pairs[i].0, pairs[i].1]) + hmsets_wal(
            enabled,
            k,
            pairs,
            i + 1,
        )
    }
}

/// `HMSET key field value [field value ...]`.
pub struct Hmset {
    pub key: String,
    pub fields_values: Vec<(String, String)>,
}

impl Hmset {
    /// Sets each field in order and replies `OK`, recording each set; a
    /// key of another type changes nothing and replies the wrong-type
    /// error.
    #[verifier::loop_isolation(false)]
    pub fn hmset_command(db: &mut Db, parse: &mut Parse, _now: u64) -> (r: Frame)
        requires
            old(db).wf(),
        ensures
            final(db).wf(),
            final(db).channels() == old(db).channels(),
            final(db).patterns() == old(db).patterns(),
            final(db).wal_enabled() == old(db).wal_enabled(),
            ({
                let rem = old(parse).remaining();
                let cnt = count_leading_strings(rem);
                let k = string_arg(rem, 0);
                let ps = kv_pairs(rem.skip(1));
                if cnt >= 3 && cnt % 2 == 1 && k is Some && ps is Some {
                    let key = k->Some_0;
                    let pairs = ps->Some_0;
                    if pairs.len() == 0 {
                        r@ == FrameV::Simple("OK"@) && final(db).spec_map() == old(db).spec_map()
                            && final(db).wal_pending() == old(db).wal_pending()
                    } else {
                    match old(db).spec_get(key) {
                        Option::Some(e) => if e.value is Hash {
                            r@ == FrameV::Simple("OK"@) && final(db).spec_map() == hmsets_map(
                                old(db).spec_map(),
                                key,
                                pairs,
                                0,
                            ) && final(db).wal_pending() == old(db).wal_pending() + hmsets_wal(
                                old(db).wal_enabled(),
                                key,
                                pairs,
                                0,
                            )
                        } else {
                            r@ == FrameV::Error(wrongtype()) && final(db).spec_map() == old(db).spec_map() && final(db).wal_pending() == old(db).wal_pending()
                        },
                        Option::None => r@ == FrameV::Simple("OK"@) && final(db).spec_map()
                            == hmsets_map(old(db).spec_map(), key, pairs, 0) && final(db).wal_pending() == old(db).wal_pending() + hmsets_wal(
                            old(db).wal_enabled(),
                            key,
                            pairs,
                            0,
                        ),
                    }
                    }
                } else {
                    r@ == FrameV::Error("ERR wrong number of arguments for 'hmset' command"@)
                        && final(db).spec_map() == old(db).spec_map() && final(db).wal_pending()
                        == old(db).wal_pending()
                }
            }),
    {
        let ghost rem = parse.remaining();
        let n = parse.args_number();
        if n < 3 || n % 2 != 1 {
            proof {
                assert(db.spec_map() =~= old(db).spec_map());
            }
            return Frame::Error(String::from_str("ERR wrong number of arguments for 'hmset' command"));
        }
        let key = match parse.next_string() {
            Result::Ok(s) => s,
            Result::Err(_) => {
                proof {
                    assert(db.spec_map() =~= old(db).spec_map());
                }
                return Frame::Error(
                    String::from_str("ERR wrong number of arguments for 'hmset' command"),
                );
            }
        };
        proof {
            assert(parse.remaining() =~= rem.skip(1));
        }
        let pairs = match crate::cmd_string::collect_pairs(parse) {
            Result::Ok(v) => v,
            Result::Err(_) => {
                proof {
                    assert(db.spec_map() =~= old(db).spec_map());
                }
                return Frame::Error(
                    String::from_str("ERR wrong number of arguments for 'hmset' command"),
                );
            }
        };
        let ghost pv = crate::db::pair_views(pairs@);
        let ghost m0 = db.spec_map();
        let ghost w0 = db.wal_pending();
        if pairs.len() == 0 {
            proof {
                assert(db.spec_map() =~= m0);
            }
            return Frame::Simple(String::from_str("OK"));
        }
        proof {
            assert(pv[0] == (pairs@[0].0@, pairs@[0].1@));
        }
        let first = &pairs[0];
        match db.hash_set(&key, &first.0, &first.1) {
            Result::Err(_) => {
                proof {
                    assert(db.spec_map() =~= m0);
                    assert(db.wal_pending() =~= w0 + Seq::<u8>::empty());
                    assert(db.wal_pending() =~= w0);
                }
                wrongtype_frame()
            }
            Result::Ok(_) => {
                proof {
                    assert(db.spec_map() =~= apply_hset(m0, key@, pv[0].0, pv[0].1));
                }
                let mut j: usize = 1;
                while j < pairs.len()
                    invariant
                        1 <= j <= pv.len(),
                        db.wf(),
                        db.channels() == old(db).channels(),
                        db.patterns() == old(db).patterns(),
                        db.wal_enabled() == old(db).wal_enabled(),
                        hmsets_map(m0, key@, pv, 0) == hmsets_map(db.spec_map(), key@, pv, j as int),
                        w0 + hmsets_wal(old(db).wal_enabled(), key@, pv, 0) == db.wal_pending()
                            + hmsets_wal(old(db).wal_enabled(), key@, pv, j as int),
                        (match db.spec_get(key@) {
                            Option::Some(e) => e.value is Hash,
                            Option::None => false,
                        }),
                    decreases pv.len() - j,
                {
                    let ghost mcur = db.spec_map();
                    proof {
                        assert(pv[j as int] == (pairs@[j as int].0@, pairs@[j as int].1@));
                    }
                    let fvp = &pairs[j];
                    match db.hash_set(&key, &fvp.0, &fvp.1) {
                        Result::Ok(_) => {
                            proof {
                                assert(db.spec_map() =~= apply_hset(
                                    mcur,
                                    key@,
                                    pv[j as int].0,
                                    pv[j as int].1,
                                ));
                            }
                        }
                        Result::Err(_) => {
                            proof {
                                assert(false);
                            }
                        }
                    }
                    j = j + 1;
                }
                proof {
                    assert(db.wal_pending() + Seq::<u8>::empty() =~= db.wal_pending());
                }
                Frame::Simple(String::from_str("OK"))
            }
        }
    }
}

/// The store after removing each field in order, with how many were
/// bound and the records the removals emit.
pub open spec fn hdels_map(
    m: Map<Seq<char>, EntryV>,
    k: Seq<char>,
    fields: Seq<Seq<char>>,
    i: int,
) -> Map<Seq<char>, EntryV>
    decreases fields.len() - i,
{
    if i < 0 || i >= fields.len() {
        m
    } else {
        hdels_map(apply_hdel(m, k, fields[i]), k, fields, i + 1)
    }
}

pub open spec fn hdel_hit(m: Map<Seq<char>, EntryV>, k: Seq<char>, f: Seq<char>) -> bool {
    m.dom().contains(k) && (m[k].value matches ValueV::Hash(h) && assoc_get(h, f) is Some)
}

pub open spec fn hdels_count(
    m: Map<Seq<char>, EntryV>,
    k: Seq<char>,
    fields: Seq<Seq<char>>,
    i: int,
) -> int
    decreases fields.len() - i,
{
    if i < 0 || i >= fields.len() {
        0
    } else {
        (if hdel_hit(m, k, fields[i]) {
            1int
        } else {
            0int
        }) + hdels_count(apply_hdel(m, k, fields[i]), k, fields, i + 1)
    }
}

pub open spec fn hdels_wal(
    enabled: bool,
    m: Map<Seq<char>, EntryV>,
    k: Seq<char>,
    fields: Seq<Seq<char>>,
    i: int,
) -> Seq<u8>
    decreases fields.len() - i,
{
    if i < 0 || i >= fields.len() {
        Seq::<u8>::empty()
    } else {
        (if hdel_hit(m, k, fields[i]) {
            record_if(enabled, "hdel"@, seq![k, fields[i]])
        } else {
            Seq::<u8>::empty()
        }) + hdels_wal(enabled, apply_hdel(m, k, fields[i]), k, fields, i + 1)
    }
}

/// `HDEL key field [field ...]`.
pub struct Hdel {
    pub key: String,
    pub fields: Vec<String>,
}

impl Hdel {
    /// Removes each named field, replying how many were bound; each
    /// removal is recorded.  An absent key removes nothing; a key of
    /// another type replies the wrong-type error.
    #[verifier::loop_isolation(false)]
    #[verifier::rlimit(100)]
    pub fn hdel_command(db: &mut Db, parse: &mut Parse, _now: u64) -> (r: Frame)
        requires
            old(db).wf(),
        ensures
            final(db).wf(),
            final(db).channels() == old(db).channels(),
            final(db).patterns() == old(db).patterns(),
            final(db).wal_enabled() == old(db).wal_enabled(),
            ({
                let rem = old(parse).remaining();
                let cnt = count_leading_strings(rem);
                let k = string_arg(rem, 0);
                let fields = args_prefix(rem.skip(1));
                if cnt >= 2 && k is Some && fields.len() == cnt - 1 {
                    let key = k->Some_0;
                    match old(db).spec_get(key) {
                        Option::Some(e) => match e.value {
                            ValueV::Hash(_) => {
                                &&& r@ == FrameV::Integer(
                                    int_len(
                                        hdels_count(old(db).spec_map(), key, fields, 0) as nat,
                                    ),
                                )
                                &&& final(db).spec_map() == hdels_map(
                                    old(db).spec_map(),
                                    key,
                                    fields,
                                    0,
                                )
                                &&& final(db).wal_pending() == old(db).wal_pending() + hdels_wal(
                                    old(db).wal_enabled(),
                                    old(db).spec_map(),
                                    key,
                                    fields,
                                    0,
                                )
                            },
                            _ => r@ == FrameV::Error(wrongtype()) && final(db).spec_map() == old(db).spec_map() && final(db).wal_pending() == old(db).wal_pending(),
                        },
                        Option::None => r@ == FrameV::Integer(0) && final(db).spec_map() == old(db).spec_map() && final(db).wal_pending() == old(db).wal_pending(),
                    }
                } else {
                    r@ == FrameV::Error("ERR wrong number of arguments for 'hdel' command"@)
                        && final(db).spec_map() == old(db).spec_map() && final(db).wal_pending()
                        == old(db).wal_pending()
                }
            }),
    {
        let ghost rem = parse.remaining();
        let n = parse.args_number();
        if n < 2 {
            proof {
                assert(db.spec_map() =~= old(db).spec_map());
            }
            return Frame::Error(String::from_str("ERR wrong number of arguments for 'hdel' command"));
        }
        let key = match parse.next_string() {
            Result::Ok(s) => s,
            Result::Err(_) => {
                proof {
                    assert(db.spec_map() =~= old(db).spec_map());
                }
                return Frame::Error(
                    String::from_str("ERR wrong number of arguments for 'hdel' command"),
                );
            }
        };
        proof {
            assert(parse.remaining() =~= rem.skip(1));
        }
        let fields = parse.collect_strings();
        let ghost fv = fields.deep_view();
        if fields.len() != n - 1 {
            proof {
                assert(db.spec_map() =~= old(db).spec_map());
            }
            return Frame::Error(String::from_str("ERR wrong number of arguments for 'hdel' command"));
        }
        let ghost m0 = db.spec_map();
        let ghost w0 = db.wal_pending();
        let is_hash: Result<bool, bool> = match db.hash_del(&key, &fields[0]) {
            Result::Ok(hit) => Ok(hit),
            Result::Err(_) => Err(true),
        };
        match is_hash {
            Result::Err(_) => {
                proof {
                    assert(db.spec_map() =~= old(db).spec_map());
                    assert(db.wal_pending() =~= w0 + Seq::<u8>::empty());
                    assert(db.wal_pending() =~= w0);
                }
                wrongtype_frame()
            }
            Result::Ok(first_hit) => {
                proof {
                    assert(fv[0] == fields@[0]@);
                }
                let mut count: usize = if first_hit {
                    1
                } else {
                    0
                };
                proof {
                    assert(db.spec_map() =~= apply_hdel(m0, key@, fv[0]));
                    lemma_hdels_count_bounds(m0, key@, fv, 0);
                }
                let mut j: usize = 1;
                while j < fields.len()
                    invariant
                        1 <= j <= fv.len(),
                        count <= j,
                        db.wf(),
                        db.channels() == old(db).channels(),
                        db.patterns() == old(db).patterns(),
                        db.wal_enabled() == old(db).wal_enabled(),
                        hdels_map(m0, key@, fv, 0) == hdels_map(db.spec_map(), key@, fv, j as int),
                        hdels_count(m0, key@, fv, 0) == count + hdels_count(
                            db.spec_map(),
                            key@,
                            fv,
                            j as int,
                        ),
                        w0 + hdels_wal(old(db).wal_enabled(), m0, key@, fv, 0) == db.wal_pending()
                            + hdels_wal(old(db).wal_enabled(), db.spec_map(), key@, fv, j as int),
                        (match db.spec_get(key@) {
                            Option::Some(e) => e.value is Hash,
                            Option::None => true,
                        }),
                    decreases fv.len() - j,
                {
                    let ghost mcur = db.spec_map();
                    let ghost wcur = db.wal_pending();
                    proof {
                        assert(fv[j as int] == fields@[j as int]@);
                    }
                    match db.hash_del(&key, &fields[j]) {
                        Result::Ok(hit) => {
                            proof {
                                assert(db.spec_map() =~= apply_hdel(mcur, key@, fv[j as int]));
                                lemma_hdels_count_bounds(db.spec_map(), key@, fv, j + 1);
                            }
                            if hit {
                                count = count + 1;
                            } else {
                                proof {
                                    assert(db.wal_pending() =~= wcur + Seq::<u8>::empty());
                                    assert(db.wal_pending() =~= wcur);
                                }
                            }
                        }
                        Result::Err(_) => {
                            proof {
                                assert(false);
                            }
                        }
                    }
                    j = j + 1;
                }
                proof {
                    assert(db.wal_pending() + Seq::<u8>::empty() =~= db.wal_pending());
                    if !m0.dom().contains(key@) {
                        lemma_hdels_absent(m0, key@, fv, 0);
                    }
                }
                Frame::Integer(len_to_i64(count))
            }
        }
    }
}

/// Each field removal counts at most one.
pub proof fn lemma_hdels_count_bounds(
    m: Map<Seq<char>, EntryV>,
    k: Seq<char>,
    fields: Seq<Seq<char>>,
    i: int,
)
    requires
        0 <= i <= fields.len(),
    ensures
        0 <= hdels_count(m, k, fields, i) <= fields.len() - i,
    decreases fields.len() - i,
{
    if i < fields.len() {
        lemma_hdels_count_bounds(apply_hdel(m, k, fields[i]), k, fields, i + 1);
    }
}

/// Removing fields from an absent key changes nothing and counts none.
pub proof fn lemma_hdels_absent(
    m: Map<Seq<char>, EntryV>,
    k: Seq<char>,
    fields: Seq<Seq<char>>,
    i: int,
)
    requires
        0 <= i <= fields.len(),
        !m.dom().contains(k),
    ensures
        hdels_map(m, k, fields, i) == m,
        hdels_count(m, k, fields, i) == 0,
        hdels_wal(true, m, k, fields, i) == Seq::<u8>::empty(),
        hdels_wal(false, m, k, fields, i) == Seq::<u8>::empty(),
    decreases fields.len() - i,
{
    if i < fields.len() {
        lemma_hdels_absent(m, k, fields, i + 1);
        assert(Seq::<u8>::empty() + Seq::<u8>::empty() =~= Seq::<u8>::empty());
    }
}

} // verus!
