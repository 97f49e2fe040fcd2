//! The binary snapshot format.
//!
//! A snapshot is a complete point-in-time serialization of the store:
//! the magic `REDIS` and a four-byte version, then a stream of records
//! ended by the end-of-file opcode.  A record is an optional expiration
//! opcode with an absolute millisecond timestamp, a one-byte type code,
//! a length-prefixed key, and the type's payload; every length is one
//! byte, so keys, elements and counts are capped at 255 — a value past
//! the cap is reported rather than silently truncated.  Loading layers
//! records over the store: lists and hashes merge into an existing value
//! of the same type, so a snapshot can be loaded after a log replay
//! without clobbering it.

use vstd::prelude::*;

verus! {

use vstd::utf8::{valid_utf8, decode_utf8, encode_utf8};
use crate::db::{Db, DbType, DbEntry, EntryV, ValueV, merge_entry, entry_live};

broadcast use vstd::std_specs::vec::group_vec_axioms, vstd::seq::group_seq_axioms,
    vstd::map::group_map_axioms;

pub const RDB_TYPE_STRING: u8 = 0;
pub const RDB_TYPE_LIST: u8 = 1;
pub const RDB_TYPE_HASH: u8 = 4;
pub const RDB_OPCODE_EXPIRETIME_MS: u8 = 252;
pub const RDB_OPCODE_SELECTDB: u8 = 254;
pub const RDB_OPCODE_EOF: u8 = 255;

/// `REDIS` followed by the version `0001`.
pub open spec fn rdb_header() -> Seq<u8> {
    seq![82u8, 69u8, 68u8, 73u8, 83u8, 48u8, 48u8, 48u8, 49u8]
}

/// The eight bytes of `n`, most significant first.
pub open spec fn be64(n: u64) -> Seq<u8> {
    seq![
        (n >> 56) as u8,
        (n >> 48) as u8,
        (n >> 40) as u8,
        (n >> 32) as u8,
        (n >> 24) as u8,
        (n >> 16) as u8,
        (n >> 8) as u8,
        n as u8,
    ]
}

/// The value eight big-endian bytes denote.
pub open spec fn be64_val(b: Seq<u8>) -> u64
    recommends
        b.len() == 8,
{
    (((b[0] as u64) << 56) | ((b[1] as u64) << 48) | ((b[2] as u64) << 40) | ((b[3] as u64) << 32)
        | ((b[4] as u64) << 24) | ((b[5] as u64) << 16) | ((b[6] as u64) << 8) | (b[7] as u64))
}

/// Reading back the eight bytes of `n` gives `n`.
pub proof fn lemma_be64(n: u64)
    ensures
        be64(n).len() == 8,
        be64_val(be64(n)) == n,
{
    assert((((((n >> 56) as u8) as u64) << 56) | ((((n >> 48) as u8) as u64) << 48) | ((((n >> 40)
        as u8) as u64) << 40) | ((((n >> 32) as u8) as u64) << 32) | ((((n >> 24) as u8) as u64)
        << 24) | ((((n >> 16) as u8) as u64) << 16) | ((((n >> 8) as u8) as u64) << 8) | ((n as u8)
        as u64)) == n) by (bit_vector);
}

/// A length-prefixed string: one length byte, then that many bytes of
/// UTF-8.
pub open spec fn ser_lstr(s: Seq<char>) -> Seq<u8> {
    seq![encode_utf8(s).len() as u8] + encode_utf8(s)
}

/// Whether a string fits the one-byte length prefix.
pub open spec fn lstr_ok(s: Seq<char>) -> bool {
    encode_utf8(s).len() <= 255
}

/// The serialized elements of `l[i..]`.
pub open spec fn ser_items(l: Seq<Seq<char>>, i: int) -> Seq<u8>
    decreases l.len() - i,
{
    if 0 <= i < l.len() {
        ser_lstr(l[i]) + ser_items(l, i + 1)
    } else {
        Seq::<u8>::empty()
    }
}

/// The serialized pairs of `h[i..]`.
pub open spec fn ser_pairs(h: Seq<(Seq<char>, Seq<char>)>, i: int) -> Seq<u8>
    decreases h.len() - i,
{
    if 0 <= i < h.len() {
        ser_lstr(h[i].0) + ser_lstr(h[i].1) + ser_pairs(h, i + 1)
    } else {
        Seq::<u8>::empty()
    }
}

/// A value's payload: a string is length-prefixed; a list or hash is a
/// one-byte count followed by its length-prefixed members.
pub open spec fn ser_value(v: ValueV) -> Seq<u8> {
    match v {
        ValueV::String(s) => ser_lstr(s),
        ValueV::List(l) => seq![l.len() as u8] + ser_items(l, 0),
        ValueV::Hash(h) => seq![h.len() as u8] + ser_pairs(h, 0),
    }
}

/// Whether a value fits the format's one-byte lengths and counts.
pub open spec fn value_ok(v: ValueV) -> bool {
    match v {
        ValueV::String(s) => lstr_ok(s),
        ValueV::List(l) => l.len() <= 255 && forall|i: int|
            0 <= i < l.len() ==> lstr_ok(#[trigger] l[i]),
        ValueV::Hash(h) => h.len() <= 255 && forall|i: int|
            0 <= i < h.len() ==> lstr_ok((#[trigger] h[i]).0) && lstr_ok(h[i].1),
    }
}

pub open spec fn type_code(v: ValueV) -> u8 {
    match v {
        ValueV::String(_) => RDB_TYPE_STRING,
        ValueV::List(_) => RDB_TYPE_LIST,
        ValueV::Hash(_) => RDB_TYPE_HASH,
    }
}

/// One entry's record: nothing when its expiration already passed at
/// dump time, else the optional expiration prefix, the type code, the
/// key and the payload.
pub open spec fn ser_entry(k: Seq<char>, e: EntryV, now: u64) -> Seq<u8> {
    match e.expiration {
        Option::Some(t) => if now > t {
            Seq::<u8>::empty()
        } else {
            seq![RDB_OPCODE_EXPIRETIME_MS] + be64(t) + seq![type_code(e.value)] + ser_lstr(k)
                + ser_value(e.value)
        },
        Option::None => seq![type_code(e.value)] + ser_lstr(k) + ser_value(e.value),
    }
}

/// The records of `entries[i..]`.
pub open spec fn ser_entries(entries: Seq<(Seq<char>, EntryV)>, i: int, now: u64) -> Seq<u8>
    decreases entries.len() - i,
{
    if 0 <= i < entries.len() {
        ser_entry(entries[i].0, entries[i].1, now) + ser_entries(entries, i + 1, now)
    } else {
        Seq::<u8>::empty()
    }
}

/// A whole snapshot: header, a select-database record whose index a load
/// discards, the entry records, and the end-of-file opcode.
pub open spec fn dump_bytes(entries: Seq<(Seq<char>, EntryV)>, now: u64) -> Seq<u8> {
    rdb_header() + seq![RDB_OPCODE_SELECTDB, 0u8, 0u8, 0u8, 0u8] + ser_entries(entries, 0, now)
        + seq![RDB_OPCODE_EOF]
}

/// Whether a record is written for the entry at all: one whose
/// expiration already passed at dump time is skipped.
pub open spec fn entry_dumped(e: EntryV, now: u64) -> bool {
    match e.expiration {
        Option::Some(t) => !(now > t),
        Option::None => true,
    }
}

/// Whether every entry that would be written fits the format.
pub open spec fn dumpable(entries: Seq<(Seq<char>, EntryV)>, now: u64) -> bool {
    forall|i: int|
        0 <= i < entries.len() && entry_dumped((#[trigger] entries[i]).1, now) ==> lstr_ok(
            entries[i].0,
        ) && value_ok(entries[i].1.value)
}

/// What stopped a snapshot operation.
#[derive(Debug, Clone, Copy, PartialEq, Eq, Structural)]
pub enum RdbError {
    /// A key, member or count is over the format's one-byte cap.
    TooLong,
    /// The bytes do not follow the snapshot format.
    BadFormat,
}

/// A length-prefixed string read at `pos`: the characters and the
/// position past them, if the bytes are there and are UTF-8.
pub open spec fn spec_read_lstr(b: Seq<u8>, pos: int) -> Option<(Seq<char>, int)> {
    if 0 <= pos < b.len() {
        let l = b[pos] as int;
        if pos + 1 + l <= b.len() && valid_utf8(b.subrange(pos + 1, pos + 1 + l)) {
            Some((decode_utf8(b.subrange(pos + 1, pos + 1 + l)), pos + 1 + l))
        } else {
            None::<(Seq<char>, int)>
        }
    } else {
        None::<(Seq<char>, int)>
    }
}

/// `n` length-prefixed strings read from `pos`.
pub open spec fn spec_read_items(b: Seq<u8>, pos: int, n: int) -> Option<(Seq<Seq<char>>, int)>
    decreases n,
{
    if n <= 0 {
        Some((Seq::<Seq<char>>::empty(), pos))
    } else {
        match spec_read_lstr(b, pos) {
            Option::Some(sp) => match spec_read_items(b, sp.1, n - 1) {
                Option::Some(rest) => Some((seq![sp.0] + rest.0, rest.1)),
                Option::None => None::<(Seq<Seq<char>>, int)>,
            },
            Option::None => None::<(Seq<Seq<char>>, int)>,
        }
    }
}

/// `n` length-prefixed pairs read from `pos`.
pub open spec fn spec_read_pairs(b: Seq<u8>, pos: int, n: int) -> Option<
    (Seq<(Seq<char>, Seq<char>)>, int),
>
    decreases n,
{
    if n <= 0 {
        Some((Seq::<(Seq<char>, Seq<char>)>::empty(), pos))
    } else {
        match spec_read_lstr(b, pos) {
            Option::Some(fp) => match spec_read_lstr(b, fp.1) {
                Option::Some(vp) => match spec_read_pairs(b, vp.1, n - 1) {
                    Option::Some(rest) => Some((seq![(fp.0, vp.0)] + rest.0, rest.1)),
                    Option::None => None::<(Seq<(Seq<char>, Seq<char>)>, int)>,
                },
                Option::None => None::<(Seq<(Seq<char>, Seq<char>)>, int)>,
            },
            Option::None => None::<(Seq<(Seq<char>, Seq<char>)>, int)>,
        }
    }
}

/// A typed payload read at `pos`.
pub open spec fn spec_read_value(b: Seq<u8>, pos: int, t: u8) -> Option<(ValueV, int)> {
    if t == RDB_TYPE_STRING {
        match spec_read_lstr(b, pos) {
            Option::Some(sp) => Some((ValueV::String(sp.0), sp.1)),
            Option::None => None::<(ValueV, int)>,
        }
    } else if t == RDB_TYPE_LIST {
        if 0 <= pos < b.len() {
            match spec_read_items(b, pos + 1, b[pos] as int) {
                Option::Some(ip) => Some((ValueV::List(ip.0), ip.1)),
                Option::None => None::<(ValueV, int)>,
            }
        } else {
            None::<(ValueV, int)>
        }
    } else if t == RDB_TYPE_HASH {
        if 0 <= pos < b.len() {
            match spec_read_pairs(b, pos + 1, b[pos] as int) {
                Option::Some(hp) => Some((ValueV::Hash(hp.0), hp.1)),
                Option::None => None::<(ValueV, int)>,
            }
        } else {
            None::<(ValueV, int)>
        }
    } else {
        None::<(ValueV, int)>
    }
}

/// The store contents a load leaves behind, reading records from `pos`
/// until the end-of-file opcode: a record whose expiration already
/// passed at load time is skipped, and every other record merges into
/// the store.  `None` is the fatal condition: truncated bytes, an
/// unknown type code, or a member that is not UTF-8.
pub open spec fn spec_load(
    m: Map<Seq<char>, EntryV>,
    b: Seq<u8>,
    pos: int,
    now: u64,
) -> Option<Map<Seq<char>, EntryV>>
    decreases b.len() - pos, 1int,
{
    if pos < 0 || pos >= b.len() {
        None::<Map<Seq<char>, EntryV>>
    } else if b[pos] == RDB_OPCODE_EOF {
        Some(m)
    } else if b[pos] == RDB_OPCODE_SELECTDB {
        if pos + 5 <= b.len() {
            spec_load(m, b, pos + 5, now)
        } else {
            None::<Map<Seq<char>, EntryV>>
        }
    } else if b[pos] == RDB_OPCODE_EXPIRETIME_MS {
        if pos + 9 <= b.len() {
            spec_load_record(m, b, pos + 9, Some(be64_val(b.subrange(pos + 1, pos + 9))), now)
        } else {
            None::<Map<Seq<char>, EntryV>>
        }
    } else {
        spec_load_record(m, b, pos, None::<u64>, now)
    }
}

/// One typed record read at `pos` and merged in, then the rest of the
/// stream.
pub open spec fn spec_load_record(
    m: Map<Seq<char>, EntryV>,
    b: Seq<u8>,
    pos: int,
    exp: Option<u64>,
    now: u64,
) -> Option<Map<Seq<char>, EntryV>>
    decreases b.len() - pos, 0int,
{
    if pos < 0 || pos >= b.len() {
        None::<Map<Seq<char>, EntryV>>
    } else {
        let t = b[pos];
        if t == RDB_TYPE_STRING || t == RDB_TYPE_LIST || t == RDB_TYPE_HASH {
            match spec_read_lstr(b, pos + 1) {
                Option::Some(kp) => match spec_read_value(b, kp.1, t) {
                    Option::Some(vp) => if pos < vp.1 <= b.len() {
                        let m2 = if exp matches Some(t0) && t0 < now {
                            m
                        } else {
                            m.insert(kp.0, merge_entry(if m.dom().contains(kp.0) {
                                Some(m[kp.0])
                            } else {
                                None::<EntryV>
                            }, vp.0, exp))
                        };
                        spec_load(m2, b, vp.1, now)
                    } else {
                        None::<Map<Seq<char>, EntryV>>
                    },
                    Option::None => None::<Map<Seq<char>, EntryV>>,
                },
                Option::None => None::<Map<Seq<char>, EntryV>>,
            }
        } else {
            None::<Map<Seq<char>, EntryV>>
        }
    }
}

/// Builds and reads snapshot bytes; the binary writes the buffer to the
/// snapshot file and fills it back from one.
#[derive(Debug)]
pub struct RdbWriter {
    buffer: Vec<u8>,
}

impl RdbWriter {
    /// The snapshot bytes held.
    pub closed spec fn bytes(&self) -> Seq<u8> {
        self.buffer@
    }

    /// An empty writer.
    pub fn new() -> (r: RdbWriter)
        ensures
            r.bytes() == Seq::<u8>::empty(),
    {
        RdbWriter { buffer: Vec::new() }
    }

    /// A writer over bytes read from a snapshot file.
    pub fn from_bytes(data: Vec<u8>) -> (r: RdbWriter)
        ensures
            r.bytes() == data@,
    {
        RdbWriter { buffer: data }
    }

    /// Hands the built snapshot out for the binary to write to disk.
    pub fn take_buffer(&mut self) -> (r: Vec<u8>)
        ensures
            r@ == old(self).bytes(),
            final(self).bytes() == Seq::<u8>::empty(),
    {
        let mut out: Vec<u8> = Vec::new();
        core::mem::swap(&mut out, &mut self.buffer);
        out
    }

    /// Writes the magic and version.
    fn write_header(&mut self)
        ensures
            final(self).bytes() == old(self).bytes() + rdb_header(),
    {
        self.buffer.push(82);
        self.buffer.push(69);
        self.buffer.push(68);
        self.buffer.push(73);
        self.buffer.push(83);
        self.buffer.push(48);
        self.buffer.push(48);
        self.buffer.push(48);
        self.buffer.push(49);
        assert(self.buffer@ =~= old(self).bytes() + rdb_header());
    }

    /// Writes the expiration opcode and its absolute timestamp.
    fn write_expire_time(&mut self, expire_time: u64)
        ensures
            final(self).bytes() == old(self).bytes() + seq![RDB_OPCODE_EXPIRETIME_MS] + be64(
                expire_time,
            ),
    {
        self.buffer.push(RDB_OPCODE_EXPIRETIME_MS);
        self.buffer.push((expire_time >> 56) as u8);
        self.buffer.push((expire_time >> 48) as u8);
        self.buffer.push((expire_time >> 40) as u8);
        self.buffer.push((expire_time >> 32) as u8);
        self.buffer.push((expire_time >> 24) as u8);
        self.buffer.push((expire_time >> 16) as u8);
        self.buffer.push((expire_time >> 8) as u8);
        self.buffer.push(expire_time as u8);
        assert(self.buffer@ =~= old(self).bytes() + seq![RDB_OPCODE_EXPIRETIME_MS] + be64(
            expire_time,
        ));
    }

    /// Writes the value's one-byte type code.
    fn save_db_type(&mut self, db_type: &DbType)
        ensures
            final(self).bytes() == old(self).bytes() + seq![type_code(db_type@)],
    {
        let code = match db_type {
            DbType::String(_) => RDB_TYPE_STRING,
            DbType::List(_) => RDB_TYPE_LIST,
            DbType::Hash(_) => RDB_TYPE_HASH,
        };
        self.buffer.push(code);
        assert(self.buffer@ =~= old(self).bytes() + seq![type_code(db_type@)]);
    }

    /// Writes one length-prefixed string, or reports one over the cap.
    fn save_string(&mut self, s: &String) -> (r: Result<(), RdbError>)
        ensures
            r is Ok <==> lstr_ok(s@),
            r is Ok ==> final(self).bytes() == old(self).bytes() + ser_lstr(s@),
            r is Err ==> final(self).bytes() == old(self).bytes(),
    {
        let mut body = s.as_str().as_bytes_vec();
        if body.len() > 255 {
            return Err(RdbError::TooLong);
        }
        self.buffer.push(body.len() as u8);
        self.buffer.append(&mut body);
        assert(self.buffer@ =~= old(self).bytes() + ser_lstr(s@));
        Ok(())
    }

    /// Writes a value's payload, or reports a member or count over the
    /// cap.
    #[verifier::loop_isolation(false)]
    fn save_value(&mut self, value: &DbType) -> (r: Result<(), RdbError>)
        ensures
            r is Ok <==> value_ok(value@),
            r is Ok ==> final(self).bytes() == old(self).bytes() + ser_value(value@),
    {
        match value {
            DbType::String(s) => {
                match self.save_string(s) {
                    Result::Ok(_) => Ok(()),
                    Result::Err(e) => Err(e),
                }
            }
            DbType::List(items) => {
                let ghost lv = crate::db::string_views(items@);
                proof {
                    assert(value@->List_0 =~= lv);
                }
                if items.len() > 255 {
                    return Err(RdbError::TooLong);
                }
                self.buffer.push(items.len() as u8);
                let mut j: usize = 0;
                while j < items.len()
                    invariant
                        j <= items@.len(),
                        self.bytes() + ser_items(lv, j as int) == old(self).bytes() + seq![
                            lv.len() as u8,
                        ] + ser_items(lv, 0),
                        forall|q: int| 0 <= q < j ==> lstr_ok(#[trigger] lv[q]),
                    decreases items@.len() - j,
                {
                    proof {
                        assert(lv[j as int] == items@[j as int]@);
                    }
                    let ghost mid = self.bytes();
                    match self.save_string(&items[j]) {
                        Result::Ok(_) => {}
                        Result::Err(e) => {
                            proof {
                                assert(!lstr_ok(lv[j as int]));
                            }
                            return Err(e);
                        }
                    }
                    proof {
                        assert(self.bytes() + ser_items(lv, j + 1) =~= mid + ser_items(
                            lv,
                            j as int,
                        ));
                    }
                    j = j + 1;
                }
                proof {
                    assert(ser_items(lv, items@.len() as int) =~= Seq::<u8>::empty());
                    assert(self.bytes() =~= self.bytes() + ser_items(lv, items@.len() as int));
                    assert(self.bytes() =~= old(self).bytes() + ser_value(value@));
                }
                Ok(())
            }
            DbType::Hash(pairs) => {
                let ghost hv = crate::db::pair_views(pairs@);
                proof {
                    assert(value@->Hash_0 =~= hv);
                }
                if pairs.len() > 255 {
                    return Err(RdbError::TooLong);
                }
                self.buffer.push(pairs.len() as u8);
                let mut j: usize = 0;
                while j < pairs.len()
                    invariant
                        j <= pairs@.len(),
                        self.bytes() + ser_pairs(hv, j as int) == old(self).bytes() + seq![
                            hv.len() as u8,
                        ] + ser_pairs(hv, 0),
                        forall|q: int|
                            0 <= q < j ==> lstr_ok((#[trigger] hv[q]).0) && lstr_ok(hv[q].1),
                    decreases pairs@.len() - j,
                {
                    proof {
                        assert(hv[j as int] == (pairs@[j as int].0@, pairs@[j as int].1@));
                    }
                    let ghost mid = self.bytes();
                    match self.save_string(&pairs[j].0) {
                        Result::Ok(_) => {}
                        Result::Err(e) => {
                            proof {
                                assert(!lstr_ok(hv[j as int].0));
                            }
                            return Err(e);
                        }
                    }
                    match self.save_string(&pairs[j].1) {
                        Result::Ok(_) => {}
                        Result::Err(e) => {
                            proof {
                                assert(!lstr_ok(hv[j as int].1));
                            }
                            return Err(e);
                        }
                    }
                    proof {
                        assert(self.bytes() + ser_pairs(hv, j + 1) =~= mid + ser_pairs(
                            hv,
                            j as int,
                        ));
                    }
                    j = j + 1;
                }
                proof {
                    assert(ser_pairs(hv, pairs@.len() as int) =~= Seq::<u8>::empty());
                    assert(self.bytes() =~= old(self).bytes() + ser_value(value@));
                }
                Ok(())
            }
        }
    }

    /// Writes one entry's record, skipping an entry whose expiration
    /// already passed.
    fn save_key_value_pair(&mut self, key: &String, value: &DbEntry, now: u64) -> (r: Result<
        (),
        RdbError,
    >)
        ensures
            r is Ok <==> (entry_dumped(value@, now) ==> lstr_ok(key@) && value_ok(value@.value)),
            r is Ok ==> final(self).bytes() == old(self).bytes() + ser_entry(key@, value@, now),
    {
        match value.expiration {
            Option::Some(expire_time) => {
                if now > expire_time {
                    proof {
                        assert(self.bytes() =~= old(self).bytes() + ser_entry(key@, value@, now));
                    }
                    return Ok(());
                }
                self.write_expire_time(expire_time);
            }
            Option::None => {}
        }
        self.save_db_type(&value.value);
        match self.save_string(key) {
            Result::Ok(_) => {}
            Result::Err(e) => {
                return Err(e);
            }
        }
        match self.save_value(&value.value) {
            Result::Ok(_) => {}
            Result::Err(e) => {
                return Err(e);
            }
        }
        proof {
            assert(self.bytes() =~= old(self).bytes() + ser_entry(key@, value@, now));
        }
        Ok(())
    }
}

/// Serializes the whole store at time `now`: every live entry's record
/// between the header and the end-of-file opcode.  Reports a key or
/// member over the format's one-byte cap instead of truncating it.
#[verifier::loop_isolation(false)]
pub fn dump(db: &Db, now: u64) -> (r: Result<RdbWriter, RdbError>)
    requires
        db.wf(),
    ensures
        r is Ok <==> dumpable(db.entries(), now),
        r matches Ok(w) ==> w.bytes() == dump_bytes(db.entries(), now),
{
    let ghost entries = db.entries();
    let mut rdb = RdbWriter::new();
    rdb.write_header();
    rdb.buffer.push(RDB_OPCODE_SELECTDB);
    rdb.buffer.push(0);
    rdb.buffer.push(0);
    rdb.buffer.push(0);
    rdb.buffer.push(0);
    let ghost hdr = rdb_header() + seq![RDB_OPCODE_SELECTDB, 0u8, 0u8, 0u8, 0u8];
    proof {
        assert(rdb.bytes() =~= hdr);
    }
    let n = db.entry_count();
    let mut i: usize = 0;
    while i < n
        invariant
            0 <= i <= n,
            n == entries.len(),
            entries == db.entries(),
            rdb.bytes() + ser_entries(entries, i as int, now) == hdr + ser_entries(entries, 0, now),
            forall|q: int|
                0 <= q < i && entry_dumped((#[trigger] entries[q]).1, now) ==> lstr_ok(
                    entries[q].0,
                ) && value_ok(entries[q].1.value),
        decreases n - i,
    {
        let e = db.entry_at(i);
        let ghost mid = rdb.bytes();
        match rdb.save_key_value_pair(&e.0, &e.1, now) {
            Result::Ok(_) => {}
            Result::Err(err) => {
                proof {
                    assert(entry_dumped(entries[i as int].1, now) && !(lstr_ok(entries[i as int].0)
                        && value_ok(entries[i as int].1.value)));
                }
                return Err(err);
            }
        }
        proof {
            assert(rdb.bytes() + ser_entries(entries, i + 1, now) =~= mid + ser_entries(
                entries,
                i as int,
                now,
            ));
        }
        i = i + 1;
    }
    rdb.buffer.push(RDB_OPCODE_EOF);
    proof {
        assert(ser_entries(entries, n as int, now) =~= Seq::<u8>::empty());
        assert(rdb.bytes() =~= dump_bytes(entries, now));
    }
    Ok(rdb)
}

/// Reads one length-prefixed string at the cursor.
#[verifier::loop_isolation(false)]
fn load_string_object(b: &Vec<u8>, pos: &mut usize) -> (r: Result<String, RdbError>)
    ensures
        match spec_read_lstr(b@, *old(pos) as int) {
            Option::Some(sp) => r matches Ok(s) && s@ == sp.0 && *final(pos) == sp.1 && *old(pos)
                < sp.1 <= b@.len(),
            Option::None => r is Err,
        },
{
    if *pos >= b.len() {
        return Err(RdbError::BadFormat);
    }
    let l: usize = b[*pos] as usize;
    if l > b.len() - *pos - 1 {
        return Err(RdbError::BadFormat);
    }
    let start: usize = *pos + 1;
    let mut chunk: Vec<u8> = Vec::new();
    let mut k: usize = 0;
    while k < l
        invariant
            k <= l,
            start + l <= b@.len(),
            chunk@ == b@.subrange(start as int, start + k),
        decreases l - k,
    {
        chunk.push(b[start + k]);
        k = k + 1;
        assert(chunk@ =~= b@.subrange(start as int, start + k));
    }
    match crate::frame::string_from_utf8(chunk) {
        Option::Some(s) => {
            *pos = start + l;
            Ok(s)
        }
        Option::None => Err(RdbError::BadFormat),
    }
}

/// Reads a typed payload at the cursor.
#[verifier::loop_isolation(false)]
fn load_object(b: &Vec<u8>, pos: &mut usize, obj_type: u8) -> (r: Result<DbType, RdbError>)
    ensures
        match spec_read_value(b@, *old(pos) as int, obj_type) {
            Option::Some(vp) => r matches Ok(v) && v@ == vp.0 && *final(pos) == vp.1 && *old(pos)
                <= vp.1 <= b@.len(),
            Option::None => r is Err,
        },
{
    if obj_type == RDB_TYPE_STRING {
        match load_string_object(b, pos) {
            Result::Ok(s) => Ok(DbType::String(s)),
            Result::Err(e) => Err(e),
        }
    } else if obj_type == RDB_TYPE_LIST {
        if *pos >= b.len() {
            return Err(RdbError::BadFormat);
        }
        let n: usize = b[*pos] as usize;
        *pos = *pos + 1;
        let mut items: Vec<String> = Vec::new();
        let mut j: usize = 0;
        while j < n
            invariant
                j <= n,
                *old(pos) < *pos <= b@.len(),
                spec_read_items(b@, *old(pos) + 1, n as int) == (match spec_read_items(
                    b@,
                    *pos as int,
                    (n - j) as int,
                ) {
                    Option::Some(rest) => Option::Some(
                        (crate::db::string_views(items@) + rest.0, rest.1),
                    ),
                    Option::None => Option::<(Seq<Seq<char>>, int)>::None,
                }),
            decreases n - j,
        {
            let ghost iv = crate::db::string_views(items@);
            match load_string_object(b, pos) {
                Result::Ok(s) => {
                    let ghost sv = s@;
                    items.push(s);
                    proof {
                        assert(crate::db::string_views(items@) =~= iv.push(sv));
                        assert forall|rest0: Seq<Seq<char>>| true implies iv + (seq![sv] + rest0)
                            =~= crate::db::string_views(items@) + rest0 by {}
                    }
                }
                Result::Err(e) => {
                    return Err(e);
                }
            }
            j = j + 1;
        }
        proof {
            assert(spec_read_items(b@, *pos as int, 0) == Option::<(Seq<Seq<char>>, int)>::Some(
                (Seq::<Seq<char>>::empty(), *pos as int),
            ));
            assert(crate::db::string_views(items@) + Seq::<Seq<char>>::empty()
                =~= crate::db::string_views(items@));
            assert(DbType::List(items)@->List_0 =~= crate::db::string_views(items@));
        }
        Ok(DbType::List(items))
    } else if obj_type == RDB_TYPE_HASH {
        if *pos >= b.len() {
            return Err(RdbError::BadFormat);
        }
        let n: usize = b[*pos] as usize;
        *pos = *pos + 1;
        let mut pairs: Vec<(String, String)> = Vec::new();
        let mut j: usize = 0;
        while j < n
            invariant
                j <= n,
                *old(pos) < *pos <= b@.len(),
                spec_read_pairs(b@, *old(pos) + 1, n as int) == (match spec_read_pairs(
                    b@,
                    *pos as int,
                    (n - j) as int,
                ) {
                    Option::Some(rest) => Option::Some(
                        (crate::db::pair_views(pairs@) + rest.0, rest.1),
                    ),
                    Option::None => Option::<(Seq<(Seq<char>, Seq<char>)>, int)>::None,
                }),
            decreases n - j,
        {
            let ghost pv = crate::db::pair_views(pairs@);
            let f = match load_string_object(b, pos) {
                Result::Ok(s) => s,
                Result::Err(e) => {
                    return Err(e);
                }
            };
            let v = match load_string_object(b, pos) {
                Result::Ok(s) => s,
                Result::Err(e) => {
                    return Err(e);
                }
            };
            let ghost fv = f@;
            let ghost vv = v@;
            pairs.push((f, v));
            proof {
                assert(crate::db::pair_views(pairs@) =~= pv.push((fv, vv)));
                assert forall|rest0: Seq<(Seq<char>, Seq<char>)>| true implies pv + (seq![
                    (fv, vv),
                ] + rest0) =~= crate::db::pair_views(pairs@) + rest0 by {}
            }
            j = j + 1;
        }
        proof {
            assert(spec_read_pairs(b@, *pos as int, 0) == Option::<
                (Seq<(Seq<char>, Seq<char>)>, int),
            >::Some((Seq::<(Seq<char>, Seq<char>)>::empty(), *pos as int)));
            assert(crate::db::pair_views(pairs@) + Seq::<(Seq<char>, Seq<char>)>::empty()
                =~= crate::db::pair_views(pairs@));
            assert(DbType::Hash(pairs)@->Hash_0 =~= crate::db::pair_views(pairs@));
        }
        Ok(DbType::Hash(pairs))
    } else {
        Err(RdbError::BadFormat)
    }
}

/// Loads a snapshot into the store at time `now`.  A bad magic or
/// version is fatal before anything is touched; records then merge in
/// one by one, those whose expiration already passed at load time
/// skipped; truncated bytes, an unknown type code or a member that is
/// not UTF-8 stop the load with an error.
#[verifier::loop_isolation(false)]
#[verifier::rlimit(100)]
pub fn load_rdb(db: &mut Db, rdb: &RdbWriter, now: u64) -> (r: Result<(), RdbError>)
    requires
        old(db).wf(),
    ensures
        final(db).wf(),
        final(db).channels() == old(db).channels(),
        final(db).patterns() == old(db).patterns(),
        final(db).wal_enabled() == old(db).wal_enabled(),
        final(db).wal_pending() == old(db).wal_pending(),
        (rdb.bytes().len() < 9 || rdb.bytes().subrange(0, 9) != rdb_header()) ==> r is Err && final(db).spec_map() == old(db).spec_map(),
        (rdb.bytes().len() >= 9 && rdb.bytes().subrange(0, 9) == rdb_header()) ==> (match spec_load(
            old(db).spec_map(),
            rdb.bytes(),
            9,
            now,
        ) {
            Option::Some(m) => r is Ok && final(db).spec_map() == m,
            Option::None => r is Err,
        }),
{
    let b = &rdb.buffer;
    if b.len() < 9 {
        return Err(RdbError::BadFormat);
    }
    let magic_ok = b[0] == 82 && b[1] == 69 && b[2] == 68 && b[3] == 73 && b[4] == 83 && b[5] == 48
        && b[6] == 48 && b[7] == 48 && b[8] == 49;
    proof {
        if magic_ok {
            assert(b@.subrange(0, 9) =~= rdb_header());
        } else {
            assert(b@.subrange(0, 9) != rdb_header()) by {
                if b@.subrange(0, 9) == rdb_header() {
                    assert(b@[0] == rdb_header()[0]);
                    assert(b@[1] == rdb_header()[1]);
                    assert(b@[2] == rdb_header()[2]);
                    assert(b@[3] == rdb_header()[3]);
                    assert(b@[4] == rdb_header()[4]);
                    assert(b@[5] == rdb_header()[5]);
                    assert(b@[6] == rdb_header()[6]);
                    assert(b@[7] == rdb_header()[7]);
                    assert(b@[8] == rdb_header()[8]);
                }
            }
        }
    }
    if !magic_ok {
        return Err(RdbError::BadFormat);
    }
    let ghost m0 = db.spec_map();
    let mut pos: usize = 9;
    loop
        invariant
            9 <= pos <= b@.len(),
            db.wf(),
            db.channels() == old(db).channels(),
            db.patterns() == old(db).patterns(),
            db.wal_enabled() == old(db).wal_enabled(),
            db.wal_pending() == old(db).wal_pending(),
            spec_load(m0, b@, 9, now) == spec_load(db.spec_map(), b@, pos as int, now),
        decreases b@.len() - pos,
    {
        if pos >= b.len() {
            return Err(RdbError::BadFormat);
        }
        let opcode = b[pos];
        if opcode == RDB_OPCODE_EOF {
            return Ok(());
        } else if opcode == RDB_OPCODE_SELECTDB {
            if b.len() - pos < 5 {
                return Err(RdbError::BadFormat);
            }
            pos = pos + 5;
        } else {
            let mut expiration: Option<u64> = None;
            let mut tpos: usize = pos;
            if opcode == RDB_OPCODE_EXPIRETIME_MS {
                if b.len() - pos < 9 {
                    return Err(RdbError::BadFormat);
                }
                let t: u64 = ((b[pos + 1] as u64) << 56u64) | ((b[pos + 2] as u64) << 48u64) | ((b[
                    pos + 3] as u64) << 40u64) | ((b[pos + 4] as u64) << 32u64) | ((b[pos + 5]
                    as u64) << 24u64) | ((b[pos + 6] as u64) << 16u64) | ((b[pos + 7] as u64)
                    << 8u64) | (b[pos + 8] as u64);
                proof {
                    let sub = b@.subrange(pos + 1, pos + 9);
                    assert(sub[0] == b@[pos + 1]);
                    assert(sub[1] == b@[pos + 2]);
                    assert(sub[2] == b@[pos + 3]);
                    assert(sub[3] == b@[pos + 4]);
                    assert(sub[4] == b@[pos + 5]);
                    assert(sub[5] == b@[pos + 6]);
                    assert(sub[6] == b@[pos + 7]);
                    assert(sub[7] == b@[pos + 8]);
                    assert(t == be64_val(sub));
                }
                expiration = Some(t);
                tpos = pos + 9;
                if tpos >= b.len() {
                    proof {
                        assert(spec_load(db.spec_map(), b@, pos as int, now) == spec_load_record(
                            db.spec_map(),
                            b@,
                            tpos as int,
                            Some(t),
                            now,
                        ));
                        assert(spec_load_record(db.spec_map(), b@, tpos as int, Some(t), now)
                            is None);
                    }
                    return Err(RdbError::BadFormat);
                }
            }
            let t_code = b[tpos];
            if t_code != RDB_TYPE_STRING && t_code != RDB_TYPE_LIST && t_code != RDB_TYPE_HASH {
                proof {
                    assert(spec_load(db.spec_map(), b@, pos as int, now) == spec_load_record(
                        db.spec_map(),
                        b@,
                        tpos as int,
                        expiration,
                        now,
                    ));
                    assert(spec_load_record(db.spec_map(), b@, tpos as int, expiration, now)
                        is None);
                }
                return Err(RdbError::BadFormat);
            }
            let mut cursor: usize = tpos + 1;
            let key = match load_string_object(b, &mut cursor) {
                Result::Ok(s) => s,
                Result::Err(e) => {
                    return Err(e);
                }
            };
            let ghost c1 = cursor as int;
            let value = match load_object(b, &mut cursor, t_code) {
                Result::Ok(v) => v,
                Result::Err(e) => {
                    return Err(e);
                }
            };
            proof {
                assert(spec_read_lstr(b@, tpos + 1) == Option::<(Seq<char>, int)>::Some(
                    (key@, c1),
                ));
                assert(spec_read_value(b@, c1, t_code) == Option::<(ValueV, int)>::Some(
                    (value@, cursor as int),
                ));
                assert(tpos < cursor <= b@.len());
            }
            let skip = match expiration {
                Option::Some(t0) => t0 < now,
                Option::None => false,
            };
            let ghost mcur = db.spec_map();
            if !skip {
                db.merge_absolute(&key, value, expiration);
                proof {
                    assert(db.spec_map() =~= mcur.insert(
                        key@,
                        merge_entry(
                            if mcur.dom().contains(key@) {
                                Some(mcur[key@])
                            } else {
                                Option::<EntryV>::None
                            },
                            value@,
                            expiration,
                        ),
                    ));
                }
            }
            proof {
                assert(spec_load(mcur, b@, pos as int, now) == spec_load_record(
                    mcur,
                    b@,
                    tpos as int,
                    expiration,
                    now,
                ));
                assert(spec_load_record(mcur, b@, tpos as int, expiration, now) == spec_load(
                    db.spec_map(),
                    b@,
                    cursor as int,
                    now,
                ));
            }
            pos = cursor;
        }
    }
}

/// What a load of the records of `entries[i..]` leaves behind: each entry
/// that was written at dump time and not yet expired at load time is
/// bound to exactly its value and expiration.
pub open spec fn loaded_map(
    m: Map<Seq<char>, EntryV>,
    entries: Seq<(Seq<char>, EntryV)>,
    i: int,
    now_dump: u64,
    now_load: u64,
) -> Map<Seq<char>, EntryV>
    decreases entries.len() - i,
{
    if i < 0 || i >= entries.len() {
        m
    } else {
        let k = entries[i].0;
        let e = entries[i].1;
        let skip_load = e.expiration matches Some(t) && t < now_load;
        if entry_dumped(e, now_dump) && !skip_load {
            loaded_map(m.insert(k, e), entries, i + 1, now_dump, now_load)
        } else {
            loaded_map(m, entries, i + 1, now_dump, now_load)
        }
    }
}

/// A length-prefixed string written is the string read back.
proof fn lemma_read_lstr_ser(t: Seq<char>, b: Seq<u8>, pos: int)
    requires
        lstr_ok(t),
        0 <= pos,
        pos + ser_lstr(t).len() <= b.len(),
        b.subrange(pos, pos + ser_lstr(t).len()) == ser_lstr(t),
    ensures
        spec_read_lstr(b, pos) == Some((t, pos + ser_lstr(t).len())),
{
    let enc = encode_utf8(t);
    let s = ser_lstr(t);
    crate::frame_laws::lemma_embed_index(b, pos, s, 0);
    assert(s[0] == enc.len() as u8);
    crate::frame_laws::lemma_embed_sub(b, pos, s, 1, s.len() as int);
    assert(s.subrange(1, s.len() as int) =~= enc);
    assert(b.subrange(pos + 1, pos + 1 + enc.len()) == enc);
    vstd::utf8::encode_utf8_valid_utf8(t);
    vstd::utf8::encode_utf8_decode_utf8(t);
}

/// Written list items are the items read back.
proof fn lemma_read_items_ser(l: Seq<Seq<char>>, i: int, b: Seq<u8>, pos: int)
    requires
        0 <= i <= l.len(),
        forall|j: int| 0 <= j < l.len() ==> lstr_ok(#[trigger] l[j]),
        0 <= pos,
        pos + ser_items(l, i).len() <= b.len(),
        b.subrange(pos, pos + ser_items(l, i).len()) == ser_items(l, i),
    ensures
        spec_read_items(b, pos, l.len() - i) == Some((l.skip(i), pos + ser_items(l, i).len())),
    decreases l.len() - i,
{
    if i == l.len() {
        assert(l.skip(i) =~= Seq::<Seq<char>>::empty());
    } else {
        let s0 = ser_lstr(l[i]);
        let rest = ser_items(l, i + 1);
        let whole = ser_items(l, i);
        assert(whole == s0 + rest);
        crate::frame_laws::lemma_embed_sub(b, pos, whole, 0, s0.len() as int);
        assert(whole.subrange(0, s0.len() as int) =~= s0);
        assert(b.subrange(pos, pos + s0.len()) == s0);
        lemma_read_lstr_ser(l[i], b, pos);
        let p = pos + s0.len() as int;
        crate::frame_laws::lemma_embed_sub(b, pos, whole, s0.len() as int, whole.len() as int);
        assert(whole.subrange(s0.len() as int, whole.len() as int) =~= rest);
        assert(b.subrange(p, p + rest.len()) == rest);
        lemma_read_items_ser(l, i + 1, b, p);
        assert(seq![l[i]] + l.skip(i + 1) =~= l.skip(i));
    }
}

/// Written hash pairs are the pairs read back.
proof fn lemma_read_pairs_ser(h: Seq<(Seq<char>, Seq<char>)>, i: int, b: Seq<u8>, pos: int)
    requires
        0 <= i <= h.len(),
        forall|j: int| 0 <= j < h.len() ==> lstr_ok((#[trigger] h[j]).0) && lstr_ok(h[j].1),
        0 <= pos,
        pos + ser_pairs(h, i).len() <= b.len(),
        b.subrange(pos, pos + ser_pairs(h, i).len()) == ser_pairs(h, i),
    ensures
        spec_read_pairs(b, pos, h.len() - i) == Some((h.skip(i), pos + ser_pairs(h, i).len())),
    decreases h.len() - i,
{
    if i == h.len() {
        assert(h.skip(i) =~= Seq::<(Seq<char>, Seq<char>)>::empty());
    } else {
        let s0 = ser_lstr(h[i].0);
        let s1 = ser_lstr(h[i].1);
        let rest = ser_pairs(h, i + 1);
        let whole = ser_pairs(h, i);
        assert(whole == s0 + s1 + rest);
        crate::frame_laws::lemma_embed_sub(b, pos, whole, 0, s0.len() as int);
        assert(whole.subrange(0, s0.len() as int) =~= s0);
        lemma_read_lstr_ser(h[i].0, b, pos);
        let p1 = pos + s0.len() as int;
        crate::frame_laws::lemma_embed_sub(b, pos, whole, s0.len() as int, (s0.len() + s1.len()) as int);
        assert(whole.subrange(s0.len() as int, (s0.len() + s1.len()) as int) =~= s1);
        lemma_read_lstr_ser(h[i].1, b, p1);
        let p2 = p1 + s1.len() as int;
        crate::frame_laws::lemma_embed_sub(b, pos, whole, (s0.len() + s1.len()) as int, whole.len() as int);
        assert(whole.subrange((s0.len() + s1.len()) as int, whole.len() as int) =~= rest);
        lemma_read_pairs_ser(h, i + 1, b, p2);
        assert(seq![h[i]] + h.skip(i + 1) =~= h.skip(i));
    }
}

/// A written value is the value read back.
proof fn lemma_read_value_ser(v: ValueV, b: Seq<u8>, pos: int)
    requires
        value_ok(v),
        0 <= pos,
        pos + ser_value(v).len() <= b.len(),
        b.subrange(pos, pos + ser_value(v).len()) == ser_value(v),
    ensures
        spec_read_value(b, pos, type_code(v)) == Some((v, pos + ser_value(v).len())),
{
    match v {
        ValueV::String(t) => {
            lemma_read_lstr_ser(t, b, pos);
        }
        ValueV::List(l) => {
            let s = ser_value(v);
            crate::frame_laws::lemma_embed_index(b, pos, s, 0);
            assert(s[0] == l.len() as u8);
            crate::frame_laws::lemma_embed_sub(b, pos, s, 1, s.len() as int);
            assert(s.subrange(1, s.len() as int) =~= ser_items(l, 0));
            lemma_read_items_ser(l, 0, b, pos + 1);
            assert(l.skip(0) =~= l);
        }
        ValueV::Hash(h) => {
            let s = ser_value(v);
            crate::frame_laws::lemma_embed_index(b, pos, s, 0);
            assert(s[0] == h.len() as u8);
            crate::frame_laws::lemma_embed_sub(b, pos, s, 1, s.len() as int);
            assert(s.subrange(1, s.len() as int) =~= ser_pairs(h, 0));
            lemma_read_pairs_ser(h, 0, b, pos + 1);
            assert(h.skip(0) =~= h);
        }
    }
}

/// Loading the written records of `entries[i..]` from any buffer that
/// embeds them, followed by the end marker, rebuilds exactly the dumped
/// and unexpired entries over keys the store does not hold yet.
#[verifier::rlimit(100)]
proof fn lemma_load_entries(
    entries: Seq<(Seq<char>, EntryV)>,
    i: int,
    b: Seq<u8>,
    pos: int,
    m: Map<Seq<char>, EntryV>,
    now_dump: u64,
    now_load: u64,
)
    requires
        0 <= i <= entries.len(),
        crate::db::keys_unique(entries),
        dumpable(entries, now_dump),
        forall|j: int| i <= j < entries.len() ==> !m.dom().contains((#[trigger] entries[j]).0),
        0 <= pos,
        pos + ser_entries(entries, i, now_dump).len() + 1 <= b.len(),
        b.subrange(pos, pos + ser_entries(entries, i, now_dump).len() + 1) == ser_entries(
            entries,
            i,
            now_dump,
        ) + seq![RDB_OPCODE_EOF],
    ensures
        spec_load(m, b, pos, now_load) == Some(loaded_map(m, entries, i, now_dump, now_load)),
    decreases entries.len() - i,
{
    let whole = ser_entries(entries, i, now_dump) + seq![RDB_OPCODE_EOF];
    if i == entries.len() {
        crate::frame_laws::lemma_embed_index(b, pos, whole, 0);
        assert(whole[0] == RDB_OPCODE_EOF);
        assert(b[pos] == RDB_OPCODE_EOF);
    } else {
        let k = entries[i].0;
        let e = entries[i].1;
        let rec = ser_entry(k, e, now_dump);
        let rest = ser_entries(entries, i + 1, now_dump) + seq![RDB_OPCODE_EOF];
        assert(whole =~= rec + rest);
        if !entry_dumped(e, now_dump) {
            assert(rec =~= Seq::<u8>::empty());
            assert(b.subrange(pos, pos + rest.len()) == rest) by {
                assert(whole =~= rest);
            }
            lemma_load_entries(entries, i + 1, b, pos, m, now_dump, now_load);
        } else {
            crate::frame_laws::lemma_embed_sub(b, pos, whole, 0, rec.len() as int);
            assert(whole.subrange(0, rec.len() as int) =~= rec);
            let tpos: int = (match e.expiration {
                Option::Some(t) => pos + 9,
                Option::None => pos,
            });
            match e.expiration {
                Option::Some(t) => {
                    crate::frame_laws::lemma_embed_index(b, pos, rec, 0);
                    assert(rec[0] == RDB_OPCODE_EXPIRETIME_MS);
                    lemma_be64(t);
                    crate::frame_laws::lemma_embed_sub(b, pos, rec, 1, 9);
                    assert(rec.subrange(1, 9) =~= be64(t));
                    assert(b.subrange(pos + 1, pos + 9) == be64(t));
                    assert(be64_val(b.subrange(pos + 1, pos + 9)) == t);
                    crate::frame_laws::lemma_embed_index(b, pos, rec, 9);
                    assert(rec[9] == type_code(e.value));
                }
                Option::None => {
                    crate::frame_laws::lemma_embed_index(b, pos, rec, 0);
                    assert(rec[0] == type_code(e.value));
                }
            }
            let koff: int = tpos - pos + 1;
            crate::frame_laws::lemma_embed_sub(b, pos, rec, koff, koff + ser_lstr(k).len());
            assert(rec.subrange(koff, koff + ser_lstr(k).len()) =~= ser_lstr(k));
            lemma_read_lstr_ser(k, b, tpos + 1);
            let vpos: int = tpos + 1 + ser_lstr(k).len();
            crate::frame_laws::lemma_embed_sub(b, pos, rec, vpos - pos, rec.len() as int);
            assert(rec.subrange(vpos - pos, rec.len() as int) =~= ser_value(e.value));
            lemma_read_value_ser(e.value, b, vpos);
            let endpos: int = vpos + ser_value(e.value).len();
            assert(endpos == pos + rec.len());
            assert(b.subrange(endpos, endpos + rest.len()) == rest) by {
                crate::frame_laws::lemma_embed_sub(b, pos, whole, rec.len() as int, whole.len() as int);
                assert(whole.subrange(rec.len() as int, whole.len() as int) =~= rest);
            }
            assert(type_code(e.value) == RDB_TYPE_STRING || type_code(e.value) == RDB_TYPE_LIST
                || type_code(e.value) == RDB_TYPE_HASH);
            let skip_load = e.expiration matches Some(t) && t < now_load;
            if skip_load {
                lemma_load_entries(entries, i + 1, b, endpos, m, now_dump, now_load);
                assert(spec_load_record(m, b, tpos, e.expiration, now_load) == spec_load(
                    m,
                    b,
                    endpos,
                    now_load,
                ));
            } else {
                let m2 = m.insert(k, EntryV { value: e.value, expiration: e.expiration });
                assert(m2 == m.insert(k, e));
                assert(merge_entry(
                    if m.dom().contains(k) {
                        Some(m[k])
                    } else {
                        Option::<EntryV>::None
                    },
                    e.value,
                    e.expiration,
                ) == e) by {
                    assert(!m.dom().contains(k));
                }
                assert forall|j: int|
                    i + 1 <= j < entries.len() implies !m2.dom().contains(
                    (#[trigger] entries[j]).0) by {
                    assert(entries[j].0 != entries[i].0);
                }
                lemma_load_entries(entries, i + 1, b, endpos, m2, now_dump, now_load);
                assert(spec_load_record(m, b, tpos, e.expiration, now_load) == spec_load(
                    m2,
                    b,
                    endpos,
                    now_load,
                ));
            }
        }
    }
}

/// The snapshot round trip: loading a dump taken at `now_dump` into an
/// empty store at `now_load` rebuilds exactly the entries the dump wrote
/// whose expiration has not passed at load time, each with its exact
/// value and its expiration intact; an entry already expired at dump
/// time was never written and an entry expired by load time is skipped.
pub proof fn lemma_dump_load_round_trip(
    entries: Seq<(Seq<char>, EntryV)>,
    now_dump: u64,
    now_load: u64,
)
    requires
        crate::db::keys_unique(entries),
        dumpable(entries, now_dump),
    ensures
        ({
            let b = dump_bytes(entries, now_dump);
            &&& b.len() >= 9
            &&& b.subrange(0, 9) == rdb_header()
            &&& spec_load(Map::<Seq<char>, EntryV>::empty(), b, 9, now_load) == Some(
                loaded_map(
                    Map::<Seq<char>, EntryV>::empty(),
                    entries,
                    0,
                    now_dump,
                    now_load,
                ),
            )
        }),
{
    let b = dump_bytes(entries, now_dump);
    let recs = ser_entries(entries, 0, now_dump);
    assert(b =~= rdb_header() + seq![RDB_OPCODE_SELECTDB, 0u8, 0u8, 0u8, 0u8] + recs + seq![
        RDB_OPCODE_EOF,
    ]);
    assert(b.subrange(0, 9) =~= rdb_header());
    assert(b[9] == RDB_OPCODE_SELECTDB);
    assert(b.subrange(14, 14 + recs.len() as int + 1) =~= recs + seq![RDB_OPCODE_EOF]);
    lemma_load_entries(
        entries,
        0,
        b,
        14,
        Map::<Seq<char>, EntryV>::empty(),
        now_dump,
        now_load,
    );
}

} // verus!
