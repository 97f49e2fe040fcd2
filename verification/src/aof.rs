//! The append-only command log.
//!
//! Accepted mutations are recorded in the same length-prefixed framing as
//! the wire protocol: `*<n>\r\n` followed by `n` bulk strings, the command
//! name first.  Records accumulate in an in-memory buffer; the binary
//! drains the buffer to the log file on a timer, so data written since the
//! last drain is not crash-durable.  Replaying a log file rebuilds a store
//! from scratch.

use vstd::prelude::*;

verus! {

use vstd::utf8::encode_utf8;
use crate::frame::{Frame, FrameV, ser, views_of, lemma_views_of};

broadcast use vstd::std_specs::vec::group_vec_axioms, vstd::seq::group_seq_axioms, vstd::map::group_map_axioms, vstd::set::group_set_axioms;

/// The frame a log record forms: the command name and its arguments, each
/// a bulk string.
pub open spec fn record_frame(cmd: Seq<char>, args: Seq<Seq<char>>) -> FrameV {
    FrameV::Array(
        seq![FrameV::Bulk(encode_utf8(cmd))] + args.map_values(
            |a: Seq<char>| FrameV::Bulk(encode_utf8(a)),
        ),
    )
}

/// The bytes one log record occupies.
pub open spec fn record_bytes(cmd: Seq<char>, args: Seq<Seq<char>>) -> Seq<u8> {
    ser(record_frame(cmd, args))
}

/// The bytes a record contributes: the record when the log is enabled,
/// nothing when it is disabled.
pub open spec fn record_if(enabled: bool, cmd: Seq<char>, args: Seq<Seq<char>>) -> Seq<u8> {
    if enabled {
        record_bytes(cmd, args)
    } else {
        Seq::<u8>::empty()
    }
}

/// Buffers encoded log records until the binary drains them to disk.
#[derive(Debug)]
pub struct AofWriter {
    enabled: bool,
    buffer: Vec<u8>,
}

impl AofWriter {
    /// The encoded records not yet drained.
    pub closed spec fn pending(&self) -> Seq<u8> {
        self.buffer@
    }

    /// Whether records are being kept at all.
    pub closed spec fn is_enabled(&self) -> bool {
        self.enabled
    }

    /// A writer with an empty buffer; `enabled` comes from configuration.
    pub fn new(enabled: bool) -> (r: AofWriter)
        ensures
            r.pending() == Seq::<u8>::empty(),
            r.is_enabled() == enabled,
    {
        AofWriter { enabled, buffer: Vec::new() }
    }

    /// Appends one encoded record to the buffer, unconditionally.
    pub fn write_command(&mut self, command: &String, args: &Vec<String>)
        ensures
            final(self).pending() == old(self).pending() + record_bytes(
                command@,
                args.deep_view(),
            ),
            final(self).is_enabled() == old(self).is_enabled(),
    {
        let mut parts: Vec<Frame> = Vec::new();
        parts.push(Frame::Bulk(command.as_str().as_bytes_vec()));
        proof {
            lemma_views_of(parts@);
            assert(views_of(parts@) =~= seq![FrameV::Bulk(encode_utf8(command@))] + args.deep_view(
            ).subrange(0, 0).map_values(|a: Seq<char>| FrameV::Bulk(encode_utf8(a))));
        }
        let mut i: usize = 0;
        while i < args.len()
            invariant
                i <= args@.len(),
                parts@.len() == i + 1,
                views_of(parts@) =~= seq![FrameV::Bulk(encode_utf8(command@))] + args.deep_view(
                ).subrange(0, i as int).map_values(|a: Seq<char>| FrameV::Bulk(encode_utf8(a))),
            decreases args@.len() - i,
        {
            let ghost pre = parts@;
            parts.push(Frame::Bulk(args[i].as_str().as_bytes_vec()));
            i = i + 1;
            proof {
                crate::frame::lemma_views_of_push(pre, parts@.last());
                lemma_views_of(parts@);
                assert(views_of(parts@) =~= seq![FrameV::Bulk(encode_utf8(command@))]
                    + args.deep_view().subrange(0, i as int).map_values(
                    |a: Seq<char>| FrameV::Bulk(encode_utf8(a)),
                ));
            }
        }
        proof {
            assert(args.deep_view().subrange(0, args@.len() as int) =~= args.deep_view());
            assert(views_of(parts@) =~= record_frame(command@, args.deep_view())->Array_0);
        }
        let record = Frame::Array(parts);
        match record.to_bytes() {
            Option::Some(bytes) => {
                let ghost pre = self.buffer@;
                let mut chunk = bytes;
                self.buffer.append(&mut chunk);
                assert(self.buffer@ =~= pre + record_bytes(command@, args.deep_view()));
            }
            Option::None => {
                proof {
                    assert(false);
                }
            }
        }
    }

    /// Hands the buffered records out for the binary to write to the log
    /// file, leaving the buffer empty.
    pub fn take_buffer(&mut self) -> (r: Vec<u8>)
        ensures
            r@ == old(self).pending(),
            final(self).pending() == Seq::<u8>::empty(),
            final(self).is_enabled() == old(self).is_enabled(),
    {
        let mut out: Vec<u8> = Vec::new();
        core::mem::swap(&mut out, &mut self.buffer);
        out
    }
}

impl AofWriter {
    /// Switches recording on or off without touching the buffer.
    pub fn set_enabled(&mut self, enabled: bool)
        ensures
            final(self).is_enabled() == enabled,
            final(self).pending() == old(self).pending(),
    {
        self.enabled = enabled;
    }
}

/// Records an accepted mutation: appends its encoded record to the
/// writer's buffer, or does nothing when the log is disabled.
pub fn propagate_aof(writer: &mut AofWriter, command: &String, args: &Vec<String>)
    ensures
        final(writer).pending() == old(writer).pending() + record_if(
            old(writer).is_enabled(),
            command@,
            args.deep_view(),
        ),
        final(writer).is_enabled() == old(writer).is_enabled(),
{
    if writer.is_enabled_exec() {
        writer.write_command(command, args);
    } else {
        assert(old(writer).pending() + Seq::<u8>::empty() =~= old(writer).pending());
    }
}

impl AofWriter {
    /// Whether records are being kept, for the code to branch on.
    pub fn is_enabled_exec(&self) -> (r: bool)
        ensures
            r == self.is_enabled(),
    {
        self.enabled
    }
}

use vstd::utf8::{valid_utf8, decode_utf8};
use crate::frame::{CR, LF, all_digits, digits_val, is_digit};
use crate::db::{Db, DbType, EntryV, ValueV, WrongType, assoc_get, hash_update, hash_remove,
    push_spec, lrem_spec, trim_spec};

/// The log file split into lines: each line runs to a line feed, with a
/// carriage return before it stripped; a final unterminated stretch is a
/// line too.  Empty lines are dropped, as the reader skips them.
pub open spec fn spec_lines(bytes: Seq<u8>) -> Seq<Seq<u8>> {
    spec_lines_from(bytes, 0)
}

/// The non-empty lines of `bytes` from `i` on.
pub open spec fn spec_lines_from(bytes: Seq<u8>, i: int) -> Seq<Seq<u8>>
    decreases bytes.len() - i,
{
    if i < 0 || i >= bytes.len() {
        Seq::<Seq<u8>>::empty()
    } else {
        let j0 = spec_find_lf(bytes, i);
        let j = if i <= j0 <= bytes.len() {
            j0
        } else {
            bytes.len() as int
        };
        let line = spec_strip_cr(bytes.subrange(i, j));
        let rest = if j + 1 <= bytes.len() {
            spec_lines_from(bytes, j + 1)
        } else {
            Seq::<Seq<u8>>::empty()
        };
        if line.len() == 0 {
            rest
        } else {
            seq![line] + rest
        }
    }
}

/// A line with its trailing carriage return stripped.
pub open spec fn spec_strip_cr(raw: Seq<u8>) -> Seq<u8> {
    if raw.len() > 0 && raw.last() == CR {
        raw.drop_last()
    } else {
        raw
    }
}

/// The position of the first line feed at or after `i`, or the end.
pub open spec fn spec_find_lf(bytes: Seq<u8>, i: int) -> int
    decreases bytes.len() - i,
{
    if i < 0 || i >= bytes.len() {
        bytes.len() as int
    } else if bytes[i] == LF {
        i
    } else {
        spec_find_lf(bytes, i + 1)
    }
}

/// The first line feed lies between `i` and the end.
pub proof fn lemma_find_lf_range(bytes: Seq<u8>, i: int)
    requires
        0 <= i <= bytes.len(),
    ensures
        i <= spec_find_lf(bytes, i) <= bytes.len(),
        spec_find_lf(bytes, i) < bytes.len() ==> bytes[spec_find_lf(bytes, i)] == LF,
        forall|j: int| i <= j < spec_find_lf(bytes, i) ==> #[trigger] bytes[j] != LF,
    decreases bytes.len() - i,
{
    if i < bytes.len() && bytes[i] != LF {
        lemma_find_lf_range(bytes, i + 1);
    }
}

/// Two characters equal up to ASCII case.
pub open spec fn chars_eq_ci(x: char, y: char) -> bool {
    ||| x == y
    ||| ('A' <= x <= 'Z' && y as u32 == x as u32 + 32)
    ||| ('A' <= y <= 'Z' && x as u32 == y as u32 + 32)
}

/// Two strings equal up to ASCII case, character by character.
pub open spec fn cmds_match(a: Seq<char>, b: Seq<char>) -> bool {
    a.len() == b.len() && forall|i: int| 0 <= i < a.len() ==> chars_eq_ci(a[i], #[trigger] b[i])
}

/// Every character is a decimal digit.
pub open spec fn digit_chars(s: Seq<char>) -> bool {
    forall|i: int| 0 <= i < s.len() ==> '0' <= #[trigger] s[i] <= '9'
}

/// The value a digit character string reads as in base 10.
pub open spec fn digits_val_chars(s: Seq<char>) -> int
    decreases s.len(),
{
    if s.len() == 0 {
        0
    } else {
        digits_val_chars(s.drop_last()) * 10 + (s.last() as u32 - 48)
    }
}

/// The unsigned value a digit string of characters denotes, if it fits.
pub open spec fn spec_parse_u64_chars(s: Seq<char>) -> Option<u64> {
    if s.len() >= 1 && digit_chars(s) && 0 <= digits_val_chars(s) <= u64::MAX {
        Some(digits_val_chars(s) as u64)
    } else {
        None::<u64>
    }
}

/// The signed value a decimal character string denotes, if it fits.
pub open spec fn spec_parse_i64_chars(s: Seq<char>) -> Option<i64> {
    if s.len() >= 2 && s[0] == '-' {
        match spec_parse_u64_chars(s.skip(1)) {
            Option::Some(m) => if m <= 9223372036854775808u64 {
                Some((0 - m as int) as i64)
            } else {
                None::<i64>
            },
            Option::None => None::<i64>,
        }
    } else {
        match spec_parse_u64_chars(s) {
            Option::Some(m) => if m <= i64::MAX as u64 {
                Some(m as i64)
            } else {
                None::<i64>
            },
            Option::None => None::<i64>,
        }
    }
}

/// One record read out of the line stream at `i`: the command, its
/// arguments and the index past the record.  `None` when the lines at `i`
/// do not shape a complete record.
pub open spec fn spec_try_record(lines: Seq<Seq<u8>>, i: int) -> Option<
    (Seq<char>, Seq<Seq<char>>, int),
> {
    if 0 <= i < lines.len() && lines[i].len() >= 2 && lines[i][0] == 42u8 && all_digits(
        lines[i].skip(1),
    ) {
        let n = digits_val(lines[i].skip(1));
        if 1 <= n && i + 1 + 2 * n <= lines.len() && (forall|j: int|
            0 <= j < n ==> valid_utf8(#[trigger] lines[i + 2 + 2 * j])) {
            let cmd = decode_utf8(lines[i + 2]);
            let args = Seq::new((n - 1) as nat, |j: int| decode_utf8(lines[i + 4 + 2 * j]));
            Some((cmd, args, i + 1 + 2 * n))
        } else {
            None::<(Seq<char>, Seq<Seq<char>>, int)>
        }
    } else {
        None::<(Seq<char>, Seq<Seq<char>>, int)>
    }
}

/// The store contents one record leaves behind, mirroring what the typed
/// store operations do; a record its command cannot apply is skipped.
/// Logged expirations are absolute and are applied as absolute.
pub open spec fn apply_rec(
    m: Map<Seq<char>, EntryV>,
    cmd: Seq<char>,
    args: Seq<Seq<char>>,
) -> Map<Seq<char>, EntryV> {
    if cmds_match(cmd, "set"@) {
        if args.len() >= 2 {
            let exp = if args.len() >= 3 {
                spec_parse_u64_chars(args[2])
            } else {
                None::<u64>
            };
            m.insert(args[0], EntryV { value: ValueV::String(args[1]), expiration: exp })
        } else {
            m
        }
    } else if cmds_match(cmd, "del"@) {
        if args.len() >= 1 {
            m.remove(args[0])
        } else {
            m
        }
    } else if cmds_match(cmd, "hset"@) {
        if args.len() >= 3 {
            apply_hset(m, args[0], args[1], args[2])
        } else {
            m
        }
    } else if cmds_match(cmd, "hdel"@) {
        if args.len() >= 2 {
            apply_hdel(m, args[0], args[1])
        } else {
            m
        }
    } else if cmds_match(cmd, "lpush"@) || cmds_match(cmd, "rpush"@) {
        if args.len() >= 2 {
            apply_push(m, args[0], args.skip(1), cmds_match(cmd, "lpush"@))
        } else {
            m
        }
    } else if cmds_match(cmd, "lpop"@) || cmds_match(cmd, "rpop"@) {
        if args.len() >= 1 {
            apply_pop(m, args[0], cmds_match(cmd, "lpop"@))
        } else {
            m
        }
    } else if cmds_match(cmd, "lset"@) {
        if args.len() >= 3 {
            match spec_parse_i64_chars(args[1]) {
                Option::Some(ix) => apply_lset(m, args[0], ix, args[2]),
                Option::None => m,
            }
        } else {
            m
        }
    } else if cmds_match(cmd, "lrem"@) {
        if args.len() >= 3 {
            match spec_parse_i64_chars(args[1]) {
                Option::Some(c) => apply_lrem(m, args[0], c, args[2]),
                Option::None => m,
            }
        } else {
            m
        }
    } else if cmds_match(cmd, "ltrim"@) {
        if args.len() >= 3 {
            match (spec_parse_i64_chars(args[1]), spec_parse_i64_chars(args[2])) {
                (Option::Some(a), Option::Some(b)) => apply_ltrim(m, args[0], a, b),
                _ => m,
            }
        } else {
            m
        }
    } else {
        m
    }
}

pub open spec fn apply_hset(
    m: Map<Seq<char>, EntryV>,
    k: Seq<char>,
    f: Seq<char>,
    v: Seq<char>,
) -> Map<Seq<char>, EntryV> {
    if m.dom().contains(k) {
        match m[k].value {
            ValueV::Hash(h) => m.insert(
                k,
                EntryV { value: ValueV::Hash(hash_update(h, f, v)), expiration: m[k].expiration },
            ),
            _ => m,
        }
    } else {
        m.insert(k, EntryV { value: ValueV::Hash(seq![(f, v)]), expiration: None })
    }
}

pub open spec fn apply_hdel(m: Map<Seq<char>, EntryV>, k: Seq<char>, f: Seq<char>) -> Map<
    Seq<char>,
    EntryV,
> {
    if m.dom().contains(k) {
        match m[k].value {
            ValueV::Hash(h) => m.insert(
                k,
                EntryV { value: ValueV::Hash(hash_remove(h, f)), expiration: m[k].expiration },
            ),
            _ => m,
        }
    } else {
        m
    }
}

pub open spec fn apply_push(
    m: Map<Seq<char>, EntryV>,
    k: Seq<char>,
    values: Seq<Seq<char>>,
    front: bool,
) -> Map<Seq<char>, EntryV> {
    if m.dom().contains(k) {
        match m[k].value {
            ValueV::List(l) => m.insert(
                k,
                EntryV {
                    value: ValueV::List(push_spec(l, values, front)),
                    expiration: m[k].expiration,
                },
            ),
            _ => m,
        }
    } else {
        m.insert(
            k,
            EntryV {
                value: ValueV::List(push_spec(Seq::<Seq<char>>::empty(), values, front)),
                expiration: None,
            },
        )
    }
}

pub open spec fn apply_pop(m: Map<Seq<char>, EntryV>, k: Seq<char>, front: bool) -> Map<
    Seq<char>,
    EntryV,
> {
    if m.dom().contains(k) {
        match m[k].value {
            ValueV::List(l) => if l.len() == 0 {
                m
            } else {
                m.insert(
                    k,
                    EntryV {
                        value: ValueV::List(
                            if front {
                                l.skip(1)
                            } else {
                                l.drop_last()
                            },
                        ),
                        expiration: m[k].expiration,
                    },
                )
            },
            _ => m,
        }
    } else {
        m
    }
}

pub open spec fn apply_lset(
    m: Map<Seq<char>, EntryV>,
    k: Seq<char>,
    ix: i64,
    v: Seq<char>,
) -> Map<Seq<char>, EntryV> {
    if m.dom().contains(k) {
        match m[k].value {
            ValueV::List(l) => if 0 <= ix < l.len() {
                m.insert(
                    k,
                    EntryV {
                        value: ValueV::List(l.update(ix as int, v)),
                        expiration: m[k].expiration,
                    },
                )
            } else {
                m
            },
            _ => m,
        }
    } else {
        m
    }
}

pub open spec fn apply_lrem(
    m: Map<Seq<char>, EntryV>,
    k: Seq<char>,
    count: i64,
    v: Seq<char>,
) -> Map<Seq<char>, EntryV> {
    if m.dom().contains(k) {
        match m[k].value {
            ValueV::List(l) => m.insert(
                k,
                EntryV {
                    value: ValueV::List(lrem_spec(l, count as int, v)),
                    expiration: m[k].expiration,
                },
            ),
            _ => m,
        }
    } else {
        m
    }
}

pub open spec fn apply_ltrim(
    m: Map<Seq<char>, EntryV>,
    k: Seq<char>,
    start: i64,
    stop: i64,
) -> Map<Seq<char>, EntryV> {
    if m.dom().contains(k) {
        match m[k].value {
            ValueV::List(l) => m.insert(
                k,
                EntryV {
                    value: ValueV::List(trim_spec(l, start as int, stop as int)),
                    expiration: m[k].expiration,
                },
            ),
            _ => m,
        }
    } else {
        m
    }
}

/// The store contents a whole replay leaves behind, reading records from
/// `i` on: a complete record applies and the scan resumes past it; a line
/// that opens no complete record is skipped.
pub open spec fn spec_replay(m: Map<Seq<char>, EntryV>, lines: Seq<Seq<u8>>, i: int) -> Map<
    Seq<char>,
    EntryV,
>
    decreases lines.len() - i,
{
    if i < 0 || i >= lines.len() {
        m
    } else {
        match spec_try_record(lines, i) {
            Option::Some(r) => if i < r.2 <= lines.len() {
                spec_replay(apply_rec(m, r.0, r.1), lines, r.2)
            } else {
                m
            },
            Option::None => spec_replay(m, lines, i + 1),
        }
    }
}

/// Digit characters and the bytes that encode them carry the same digits
/// and the same value.
pub proof fn lemma_digits_chars_bytes(s: Seq<char>)
    ensures
        digit_chars(s) <==> all_digits(vstd::utf8::encode_utf8(s)),
        digit_chars(s) ==> vstd::utf8::encode_utf8(s).len() == s.len() && digits_val_chars(s)
            == digits_val(vstd::utf8::encode_utf8(s)),
        s.len() == 0 <==> vstd::utf8::encode_utf8(s).len() == 0,
{
    let b = vstd::utf8::encode_utf8(s);
    if s.len() == 0 {
        assert(b.len() == 0);
    } else {
        lemma_encode_first_nonempty(s);
    }
    if digit_chars(s) {
        assert(vstd::utf8::is_ascii_chars(s));
        vstd::utf8::is_ascii_chars_encode_utf8(s);
        assert forall|i: int| 0 <= i < b.len() implies is_digit(#[trigger] b[i]) by {
            assert(b[i] == s[i] as u8);
            assert('0' <= s[i] <= '9');
            assert(48 <= s[i] as u32 <= 57);
        }
        lemma_digits_val_pointwise(s, b);
    }
    if all_digits(b) {
        assert forall|i: int| 0 <= i < b.len() implies #[trigger] b[i] < 128 by {
            assert(is_digit(b[i]));
        }
        crate::frame::lemma_ascii_bytes_utf8(b);
        vstd::utf8::encode_utf8_decode_utf8(s);
        assert forall|i: int| 0 <= i < s.len() implies '0' <= #[trigger] s[i] <= '9' by {
            assert(s[i] == vstd::utf8::decode_utf8(b)[i]);
            assert(s[i] == b[i] as char);
            assert(is_digit(b[i]));
        }
    }
}

/// Encoding a non-empty string yields at least one byte.
proof fn lemma_encode_first_nonempty(s: Seq<char>)
    requires
        s.len() > 0,
    ensures
        vstd::utf8::encode_utf8(s).len() > 0,
{
    vstd::utf8::char_is_scalar(s[0]);
}

/// Equal digits read as equal values.
proof fn lemma_digits_val_pointwise(s: Seq<char>, b: Seq<u8>)
    requires
        b.len() == s.len(),
        forall|i: int| 0 <= i < b.len() ==> #[trigger] b[i] == s[i] as u8,
        forall|i: int| 0 <= i < s.len() ==> '0' <= #[trigger] s[i] <= '9',
    ensures
        digits_val_chars(s) == digits_val(b),
    decreases s.len(),
{
    if s.len() > 0 {
        assert forall|i: int| 0 <= i < b.drop_last().len() implies #[trigger] b.drop_last()[i]
            == s.drop_last()[i] as u8 by {
            assert(b.drop_last()[i] == b[i]);
            assert(s.drop_last()[i] == s[i]);
        }
        assert(forall|i: int|
            0 <= i < s.drop_last().len() ==> '0' <= #[trigger] s.drop_last()[i] <= '9');
        lemma_digits_val_pointwise(s.drop_last(), b.drop_last());
        assert(b.last() == s.last() as u8);
        assert('0' <= s.last() <= '9');
        assert(48 <= s.last() as u32 <= 57);
        assert(b.last() - 48 == s.last() as u32 - 48);
    }
}

/// Copies a byte buffer.
fn copy_bytes(v: &Vec<u8>) -> (r: Vec<u8>)
    ensures
        r@ == v@,
{
    let mut out: Vec<u8> = Vec::new();
    let mut i: usize = 0;
    while i < v.len()
        invariant
            i <= v@.len(),
            out@ == v@.subrange(0, i as int),
        decreases v@.len() - i,
    {
        out.push(v[i]);
        i = i + 1;
        assert(out@ =~= v@.subrange(0, i as int));
    }
    assert(out@ =~= v@);
    out
}

/// Reads the decimal value of a whole string, if that is what it is.
pub fn parse_u64_string(s: &String) -> (r: Option<u64>)
    ensures
        r == spec_parse_u64_chars(s@),
{
    let bytes = s.as_str().as_bytes_vec();
    proof {
        lemma_digits_chars_bytes(s@);
        assert(bytes@.skip(0) =~= bytes@);
    }
    match crate::frame::scan_digits(&bytes, 0) {
        Result::Err(_) => None,
        Result::Ok(Option::None) => None,
        Result::Ok(Option::Some(v)) => Some(v),
    }
}

/// Reads the signed decimal value of a whole string, if that is what it
/// is.
pub fn parse_i64_string(s: &String) -> (r: Option<i64>)
    ensures
        r == spec_parse_i64_chars(s@),
{
    let n = s.as_str().unicode_len();
    if n >= 2 && s.as_str().get_char(0) == '-' {
        let tail: String = s.as_str().substring_char(1, n).to_owned();
        proof {
            assert(tail@ =~= s@.skip(1));
        }
        match parse_u64_string(&tail) {
            Option::Some(m) => {
                if m > 9223372036854775808u64 {
                    None
                } else if m == 9223372036854775808u64 {
                    Some(i64::MIN)
                } else {
                    Some(-(m as i64))
                }
            }
            Option::None => None,
        }
    } else {
        match parse_u64_string(s) {
            Option::Some(m) => {
                if m > i64::MAX as u64 {
                    None
                } else {
                    Some(m as i64)
                }
            }
            Option::None => None,
        }
    }
}

/// Whether two strings name the same command, ignoring ASCII case.
pub fn cmd_is(cmd: &String, pat: &str) -> (r: bool)
    ensures
        r == cmds_match(cmd@, pat@),
{
    let n = cmd.as_str().unicode_len();
    let m = pat.unicode_len();
    if n != m {
        return false;
    }
    let mut i: usize = 0;
    while i < n
        invariant
            0 <= i <= n,
            n == cmd@.len(),
            n == pat@.len(),
            forall|j: int| 0 <= j < i ==> chars_eq_ci(cmd@[j], #[trigger] pat@[j]),
        decreases n - i,
    {
        let x = cmd.as_str().get_char(i);
        let y = pat.get_char(i);
        let xu = x as u32;
        let yu = y as u32;
        let same = x == y || (65 <= xu && xu <= 90 && yu == xu + 32) || (65 <= yu && yu <= 90
            && xu == yu + 32);
        proof {
            assert(('A' <= x <= 'Z') == (65 <= xu <= 90));
            assert(('A' <= y <= 'Z') == (65 <= yu <= 90));
        }
        if !same {
            assert(!chars_eq_ci(cmd@[i as int], pat@[i as int]));
            return false;
        }
        i = i + 1;
    }
    true
}

/// Reads one complete record out of the line stream at `i`.
#[verifier::loop_isolation(false)]
fn read_record(lines: &Vec<Vec<u8>>, i: usize) -> (r: Option<(String, Vec<String>, usize)>)
    ensures
        match spec_try_record(lines.deep_view(), i as int) {
            Option::Some(t) => r matches Some(x) && x.0@ == t.0 && x.1.deep_view() == t.1 && x.2
                == t.2 && i < t.2 <= lines@.len(),
            Option::None => r is None,
        },
{
    let ghost dv = lines.deep_view();
    if i >= lines.len() {
        return None;
    }
    proof {
        assert(dv[i as int] == lines@[i as int]@);
    }
    if lines[i].len() < 2 {
        return None;
    }
    if lines[i][0] != 42u8 {
        return None;
    }
    let n64 = match crate::frame::scan_digits(&lines[i], 1) {
        Result::Err(_) => {
            return None;
        }
        Result::Ok(Option::None) => {
            proof {
                let nn = digits_val(dv[i as int].skip(1));
                assert(nn > u64::MAX);
                assert(lines@.len() <= usize::MAX);
                assert(i + 1 + 2 * nn > lines@.len());
            }
            return None;
        }
        Result::Ok(Option::Some(v)) => v,
    };
    proof {
        crate::frame::lemma_digits_val_nonneg(dv[i as int].skip(1));
    }
    if n64 < 1 {
        return None;
    }
    let avail: usize = lines.len() - i - 1;
    if n64 > (avail / 2) as u64 {
        proof {
            assert(2 * (n64 as int) > avail);
            assert(i + 1 + 2 * (n64 as int) > lines@.len());
        }
        return None;
    }
    let n: usize = n64 as usize;
    proof {
        assert(2 * (n as int) <= avail);
        assert(i + 1 + 2 * (n as int) <= lines@.len());
    }
    let mut cmd: Option<String> = None;
    let mut args: Vec<String> = Vec::new();
    let mut j: usize = 0;
    while j < n
        invariant
            0 <= j <= n,
            1 <= n,
            i + 1 + 2 * n <= lines@.len(),
            forall|q: int| 0 <= q < j ==> vstd::utf8::valid_utf8(#[trigger] dv[i + 2 + 2 * q]),
            j >= 1 ==> (cmd matches Some(c) && c@ == decode_utf8(dv[i + 2])),
            j == 0 ==> cmd is None,
            args@.len() == (if j >= 1 {
                (j - 1) as int
            } else {
                0
            }),
            forall|q: int|
                0 <= q < args@.len() ==> #[trigger] args.deep_view()[q] == decode_utf8(
                    dv[i + 4 + 2 * q],
                ),
        decreases n - j,
    {
        let idx: usize = i + 2 + 2 * j;
        proof {
            assert(idx < lines@.len());
            assert(dv[idx as int] == lines@[idx as int]@);
        }
        let line_copy = copy_bytes(&lines[idx]);
        match crate::frame::string_from_utf8(line_copy) {
            Option::None => {
                proof {
                    assert(!vstd::utf8::valid_utf8(dv[i + 2 + 2 * (j as int)]));
                }
                return None;
            }
            Option::Some(text) => {
                if j == 0 {
                    cmd = Some(text);
                } else {
                    let ghost pre_args = args.deep_view();
                    let ghost tv = text@;
                    args.push(text);
                    proof {
                        assert(args.deep_view() =~= pre_args.push(tv));
                    }
                }
            }
        }
        j = j + 1;
    }
    match cmd {
        Option::Some(c) => {
            proof {
                let t = spec_try_record(dv, i as int);
                assert(t is Some);
                assert(args.deep_view() =~= Seq::new(
                    (n - 1) as nat,
                    |q: int| decode_utf8(dv[i + 4 + 2 * q]),
                ));
            }
            Some((c, args, i + 1 + 2 * n))
        }
        Option::None => {
            proof {
                assert(false);
            }
            None
        }
    }
}

/// One complete record occupying the whole buffered line group: the
/// command and its arguments, or nothing when the group does not shape a
/// record exactly.
pub fn parse_aof_command(buffer: &Vec<Vec<u8>>) -> (r: Option<(String, Vec<String>)>)
    ensures
        match spec_try_record(buffer.deep_view(), 0) {
            Option::Some(t) => if t.2 == buffer.deep_view().len() {
                r matches Some(x) && x.0@ == t.0 && x.1.deep_view() == t.1
            } else {
                r is None
            },
            Option::None => r is None,
        },
{
    match read_record(buffer, 0) {
        Option::Some((c, a, next)) => {
            if next == buffer.len() {
                Some((c, a))
            } else {
                None
            }
        }
        Option::None => None,
    }
}

/// Applies one replayed record to the store through its typed operations,
/// with the log off so that replay never writes to the log it reads.  A
/// record its command cannot apply — unknown name, missing arguments, a
/// number that does not parse, a key of the wrong type — changes nothing.
#[verifier::rlimit(60)]
pub fn apply_command_to_db(db: &mut Db, command: &String, args: &Vec<String>)
    requires
        old(db).wf(),
        !old(db).wal_enabled(),
    ensures
        final(db).wf(),
        !final(db).wal_enabled(),
        final(db).spec_map() == apply_rec(old(db).spec_map(), command@, args.deep_view()),
        final(db).channels() == old(db).channels(),
        final(db).patterns() == old(db).patterns(),
        final(db).wal_pending() == old(db).wal_pending(),
{
    let ghost m0 = db.spec_map();
    let ghost av = args.deep_view();
    proof {
        assert(forall|q: int| 0 <= q < args@.len() ==> av[q] == #[trigger] args@[q]@);
    }
    if cmd_is(command, "set") {
        if args.len() >= 2 {
            let exp: Option<u64> = if args.len() >= 3 {
                parse_u64_string(&args[2])
            } else {
                None
            };
            db.set_absolute(&args[0], DbType::String(args[1].clone()), exp);
            proof {
                assert(db.spec_map() =~= apply_rec(m0, command@, av));
            }
        } else {
            proof {
                assert(db.spec_map() =~= apply_rec(m0, command@, av));
            }
        }
    } else if cmd_is(command, "del") {
        if args.len() >= 1 {
            let _ = db.del(&args[0], 0);
            proof {
                assert(db.spec_map() =~= apply_rec(m0, command@, av));
            }
        } else {
            proof {
                assert(db.spec_map() =~= apply_rec(m0, command@, av));
            }
        }
    } else if cmd_is(command, "hset") {
        if args.len() >= 3 {
            let _ = db.hash_set(&args[0], &args[1], &args[2]);
            proof {
                assert(db.spec_map() =~= apply_rec(m0, command@, av));
            }
        } else {
            proof {
                assert(db.spec_map() =~= apply_rec(m0, command@, av));
            }
        }
    } else if cmd_is(command, "hdel") {
        if args.len() >= 2 {
            let _ = db.hash_del(&args[0], &args[1]);
            proof {
                assert(db.spec_map() =~= apply_rec(m0, command@, av));
            }
        } else {
            proof {
                assert(db.spec_map() =~= apply_rec(m0, command@, av));
            }
        }
    } else if cmd_is(command, "lpush") || cmd_is(command, "rpush") {
        if args.len() >= 2 {
            let front = cmd_is(command, "lpush");
            let mut values: Vec<String> = Vec::new();
            let mut j: usize = 1;
            while j < args.len()
                invariant
                    1 <= j <= args@.len(),
                    av == args.deep_view(),
                    values.deep_view() == av.subrange(1, j as int),
                decreases args@.len() - j,
            {
                let ghost pre_vals = values.deep_view();
                values.push(args[j].clone());
                j = j + 1;
                proof {
                    assert(values.deep_view() =~= pre_vals.push(args@[j - 1]@));
                    assert(av[j - 1] == args@[j - 1]@);
                    assert(values.deep_view() =~= av.subrange(1, j as int));
                }
            }
            proof {
                assert(values.deep_view() =~= av.skip(1));
            }
            let _ = db.list_push(&args[0], &values, front);
            proof {
                assert(db.spec_map() =~= apply_rec(m0, command@, av));
            }
        } else {
            proof {
                assert(db.spec_map() =~= apply_rec(m0, command@, av));
            }
        }
    } else if cmd_is(command, "lpop") || cmd_is(command, "rpop") {
        if args.len() >= 1 {
            let front = cmd_is(command, "lpop");
            let _ = db.list_pop(&args[0], front);
            proof {
                assert(db.spec_map() =~= apply_rec(m0, command@, av));
            }
        } else {
            proof {
                assert(db.spec_map() =~= apply_rec(m0, command@, av));
            }
        }
    } else if cmd_is(command, "lset") {
        if args.len() >= 3 {
            match parse_i64_string(&args[1]) {
                Option::Some(ix) => {
                    let _ = db.list_set(&args[0], ix, &args[2]);
                    proof {
                        assert(db.spec_map() =~= apply_rec(m0, command@, av));
                    }
                }
                Option::None => {
                    proof {
                        assert(db.spec_map() =~= apply_rec(m0, command@, av));
                    }
                }
            }
        } else {
            proof {
                assert(db.spec_map() =~= apply_rec(m0, command@, av));
            }
        }
    } else if cmd_is(command, "lrem") {
        if args.len() >= 3 {
            match parse_i64_string(&args[1]) {
                Option::Some(c) => {
                    let _ = db.list_rem(&args[0], c, &args[2]);
                    proof {
                        assert(db.spec_map() =~= apply_rec(m0, command@, av));
                    }
                }
                Option::None => {
                    proof {
                        assert(db.spec_map() =~= apply_rec(m0, command@, av));
                    }
                }
            }
        } else {
            proof {
                assert(db.spec_map() =~= apply_rec(m0, command@, av));
            }
        }
    } else if cmd_is(command, "ltrim") {
        if args.len() >= 3 {
            let a = parse_i64_string(&args[1]);
            let b = parse_i64_string(&args[2]);
            match (a, b) {
                (Option::Some(x), Option::Some(y)) => {
                    let _ = db.list_trim(&args[0], x, y);
                    proof {
                        assert(db.spec_map() =~= apply_rec(m0, command@, av));
                    }
                }
                _ => {
                    proof {
                        assert(db.spec_map() =~= apply_rec(m0, command@, av));
                    }
                }
            }
        } else {
            proof {
                assert(db.spec_map() =~= apply_rec(m0, command@, av));
            }
        }
    } else {
        proof {
            assert(db.spec_map() =~= apply_rec(m0, command@, av));
        }
    }
}

/// Splits a log file into its non-empty lines.
#[verifier::loop_isolation(false)]
pub fn split_lines(bytes: &Vec<u8>) -> (r: Vec<Vec<u8>>)
    ensures
        r.deep_view() == spec_lines(bytes@),
{
    let mut out: Vec<Vec<u8>> = Vec::new();
    let mut i: usize = 0;
    proof {
        assert(out.deep_view() =~= Seq::<Seq<u8>>::empty());
    }
    while i < bytes.len()
        invariant
            0 <= i <= bytes@.len(),
            out.deep_view() + spec_lines_from(bytes@, i as int) == spec_lines(bytes@),
        decreases bytes@.len() - i,
    {
        let mut j: usize = i;
        while j < bytes.len() && bytes[j] != LF
            invariant
                i <= j <= bytes@.len(),
                spec_find_lf(bytes@, i as int) == spec_find_lf(bytes@, j as int),
            decreases bytes@.len() - j,
        {
            j = j + 1;
        }
        proof {
            lemma_find_lf_range(bytes@, i as int);
            assert(spec_find_lf(bytes@, i as int) == j);
        }
        let mut end: usize = j;
        if end > i && bytes[end - 1] == CR {
            end = end - 1;
        }
        let mut line: Vec<u8> = Vec::new();
        let mut k: usize = i;
        while k < end
            invariant
                i <= k <= end,
                end <= bytes@.len(),
                line@ == bytes@.subrange(i as int, k as int),
            decreases end - k,
        {
            line.push(bytes[k]);
            k = k + 1;
            assert(line@ =~= bytes@.subrange(i as int, k as int));
        }
        proof {
            let raw = bytes@.subrange(i as int, j as int);
            if j > i && bytes@[j - 1] == CR {
                assert(raw.last() == bytes@[j - 1]);
                assert(raw.drop_last() =~= bytes@.subrange(i as int, j - 1));
                assert(line@ == spec_strip_cr(raw));
            } else {
                assert(line@ == spec_strip_cr(raw));
            }
        }
        let ghost pre_out = out.deep_view();
        if line.len() > 0 {
            let ghost lv = line@;
            proof {
                assert(line.deep_view() =~= lv);
            }
            out.push(line);
            proof {
                assert(out.deep_view() =~= pre_out.push(lv));
            }
        }
        proof {
            let nexti: int = if j + 1 <= bytes@.len() {
                j + 1
            } else {
                bytes@.len() as int
            };
            assert(spec_lines_from(bytes@, nexti) == (if (j as int) + 1 <= bytes@.len() {
                spec_lines_from(bytes@, j + 1)
            } else {
                Seq::<Seq<u8>>::empty()
            }));
            assert(out.deep_view() + spec_lines_from(bytes@, nexti) =~= pre_out + spec_lines_from(
                bytes@,
                i as int,
            ));
        }
        if j < bytes.len() {
            i = j + 1;
        } else {
            i = bytes.len();
        }
    }
    proof {
        assert(spec_lines_from(bytes@, i as int) =~= Seq::<Seq<u8>>::empty());
        assert(out.deep_view() =~= spec_lines(bytes@));
    }
    out
}

/// Rebuilds store contents from a log file's bytes: reads the stream as
/// framed records, applies each complete one in order, and skips a line
/// that opens no complete record, so one bad record never aborts the
/// replay.  The log must be off, so replay cannot write to the log it is
/// reading; logged expirations are absolute and are applied as absolute.
#[verifier::loop_isolation(false)]
pub fn load_aof(db: &mut Db, bytes: &Vec<u8>)
    requires
        old(db).wf(),
        !old(db).wal_enabled(),
    ensures
        final(db).wf(),
        !final(db).wal_enabled(),
        final(db).spec_map() == spec_replay(old(db).spec_map(), spec_lines(bytes@), 0),
        final(db).channels() == old(db).channels(),
        final(db).patterns() == old(db).patterns(),
        final(db).wal_pending() == old(db).wal_pending(),
{
    let lines = split_lines(bytes);
    let ghost lv = lines.deep_view();
    let ghost m0 = db.spec_map();
    let mut i: usize = 0;
    while i < lines.len()
        invariant
            0 <= i <= lines@.len(),
            db.wf(),
            !db.wal_enabled(),
            db.channels() == old(db).channels(),
            db.patterns() == old(db).patterns(),
            db.wal_pending() == old(db).wal_pending(),
            spec_replay(m0, lv, 0) == spec_replay(db.spec_map(), lv, i as int),
        decreases lines@.len() - i,
    {
        let ghost mcur = db.spec_map();
        match read_record(&lines, i) {
            Option::Some((cmd, args, next)) => {
                apply_command_to_db(db, &cmd, &args);
                proof {
                    assert(spec_replay(mcur, lv, i as int) == spec_replay(
                        db.spec_map(),
                        lv,
                        next as int,
                    ));
                }
                i = next;
            }
            Option::None => {
                proof {
                    assert(spec_replay(mcur, lv, i as int) == spec_replay(mcur, lv, i + 1));
                }
                i = i + 1;
            }
        }
    }
    proof {
        assert(spec_replay(db.spec_map(), lv, i as int) == db.spec_map());
    }
}

/// Every complete record met while scanning from `i` is a `set` record.
pub open spec fn all_set_records(lines: Seq<Seq<u8>>, i: int) -> bool
    decreases lines.len() - i,
{
    if i < 0 || i >= lines.len() {
        true
    } else {
        match spec_try_record(lines, i) {
            Option::Some(r) => if i < r.2 <= lines.len() {
                cmds_match(r.0, "set"@) && all_set_records(lines, r.2)
            } else {
                true
            },
            Option::None => all_set_records(lines, i + 1),
        }
    }
}

/// The keys the scan's effective `set` records write.
pub open spec fn set_keys(lines: Seq<Seq<u8>>, i: int) -> Set<Seq<char>>
    decreases lines.len() - i,
{
    if i < 0 || i >= lines.len() {
        Set::<Seq<char>>::empty()
    } else {
        match spec_try_record(lines, i) {
            Option::Some(r) => if i < r.2 <= lines.len() {
                if r.1.len() >= 2 {
                    set_keys(lines, r.2).insert(r.1[0])
                } else {
                    set_keys(lines, r.2)
                }
            } else {
                Set::<Seq<char>>::empty()
            },
            Option::None => set_keys(lines, i + 1),
        }
    }
}

/// Replaying a stream of `set` records writes `k` the same way whatever
/// store it starts from, and leaves `k` alone when no record sets it.
proof fn lemma_replay_sets_agree(
    m1: Map<Seq<char>, EntryV>,
    m2: Map<Seq<char>, EntryV>,
    lines: Seq<Seq<u8>>,
    i: int,
    k: Seq<char>,
)
    requires
        all_set_records(lines, i),
    ensures
        ({
            let r1 = spec_replay(m1, lines, i);
            let r2 = spec_replay(m2, lines, i);
            if set_keys(lines, i).contains(k) {
                r1.dom().contains(k) == r2.dom().contains(k) && (r1.dom().contains(k) ==> r1[k]
                    == r2[k])
            } else {
                r1.dom().contains(k) == m1.dom().contains(k) && (m1.dom().contains(k) ==> r1[k]
                    == m1[k]) && r2.dom().contains(k) == m2.dom().contains(k) && (
                m2.dom().contains(k) ==> r2[k] == m2[k])
            }
        }),
    decreases lines.len() - i,
{
    if i < 0 || i >= lines.len() {
    } else {
        match spec_try_record(lines, i) {
            Option::Some(r) => {
                if i < r.2 <= lines.len() {
                    let cmd = r.0;
                    let args = r.1;
                    assert(cmds_match(cmd, "set"@));
                    if args.len() >= 2 {
                        let exp = if args.len() >= 3 {
                            spec_parse_u64_chars(args[2])
                        } else {
                            None::<u64>
                        };
                        let e = EntryV { value: ValueV::String(args[1]), expiration: exp };
                        let m1p = m1.insert(args[0], e);
                        let m2p = m2.insert(args[0], e);
                        lemma_replay_sets_agree(m1p, m2p, lines, r.2, k);
                        assert(spec_replay(m1, lines, i) == spec_replay(m1p, lines, r.2));
                        assert(spec_replay(m2, lines, i) == spec_replay(m2p, lines, r.2));
                        assert(set_keys(lines, i) == set_keys(lines, r.2).insert(args[0]));
                        if !set_keys(lines, r.2).contains(k) {
                            if k == args[0] {
                                assert(m1p.dom().contains(k) && m1p[k] == e);
                                assert(m2p.dom().contains(k) && m2p[k] == e);
                            } else {
                                assert(m1p.dom().contains(k) == m1.dom().contains(k));
                                assert(m2p.dom().contains(k) == m2.dom().contains(k));
                                assert(m1.dom().contains(k) ==> m1p[k] == m1[k]);
                                assert(m2.dom().contains(k) ==> m2p[k] == m2[k]);
                            }
                        }
                    } else {
                        lemma_replay_sets_agree(m1, m2, lines, r.2, k);
                    }
                }
            }
            Option::None => {
                lemma_replay_sets_agree(m1, m2, lines, i + 1, k);
            }
        }
    }
}

/// Replay idempotence for records that carry their target state whole:
/// replaying a log of `set` records a second time over the store the
/// first replay produced changes nothing, since each such record writes
/// its key the same way regardless of what the store held.
pub proof fn lemma_replay_set_idempotent(m: Map<Seq<char>, EntryV>, lines: Seq<Seq<u8>>)
    requires
        all_set_records(lines, 0),
    ensures
        spec_replay(spec_replay(m, lines, 0), lines, 0) == spec_replay(m, lines, 0),
{
    let a = spec_replay(m, lines, 0);
    let b = spec_replay(a, lines, 0);
    assert forall|k: Seq<char>| #[trigger] b.dom().contains(k) implies a.dom().contains(k)
        && b[k] == a[k] by {
        lemma_replay_sets_agree(m, a, lines, 0, k);
    }
    assert forall|k: Seq<char>| #[trigger] a.dom().contains(k) implies b.dom().contains(k) by {
        lemma_replay_sets_agree(m, a, lines, 0, k);
    }
    assert(b =~= a);
}

} // verus!
