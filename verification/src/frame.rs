//! The wire-protocol codec.
//!
//! A frame is one structured protocol message.  On the wire a frame starts
//! with a one-byte type marker: `*` (array), `$` (bulk string, or `$-1` for
//! null), `:` (integer), `+` (simple string), `-` (error string).  Length
//! fields are decimal ASCII digits terminated by `\r\n`; bulk payloads are
//! exactly the declared number of bytes followed by `\r\n`.
//!
//! [`Frame::check`] validates framing without building values, so a
//! connection can tell whether its buffer holds one complete frame before
//! committing to parse it.  [`Frame::parse`] builds the structured message,
//! and [`Frame::to_bytes`] is the inverse mapping for outbound replies.

use vstd::prelude::*;

verus! {

use vstd::utf8::{valid_utf8, decode_utf8, encode_utf8};

broadcast use vstd::std_specs::vec::group_vec_axioms, vstd::seq::group_seq_axioms;

/// Byte values used by the protocol grammar.
pub const CR: u8 = 13;
pub const LF: u8 = 10;
pub const MARK_ARRAY: u8 = 42;
pub const MARK_BULK: u8 = 36;
pub const MARK_INTEGER: u8 = 58;
pub const MARK_SIMPLE: u8 = 43;
pub const MARK_ERROR: u8 = 45;

/// One structured protocol message, inbound or outbound.
#[derive(Debug, PartialEq)]
pub enum Frame {
    /// A simple one-line string reply, such as `+OK`.
    Simple(String),
    /// An error reply, such as `-ERR unknown command`.
    Error(String),
    /// An integer reply, such as `:1000`.
    Integer(i64),
    /// A binary-safe string carrying an arbitrary payload.
    Bulk(Vec<u8>),
    /// The null reply, written `$-1` on the wire.
    Null,
    /// An ordered sequence of sub-frames.
    Array(Vec<Frame>),
    /// A sentinel for "write nothing to the wire"; it has no serialized
    /// form and the caller is responsible for not sending anything.
    NoResponse,
}

/// A structural error found while checking or parsing a byte buffer.
#[derive(Debug, Clone, Copy, PartialEq, Eq, Structural)]
pub enum Error {
    /// The buffer ends before the frame does; the caller should wait for
    /// more bytes.
    NoMoreData,
    /// A length or integer field holds something other than decimal digits.
    NotNumber,
    /// A numeric field does not fit in a signed 64-bit integer.
    OverFlow,
    /// A simple or error string is not valid UTF-8.
    TypeConversionError,
    /// The bytes do not follow the protocol grammar.
    UnRESP,
}

/// The mathematical shape of a frame: strings as character sequences,
/// payloads as byte sequences.
pub enum FrameV {
    Simple(Seq<char>),
    Error(Seq<char>),
    Integer(i64),
    Bulk(Seq<u8>),
    Null,
    Array(Seq<FrameV>),
    NoResponse,
}

impl View for Frame {
    type V = FrameV;

    open spec fn view(&self) -> FrameV
        decreases self, 0int, 1int,
    {
        match self {
            Frame::Simple(s) => FrameV::Simple(s@),
            Frame::Error(s) => FrameV::Error(s@),
            Frame::Integer(i) => FrameV::Integer(*i),
            Frame::Bulk(b) => FrameV::Bulk(b@),
            Frame::Null => FrameV::Null,
            Frame::Array(v) => FrameV::Array(views_of_from(v@, 0)),
            Frame::NoResponse => FrameV::NoResponse,
        }
    }
}

/// The views of `v[i..]`, element by element.
pub open spec fn views_of_from(v: Seq<Frame>, i: int) -> Seq<FrameV>
    decreases v, v.len() - i, 0int,
{
    if 0 <= i < v.len() {
        seq![v[i]@] + views_of_from(v, i + 1)
    } else {
        seq![]
    }
}

/// The views of a sequence of frames, element by element.
pub open spec fn views_of(v: Seq<Frame>) -> Seq<FrameV> {
    views_of_from(v, 0)
}

/// `views_of` is pointwise view, with the matching length.
pub proof fn lemma_views_of(v: Seq<Frame>)
    ensures
        views_of(v).len() == v.len(),
        forall|i: int| 0 <= i < v.len() ==> views_of(v)[i] == v[i]@,
{
    lemma_views_of_from(v, 0);
}

proof fn lemma_views_of_from(v: Seq<Frame>, i: int)
    requires
        0 <= i <= v.len(),
    ensures
        views_of_from(v, i).len() == v.len() - i,
        forall|k: int| 0 <= k < v.len() - i ==> #[trigger] views_of_from(v, i)[k] == v[i + k]@,
    decreases v.len() - i,
{
    if i < v.len() {
        lemma_views_of_from(v, i + 1);
        assert(views_of_from(v, i) == seq![v[i]@] + views_of_from(v, i + 1));
        assert(views_of_from(v, i).len() == 1 + views_of_from(v, i + 1).len());
        assert forall|k: int| 0 <= k < v.len() - i implies #[trigger] views_of_from(v, i)[k]
            == v[i + k]@ by {
            if k > 0 {
                assert(views_of_from(v, i)[k] == views_of_from(v, i + 1)[k - 1]);
            }
        }
    } else {
        assert(views_of_from(v, i).len() == 0);
    }
}

/// Decimal digits of `n`, most significant first.
pub open spec fn dec_nat(n: nat) -> Seq<u8>
    decreases n,
{
    if n < 10 {
        seq![(48 + n) as u8]
    } else {
        dec_nat(n / 10).push((48 + n % 10) as u8)
    }
}

/// Decimal notation of `i`, with a leading `-` when negative.
pub open spec fn dec_int(i: int) -> Seq<u8> {
    if i < 0 {
        seq![MARK_ERROR] + dec_nat((-i) as nat)
    } else {
        dec_nat(i as nat)
    }
}

pub open spec fn crlf() -> Seq<u8> {
    seq![CR, LF]
}

/// The serialized form of a frame.  The no-reply sentinel serializes to
/// nothing, so an array containing it writes its count but skips its bytes,
/// exactly as the encoder does.
pub open spec fn ser(f: FrameV) -> Seq<u8>
    decreases f, 0int, 1int,
{
    match f {
        FrameV::Simple(s) => seq![MARK_SIMPLE] + encode_utf8(s) + crlf(),
        FrameV::Error(s) => seq![MARK_ERROR] + encode_utf8(s) + crlf(),
        FrameV::Integer(i) => seq![MARK_INTEGER] + dec_int(i as int) + crlf(),
        FrameV::Bulk(b) => seq![MARK_BULK] + dec_nat(b.len()) + crlf() + b + crlf(),
        FrameV::Null => seq![MARK_BULK, MARK_ERROR, 49u8, CR, LF],
        FrameV::Array(elts) => seq![MARK_ARRAY] + dec_nat(elts.len()) + crlf() + ser_elts(elts, 0),
        FrameV::NoResponse => seq![],
    }
}

/// The concatenated serializations of `elts[i..]`.
pub open spec fn ser_elts(elts: Seq<FrameV>, i: int) -> Seq<u8>
    decreases elts, elts.len() - i, 0int,
{
    if 0 <= i < elts.len() {
        ser(elts[i]) + ser_elts(elts, i + 1)
    } else {
        seq![]
    }
}

/// True when no `\r\n` pair occurs in `s`.  A simple or error string whose
/// encoding holds one cannot survive a round trip, because its terminator
/// would be found early.
pub open spec fn crlf_free(s: Seq<u8>) -> bool {
    forall|i: int| 0 <= i < s.len() - 1 ==> !(#[trigger] s[i] == CR && s[i + 1] == LF)
}

/// A frame that the grammar can represent faithfully: line-based strings
/// hold no `\r\n`, lengths fit the signed 64-bit count fields, and the
/// no-reply sentinel appears nowhere.
pub open spec fn wf_frame(f: FrameV) -> bool
    decreases f,
{
    match f {
        FrameV::Simple(s) => crlf_free(encode_utf8(s)),
        FrameV::Error(s) => crlf_free(encode_utf8(s)),
        FrameV::Integer(_) => true,
        FrameV::Bulk(data) => data.len() <= i64::MAX,
        FrameV::Null => true,
        FrameV::Array(elts) => elts.len() <= i64::MAX && forall|i: int|
            0 <= i < elts.len() ==> wf_frame(#[trigger] elts[i]),
        FrameV::NoResponse => false,
    }
}

/// Appends the decimal digits of `n` to `buf`.
fn push_dec_u64(buf: &mut Vec<u8>, n: u64)
    ensures
        final(buf)@ == old(buf)@ + dec_nat(n as nat),
    decreases n,
{
    if n >= 10 {
        push_dec_u64(buf, n / 10);
        buf.push(48 + (n % 10) as u8);
        assert(buf@ =~= old(buf)@ + dec_nat(n as nat));
    } else {
        buf.push(48 + n as u8);
        assert(buf@ =~= old(buf)@ + dec_nat(n as nat));
    }
}

/// Appends the decimal notation of `i` to `buf`.
fn push_dec_i64(buf: &mut Vec<u8>, i: i64)
    ensures
        final(buf)@ == old(buf)@ + dec_int(i as int),
{
    if i < 0 {
        buf.push(MARK_ERROR);
        let m: u64 = (i as i128 * -1) as u64;
        push_dec_u64(buf, m);
        assert(buf@ =~= old(buf)@ + dec_int(i as int));
    } else {
        push_dec_u64(buf, i as u64);
    }
}

/// Appends the serialized forms of `elts[j..]` to `buf`.
fn arr_to_bytes_into(elts: &Vec<Frame>, j: usize, buf: &mut Vec<u8>)
    requires
        j <= elts@.len(),
    ensures
        final(buf)@ == old(buf)@ + ser_elts(views_of(elts@), j as int),
    decreases elts, elts@.len() - j, 0int,
{
    proof {
        lemma_views_of(elts@);
    }
    if j < elts.len() {
        let ghost pre = buf@;
        elts[j].to_bytes_into(buf);
        arr_to_bytes_into(elts, j + 1, buf);
        assert(buf@ =~= pre + ser_elts(views_of(elts@), j as int));
    }
}

impl Frame {
    /// Appends this frame's serialized form to `buf`.
    #[verifier::rlimit(30)]
    fn to_bytes_into(&self, buf: &mut Vec<u8>)
        ensures
            final(buf)@ == old(buf)@ + ser(self@),
        decreases self, 0int, 1int,
    {
        match self {
            Frame::Simple(s) => {
                buf.push(MARK_SIMPLE);
                let mut body = s.as_str().as_bytes_vec();
                buf.append(&mut body);
                buf.push(CR);
                buf.push(LF);
                assert(buf@ =~= old(buf)@ + ser(self@));
            }
            Frame::Error(s) => {
                buf.push(MARK_ERROR);
                let mut body = s.as_str().as_bytes_vec();
                buf.append(&mut body);
                buf.push(CR);
                buf.push(LF);
                assert(buf@ =~= old(buf)@ + ser(self@));
            }
            Frame::Integer(i) => {
                buf.push(MARK_INTEGER);
                push_dec_i64(buf, *i);
                buf.push(CR);
                buf.push(LF);
                assert(buf@ =~= old(buf)@ + ser(self@));
            }
            Frame::Bulk(data) => {
                buf.push(MARK_BULK);
                push_dec_u64(buf, data.len() as u64);
                buf.push(CR);
                buf.push(LF);
                let mut j: usize = 0;
                while j < data.len()
                    invariant
                        j <= data.len(),
                        buf@ == old(buf)@ + seq![MARK_BULK] + dec_nat(data@.len()) + crlf()
                            + data@.subrange(0, j as int),
                    decreases data.len() - j,
                {
                    buf.push(data[j]);
                    j = j + 1;
                    assert(buf@ =~= old(buf)@ + seq![MARK_BULK] + dec_nat(data@.len()) + crlf()
                        + data@.subrange(0, j as int));
                }
                buf.push(CR);
                buf.push(LF);
                assert(data@.subrange(0, data@.len() as int) =~= data@);
                assert(buf@ =~= old(buf)@ + ser(self@));
            }
            Frame::Null => {
                buf.push(MARK_BULK);
                buf.push(MARK_ERROR);
                buf.push(49);
                buf.push(CR);
                buf.push(LF);
                assert(buf@ =~= old(buf)@ + ser(self@));
            }
            Frame::Array(elts) => {
                buf.push(MARK_ARRAY);
                push_dec_u64(buf, elts.len() as u64);
                buf.push(CR);
                buf.push(LF);
                proof {
                    lemma_views_of(elts@);
                }
                arr_to_bytes_into(elts, 0, buf);
                assert(buf@ =~= old(buf)@ + ser(self@));
            }
            Frame::NoResponse => {
                assert(buf@ =~= old(buf)@ + ser(self@));
            }
        }
    }

    /// Converts the frame to its wire bytes for the client; the no-reply
    /// sentinel yields `None` and nothing must be written for it.
    pub fn to_bytes(&self) -> (r: Option<Vec<u8>>)
        ensures
            r is Some <==> !(self@ is NoResponse),
            r matches Some(b) ==> b@ == ser(self@),
    {
        match self {
            Frame::NoResponse => None,
            _ => {
                let mut buf: Vec<u8> = Vec::new();
                self.to_bytes_into(&mut buf);
                Some(buf)
            }
        }
    }
}

/// Reads one byte and advances the cursor.
fn get_bytes(bytes: &Vec<u8>, pos: &mut usize) -> (r: Result<u8, Error>)
    ensures
        *old(pos) >= bytes@.len() ==> r == Err::<u8, Error>(Error::NoMoreData) && *final(pos)
            == *old(pos),
        *old(pos) < bytes@.len() ==> r == Ok::<u8, Error>(bytes@[*old(pos) as int]) && *final(pos)
            == *old(pos) + 1,
{
    if *pos >= bytes.len() {
        Err(Error::NoMoreData)
    } else {
        let b = bytes[*pos];
        *pos = *pos + 1;
        Ok(b)
    }
}

/// Reads the byte under the cursor without advancing.
fn peek_bytes(bytes: &Vec<u8>, pos: &mut usize) -> (r: Result<u8, Error>)
    ensures
        *final(pos) == *old(pos),
        *old(pos) >= bytes@.len() ==> r == Err::<u8, Error>(Error::NoMoreData),
        *old(pos) < bytes@.len() ==> r == Ok::<u8, Error>(bytes@[*old(pos) as int]),
{
    if *pos >= bytes.len() {
        Err(Error::NoMoreData)
    } else {
        Ok(bytes[*pos])
    }
}

/// Advances the cursor by `n` bytes; the bytes must all be buffered.
fn skip_bytes(bytes: &Vec<u8>, pos: &mut usize, n: usize) -> (r: Result<(), Error>)
    ensures
        *old(pos) + n <= bytes@.len() ==> r == Ok::<(), Error>(()) && *final(pos) == *old(pos) + n,
        *old(pos) + n > bytes@.len() ==> r == Err::<(), Error>(Error::NoMoreData) && *final(pos)
            == *old(pos),
{
    if n <= bytes.len() && *pos <= bytes.len() - n {
        *pos = *pos + n;
        Ok(())
    } else {
        Err(Error::NoMoreData)
    }
}

/// The position of the first `\r\n` pair at or after `i`, if any.
pub open spec fn spec_find_crlf(b: Seq<u8>, i: int) -> Option<int>
    decreases b.len() - i,
{
    if i + 1 >= b.len() {
        None::<int>
    } else if b[i] == CR && b[i + 1] == LF {
        Some(i)
    } else {
        spec_find_crlf(b, i + 1)
    }
}

/// What `spec_find_crlf` promises of its result.
pub proof fn lemma_find_crlf(b: Seq<u8>, i: int)
    requires
        0 <= i,
    ensures
        spec_find_crlf(b, i) matches Some(j) ==> i <= j && j + 1 < b.len() && b[j] == CR && b[j
            + 1] == LF,
    decreases b.len() - i,
{
    if i + 1 < b.len() && !(b[i] == CR && b[i + 1] == LF) {
        lemma_find_crlf(b, i + 1);
    }
}

/// A line and the cursor position past its terminator: the bytes from `pos`
/// up to the first `\r\n`, which is not part of the line.
pub open spec fn spec_get_line(b: Seq<u8>, pos: int) -> Option<(Seq<u8>, int)> {
    match spec_find_crlf(b, pos) {
        None => None::<(Seq<u8>, int)>,
        Some(j) => Some((b.subrange(pos, j), j + 2)),
    }
}

/// Reads one line, consuming it and its terminator.
#[verifier::loop_isolation(false)]
fn get_line(bytes: &Vec<u8>, pos: &mut usize) -> (r: Result<Vec<u8>, Error>)
    ensures
        match spec_get_line(bytes@, *old(pos) as int) {
            Option::None => r is Err && r->Err_0 == Error::NoMoreData,
            Option::Some(lp) => r matches Ok(line) && line@ == lp.0 && *final(pos) == lp.1
                && *old(pos) < lp.1 <= bytes@.len(),
        },
{
    let start: usize = *pos;
    let mut i: usize = start;
    loop
        invariant
            start <= i,
            spec_find_crlf(bytes@, start as int) == spec_find_crlf(bytes@, i as int),
        decreases bytes@.len() - i,
    {
        if bytes.len() < 2 || i >= bytes.len() - 1 {
            return Err(Error::NoMoreData);
        }
        if bytes[i] == CR && bytes[i + 1] == LF {
            proof {
                lemma_find_crlf(bytes@, start as int);
            }
            let mut line: Vec<u8> = Vec::new();
            let mut k: usize = start;
            while k < i
                invariant
                    start <= k <= i,
                    i < bytes@.len(),
                    line@ == bytes@.subrange(start as int, k as int),
                decreases i - k,
            {
                line.push(bytes[k]);
                k = k + 1;
                assert(line@ =~= bytes@.subrange(start as int, k as int));
            }
            *pos = i + 2;
            return Ok(line);
        }
        i = i + 1;
    }
}

pub open spec fn is_digit(c: u8) -> bool {
    48 <= c <= 57
}

pub open spec fn all_digits(s: Seq<u8>) -> bool {
    forall|i: int| 0 <= i < s.len() ==> is_digit(#[trigger] s[i])
}

/// The value of a digit string read in base 10.
pub open spec fn digits_val(s: Seq<u8>) -> int
    decreases s.len(),
{
    if s.len() == 0 {
        0
    } else {
        digits_val(s.drop_last()) * 10 + (s.last() - 48)
    }
}

pub proof fn lemma_digits_val_nonneg(s: Seq<u8>)
    requires
        all_digits(s),
    ensures
        digits_val(s) >= 0,
    decreases s.len(),
{
    if s.len() > 0 {
        assert(all_digits(s.drop_last()));
        lemma_digits_val_nonneg(s.drop_last());
    }
}

/// Reading more digits never shrinks the value.
pub proof fn lemma_digits_val_prefix(s: Seq<u8>, i: int)
    requires
        all_digits(s),
        0 <= i <= s.len(),
    ensures
        digits_val(s.subrange(0, i)) <= digits_val(s),
    decreases s.len() - i,
{
    if i < s.len() {
        lemma_digits_val_prefix(s, i + 1);
        let a = s.subrange(0, i);
        let b = s.subrange(0, i + 1);
        assert(b.drop_last() =~= a);
        assert(all_digits(a));
        lemma_digits_val_nonneg(a);
    } else {
        assert(s.subrange(0, i) =~= s);
    }
}

/// The integer denoted by a whole line: an optional `-` sign followed by at
/// least one decimal digit, and nothing else.
pub open spec fn spec_parse_int(line: Seq<u8>) -> Option<int> {
    if line.len() >= 2 && line[0] == MARK_ERROR && all_digits(line.skip(1)) {
        Some(-digits_val(line.skip(1)))
    } else if line.len() >= 1 && all_digits(line) {
        Some(digits_val(line))
    } else {
        None::<int>
    }
}

/// A number line read from the cursor: the line's integer value if it fits
/// in an `i64`, with the protocol's error for each way it can fail.
pub open spec fn spec_get_number(b: Seq<u8>, pos: int) -> Result<(i64, int), Error> {
    match spec_get_line(b, pos) {
        None => Err(Error::NoMoreData),
        Some(lp) => match spec_parse_int(lp.0) {
            None => Err(Error::NotNumber),
            Some(v) => if i64::MIN <= v <= i64::MAX {
                Ok((v as i64, lp.1))
            } else {
                Err(Error::OverFlow)
            },
        },
    }
}

/// Scans the digits of `line` from `s` on, returning their value when it
/// fits in a `u64`.
#[verifier::loop_isolation(false)]
pub(crate) fn scan_digits(line: &Vec<u8>, s: usize) -> (r: Result<Option<u64>, Error>)
    requires
        s <= line@.len(),
    ensures
        r is Err ==> r->Err_0 == Error::NotNumber && !(all_digits(line@.skip(s as int))
            && line@.len() > s),
        r matches Ok(m) ==> all_digits(line@.skip(s as int)) && line@.len() > s && (match m {
            Option::Some(v) => v == digits_val(line@.skip(s as int)),
            Option::None => digits_val(line@.skip(s as int)) > u64::MAX,
        }),
{
    let ghost dseq = line@.skip(s as int);
    if s >= line.len() {
        return Err(Error::NotNumber);
    }
    let mut i: usize = s;
    let mut acc: u64 = 0;
    let mut over: bool = false;
    while i < line.len()
        invariant
            s <= i <= line@.len(),
            dseq == line@.skip(s as int),
            all_digits(dseq.subrange(0, i - s)),
            !over ==> acc == digits_val(dseq.subrange(0, i - s)),
            over ==> digits_val(dseq.subrange(0, i - s)) > u64::MAX,
        decreases line@.len() - i,
    {
        let c = line[i];
        if c < 48 || c > 57 {
            assert(!is_digit(dseq[i - s]));
            return Err(Error::NotNumber);
        }
        let d: u64 = (c - 48) as u64;
        let ghost pre = dseq.subrange(0, i - s);
        let ghost cur = dseq.subrange(0, i + 1 - s);
        proof {
            assert(cur.drop_last() =~= pre);
            assert(cur.last() == dseq[i - s]);
        }
        if over {
            proof {
                assert(all_digits(pre));
                lemma_digits_val_nonneg(pre);
                assert(digits_val(cur) == digits_val(pre) * 10 + d);
                assert(digits_val(pre) * 10 >= digits_val(pre)) by (nonlinear_arith)
                    requires
                        digits_val(pre) >= 0,
                ;
            }
        } else {
            let step = acc.checked_mul(10);
            match step {
                Option::Some(t) => {
                    let step2 = t.checked_add(d);
                    match step2 {
                        Option::Some(v) => {
                            acc = v;
                        }
                        Option::None => {
                            over = true;
                        }
                    }
                }
                Option::None => {
                    proof {
                        assert(all_digits(pre));
                        lemma_digits_val_nonneg(pre);
                    }
                    over = true;
                }
            }
            assert(over ==> digits_val(cur) > u64::MAX);
        }
        i = i + 1;
    }
    assert(dseq.subrange(0, i - s) =~= dseq);
    if over {
        Ok(None)
    } else {
        Ok(Some(acc))
    }
}

/// Reads a decimal number line as a signed 64-bit integer.
fn get_number(bytes: &Vec<u8>, pos: &mut usize) -> (r: Result<i64, Error>)
    ensures
        match spec_get_number(bytes@, *old(pos) as int) {
            Result::Ok(vp) => r matches Ok(v) && v == vp.0 && *final(pos) == vp.1 && *old(pos)
                < vp.1 <= bytes@.len(),
            Result::Err(e) => r is Err && r->Err_0 == e,
        },
{
    let line = match get_line(bytes, pos) {
        Ok(l) => l,
        Err(e) => {
            return Err(e);
        }
    };
    let neg: bool = line.len() >= 1 && line[0] == MARK_ERROR;
    if neg && line.len() < 2 {
        return Err(Error::NotNumber);
    }
    let s: usize = if neg { 1 } else { 0 };
    let mag = match scan_digits(&line, s) {
        Ok(m) => m,
        Err(e) => {
            proof {
                if !neg {
                    if line@.len() >= 2 && line@[0] == MARK_ERROR {
                        assert(false);
                    }
                    assert(line@.skip(0) =~= line@);
                }
            }
            return Err(e);
        }
    };
    proof {
        if !neg {
            assert(line@.skip(0) =~= line@);
            assert(!(line@.len() >= 2 && line@[0] == MARK_ERROR));
        }
        lemma_digits_val_nonneg(line@.skip(s as int));
    }
    match mag {
        Option::None => Err(Error::OverFlow),
        Option::Some(m) => {
            if neg {
                if m > 9223372036854775808u64 {
                    Err(Error::OverFlow)
                } else if m == 9223372036854775808u64 {
                    Ok(i64::MIN)
                } else {
                    Ok(-(m as i64))
                }
            } else {
                if m > i64::MAX as u64 {
                    Err(Error::OverFlow)
                } else {
                    Ok(m as i64)
                }
            }
        }
    }
}

/// Relies on `String::from_utf8`: it returns `Ok` exactly when the bytes
/// are valid UTF-8, and the string it builds then carries the characters
/// those bytes encode.
#[verifier::external_body]
pub(crate) fn string_from_utf8(bytes: Vec<u8>) -> (r: Option<String>)
    ensures
        r is Some <==> valid_utf8(bytes@),
        r matches Some(s) ==> s@ == decode_utf8(bytes@),
{
    String::from_utf8(bytes).ok()
}

/// Structural validation of one frame starting at `pos`: the position past
/// the frame on success, or the protocol error that stops it.
pub open spec fn spec_check(b: Seq<u8>, pos: int) -> Result<int, Error>
    decreases b.len() - pos, 0int,
{
    if pos < 0 || pos >= b.len() {
        Err(Error::NoMoreData)
    } else {
        let m = b[pos];
        if m == MARK_ARRAY {
            match spec_get_number(b, pos + 1) {
                Err(e) => Err(e),
                Ok(np) => if np.0 < 0 {
                    Err(Error::UnRESP)
                } else if pos < np.1 <= b.len() {
                    spec_check_elts(b, np.1, np.0 as int)
                } else {
                    Err(Error::UnRESP)
                },
            }
        } else if m == MARK_BULK {
            spec_check_bulk(b, pos + 1)
        } else if m == MARK_INTEGER {
            match spec_get_number(b, pos + 1) {
                Err(e) => Err(e),
                Ok(np) => Ok(np.1),
            }
        } else if m == MARK_SIMPLE || m == MARK_ERROR {
            match spec_get_line(b, pos + 1) {
                None => Err(Error::NoMoreData),
                Some(lp) => Ok(lp.1),
            }
        } else {
            Err(Error::UnRESP)
        }
    }
}

/// Validation of `n` consecutive frames from `pos`.
pub open spec fn spec_check_elts(b: Seq<u8>, pos: int, n: int) -> Result<int, Error>
    decreases b.len() - pos, n,
{
    if n <= 0 {
        Ok(pos)
    } else {
        match spec_check(b, pos) {
            Err(e) => Err(e),
            Ok(p) => if pos < p <= b.len() {
                spec_check_elts(b, p, n - 1)
            } else {
                Err(Error::UnRESP)
            },
        }
    }
}

/// Validation of a bulk string or null, `pos` standing just past the `$`.
pub open spec fn spec_check_bulk(b: Seq<u8>, pos: int) -> Result<int, Error> {
    match spec_get_line(b, pos) {
        None => Err(Error::NoMoreData),
        Some(lp) => {
            let line = lp.0;
            let p = lp.1;
            if line.len() >= 1 && line[0] == MARK_ERROR {
                if line == seq![MARK_ERROR, 49u8] {
                    Ok(p)
                } else {
                    Err(Error::UnRESP)
                }
            } else {
                match spec_parse_int(line) {
                    None => Err(Error::NotNumber),
                    Some(l) => if l > i64::MAX {
                        Err(Error::OverFlow)
                    } else if p + l + 2 > b.len() {
                        Err(Error::NoMoreData)
                    } else if b[p + l] == CR && b[p + l + 1] == LF {
                        Ok(p + l + 2)
                    } else {
                        Err(Error::UnRESP)
                    },
                }
            }
        },
    }
}

/// The frame starting at `pos` and the position past it, or the protocol
/// error that stops the parse.
pub open spec fn spec_parse(b: Seq<u8>, pos: int) -> Result<(FrameV, int), Error>
    decreases b.len() - pos, 0int,
{
    if pos < 0 || pos >= b.len() {
        Err(Error::NoMoreData)
    } else {
        let m = b[pos];
        if m == MARK_ARRAY {
            match spec_get_number(b, pos + 1) {
                Err(e) => Err(e),
                Ok(np) => if np.0 < 0 {
                    Err(Error::UnRESP)
                } else if pos < np.1 <= b.len() {
                    match spec_parse_elts(b, np.1, np.0 as int) {
                        Err(e) => Err(e),
                        Ok(sq) => Ok((FrameV::Array(sq.0), sq.1)),
                    }
                } else {
                    Err(Error::UnRESP)
                },
            }
        } else if m == MARK_BULK {
            spec_parse_bulk(b, pos + 1)
        } else if m == MARK_INTEGER {
            match spec_get_number(b, pos + 1) {
                Err(e) => Err(e),
                Ok(np) => Ok((FrameV::Integer(np.0), np.1)),
            }
        } else if m == MARK_SIMPLE {
            match spec_get_line(b, pos + 1) {
                None => Err(Error::NoMoreData),
                Some(lp) => if valid_utf8(lp.0) {
                    Ok((FrameV::Simple(decode_utf8(lp.0)), lp.1))
                } else {
                    Err(Error::TypeConversionError)
                },
            }
        } else if m == MARK_ERROR {
            match spec_get_line(b, pos + 1) {
                None => Err(Error::NoMoreData),
                Some(lp) => if valid_utf8(lp.0) {
                    Ok((FrameV::Error(decode_utf8(lp.0)), lp.1))
                } else {
                    Err(Error::TypeConversionError)
                },
            }
        } else {
            Err(Error::UnRESP)
        }
    }
}

/// `n` consecutive frames from `pos` and the position past the last.
pub open spec fn spec_parse_elts(b: Seq<u8>, pos: int, n: int) -> Result<
    (Seq<FrameV>, int),
    Error,
>
    decreases b.len() - pos, n,
{
    if n <= 0 {
        Ok((seq![], pos))
    } else {
        match spec_parse(b, pos) {
            Err(e) => Err(e),
            Ok(fp) => if pos < fp.1 <= b.len() {
                match spec_parse_elts(b, fp.1, n - 1) {
                    Err(e) => Err(e),
                    Ok(sq) => Ok((seq![fp.0] + sq.0, sq.1)),
                }
            } else {
                Err(Error::UnRESP)
            },
        }
    }
}

/// A bulk string or null, `pos` standing just past the `$`.
pub open spec fn spec_parse_bulk(b: Seq<u8>, pos: int) -> Result<(FrameV, int), Error> {
    match spec_get_line(b, pos) {
        None => Err(Error::NoMoreData),
        Some(lp) => {
            let line = lp.0;
            let p = lp.1;
            if line.len() >= 1 && line[0] == MARK_ERROR {
                if line == seq![MARK_ERROR, 49u8] {
                    Ok((FrameV::Null, p))
                } else {
                    Err(Error::UnRESP)
                }
            } else {
                match spec_parse_int(line) {
                    None => Err(Error::NotNumber),
                    Some(l) => if l > i64::MAX {
                        Err(Error::OverFlow)
                    } else if p + l + 2 > b.len() {
                        Err(Error::NoMoreData)
                    } else if b[p + l] == CR && b[p + l + 1] == LF {
                        Ok((FrameV::Bulk(b.subrange(p, p + l)), p + l + 2))
                    } else {
                        Err(Error::UnRESP)
                    },
                }
            }
        },
    }
}

/// Appending a frame to a sequence appends its view.
pub proof fn lemma_views_of_push(v: Seq<Frame>, f: Frame)
    ensures
        views_of(v.push(f)) =~= views_of(v).push(f@),
{
    lemma_views_of(v);
    lemma_views_of(v.push(f));
}

impl Frame {
    /// Checks whether the buffer from `pos` holds one complete frame in the
    /// protocol grammar, advancing `pos` past it.  No payload is built or
    /// converted; a connection uses this to find one frame's extent before
    /// parsing it.  `NoMoreData` means the frame is not fully buffered yet.
    #[verifier::loop_isolation(false)]
    pub fn check(bytes: &Vec<u8>, pos: &mut usize) -> (r: Result<(), Error>)
        ensures
            match spec_check(bytes@, *old(pos) as int) {
                Result::Ok(p) => r is Ok && *final(pos) == p && *old(pos) < p <= bytes@.len(),
                Result::Err(e) => r is Err && r->Err_0 == e,
            },
        decreases bytes@.len() - *old(pos),
    {
        let marker = match get_bytes(bytes, pos) {
            Ok(m) => m,
            Err(e) => {
                return Err(e);
            }
        };
        if marker == MARK_ARRAY {
            let n = match get_number(bytes, pos) {
                Ok(n) => n,
                Err(e) => {
                    return Err(e);
                }
            };
            if n < 0 {
                return Err(Error::UnRESP);
            }
            let ghost p2 = *pos as int;
            let mut k: i64 = 0;
            while k < n
                invariant
                    0 <= k <= n,
                    *old(pos) < p2 <= *pos <= bytes@.len(),
                    spec_check_elts(bytes@, p2, n as int) == spec_check_elts(
                        bytes@,
                        *pos as int,
                        n - k,
                    ),
                decreases n - k,
            {
                let ghost cur = *pos as int;
                match Frame::check(bytes, pos) {
                    Ok(_) => {
                        assert(spec_check_elts(bytes@, cur, n - k) == spec_check_elts(
                            bytes@,
                            *pos as int,
                            n - k - 1,
                        ));
                    }
                    Err(e) => {
                        assert(spec_check_elts(bytes@, cur, n - k) == Err::<int, Error>(e));
                        return Err(e);
                    }
                }
                k = k + 1;
            }
            assert(spec_check_elts(bytes@, *pos as int, 0) == Ok::<int, Error>(*pos as int));
            Ok(())
        } else if marker == MARK_BULK {
            let line = match get_line(bytes, pos) {
                Ok(l) => l,
                Err(e) => {
                    return Err(e);
                }
            };
            if line.len() >= 1 && line[0] == MARK_ERROR {
                if line.len() == 2 && line[1] == 49 {
                    assert(line@ =~= seq![MARK_ERROR, 49u8]);
                    Ok(())
                } else {
                    assert(line@ != seq![MARK_ERROR, 49u8]);
                    Err(Error::UnRESP)
                }
            } else {
                let m = match scan_digits(&line, 0) {
                    Ok(m) => m,
                    Err(e) => {
                        proof {
                            assert(line@.skip(0) =~= line@);
                        }
                        return Err(e);
                    }
                };
                proof {
                    assert(line@.skip(0) =~= line@);
                    lemma_digits_val_nonneg(line@);
                }
                let l: u64 = match m {
                    Option::Some(v) => {
                        if v > i64::MAX as u64 {
                            return Err(Error::OverFlow);
                        }
                        v
                    }
                    Option::None => {
                        return Err(Error::OverFlow);
                    }
                };
                let rem: usize = bytes.len() - *pos;
                if rem < 2 || l > (rem - 2) as u64 {
                    return Err(Error::NoMoreData);
                }
                let lu: usize = l as usize;
                if bytes[*pos + lu] == CR && bytes[*pos + lu + 1] == LF {
                    *pos = *pos + lu + 2;
                    Ok(())
                } else {
                    Err(Error::UnRESP)
                }
            }
        } else if marker == MARK_INTEGER {
            match get_number(bytes, pos) {
                Ok(_) => Ok(()),
                Err(e) => Err(e),
            }
        } else if marker == MARK_SIMPLE || marker == MARK_ERROR {
            match get_line(bytes, pos) {
                Ok(_) => Ok(()),
                Err(e) => Err(e),
            }
        } else {
            Err(Error::UnRESP)
        }
    }

    /// Parses one frame from `pos`, building its structured value: arrays
    /// become frame sequences, bulk values raw payloads, `$-1` the null
    /// frame; simple and error strings must be valid UTF-8.  The range
    /// should have passed [`Frame::check`] first; any way the bytes break
    /// the grammar is reported as the matching structural error.
    #[verifier::loop_isolation(false)]
    #[verifier::rlimit(80)]
    pub fn parse(bytes: &Vec<u8>, pos: &mut usize) -> (r: Result<Frame, Error>)
        ensures
            match spec_parse(bytes@, *old(pos) as int) {
                Result::Ok(fp) => r matches Ok(f) && f@ == fp.0 && *final(pos) == fp.1 && *old(pos)
                    < fp.1 <= bytes@.len(),
                Result::Err(e) => r is Err && r->Err_0 == e,
            },
        decreases bytes@.len() - *old(pos),
    {
        let marker = match get_bytes(bytes, pos) {
            Ok(m) => m,
            Err(e) => {
                return Err(e);
            }
        };
        if marker == MARK_ARRAY {
            let n = match get_number(bytes, pos) {
                Ok(n) => n,
                Err(e) => {
                    return Err(e);
                }
            };
            if n < 0 {
                return Err(Error::UnRESP);
            }
            let ghost p2 = *pos as int;
            let mut items: Vec<Frame> = Vec::new();
            let mut k: i64 = 0;
            while k < n
                invariant
                    0 <= k <= n,
                    *old(pos) < p2 <= *pos <= bytes@.len(),
                    items@.len() == k,
                    spec_parse_elts(bytes@, p2, n as int) == (match spec_parse_elts(
                        bytes@,
                        *pos as int,
                        n - k,
                    ) {
                        Result::Err(e) => Err::<(Seq<FrameV>, int), Error>(e),
                        Result::Ok(sq) => Ok::<(Seq<FrameV>, int), Error>(
                            (views_of(items@) + sq.0, sq.1),
                        ),
                    }),
                decreases n - k,
            {
                let ghost cur = *pos as int;
                let ghost pre_items = items@;
                match Frame::parse(bytes, pos) {
                    Ok(f) => {
                        proof {
                            lemma_views_of(pre_items);
                        }
                        let ghost fv = f@;
                        items.push(f);
                        proof {
                            lemma_views_of_push(pre_items, f);
                            assert(views_of(items@) =~= views_of(pre_items).push(fv));
                            assert(spec_parse_elts(bytes@, cur, n - k) == (match spec_parse_elts(
                                bytes@,
                                *pos as int,
                                n - k - 1,
                            ) {
                                Result::Err(e) => Err::<(Seq<FrameV>, int), Error>(e),
                                Result::Ok(sq) => Ok::<(Seq<FrameV>, int), Error>(
                                    (seq![fv] + sq.0, sq.1),
                                ),
                            }));
                            assert forall|sq0: Seq<FrameV>| true implies views_of(pre_items) + (
                            seq![fv] + sq0) =~= views_of(items@) + sq0 by {
                                lemma_views_of(items@);
                            }
                        }
                    }
                    Err(e) => {
                        return Err(e);
                    }
                }
                k = k + 1;
            }
            proof {
                lemma_views_of(items@);
                assert(spec_parse_elts(bytes@, *pos as int, 0) == Ok::<(Seq<FrameV>, int), Error>(
                    (Seq::<FrameV>::empty(), *pos as int),
                ));
                assert(views_of(items@) + Seq::<FrameV>::empty() =~= views_of(items@));
            }
            Ok(Frame::Array(items))
        } else if marker == MARK_BULK {
            let line = match get_line(bytes, pos) {
                Ok(l) => l,
                Err(e) => {
                    return Err(e);
                }
            };
            if line.len() >= 1 && line[0] == MARK_ERROR {
                if line.len() == 2 && line[1] == 49 {
                    assert(line@ =~= seq![MARK_ERROR, 49u8]);
                    Ok(Frame::Null)
                } else {
                    assert(line@ != seq![MARK_ERROR, 49u8]);
                    Err(Error::UnRESP)
                }
            } else {
                let m = match scan_digits(&line, 0) {
                    Ok(m) => m,
                    Err(e) => {
                        proof {
                            assert(line@.skip(0) =~= line@);
                        }
                        return Err(e);
                    }
                };
                proof {
                    assert(line@.skip(0) =~= line@);
                    lemma_digits_val_nonneg(line@);
                }
                let l: u64 = match m {
                    Option::Some(v) => {
                        if v > i64::MAX as u64 {
                            return Err(Error::OverFlow);
                        }
                        v
                    }
                    Option::None => {
                        return Err(Error::OverFlow);
                    }
                };
                let rem: usize = bytes.len() - *pos;
                if rem < 2 || l > (rem - 2) as u64 {
                    return Err(Error::NoMoreData);
                }
                let lu: usize = l as usize;
                if bytes[*pos + lu] == CR && bytes[*pos + lu + 1] == LF {
                    let mut data: Vec<u8> = Vec::new();
                    let mut j: usize = 0;
                    while j < lu
                        invariant
                            j <= lu,
                            *pos + lu + 2 <= bytes@.len(),
                            data@ == bytes@.subrange(*pos as int, *pos + j),
                        decreases lu - j,
                    {
                        data.push(bytes[*pos + j]);
                        j = j + 1;
                        assert(data@ =~= bytes@.subrange(*pos as int, *pos + j));
                    }
                    *pos = *pos + lu + 2;
                    Ok(Frame::Bulk(data))
                } else {
                    Err(Error::UnRESP)
                }
            }
        } else if marker == MARK_INTEGER {
            match get_number(bytes, pos) {
                Ok(n) => Ok(Frame::Integer(n)),
                Err(e) => Err(e),
            }
        } else if marker == MARK_SIMPLE {
            let line = match get_line(bytes, pos) {
                Ok(l) => l,
                Err(e) => {
                    return Err(e);
                }
            };
            match string_from_utf8(line) {
                Option::Some(text) => Ok(Frame::Simple(text)),
                Option::None => Err(Error::TypeConversionError),
            }
        } else if marker == MARK_ERROR {
            let line = match get_line(bytes, pos) {
                Ok(l) => l,
                Err(e) => {
                    return Err(e);
                }
            };
            match string_from_utf8(line) {
                Option::Some(text) => Ok(Frame::Error(text)),
                Option::None => Err(Error::TypeConversionError),
            }
        } else {
            Err(Error::UnRESP)
        }
    }
}

/// The characters of the decimal notation of `n`.
pub open spec fn dec_chars(n: nat) -> Seq<char> {
    decode_utf8(dec_nat(n))
}

/// The characters of the decimal notation of `i`, sign included.
pub open spec fn dec_chars_int(i: int) -> Seq<char> {
    decode_utf8(dec_int(i))
}

/// Bytes below 128 are their own UTF-8 encoding, one character each.
pub proof fn lemma_ascii_bytes_utf8(s: Seq<u8>)
    requires
        forall|i: int| 0 <= i < s.len() ==> #[trigger] s[i] < 128,
    ensures
        valid_utf8(s),
        decode_utf8(s).len() == s.len(),
        forall|i: int| 0 <= i < s.len() ==> #[trigger] decode_utf8(s)[i] == s[i] as char,
    decreases s.len(),
{
    if s.len() > 0 {
        assert(vstd::utf8::is_leading_byte_width_1(s[0]));
        assert(vstd::utf8::valid_first_scalar(s));
        assert(vstd::utf8::length_of_first_scalar(s) == 1);
        let rest = vstd::utf8::pop_first_scalar(s);
        assert(rest =~= s.skip(1));
        assert(forall|i: int| 0 <= i < rest.len() ==> #[trigger] rest[i] < 128);
        lemma_ascii_bytes_utf8(rest);
        let c0 = vstd::utf8::decode_first_scalar(s);
        assert(c0 == vstd::utf8::codepoint_width_1(s[0]));
        let b0 = s[0];
        assert((b0 & 0x7f) == b0) by (bit_vector)
            requires
                b0 < 128,
        ;
        assert(c0 == b0 as u32);
        assert((c0 as char) == (b0 as char));
        assert(decode_utf8(s) == seq![c0 as char] + decode_utf8(rest));
    }
}

/// Digit strings decode to digit characters.
pub proof fn lemma_digits_utf8(s: Seq<u8>)
    requires
        all_digits(s) || (s.len() >= 1 && s[0] == MARK_ERROR && all_digits(s.skip(1))),
    ensures
        valid_utf8(s),
        decode_utf8(s).len() == s.len(),
    decreases s.len(),
{
    assert forall|i: int| 0 <= i < s.len() implies #[trigger] s[i] < 128 by {
        if all_digits(s) {
            assert(is_digit(s[i]));
        } else {
            if i > 0 {
                assert(is_digit(s.skip(1)[i - 1]));
            }
        }
    }
    lemma_ascii_bytes_utf8(s);
}

/// Renders `n` in decimal.
pub fn u64_to_string(n: u64) -> (r: String)
    ensures
        r@ == dec_chars(n as nat),
{
    let mut buf: Vec<u8> = Vec::new();
    push_dec_u64(&mut buf, n);
    proof {
        lemma_dec_digits(n as nat);
        lemma_digits_utf8(buf@);
    }
    match string_from_utf8(buf) {
        Option::Some(s) => s,
        Option::None => {
            proof {
                assert(false);
            }
            String::new()
        }
    }
}

/// Renders `i` in decimal, sign included.
pub fn i64_to_string(i: i64) -> (r: String)
    ensures
        r@ == dec_chars_int(i as int),
{
    let mut buf: Vec<u8> = Vec::new();
    push_dec_i64(&mut buf, i);
    proof {
        if i < 0 {
            lemma_dec_digits((-(i as int)) as nat);
            assert(buf@.skip(1) =~= dec_nat((-(i as int)) as nat));
        } else {
            lemma_dec_digits(i as nat);
        }
        lemma_digits_utf8(buf@);
    }
    match string_from_utf8(buf) {
        Option::Some(s) => s,
        Option::None => {
            proof {
                assert(false);
            }
            String::new()
        }
    }
}

/// The digits of `n` are decimal digits.
pub proof fn lemma_dec_digits(n: nat)
    ensures
        all_digits(dec_nat(n)),
        dec_nat(n).len() >= 1,
    decreases n,
{
    if n >= 10 {
        lemma_dec_digits(n / 10);
    }
}

} // verus!
