//! Round-trip laws for the wire-protocol codec.
//!
//! The central statements: serializing any well-formed frame and parsing
//! the result yields the frame back, wherever it sits in a larger buffer;
//! checking finds exactly the frame's extent; and checking a buffer that
//! ends before the frame does reports that more data is needed.

use vstd::prelude::*;

verus! {

use vstd::utf8::{encode_utf8};
use crate::frame::{
    Error, FrameV, CR, LF, MARK_ARRAY, MARK_BULK, MARK_ERROR, MARK_INTEGER, MARK_SIMPLE,
    all_digits, crlf_free, dec_int, dec_nat, digits_val, is_digit, ser, ser_elts,
    spec_check, spec_check_elts, spec_find_crlf, spec_get_line, spec_parse, spec_parse_bulk,
    spec_parse_elts, spec_parse_int, wf_frame,
};

broadcast use vstd::seq::group_seq_axioms;

/// Decimal digits denote their value and are never empty.
pub proof fn lemma_dec_nat(n: nat)
    ensures
        dec_nat(n).len() >= 1,
        all_digits(dec_nat(n)),
        digits_val(dec_nat(n)) == n,
    decreases n,
{
    if n < 10 {
        let w = seq![(48 + n) as u8];
        assert(w.drop_last() =~= Seq::<u8>::empty());
        assert(digits_val(w) == digits_val(w.drop_last()) * 10 + (w.last() - 48));
        assert(digits_val(Seq::<u8>::empty()) == 0);
    } else {
        lemma_dec_nat(n / 10);
        let d = dec_nat(n / 10);
        let w = d.push((48 + n % 10) as u8);
        assert(w.drop_last() =~= d);
        assert(digits_val(w) == digits_val(d) * 10 + (n % 10));
    }
}

/// A digit string holds no protocol byte: no `\r`, `\n` or `-`.
pub proof fn lemma_digits_plain(s: Seq<u8>)
    requires
        all_digits(s),
    ensures
        crlf_free(s),
        forall|i: int| 0 <= i < s.len() ==> #[trigger] s[i] != CR && s[i] != LF && s[i]
            != MARK_ERROR,
{
    assert forall|i: int| 0 <= i < s.len() implies #[trigger] s[i] != CR && s[i] != LF && s[i]
        != MARK_ERROR by {
        assert(is_digit(s[i]));
    }
}

/// Parsing the decimal notation of `v` gives `v` back.
pub proof fn lemma_parse_int_dec(v: int)
    ensures
        spec_parse_int(dec_int(v)) == Some(v),
{
    if v < 0 {
        lemma_dec_nat((-v) as nat);
        let line = dec_int(v);
        assert(line[0] == MARK_ERROR);
        assert(line.skip(1) =~= dec_nat((-v) as nat));
        lemma_digits_plain(dec_nat((-v) as nat));
    } else {
        lemma_dec_nat(v as nat);
        let line = dec_int(v);
        assert(line =~= dec_nat(v as nat));
        lemma_digits_plain(line);
        assert(line[0] != MARK_ERROR);
        assert(!(line.len() >= 2 && line[0] == MARK_ERROR && all_digits(line.skip(1))));
    }
}

/// The first `\r\n` after a stretch known to hold none is the one that
/// terminates it.
pub proof fn lemma_find_crlf_exact(b: Seq<u8>, pos: int, end: int)
    requires
        0 <= pos <= end,
        end + 1 < b.len(),
        forall|j: int| pos <= j < end ==> !(#[trigger] b[j] == CR && b[j + 1] == LF),
        b[end] == CR,
        b[end + 1] == LF,
    ensures
        spec_find_crlf(b, pos) == Some(end),
    decreases end - pos,
{
    if pos < end {
        lemma_find_crlf_exact(b, pos + 1, end);
    }
}

/// A line written as `content ++ \r\n` reads back as exactly `content`.
pub proof fn lemma_get_line_exact(b: Seq<u8>, pos: int, content: Seq<u8>)
    requires
        0 <= pos,
        crlf_free(content),
        pos + content.len() + 2 <= b.len(),
        b.subrange(pos, pos + content.len()) == content,
        b[pos + content.len()] == CR,
        b[pos + content.len() + 1] == LF,
    ensures
        spec_get_line(b, pos) == Some((content, pos + content.len() + 2)),
{
    let end = pos + content.len() as int;
    assert forall|j: int| pos <= j < end implies !(#[trigger] b[j] == CR && b[j + 1] == LF) by {
        assert(b[j] == content[j - pos]);
        if j < end - 1 {
            assert(b[j + 1] == content[j + 1 - pos]);
        } else {
            assert(b[j + 1] == CR);
        }
    }
    lemma_find_crlf_exact(b, pos, end);
}

/// One byte of an embedded chunk, read out of the larger buffer.
pub proof fn lemma_embed_index(b: Seq<u8>, pos: int, s: Seq<u8>, j: int)
    requires
        0 <= pos,
        pos + s.len() <= b.len(),
        b.subrange(pos, pos + s.len()) == s,
        0 <= j < s.len(),
    ensures
        b[pos + j] == s[j],
{
    assert(b.subrange(pos, pos + s.len())[j] == b[pos + j]);
}

/// A sub-chunk of an embedded chunk, read out of the larger buffer.
pub proof fn lemma_embed_sub(b: Seq<u8>, pos: int, s: Seq<u8>, a: int, c: int)
    requires
        0 <= pos,
        pos + s.len() <= b.len(),
        b.subrange(pos, pos + s.len()) == s,
        0 <= a <= c <= s.len(),
    ensures
        b.subrange(pos + a, pos + c) == s.subrange(a, c),
{
    assert forall|k: int| 0 <= k < c - a implies b.subrange(pos + a, pos + c)[k] == s.subrange(
        a,
        c,
    )[k] by {
        lemma_embed_index(b, pos, s, a + k);
    }
    assert(b.subrange(pos + a, pos + c) =~= s.subrange(a, c));
}

/// A well-formed frame serializes to at least one byte.
pub proof fn lemma_ser_nonempty(f: FrameV)
    requires
        wf_frame(f),
    ensures
        ser(f).len() >= 1,
{
    match f {
        FrameV::Integer(_) => {
            if f->Integer_0 < 0 {
                lemma_dec_nat((-(f->Integer_0 as int)) as nat);
            } else {
                lemma_dec_nat(f->Integer_0 as nat);
            }
        }
        FrameV::Bulk(d) => {
            lemma_dec_nat(d.len());
        }
        FrameV::Array(elts) => {
            lemma_dec_nat(elts.len());
        }
        _ => {}
    }
}

/// Parsing a serialized well-formed frame out of any buffer that embeds it
/// yields the frame and consumes exactly its bytes.
#[verifier::rlimit(80)]
pub proof fn lemma_parse_ser(f: FrameV, b: Seq<u8>, pos: int)
    requires
        wf_frame(f),
        0 <= pos,
        pos + ser(f).len() <= b.len(),
        b.subrange(pos, pos + ser(f).len()) == ser(f),
    ensures
        spec_parse(b, pos) == Ok::<(FrameV, int), Error>((f, pos + ser(f).len())),
        spec_check(b, pos) == Ok::<int, Error>(pos + ser(f).len()),
    decreases f, 0int, 1int,
{
    let s = ser(f);
    let n = s.len() as int;
    match f {
        FrameV::Simple(t) => {
            let enc = encode_utf8(t);
            let el = enc.len() as int;
            lemma_embed_index(b, pos, s, 0);
            assert(s[0] == MARK_SIMPLE);
            lemma_embed_sub(b, pos, s, 1, 1 + el);
            assert(s.subrange(1, 1 + el) =~= enc);
            lemma_embed_index(b, pos, s, 1 + el);
            assert(s[1 + el] == CR);
            lemma_embed_index(b, pos, s, 1 + el + 1);
            assert(s[1 + el + 1] == LF);
            lemma_get_line_exact(b, pos + 1, enc);
            vstd::utf8::encode_utf8_valid_utf8(t);
            vstd::utf8::encode_utf8_decode_utf8(t);
        }
        FrameV::Error(t) => {
            let enc = encode_utf8(t);
            let el = enc.len() as int;
            lemma_embed_index(b, pos, s, 0);
            assert(s[0] == MARK_ERROR);
            lemma_embed_sub(b, pos, s, 1, 1 + el);
            assert(s.subrange(1, 1 + el) =~= enc);
            lemma_embed_index(b, pos, s, 1 + el);
            assert(s[1 + el] == CR);
            lemma_embed_index(b, pos, s, 1 + el + 1);
            assert(s[1 + el + 1] == LF);
            lemma_get_line_exact(b, pos + 1, enc);
            vstd::utf8::encode_utf8_valid_utf8(t);
            vstd::utf8::encode_utf8_decode_utf8(t);
        }
        FrameV::Integer(i) => {
            let line = dec_int(i as int);
            let ll = line.len() as int;
            if i < 0 {
                lemma_dec_nat((-(i as int)) as nat);
                lemma_digits_plain(dec_nat((-(i as int)) as nat));
                assert(crlf_free(line)) by {
                    assert(forall|k: int| 1 <= k < ll ==> #[trigger] line[k] == dec_nat(
                        (-(i as int)) as nat,
                    )[k - 1]);
                }
            } else {
                lemma_dec_nat(i as nat);
                assert(line =~= dec_nat(i as nat));
                lemma_digits_plain(line);
            }
            lemma_embed_index(b, pos, s, 0);
            assert(s[0] == MARK_INTEGER);
            lemma_embed_sub(b, pos, s, 1, 1 + ll);
            assert(s.subrange(1, 1 + ll) =~= line);
            lemma_embed_index(b, pos, s, 1 + ll);
            assert(s[1 + ll] == CR);
            lemma_embed_index(b, pos, s, 1 + ll + 1);
            assert(s[1 + ll + 1] == LF);
            lemma_get_line_exact(b, pos + 1, line);
            lemma_parse_int_dec(i as int);
        }
        FrameV::Bulk(data) => {
            let line = dec_nat(data.len());
            let ll = line.len() as int;
            let dl = data.len() as int;
            lemma_dec_nat(data.len());
            lemma_digits_plain(line);
            lemma_embed_index(b, pos, s, 0);
            assert(s[0] == MARK_BULK);
            lemma_embed_sub(b, pos, s, 1, 1 + ll);
            assert(s.subrange(1, 1 + ll) =~= line);
            lemma_embed_index(b, pos, s, 1 + ll);
            assert(s[1 + ll] == CR);
            lemma_embed_index(b, pos, s, 1 + ll + 1);
            assert(s[1 + ll + 1] == LF);
            lemma_get_line_exact(b, pos + 1, line);
            let p = pos + 1 + ll + 2;
            assert(line[0] != MARK_ERROR);
            assert(!(line.len() >= 2 && line[0] == MARK_ERROR && all_digits(line.skip(1))));
            assert(spec_parse_int(line) == Some(dl));
            lemma_embed_sub(b, pos, s, 3 + ll, 3 + ll + dl);
            assert(s.subrange(3 + ll, 3 + ll + dl) =~= data);
            lemma_embed_index(b, pos, s, 3 + ll + dl);
            assert(s[3 + ll + dl] == CR);
            lemma_embed_index(b, pos, s, 3 + ll + dl + 1);
            assert(s[3 + ll + dl + 1] == LF);
            assert(spec_parse_bulk(b, pos + 1) == Ok::<(FrameV, int), Error>(
                (FrameV::Bulk(data), p + dl + 2),
            ));
        }
        FrameV::Null => {
            let line = seq![MARK_ERROR, 49u8];
            lemma_embed_index(b, pos, s, 0);
            assert(s[0] == MARK_BULK);
            assert(crlf_free(line));
            lemma_embed_sub(b, pos, s, 1, 3);
            assert(s.subrange(1, 3) =~= line);
            lemma_embed_index(b, pos, s, 3);
            assert(s[3] == CR);
            lemma_embed_index(b, pos, s, 4);
            assert(s[4] == LF);
            lemma_get_line_exact(b, pos + 1, line);
        }
        FrameV::Array(elts) => {
            let line = dec_nat(elts.len());
            let ll = line.len() as int;
            lemma_dec_nat(elts.len());
            lemma_digits_plain(line);
            lemma_embed_index(b, pos, s, 0);
            assert(s[0] == MARK_ARRAY);
            lemma_embed_sub(b, pos, s, 1, 1 + ll);
            assert(s.subrange(1, 1 + ll) =~= line);
            lemma_embed_index(b, pos, s, 1 + ll);
            assert(s[1 + ll] == CR);
            lemma_embed_index(b, pos, s, 1 + ll + 1);
            assert(s[1 + ll + 1] == LF);
            lemma_get_line_exact(b, pos + 1, line);
            assert(line[0] != MARK_ERROR);
            assert(spec_parse_int(line) == Some(elts.len() as int));
            let p = pos + 1 + ll + 2;
            assert(ser_elts(elts, 0).len() == n - (3 + ll));
            lemma_embed_sub(b, pos, s, 3 + ll, n);
            assert(s.subrange(3 + ll, n) =~= ser_elts(elts, 0));
            lemma_parse_ser_elts(elts, 0, b, p);
            assert(elts.skip(0) =~= elts);
        }
        FrameV::NoResponse => {
            assert(false);
        }
    }
}

/// Parsing the serialized elements `elts[i..]` where the buffer embeds
/// them yields those elements.
pub proof fn lemma_parse_ser_elts(elts: Seq<FrameV>, i: int, b: Seq<u8>, pos: int)
    requires
        0 <= i <= elts.len(),
        forall|k: int| 0 <= k < elts.len() ==> wf_frame(#[trigger] elts[k]),
        0 <= pos,
        pos + ser_elts(elts, i).len() <= b.len(),
        b.subrange(pos, pos + ser_elts(elts, i).len()) == ser_elts(elts, i),
    ensures
        spec_parse_elts(b, pos, elts.len() - i) == Ok::<(Seq<FrameV>, int), Error>(
            (elts.skip(i), pos + ser_elts(elts, i).len()),
        ),
        spec_check_elts(b, pos, elts.len() - i) == Ok::<int, Error>(
            pos + ser_elts(elts, i).len(),
        ),
    decreases elts, elts.len() - i, 0int,
{
    if i == elts.len() {
        assert(elts.skip(i) =~= Seq::<FrameV>::empty());
    } else {
        let s0 = ser(elts[i]);
        let rest = ser_elts(elts, i + 1);
        let whole = ser_elts(elts, i);
        assert(whole == s0 + rest);
        lemma_ser_nonempty(elts[i]);
        lemma_embed_sub(b, pos, whole, 0, s0.len() as int);
        assert(whole.subrange(0, s0.len() as int) =~= s0);
        assert(b.subrange(pos, pos + s0.len()) == s0);
        lemma_parse_ser(elts[i], b, pos);
        let p = pos + s0.len() as int;
        lemma_embed_sub(b, pos, whole, s0.len() as int, whole.len() as int);
        assert(whole.subrange(s0.len() as int, whole.len() as int) =~= rest);
        assert(b.subrange(p, p + rest.len()) == rest);
        lemma_parse_ser_elts(elts, i + 1, b, p);
        assert(seq![elts[i]] + elts.skip(i + 1) =~= elts.skip(i));
    }
}

/// The codec round trip: for every well-formed frame, parsing its
/// serialized form yields an equal frame, and checking it consumes exactly
/// its extent, whatever follows in the buffer.
pub proof fn lemma_round_trip(f: FrameV, rest: Seq<u8>)
    requires
        wf_frame(f),
    ensures
        spec_parse(ser(f) + rest, 0) == Ok::<(FrameV, int), Error>((f, ser(f).len() as int)),
        spec_check(ser(f) + rest, 0) == Ok::<int, Error>(ser(f).len() as int),
{
    let b = ser(f) + rest;
    assert(b.subrange(0, ser(f).len() as int) =~= ser(f));
    lemma_parse_ser(f, b, 0);
}

/// A stretch with no `\r\n` pair has no line in it.
pub proof fn lemma_find_crlf_none(b: Seq<u8>, pos: int)
    requires
        0 <= pos,
        forall|j: int| pos <= j < b.len() - 1 ==> !(#[trigger] b[j] == CR && b[j + 1] == LF),
    ensures
        spec_find_crlf(b, pos) is None,
    decreases b.len() - pos,
{
    if pos + 1 < b.len() {
        lemma_find_crlf_none(b, pos + 1);
    }
}

/// A truncated header line is never mistaken for a complete one: if the
/// buffer ends inside `content ++ \r\n`, no line is found.
pub proof fn lemma_get_line_partial(b: Seq<u8>, pos: int, content: Seq<u8>, k: int)
    requires
        0 <= pos,
        crlf_free(content),
        0 <= k <= content.len() + 1,
        b.len() == pos + k,
        b.subrange(pos, b.len() as int) == (content + seq![CR, LF]).subrange(0, k),
    ensures
        spec_get_line(b, pos) is None,
{
    let full = content + seq![CR, LF];
    assert forall|j: int| pos <= j < b.len() - 1 implies !(#[trigger] b[j] == CR && b[j + 1]
        == LF) by {
        lemma_embed_index(b, pos, full.subrange(0, k), j - pos);
        lemma_embed_index(b, pos, full.subrange(0, k), j + 1 - pos);
        assert(b[j] == full[j - pos]);
        assert(b[j + 1] == full[j + 1 - pos]);
        if j + 1 - pos < content.len() {
            assert(!(content[j - pos] == CR && content[j + 1 - pos] == LF));
        } else {
            assert(j + 1 - pos == content.len());
            assert(full[j + 1 - pos] == CR);
        }
    }
    lemma_find_crlf_none(b, pos);
}

/// Checking a buffer that ends part-way through a well-formed frame
/// reports that more data is needed, never an error and never success.
#[verifier::rlimit(100)]
pub proof fn lemma_check_partial(f: FrameV, b: Seq<u8>, pos: int, k: int)
    requires
        wf_frame(f),
        0 <= pos,
        0 <= k < ser(f).len(),
        b.len() == pos + k,
        b.subrange(pos, pos + k) == ser(f).subrange(0, k),
    ensures
        spec_check(b, pos) == Err::<int, Error>(Error::NoMoreData),
    decreases f, 0int, 1int,
{
    let s = ser(f);
    let sk = s.subrange(0, k);
    if k == 0 {
    } else {
        lemma_embed_index(b, pos, sk, 0);
        assert(b[pos] == s[0]);
        match f {
            FrameV::Simple(t) => {
                let enc = encode_utf8(t);
                assert(sk.subrange(1, k) =~= (enc + seq![CR, LF]).subrange(0, k - 1));
                lemma_embed_sub(b, pos, sk, 1, k);
                lemma_get_line_partial(b, pos + 1, enc, k - 1);
            }
            FrameV::Error(t) => {
                let enc = encode_utf8(t);
                assert(sk.subrange(1, k) =~= (enc + seq![CR, LF]).subrange(0, k - 1));
                lemma_embed_sub(b, pos, sk, 1, k);
                lemma_get_line_partial(b, pos + 1, enc, k - 1);
            }
            FrameV::Integer(i) => {
                let line = dec_int(i as int);
                if i < 0 {
                    lemma_dec_nat((-(i as int)) as nat);
                    lemma_digits_plain(dec_nat((-(i as int)) as nat));
                    assert(crlf_free(line)) by {
                        assert(forall|q: int| 1 <= q < line.len() ==> #[trigger] line[q] == dec_nat(
                            (-(i as int)) as nat,
                        )[q - 1]);
                    }
                } else {
                    lemma_dec_nat(i as nat);
                    assert(line =~= dec_nat(i as nat));
                    lemma_digits_plain(line);
                }
                assert(sk.subrange(1, k) =~= (line + seq![CR, LF]).subrange(0, k - 1));
                lemma_embed_sub(b, pos, sk, 1, k);
                lemma_get_line_partial(b, pos + 1, line, k - 1);
            }
            FrameV::Null => {
                let line = seq![MARK_ERROR, 49u8];
                assert(crlf_free(line));
                assert(sk.subrange(1, k) =~= (line + seq![CR, LF]).subrange(0, k - 1));
                lemma_embed_sub(b, pos, sk, 1, k);
                lemma_get_line_partial(b, pos + 1, line, k - 1);
            }
            FrameV::Bulk(data) => {
                let line = dec_nat(data.len());
                let ll = line.len() as int;
                let dl = data.len() as int;
                lemma_dec_nat(data.len());
                lemma_digits_plain(line);
                if k - 1 <= ll + 1 {
                    assert(sk.subrange(1, k) =~= (line + seq![CR, LF]).subrange(0, k - 1));
                    lemma_embed_sub(b, pos, sk, 1, k);
                    lemma_get_line_partial(b, pos + 1, line, k - 1);
                } else {
                    lemma_embed_sub(b, pos, sk, 1, 1 + ll);
                    assert(sk.subrange(1, 1 + ll) =~= line);
                    lemma_embed_index(b, pos, sk, 1 + ll);
                    assert(sk[1 + ll] == s[1 + ll] && s[1 + ll] == CR);
                    lemma_embed_index(b, pos, sk, 1 + ll + 1);
                    assert(s[1 + ll + 1] == LF);
                    lemma_get_line_exact(b, pos + 1, line);
                    assert(line[0] != MARK_ERROR);
                    assert(spec_parse_int(line) == Some(dl));
                    let p = pos + 3 + ll;
                    assert(p + dl + 2 > b.len());
                }
            }
            FrameV::Array(elts) => {
                let line = dec_nat(elts.len());
                let ll = line.len() as int;
                lemma_dec_nat(elts.len());
                lemma_digits_plain(line);
                if k - 1 <= ll + 1 {
                    assert(sk.subrange(1, k) =~= (line + seq![CR, LF]).subrange(0, k - 1));
                    lemma_embed_sub(b, pos, sk, 1, k);
                    lemma_get_line_partial(b, pos + 1, line, k - 1);
                } else {
                    lemma_embed_sub(b, pos, sk, 1, 1 + ll);
                    assert(sk.subrange(1, 1 + ll) =~= line);
                    lemma_embed_index(b, pos, sk, 1 + ll);
                    assert(s[1 + ll] == CR);
                    lemma_embed_index(b, pos, sk, 1 + ll + 1);
                    assert(s[1 + ll + 1] == LF);
                    lemma_get_line_exact(b, pos + 1, line);
                    assert(line[0] != MARK_ERROR);
                    assert(spec_parse_int(line) == Some(elts.len() as int));
                    let p = pos + 3 + ll;
                    lemma_embed_sub(b, pos, sk, 3 + ll, k);
                    assert(sk.subrange(3 + ll, k) =~= ser_elts(elts, 0).subrange(0, k - 3 - ll));
                    lemma_check_elts_partial(elts, 0, b, p, k - 3 - ll);
                }
            }
            FrameV::NoResponse => {
                assert(false);
            }
        }
    }
}

/// Checking element sequences that the buffer cuts short reports that more
/// data is needed.
pub proof fn lemma_check_elts_partial(elts: Seq<FrameV>, i: int, b: Seq<u8>, pos: int, k: int)
    requires
        0 <= i <= elts.len(),
        forall|q: int| 0 <= q < elts.len() ==> wf_frame(#[trigger] elts[q]),
        0 <= pos,
        0 <= k < ser_elts(elts, i).len(),
        b.len() == pos + k,
        b.subrange(pos, pos + k) == ser_elts(elts, i).subrange(0, k),
    ensures
        spec_check_elts(b, pos, elts.len() - i) == Err::<int, Error>(Error::NoMoreData),
    decreases elts, elts.len() - i, 0int,
{
    assert(i < elts.len());
    let s0 = ser(elts[i]);
    let rest = ser_elts(elts, i + 1);
    let whole = ser_elts(elts, i);
    let wk = whole.subrange(0, k);
    assert(whole == s0 + rest);
    if k < s0.len() {
        assert(wk =~= s0.subrange(0, k));
        lemma_check_partial(elts[i], b, pos, k);
    } else {
        lemma_embed_sub(b, pos, wk, 0, s0.len() as int);
        assert(wk.subrange(0, s0.len() as int) =~= s0);
        assert(b.subrange(pos, pos + s0.len()) == s0);
        lemma_parse_ser(elts[i], b, pos);
        let p = pos + s0.len() as int;
        lemma_embed_sub(b, pos, wk, s0.len() as int, k);
        assert(wk.subrange(s0.len() as int, k) =~= rest.subrange(0, k - s0.len()));
        lemma_check_elts_partial(elts, i + 1, b, p, k - s0.len());
    }
}

/// The buffered-frames law: a buffer holding one complete well-formed
/// frame followed by a strict prefix of a second has the first frame's
/// extent found by `check`, while checking the remainder reports that more
/// data is needed.
pub proof fn lemma_check_complete_then_partial(f: FrameV, g: FrameV, k: int)
    requires
        wf_frame(f),
        wf_frame(g),
        0 <= k < ser(g).len(),
    ensures
        spec_check(ser(f) + ser(g).subrange(0, k), 0) == Ok::<int, Error>(ser(f).len() as int),
        spec_check(ser(f) + ser(g).subrange(0, k), ser(f).len() as int) == Err::<int, Error>(
            Error::NoMoreData,
        ),
{
    let b = ser(f) + ser(g).subrange(0, k);
    assert(b.subrange(0, ser(f).len() as int) =~= ser(f));
    lemma_parse_ser(f, b, 0);
    assert(b.subrange(ser(f).len() as int, b.len() as int) =~= ser(g).subrange(0, k));
    lemma_check_partial(g, b, ser(f).len() as int, k);
}

} // verus!
