//! The law the codec obeys: parsing the canonical encoding of a valid value
//! yields that value back and consumes exactly the encoding. Together with
//! the contracts of `dump` (the buffer's front holds `encoding(v)`) and
//! `parse` (the result is `spec_parse` of the buffer), this is the round
//! trip: dump a valid value, parse what was written, and the value and the
//! byte count come back unchanged.

use crate::encoder::{encoding, encodings_of};
use crate::numbers::{dec_digits, dec_int, lemma_dec_int_text, parse_i64};
use crate::parser::{find_crlf, spec_line, spec_parse, spec_parse_elems};
use crate::value::{valid_resp, ParseError, RespView};
use crate::wire::{crlf, crlf_free, CR, LF, TAG_ARRAY, TAG_BULK, TAG_ERROR, TAG_INTEGER, TAG_SIMPLE};
use vstd::prelude::*;
use vstd::utf8::{encode_utf8, valid_utf8};

verus! {

/// Scanning a terminator-free line followed by the terminator finds the
/// terminator exactly at the line's end, whatever follows.
proof fn lemma_find_crlf_at(b: Seq<u8>, rest: Seq<u8>)
    requires
        crlf_free(b),
    ensures
        find_crlf(b + crlf() + rest) == Some(b.len() as int),
    decreases b.len(),
{
    let s = b + crlf() + rest;
    assert(s.len() >= 2);
    if b.len() == 0 {
        assert(s[0] == CR && s[1] == LF);
    } else {
        if b.len() == 1 {
            assert(s[1] == CR);
        } else {
            assert(s[0] == b[0] && s[1] == b[1]);
            assert(!(b[0] == CR && b[1] == LF));
        }
        assert(!(s[0] == CR && s[1] == LF));
        let b2 = b.drop_first();
        assert forall|k: int| 0 <= k && k + 1 < b2.len() implies !(#[trigger] b2[k] == CR && b2[k
            + 1] == LF) by {
            assert(b2[k] == b[k + 1]);
            assert(b2[k + 1] == b[k + 2]);
        }
        lemma_find_crlf_at(b2, rest);
        assert(s.drop_first() =~= b2 + crlf() + rest);
    }
}

/// Reading a line off a clean content followed by the terminator returns the
/// content and consumes it together with the terminator.
proof fn lemma_spec_line_at(b: Seq<u8>, rest: Seq<u8>)
    requires
        crlf_free(b),
        valid_utf8(b),
    ensures
        spec_line(b + crlf() + rest) == Ok::<_, ParseError>((b.len() as int + 2, b)),
{
    lemma_find_crlf_at(b, rest);
    assert((b + crlf() + rest).subrange(0, b.len() as int) =~= b);
}

/// Parsing the canonical encoding of a valid value, whatever follows it,
/// consumes exactly the encoding and yields the value unchanged.
pub proof fn lemma_parse_of_encoding(v: RespView, rest: Seq<u8>)
    requires
        valid_resp(v),
    ensures
        encoding(v).len() >= 1,
        spec_parse(encoding(v) + rest) == Ok::<(int, RespView), ParseError>(
            (encoding(v).len() as int, v),
        ),
    decreases v, 0int, 0int,
{
    let enc = encoding(v);
    let s = enc + rest;
    match v {
        RespView::SimpleString(text) => {
            let b = encode_utf8(text);
            crate::value::lemma_line_text_crlf_free(text);
            vstd::utf8::encode_utf8_valid_utf8(text);
            vstd::utf8::encode_utf8_decode_utf8(text);
            assert(s[0] == TAG_SIMPLE);
            assert(s.drop_first() =~= b + crlf() + rest);
            lemma_spec_line_at(b, rest);
        },
        RespView::Error(text) => {
            let b = encode_utf8(text);
            crate::value::lemma_line_text_crlf_free(text);
            vstd::utf8::encode_utf8_valid_utf8(text);
            vstd::utf8::encode_utf8_decode_utf8(text);
            assert(s[0] == TAG_ERROR);
            assert(s.drop_first() =~= b + crlf() + rest);
            lemma_spec_line_at(b, rest);
        },
        RespView::Integer(i) => {
            let d = dec_int(i);
            lemma_dec_int_text(i);
            assert(s[0] == TAG_INTEGER);
            assert(s.drop_first() =~= d + crlf() + rest);
            lemma_spec_line_at(d, rest);
        },
        RespView::BulkString(text) => {
            let b = encode_utf8(text);
            let d = dec_digits(b.len());
            vstd::utf8::encode_utf8_valid_utf8(text);
            vstd::utf8::encode_utf8_decode_utf8(text);
            lemma_dec_int_text(b.len() as int);
            assert(dec_int(b.len() as int) == d);
            assert(s[0] == TAG_BULK);
            let tail = b + crlf() + rest;
            assert(s.drop_first() =~= d + crlf() + tail);
            lemma_spec_line_at(d, tail);
            let n = d.len() + 2;
            assert(parse_i64(d) == Some(b.len() as int));
            assert(1 + n + b.len() + 2 == enc.len());
            assert(s.subrange(1 + n as int, 1 + (n as int) + (b.len() as int)) =~= b);
        },
        RespView::NullBulkString => {
            let d = dec_int(-1);
            lemma_dec_int_text(-1);
            assert(s[0] == TAG_BULK);
            assert(s.drop_first() =~= d + crlf() + rest);
            lemma_spec_line_at(d, rest);
        },
        RespView::Array(elems) => {
            let d = dec_digits(elems.len());
            lemma_dec_int_text(elems.len() as int);
            assert(dec_int(elems.len() as int) == d);
            assert(s[0] == TAG_ARRAY);
            let body = encodings_of(elems, 0) + rest;
            assert(s.drop_first() =~= d + crlf() + body);
            lemma_spec_line_at(d, rest);
            lemma_spec_line_at(d, body);
            let n = d.len() + 2;
            assert(parse_i64(d) == Some(elems.len() as int));
            assert(s.skip(1 + n as int) =~= body);
            lemma_parse_elems_of_encodings(elems, 0, rest);
            assert(elems.skip(0) =~= elems);
            assert(1 + n + encodings_of(elems, 0).len() == enc.len());
        },
        RespView::NullArray => {
            let d = dec_int(-1);
            lemma_dec_int_text(-1);
            assert(s[0] == TAG_ARRAY);
            assert(s.drop_first() =~= d + crlf() + rest);
            lemma_spec_line_at(d, rest);
        },
    }
}

/// Parsing the back-to-back encodings of the elements from `i` on, whatever
/// follows them, consumes exactly those encodings and yields the elements in
/// order.
proof fn lemma_parse_elems_of_encodings(elems: Seq<RespView>, i: int, rest: Seq<u8>)
    requires
        0 <= i <= elems.len(),
        forall|j: int| 0 <= j < elems.len() ==> valid_resp(#[trigger] elems[j]),
    ensures
        spec_parse_elems(encodings_of(elems, i) + rest, (elems.len() - i) as nat) == Ok::<
            (int, Seq<RespView>),
            ParseError,
        >((encodings_of(elems, i).len() as int, elems.skip(i))),
    decreases elems, 1int, elems.len() - i,
{
    let t = encodings_of(elems, i) + rest;
    if i == elems.len() {
        assert(encodings_of(elems, i) == Seq::<u8>::empty());
        assert(t =~= rest);
        assert(elems.skip(i) =~= Seq::<RespView>::empty());
    } else {
        let child = elems[i];
        let tail = encodings_of(elems, i + 1) + rest;
        assert(t =~= encoding(child) + tail);
        lemma_parse_of_encoding(child, tail);
        let c = encoding(child).len() as int;
        assert(spec_parse(t) == Ok::<(int, RespView), ParseError>((c, child)));
        assert(1 <= c <= t.len());
        assert(t.skip(c) =~= tail);
        lemma_parse_elems_of_encodings(elems, i + 1, rest);
        assert(seq![child] + elems.skip(i + 1) =~= elems.skip(i));
    }
}

/// Round trip: after a successful `dump` of a valid value, parsing exactly
/// the bytes that were written yields the byte count and the value's model
/// unchanged.
pub proof fn lemma_dump_parse_round_trip(v: RespView)
    requires
        valid_resp(v),
    ensures
        spec_parse(encoding(v)) == Ok::<(int, RespView), ParseError>(
            (encoding(v).len() as int, v),
        ),
{
    lemma_parse_of_encoding(v, Seq::empty());
    assert(encoding(v) + Seq::<u8>::empty() =~= encoding(v));
}

} // verus!
