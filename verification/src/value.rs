//! The value model: the tagged union of the five RESP2 value kinds and their
//! two null variants, its mathematical view, and the validity predicate that
//! the round-trip law is stated over.

use crate::wire::{crlf_free, CR};
use vstd::prelude::*;
use vstd::utf8::encode_utf8;

verus! {

broadcast use vstd::std_specs::vec::group_vec_axioms;

/// A RESP2 value. Text payloads are owned UTF-8 strings; an array owns its
/// elements, which may themselves be arrays of arbitrary nesting depth.
#[derive(Debug, PartialEq)]
pub enum RESP {
    SimpleString(String),
    Error(String),
    Integer(i64),
    BulkString(String),
    NullBulkString,
    Array(Vec<RESP>),
    NullArray,
}

/// The mathematical model of a `RESP` value: texts as character sequences,
/// integers unbounded, arrays as sequences of models.
#[verifier::ext_equal]
pub enum RespView {
    SimpleString(Seq<char>),
    Error(Seq<char>),
    Integer(int),
    BulkString(Seq<char>),
    NullBulkString,
    Array(Seq<RespView>),
    NullArray,
}

impl View for RESP {
    type V = RespView;

    open spec fn view(&self) -> RespView
        decreases self, 1int,
    {
        match self {
            RESP::SimpleString(s) => RespView::SimpleString(s@),
            RESP::Error(s) => RespView::Error(s@),
            RESP::Integer(i) => RespView::Integer(*i as int),
            RESP::BulkString(s) => RespView::BulkString(s@),
            RESP::NullBulkString => RespView::NullBulkString,
            RESP::Array(arr) => RespView::Array(views_of(arr@, 0)),
            RESP::NullArray => RespView::NullArray,
        }
    }
}

/// The views of the elements of `s` from index `i` on, in order.
pub open spec fn views_of(s: Seq<RESP>, i: int) -> Seq<RespView>
    decreases s, 0int, s.len() - i,
{
    if i < 0 || i >= s.len() {
        Seq::empty()
    } else {
        seq![s[i]@] + views_of(s, i + 1)
    }
}

/// `views_of` maps indices one for one.
pub proof fn lemma_views_of(s: Seq<RESP>, i: int)
    requires
        0 <= i <= s.len(),
    ensures
        views_of(s, i).len() == s.len() - i,
        forall|j: int| 0 <= j < s.len() - i ==> #[trigger] views_of(s, i)[j] == s[i + j]@,
    decreases s.len() - i,
{
    if i < s.len() {
        assert(views_of(s, i) == seq![s[i]@] + views_of(s, i + 1));
        lemma_views_of(s, i + 1);
    } else {
        assert(views_of(s, i) == Seq::<RespView>::empty());
    }
}

/// Appending an element appends its view.
pub proof fn lemma_views_of_push(s: Seq<RESP>, x: RESP, i: int)
    requires
        0 <= i <= s.len(),
    ensures
        views_of(s.push(x), i) == views_of(s, i) + seq![x@],
    decreases s.len() - i,
{
    let s2 = s.push(x);
    if i == s.len() {
        assert(s2[i] == x);
        assert(views_of(s2, i) == seq![s2[i]@] + views_of(s2, i + 1));
        assert(views_of(s2, i + 1) == Seq::<RespView>::empty());
        assert(views_of(s, i) == Seq::<RespView>::empty());
        assert(views_of(s2, i) =~= seq![x@]);
        assert(views_of(s, i) + seq![x@] =~= seq![x@]);
    } else {
        lemma_views_of_push(s, x, i + 1);
        assert(s2[i] == s[i]);
        assert(views_of(s2, i) == seq![s2[i]@] + views_of(s2, i + 1));
        assert(views_of(s, i) == seq![s[i]@] + views_of(s, i + 1));
        assert(seq![s[i]@] + (views_of(s, i + 1) + seq![x@]) =~= (seq![s[i]@] + views_of(s, i + 1))
            + seq![x@]);
    }
}

/// Text fit for a line reply: it contains neither carriage return nor line
/// feed, so its encoding cannot hold the line terminator.
pub open spec fn line_text(s: Seq<char>) -> bool {
    forall|i: int| 0 <= i < s.len() ==> #[trigger] s[i] != '\r' && s[i] != '\n'
}

/// A value whose encoding parses back to the value itself: simple-string and
/// error text may not contain CR or LF, and lengths must fit in a signed
/// 64-bit length field.
pub open spec fn valid_resp(v: RespView) -> bool
    decreases v,
{
    match v {
        RespView::SimpleString(s) => line_text(s),
        RespView::Error(s) => line_text(s),
        RespView::Integer(i) => i64::MIN <= i <= i64::MAX,
        RespView::BulkString(s) => encode_utf8(s).len() <= i64::MAX,
        RespView::NullBulkString => true,
        RespView::Array(elems) => elems.len() <= i64::MAX && (forall|i: int|
            0 <= i < elems.len() ==> valid_resp(#[trigger] elems[i])),
        RespView::NullArray => true,
    }
}

/// A character other than the one `b` spells encodes to bytes among which
/// `b` does not appear: an ASCII byte occurs only as the encoding of its own
/// character, and the bytes of wider encodings all have the high bit set.
proof fn lemma_encode_scalar_avoids_byte(c: char, b: u8)
    requires
        b < 128,
        c as u32 != b as u32,
    ensures
        forall|k: int|
            0 <= k < vstd::utf8::encode_scalar(c as u32).len() ==> #[trigger] vstd::utf8::encode_scalar(
                c as u32,
            )[k] != b,
{
    vstd::utf8::char_is_scalar(c);
    let v = c as u32;
    if vstd::utf8::has_width_1_encoding(v) {
        assert((v & 0x7F) as u8 != b) by (bit_vector)
            requires
                v <= 0x7F && v != b as u32 && b < 128,
        ;
    } else {
        assert((0xC0 | ((v >> 6) & 0x1F) as u8) >= 128) by (bit_vector);
        assert((0xE0 | ((v >> 12) & 0x0F) as u8) >= 128) by (bit_vector);
        assert((0xF0 | ((v >> 18) & 0x7) as u8) >= 128) by (bit_vector);
        assert((0x80 | (v & 0x3F) as u8) >= 128) by (bit_vector);
        assert((0x80 | ((v >> 6) & 0x3F) as u8) >= 128) by (bit_vector);
        assert((0x80 | ((v >> 12) & 0x3F) as u8) >= 128) by (bit_vector);
    }
}

/// A text that avoids a character avoids that character's ASCII byte in its
/// encoding.
proof fn lemma_encode_utf8_avoids_byte(s: Seq<char>, b: u8)
    requires
        b < 128,
        forall|i: int| 0 <= i < s.len() ==> #[trigger] (s[i] as u32) != b as u32,
    ensures
        forall|k: int| 0 <= k < encode_utf8(s).len() ==> #[trigger] encode_utf8(s)[k] != b,
    decreases s.len(),
{
    if s.len() > 0 {
        let head = vstd::utf8::encode_scalar(s[0] as u32);
        let tail = encode_utf8(s.drop_first());
        assert(s[0] as u32 != b as u32);
        lemma_encode_scalar_avoids_byte(s[0], b);
        assert(forall|i: int|
            0 <= i < s.drop_first().len() ==> #[trigger] (s.drop_first()[i] as u32) != b as u32);
        lemma_encode_utf8_avoids_byte(s.drop_first(), b);
        assert(encode_utf8(s) == head + tail);
        assert forall|k: int| 0 <= k < encode_utf8(s).len() implies #[trigger] encode_utf8(s)[k]
            != b by {
            if k < head.len() {
                assert(encode_utf8(s)[k] == head[k]);
            } else {
                assert(encode_utf8(s)[k] == tail[k - head.len()]);
            }
        }
    }
}

/// Line-fit text encodes to bytes that hold no CR at all, so the scanner
/// cannot find a terminator inside them.
pub proof fn lemma_line_text_crlf_free(s: Seq<char>)
    requires
        line_text(s),
    ensures
        crlf_free(encode_utf8(s)),
{
    assert forall|i: int| 0 <= i < s.len() implies #[trigger] (s[i] as u32) != CR as u32 by {
        assert(s[i] != '\r');
        vstd::utf8::char_u32_cast('\r', '\r' as u32);
        vstd::utf8::char_u32_cast(s[i], s[i] as u32);
        assert('\r' as u32 == 13);
    }
    lemma_encode_utf8_avoids_byte(s, CR);
}

/// The UTF-8 bytes of a text payload, as `str::as_bytes` gives them.
pub(crate) fn text_bytes(text: &String) -> (r: Vec<u8>)
    ensures
        r@ == encode_utf8(text@),
{
    vstd::string::StrSliceExecFns::as_bytes_vec(text.as_str())
}

/// Everything that can go wrong while parsing.
#[derive(Debug, PartialEq, Eq, Structural)]
pub enum ParseError {
    /// The first byte of a value is none of the five recognized tags.
    UnknownByte(u8),
    /// A line was expected but no CR-LF terminator was found before the
    /// buffer ran out.
    CRLFNotFound,
    /// Bytes that were supposed to be text are not valid UTF-8.
    Utf8Error,
    /// A length or integer field is not a base-10 signed 64-bit integer.
    ParseIntError,
}

/// Everything that can go wrong while encoding.
#[derive(Debug, PartialEq, Eq, Structural)]
pub enum DumpError {
    /// The destination buffer is too small for the encoding.
    BufferTooSmall,
}

} // verus!
