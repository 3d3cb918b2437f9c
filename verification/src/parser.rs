//! The parser: a line scanner that locates the CR-LF terminator, and a
//! recursive descent over the tag byte producing a value and the number of
//! bytes consumed. `spec_parse` is the mathematical mirror that the
//! executable functions are proved against.

use crate::numbers::{parse_i64, parse_i64_bytes};
use crate::value::{views_of, ParseError, RespView, RESP};
use crate::wire::{CR, LF, TAG_ARRAY, TAG_BULK, TAG_ERROR, TAG_INTEGER, TAG_SIMPLE};
use vstd::prelude::*;
use vstd::utf8::{decode_utf8, valid_utf8};

verus! {

/// Index of the first CR-LF pair in `s`, if any.
pub open spec fn find_crlf(s: Seq<u8>) -> Option<int>
    decreases s.len(),
{
    if s.len() < 2 {
        None
    } else if s[0] == CR && s[1] == LF {
        Some(0)
    } else {
        match find_crlf(s.drop_first()) {
            None => None,
            Some(i) => Some(i + 1),
        }
    }
}

/// `find_crlf` returns the first CR-LF pair, and `None` only when there is
/// none whose two bytes both lie in `s`.
pub proof fn lemma_find_crlf(s: Seq<u8>)
    ensures
        match find_crlf(s) {
            Some(i) => 0 <= i && i + 2 <= s.len() && s[i] == CR && s[i + 1] == LF && (forall|j: int|
                0 <= j < i ==> !(#[trigger] s[j] == CR && s[j + 1] == LF)),
            None => forall|j: int|
                0 <= j && j + 1 < s.len() ==> !(#[trigger] s[j] == CR && s[j + 1] == LF),
        },
    decreases s.len(),
{
    if s.len() < 2 {
    } else if s[0] == CR && s[1] == LF {
    } else {
        let t = s.drop_first();
        lemma_find_crlf(t);
        assert(forall|j: int| 0 <= j < t.len() ==> #[trigger] t[j] == s[j + 1]);
        match find_crlf(t) {
            None => {
                assert forall|j: int| 0 <= j && j + 1 < s.len() implies !(#[trigger] s[j] == CR
                    && s[j + 1] == LF) by {
                    if j > 0 {
                        assert(t[j - 1] == s[j]);
                        assert(t[j] == s[j + 1]);
                    }
                }
            },
            Some(i) => {
                assert(s[i + 1] == t[i]);
                assert(s[i + 2] == t[i + 1]);
                assert forall|j: int| 0 <= j < i + 1 implies !(#[trigger] s[j] == CR && s[j + 1]
                    == LF) by {
                    if j > 0 {
                        assert(t[j - 1] == s[j]);
                        assert(t[j] == s[j + 1]);
                    }
                }
            },
        }
    }
}

/// One line read from the front of `t`: the bytes consumed (content length
/// plus two for the terminator) and the content bytes, which must be valid
/// UTF-8.
pub open spec fn spec_line(t: Seq<u8>) -> Result<(int, Seq<u8>), ParseError> {
    match find_crlf(t) {
        None => Err(ParseError::CRLFNotFound),
        Some(i) => {
            let line = t.subrange(0, i);
            if valid_utf8(line) {
                Ok((i + 2, line))
            } else {
                Err(ParseError::Utf8Error)
            }
        },
    }
}

/// What parsing one value from the front of `s` yields: the number of bytes
/// consumed and the value, or the first error met. Dispatches on the tag
/// byte; an array parses its elements back to back, left to right.
pub open spec fn spec_parse(s: Seq<u8>) -> Result<(int, RespView), ParseError>
    decreases s.len(), 0int, 0int,
{
    if s.len() == 0 {
        Err(ParseError::CRLFNotFound)
    } else {
        let tag = s[0];
        let t = s.drop_first();
        if tag == TAG_SIMPLE {
            match spec_line(t) {
                Err(e) => Err(e),
                Ok((n, line)) => Ok((1 + n, RespView::SimpleString(decode_utf8(line)))),
            }
        } else if tag == TAG_ERROR {
            match spec_line(t) {
                Err(e) => Err(e),
                Ok((n, line)) => Ok((1 + n, RespView::Error(decode_utf8(line)))),
            }
        } else if tag == TAG_INTEGER {
            match spec_line(t) {
                Err(e) => Err(e),
                Ok((n, line)) => match parse_i64(line) {
                    None => Err(ParseError::ParseIntError),
                    Some(i) => Ok((1 + n, RespView::Integer(i))),
                },
            }
        } else if tag == TAG_BULK {
            match spec_line(t) {
                Err(e) => Err(e),
                Ok((n, line)) => match parse_i64(line) {
                    None => Err(ParseError::ParseIntError),
                    Some(len) => if len < 0 {
                        Ok((1 + n, RespView::NullBulkString))
                    } else if 1 + n + len + 2 > s.len() {
                        Err(ParseError::CRLFNotFound)
                    } else {
                        let payload = s.subrange(1 + n, 1 + n + len);
                        if valid_utf8(payload) {
                            Ok((1 + n + len + 2, RespView::BulkString(decode_utf8(payload))))
                        } else {
                            Err(ParseError::Utf8Error)
                        }
                    },
                },
            }
        } else if tag == TAG_ARRAY {
            match spec_line(t) {
                Err(e) => Err(e),
                Ok((n, line)) => match parse_i64(line) {
                    None => Err(ParseError::ParseIntError),
                    Some(len) => if len < 0 {
                        Ok((1 + n, RespView::NullArray))
                    } else if !(1 <= n && 1 + n <= s.len()) {
                        // a found line always lies inside the buffer, so this
                        // branch is never taken; it keeps the recursion well
                        // founded
                        Err(ParseError::CRLFNotFound)
                    } else {
                        match spec_parse_elems(s.skip(1 + n), len as nat) {
                            Err(e) => Err(e),
                            Ok((m, elems)) => Ok((1 + n + m, RespView::Array(elems))),
                        }
                    },
                },
            }
        } else {
            Err(ParseError::UnknownByte(tag))
        }
    }
}

/// What parsing `k` values back to back from the front of `s` yields: the
/// total bytes consumed and the values in order, or the first error met.
pub open spec fn spec_parse_elems(s: Seq<u8>, k: nat) -> Result<
    (int, Seq<RespView>),
    ParseError,
>
    decreases s.len(), 1int, k,
{
    if k == 0 {
        Ok((0, Seq::empty()))
    } else {
        match spec_parse(s) {
            Err(e) => Err(e),
            Ok((c, v)) => {
                if 1 <= c <= s.len() {
                    match spec_parse_elems(s.skip(c), (k - 1) as nat) {
                        Err(e) => Err(e),
                        Ok((m, vs)) => Ok((c + m, seq![v] + vs)),
                    }
                } else {
                    // a successful parse always consumes at least one byte
                    // and never more than the buffer holds, so this branch is
                    // never taken; it keeps the recursion well founded
                    Err(ParseError::CRLFNotFound)
                }
            },
        }
    }
}

/// Relies on `String::from_utf8`: it succeeds exactly on valid UTF-8 and
/// returns the string whose characters are the decoding of the given bytes.
#[verifier::external_body]
fn bytes_to_string(v: Vec<u8>) -> (r: Option<String>)
    ensures
        match r {
            Some(s) => valid_utf8(v@) && s@ == decode_utf8(v@),
            None => !valid_utf8(v@),
        },
{
    String::from_utf8(v).ok()
}

/// Scans forward from `offset` for the CR-LF terminator and returns the
/// bytes consumed (content length plus two) with the content as validated
/// text, exactly as `spec_line` describes on the buffer's tail.
#[verifier::loop_isolation(false)]
fn read_line(buf: &[u8], offset: usize) -> (r: Result<(usize, String), ParseError>)
    requires
        offset <= buf@.len(),
    ensures
        match r {
            Ok((n, s)) => spec_line(buf@.skip(offset as int)) matches Ok((sn, line)) && sn
                == n as int && valid_utf8(line) && s@ == decode_utf8(line) && 2 <= n && offset + n
                <= buf@.len(),
            Err(e) => spec_line(buf@.skip(offset as int)) == Err::<(int, Seq<u8>), ParseError>(e),
        },
{
    let ghost sfx = buf@.skip(offset as int);
    proof {
        lemma_find_crlf(sfx);
    }
    let mut cur: usize = 0;
    loop
        invariant
            offset + cur <= buf@.len(),
            forall|j: int| 0 <= j < cur ==> !(#[trigger] sfx[j] == CR && sfx[j + 1] == LF),
        decreases buf@.len() - offset - cur,
    {
        if buf.len() - offset - cur < 2 {
            proof {
                assert(find_crlf(sfx) is None) by {
                    match find_crlf(sfx) {
                        None => {},
                        Some(i) => {
                            assert(!(sfx[i] == CR && sfx[i + 1] == LF));
                        },
                    }
                }
            }
            return Err(ParseError::CRLFNotFound);
        }
        if buf[offset + cur] == CR && buf[offset + cur + 1] == LF {
            proof {
                assert(sfx[cur as int] == buf@[offset + cur]);
                assert(sfx[cur + 1] == buf@[offset + cur + 1]);
                assert(find_crlf(sfx) == Some(cur as int)) by {
                    match find_crlf(sfx) {
                        None => {
                            assert(!(sfx[cur as int] == CR && sfx[cur + 1] == LF));
                        },
                        Some(i) => {
                            if i < cur {
                                assert(!(sfx[i] == CR && sfx[i + 1] == LF));
                            }
                            if i > cur {
                                assert(!(sfx[cur as int] == CR && sfx[cur + 1] == LF));
                            }
                        },
                    }
                }
            }
            let line_slice = vstd::slice::slice_subrange(buf, offset, offset + cur);
            let line_vec = vstd::slice::slice_to_vec(line_slice);
            proof {
                assert(line_vec@ =~= sfx.subrange(0, cur as int));
            }
            match bytes_to_string(line_vec) {
                Some(s) => {
                    return Ok((cur + 2, s));
                },
                None => {
                    return Err(ParseError::Utf8Error);
                },
            }
        }
        cur += 1;
    }
}

/// Parses one value starting at `offset`, exactly as `spec_parse` describes
/// on the buffer's tail.
#[verifier::loop_isolation(false)]
#[verifier::rlimit(100)]
fn parse_offset(buf: &[u8], offset: usize) -> (r: Result<(usize, RESP), ParseError>)
    requires
        offset <= buf@.len(),
    ensures
        match r {
            Ok((n, v)) => spec_parse(buf@.skip(offset as int)) == Ok::<_, ParseError>(
                (n as int, v@),
            ) && 1 <= n && offset + n <= buf@.len(),
            Err(e) => spec_parse(buf@.skip(offset as int)) == Err::<(int, RespView), _>(e),
        },
    decreases buf@.len() - offset,
{
    let ghost s = buf@.skip(offset as int);
    if offset == buf.len() {
        return Err(ParseError::CRLFNotFound);
    }
    let tag = buf[offset];
    proof {
        assert(s[0] == tag);
        assert(s.drop_first() =~= buf@.skip(offset + 1));
    }
    if tag == TAG_SIMPLE {
        match read_line(buf, offset + 1) {
            Err(e) => Err(e),
            Ok((n, text)) => Ok((1 + n, RESP::SimpleString(text))),
        }
    } else if tag == TAG_ERROR {
        match read_line(buf, offset + 1) {
            Err(e) => Err(e),
            Ok((n, text)) => Ok((1 + n, RESP::Error(text))),
        }
    } else if tag == TAG_INTEGER {
        match read_line(buf, offset + 1) {
            Err(e) => Err(e),
            Ok((n, text)) => {
                let line_bytes = crate::value::text_bytes(&text);
                proof {
                    lemma_line_bytes(buf@.skip(offset + 1), n as int, text@, line_bytes@);
                }
                match parse_i64_bytes(&line_bytes) {
                    None => Err(ParseError::ParseIntError),
                    Some(i) => Ok((1 + n, RESP::Integer(i))),
                }
            },
        }
    } else if tag == TAG_BULK {
        match read_line(buf, offset + 1) {
            Err(e) => Err(e),
            Ok((n, text)) => {
                let line_bytes = crate::value::text_bytes(&text);
                proof {
                    lemma_line_bytes(buf@.skip(offset + 1), n as int, text@, line_bytes@);
                }
                match parse_i64_bytes(&line_bytes) {
                    None => Err(ParseError::ParseIntError),
                    Some(len) => {
                        if len < 0 {
                            Ok((1 + n, RESP::NullBulkString))
                        } else {
                            let start = offset + 1 + n;
                            let rem = buf.len() - start;
                            if rem < 2 || len as u64 > (rem - 2) as u64 {
                                proof {
                                    assert(1 + n + len + 2 > s.len());
                                }
                                Err(ParseError::CRLFNotFound)
                            } else {
                                let len_us = len as usize;
                                let payload_slice = vstd::slice::slice_subrange(
                                    buf,
                                    start,
                                    start + len_us,
                                );
                                let payload = vstd::slice::slice_to_vec(payload_slice);
                                proof {
                                    assert(payload@ =~= s.subrange(1 + n, 1 + n + len));
                                }
                                match bytes_to_string(payload) {
                                    Some(text2) => Ok((1 + n + len_us + 2, RESP::BulkString(text2))),
                                    None => Err(ParseError::Utf8Error),
                                }
                            }
                        }
                    },
                }
            },
        }
    } else if tag == TAG_ARRAY {
        match read_line(buf, offset + 1) {
            Err(e) => Err(e),
            Ok((n, text)) => {
                let line_bytes = crate::value::text_bytes(&text);
                proof {
                    lemma_line_bytes(buf@.skip(offset + 1), n as int, text@, line_bytes@);
                }
                match parse_i64_bytes(&line_bytes) {
                    None => Err(ParseError::ParseIntError),
                    Some(len) => {
                        if len < 0 {
                            Ok((1 + n, RESP::NullArray))
                        } else {
                            let ghost t = s.skip(1 + n);
                            let mut elems: Vec<RESP> = Vec::new();
                            let mut consumed: usize = 0;
                            let mut idx: i64 = 0;
                            proof {
                                assert(views_of(elems@, 0) == Seq::<RespView>::empty());
                                assert(t.skip(0) =~= t);
                                assert(views_of(elems@, 0) + Seq::<RespView>::empty() =~= Seq::<
                                    RespView,
                                >::empty());
                            }
                            while idx < len
                                invariant
                                    0 <= idx <= len,
                                    elems@.len() == idx as int,
                                    offset + 1 + n + consumed <= buf@.len(),
                                    spec_parse_elems(t, len as nat) == (match spec_parse_elems(
                                        t.skip(consumed as int),
                                        (len - idx) as nat,
                                    ) {
                                        Err(e) => Err::<(int, Seq<RespView>), ParseError>(e),
                                        Ok((m2, vs2)) => Ok(
                                            (consumed + m2, views_of(elems@, 0) + vs2),
                                        ),
                                    }),
                                decreases len - idx,
                            {
                                let ghost elems0 = elems@;
                                let ghost consumed0 = consumed as int;
                                match parse_offset(buf, offset + 1 + n + consumed) {
                                    Err(e) => {
                                        proof {
                                            assert(t.skip(consumed as int) =~= buf@.skip(
                                                offset + 1 + n + consumed,
                                            ));
                                        }
                                        return Err(e);
                                    },
                                    Ok((c, child)) => {
                                        proof {
                                            assert(t.skip(consumed0) =~= buf@.skip(
                                                offset + 1 + n + consumed,
                                            ));
                                            assert(t.skip(consumed0).skip(c as int) =~= t.skip(
                                                consumed0 + c,
                                            ));
                                            crate::value::lemma_views_of_push(
                                                elems0,
                                                child,
                                                0,
                                            );
                                            assert forall|vs2: Seq<RespView>|
                                                true implies views_of(elems0, 0) + (seq![child@]
                                                + vs2) == views_of(elems0.push(child), 0)
                                                + vs2 by {
                                                assert(views_of(elems0, 0) + (seq![child@] + vs2)
                                                    =~= (views_of(elems0, 0) + seq![child@])
                                                    + vs2);
                                            }
                                        }
                                        elems.push(child);
                                        consumed = consumed + c;
                                        idx = idx + 1;
                                    },
                                }
                            }
                            proof {
                                assert(spec_parse_elems(t.skip(consumed as int), 0) == Ok::<
                                    _,
                                    ParseError,
                                >((0int, Seq::<RespView>::empty())));
                                assert(views_of(elems@, 0) + Seq::<RespView>::empty() =~= views_of(
                                    elems@,
                                    0,
                                ));
                            }
                            Ok((1 + n + consumed, RESP::Array(elems)))
                        }
                    },
                }
            },
        }
    } else {
        Err(ParseError::UnknownByte(tag))
    }
}

/// A line read back from its own validated bytes is those bytes again.
proof fn lemma_line_bytes(t: Seq<u8>, n: int, chars: Seq<char>, bytes: Seq<u8>)
    requires
        spec_line(t) matches Ok((sn, line)) && sn == n && valid_utf8(line) && chars == decode_utf8(
            line,
        ),
        bytes == vstd::utf8::encode_utf8(chars),
    ensures
        spec_line(t) == Ok::<_, ParseError>((n, bytes)),
{
    let line = spec_line(t)->Ok_0.1;
    vstd::utf8::decode_utf8_encode_utf8(line);
}

/// Parses one value from the front of `buf`, returning the number of bytes
/// consumed, exactly as `spec_parse` describes.
pub fn parse(buf: &[u8]) -> (r: Result<(usize, RESP), ParseError>)
    ensures
        match r {
            Ok((n, v)) => spec_parse(buf@) == Ok::<_, ParseError>((n as int, v@)) && 1 <= n
                <= buf@.len(),
            Err(e) => spec_parse(buf@) == Err::<(int, RespView), _>(e),
        },
{
    proof {
        assert(buf@.skip(0) =~= buf@);
    }
    parse_offset(buf, 0)
}

} // verus!
