//! The encoder: a bounds-checked byte writer and a recursive descent over a
//! value producing its canonical byte encoding. `encoding` is the
//! mathematical mirror that the executable functions are proved against.

use crate::numbers::{dec_digits, dec_int, i64_to_dec, u64_to_dec};
use crate::value::{text_bytes, views_of, DumpError, RespView, RESP};
use crate::wire::{crlf, CR, LF, TAG_ARRAY, TAG_BULK, TAG_ERROR, TAG_INTEGER, TAG_SIMPLE};
use vstd::prelude::*;
use vstd::utf8::encode_utf8;

verus! {

broadcast use vstd::std_specs::vec::group_vec_axioms;

/// The canonical byte encoding of a value.
pub open spec fn encoding(v: RespView) -> Seq<u8>
    decreases v, 0int, 0int,
{
    match v {
        RespView::SimpleString(s) => seq![TAG_SIMPLE] + encode_utf8(s) + crlf(),
        RespView::Error(s) => seq![TAG_ERROR] + encode_utf8(s) + crlf(),
        RespView::Integer(i) => seq![TAG_INTEGER] + dec_int(i) + crlf(),
        RespView::BulkString(s) => seq![TAG_BULK] + dec_digits(encode_utf8(s).len()) + crlf()
            + encode_utf8(s) + crlf(),
        RespView::NullBulkString => seq![TAG_BULK] + dec_int(-1) + crlf(),
        RespView::Array(elems) => seq![TAG_ARRAY] + dec_digits(elems.len()) + crlf()
            + encodings_of(elems, 0),
        RespView::NullArray => seq![TAG_ARRAY] + dec_int(-1) + crlf(),
    }
}

/// The encodings of the elements of `elems` from index `i` on, back to back.
pub open spec fn encodings_of(elems: Seq<RespView>, i: int) -> Seq<u8>
    decreases elems, 1int, elems.len() - i,
{
    if i < 0 || i >= elems.len() {
        Seq::empty()
    } else {
        encoding(elems[i]) + encodings_of(elems, i + 1)
    }
}

/// Writes one byte at `offset`, failing without a write when `buf` is full.
fn write_byte(buf: &mut Vec<u8>, offset: usize, b: u8) -> (r: Result<usize, DumpError>)
    requires
        offset <= old(buf)@.len(),
    ensures
        final(buf)@.len() == old(buf)@.len(),
        match r {
            Ok(n) => n == 1 && offset + 1 <= final(buf)@.len() && final(buf)@ == old(buf)@.take(offset as int)
                + seq![b] + old(buf)@.skip(offset + 1),
            Err(e) => e == DumpError::BufferTooSmall && offset + 1 > final(buf)@.len() && final(buf)@ == old(
                buf,
            )@,
        },
{
    if buf.len() - offset < 1 {
        return Err(DumpError::BufferTooSmall);
    }
    buf[offset] = b;
    proof {
        assert(buf@ =~= old(buf)@.take(offset as int) + seq![b] + old(buf)@.skip(offset + 1));
    }
    Ok(1)
}

/// Copies `bytes` into `buf` at `offset`, failing without any write when the
/// remaining capacity is too small.
#[verifier::loop_isolation(false)]
fn write_bytes(buf: &mut Vec<u8>, offset: usize, bytes: &Vec<u8>) -> (r: Result<usize, DumpError>)
    requires
        offset <= old(buf)@.len(),
    ensures
        final(buf)@.len() == old(buf)@.len(),
        match r {
            Ok(n) => n == bytes@.len() && offset + n <= final(buf)@.len() && final(buf)@ == old(buf)@.take(
                offset as int,
            ) + bytes@ + old(buf)@.skip(offset + n),
            Err(e) => e == DumpError::BufferTooSmall && offset + bytes@.len() > final(buf)@.len() && final(buf)@
                == old(buf)@,
        },
{
    let m = bytes.len();
    if m > buf.len() - offset {
        return Err(DumpError::BufferTooSmall);
    }
    let mut j: usize = 0;
    while j < m
        invariant
            j <= m,
            offset + m <= buf@.len(),
            buf@.len() == old(buf)@.len(),
            buf@ == old(buf)@.take(offset as int) + bytes@.take(j as int) + old(buf)@.skip(
                offset + j,
            ),
        decreases m - j,
    {
        buf[offset + j] = bytes[j];
        proof {
            assert(buf@ =~= old(buf)@.take(offset as int) + bytes@.take(j + 1) + old(buf)@.skip(
                offset + j + 1,
            ));
        }
        j += 1;
    }
    proof {
        assert(bytes@.take(m as int) =~= bytes@);
    }
    Ok(m)
}

/// Writes a tag byte, a line's content, and the terminator; fails exactly
/// when the three do not fit at `offset`.
fn write_line(buf: &mut Vec<u8>, offset: usize, kind: u8, bytes: &Vec<u8>) -> (r: Result<
    usize,
    DumpError,
>)
    requires
        offset <= old(buf)@.len(),
    ensures
        final(buf)@.len() == old(buf)@.len(),
        match r {
            Ok(n) => n == 1 + bytes@.len() + 2 && offset + n <= final(buf)@.len() && final(buf)@ == old(
                buf,
            )@.take(offset as int) + (seq![kind] + bytes@ + crlf()) + old(buf)@.skip(offset + n),
            Err(e) => e == DumpError::BufferTooSmall && offset + 1 + bytes@.len() + 2
                > final(buf)@.len(),
        },
{
    let ghost orig = buf@;
    proof {
        // the buffer's length is a usize, so offsets within it cannot overflow
        assert(buf.len() == buf@.len());
    }
    let n1 = match write_byte(buf, offset, kind) {
        Err(e) => {
            return Err(e);
        },
        Ok(c) => c,
    };
    let n2 = match write_bytes(buf, offset + n1, bytes) {
        Err(e) => {
            return Err(e);
        },
        Ok(c) => c,
    };
    proof {
        assert(buf@ =~= orig.take(offset as int) + (seq![kind] + bytes@) + orig.skip(
            offset + 1 + n2,
        ));
    }
    match write_byte(buf, offset + n1 + n2, CR) {
        Err(e) => {
            return Err(e);
        },
        Ok(_) => {},
    };
    proof {
        assert(buf@ =~= orig.take(offset as int) + (seq![kind] + bytes@ + seq![CR]) + orig.skip(
            offset + 1 + n2 + 1,
        ));
    }
    match write_byte(buf, offset + n1 + n2 + 1, LF) {
        Err(e) => {
            return Err(e);
        },
        Ok(_) => {},
    };
    proof {
        assert(buf@ =~= orig.take(offset as int) + (seq![kind] + bytes@ + crlf()) + orig.skip(
            offset + 1 + n2 + 2,
        ));
    }
    Ok(1 + n2 + 2)
}

/// Encodes `resp` into `buf` at `offset`, exactly as `encoding` describes;
/// fails exactly when the encoding does not fit in the remaining capacity.
#[verifier::loop_isolation(false)]
#[verifier::rlimit(100)]
fn dump_offset(resp: &RESP, buf: &mut Vec<u8>, offset: usize) -> (r: Result<usize, DumpError>)
    requires
        offset <= old(buf)@.len(),
    ensures
        final(buf)@.len() == old(buf)@.len(),
        match r {
            Ok(n) => n == encoding(resp@).len() && offset + n <= final(buf)@.len() && final(buf)@ == old(
                buf,
            )@.take(offset as int) + encoding(resp@) + old(buf)@.skip(offset + n),
            Err(e) => e == DumpError::BufferTooSmall && offset + encoding(resp@).len()
                > final(buf)@.len(),
        },
    decreases resp,
{
    proof {
        // the buffer's length is a usize, so offsets within it cannot overflow
        assert(buf.len() == buf@.len());
    }
    match resp {
        RESP::SimpleString(s) => {
            let bytes = text_bytes(s);
            write_line(buf, offset, TAG_SIMPLE, &bytes)
        },
        RESP::Error(s) => {
            let bytes = text_bytes(s);
            write_line(buf, offset, TAG_ERROR, &bytes)
        },
        RESP::Integer(i) => {
            let digits = i64_to_dec(*i);
            write_line(buf, offset, TAG_INTEGER, &digits)
        },
        RESP::BulkString(s) => {
            let bytes = text_bytes(s);
            let len_digits = u64_to_dec(bytes.len() as u64);
            let ghost orig = buf@;
            let n1 = match write_line(buf, offset, TAG_BULK, &len_digits) {
                Err(e) => {
                    return Err(e);
                },
                Ok(c) => c,
            };
            let n2 = match write_bytes(buf, offset + n1, &bytes) {
                Err(e) => {
                    return Err(e);
                },
                Ok(c) => c,
            };
            proof {
                assert(buf@ =~= orig.take(offset as int) + (seq![TAG_BULK] + len_digits@ + crlf()
                    + bytes@) + orig.skip(offset + n1 + n2));
            }
            match write_byte(buf, offset + n1 + n2, CR) {
                Err(e) => {
                    return Err(e);
                },
                Ok(_) => {},
            };
            proof {
                assert(buf@ =~= orig.take(offset as int) + (seq![TAG_BULK] + len_digits@ + crlf()
                    + bytes@ + seq![CR]) + orig.skip(offset + n1 + n2 + 1));
            }
            match write_byte(buf, offset + n1 + n2 + 1, LF) {
                Err(e) => {
                    return Err(e);
                },
                Ok(_) => {},
            };
            proof {
                assert(buf@ =~= orig.take(offset as int) + encoding(resp@) + orig.skip(
                    offset + n1 + n2 + 2,
                ));
            }
            Ok(n1 + n2 + 2)
        },
        RESP::NullBulkString => {
            let digits = i64_to_dec(-1);
            write_line(buf, offset, TAG_BULK, &digits)
        },
        RESP::Array(arr) => {
            let len_digits = u64_to_dec(arr.len() as u64);
            let ghost orig = buf@;
            let ghost vs = views_of(arr@, 0);
            let ghost enc = encoding(resp@);
            proof {
                crate::value::lemma_views_of(arr@, 0);
            }
            let n1 = match write_line(buf, offset, TAG_ARRAY, &len_digits) {
                Err(e) => {
                    return Err(e);
                },
                Ok(c) => c,
            };
            let mut wr: usize = n1;
            let mut idx: usize = 0;
            proof {
                assert(enc.take(n1 as int) =~= seq![TAG_ARRAY] + len_digits@ + crlf());
                assert(enc.skip(n1 as int) =~= encodings_of(vs, 0));
            }
            while idx < arr.len()
                invariant
                    idx <= arr@.len(),
                    offset + wr <= buf@.len(),
                    buf@.len() == old(buf)@.len(),
                    wr <= enc.len(),
                    buf@ == orig.take(offset as int) + enc.take(wr as int) + orig.skip(
                        offset + wr,
                    ),
                    enc.skip(wr as int) == encodings_of(vs, idx as int),
                decreases arr@.len() - idx,
            {
                        let ghost buf0 = buf@;
                let ghost wr0 = wr as int;
                proof {
                    assert(encodings_of(vs, idx as int) == encoding(vs[idx as int])
                        + encodings_of(vs, idx + 1));
                    assert(vs[idx as int] == arr@[idx as int]@);
                }
                let child = &arr[idx];
                match dump_offset(child, buf, offset + wr) {
                    Err(e) => {
                        proof {
                            assert(enc.len() - wr0 >= encoding(child@).len());
                        }
                        return Err(e);
                    },
                    Ok(c) => {
                        proof {
                            let cl = encoding(child@).len() as int;
                            assert(encodings_of(vs, idx as int).skip(cl) =~= encodings_of(
                                vs,
                                idx + 1,
                            ));
                            assert(enc.skip(wr0 + cl) =~= encodings_of(vs, idx as int).skip(cl));
                            assert(enc.subrange(wr0, wr0 + cl) =~= encoding(child@));
                            assert(buf0.take(offset + wr0) =~= orig.take(offset as int)
                                + enc.take(wr0));
                            assert(buf0.skip(offset + wr0 + cl) =~= orig.skip(offset + wr0 + cl));
                            assert(enc.take(wr0 + cl) =~= enc.take(wr0) + encoding(child@));
                            assert(enc.skip(wr0 + cl) =~= encodings_of(vs, idx + 1));
                        }
                        wr = wr + c;
                        proof {
                            assert(buf@ =~= orig.take(offset as int) + enc.take(wr as int)
                                + orig.skip(offset + wr));
                        }
                    },
                }
                idx += 1;
            }
            proof {
                assert(encodings_of(vs, vs.len() as int) == Seq::<u8>::empty());
                assert(enc.skip(wr as int).len() == 0);
                assert(enc.take(wr as int) =~= enc);
            }
            Ok(wr)
        },
        RESP::NullArray => {
            let digits = i64_to_dec(-1);
            write_line(buf, offset, TAG_ARRAY, &digits)
        },
    }
}

/// Encodes `resp` into the front of `buf`, returning the number of bytes
/// written. It fails with `BufferTooSmall`, and never writes past the
/// buffer's end, exactly when the encoding is longer than the buffer; on
/// success the front of `buf` holds the canonical encoding and the rest is
/// unchanged.
pub fn dump(resp: &RESP, buf: &mut Vec<u8>) -> (r: Result<usize, DumpError>)
    ensures
        final(buf)@.len() == old(buf)@.len(),
        match r {
            Ok(n) => n == encoding(resp@).len() && n <= final(buf)@.len() && final(buf)@ == encoding(resp@)
                + old(buf)@.skip(n as int),
            Err(e) => e == DumpError::BufferTooSmall && encoding(resp@).len() > final(buf)@.len(),
        },
{
    let r = dump_offset(resp, buf, 0);
    proof {
        match r {
            Ok(n) => {
                assert(old(buf)@.take(0) + encoding(resp@) + old(buf)@.skip(n as int) =~= encoding(
                    resp@,
                ) + old(buf)@.skip(n as int));
            },
            Err(_) => {},
        }
    }
    r
}

} // verus!
