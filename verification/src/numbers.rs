//! Base-10 text for signed 64-bit integers: the canonical digits a value is
//! encoded with, the signed grammar the parser accepts (an optional sign, one
//! or more digits, the value within the 64-bit range), and executable
//! conversions proved against both.

use crate::wire::{crlf_free, CR, LF};
use vstd::prelude::*;
use vstd::utf8::{is_leading_byte_width_1, partial_valid_utf8, valid_utf8};

verus! {

/// The sign byte `+`.
pub const PLUS: u8 = 43;

/// The sign byte `-`.
pub const MINUS: u8 = 45;

/// The digit byte `0`.
pub const ZERO: u8 = 48;

pub open spec fn is_digit(b: u8) -> bool {
    ZERO <= b <= 57
}

pub open spec fn all_digits(b: Seq<u8>) -> bool {
    forall|i: int| 0 <= i < b.len() ==> is_digit(#[trigger] b[i])
}

/// The value of a digit string, most significant digit first.
pub open spec fn dec_val(b: Seq<u8>) -> int
    decreases b.len(),
{
    if b.len() == 0 {
        0
    } else {
        dec_val(b.drop_last()) * 10 + (b.last() - ZERO)
    }
}

/// The canonical digits of `n`: no sign, no leading zero except for `n == 0`
/// itself.
pub open spec fn dec_digits(n: nat) -> Seq<u8>
    decreases n,
{
    if n < 10 {
        seq![(ZERO + n) as u8]
    } else {
        dec_digits(n / 10) + seq![(ZERO + n % 10) as u8]
    }
}

/// The canonical base-10 text of `i`: a leading `-` for negative values.
pub open spec fn dec_int(i: int) -> Seq<u8> {
    if i < 0 {
        seq![MINUS] + dec_digits((-i) as nat)
    } else {
        dec_digits(i as nat)
    }
}

/// What parsing a signed base-10 integer field accepts: an optional sign
/// followed by at least one digit, and a value within the signed 64-bit
/// range. Anything else is rejected.
pub open spec fn parse_i64(b: Seq<u8>) -> Option<int> {
    if b.len() > 0 && (b[0] == PLUS || b[0] == MINUS) {
        let m = b.drop_first();
        if m.len() > 0 && all_digits(m) {
            let v = if b[0] == MINUS {
                -dec_val(m)
            } else {
                dec_val(m)
            };
            if i64::MIN <= v <= i64::MAX {
                Some(v)
            } else {
                None
            }
        } else {
            None
        }
    } else if b.len() > 0 && all_digits(b) {
        if dec_val(b) <= i64::MAX {
            Some(dec_val(b))
        } else {
            None
        }
    } else {
        None
    }
}

pub proof fn lemma_dec_digits_shape(n: nat)
    ensures
        dec_digits(n).len() >= 1,
        all_digits(dec_digits(n)),
        dec_val(dec_digits(n)) == n,
    decreases n,
{
    if n < 10 {
        assert(dec_digits(n).drop_last() =~= Seq::<u8>::empty());
        assert(dec_val(Seq::<u8>::empty()) == 0);
        assert(dec_val(dec_digits(n)) == 0 * 10 + ((ZERO + n) as u8 - ZERO));
    } else {
        lemma_dec_digits_shape(n / 10);
        vstd::arithmetic::div_mod::lemma_fundamental_div_mod(n as int, 10);
        let d = (ZERO + n % 10) as u8;
        assert(dec_digits(n).drop_last() =~= dec_digits(n / 10));
        assert(dec_digits(n).last() == d);
        assert(dec_val(dec_digits(n)) == dec_val(dec_digits(n / 10)) * 10 + (d - ZERO));
        assert forall|i: int| 0 <= i < dec_digits(n).len() implies is_digit(
            #[trigger] dec_digits(n)[i],
        ) by {
            if i < dec_digits(n).len() - 1 {
                assert(dec_digits(n)[i] == dec_digits(n / 10)[i]);
            } else {
                assert(dec_digits(n)[i] == d);
            }
        }
    }
}

/// A string of digits holds no CR byte, so no terminator can be found in it.
pub proof fn lemma_digits_crlf_free(b: Seq<u8>)
    requires
        all_digits(b),
    ensures
        crlf_free(b),
{
    assert forall|i: int| 0 <= i && i + 1 < b.len() implies !(#[trigger] b[i] == CR && b[i + 1]
        == LF) by {
        assert(is_digit(b[i]));
    }
}

pub proof fn lemma_dec_val_nonneg(b: Seq<u8>)
    requires
        all_digits(b),
    ensures
        dec_val(b) >= 0,
    decreases b.len(),
{
    if b.len() > 0 {
        assert(all_digits(b.drop_last()));
        lemma_dec_val_nonneg(b.drop_last());
        assert(is_digit(b.last()));
    }
}

/// One more digit multiplies the prefix value by ten and adds the digit.
pub proof fn lemma_dec_val_step(b: Seq<u8>, k: int)
    requires
        0 <= k < b.len(),
    ensures
        dec_val(b.take(k + 1)) == dec_val(b.take(k)) * 10 + (b[k] - ZERO),
{
    assert(b.take(k + 1).drop_last() =~= b.take(k));
    assert(b.take(k + 1).last() == b[k]);
}

/// The value of a digit string is at least the value of any of its prefixes.
pub proof fn lemma_dec_val_prefix_le(b: Seq<u8>, k: int)
    requires
        all_digits(b),
        0 <= k <= b.len(),
    ensures
        dec_val(b) >= dec_val(b.take(k)),
    decreases b.len() - k,
{
    if k == b.len() {
        assert(b.take(k) =~= b);
    } else {
        lemma_dec_val_step(b, k);
        assert(all_digits(b.take(k)));
        lemma_dec_val_nonneg(b.take(k));
        assert(is_digit(b[k]));
        lemma_dec_val_prefix_le(b, k + 1);
    }
}

/// The canonical text of an in-range value parses back to the value.
pub proof fn lemma_parse_i64_dec_int(i: int)
    requires
        i64::MIN <= i <= i64::MAX,
    ensures
        parse_i64(dec_int(i)) == Some(i),
{
    if i < 0 {
        let b = dec_int(i);
        lemma_dec_digits_shape((-i) as nat);
        assert(b[0] == MINUS);
        assert(b.drop_first() =~= dec_digits((-i) as nat));
    } else {
        lemma_dec_digits_shape(i as nat);
        assert(is_digit(dec_int(i)[0]));
    }
}

/// The canonical base-10 text of an in-range value is a clean line: it is
/// not empty, holds no line terminator, is valid UTF-8, and parses back to
/// the value.
pub proof fn lemma_dec_int_text(i: int)
    requires
        i64::MIN <= i <= i64::MAX,
    ensures
        dec_int(i).len() >= 1,
        crlf_free(dec_int(i)),
        valid_utf8(dec_int(i)),
        parse_i64(dec_int(i)) == Some(i),
{
    let d = dec_int(i);
    lemma_parse_i64_dec_int(i);
    if i < 0 {
        lemma_dec_digits_shape((-i) as nat);
        assert forall|k: int| 0 <= k < d.len() implies #[trigger] d[k] < 128 by {
            if k > 0 {
                assert(is_digit(dec_digits((-i) as nat)[k - 1]));
            }
        }
        assert forall|k: int| 0 <= k && k + 1 < d.len() implies !(#[trigger] d[k] == CR && d[k + 1]
            == LF) by {
            if k > 0 {
                assert(is_digit(dec_digits((-i) as nat)[k - 1]));
            }
        }
    } else {
        lemma_dec_digits_shape(i as nat);
        lemma_digits_crlf_free(d);
        assert forall|k: int| 0 <= k < d.len() implies #[trigger] d[k] < 128 by {
            assert(is_digit(d[k]));
        }
    }
    lemma_ascii_valid_utf8(d);
}

/// All-ASCII byte strings are valid UTF-8.
pub proof fn lemma_ascii_valid_utf8(b: Seq<u8>)
    requires
        forall|i: int| 0 <= i < b.len() ==> #[trigger] b[i] < 128,
    ensures
        valid_utf8(b),
{
    assert forall|i: int| 0 <= i < b.len() implies #[trigger] is_leading_byte_width_1(b[i]) by {
        assert(b[i] < 128);
    }
    assert(b.subrange(0, 0) =~= Seq::empty());
    assert(partial_valid_utf8(b, 0));
    vstd::utf8::partial_valid_utf8_extend_ascii_block(b, 0, b.len() as int);
    assert(b.subrange(0, b.len() as int) =~= b);
}

/// The canonical digits of `n`, most significant first.
pub fn u64_to_dec(n: u64) -> (r: Vec<u8>)
    ensures
        r@ == dec_digits(n as nat),
{
    if n == 0 {
        let mut out: Vec<u8> = Vec::new();
        out.push(ZERO);
        proof {
            assert(dec_digits(0) =~= seq![ZERO]);
            assert(out@ =~= seq![ZERO]);
        }
        return out;
    }
    let mut rev: Vec<u8> = Vec::new();
    let mut x: u64 = n;
    proof {
        assert(rev@.reverse() =~= Seq::<u8>::empty());
        assert(dec_digits(n as nat) + rev@.reverse() =~= dec_digits(n as nat));
    }
    loop
        invariant_except_break
            x > 0,
            dec_digits(n as nat) == dec_digits(x as nat) + rev@.reverse(),
        ensures
            dec_digits(n as nat) == rev@.reverse(),
        decreases x,
    {
        let ghost rev0 = rev@;
        let ghost x0 = x;
        let d: u8 = (x % 10) as u8 + ZERO;
        rev.push(d);
        x = x / 10;
        proof {
            vstd::arithmetic::div_mod::lemma_fundamental_div_mod(x0 as int, 10);
            assert(rev0.push(d).reverse() =~= seq![d] + rev0.reverse());
            if x0 >= 10 {
                assert(dec_digits(x0 as nat) == dec_digits((x0 as nat) / 10) + seq![d]);
                assert(dec_digits(x0 as nat) + rev0.reverse() =~= dec_digits(x as nat) + (seq![d]
                    + rev0.reverse()));
            } else {
                assert(dec_digits(x0 as nat) =~= seq![d]);
                assert(dec_digits(x0 as nat) + rev0.reverse() =~= seq![d] + rev0.reverse());
            }
        }
        if x == 0 {
            break ;
        }
    }
    let m = rev.len();
    let mut out: Vec<u8> = Vec::new();
    let mut j: usize = 0;
    while j < m
        invariant
            m == rev@.len(),
            j <= m,
            out@ == rev@.reverse().subrange(0, j as int),
            dec_digits(n as nat) == rev@.reverse(),
        decreases m - j,
    {
        let ghost out0 = out@;
        out.push(rev[m - 1 - j]);
        proof {
            assert(rev@.reverse()[j as int] == rev@[m - 1 - j]);
            assert(out0.push(rev@[m - 1 - j as int]) =~= rev@.reverse().subrange(0, j + 1));
        }
        j += 1;
    }
    proof {
        assert(rev@.reverse().subrange(0, m as int) =~= rev@.reverse());
    }
    out
}

/// The canonical base-10 text of `i`, with a leading `-` for negatives.
pub fn i64_to_dec(i: i64) -> (r: Vec<u8>)
    ensures
        r@ == dec_int(i as int),
{
    if i >= 0 {
        let r = u64_to_dec(i as u64);
        r
    } else {
        let mag: u64 = (-(i as i128)) as u64;
        let mut digits = u64_to_dec(mag);
        let mut out: Vec<u8> = Vec::new();
        out.push(MINUS);
        out.append(&mut digits);
        proof {
            assert(out@ =~= seq![MINUS] + dec_digits(mag as nat));
        }
        out
    }
}

/// Parses a signed base-10 integer field, exactly as `parse_i64` describes.
#[verifier::loop_isolation(false)]
pub fn parse_i64_bytes(b: &Vec<u8>) -> (r: Option<i64>)
    ensures
        match r {
            Some(i) => parse_i64(b@) == Some(i as int),
            None => parse_i64(b@) is None,
        },
{
    let n = b.len();
    if n == 0 {
        return None;
    }
    let neg: bool = b[0] == MINUS;
    let start: usize = if b[0] == MINUS || b[0] == PLUS {
        1
    } else {
        0
    };
    if start >= n {
        // a sign with no digits after it
        return None;
    }
    let ghost ms: Seq<u8> = b@.subrange(start as int, n as int);
    let limit: u64 = if neg {
        9223372036854775808
    } else {
        9223372036854775807
    };
    let mut mag: u64 = 0;
    let mut j: usize = start;
    while j < n
        invariant
            start <= j <= n,
            n == b@.len(),
            start == 1 ==> (b@[0] == PLUS || b@[0] == MINUS),
            start == 0 ==> b@[0] != PLUS && b@[0] != MINUS,
            ms == b@.subrange(start as int, n as int),
            neg <==> (b@[0] == MINUS && start == 1),
            limit == if neg {
                9223372036854775808u64
            } else {
                9223372036854775807u64
            },
            ms.len() == n - start,
            all_digits(ms.take(j - start)),
            mag == dec_val(ms.take(j - start)),
            mag <= limit,
        decreases n - j,
    {
        let d = b[j];
        proof {
            assert(ms[j - start] == b@[j as int]);
        }
        if d < ZERO || d > 57 {
            proof {
                assert(!is_digit(ms[j - start]));
                if start == 1 {
                    assert(b@.drop_first() =~= ms);
                    assert(all_digits(b@.drop_first()) ==> is_digit(b@.drop_first()[j - 1]));
                } else {
                    assert(all_digits(b@) ==> is_digit(b@[j as int]));
                }
            }
            return None;
        }
        let dv = (d - ZERO) as u64;
        proof {
            assert(ms.take(j - start + 1) =~= ms.take(j - start).push(b@[j as int]));
            assert(all_digits(ms.take(j - start + 1)));
            lemma_dec_val_step(ms, j - start);
        }
        if mag > (limit - dv) / 10 {
            proof {
                vstd::arithmetic::div_mod::lemma_fundamental_div_mod((limit - dv) as int, 10);
                assert(dec_val(ms.take(j - start + 1)) > limit);
                if start == 1 {
                    assert(b@.drop_first() =~= ms);
                } else {
                    assert(ms =~= b@);
                }
                if all_digits(ms) {
                    lemma_dec_val_prefix_le(ms, j - start + 1);
                    assert(dec_val(ms) > limit);
                }
                assert(parse_i64(b@) is None);
            }
            return None;
        }
        proof {
            vstd::arithmetic::div_mod::lemma_fundamental_div_mod((limit - dv) as int, 10);
        }
        mag = mag * 10 + dv;
        j += 1;
    }
    proof {
        assert(ms.take(n - start) =~= ms);
        lemma_dec_val_nonneg(ms);
        if start == 1 {
            assert(b@.drop_first() =~= ms);
        } else {
            assert(ms =~= b@);
        }
        assert(parse_i64(b@) == Some(if neg {
            -dec_val(ms)
        } else {
            dec_val(ms)
        }));
    }
    if neg {
        if mag == 9223372036854775808 {
            Some(i64::MIN)
        } else {
            Some(-(mag as i64))
        }
    } else {
        Some(mag as i64)
    }
}

} // verus!
