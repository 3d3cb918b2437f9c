use resp_codec::dump;
use resp_codec::parse;
use resp_codec::DumpError;
use resp_codec::ParseError;
use resp_codec::RESP;

fn dumped(v: &RESP) -> Vec<u8> {
    let mut buf: Vec<u8> = vec![0; 4096];
    let n = dump(v, &mut buf).expect("encoding fits");
    buf[..n].to_vec()
}

#[test]
fn dump_matches_canonical_fixtures() {
    assert_eq!(dumped(&RESP::Integer(44)), b":44\r\n".to_vec());
    assert_eq!(dumped(&RESP::Integer(-7)), b":-7\r\n".to_vec());
    assert_eq!(dumped(&RESP::SimpleString("OK".to_string())), b"+OK\r\n".to_vec());
    assert_eq!(
        dumped(&RESP::Error("Error message".to_string())),
        b"-Error message\r\n".to_vec()
    );
    assert_eq!(
        dumped(&RESP::BulkString("foobar".to_string())),
        b"$6\r\nfoobar\r\n".to_vec()
    );
    assert_eq!(dumped(&RESP::BulkString("".to_string())), b"$0\r\n\r\n".to_vec());
    assert_eq!(dumped(&RESP::NullBulkString), b"$-1\r\n".to_vec());
    assert_eq!(dumped(&RESP::NullArray), b"*-1\r\n".to_vec());
    assert_eq!(dumped(&RESP::Array(vec![])), b"*0\r\n".to_vec());
}

#[test]
fn parse_nested_array() {
    let input: &[u8] = b"*1\r\n*1\r\n+nested\r\n";
    assert_eq!(input.len(), 17);
    assert_eq!(
        parse(input),
        Ok((
            17,
            RESP::Array(vec![RESP::Array(vec![RESP::SimpleString(
                "nested".to_string()
            )])])
        ))
    );
}

#[test]
fn parse_array_of_bulk_strings() {
    let input: &[u8] = b"*3\r\n$3\r\nset\r\n$3\r\nfoo\r\n$1\r\n1\r\n";
    assert_eq!(input.len(), 29);
    assert_eq!(
        parse(input),
        Ok((
            29,
            RESP::Array(vec![
                RESP::BulkString("set".to_string()),
                RESP::BulkString("foo".to_string()),
                RESP::BulkString("1".to_string()),
            ])
        ))
    );
}

#[test]
fn parse_null_variants() {
    assert_eq!(parse(b"$-1\r\n"), Ok((5, RESP::NullBulkString)));
    assert_eq!(parse(b"*-1\r\n"), Ok((5, RESP::NullArray)));
    // any negative length is the null variant, not an error
    assert_eq!(parse(b"$-5\r\n"), Ok((5, RESP::NullBulkString)));
    assert_eq!(parse(b"*-2\r\n"), Ok((5, RESP::NullArray)));
}

#[test]
fn parse_empty_containers() {
    assert_eq!(parse(b"*0\r\n"), Ok((4, RESP::Array(vec![]))));
    assert_eq!(parse(b"$0\r\n\r\n"), Ok((6, RESP::BulkString("".to_string()))));
}

#[test]
fn parse_missing_terminator() {
    assert_eq!(parse(b""), Err(ParseError::CRLFNotFound));
    assert_eq!(parse(b"+OK"), Err(ParseError::CRLFNotFound));
    assert_eq!(parse(b"+OK\r"), Err(ParseError::CRLFNotFound));
    assert_eq!(parse(b":44\n"), Err(ParseError::CRLFNotFound));
}

#[test]
fn parse_unknown_tag() {
    assert_eq!(parse(b"!x\r\n"), Err(ParseError::UnknownByte(b'!')));
    assert_eq!(parse(b"x\r\n"), Err(ParseError::UnknownByte(b'x')));
}

#[test]
fn parse_bad_number() {
    assert_eq!(parse(b":4x\r\n"), Err(ParseError::ParseIntError));
    assert_eq!(parse(b":\r\n"), Err(ParseError::ParseIntError));
    assert_eq!(parse(b":-\r\n"), Err(ParseError::ParseIntError));
    assert_eq!(parse(b"$three\r\n"), Err(ParseError::ParseIntError));
    assert_eq!(parse(b"*x\r\n"), Err(ParseError::ParseIntError));
    // one past the 64-bit range overflows
    assert_eq!(parse(b":9223372036854775808\r\n"), Err(ParseError::ParseIntError));
    assert_eq!(parse(b":-9223372036854775809\r\n"), Err(ParseError::ParseIntError));
}

#[test]
fn parse_invalid_utf8() {
    assert_eq!(parse(b"+\xff\r\n"), Err(ParseError::Utf8Error));
    assert_eq!(parse(b"$2\r\n\xff\xfe\r\n"), Err(ParseError::Utf8Error));
}

#[test]
fn parse_accepts_non_canonical_integers() {
    assert_eq!(parse(b":+44\r\n"), Ok((6, RESP::Integer(44))));
    assert_eq!(parse(b":0044\r\n"), Ok((7, RESP::Integer(44))));
    assert_eq!(parse(b":-0\r\n"), Ok((5, RESP::Integer(0))));
}

#[test]
fn parse_integer_extremes() {
    assert_eq!(
        parse(b":9223372036854775807\r\n"),
        Ok((22, RESP::Integer(i64::MAX)))
    );
    assert_eq!(
        parse(b":-9223372036854775808\r\n"),
        Ok((23, RESP::Integer(i64::MIN)))
    );
    let mut buf: Vec<u8> = vec![0; 64];
    assert_eq!(dump(&RESP::Integer(i64::MIN), &mut buf), Ok(23));
    assert_eq!(&buf[..23], &b":-9223372036854775808\r\n"[..]);
}

#[test]
fn parse_truncated_bulk_string() {
    // the length line is complete but the payload and terminator are not
    assert_eq!(parse(b"$3\r\nab\r\n"), Err(ParseError::CRLFNotFound));
    assert_eq!(parse(b"$4\r\nabcd"), Err(ParseError::CRLFNotFound));
}

#[test]
fn parse_bulk_string_skips_trailing_pair_unchecked() {
    // the two bytes after the payload are skipped without being validated
    assert_eq!(parse(b"$2\r\nabXY"), Ok((8, RESP::BulkString("ab".to_string()))));
}

#[test]
fn parse_stops_after_first_value() {
    assert_eq!(parse(b":1\r\n:2\r\n"), Ok((4, RESP::Integer(1))));
    assert_eq!(parse(b"+OK\r\ntrailing"), Ok((5, RESP::SimpleString("OK".to_string()))));
}

#[test]
fn parse_propagates_child_error() {
    assert_eq!(parse(b"*2\r\n:1\r\n:x\r\n"), Err(ParseError::ParseIntError));
    assert_eq!(parse(b"*2\r\n:1\r\n"), Err(ParseError::CRLFNotFound));
}

#[test]
fn dump_buffer_too_small() {
    let mut buf: Vec<u8> = vec![7; 3];
    assert_eq!(dump(&RESP::Integer(44), &mut buf), Err(DumpError::BufferTooSmall));
    // nothing was written past the buffer's bound
    assert_eq!(buf.len(), 3);
    let mut empty: Vec<u8> = Vec::new();
    assert_eq!(
        dump(&RESP::SimpleString("OK".to_string()), &mut empty),
        Err(DumpError::BufferTooSmall)
    );
    assert_eq!(empty.len(), 0);
}

#[test]
fn dump_exact_fit_succeeds() {
    let mut buf: Vec<u8> = vec![0; 5];
    assert_eq!(dump(&RESP::Integer(44), &mut buf), Ok(5));
    assert_eq!(&buf[..], b":44\r\n");
    let mut short: Vec<u8> = vec![0; 4];
    assert_eq!(dump(&RESP::Integer(44), &mut short), Err(DumpError::BufferTooSmall));
}

#[test]
fn round_trip_non_ascii_text() {
    let v = RESP::BulkString("h\u{e9}llo".to_string());
    let bytes = dumped(&v);
    // the length prefix counts UTF-8 bytes, not characters
    assert_eq!(bytes, b"$6\r\nh\xc3\xa9llo\r\n".to_vec());
    assert_eq!(parse(&bytes), Ok((bytes.len(), v)));
}

#[test]
fn round_trip_nested_mixture() {
    let v = RESP::Array(vec![
        RESP::SimpleString("OK".to_string()),
        RESP::Error("oops".to_string()),
        RESP::Integer(-12345),
        RESP::NullBulkString,
        RESP::Array(vec![RESP::BulkString("x".to_string()), RESP::NullArray]),
    ]);
    let bytes = dumped(&v);
    assert_eq!(parse(&bytes), Ok((bytes.len(), v)));
}
