use resp_codec::dump;
use resp_codec::parse;
use resp_codec::RESP;

#[test]
fn test_parse_and_dump() {
    let test_cases: Vec<(&[u8], RESP)> = vec![
        (b"+OK\r\n", RESP::SimpleString("OK".to_string())),
        (b"-Error message\r\n", RESP::Error("Error message".to_string())),
        (b":44\r\n", RESP::Integer(44)),
        (b"$6\r\nfoobar\r\n", RESP::BulkString("foobar".to_string())),
        (b"$0\r\n\r\n", RESP::BulkString("".to_string())),
        (b"$-1\r\n", RESP::NullBulkString),
        (
            b"*3\r\n$3\r\nset\r\n$3\r\nfoo\r\n$1\r\n1\r\n",
            RESP::Array(vec![
                RESP::BulkString("set".to_string()),
                RESP::BulkString("foo".to_string()),
                RESP::BulkString("1".to_string()),
            ]),
        ),
        (b"*0\r\n", RESP::Array(vec![])),
        (b"*-1\r\n", RESP::NullArray),
        (
            b"*1\r\n*1\r\n+nested\r\n",
            RESP::Array(vec![RESP::Array(vec![RESP::SimpleString(
                "nested".to_string(),
            )])]),
        ),
    ];
    let mut buf: Vec<u8> = vec![0; 4096];
    for (bytes, parsed) in test_cases {
        assert_eq!(dump(&parsed, &mut buf), Ok(bytes.len()));
        assert_eq!(&buf[0..bytes.len()], bytes);
        assert_eq!(parse(bytes), Ok((bytes.len(), parsed)));
    }
}
