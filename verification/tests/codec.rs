use redis_lite::resp::{RespError, RespToken};
use redis_lite::ProtocolError;

fn decode(bytes: &[u8]) -> Result<RespToken, ProtocolError> {
    RespToken::deserialize(bytes)
}

fn encode(token: &RespToken) -> Vec<u8> {
    RespToken::serialize(token).expect("encoding is total")
}

#[test]
fn decode_simple_string() {
    let got = decode(b"+OK\r\n").unwrap();
    assert_eq!(got, RespToken::SimpleString(b"OK".to_vec()));
}

#[test]
fn decode_empty_simple_string() {
    let got = decode(b"+\r\n").unwrap();
    assert_eq!(got, RespToken::SimpleString(Vec::new()));
}

#[test]
fn decode_bulk_string() {
    let got = decode(b"$3\r\nhey\r\n").unwrap();
    assert_eq!(got, RespToken::BulkString(b"hey".to_vec(), 3));
}

#[test]
fn decode_bulk_string_with_crlf_payload() {
    let got = decode(b"$4\r\na\r\nb\r\n").unwrap();
    assert_eq!(got, RespToken::BulkString(b"a\r\nb".to_vec(), 4));
}

#[test]
fn decode_bulk_string_leading_zero_length() {
    let got = decode(b"$03\r\nhey\r\n").unwrap();
    assert_eq!(got, RespToken::BulkString(b"hey".to_vec(), 3));
}

#[test]
fn decode_array() {
    let got = decode(b"*2\r\n$4\r\nECHO\r\n$3\r\nhey\r\n").unwrap();
    assert_eq!(
        got,
        RespToken::Array(
            vec![
                RespToken::BulkString(b"ECHO".to_vec(), 4),
                RespToken::BulkString(b"hey".to_vec(), 3),
            ],
            2,
        )
    );
}

#[test]
fn decode_empty_array() {
    let got = decode(b"*0\r\n").unwrap();
    assert_eq!(got, RespToken::Array(Vec::new(), 0));
}

#[test]
fn decode_nested_array() {
    let got = decode(b"*1\r\n*1\r\n+a\r\n").unwrap();
    assert_eq!(
        got,
        RespToken::Array(
            vec![RespToken::Array(vec![RespToken::SimpleString(b"a".to_vec())], 1)],
            1,
        )
    );
}

#[test]
fn decode_unknown_sigil_is_unsupported_type() {
    assert_eq!(decode(b":5\r\n"), Err(ProtocolError::UnsupportedType(b':')));
}

#[test]
fn decode_trailing_bytes_are_rejected() {
    assert_eq!(decode(b"+OK\r\nx"), Err(ProtocolError::TrailingData));
}

#[test]
fn decode_bare_lf_is_format_error() {
    assert_eq!(decode(b"+a\nb\r\n"), Err(ProtocolError::Format));
}

#[test]
fn decode_missing_terminator_is_format_error() {
    assert_eq!(decode(b"+abc"), Err(ProtocolError::Format));
}

#[test]
fn decode_cr_without_lf_is_format_error() {
    assert_eq!(decode(b"+abc\rx\r\n"), Err(ProtocolError::Format));
}

#[test]
fn decode_non_numeric_length_is_format_error() {
    assert_eq!(decode(b"$x\r\nhey\r\n"), Err(ProtocolError::Format));
}

#[test]
fn decode_overlong_declared_length_is_format_error() {
    assert_eq!(decode(b"$5\r\nhey\r\n"), Err(ProtocolError::Format));
}

#[test]
fn decode_negative_length_is_format_error() {
    assert_eq!(decode(b"$-1\r\n"), Err(ProtocolError::Format));
}

#[test]
fn decode_huge_declared_length_is_format_error() {
    assert_eq!(
        decode(b"$99999999999999999999999999\r\nhey\r\n"),
        Err(ProtocolError::Format)
    );
}

#[test]
fn decode_array_count_beyond_input_is_format_error() {
    assert_eq!(decode(b"*3\r\n+a\r\n"), Err(ProtocolError::Format));
}

#[test]
fn decode_empty_input_is_format_error() {
    assert_eq!(decode(b""), Err(ProtocolError::Format));
}

#[test]
fn encode_nil_is_nil_bulk_string() {
    assert_eq!(encode(&RespToken::Nil), b"$-1\r\n".to_vec());
}

#[test]
fn encode_simple_string() {
    assert_eq!(
        encode(&RespToken::SimpleString(b"PONG".to_vec())),
        b"+PONG\r\n".to_vec()
    );
}

#[test]
fn encode_bulk_string_uses_declared_length() {
    assert_eq!(
        encode(&RespToken::BulkString(b"hey".to_vec(), 5)),
        b"$5\r\nhey\r\n".to_vec()
    );
}

#[test]
fn encode_bulk_string_two_digit_length() {
    assert_eq!(
        encode(&RespToken::BulkString(b"hello, world".to_vec(), 12)),
        b"$12\r\nhello, world\r\n".to_vec()
    );
}

#[test]
fn encode_errors() {
    assert_eq!(
        encode(&RespToken::Error(RespError::InvalidCommand)),
        b"-ERR unknown command\r\n".to_vec()
    );
    assert_eq!(
        encode(&RespToken::Error(RespError::InvalidFormat)),
        b"-ERR unknown format\r\n".to_vec()
    );
}

#[test]
fn encode_array_concatenates_children_without_count_prefix() {
    let token = RespToken::Array(
        vec![
            RespToken::BulkString(b"dir".to_vec(), 3),
            RespToken::BulkString(b"/data".to_vec(), 5),
        ],
        2,
    );
    assert_eq!(encode(&token), b"$3\r\ndir\r\n$5\r\n/data\r\n".to_vec());
}

#[test]
fn round_trip_simple_string() {
    let token = RespToken::SimpleString(b"status fine".to_vec());
    let encoded = encode(&token);
    assert_eq!(decode(&encoded).unwrap(), token);
}

#[test]
fn round_trip_bulk_string() {
    let token = RespToken::BulkString(b"payload with \r\n inside".to_vec(), 22);
    let encoded = encode(&token);
    assert_eq!(decode(&encoded).unwrap(), token);
}

#[test]
fn round_trip_zero_length_bulk_string() {
    let token = RespToken::BulkString(Vec::new(), 0);
    let encoded = encode(&token);
    assert_eq!(encoded, b"$0\r\n\r\n".to_vec());
    assert_eq!(decode(&encoded).unwrap(), token);
}

#[test]
fn parse_until_eol_splits_at_first_crlf() {
    let got = redis_lite::resp::parse_until_eol(b"abc\r\ndef", 0).unwrap();
    assert_eq!(got, (b"abc".to_vec(), 5));
    let got = redis_lite::resp::parse_until_eol(b"abc\r\ndef\r\n", 5).unwrap();
    assert_eq!(got, (b"def".to_vec(), 10));
}

#[test]
fn parse_input_reports_position_past_the_value() {
    let input = b"+OK\r\n$1\r\nx\r\n";
    let (first, pos) = redis_lite::resp::parse_input(input, 0).unwrap();
    assert_eq!(first, RespToken::SimpleString(b"OK".to_vec()));
    assert_eq!(pos, 5);
    let (second, pos) = redis_lite::resp::parse_input(input, pos).unwrap();
    assert_eq!(second, RespToken::BulkString(b"x".to_vec(), 1));
    assert_eq!(pos, input.len());
}

#[test]
fn parse_array_reads_exactly_the_declared_count() {
    let input = b"2\r\n+a\r\n+b\r\n+c\r\n";
    let (token, pos) = redis_lite::resp::parse_array(input, 0).unwrap();
    assert_eq!(
        token,
        RespToken::Array(
            vec![
                RespToken::SimpleString(b"a".to_vec()),
                RespToken::SimpleString(b"b".to_vec()),
            ],
            2,
        )
    );
    assert_eq!(pos, 11);
}

#[test]
fn parse_simple_string_and_bulk_string_start_past_the_sigil() {
    let (token, pos) = redis_lite::resp::parse_simple_string(b"hi\r\n", 0).unwrap();
    assert_eq!(token, RespToken::SimpleString(b"hi".to_vec()));
    assert_eq!(pos, 4);
    let (token, pos) = redis_lite::resp::parse_bulk_string(b"2\r\nhi\r\n", 0).unwrap();
    assert_eq!(token, RespToken::BulkString(b"hi".to_vec(), 2));
    assert_eq!(pos, 7);
}

#[test]
fn unpack_returns_scalar_payloads() {
    let bulk = RespToken::BulkString(b"key".to_vec(), 3);
    assert_eq!(bulk.unpack(), &b"key".to_vec());
    let simple = RespToken::SimpleString(b"PING".to_vec());
    assert_eq!(simple.unpack(), &b"PING".to_vec());
}
