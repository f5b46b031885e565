use redis_core::resp::{decode_internal, DecodeError, RESP};

fn simple(s: &str) -> RESP {
    RESP::SimpleString(s.as_bytes().to_vec())
}

fn error(s: &str) -> RESP {
    RESP::Error(s.as_bytes().to_vec())
}

fn bulk(s: &str) -> RESP {
    RESP::BulkString(s.as_bytes().to_vec())
}

fn round_trip(value: RESP) {
    let wire = value.to_string();
    assert_eq!(decode_internal(&wire), Ok((value.clone(), wire.len())));
    assert_eq!(RESP::from_str(&wire), Ok(value));
}

#[test]
fn bulk_string_is_consumed_exactly() {
    let (value, used) = decode_internal(b"$5\r\nhello\r\n").unwrap();
    assert_eq!(value, bulk("hello"));
    assert_eq!(used, 11);
}

#[test]
fn array_is_decoded_recursively() {
    let value = RESP::from_str(b"*2\r\n$3\r\nfoo\r\n$3\r\nbar\r\n").unwrap();
    assert_eq!(value, RESP::Array(vec![bulk("foo"), bulk("bar")]));
}

#[test]
fn simple_string_is_encoded() {
    assert_eq!(simple("OK").to_string(), b"+OK\r\n".to_vec());
}

#[test]
fn error_is_encoded() {
    assert_eq!(error("ERR bad").to_string(), b"-ERR bad\r\n".to_vec());
}

#[test]
fn integers_are_encoded() {
    assert_eq!(RESP::Integer(0).to_string(), b":0\r\n".to_vec());
    assert_eq!(RESP::Integer(1000).to_string(), b":1000\r\n".to_vec());
    assert_eq!(RESP::Integer(-42).to_string(), b":-42\r\n".to_vec());
    assert_eq!(RESP::Integer(i64::MAX).to_string(), b":9223372036854775807\r\n".to_vec());
    assert_eq!(RESP::Integer(i64::MIN).to_string(), b":-9223372036854775808\r\n".to_vec());
}

#[test]
fn bulk_string_is_encoded_with_its_count() {
    assert_eq!(bulk("hello").to_string(), b"$5\r\nhello\r\n".to_vec());
    assert_eq!(bulk("").to_string(), b"$0\r\n\r\n".to_vec());
    assert_eq!(bulk("0123456789").to_string(), b"$10\r\n0123456789\r\n".to_vec());
}

#[test]
fn bulk_string_counts_bytes() {
    let value = RESP::BulkString(vec![0xc3, 0xa9, 0xff, 0x00]);
    assert_eq!(value.to_string(), vec![b'$', b'4', 13, 10, 0xc3, 0xa9, 0xff, 0x00, 13, 10]);
}

#[test]
fn array_is_encoded_with_its_count() {
    let value = RESP::Array(vec![bulk("foo"), RESP::Integer(7), simple("x")]);
    assert_eq!(value.to_string(), b"*3\r\n$3\r\nfoo\r\n:7\r\n+x\r\n".to_vec());
    assert_eq!(RESP::Array(vec![]).to_string(), b"*0\r\n".to_vec());
}

#[test]
fn nil_is_encoded_as_a_bulk_string_of_count_minus_one() {
    assert_eq!(RESP::Nil.to_string(), b"$-1\r\n".to_vec());
}

#[test]
fn nil_does_not_decode_from_its_encoding() {
    assert_eq!(RESP::from_str(&RESP::Nil.to_string()), Err(DecodeError::InvalidLength));
}

#[test]
fn text_with_a_crlf_inside_is_cut_at_it() {
    let wire = simple("a\r\nb").to_string();
    assert_eq!(decode_internal(&wire), Ok((simple("a"), 4)));
    assert_eq!(RESP::from_str(&wire), Err(DecodeError::TrailingData));
}

#[test]
fn round_trip_of_simple_values() {
    round_trip(simple(""));
    round_trip(simple("PONG"));
    round_trip(simple("a\rb\nc"));
    round_trip(simple("ends with cr\r"));
    round_trip(error("No such command"));
    round_trip(RESP::Integer(0));
    round_trip(RESP::Integer(-1));
    round_trip(RESP::Integer(i64::MAX));
    round_trip(RESP::Integer(i64::MIN));
}

#[test]
fn round_trip_of_bulk_strings() {
    round_trip(bulk(""));
    round_trip(bulk("hello"));
    round_trip(bulk("with\r\ncrlf inside"));
    round_trip(RESP::BulkString((0u8..=255).collect()));
}

#[test]
fn round_trip_of_arrays() {
    round_trip(RESP::Array(vec![]));
    round_trip(RESP::Array(vec![bulk("SET"), bulk("k"), bulk("v")]));
    round_trip(RESP::Array(vec![
        RESP::Array(vec![RESP::Integer(1), RESP::Array(vec![])]),
        simple("x"),
        error("y"),
        RESP::Array(vec![bulk("\r\n")]),
    ]));
    let many: Vec<RESP> = (0..12).map(RESP::Integer).collect();
    round_trip(RESP::Array(many));
}

#[test]
fn what_is_decoded_encodes_to_the_bytes_taken() {
    let wire = b"*2\r\n:-7\r\n$2\r\nhi\r\n+rest";
    let (value, used) = decode_internal(wire).unwrap();
    assert_eq!(used, 17);
    assert_eq!(value.to_string(), wire[..used].to_vec());
}

#[test]
fn bytes_after_the_value_are_left_alone() {
    assert_eq!(decode_internal(b"+OK\r\n+more\r\n"), Ok((simple("OK"), 5)));
    assert_eq!(decode_internal(b":12\r\nxyz"), Ok((RESP::Integer(12), 5)));
}

#[test]
fn trailing_bytes_are_refused() {
    assert_eq!(RESP::from_str(b"+OK\r\nx"), Err(DecodeError::TrailingData));
    assert_eq!(RESP::from_str(b"$5\r\nhello\r\n\r\n"), Err(DecodeError::TrailingData));
}

#[test]
fn empty_input_is_refused() {
    assert_eq!(decode_internal(b""), Err(DecodeError::Empty));
    assert_eq!(RESP::from_str(b""), Err(DecodeError::Empty));
}

#[test]
fn unknown_prefix_is_refused() {
    assert_eq!(RESP::from_str(b"?what\r\n"), Err(DecodeError::UnknownPrefix));
    assert_eq!(RESP::from_str(b"PING\r\n"), Err(DecodeError::UnknownPrefix));
    assert_eq!(RESP::from_str(b"\r\n"), Err(DecodeError::UnknownPrefix));
    assert_eq!(RESP::from_str(b"x"), Err(DecodeError::UnknownPrefix));
}

#[test]
fn missing_terminator_is_refused() {
    assert_eq!(RESP::from_str(b"+OK"), Err(DecodeError::MissingTerminator));
    assert_eq!(RESP::from_str(b"+OK\r"), Err(DecodeError::MissingTerminator));
    assert_eq!(RESP::from_str(b"+OK\n"), Err(DecodeError::MissingTerminator));
    assert_eq!(RESP::from_str(b"$"), Err(DecodeError::MissingTerminator));
    assert_eq!(RESP::from_str(b"*3"), Err(DecodeError::MissingTerminator));
}

#[test]
fn malformed_integer_is_refused() {
    assert_eq!(RESP::from_str(b":\r\n"), Err(DecodeError::InvalidInteger));
    assert_eq!(RESP::from_str(b":abc\r\n"), Err(DecodeError::InvalidInteger));
    assert_eq!(RESP::from_str(b":12a\r\n"), Err(DecodeError::InvalidInteger));
    assert_eq!(RESP::from_str(b":-\r\n"), Err(DecodeError::InvalidInteger));
    assert_eq!(RESP::from_str(b": 1\r\n"), Err(DecodeError::InvalidInteger));
    assert_eq!(RESP::from_str(b":9223372036854775808\r\n"), Err(DecodeError::InvalidInteger));
    assert_eq!(RESP::from_str(b":-9223372036854775809\r\n"), Err(DecodeError::InvalidInteger));
}

#[test]
fn integer_has_one_numeral() {
    assert_eq!(RESP::from_str(b":+5\r\n"), Err(DecodeError::InvalidInteger));
    assert_eq!(RESP::from_str(b":007\r\n"), Err(DecodeError::InvalidInteger));
    assert_eq!(RESP::from_str(b":-0\r\n"), Err(DecodeError::InvalidInteger));
    assert_eq!(RESP::from_str(b":0\r\n"), Ok(RESP::Integer(0)));
    assert_eq!(RESP::from_str(b":-9223372036854775808\r\n"), Ok(RESP::Integer(i64::MIN)));
}

#[test]
fn malformed_length_is_refused() {
    assert_eq!(RESP::from_str(b"$abc\r\nabc\r\n"), Err(DecodeError::InvalidLength));
    assert_eq!(RESP::from_str(b"$\r\n\r\n"), Err(DecodeError::InvalidLength));
    assert_eq!(RESP::from_str(b"$-1\r\n"), Err(DecodeError::InvalidLength));
    assert_eq!(RESP::from_str(b"$-5\r\nhello\r\n"), Err(DecodeError::InvalidLength));
    assert_eq!(RESP::from_str(b"$05\r\nhello\r\n"), Err(DecodeError::InvalidLength));
    assert_eq!(RESP::from_str(b"$+5\r\nhello\r\n"), Err(DecodeError::InvalidLength));
    assert_eq!(RESP::from_str(b"*x\r\n"), Err(DecodeError::InvalidLength));
    assert_eq!(RESP::from_str(b"*-1\r\n"), Err(DecodeError::InvalidLength));
    assert_eq!(
        RESP::from_str(b"$18446744073709551616\r\nx\r\n"),
        Err(DecodeError::InvalidLength)
    );
    assert_eq!(RESP::from_str(b"*18446744073709551616\r\n"), Err(DecodeError::InvalidLength));
}

#[test]
fn truncated_bulk_string_is_refused() {
    assert_eq!(RESP::from_str(b"$5\r\nhel"), Err(DecodeError::Truncated));
    assert_eq!(RESP::from_str(b"$5\r\nhello"), Err(DecodeError::Truncated));
    assert_eq!(RESP::from_str(b"$5\r\nhello\r"), Err(DecodeError::Truncated));
    assert_eq!(RESP::from_str(b"$5\r\n"), Err(DecodeError::Truncated));
    assert_eq!(
        RESP::from_str(b"$18446744073709551615\r\nhello\r\n"),
        Err(DecodeError::Truncated)
    );
}

#[test]
fn bulk_string_without_its_crlf_is_refused() {
    assert_eq!(RESP::from_str(b"$5\r\nhelloXY"), Err(DecodeError::UnterminatedBulk));
    assert_eq!(RESP::from_str(b"$5\r\nhello\rX"), Err(DecodeError::UnterminatedBulk));
    assert_eq!(RESP::from_str(b"$3\r\nhello\r\n"), Err(DecodeError::UnterminatedBulk));
}

#[test]
fn array_with_too_few_values_is_refused() {
    assert_eq!(RESP::from_str(b"*2\r\n$3\r\nfoo\r\n"), Err(DecodeError::Empty));
    assert_eq!(RESP::from_str(b"*1\r\n"), Err(DecodeError::Empty));
    assert_eq!(RESP::from_str(b"*18446744073709551615\r\n:1\r\n"), Err(DecodeError::Empty));
}

#[test]
fn array_reports_the_error_of_its_first_bad_value() {
    assert_eq!(RESP::from_str(b"*2\r\n:1\r\n:x\r\n"), Err(DecodeError::InvalidInteger));
    assert_eq!(RESP::from_str(b"*2\r\n?\r\n:x\r\n"), Err(DecodeError::UnknownPrefix));
    assert_eq!(RESP::from_str(b"*2\r\n$3\r\nfo\r\n:1\r\n"), Err(DecodeError::UnterminatedBulk));
    assert_eq!(RESP::from_str(b"*1\r\n*1\r\n$1\r\n"), Err(DecodeError::Truncated));
}

#[test]
fn array_with_too_many_values_is_refused() {
    assert_eq!(RESP::from_str(b"*1\r\n:1\r\n:2\r\n"), Err(DecodeError::TrailingData));
}

#[test]
fn line_ends_at_the_first_crlf() {
    assert_eq!(decode_internal(b"+a\rb\r\nrest\r\n"), Ok((simple("a\rb"), 6)));
    assert_eq!(decode_internal(b"-\r\n"), Ok((error(""), 3)));
}

#[test]
fn get_string_gives_text_and_bulk_bytes() {
    assert_eq!(simple("abc").get_string(), Some(&b"abc".to_vec()));
    assert_eq!(bulk("xyz").get_string(), Some(&b"xyz".to_vec()));
    assert_eq!(error("abc").get_string(), None);
    assert_eq!(RESP::Integer(3).get_string(), None);
    assert_eq!(RESP::Array(vec![bulk("x")]).get_string(), None);
    assert_eq!(RESP::Nil.get_string(), None);
}

#[test]
fn get_integer_reads_numbers_and_numerals() {
    assert_eq!(RESP::Integer(-3).get_integer(), Some(-3));
    assert_eq!(bulk("10").get_integer(), Some(10));
    assert_eq!(simple("-10").get_integer(), Some(-10));
    assert_eq!(bulk("ten").get_integer(), None);
    assert_eq!(bulk("010").get_integer(), None);
    assert_eq!(error("10").get_integer(), None);
    assert_eq!(RESP::Nil.get_integer(), None);
    assert_eq!(RESP::Array(vec![RESP::Integer(1)]).get_integer(), None);
}

#[test]
fn clone_holds_the_same_value() {
    let value = RESP::Array(vec![
        bulk("a"),
        RESP::Array(vec![RESP::Integer(5), RESP::Nil]),
        simple("s"),
        error("e"),
    ]);
    assert_eq!(value.clone(), value);
}
