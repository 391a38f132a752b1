use redis_starter_rust::{
    BulkString, ParseError, RESPDataType, RESPError, RESPValue, RESPValueConversionError,
    SimpleString,
};
use std::convert::TryInto;

#[test]
fn test_parse_bulk_string() {
    assert_eq!(
        RESPValue::parse("$5\r\nhello\r\nrest".as_bytes()),
        Ok((
            RESPValue::BulkString(Some("hello".to_string())),
            "rest".as_bytes()
        )),
    );

    assert_eq!(
        RESPValue::parse("$5\r\nhello\r\n".as_bytes()),
        Ok((
            RESPValue::BulkString(Some("hello".to_string())),
            "".as_bytes()
        )),
    );
}

#[test]
fn test_parse_null_bulk_string() {
    assert_eq!(
        RESPValue::parse("$-1\r\nrest".as_bytes()),
        Ok((RESPValue::BulkString(None), "rest".as_bytes())),
    );
}

#[test]
fn test_parse_bulk_string_negative_len() {
    assert_eq!(
        RESPValue::parse("$-5\r\nhello\r\nrest".as_bytes()),
        Err(ParseError::NegativeValueLength),
    );
}

#[test]
fn test_parse_bulk_string_len_missing_clrf() {
    assert_eq!(
        RESPValue::parse("$5hello\r\nrest".as_bytes()),
        Err(ParseError::UnexpectedNonNumericCharacter('h'))
    );
}

#[test]
fn test_parse_bulk_string_not_enough_bytes() {
    assert_eq!(
        RESPValue::parse("$5\r\nhell".as_bytes()),
        Err(ParseError::NotEnoughBytes),
    );
}

#[test]
fn test_parse_bulk_string_missing_clrf_termination() {
    assert_eq!(
        RESPValue::parse("$5\r\nhello".as_bytes()),
        Err(ParseError::MissingCLRF),
    );

    assert_eq!(
        RESPValue::parse("$5\r\nhelloooo".as_bytes()),
        Err(ParseError::MissingCLRF),
    );

    assert_eq!(
        RESPValue::parse("$5\r\nhelloooo\r\n".as_bytes()),
        Err(ParseError::MissingCLRF),
    );
}

#[test]
fn test_parse_array() {
    assert_eq!(
        RESPValue::parse("*2\r\n$5\r\nhello\r\n$5\r\nworld\r\n".as_bytes()),
        Ok((
            RESPValue::Array(Some(vec![
                RESPValue::BulkString(Some("hello".to_string())),
                RESPValue::BulkString(Some("world".to_string())),
            ])),
            "".as_bytes()
        )),
    );

    assert_eq!(
        RESPValue::parse("*2\r\n$5\r\nhello\r\n$5\r\nworld\r\n".as_bytes()),
        Ok((
            RESPValue::Array(Some(vec![
                RESPValue::BulkString(Some("hello".to_string())),
                RESPValue::BulkString(Some("world".to_string())),
            ])),
            "".as_bytes()
        )),
    );
}

#[test]
fn test_parse_null_array() {
    assert_eq!(
        RESPValue::parse("*-1\r\nrest".as_bytes()),
        Ok((RESPValue::Array(None), "rest".as_bytes())),
    );
}

#[test]
fn test_parse_mixed_array() {
    assert_eq!(
        RESPValue::parse("*4\r\n$5\r\nhello\r\n:123\r\n-ERROR\r\n+Simple\r\nrest".as_bytes()),
        Ok((
            RESPValue::Array(Some(vec![
                RESPValue::BulkString(Some("hello".to_string())),
                RESPValue::Integer(123),
                RESPValue::Error("ERROR".to_string()),
                RESPValue::SimpleString("Simple".to_string()),
            ])),
            "rest".as_bytes()
        )),
    );
}

#[test]
fn test_parse_nested_array() {
    assert_eq!(
        // [bulk(hello), [123, [456, simple(Simple)]]]
        RESPValue::parse(
            "*2\r\n$5\r\nhello\r\n*2\r\n:123\r\n*2\r\n:456\r\n+Simple\r\nrest".as_bytes()
        ),
        Ok((
            RESPValue::Array(Some(vec![
                RESPValue::BulkString(Some("hello".to_string())),
                RESPValue::Array(Some(vec![
                    RESPValue::Integer(123),
                    RESPValue::Array(Some(vec![
                        RESPValue::Integer(456),
                        RESPValue::SimpleString("Simple".to_string()),
                    ]))
                ])),
            ])),
            "rest".as_bytes()
        )),
    );
}

#[test]
fn test_parse_array_negative_len() {
    assert_eq!(
        RESPValue::parse("*-2\r\n$5\r\nhello\r\n$5\r\nworld\r\n".as_bytes()),
        Err(ParseError::NegativeValueLength),
    );
}

#[test]
fn test_parse_array_too_few_elements() {
    assert_eq!(
        RESPValue::parse("*2\r\n$5\r\nhello\r\n".as_bytes()),
        Err(ParseError::NotEnoughBytes),
    );
}

#[test]
fn test_parse_array_malformed_element() {
    assert_eq!(
        RESPValue::parse("*2\r\n$5\r\nhelloooo\r\n$5\r\nworld\r\n".as_bytes()),
        Err(ParseError::MissingCLRF),
    );
}

#[test]
fn test_parse_data_type() {
    assert_eq!(RESPDataType::try_from(b'+'), Ok(RESPDataType::SimpleString));
    assert_eq!(RESPDataType::try_from(b'-'), Ok(RESPDataType::Error));
    assert_eq!(RESPDataType::try_from(b':'), Ok(RESPDataType::Integer));
    assert_eq!(RESPDataType::try_from(b'$'), Ok(RESPDataType::BulkString));
    assert_eq!(RESPDataType::try_from(b'*'), Ok(RESPDataType::Array));
}

#[test]
fn test_parse_data_type_error() {
    assert_eq!(
        RESPDataType::try_from(b'x'),
        Err(ParseError::UnknownDataType('x'))
    );
    assert_eq!(
        RESPDataType::try_from(b'a'),
        Err(ParseError::UnknownDataType('a'))
    );
}

fn do_test_data_type_to_byte(t: RESPDataType, expected: u8) {
    let actual: u8 = t.into();
    assert_eq!(actual, expected);
}

#[test]
fn test_data_type_to_byte() {
    do_test_data_type_to_byte(RESPDataType::SimpleString, b'+');
    do_test_data_type_to_byte(RESPDataType::Error, b'-');
    do_test_data_type_to_byte(RESPDataType::Integer, b':');
    do_test_data_type_to_byte(RESPDataType::BulkString, b'$');
    do_test_data_type_to_byte(RESPDataType::Array, b'*');
}

#[test]
fn test_parse_integer() {
    assert_eq!(
        RESPValue::parse(":123\r\n".as_bytes()),
        Ok((RESPValue::Integer(123), "".as_bytes())),
    );

    assert_eq!(
        RESPValue::parse(":-123\r\n".as_bytes()),
        Ok((RESPValue::Integer(-123), "".as_bytes())),
    );
}

#[test]
fn test_parse_integer_error() {
    assert_eq!(
        RESPValue::parse(":123".as_bytes()),
        Err(ParseError::MissingCLRF),
    );

    assert_eq!(
        RESPValue::parse(":12l23\r\n".as_bytes()),
        Err(ParseError::UnexpectedNonNumericCharacter('l')),
    );
}

#[test]
fn test_parse_simple_string() {
    assert_eq!(
        RESPValue::parse("+OK\r\n".as_bytes()),
        Ok((RESPValue::SimpleString("OK".to_string()), "".as_bytes())),
    );
}

#[test]
fn test_parse_simple_string_with_intermediate_carriage_return() {
    assert_eq!(
        RESPValue::parse("+OK\rOK\r\n".as_bytes()),
        Ok((RESPValue::SimpleString("OK\rOK".to_string()), "".as_bytes())),
    );
}

#[test]
fn test_parse_simple_string_error() {
    assert_eq!(
        RESPValue::parse("+OK".as_bytes()),
        Err(ParseError::MissingCLRF),
    );

    assert_eq!(
        RESPValue::parse("+OKOKOK\r".as_bytes()),
        Err(ParseError::MissingCLRF),
    );
}

#[test]
fn test_parse_error() {
    assert_eq!(
        RESPValue::parse("-ERROR\r\n".as_bytes()),
        Ok((RESPValue::Error("ERROR".to_string()), "".as_bytes())),
    );
}

#[test]
fn test_parse_error_with_intermediate_carriage_return() {
    assert_eq!(
        RESPValue::parse("-ERROR\rBAD\r\n".as_bytes()),
        Ok((RESPValue::Error("ERROR\rBAD".to_string()), "".as_bytes())),
    );
}

#[test]
fn test_parse_error_error() {
    assert_eq!(
        RESPValue::parse("-ERROR".as_bytes()),
        Err(ParseError::MissingCLRF),
    );

    assert_eq!(
        RESPValue::parse("+ERROR\r".as_bytes()),
        Err(ParseError::MissingCLRF),
    );
}

#[test]
fn test_try_into_i64() {
    assert_eq!(i64::try_from(RESPValue::Integer(123)), Ok(123));
}

#[test]
fn test_try_into_i64_err() {
    assert_eq!(
        i64::try_from(RESPValue::SimpleString("123".to_string())),
        Err(RESPValueConversionError::DataTypeMismatch(
            RESPDataType::Integer,
            RESPDataType::SimpleString
        )),
    );

    assert_eq!(
        i64::try_from(RESPValue::Array(None)),
        Err(RESPValueConversionError::DataTypeMismatch(
            RESPDataType::Integer,
            RESPDataType::Array
        )),
    );
}

#[test]
fn test_try_into_bulk_string() {
    assert_eq!(
        BulkString::try_from(RESPValue::BulkString(Some("string".to_string()))),
        Ok(BulkString(Some("string".to_string())))
    );

    assert_eq!(
        BulkString::try_from(RESPValue::BulkString(None)),
        Ok(BulkString(None)),
    );
}

#[test]
fn test_try_into_bulk_string_error() {
    assert_eq!(
        BulkString::try_from(RESPValue::SimpleString("123".to_string())),
        Err(RESPValueConversionError::DataTypeMismatch(
            RESPDataType::BulkString,
            RESPDataType::SimpleString,
        )),
    );

    assert_eq!(
        BulkString::try_from(RESPValue::Array(None)),
        Err(RESPValueConversionError::DataTypeMismatch(
            RESPDataType::BulkString,
            RESPDataType::Array
        )),
    );
}

#[test]
fn test_try_into_simple_string() {
    assert_eq!(
        SimpleString::try_from(RESPValue::SimpleString("Simple".to_string())),
        Ok(SimpleString("Simple".to_string())),
    );
}

#[test]
fn test_try_into_simple_string_error() {
    assert_eq!(
        SimpleString::try_from(RESPValue::BulkString(None)),
        Err(RESPValueConversionError::DataTypeMismatch(
            RESPDataType::SimpleString,
            RESPDataType::BulkString,
        )),
    );

    assert_eq!(
        SimpleString::try_from(RESPValue::Array(None)),
        Err(RESPValueConversionError::DataTypeMismatch(
            RESPDataType::SimpleString,
            RESPDataType::Array
        )),
    );
}

#[test]
fn test_try_into_error() {
    assert_eq!(
        RESPError::try_from(RESPValue::Error("ERROR".to_string())),
        Ok(RESPError("ERROR".to_string())),
    );
}

#[test]
fn test_try_into_error_fails() {
    assert_eq!(
        RESPError::try_from(RESPValue::BulkString(None)),
        Err(RESPValueConversionError::DataTypeMismatch(
            RESPDataType::Error,
            RESPDataType::BulkString,
        )),
    );

    assert_eq!(
        RESPError::try_from(RESPValue::Array(None)),
        Err(RESPValueConversionError::DataTypeMismatch(
            RESPDataType::Error,
            RESPDataType::Array
        )),
    );
}

#[test]
fn test_try_into_array() {
    let res: Result<Option<Vec<i64>>, _> =
        RESPValue::Array(Some(vec![RESPValue::Integer(123), RESPValue::Integer(456)])).try_into();
    assert_eq!(res, Ok(Some(vec![123, 456])));
}

#[test]
fn test_try_into_array_fails() {
    let res: Result<Option<Vec<i64>>, _> = RESPValue::Integer(123).try_into();
    assert_eq!(
        res,
        Err(RESPValueConversionError::DataTypeMismatch(
            RESPDataType::Array,
            RESPDataType::Integer
        ))
    );
}
