use redis_starter_rust::{
    decode_command, resp_to_debug_str, BulkString, Command, CommandError, ParseError, RESPDataType, RESPError, RESPValue,
    RESPValueConversionError, RenderMode, SimpleString,
};

fn sample() -> RESPValue {
    RESPValue::Array(Some(vec![
        RESPValue::integer(i64::MIN),
        RESPValue::integer(i64::MAX),
        RESPValue::integer(0),
        RESPValue::bulk_string(Some("a\r\nb".to_string())),
        RESPValue::bulk_string(Some(String::new())),
        RESPValue::simple_string("OK\rfine".to_string()),
        RESPValue::error("ERR bad".to_string()),
        RESPValue::Array(Some(vec![])),
        RESPValue::Array(Some(vec![RESPValue::integer(-42)])),
    ]))
}

#[test]
fn round_trip_wire_bytes() {
    let v = sample();
    let bytes = v.render(RenderMode::Wire);
    let (back, rest) = RESPValue::parse(&bytes).unwrap();
    assert_eq!(back, v);
    assert!(rest.is_empty());
}

#[test]
fn round_trip_keeps_trailing_bytes() {
    let v = RESPValue::simple_string("PONG".to_string());
    let mut bytes = v.render(RenderMode::Wire);
    bytes.extend_from_slice(b":1\r\n");
    let (back, rest) = RESPValue::parse(&bytes).unwrap();
    assert_eq!(back, v);
    assert_eq!(rest, b":1\r\n");
}

#[test]
fn null_and_empty_bulk_strings_differ() {
    let null = RESPValue::bulk_string(None).render(RenderMode::Wire);
    let empty = RESPValue::bulk_string(Some(String::new())).render(RenderMode::Wire);
    assert_eq!(null, b"$-1\r\n".to_vec());
    assert_eq!(empty, b"$0\r\n\r\n".to_vec());
    assert_eq!(
        RESPValue::parse(&null),
        Ok((RESPValue::BulkString(None), "".as_bytes()))
    );
    assert_eq!(
        RESPValue::parse(&empty),
        Ok((RESPValue::BulkString(Some(String::new())), "".as_bytes()))
    );
}

#[test]
fn null_and_empty_arrays_differ() {
    assert_eq!(RESPValue::Array(None).render(RenderMode::Wire), b"*-1\r\n".to_vec());
    assert_eq!(RESPValue::Array(Some(vec![])).render(RenderMode::Wire), b"*0\r\n".to_vec());
    assert_eq!(
        RESPValue::parse("*0\r\n".as_bytes()),
        Ok((RESPValue::Array(Some(vec![])), "".as_bytes()))
    );
}

#[test]
fn nested_array_depth() {
    assert_eq!(
        RESPValue::parse("*1\r\n*1\r\n:7\r\ntail".as_bytes()),
        Ok((
            RESPValue::Array(Some(vec![RESPValue::Array(Some(vec![RESPValue::Integer(7)]))])),
            "tail".as_bytes()
        ))
    );
}

#[test]
fn negative_lengths_rejected() {
    assert_eq!(
        RESPValue::parse("$-2\r\n".as_bytes()),
        Err(ParseError::NegativeValueLength)
    );
    assert_eq!(
        RESPValue::parse("*-9\r\n:1\r\n".as_bytes()),
        Err(ParseError::NegativeValueLength)
    );
    assert_eq!(
        RESPValue::parse("$-99999999999999999999\r\n".as_bytes()),
        Err(ParseError::NegativeValueLength)
    );
    assert_eq!(
        RESPValue::parse("*-9223372036854775809\r\n".as_bytes()),
        Err(ParseError::NegativeValueLength)
    );
    assert_eq!(
        RESPValue::parse("$-9223372036854775808\r\n".as_bytes()),
        Err(ParseError::NegativeValueLength)
    );
}

#[test]
fn truncated_payload() {
    assert_eq!(
        RESPValue::parse("$5\r\nhell".as_bytes()),
        Err(ParseError::NotEnoughBytes)
    );
    assert_eq!(
        RESPValue::parse("$5\r\nhello".as_bytes()),
        Err(ParseError::MissingCLRF)
    );
    assert_eq!(
        RESPValue::parse("$5\r\nhello\r".as_bytes()),
        Err(ParseError::MissingCLRF)
    );
    assert_eq!(
        RESPValue::parse("$0\r\n".as_bytes()),
        Err(ParseError::MissingCLRF)
    );
}

#[test]
fn unknown_tag() {
    assert_eq!(
        RESPValue::parse("x...".as_bytes()),
        Err(ParseError::UnknownDataType('x'))
    );
}

#[test]
fn empty_input_is_not_enough_bytes() {
    assert_eq!(RESPValue::parse(b""), Err(ParseError::NotEnoughBytes));
}

#[test]
fn truncated_headers_miss_terminator() {
    assert_eq!(RESPValue::parse(b":"), Err(ParseError::MissingCLRF));
    assert_eq!(RESPValue::parse(b"$"), Err(ParseError::MissingCLRF));
    assert_eq!(RESPValue::parse(b"+"), Err(ParseError::MissingCLRF));
    assert_eq!(RESPValue::parse(b"*"), Err(ParseError::MissingCLRF));
}

#[test]
fn integer_needs_a_digit() {
    assert_eq!(
        RESPValue::parse(":-\r\n".as_bytes()),
        Err(ParseError::UnexpectedNonNumericCharacter('\r'))
    );
    assert_eq!(
        RESPValue::parse(":\r\n".as_bytes()),
        Err(ParseError::UnexpectedNonNumericCharacter('\r'))
    );
}

#[test]
fn integer_extremes() {
    assert_eq!(
        RESPValue::parse(":-9223372036854775808\r\n".as_bytes()),
        Ok((RESPValue::Integer(i64::MIN), "".as_bytes()))
    );
    assert_eq!(
        RESPValue::parse(":9223372036854775807\r\n".as_bytes()),
        Ok((RESPValue::Integer(i64::MAX), "".as_bytes()))
    );
    assert_eq!(
        RESPValue::parse(":-0\r\n".as_bytes()),
        Ok((RESPValue::Integer(0), "".as_bytes()))
    );
}

#[test]
fn integer_out_of_range_is_rejected() {
    assert_eq!(
        RESPValue::parse(":9223372036854775808\r\n".as_bytes()),
        Err(ParseError::UnexpectedNonNumericCharacter('8'))
    );
    assert_eq!(
        RESPValue::parse(":-9223372036854775809\r\n".as_bytes()),
        Err(ParseError::UnexpectedNonNumericCharacter('9'))
    );
    assert_eq!(
        RESPValue::parse(":99999999999999999999\r\n".as_bytes()),
        Err(ParseError::UnexpectedNonNumericCharacter('9'))
    );
    assert_eq!(
        RESPValue::parse(":18446744073709551617\r\n".as_bytes()),
        Err(ParseError::UnexpectedNonNumericCharacter('7'))
    );
    assert_eq!(
        RESPValue::parse("$18446744073709551621\r\nhello\r\n".as_bytes()),
        Err(ParseError::UnexpectedNonNumericCharacter('1'))
    );
}

#[test]
fn status_with_lone_carriage_return() {
    assert_eq!(
        RESPValue::parse(b"+OK\rOK\r\n"),
        Ok((RESPValue::SimpleString("OK\rOK".to_string()), "".as_bytes()))
    );
}

#[test]
fn projection_of_null_array_onto_integer() {
    assert_eq!(
        i64::try_from(RESPValue::Array(None)),
        Err(RESPValueConversionError::DataTypeMismatch(
            RESPDataType::Integer,
            RESPDataType::Array
        ))
    );
}

#[test]
fn scenario_array_of_two_bulk_strings() {
    assert_eq!(
        RESPValue::parse(b"*2\r\n$5\r\nhello\r\n$5\r\nworld\r\n"),
        Ok((
            RESPValue::Array(Some(vec![
                RESPValue::BulkString(Some("hello".to_string())),
                RESPValue::BulkString(Some("world".to_string())),
            ])),
            "".as_bytes()
        ))
    );
}

#[test]
fn payload_bytes_read_as_code_points() {
    assert_eq!(
        RESPValue::parse(b"$2\r\n\xe9\xff\r\n"),
        Ok((
            RESPValue::BulkString(Some("\u{e9}\u{ff}".to_string())),
            "".as_bytes()
        ))
    );
}

#[test]
fn bulk_string_length_counts_utf8_bytes() {
    assert_eq!(
        RESPValue::bulk_string(Some("\u{e9}".to_string())).render(RenderMode::Wire),
        b"$2\r\n\xc3\xa9\r\n".to_vec()
    );
}

#[test]
fn render_wire_exact_bytes() {
    let v = RESPValue::Array(Some(vec![
        RESPValue::integer(-12),
        RESPValue::simple_string("OK".to_string()),
        RESPValue::error("ERR".to_string()),
        RESPValue::bulk_string(Some("hi".to_string())),
    ]));
    assert_eq!(
        v.render(RenderMode::Wire),
        b"*4\r\n:-12\r\n+OK\r\n-ERR\r\n$2\r\nhi\r\n".to_vec()
    );
}

#[test]
fn render_debug_escapes_terminators() {
    let v = RESPValue::Array(Some(vec![RESPValue::bulk_string(Some("hello".to_string()))]));
    assert_eq!(
        v.render(RenderMode::Debug),
        b"*1\\r\\n$5\\r\\nhello\\r\\n".to_vec()
    );
    assert_eq!(RESPValue::integer(5).render(RenderMode::Debug), b":5\\r\\n".to_vec());
}

#[test]
fn debug_str_escapes_every_cr_and_lf() {
    assert_eq!(resp_to_debug_str(b"+OK\r\n"), "+OK\\r\\n");
    assert_eq!(resp_to_debug_str(b"a\rb\nc"), "a\\rb\\nc");
    assert_eq!(resp_to_debug_str(b""), "");
}

#[test]
fn data_type_of_each_variant() {
    assert_eq!(RESPValue::integer(1).data_type(), RESPDataType::Integer);
    assert_eq!(RESPValue::bulk_string(None).data_type(), RESPDataType::BulkString);
    assert_eq!(RESPValue::simple_string(String::new()).data_type(), RESPDataType::SimpleString);
    assert_eq!(RESPValue::error(String::new()).data_type(), RESPDataType::Error);
    assert_eq!(RESPValue::Array(None).data_type(), RESPDataType::Array);
}

#[test]
fn array_projection_through_try_from() {
    let r: Result<Option<Vec<i64>>, RESPValueConversionError> =
        Option::<Vec<i64>>::try_from(RESPValue::Array(Some(vec![
            RESPValue::Integer(5),
            RESPValue::Array(None),
        ])));
    assert_eq!(
        r,
        Err(RESPValueConversionError::DataTypeMismatch(
            RESPDataType::Integer,
            RESPDataType::Array
        ))
    );
    let r: Result<Option<Vec<i64>>, RESPValueConversionError> =
        Option::<Vec<i64>>::try_from(RESPValue::Array(None));
    assert_eq!(r, Ok(None));
    let r: Result<Option<Vec<i64>>, RESPValueConversionError> =
        Option::<Vec<i64>>::try_from(RESPValue::Array(Some(vec![])));
    assert_eq!(r, Ok(Some(vec![])));
}

#[test]
fn array_projection_stops_at_first_failure() {
    let v = RESPValue::Array(Some(vec![
        RESPValue::Integer(1),
        RESPValue::SimpleString("x".to_string()),
        RESPValue::BulkString(None),
    ]));
    let r: Result<Option<Vec<i64>>, RESPValueConversionError> = v.into_array();
    assert_eq!(
        r,
        Err(RESPValueConversionError::DataTypeMismatch(
            RESPDataType::Integer,
            RESPDataType::SimpleString
        ))
    );
}

#[test]
fn array_projection_of_null_and_of_bulk_strings() {
    let r: Result<Option<Vec<i64>>, RESPValueConversionError> = RESPValue::Array(None).into_array();
    assert_eq!(r, Ok(None));
    let v = RESPValue::Array(Some(vec![
        RESPValue::BulkString(Some("GET".to_string())),
        RESPValue::BulkString(None),
    ]));
    let r: Result<Option<Vec<BulkString>>, RESPValueConversionError> = v.into_array();
    assert_eq!(
        r,
        Ok(Some(vec![BulkString(Some("GET".to_string())), BulkString(None)]))
    );
}

#[test]
fn wrappers_give_their_contents_back() {
    let b = BulkString(Some("k".to_string()));
    assert_eq!(b.as_ref(), Some(&"k".to_string()));
    let o: Option<String> = b.into();
    assert_eq!(o, Some("k".to_string()));
    let s: String = SimpleString("OK".to_string()).into();
    assert_eq!(s, "OK");
    let e: String = RESPError("ERR".to_string()).into();
    assert_eq!(e, "ERR");
}

fn request(words: &[Option<&str>]) -> RESPValue {
    RESPValue::Array(Some(
        words
            .iter()
            .map(|w| RESPValue::BulkString(w.map(|s| s.to_string())))
            .collect(),
    ))
}

#[test]
fn decode_each_command() {
    match decode_command(&request(&[Some("ECHO"), Some("hey")])) {
        Ok(Command::Echo(m)) => assert_eq!(m, "hey"),
        _ => panic!("expected ECHO"),
    }
    match decode_command(&request(&[Some("echo"), None])) {
        Ok(Command::Echo(m)) => assert_eq!(m, ""),
        _ => panic!("expected ECHO"),
    }
    match decode_command(&request(&[Some("set"), Some("k"), Some("v")])) {
        Ok(Command::Store(k, v)) => {
            assert_eq!(k, "k");
            assert_eq!(v, "v");
        }
        _ => panic!("expected SET"),
    }
    match decode_command(&request(&[Some("GET"), Some("k")])) {
        Ok(Command::Get(k)) => assert_eq!(k, "k"),
        _ => panic!("expected GET"),
    }
    assert!(matches!(decode_command(&request(&[Some("PING")])), Ok(Command::Ping)));
    assert!(matches!(decode_command(&request(&[Some("ping")])), Ok(Command::Ping)));
}

#[test]
fn decode_rejections() {
    assert!(matches!(
        decode_command(&RESPValue::Integer(1)),
        Err(CommandError::NotACommand(RESPValueConversionError::DataTypeMismatch(
            RESPDataType::Array,
            RESPDataType::Integer
        )))
    ));
    assert!(matches!(
        decode_command(&RESPValue::Array(Some(vec![
            RESPValue::BulkString(Some("GET".to_string())),
            RESPValue::Integer(3),
        ]))),
        Err(CommandError::NotACommand(RESPValueConversionError::DataTypeMismatch(
            RESPDataType::BulkString,
            RESPDataType::Integer
        )))
    ));
    assert!(matches!(decode_command(&RESPValue::Array(None)), Err(CommandError::EmptyCommand)));
    assert!(matches!(decode_command(&request(&[])), Err(CommandError::EmptyCommand)));
    assert!(matches!(decode_command(&request(&[None])), Err(CommandError::NullCommandName)));
    assert!(matches!(decode_command(&request(&[Some("ECHO")])), Err(CommandError::NoEchoMessage)));
    assert!(matches!(
        decode_command(&request(&[Some("SET"), Some("k")])),
        Err(CommandError::MissingSetArgument)
    ));
    assert!(matches!(
        decode_command(&request(&[Some("SET"), None, Some("v")])),
        Err(CommandError::MissingSetArgument)
    ));
    assert!(matches!(decode_command(&request(&[Some("get")])), Err(CommandError::MissingGetKey)));
    match decode_command(&request(&[Some("Ping")])) {
        Err(CommandError::UnknownCommand(n)) => assert_eq!(n, "Ping"),
        _ => panic!("expected an unknown command"),
    }
}
