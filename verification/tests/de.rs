use muesli::de::{
    any_value, array_pair, object_property, value_array, value_boolean, value_decimal, value_integer,
    value_null, value_object, value_string,
};
use muesli::{
    session_decode, ArrayEntry, ArrayKey, Decimal, ObjectProperty, ObjectPropertyVisibility, ParseError,
    SessionEntry, Value, DEFAULT_MAX_DEPTH,
};

/// Runs a reader on each input and compares what it read, and what it left
/// unread, with the expected pair.
fn run_cases<'s, T: std::fmt::Debug + PartialEq>(
    read: impl Fn(&'s [u8]) -> Result<(T, usize), ParseError>,
    cases: &[(&'s [u8], Option<(&[u8], T)>)],
) {
    for (input, expected) in cases {
        let output = read(input);
        match expected {
            Some((rest, value)) => {
                let (read, end) = output.unwrap();
                assert_eq!(&read, value);
                assert_eq!(&input[end..], *rest);
            }
            None => assert!(output.is_err()),
        }
    }
}

/// The number that a decimal stands for.
fn as_f64(d: &Decimal) -> f64 {
    match d {
        Decimal::Nan => f64::NAN,
        Decimal::Infinity => f64::INFINITY,
        Decimal::NegInfinity => f64::NEG_INFINITY,
        Decimal::Literal(text) => std::str::from_utf8(text).unwrap().parse().unwrap(),
    }
}

fn entry<'a>(key: ArrayKey<'a>, value: Value<'a>) -> ArrayEntry<'a> {
    ArrayEntry { key, value }
}

#[test]
fn parse_null_value() {
    let cases = [
        (b"N;".as_slice(), Some((b"".as_slice(), Value::Null))),
        (
            b"N;extra".as_slice(),
            Some((b"extra".as_slice(), Value::Null)),
        ),
    ];
    run_cases(|input| value_null(input, 0), &cases);
}

#[test]
fn parse_bool_value() {
    let cases = [
        (
            b"b:0;".as_slice(),
            Some((b"".as_slice(), Value::Boolean(false))),
        ),
        (
            b"b:0;extra".as_slice(),
            Some((b"extra".as_slice(), Value::Boolean(false))),
        ),
        (
            b"b:1;".as_slice(),
            Some((b"".as_slice(), Value::Boolean(true))),
        ),
        (
            b"b:1;extra".as_slice(),
            Some((b"extra".as_slice(), Value::Boolean(true))),
        ),
    ];
    run_cases(|input| value_boolean(input, 0), &cases);
}

#[test]
fn parse_positive_integer_value() {
    let cases = [
        (
            b"i:0;".as_slice(),
            Some((b"".as_slice(), Value::Integer(0))),
        ),
        (
            b"i:1;".as_slice(),
            Some((b"".as_slice(), Value::Integer(1))),
        ),
        (
            b"i:01;".as_slice(),
            Some((b"".as_slice(), Value::Integer(1))),
        ),
        (
            b"i:23;".as_slice(),
            Some((b"".as_slice(), Value::Integer(23))),
        ),
        (
            b"i:1234567890;".as_slice(),
            Some((b"".as_slice(), Value::Integer(1_234_567_890))),
        ),
        (
            b"i:1234567890;extra".as_slice(),
            Some((b"extra".as_slice(), Value::Integer(1_234_567_890))),
        ),
    ];

    run_cases(|input| value_integer(input, 0), &cases);
}

#[test]
fn parse_negative_integer_value() {
    let cases = [
        (
            b"i:-0;".as_slice(),
            Some((b"".as_slice(), Value::Integer(0))),
        ),
        (
            b"i:-1;".as_slice(),
            Some((b"".as_slice(), Value::Integer(-1))),
        ),
        (
            b"i:-01;".as_slice(),
            Some((b"".as_slice(), Value::Integer(-1))),
        ),
        (
            b"i:-23;".as_slice(),
            Some((b"".as_slice(), Value::Integer(-23))),
        ),
        (
            b"i:-1234567890;".as_slice(),
            Some((b"".as_slice(), Value::Integer(-1_234_567_890))),
        ),
        (
            b"i:-1234567890;extra".as_slice(),
            Some((b"extra".as_slice(), Value::Integer(-1_234_567_890))),
        ),
    ];

    run_cases(|input| value_integer(input, 0), &cases);
}

#[test]
fn parse_decimal_value() {
    let cases = [
        (b"d:0.0;".as_slice(), Some((b"".as_slice(), 0.0))),
        (b"d:-1.0;".as_slice(), Some((b"".as_slice(), -1.0))),
        (b"d:INF;".as_slice(), Some((b"".as_slice(), f64::INFINITY))),
        (
            b"d:-INF;".as_slice(),
            Some((b"".as_slice(), f64::NEG_INFINITY)),
        ),
    ];

    run_cases(
        |input| match value_decimal(input, 0) {
            Ok((Value::Decimal(d), end)) => Ok((as_f64(&d), end)),
            Ok((other, _)) => panic!("should have been a decimal, not {other:?}"),
            Err(e) => Err(e),
        },
        &cases,
    );
}

#[test]
fn parse_nan_decimal_value() {
    let input = b"d:NAN;".as_slice();

    let (output, end) = value_decimal(input, 0).unwrap();
    assert_eq!(end, input.len());
    match output {
        Value::Decimal(d) => assert!(as_f64(&d).is_nan()),
        _ => panic!("should have been a decimal"),
    }
}

#[test]
fn parse_string_value() {
    let cases = [
        (
            b"s:10:\"1234567890\";".as_slice(),
            Some((b"".as_slice(), Value::String("1234567890".as_ref()))),
        ),
        (
            b"s:11:\"123456\"7890\";".as_slice(),
            Some((b"".as_slice(), Value::String("123456\"7890".as_ref()))),
        ),
        (
            b"s:12:\"123456\";7890\";".as_slice(),
            Some((b"".as_slice(), Value::String("123456\";7890".as_ref()))),
        ),
    ];

    run_cases(|input| value_string(input, 0), &cases);
}

#[test]
fn parse_array_pair() {
    let cases = [
        (
            b"s:10:\"1234567890\";i:10;".as_slice(),
            Some((
                b"".as_slice(),
                entry(ArrayKey::String("1234567890".as_ref()), Value::Integer(10)),
            )),
        ),
        (
            b"i:10;s:10:\"1234567890\";".as_slice(),
            Some((
                b"".as_slice(),
                entry(ArrayKey::Integer(10), Value::String("1234567890".as_ref())),
            )),
        ),
    ];

    run_cases(|input| array_pair(input, 0, DEFAULT_MAX_DEPTH), &cases);
}

#[test]
fn parse_array_value() {
    let cases = [
        (
            b"a:1:{s:3:\"foo\";s:3:\"bar\";}".as_slice(),
            Some((
                b"".as_slice(),
                Value::Array(vec![
                    entry(ArrayKey::String(b"foo"), Value::String(b"bar"))
                ]),
            )),
        ),
        (
            b"a:1:{i:3;s:3:\"baz\";}".as_slice(),
            Some((
                b"".as_slice(),
                Value::Array(vec![
                    entry(ArrayKey::Integer(3), Value::String(b"baz"))
                ]),
            )),
        ),
        (
            r#"a:3:{i:12;d:0.12;s:3:"foo";a:1:{s:10:"some-value";s:15:""other";"value"";}i:43;i:76;}"#.as_bytes(),
            Some((
                b"".as_slice(),
                Value::Array(vec![
                    entry(ArrayKey::Integer(12), Value::Decimal(Decimal::Literal(b"0.12"))),
                    entry(ArrayKey::String(b"foo"), Value::Array(vec![
                        entry(
                            ArrayKey::String(b"some-value"),
                            Value::String(r#""other";"value""#.as_bytes())
                        )
                    ])),
                    entry(ArrayKey::Integer(43), Value::Integer(76)),
                ]),
            )),
        ),
    ];

    run_cases(|input| value_array(input, 0, DEFAULT_MAX_DEPTH), &cases);
    assert_eq!(as_f64(&Decimal::Literal(b"0.12")), 0.12);
}

#[test]
fn parse_object_property() {
    let cases = [
        (
            b"s:6:\"public\";i:1;".as_slice(),
            Some((
                b"".as_slice(),
                ObjectProperty {
                    name: b"public".as_slice(),
                    visibility: ObjectPropertyVisibility::Public,
                    value: Value::Integer(1),
                },
            )),
        ),
        (
            b"s:12:\"\0*\0protected\";i:42;".as_slice(),
            Some((
                b"".as_slice(),
                ObjectProperty {
                    name: b"protected".as_slice(),
                    visibility: ObjectPropertyVisibility::Protected,
                    value: Value::Integer(42),
                },
            )),
        ),
        (
            b"s:18:\"\0ClassName\0private\";s:5:\"value\";".as_slice(),
            Some((
                b"".as_slice(),
                ObjectProperty {
                    name: b"private".as_slice(),
                    visibility: ObjectPropertyVisibility::Private,
                    value: Value::String(b"value".as_slice()),
                },
            )),
        ),
    ];

    run_cases(|input| object_property(input, 0, DEFAULT_MAX_DEPTH), &cases);
}

#[test]
fn parse_object() {
    let cases = [
        (
            b"O:4:\"Test\":3:{s:6:\"public\";i:1;s:12:\"\0*\0protected\";i:2;s:13:\"\0Test\0private\";i:3;}".as_slice(),
            Some((
                b"".as_slice(),
                Value::Object {
                    class_name: b"Test".as_slice(),
                    properties: vec![
                        ObjectProperty {
                            name: b"public".as_slice(),
                            visibility: ObjectPropertyVisibility::Public,
                            value: Value::Integer(1),
                        },
                        ObjectProperty {
                            name: b"protected".as_slice(),
                            visibility: ObjectPropertyVisibility::Protected,
                            value: Value::Integer(2),
                        },
                        ObjectProperty {
                            name: b"private".as_slice(),
                            visibility: ObjectPropertyVisibility::Private,
                            value: Value::Integer(3),
                        },
                    ],
                }
            )),
        ),
    ];

    run_cases(|input| value_object(input, 0, DEFAULT_MAX_DEPTH), &cases);
}

#[test]
fn parse_any_value() {
    let cases = [
        (
            b"i:-0;".as_slice(),
            Some((b"".as_slice(), Value::Integer(0))),
        ),
        (
            b"i:3465;".as_slice(),
            Some((b"".as_slice(), Value::Integer(3465))),
        ),
        (b"N;".as_slice(), Some((b"".as_slice(), Value::Null))),
        (
            b"b:0;".as_slice(),
            Some((b"".as_slice(), Value::Boolean(false))),
        ),
        (
            b"i:3465;N;".as_slice(),
            Some((b"N;".as_slice(), Value::Integer(3465))),
        ),
        (
            b"d:-10;".as_slice(),
            Some((b"".as_slice(), Value::Decimal(Decimal::Literal(b"-10")))),
        ),
        (
            b"d:4.123456789;".as_slice(),
            Some((
                b"".as_slice(),
                Value::Decimal(Decimal::Literal(b"4.123456789")),
            )),
        ),
        (
            b"s:12:\"123456\";7890\";".as_slice(),
            Some((b"".as_slice(), Value::String("123456\";7890".as_ref()))),
        ),
        (
            b"O:7:\"MyClass\":1:{s:10:\"myProperty\";i:42;}".as_slice(),
            Some((
                b"".as_slice(),
                Value::Object {
                    class_name: b"MyClass".as_slice(),
                    properties: vec![ObjectProperty {
                        name: b"myProperty".as_slice(),
                        visibility: ObjectPropertyVisibility::Public,
                        value: Value::Integer(42),
                    }],
                },
            )),
        ),
        (
            b"a:2:{i:0;s:3:\"foo\";i:1;R:2;}",
            Some((
                b"".as_slice(),
                Value::Array(vec![
                    entry(ArrayKey::Integer(0), Value::String(b"foo".as_slice())),
                    entry(ArrayKey::Integer(1), Value::ValueReference(2)),
                ]),
            )),
        ),
        (
            b"O:8:\"stdClass\":1:{s:3:\"foo\";r:1;}",
            Some((
                b"".as_slice(),
                Value::Object {
                    class_name: b"stdClass".as_slice(),
                    properties: vec![ObjectProperty {
                        name: b"foo".as_slice(),
                        visibility: ObjectPropertyVisibility::Public,
                        value: Value::ObjectReference(1),
                    }],
                },
            )),
        ),
        (
            b"C:23:\"CustomSerializableClass\":6:{foobar}",
            Some((
                b"".as_slice(),
                Value::CustomObject {
                    class_name: b"CustomSerializableClass".as_slice(),
                    data: b"foobar".as_slice(),
                },
            )),
        ),
        (b"i;-0;".as_slice(), None),
        (b"i:12_320;".as_slice(), None),
        (b"i:86A23;".as_slice(), None),
        (b"b;2;".as_slice(), None),
        (b"k:2;".as_slice(), None),
        (b"d:12-12".as_slice(), None),
    ];

    run_cases(|input| any_value(input, 0, DEFAULT_MAX_DEPTH), &cases);
    assert_eq!(as_f64(&Decimal::Literal(b"-10")), -10.0);
    assert_eq!(as_f64(&Decimal::Literal(b"4.123456789")), 4.123_456_789);
}

#[test]
fn decode_session() {
    let cases = [
        (
            b"".as_slice(),
            Some(vec![]),
        ),
        (
            b"foo|i:42;".as_slice(),
            Some(
                vec![
                    SessionEntry {
                        key: b"foo",
                        value: Value::Integer(42),
                    },
                ],
            ),
        ),
        (
            b"|s:4:\"okay\";".as_slice(),
            Some(
                vec![
                    SessionEntry {
                        key: b"",
                        value: Value::String(b"okay"),
                    },
                ],
            ),
        ),
        (
            b"|s:4:\"okay\";foo|i:42;".as_slice(),
            Some(
                vec![
                    SessionEntry {
                        key: b"",
                        value: Value::String(b"okay"),
                    },
                    SessionEntry {
                        key: b"foo",
                        value: Value::Integer(42),
                    },
                ],
            ),
        ),
        (
            b"|s:4:\"okay\";foo|i:42;a:1{\"not an array\"}|a:1:{s:10:\"some-value\";s:15:\"\"other\";\"value\"\";}".as_slice(),
            Some(
                vec![
                    SessionEntry {
                        key: b"",
                        value: Value::String(b"okay"),
                    },
                    SessionEntry {
                        key: b"foo",
                        value: Value::Integer(42),
                    },
                    SessionEntry {
                        key: b"a:1{\"not an array\"}",
                        value: Value::Array(vec![
                            entry(
                                ArrayKey::String(b"some-value"),
                                Value::String(r#""other";"value""#.as_bytes())
                            )
                        ]),
                    },
                ],
            ),
        ),
    ];

    for (input, expected) in cases {
        let output = session_decode(input);
        match expected {
            Some(expected) => assert_eq!(output, Ok(expected)),
            None => assert!(output.is_err()),
        }
    }
}
