use muesli::{session_encode, ArrayEntry, ArrayKey, Decimal, SessionEntry, Value};

#[test]
fn convert_from_ints() {
    assert_eq!(Value::from(42u8), Value::Integer(42),);
    assert_eq!(Value::from(42u16), Value::Integer(42),);
    assert_eq!(Value::from(42u32), Value::Integer(42),);
    assert_eq!(Value::from(42i8), Value::Integer(42),);
    assert_eq!(Value::from(42i16), Value::Integer(42),);
    assert_eq!(Value::from(42i32), Value::Integer(42),);
    assert_eq!(Value::from(42i64), Value::Integer(42),);
    assert_eq!(Value::from(-42i8), Value::Integer(-42),);
    assert_eq!(Value::from(-42i16), Value::Integer(-42),);
    assert_eq!(Value::from(-42i32), Value::Integer(-42),);
    assert_eq!(Value::from(-42i64), Value::Integer(-42),);
}

#[test]
fn convert_from_floats() {
    let single = format!("{}", f64::from(-42.0f32));
    assert_eq!(
        Decimal::literal(single.as_bytes()).map(Value::Decimal),
        Some(Value::Decimal(Decimal::Literal(b"-42"))),
    );
    let double = format!("{}", -42.12f64);
    assert_eq!(
        Decimal::literal(double.as_bytes()).map(Value::Decimal),
        Some(Value::Decimal(Decimal::Literal(b"-42.12"))),
    );
}

#[test]
fn convert_from_vec_of_ints() {
    assert_eq!(
        Value::from(vec![5, 4, 3, 2, 1]),
        Value::Array(vec![
            ArrayEntry {
                key: ArrayKey::Integer(0),
                value: Value::Integer(5),
            },
            ArrayEntry {
                key: ArrayKey::Integer(1),
                value: Value::Integer(4),
            },
            ArrayEntry {
                key: ArrayKey::Integer(2),
                value: Value::Integer(3),
            },
            ArrayEntry {
                key: ArrayKey::Integer(3),
                value: Value::Integer(2),
            },
            ArrayEntry {
                key: ArrayKey::Integer(4),
                value: Value::Integer(1),
            },
        ]),
    );
}

#[test]
fn convert_from_vec_of_key_value_pairs() {
    assert_eq!(
        Value::from(vec![("one", 1i64), ("two", 2), ("three", 3), ("four", 4)]),
        Value::Array(vec![
            ArrayEntry {
                key: ArrayKey::String(b"one"),
                value: Value::Integer(1),
            },
            ArrayEntry {
                key: ArrayKey::String(b"two"),
                value: Value::Integer(2),
            },
            ArrayEntry {
                key: ArrayKey::String(b"three"),
                value: Value::Integer(3),
            },
            ArrayEntry {
                key: ArrayKey::String(b"four"),
                value: Value::Integer(4),
            },
        ]),
    );
}

#[test]
fn convert_from_vec_of_mixed_values() {
    assert_eq!(
        Value::from(vec![
            ("one", Value::from("string")),
            ("two", Value::from(2)),
            ("three", Value::from(true)),
            ("four", Value::from(vec![1, 2, 3]))
        ]),
        Value::Array(vec![
            ArrayEntry {
                key: ArrayKey::String(b"one"),
                value: Value::String(b"string"),
            },
            ArrayEntry {
                key: ArrayKey::String(b"two"),
                value: Value::Integer(2),
            },
            ArrayEntry {
                key: ArrayKey::String(b"three"),
                value: Value::Boolean(true),
            },
            ArrayEntry {
                key: ArrayKey::String(b"four"),
                value: Value::Array(vec![
                    ArrayEntry {
                        key: ArrayKey::Integer(0),
                        value: Value::Integer(1),
                    },
                    ArrayEntry {
                        key: ArrayKey::Integer(1),
                        value: Value::Integer(2),
                    },
                    ArrayEntry {
                        key: ArrayKey::Integer(2),
                        value: Value::Integer(3),
                    },
                ]),
            },
        ]),
    );
}

#[test]
fn convert_from_bytes_and_text() {
    assert_eq!(Value::from(b"raw".as_slice()), Value::String(b"raw"));
    assert_eq!(Value::from("text"), Value::String(b"text"));
    assert_eq!(ArrayKey::from(b"raw".as_slice()), ArrayKey::String(b"raw"));
    assert_eq!(ArrayKey::from("text"), ArrayKey::String(b"text"));
    assert_eq!(ArrayKey::from(7u8), ArrayKey::Integer(7));
    assert_eq!(ArrayKey::from(-7i32), ArrayKey::Integer(-7));
}

#[test]
fn convert_from_optional_values() {
    assert_eq!(Value::from(Some(3i32)), Value::Integer(3));
    assert_eq!(Value::from(None::<bool>), Value::Null);
    assert_eq!(Value::from(Some(Some("x"))), Value::String(b"x"));
}

#[test]
fn converted_values_make_a_session() {
    let data = vec![
        SessionEntry {
            key: b"foo",
            value: 42.into(),
        },
        SessionEntry {
            key: b"bar",
            value: b"baz|qux".as_slice().into(),
        },
        SessionEntry {
            key: b"array",
            value: vec![1, 2, 3, 4, 5].into(),
        },
    ];

    let mut session = Vec::<u8>::new();
    session_encode(&mut session, &data);
    assert_eq!(
        session,
        b"foo|i:42;bar|s:7:\"baz|qux\";array|a:5:{i:0;i:1;i:1;i:2;i:2;i:3;i:3;i:4;i:4;i:5;}"
            .as_slice()
    );
}
