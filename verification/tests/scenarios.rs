use muesli::de::object_property;
use muesli::{
    serialize, session_decode, session_encode, unserialize, ArrayEntry, ArrayKey, Decimal, ObjectProperty,
    ObjectPropertyVisibility, SessionEntry, Value, DEFAULT_MAX_DEPTH,
};

#[test]
fn scalars_are_read() {
    assert_eq!(unserialize(b"N;"), Ok(Value::Null));
    assert_eq!(unserialize(b"i:-0;"), Ok(Value::Integer(0)));
    assert_eq!(unserialize(b"i:01;"), Ok(Value::Integer(1)));
    assert_eq!(unserialize(b"b:1;"), Ok(Value::Boolean(true)));
    assert_eq!(unserialize(b"b:0;"), Ok(Value::Boolean(false)));
}

#[test]
fn the_length_prefix_overrides_quotes() {
    assert_eq!(
        unserialize(b"s:11:\"123456\"7890\";"),
        Ok(Value::String(b"123456\"7890"))
    );
}

#[test]
fn an_array_is_written_entry_by_entry() {
    let array = Value::Array(vec![
        ArrayEntry { key: ArrayKey::Integer(0), value: Value::Integer(1) },
        ArrayEntry { key: ArrayKey::Integer(1), value: Value::Integer(1) },
    ]);
    let mut bytes = Vec::new();
    assert_eq!(serialize(&mut bytes, &array), 22);
    assert_eq!(bytes, b"a:2:{i:0;i:1;i:1;i:1;}");
}

#[test]
fn a_protected_property_keeps_its_bytes() {
    let input = b"s:12:\"\0*\0protected\";i:42;".as_slice();
    let (property, end) = object_property(input, 0, DEFAULT_MAX_DEPTH).unwrap();
    assert_eq!(end, input.len());
    assert_eq!(
        property,
        ObjectProperty {
            visibility: ObjectPropertyVisibility::Protected,
            name: b"protected",
            value: Value::Integer(42),
        }
    );

    let object = Value::Object { class_name: b"Any", properties: vec![property] };
    let mut bytes = Vec::new();
    serialize(&mut bytes, &object);
    let mut expected = b"O:3:\"Any\":1:{".to_vec();
    expected.extend_from_slice(input);
    expected.push(b'}');
    assert_eq!(bytes, expected);
}

#[test]
fn names_are_split_by_their_markers() {
    let cases: [(&[u8], ObjectPropertyVisibility, &[u8]); 10] = [
        (b"plain", ObjectPropertyVisibility::Public, b"plain"),
        (b"", ObjectPropertyVisibility::Public, b""),
        (b"\0*\0p", ObjectPropertyVisibility::Protected, b"p"),
        (b"\0*\0", ObjectPropertyVisibility::Protected, b""),
        (b"\0Class\0p", ObjectPropertyVisibility::Private, b"p"),
        (b"\0C\0", ObjectPropertyVisibility::Private, b""),
        (b"\0C\0p\0q", ObjectPropertyVisibility::Private, b"p\0q"),
        (b"\0\0p", ObjectPropertyVisibility::Public, b"\0\0p"),
        (b"\0Class", ObjectPropertyVisibility::Public, b"\0Class"),
        (b"\0*", ObjectPropertyVisibility::Public, b"\0*"),
    ];
    for (mangled, visibility, name) in cases {
        assert_eq!(muesli::de::visibility(mangled), (visibility, name));
    }
}

#[test]
fn a_session_is_read_and_written() {
    let input = b"foo|i:42;bar|s:3:\"baz\";".as_slice();
    let session = session_decode(input).unwrap();
    assert_eq!(
        session,
        vec![
            SessionEntry { key: b"foo", value: Value::Integer(42) },
            SessionEntry { key: b"bar", value: Value::String(b"baz") },
        ]
    );
    let mut bytes = Vec::new();
    assert_eq!(session_encode(&mut bytes, &session), input.len());
    assert_eq!(bytes, input);
    assert_eq!(session_decode(b""), Ok(vec![]));
}

#[test]
fn decimal_literals_are_checked() {
    for text in [b"0".as_slice(), b"-0", b"12", b"-12.5", b"0.000", b"007.10"] {
        assert_eq!(Decimal::literal(text), Some(Decimal::Literal(text)));
    }
    for text in [
        b"".as_slice(),
        b"-",
        b".5",
        b"5.",
        b"1e5",
        b"+1",
        b"--1",
        b"1.2.3",
        b"NAN",
        b"INF",
        b"-INF",
        b"1 ",
        b"1;",
    ] {
        assert_eq!(Decimal::literal(text), None);
    }
}

#[test]
fn decimals_are_kept_as_written() {
    assert_eq!(
        unserialize(b"d:0.50;"),
        Ok(Value::Decimal(Decimal::Literal(b"0.50")))
    );
    assert_eq!(unserialize(b"d:NAN;"), Ok(Value::Decimal(Decimal::Nan)));
    assert_eq!(unserialize(b"d:INF;"), Ok(Value::Decimal(Decimal::Infinity)));
    assert_eq!(unserialize(b"d:-INF;"), Ok(Value::Decimal(Decimal::NegInfinity)));
    assert!(unserialize(b"d:NaN;").is_err());
    assert!(unserialize(b"d:+1;").is_err());
    assert!(unserialize(b"d:1e5;").is_err());
}

#[test]
fn a_session_written_is_read_again() {
    let data = vec![
        SessionEntry { key: b"foo", value: Value::Integer(42) },
        SessionEntry { key: b"bar", value: Value::String(b"baz|qux") },
    ];

    let mut session = Vec::new();
    session_encode(&mut session, &data);
    assert_eq!(session, b"foo|i:42;bar|s:7:\"baz|qux\";");
    assert_eq!(session_decode(&session), Ok(data));
}
