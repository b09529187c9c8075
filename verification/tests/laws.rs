use muesli::text::{write_int, write_nat};
use muesli::{
    serialize, session_decode, session_encode, unserialize, ArrayEntry, ArrayKey, Decimal, ObjectProperty,
    ObjectPropertyVisibility, SessionEntry, Value,
};

fn encoded(value: &Value) -> Vec<u8> {
    let mut bytes = Vec::new();
    let count = serialize(&mut bytes, value);
    assert_eq!(count, bytes.len());
    bytes
}

fn sample_tree() -> Value<'static> {
    Value::Array(vec![
        ArrayEntry { key: ArrayKey::Integer(-3), value: Value::Null },
        ArrayEntry { key: ArrayKey::String(b"k\"|;"), value: Value::Boolean(true) },
        ArrayEntry { key: ArrayKey::Integer(i64::MIN), value: Value::Integer(i64::MAX) },
        ArrayEntry { key: ArrayKey::Integer(0), value: Value::Decimal(Decimal::Literal(b"-0.125")) },
        ArrayEntry { key: ArrayKey::Integer(0), value: Value::Decimal(Decimal::Nan) },
        ArrayEntry { key: ArrayKey::Integer(1), value: Value::Decimal(Decimal::Infinity) },
        ArrayEntry { key: ArrayKey::Integer(2), value: Value::Decimal(Decimal::NegInfinity) },
        ArrayEntry { key: ArrayKey::Integer(3), value: Value::String(b"\0bytes\xff") },
        ArrayEntry { key: ArrayKey::Integer(4), value: Value::ValueReference(1) },
        ArrayEntry { key: ArrayKey::Integer(5), value: Value::ObjectReference(usize::MAX) },
        ArrayEntry {
            key: ArrayKey::Integer(6),
            value: Value::CustomObject { class_name: b"Custom", data: b"{raw}" },
        },
        ArrayEntry {
            key: ArrayKey::Integer(7),
            value: Value::Object {
                class_name: b"Point",
                properties: vec![
                    ObjectProperty {
                        visibility: ObjectPropertyVisibility::Public,
                        name: b"x",
                        value: Value::Integer(1),
                    },
                    ObjectProperty {
                        visibility: ObjectPropertyVisibility::Protected,
                        name: b"",
                        value: Value::Array(vec![]),
                    },
                    ObjectProperty {
                        visibility: ObjectPropertyVisibility::Private,
                        name: b"\0odd",
                        value: Value::Object { class_name: b"", properties: vec![] },
                    },
                ],
            },
        },
    ])
}

#[test]
fn decoding_inverts_encoding() {
    let tree = sample_tree();
    let bytes = encoded(&tree);
    assert_eq!(unserialize(&bytes), Ok(tree));
}

#[test]
fn encoding_inverts_decoding_of_canonical_input() {
    let inputs: [&[u8]; 6] = [
        b"N;",
        b"i:-17;",
        b"d:0.50;",
        b"s:5:\"a\"b;c\";",
        b"a:2:{i:0;a:0:{}s:1:\"k\";O:1:\"A\":2:{s:4:\"\0A\0p\";R:3;s:4:\"\0*\0q\";C:1:\"B\":2:{{}}}}",
        b"O:8:\"stdClass\":0:{}",
    ];
    for input in inputs {
        let value = unserialize(input).unwrap();
        assert_eq!(encoded(&value), input);
    }
}

#[test]
fn encoding_normalises_what_is_not_canonical() {
    let cases: [(&[u8], &[u8]); 6] = [
        (b"i:01;", b"i:1;"),
        (b"i:-0;", b"i:0;"),
        (b"s:03:\"abc\";", b"s:3:\"abc\";"),
        (b"R:007;", b"R:7;"),
        (b"a:01:{i:-00;N;}", b"a:1:{i:0;N;}"),
        (
            b"O:1:\"A\":1:{s:8:\"\0Other\0p\";N;}",
            b"O:1:\"A\":1:{s:4:\"\0A\0p\";N;}",
        ),
    ];
    for (input, canonical) in cases {
        let value = unserialize(input).unwrap();
        let written = encoded(&value);
        assert_eq!(written, canonical);
        assert_eq!(unserialize(&written), Ok(value));
    }
}

#[test]
fn session_decoding_inverts_session_encoding() {
    let session = vec![
        SessionEntry { key: b"", value: Value::Null },
        SessionEntry { key: b"tree", value: sample_tree() },
        SessionEntry { key: b"a:1{\"not an array\"}", value: Value::String(b"x|y") },
    ];
    let mut bytes = Vec::new();
    let count = session_encode(&mut bytes, &session);
    assert_eq!(count, bytes.len());
    assert_eq!(session_decode(&bytes), Ok(session));

    let mut again = Vec::new();
    session_encode(&mut again, &session_decode(&bytes).unwrap());
    assert_eq!(again, bytes);
}

#[test]
fn a_bar_in_a_key_does_not_survive() {
    let session = vec![SessionEntry { key: b"a|b", value: Value::Null }];
    let mut bytes = Vec::new();
    session_encode(&mut bytes, &session);
    assert_eq!(bytes, b"a|b|N;");
    assert!(session_decode(&bytes).is_err());
}

#[test]
fn ambiguous_names_do_not_survive() {
    let object = Value::Object {
        class_name: b"*",
        properties: vec![ObjectProperty {
            visibility: ObjectPropertyVisibility::Private,
            name: b"p",
            value: Value::Null,
        }],
    };
    let bytes = encoded(&object);
    assert_eq!(bytes, b"O:1:\"*\":1:{s:4:\"\0*\0p\";N;}");
    assert_eq!(
        unserialize(&bytes),
        Ok(Value::Object {
            class_name: b"*",
            properties: vec![ObjectProperty {
                visibility: ObjectPropertyVisibility::Protected,
                name: b"p",
                value: Value::Null,
            }],
        })
    );
}

#[test]
fn construction_is_idempotent() {
    let built = Value::from(vec![
        ("null", Value::from(None::<i64>)),
        ("flag", Value::from(false)),
        ("number", Value::from(-7i16)),
        ("bytes", Value::from(b"\x00\x01".as_slice())),
        ("text", Value::from("text")),
        ("list", Value::from(vec![Some(1u8), None, Some(3)])),
        ("pairs", Value::from(vec![(1i64, "one"), (2, "two")])),
    ]);
    let bytes = encoded(&built);
    assert_eq!(
        bytes,
        b"a:7:{s:4:\"null\";N;s:4:\"flag\";b:0;s:6:\"number\";i:-7;s:5:\"bytes\";s:2:\"\x00\x01\";s:4:\"text\";s:4:\"text\";s:4:\"list\";a:3:{i:0;i:1;i:1;N;i:2;i:3;}s:5:\"pairs\";a:2:{i:1;s:3:\"one\";i:2;s:3:\"two\";}}"
    );
    assert_eq!(unserialize(&bytes), Ok(built));
}

#[test]
fn encoders_append() {
    let mut bytes = b"kept".to_vec();
    assert_eq!(serialize(&mut bytes, &Value::Integer(5)), 4);
    assert_eq!(bytes, b"kepti:5;");
    assert_eq!(
        session_encode(&mut bytes, &[SessionEntry { key: b"k", value: Value::Null }]),
        4
    );
    assert_eq!(bytes, b"kepti:5;k|N;");
}

#[test]
fn numbers_are_written_in_shortest_form() {
    let mut bytes = Vec::new();
    write_nat(&mut bytes, 0);
    bytes.push(b' ');
    write_nat(&mut bytes, 9);
    bytes.push(b' ');
    write_nat(&mut bytes, 10);
    bytes.push(b' ');
    write_nat(&mut bytes, u128::MAX);
    bytes.push(b' ');
    write_int(&mut bytes, i64::MIN);
    bytes.push(b' ');
    write_int(&mut bytes, -1);
    bytes.push(b' ');
    write_int(&mut bytes, i64::MAX);
    assert_eq!(
        bytes,
        b"0 9 10 340282366920938463463374607431768211455 -9223372036854775808 -1 9223372036854775807"
    );
}

#[test]
fn lengths_count_bytes() {
    let text = "h\u{e9}llo";
    assert_eq!(encoded(&Value::from(text)), b"s:6:\"h\xc3\xa9llo\";");
    assert_eq!(unserialize(b"s:6:\"h\xc3\xa9llo\";"), Ok(Value::String(text.as_bytes())));
}

#[test]
fn duplicate_keys_are_kept() {
    let value = unserialize(b"a:2:{i:1;i:10;i:1;i:20;}").unwrap();
    assert_eq!(
        value,
        Value::Array(vec![
            ArrayEntry { key: ArrayKey::Integer(1), value: Value::Integer(10) },
            ArrayEntry { key: ArrayKey::Integer(1), value: Value::Integer(20) },
        ])
    );
}

#[test]
fn clones_are_equal() {
    let tree = sample_tree();
    assert_eq!(tree.clone(), tree);
    let entry = SessionEntry { key: b"k", value: sample_tree() };
    assert_eq!(entry.clone(), entry);
}

/// A fixed sequence of bytes that looks random.
fn noise(seed: u64, len: usize) -> Vec<u8> {
    let mut state = seed;
    let mut bytes = Vec::with_capacity(len);
    for _ in 0..len {
        state = state
            .wrapping_mul(6364136223846793005)
            .wrapping_add(1442695040888963407);
        bytes.push((state >> 56) as u8);
    }
    bytes
}

#[test]
fn unserialize_should_not_panic() {
    let alphabet = b"NbidsaOCRr:;\"{}|-.0123456789\0*x";
    for seed in 0..2000u64 {
        let raw = noise(seed, (seed % 40) as usize);
        let _ = unserialize(&raw);
        let likely: Vec<u8> = raw.iter().map(|byte| alphabet[*byte as usize % alphabet.len()]).collect();
        let _ = unserialize(&likely);
    }
}

#[test]
fn session_decode_should_not_panic() {
    let alphabet = b"NbidsaOCRr:;\"{}|-.0123456789\0*x";
    for seed in 0..2000u64 {
        let raw = noise(seed, (seed % 40) as usize);
        let _ = session_decode(&raw);
        let likely: Vec<u8> = raw.iter().map(|byte| alphabet[*byte as usize % alphabet.len()]).collect();
        let _ = session_decode(&likely);
    }
}
