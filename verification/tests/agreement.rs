//! The decoders against the same grammar written with winnow's combinators:
//! on every input of a corpus, and on every truncation and single-byte change
//! of it, both accept or both refuse, and what they read is the same.

use std::num::NonZeroUsize;

use muesli::de::any_value;
use muesli::{
    session_decode, ArrayEntry, ArrayKey, Decimal, ObjectProperty, ObjectPropertyVisibility, SessionEntry,
    Value, DEFAULT_MAX_DEPTH,
};
use winnow::binary::{length_repeat, length_take};
use winnow::combinator::{alt, delimited, empty, opt, repeat, separated_pair, terminated};
use winnow::token::{one_of, rest, take_until, take_while};
use winnow::Parser;

fn unsigned_integer<'s>(input: &mut &'s [u8]) -> winnow::Result<&'s [u8]> {
    take_while(1.., b'0'..=b'9').parse_next(input)
}

fn signed_integer<'s>(input: &mut &'s [u8]) -> winnow::Result<&'s [u8]> {
    (opt(b'-'), unsigned_integer).take().parse_next(input)
}

fn float<'s>(input: &mut &'s [u8]) -> winnow::Result<&'s [u8]> {
    (signed_integer, opt((b'.', unsigned_integer)))
        .take()
        .parse_next(input)
}

fn size(input: &mut &[u8]) -> winnow::Result<usize> {
    unsigned_integer.parse_to().parse_next(input)
}

fn sized_string<'s>(input: &mut &'s [u8]) -> winnow::Result<&'s [u8]> {
    terminated(length_take(terminated(size, b":\"")), b'"').parse_next(input)
}

fn reads_as_number(text: &[u8]) -> bool {
    std::str::from_utf8(text)
        .ok()
        .and_then(|text| text.parse::<f64>().ok())
        .is_some()
}

fn combinator_value<'s>(input: &mut &'s [u8]) -> winnow::Result<Value<'s>> {
    alt((
        value_null,
        value_boolean,
        value_integer,
        value_decimal,
        value_string,
        value_array,
        value_object,
        value_custom_object,
        value_reference_to_value,
        value_reference_to_object,
    ))
    .parse_next(input)
}

fn value_null<'s>(input: &mut &'s [u8]) -> winnow::Result<Value<'s>> {
    b"N;".value(Value::Null).parse_next(input)
}

fn value_boolean<'s>(input: &mut &'s [u8]) -> winnow::Result<Value<'s>> {
    delimited(b"b:", one_of(b"01"), b';')
        .map(|digit| Value::Boolean(digit == b'1'))
        .parse_next(input)
}

fn value_integer<'s>(input: &mut &'s [u8]) -> winnow::Result<Value<'s>> {
    delimited(b"i:", signed_integer, b';')
        .parse_to()
        .map(Value::Integer)
        .parse_next(input)
}

fn value_decimal<'s>(input: &mut &'s [u8]) -> winnow::Result<Value<'s>> {
    delimited(
        b"d:",
        alt((
            b"NAN".value(Decimal::Nan),
            b"INF".value(Decimal::Infinity),
            b"-INF".value(Decimal::NegInfinity),
            float.verify(reads_as_number).map(Decimal::Literal),
        )),
        b';',
    )
    .map(Value::Decimal)
    .parse_next(input)
}

fn value_string<'s>(input: &mut &'s [u8]) -> winnow::Result<Value<'s>> {
    delimited(b"s:", sized_string, b';')
        .map(Value::String)
        .parse_next(input)
}

fn array_key<'s>(input: &mut &'s [u8]) -> winnow::Result<ArrayKey<'s>> {
    alt((
        delimited(b"i:", signed_integer, b';')
            .parse_to()
            .map(ArrayKey::Integer),
        delimited(b"s:", sized_string, b';').map(ArrayKey::String),
    ))
    .parse_next(input)
}

fn array_pair<'s>(input: &mut &'s [u8]) -> winnow::Result<ArrayEntry<'s>> {
    (array_key, combinator_value)
        .map(|(key, value)| ArrayEntry { key, value })
        .parse_next(input)
}

fn value_array<'s>(input: &mut &'s [u8]) -> winnow::Result<Value<'s>> {
    delimited(
        b"a:",
        length_repeat(terminated(size, b":{"), array_pair),
        b'}',
    )
    .map(Value::Array)
    .parse_next(input)
}

fn value_reference_to_value<'s>(input: &mut &'s [u8]) -> winnow::Result<Value<'s>> {
    delimited(b"R:", unsigned_integer, b';')
        .parse_to()
        .map(|index: NonZeroUsize| Value::ValueReference(index.get()))
        .parse_next(input)
}

fn value_reference_to_object<'s>(input: &mut &'s [u8]) -> winnow::Result<Value<'s>> {
    delimited(b"r:", unsigned_integer, b';')
        .parse_to()
        .map(|index: NonZeroUsize| Value::ObjectReference(index.get()))
        .parse_next(input)
}

fn object_property_name<'s>(
    input: &mut &'s [u8],
) -> winnow::Result<(ObjectPropertyVisibility, &'s [u8])> {
    delimited(
        b"s:",
        sized_string.and_then((
            alt((
                b"\0*\0".value(ObjectPropertyVisibility::Protected),
                (b'\0', take_until(1.., b'\0'), b'\0').value(ObjectPropertyVisibility::Private),
                empty.value(ObjectPropertyVisibility::Public),
            )),
            rest,
        )),
        b';',
    )
    .parse_next(input)
}

fn object_property<'s>(input: &mut &'s [u8]) -> winnow::Result<ObjectProperty<'s>> {
    (object_property_name, combinator_value)
        .map(|((visibility, name), value)| ObjectProperty {
            visibility,
            name,
            value,
        })
        .parse_next(input)
}

fn value_object<'s>(input: &mut &'s [u8]) -> winnow::Result<Value<'s>> {
    (
        b"O:",
        sized_string,
        b':',
        length_repeat(terminated(size, b":{"), object_property),
        b'}',
    )
        .map(|(_, class_name, _, properties, _)| Value::Object {
            class_name,
            properties,
        })
        .parse_next(input)
}

fn value_custom_object<'s>(input: &mut &'s [u8]) -> winnow::Result<Value<'s>> {
    (
        b"C:",
        sized_string,
        b':',
        length_take(terminated(size, b":{")),
        b'}',
    )
        .map(|(_, class_name, _, data, _)| Value::CustomObject { class_name, data })
        .parse_next(input)
}

fn session_key<'s>(input: &mut &'s [u8]) -> winnow::Result<&'s [u8]> {
    take_until(0.., b'|').parse_next(input)
}

fn combinator_session(input: &[u8]) -> Option<Vec<SessionEntry<'_>>> {
    let entries: winnow::Result<Vec<SessionEntry>, _> = repeat(
        0..,
        separated_pair(session_key, b'|', combinator_value)
            .map(|(key, value)| SessionEntry { key, value }),
    )
    .parse(input);
    entries.ok()
}

/// Values and sessions, well-formed and not.
fn corpus() -> Vec<&'static [u8]> {
    vec![
        b"",
        b"N;",
        b"b:0;",
        b"b:1;",
        b"b:2;",
        b"i:0;",
        b"i:-0;",
        b"i:007;",
        b"i:00000000000000000000000000000000000000001;",
        b"s:00000000000000000000000000000000000000001:\"a\";",
        b"i:-42;",
        b"i:9223372036854775807;",
        b"i:9223372036854775808;",
        b"i:-9223372036854775808;",
        b"i:-9223372036854775809;",
        b"d:0;",
        b"d:0.5;",
        b"d:-12.250;",
        b"d:1.;",
        b"d:.5;",
        b"d:NAN;",
        b"d:INF;",
        b"d:-INF;",
        b"d:-INFINITY;",
        b"s:0:\"\";",
        b"s:3:\"a\"b\";",
        b"s:03:\"abc\";",
        b"s:4:\"abc\";",
        b"s:2:\"abc\";",
        b"s:99999999999999999999999999:\"abc\";",
        b"a:0:{}",
        b"a:1:{i:0;N;}",
        b"a:2:{i:0;s:1:\"x\";s:1:\"k\";a:1:{i:7;d:1.5;}}",
        b"a:2:{i:0;N;}",
        b"a:1:{i:0;N;i:1;N;}",
        b"a:1:{N;N;}",
        b"O:1:\"A\":0:{}",
        b"O:1:\"A\":3:{s:1:\"p\";i:1;s:4:\"\0*\0q\";i:2;s:4:\"\0A\0r\";i:3;}",
        b"O:1:\"A\":4:{s:3:\"\0\0r\";N;s:2:\"\0r\";N;s:3:\"\0*\0\";N;s:6:\"\0Bc\0\0r\";N;}",
        b"O:1:\"A\":1:{i:1;N;}",
        b"O:3:\"A\0B\":2:{s:6:\"\0A\0B\0p\";O:0:\"\":1:{s:3:\"\0\0q\";r:2;}s:1:\"\0\";d:-0.0;}",
        b"a:1:{s:0:\"\";C:0:\"\":1:{}}}",
        b"C:1:\"A\":3:{abc}",
        b"C:1:\"A\":3:{ab}}",
        b"C:1:\"A\":0:{}",
        b"R:1;",
        b"R:0;",
        b"R:012;",
        b"r:7;",
        b"r:-7;",
        b"r:99999999999999999999999999;",
        b"k:2;",
        b"N;N;",
        b"foo|i:42;",
        b"|N;",
        b"foo|i:42;bar|s:3:\"b|z\";",
        b"a|b|N;",
        b"foo|i:42;bar",
        b"foo",
        b"|",
    ]
}

/// The input itself, each of its proper prefixes, and each input that
/// differs from it in one byte, taken from a few telling bytes.
fn variants(input: &[u8]) -> Vec<Vec<u8>> {
    let telling = [b'0', b'1', b'9', b'-', b'.', b':', b';', b'"', b'{', b'}', b'|', 0, b'*', b'N', b'a', b's'];
    let mut all = vec![input.to_vec()];
    for end in 0..input.len() {
        all.push(input[..end].to_vec());
    }
    for position in 0..input.len() {
        for byte in telling {
            if input[position] != byte {
                let mut changed = input.to_vec();
                changed[position] = byte;
                all.push(changed);
            }
        }
    }
    all
}

#[test]
fn values_agree_with_combinators() {
    let mut accepted = 0;
    let mut refused = 0;
    for input in corpus() {
        for variant in variants(input) {
            let mut cursor = variant.as_slice();
            let expected = combinator_value(&mut cursor).ok().map(|value| (value, cursor));
            let found = any_value(&variant, 0, DEFAULT_MAX_DEPTH)
                .ok()
                .map(|(value, end)| (value, &variant[end..]));
            assert_eq!(found, expected, "on {:?}", String::from_utf8_lossy(&variant));
            if found.is_some() {
                accepted += 1;
            } else {
                refused += 1;
            }
        }
    }
    assert!(accepted > 500);
    assert!(refused > 5000);
}

#[test]
fn sessions_agree_with_combinators() {
    let mut accepted = 0;
    let mut refused = 0;
    for input in corpus() {
        for variant in variants(input) {
            let expected = combinator_session(&variant);
            let found = session_decode(&variant).ok();
            assert_eq!(found, expected, "on {:?}", String::from_utf8_lossy(&variant));
            if found.is_some() {
                accepted += 1;
            } else {
                refused += 1;
            }
        }
    }
    assert!(accepted > 50);
    assert!(refused > 5000);
}
