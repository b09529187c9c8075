//! The encoders: the bytes of one value, or of a session of named values.
//!
//! `spec_serialize` and `spec_session_encode` define the wire form; the
//! executable encoders append exactly those bytes to a buffer.

use vstd::prelude::*;

use crate::ascii::{
    CLOSE_BRACE, COLON, LOWER_A, LOWER_B, LOWER_D, LOWER_I, LOWER_R, LOWER_S, MINUS, NUL, ONE, OPEN_BRACE, PIPE,
    QUOTE, SEMICOLON, STAR, UPPER_A, UPPER_C, UPPER_F, UPPER_I, UPPER_N, UPPER_O, UPPER_R, ZERO,
};
use crate::text::{int_text, nat_text, write_int, write_nat};
use crate::value::{
    array_entries_view, properties_view, session_view, ArrayEntry, ArrayEntryView, ArrayKey, ArrayKeyView,
    Decimal, DecimalView, ObjectProperty, ObjectPropertyView, ObjectPropertyVisibility, SessionEntry,
    SessionEntryView, Value, ValueView,
};

verus! {

/// The token of a decimal: `NAN`, `INF`, `-INF`, or the literal as it stands.
pub open spec fn spec_decimal(d: DecimalView) -> Seq<u8> {
    match d {
        DecimalView::Nan => seq![UPPER_N, UPPER_A, UPPER_N],
        DecimalView::Infinity => seq![UPPER_I, UPPER_N, UPPER_F],
        DecimalView::NegInfinity => seq![MINUS, UPPER_I, UPPER_N, UPPER_F],
        DecimalView::Literal(text) => text,
    }
}

/// A length-prefixed string: the byte count, `:"`, the bytes, `"`.
pub open spec fn spec_sized(payload: Seq<u8>) -> Seq<u8> {
    nat_text(payload.len()) + seq![COLON, QUOTE] + payload + seq![QUOTE]
}

/// The name under which a property travels: a public name as it is, a
/// protected one behind NUL `*` NUL, a private one behind NUL, the name of
/// the object's class and NUL.
pub open spec fn spec_mangled_name(
    visibility: ObjectPropertyVisibility,
    class_name: Seq<u8>,
    name: Seq<u8>,
) -> Seq<u8> {
    match visibility {
        ObjectPropertyVisibility::Public => name,
        ObjectPropertyVisibility::Protected => seq![NUL, STAR, NUL] + name,
        ObjectPropertyVisibility::Private => seq![NUL] + class_name + seq![NUL] + name,
    }
}

/// An integer key as `i:<number>;`, a string key as `s:<sized string>;`.
pub open spec fn spec_array_key(key: ArrayKeyView) -> Seq<u8> {
    match key {
        ArrayKeyView::Integer(n) => seq![LOWER_I, COLON] + int_text(n as int) + seq![SEMICOLON],
        ArrayKeyView::String(bytes) => seq![LOWER_S, COLON] + spec_sized(bytes) + seq![SEMICOLON],
    }
}

/// The wire form of a value.
pub open spec fn spec_serialize(v: ValueView) -> Seq<u8>
    decreases v,
{
    match v {
        ValueView::Null => seq![UPPER_N, SEMICOLON],
        ValueView::Boolean(b) => seq![LOWER_B, COLON, if b { ONE } else { ZERO }, SEMICOLON],
        ValueView::Integer(n) => seq![LOWER_I, COLON] + int_text(n as int) + seq![SEMICOLON],
        ValueView::Decimal(d) => seq![LOWER_D, COLON] + spec_decimal(d) + seq![SEMICOLON],
        ValueView::String(bytes) => seq![LOWER_S, COLON] + spec_sized(bytes) + seq![SEMICOLON],
        ValueView::Array(entries) => seq![LOWER_A, COLON] + nat_text(entries.len()) + seq![COLON, OPEN_BRACE]
            + spec_array_entries(entries) + seq![CLOSE_BRACE],
        ValueView::Object { class_name, properties } => seq![UPPER_O, COLON] + spec_sized(class_name)
            + seq![COLON] + nat_text(properties.len()) + seq![COLON, OPEN_BRACE] + spec_properties(
            class_name,
            properties,
        ) + seq![CLOSE_BRACE],
        ValueView::CustomObject { class_name, data } => seq![UPPER_C, COLON] + spec_sized(class_name)
            + seq![COLON] + nat_text(data.len()) + seq![COLON, OPEN_BRACE] + data + seq![CLOSE_BRACE],
        ValueView::ValueReference(index) => seq![UPPER_R, COLON] + nat_text(index as nat) + seq![SEMICOLON],
        ValueView::ObjectReference(index) => seq![LOWER_R, COLON] + nat_text(index as nat) + seq![SEMICOLON],
    }
}

/// One array entry: its key, then its value.
pub open spec fn spec_array_entry(entry: ArrayEntryView) -> Seq<u8>
    decreases entry,
{
    spec_array_key(entry.key) + spec_serialize(entry.value)
}

/// The entries of an array, one behind the other, in order.
pub open spec fn spec_array_entries(entries: Seq<ArrayEntryView>) -> Seq<u8>
    decreases entries,
{
    if entries.len() == 0 {
        Seq::empty()
    } else {
        spec_array_entries(entries.drop_last()) + spec_array_entry(entries.last())
    }
}

/// One property of an object of class `class_name`: its mangled name as a
/// string value, then its value.
pub open spec fn spec_property(class_name: Seq<u8>, property: ObjectPropertyView) -> Seq<u8>
    decreases property,
{
    seq![LOWER_S, COLON] + spec_sized(spec_mangled_name(property.visibility, class_name, property.name))
        + seq![SEMICOLON] + spec_serialize(property.value)
}

/// The properties of an object, one behind the other, in order.
pub open spec fn spec_properties(class_name: Seq<u8>, properties: Seq<ObjectPropertyView>) -> Seq<u8>
    decreases properties,
{
    if properties.len() == 0 {
        Seq::empty()
    } else {
        spec_properties(class_name, properties.drop_last()) + spec_property(class_name, properties.last())
    }
}

/// One session entry: the key, `|`, the value.
pub open spec fn spec_session_entry(entry: SessionEntryView) -> Seq<u8> {
    entry.key + seq![PIPE] + spec_serialize(entry.value)
}

/// The wire form of a session: its entries one behind the other, with
/// nothing between or after them. A `|` inside a key is written as it is.
pub open spec fn spec_session_encode(entries: Seq<SessionEntryView>) -> Seq<u8>
    decreases entries.len(),
{
    if entries.len() == 0 {
        Seq::empty()
    } else {
        spec_session_encode(entries.drop_last()) + spec_session_entry(entries.last())
    }
}

/// Appends `bytes` to `out`.
pub fn write_bytes(out: &mut Vec<u8>, bytes: &[u8])
    ensures
        final(out)@ == old(out)@ + bytes@,
{
    let mut i: usize = 0;
    while i < bytes.len()
        invariant
            i <= bytes@.len(),
            out@ == old(out)@ + bytes@.take(i as int),
        decreases bytes@.len() - i,
    {
        out.push(bytes[i]);
        assert(bytes@.take(i + 1) =~= bytes@.take(i as int).push(bytes@[i as int]));
        i += 1;
    }
    assert(bytes@.take(bytes@.len() as int) =~= bytes@);
}

/// Appends the decimal text of a length.
fn write_len(out: &mut Vec<u8>, len: usize)
    ensures
        final(out)@ == old(out)@ + nat_text(len as nat),
{
    write_nat(out, len as u128);
}

/// Appends `payload` as a length-prefixed string.
fn write_sized(out: &mut Vec<u8>, payload: &[u8])
    ensures
        final(out)@ == old(out)@ + spec_sized(payload@),
{
    write_len(out, payload.len());
    out.push(COLON);
    out.push(QUOTE);
    write_bytes(out, payload);
    out.push(QUOTE);
    assert(out@ =~= old(out)@ + spec_sized(payload@));
}

/// Appends the token of a decimal.
fn write_decimal(out: &mut Vec<u8>, d: &Decimal)
    ensures
        final(out)@ == old(out)@ + spec_decimal(d@),
{
    match d {
        Decimal::Nan => {
            out.push(UPPER_N);
            out.push(UPPER_A);
            out.push(UPPER_N);
        },
        Decimal::Infinity => {
            out.push(UPPER_I);
            out.push(UPPER_N);
            out.push(UPPER_F);
        },
        Decimal::NegInfinity => {
            out.push(MINUS);
            out.push(UPPER_I);
            out.push(UPPER_N);
            out.push(UPPER_F);
        },
        Decimal::Literal(text) => {
            write_bytes(out, text);
        },
    }
    assert(out@ =~= old(out)@ + spec_decimal(d@));
}

/// Appends an array key.
fn write_array_key(out: &mut Vec<u8>, key: &ArrayKey)
    ensures
        final(out)@ == old(out)@ + spec_array_key(key@),
{
    match key {
        ArrayKey::Integer(n) => {
            out.push(LOWER_I);
            out.push(COLON);
            write_int(out, *n);
            out.push(SEMICOLON);
        },
        ArrayKey::String(bytes) => {
            out.push(LOWER_S);
            out.push(COLON);
            write_sized(out, bytes);
            out.push(SEMICOLON);
        },
    }
    assert(out@ =~= old(out)@ + spec_array_key(key@));
}

/// Appends the mangled name of a property as a string value.
#[verifier::rlimit(40)]
fn write_property_name(
    out: &mut Vec<u8>,
    visibility: ObjectPropertyVisibility,
    class_name: &[u8],
    name: &[u8],
)
    ensures
        final(out)@ == old(out)@ + seq![LOWER_S, COLON] + spec_sized(
            spec_mangled_name(visibility, class_name@, name@),
        ) + seq![SEMICOLON],
{
    let ghost mangled = spec_mangled_name(visibility, class_name@, name@);
    out.push(LOWER_S);
    out.push(COLON);
    match visibility {
        ObjectPropertyVisibility::Public => {
            write_len(out, name.len());
            out.push(COLON);
            out.push(QUOTE);
        },
        ObjectPropertyVisibility::Protected => {
            write_nat(out, name.len() as u128 + 3);
            out.push(COLON);
            out.push(QUOTE);
            out.push(NUL);
            out.push(STAR);
            out.push(NUL);
        },
        ObjectPropertyVisibility::Private => {
            write_nat(out, name.len() as u128 + 2 + class_name.len() as u128);
            out.push(COLON);
            out.push(QUOTE);
            out.push(NUL);
            write_bytes(out, class_name);
            out.push(NUL);
        },
    }
    write_bytes(out, name);
    out.push(QUOTE);
    out.push(SEMICOLON);
    assert(out@ =~= old(out)@ + seq![LOWER_S, COLON] + spec_sized(mangled) + seq![SEMICOLON]);
}

/// Appends a lead token: the letter of a kind of value, and the colon.
fn write_lead(out: &mut Vec<u8>, letter: u8)
    ensures
        final(out)@ == old(out)@ + seq![letter, COLON],
{
    out.push(letter);
    out.push(COLON);
    assert(out@ =~= old(out)@ + seq![letter, COLON]);
}

/// Appends what opens a counted block: the count, `:{`.
fn write_block_start(out: &mut Vec<u8>, count: usize)
    ensures
        final(out)@ == old(out)@ + nat_text(count as nat) + seq![COLON, OPEN_BRACE],
{
    write_len(out, count);
    out.push(COLON);
    out.push(OPEN_BRACE);
    assert(out@ =~= old(out)@ + nat_text(count as nat) + seq![COLON, OPEN_BRACE]);
}

/// Appends the entries of an array, one behind the other.
fn write_array_entries(w: &mut Vec<u8>, entries: &Vec<ArrayEntry>)
    ensures
        final(w)@ == old(w)@ + spec_array_entries(array_entries_view(entries@)),
    decreases entries, 0nat,
{
    let ghost views = array_entries_view(entries@);
    let mut i: usize = 0;
    while i < entries.len()
        invariant
            views == array_entries_view(entries@),
            i <= entries.len(),
            w@ == old(w)@ + spec_array_entries(views.take(i as int)),
        decreases entries.len() - i,
    {
        let ghost done = w@;
        proof {
            assert(decreases_to!(entries => entries@[i as int]));
            assert(views.take(i + 1).drop_last() =~= views.take(i as int));
            assert(views.take(i + 1).last() == entries@[i as int]@);
            assert(spec_array_entries(views.take(i + 1)) == spec_array_entries(views.take(i as int))
                + spec_array_entry(entries@[i as int]@));
        }
        write_array_key(w, &entries[i].key);
        serialize(w, &entries[i].value);
        assert(w@ =~= done + spec_array_entry(entries@[i as int]@));
        i += 1;
    }
    assert(views.take(entries.len() as int) =~= views);
}

/// Appends the properties of an object of class `class_name`, one behind the
/// other.
fn write_properties(w: &mut Vec<u8>, class_name: &[u8], properties: &Vec<ObjectProperty>)
    ensures
        final(w)@ == old(w)@ + spec_properties(class_name@, properties_view(properties@)),
    decreases properties, 0nat,
{
    let ghost views = properties_view(properties@);
    let mut i: usize = 0;
    while i < properties.len()
        invariant
            views == properties_view(properties@),
            i <= properties.len(),
            w@ == old(w)@ + spec_properties(class_name@, views.take(i as int)),
        decreases properties.len() - i,
    {
        let ghost done = w@;
        proof {
            assert(decreases_to!(properties => properties@[i as int]));
            assert(views.take(i + 1).drop_last() =~= views.take(i as int));
            assert(views.take(i + 1).last() == properties@[i as int]@);
            assert(spec_properties(class_name@, views.take(i + 1)) == spec_properties(
                class_name@,
                views.take(i as int),
            ) + spec_property(class_name@, properties@[i as int]@));
        }
        let property = &properties[i];
        write_property_name(w, property.visibility, class_name, property.name);
        serialize(w, &property.value);
        assert(w@ =~= done + spec_property(class_name@, properties@[i as int]@));
        i += 1;
    }
    assert(views.take(properties.len() as int) =~= views);
}

/// Appends `N;`.
fn write_null(w: &mut Vec<u8>)
    ensures
        final(w)@ == old(w)@ + spec_serialize(ValueView::Null),
{
    w.push(UPPER_N);
    w.push(SEMICOLON);
    assert(w@ =~= old(w)@ + spec_serialize(ValueView::Null));
}

/// Appends `b:0;` or `b:1;`.
fn write_boolean(w: &mut Vec<u8>, b: bool)
    ensures
        final(w)@ == old(w)@ + spec_serialize(ValueView::Boolean(b)),
{
    write_lead(w, LOWER_B);
    w.push(if b { ONE } else { ZERO });
    w.push(SEMICOLON);
    assert(w@ =~= old(w)@ + spec_serialize(ValueView::Boolean(b)));
}

/// Appends an integer value.
fn write_integer(w: &mut Vec<u8>, n: i64)
    ensures
        final(w)@ == old(w)@ + spec_serialize(ValueView::Integer(n)),
{
    write_lead(w, LOWER_I);
    write_int(w, n);
    w.push(SEMICOLON);
    assert(w@ =~= old(w)@ + spec_serialize(ValueView::Integer(n)));
}

/// Appends a decimal value.
fn write_decimal_value(w: &mut Vec<u8>, d: &Decimal)
    ensures
        final(w)@ == old(w)@ + spec_serialize(ValueView::Decimal(d@)),
{
    write_lead(w, LOWER_D);
    write_decimal(w, d);
    w.push(SEMICOLON);
    assert(w@ =~= old(w)@ + spec_serialize(ValueView::Decimal(d@)));
}

/// Appends a string value.
fn write_string(w: &mut Vec<u8>, bytes: &[u8])
    ensures
        final(w)@ == old(w)@ + spec_serialize(ValueView::String(bytes@)),
{
    write_lead(w, LOWER_S);
    write_sized(w, bytes);
    w.push(SEMICOLON);
    assert(w@ =~= old(w)@ + spec_serialize(ValueView::String(bytes@)));
}

/// Appends a custom object: its class name and its data, as they are.
fn write_custom_object(w: &mut Vec<u8>, class_name: &[u8], data: &[u8])
    ensures
        final(w)@ == old(w)@ + spec_serialize(
            ValueView::CustomObject { class_name: class_name@, data: data@ },
        ),
{
    write_lead(w, UPPER_C);
    write_sized(w, class_name);
    w.push(COLON);
    write_block_start(w, data.len());
    write_bytes(w, data);
    w.push(CLOSE_BRACE);
    assert(w@ =~= old(w)@ + spec_serialize(
        ValueView::CustomObject { class_name: class_name@, data: data@ },
    ));
}

/// Appends a reference: `letter`, `:`, the index, `;`.
fn write_reference(w: &mut Vec<u8>, letter: u8, index: usize)
    ensures
        final(w)@ == old(w)@ + (seq![letter, COLON] + nat_text(index as nat) + seq![SEMICOLON]),
{
    write_lead(w, letter);
    write_len(w, index);
    w.push(SEMICOLON);
    assert(w@ =~= old(w)@ + (seq![letter, COLON] + nat_text(index as nat) + seq![SEMICOLON]));
}

/// Appends an array: its count and its entries.
fn write_array(w: &mut Vec<u8>, entries: &Vec<ArrayEntry>)
    ensures
        final(w)@ == old(w)@ + spec_serialize(ValueView::Array(array_entries_view(entries@))),
    decreases entries, 1nat,
{
    write_lead(w, LOWER_A);
    write_block_start(w, entries.len());
    write_array_entries(w, entries);
    w.push(CLOSE_BRACE);
    assert(w@ =~= old(w)@ + spec_serialize(ValueView::Array(array_entries_view(entries@))));
}

/// Appends an object: its class name, its count and its properties.
fn write_object(w: &mut Vec<u8>, class_name: &[u8], properties: &Vec<ObjectProperty>)
    ensures
        final(w)@ == old(w)@ + spec_serialize(
            ValueView::Object { class_name: class_name@, properties: properties_view(properties@) },
        ),
    decreases properties, 1nat,
{
    write_lead(w, UPPER_O);
    write_sized(w, class_name);
    w.push(COLON);
    write_block_start(w, properties.len());
    write_properties(w, class_name, properties);
    w.push(CLOSE_BRACE);
    assert(w@ =~= old(w)@ + spec_serialize(
        ValueView::Object { class_name: class_name@, properties: properties_view(properties@) },
    ));
}

/// Appends the wire form of `value` to `w` and returns the number of bytes
/// appended. What `w` held before stays in front.
pub fn serialize(w: &mut Vec<u8>, value: &Value) -> (count: usize)
    ensures
        final(w)@ == old(w)@ + spec_serialize(value@),
        count == spec_serialize(value@).len(),
    decreases value, 0nat,
{
    let before = w.len();
    match value {
        Value::Null => write_null(w),
        Value::Boolean(b) => write_boolean(w, *b),
        Value::Integer(n) => write_integer(w, *n),
        Value::Decimal(d) => write_decimal_value(w, d),
        Value::String(bytes) => write_string(w, bytes),
        Value::Array(entries) => write_array(w, entries),
        Value::Object { class_name, properties } => write_object(w, class_name, properties),
        Value::CustomObject { class_name, data } => write_custom_object(w, class_name, data),
        Value::ValueReference(index) => write_reference(w, UPPER_R, *index),
        Value::ObjectReference(index) => write_reference(w, LOWER_R, *index),
    }
    w.len() - before
}

/// Appends the wire form of a session to `w` and returns the number of bytes
/// appended.
pub fn session_encode(w: &mut Vec<u8>, session: &[SessionEntry]) -> (count: usize)
    ensures
        final(w)@ == old(w)@ + spec_session_encode(session_view(session@)),
        count == spec_session_encode(session_view(session@)).len(),
{
    let before = w.len();
    let ghost views = session_view(session@);
    let mut i: usize = 0;
    while i < session.len()
        invariant
            views == session_view(session@),
            i <= session@.len(),
            w@ == old(w)@ + spec_session_encode(views.take(i as int)),
        decreases session@.len() - i,
    {
        proof {
            assert(views.take(i + 1).drop_last() =~= views.take(i as int));
            assert(views.take(i + 1).last() == session@[i as int]@);
        }
        let entry = &session[i];
        write_bytes(w, entry.key);
        w.push(PIPE);
        serialize(w, &entry.value);
        assert(w@ =~= old(w)@ + spec_session_encode(views.take(i + 1)));
        i += 1;
    }
    proof {
        assert(views.take(session@.len() as int) =~= views);
    }
    w.len() - before
}

} // verus!
