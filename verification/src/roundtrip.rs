//! The decoders undo the encoders.
//!
//! For every value whose wire form can be read in only one way, decoding
//! that form gives the value back, and so encoding, decoding and encoding
//! again reproduces the bytes. The same holds of sessions. A tree built from
//! native values is always such a value.

use vstd::prelude::*;

use crate::ascii::{
    CLOSE_BRACE, COLON, LOWER_A, LOWER_B, LOWER_D, LOWER_I, LOWER_R, LOWER_S, MINUS, NUL, OPEN_BRACE, PIPE,
    QUOTE, SEMICOLON, STAR, UPPER_C, UPPER_N, UPPER_O, UPPER_R,
};
use crate::de::grammar;
use crate::de::raw::{
    byte_at, has_at, lemma_digits_read, lemma_float_read, lemma_has_at_byte, lemma_has_at_concat,
    no_digit_at, spec_size, spec_sized_string, spec_unsigned_integer,
};
use crate::error::ParseError;
use crate::ser;
use crate::text::{int_text, is_digit, lemma_nat_text_digits, nat_text};
use crate::value::{
    array_entries_view, ArrayEntryView, ArrayKey, ArrayKeyView, DecimalView, ObjectPropertyView,
    ObjectPropertyVisibility, SessionEntryView, Value, ValueView,
};

verus! {

impl ObjectPropertyView {
    /// Whether the name of this property, mangled for an object of class
    /// `class_name`, is split again into the same visibility and name.
    ///
    /// A public name must not itself begin like a mangled one. A private
    /// name is written behind the class name, which then must not be empty,
    /// hold a NUL, or be the lone `*` that marks a protected name.
    pub open spec fn name_reads_back(self, class_name: Seq<u8>) -> bool {
        match self.visibility {
            ObjectPropertyVisibility::Public => grammar::spec_visibility(self.name).0
                == ObjectPropertyVisibility::Public,
            ObjectPropertyVisibility::Protected => true,
            ObjectPropertyVisibility::Private => {
                &&& class_name.len() >= 1
                &&& forall|i: int| 0 <= i < class_name.len() ==> class_name[i] != NUL
                &&& class_name != seq![STAR]
            },
        }
    }
}

impl ArrayKeyView {
    /// A string key is no longer than a machine word can count.
    pub open spec fn unambiguous(self) -> bool {
        self matches ArrayKeyView::String(bytes) ==> bytes.len() <= usize::MAX
    }
}

impl ObjectPropertyView {
    /// The name reads back, the mangled name is no longer than a machine
    /// word can count, and the value is unambiguous.
    pub open spec fn unambiguous(self, class_name: Seq<u8>) -> bool
        decreases self,
    {
        &&& self.name_reads_back(class_name)
        &&& ser::spec_mangled_name(self.visibility, class_name, self.name).len() <= usize::MAX
        &&& self.value.unambiguous()
    }
}

impl ValueView {
    /// Whether the wire form of this value can be read in only one way, so
    /// that decoding it gives this value back.
    ///
    /// Lengths and counts fit a machine word, decimal literals are spelled
    /// as the grammar asks, references are one-based, and the names of
    /// properties read back.
    pub open spec fn unambiguous(self) -> bool
        decreases self,
    {
        match self {
            ValueView::Decimal(d) => d.well_formed(),
            ValueView::String(bytes) => bytes.len() <= usize::MAX,
            ValueView::Array(entries) => {
                &&& entries.len() <= usize::MAX
                &&& forall|i: int|
                    0 <= i < entries.len() ==> (#[trigger] entries[i]).key.unambiguous()
                        && entries[i].value.unambiguous()
            },
            ValueView::Object { class_name, properties } => {
                &&& class_name.len() <= usize::MAX
                &&& properties.len() <= usize::MAX
                &&& forall|i: int|
                    0 <= i < properties.len() ==> (#[trigger] properties[i]).unambiguous(class_name)
            },
            ValueView::CustomObject { class_name, data } => class_name.len() <= usize::MAX && data.len()
                <= usize::MAX,
            ValueView::ValueReference(index) => index >= 1,
            ValueView::ObjectReference(index) => index >= 1,
            _ => true,
        }
    }
}

impl SessionEntryView {
    /// The key holds no `|`, which would end it early, and the value is
    /// unambiguous.
    pub open spec fn unambiguous(self) -> bool {
        &&& forall|i: int| 0 <= i < self.key.len() ==> self.key[i] != PIPE
        &&& self.value.unambiguous()
    }
}

impl ValueView {
    /// Whether the value is made of native values alone: null, booleans,
    /// integers, decimals, byte strings, and arrays of such values.
    pub open spec fn native(self) -> bool
        decreases self,
    {
        match self {
            ValueView::Null => true,
            ValueView::Boolean(_) => true,
            ValueView::Integer(_) => true,
            ValueView::Decimal(d) => d.well_formed(),
            ValueView::String(_) => true,
            ValueView::Array(entries) => forall|i: int|
                0 <= i < entries.len() ==> (#[trigger] entries[i]).value.native(),
            _ => false,
        }
    }
}

/// The text of a number that fits a machine word, with no digit behind it,
/// is read as that size.
proof fn lemma_size_read(s: Seq<u8>, pos: int, n: nat)
    requires
        has_at(s, pos, nat_text(n)),
        no_digit_at(s, pos + nat_text(n).len()),
        n <= usize::MAX,
    ensures
        spec_size(s, pos) == Ok::<(usize, int), ParseError>((n as usize, pos + nat_text(n).len())),
        spec_unsigned_integer(s, pos) == Ok::<(Seq<u8>, int), ParseError>(
            (nat_text(n), pos + nat_text(n).len()),
        ),
{
    lemma_nat_text_digits(n);
    lemma_digits_read(s, pos, nat_text(n));
}

/// A length-prefixed string that stands in `s` is read as its payload.
pub(crate) proof fn lemma_sized_string_read(s: Seq<u8>, pos: int, payload: Seq<u8>)
    requires
        has_at(s, pos, ser::spec_sized(payload)),
        payload.len() <= usize::MAX,
    ensures
        spec_sized_string(s, pos) == Ok::<(Seq<u8>, int), ParseError>(
            (payload, pos + ser::spec_sized(payload).len()),
        ),
{
    let count = nat_text(payload.len());
    let after_count = pos + count.len();
    assert(ser::spec_sized(payload) =~= count + (seq![COLON, QUOTE] + payload + seq![QUOTE]));
    lemma_has_at_concat(s, pos, count, seq![COLON, QUOTE] + payload + seq![QUOTE]);
    assert(seq![COLON, QUOTE] + payload + seq![QUOTE] =~= seq![COLON, QUOTE] + (payload + seq![QUOTE]));
    lemma_has_at_concat(s, after_count, seq![COLON, QUOTE], payload + seq![QUOTE]);
    lemma_has_at_concat(s, after_count + 2, payload, seq![QUOTE]);
    lemma_has_at_byte(s, after_count, seq![COLON, QUOTE], 0);
    lemma_has_at_byte(s, after_count, seq![COLON, QUOTE], 1);
    lemma_has_at_byte(s, after_count + 2 + payload.len(), seq![QUOTE], 0);
    lemma_size_read(s, pos, payload.len());
}

/// The text of a 64-bit integer, with no digit behind it, is read as that
/// integer.
proof fn lemma_integer_read(s: Seq<u8>, pos: int, n: i64)
    requires
        has_at(s, pos, int_text(n as int)),
        no_digit_at(s, pos + int_text(n as int).len()),
    ensures
        grammar::spec_integer(s, pos) == Ok::<(i64, int), ParseError>((n, pos + int_text(n as int).len())),
{
    let text = int_text(n as int);
    if n < 0 {
        let digits = nat_text((-n) as nat);
        lemma_nat_text_digits((-n) as nat);
        lemma_has_at_concat(s, pos, seq![MINUS], digits);
        lemma_has_at_byte(s, pos, seq![MINUS], 0);
        lemma_digits_read(s, pos + 1, digits);
        assert(text.skip(1) =~= digits);
        assert(text[0] == MINUS);
    } else {
        lemma_nat_text_digits(n as nat);
        lemma_has_at_byte(s, pos, text, 0);
        lemma_digits_read(s, pos, text);
        assert(is_digit(text[0]));
    }
}

/// The text of a reference index, with no digit behind it, is read as that
/// index.
proof fn lemma_index_read(s: Seq<u8>, pos: int, index: usize)
    requires
        has_at(s, pos, nat_text(index as nat)),
        no_digit_at(s, pos + nat_text(index as nat).len()),
        index >= 1,
    ensures
        grammar::spec_index(s, pos) == Ok::<(usize, int), ParseError>(
            (index, pos + nat_text(index as nat).len()),
        ),
{
    lemma_size_read(s, pos, index as nat);
}

/// A name that reads back is split into the visibility and the name it was
/// mangled from.
pub(crate) proof fn lemma_visibility_of_mangled(property: ObjectPropertyView, class_name: Seq<u8>)
    requires
        property.name_reads_back(class_name),
    ensures
        grammar::spec_visibility(ser::spec_mangled_name(property.visibility, class_name, property.name)) == (
            property.visibility,
            property.name,
        ),
{
    let mangled = ser::spec_mangled_name(property.visibility, class_name, property.name);
    match property.visibility {
        ObjectPropertyVisibility::Public => {},
        ObjectPropertyVisibility::Protected => {
            assert(mangled.skip(3) =~= property.name);
        },
        ObjectPropertyVisibility::Private => {
            let second: int = class_name.len() as int + 1;
            assert(mangled[0] == NUL);
            assert(mangled[second] == NUL);
            assert forall|i: int| 1 <= i < second implies mangled[i] != NUL by {
                assert(mangled[i] == class_name[i - 1]);
            }
            grammar::lemma_find_at(mangled, 1, NUL, second);
            assert(!grammar::has_three(mangled, 0, NUL, STAR, NUL)) by {
                if grammar::has_three(mangled, 0, NUL, STAR, NUL) {
                    assert(mangled[1] == class_name[0]);
                    if class_name.len() == 1 {
                        assert(class_name =~= seq![STAR]);
                    } else {
                        assert(mangled[2] == class_name[1]);
                    }
                }
            }
            assert(mangled.skip(second + 1) =~= property.name);
        },
    }
}

/// The wire form of a non-empty list of entries is the first entry followed
/// by the wire form of the others.
pub(crate) proof fn lemma_array_entries_first(entries: Seq<ArrayEntryView>)
    requires
        entries.len() >= 1,
    ensures
        ser::spec_array_entries(entries) == ser::spec_array_entry(entries[0]) + ser::spec_array_entries(
            entries.skip(1),
        ),
    decreases entries.len(),
{
    let others = entries.skip(1);
    if entries.len() == 1 {
        assert(entries.drop_last() =~= Seq::<ArrayEntryView>::empty());
        assert(others =~= Seq::<ArrayEntryView>::empty());
        assert(ser::spec_array_entries(Seq::<ArrayEntryView>::empty()) =~= Seq::<u8>::empty());
        assert(ser::spec_array_entries(entries) =~= ser::spec_array_entry(entries[0])
            + ser::spec_array_entries(others));
    } else {
        lemma_array_entries_first(entries.drop_last());
        assert(others.drop_last() =~= entries.drop_last().skip(1));
        assert(others.last() == entries.last());
        assert(ser::spec_array_entries(entries) =~= ser::spec_array_entry(entries[0])
            + ser::spec_array_entries(others));
    }
}

/// The wire form of a non-empty list of properties is the first property
/// followed by the wire form of the others.
pub(crate) proof fn lemma_properties_first(class_name: Seq<u8>, properties: Seq<ObjectPropertyView>)
    requires
        properties.len() >= 1,
    ensures
        ser::spec_properties(class_name, properties) == ser::spec_property(class_name, properties[0])
            + ser::spec_properties(class_name, properties.skip(1)),
    decreases properties.len(),
{
    let others = properties.skip(1);
    if properties.len() == 1 {
        assert(properties.drop_last() =~= Seq::<ObjectPropertyView>::empty());
        assert(others =~= Seq::<ObjectPropertyView>::empty());
        assert(ser::spec_properties(class_name, Seq::<ObjectPropertyView>::empty()) =~= Seq::<u8>::empty());
        assert(ser::spec_properties(class_name, properties) =~= ser::spec_property(class_name, properties[0])
            + ser::spec_properties(class_name, others));
    } else {
        lemma_properties_first(class_name, properties.drop_last());
        assert(others.drop_last() =~= properties.drop_last().skip(1));
        assert(others.last() == properties.last());
        assert(ser::spec_properties(class_name, properties) =~= ser::spec_property(class_name, properties[0])
            + ser::spec_properties(class_name, others));
    }
}

/// The wire form of a non-empty session is the first entry followed by the
/// wire form of the others.
pub(crate) proof fn lemma_session_first(entries: Seq<SessionEntryView>)
    requires
        entries.len() >= 1,
    ensures
        ser::spec_session_encode(entries) == ser::spec_session_entry(entries[0]) + ser::spec_session_encode(
            entries.skip(1),
        ),
    decreases entries.len(),
{
    let others = entries.skip(1);
    if entries.len() == 1 {
        assert(entries.drop_last() =~= Seq::<SessionEntryView>::empty());
        assert(others =~= Seq::<SessionEntryView>::empty());
        assert(ser::spec_session_encode(Seq::<SessionEntryView>::empty()) =~= Seq::<u8>::empty());
        assert(ser::spec_session_encode(entries) =~= ser::spec_session_entry(entries[0])
            + ser::spec_session_encode(others));
    } else {
        lemma_session_first(entries.drop_last());
        assert(others.drop_last() =~= entries.drop_last().skip(1));
        assert(others.last() == entries.last());
        assert(ser::spec_session_encode(entries) =~= ser::spec_session_entry(entries[0])
            + ser::spec_session_encode(others));
    }
}

/// The two bytes of a lead token, where they stand, are read as that token.
proof fn lemma_lead_read(s: Seq<u8>, pos: int, letter: u8)
    requires
        has_at(s, pos, seq![letter, COLON]),
    ensures
        grammar::spec_lead(s, pos, letter) == Ok::<int, ParseError>(pos + 2),
        byte_at(s, pos) == Some(letter),
{
    lemma_has_at_byte(s, pos, seq![letter, COLON], 0);
    lemma_has_at_byte(s, pos, seq![letter, COLON], 1);
}

/// A value made of a lead token, a body and a semicolon stands as those
/// three parts, one behind the other.
pub(crate) proof fn lemma_item_parts(s: Seq<u8>, pos: int, letter: u8, body: Seq<u8>)
    requires
        has_at(s, pos, seq![letter, COLON] + body + seq![SEMICOLON]),
    ensures
        has_at(s, pos, seq![letter, COLON]),
        has_at(s, pos + 2, body),
        byte_at(s, pos + 2 + body.len()) == Some(SEMICOLON),
        (seq![letter, COLON] + body + seq![SEMICOLON]).len() == body.len() + 3,
{
    lemma_has_at_concat(s, pos, seq![letter, COLON] + body, seq![SEMICOLON]);
    lemma_has_at_concat(s, pos, seq![letter, COLON], body);
    lemma_has_at_byte(s, pos + 2 + body.len(), seq![SEMICOLON], 0);
}

/// The wire form of a string item is read as its payload.
pub(crate) proof fn lemma_string_reads_back(s: Seq<u8>, pos: int, bytes: Seq<u8>)
    requires
        has_at(s, pos, seq![LOWER_S, COLON] + ser::spec_sized(bytes) + seq![SEMICOLON]),
        bytes.len() <= usize::MAX,
    ensures
        grammar::spec_string(s, pos) == Ok::<(Seq<u8>, int), ParseError>(
            (bytes, pos + ser::spec_sized(bytes).len() + 3),
        ),
        byte_at(s, pos) == Some(LOWER_S),
{
    lemma_item_parts(s, pos, LOWER_S, ser::spec_sized(bytes));
    lemma_lead_read(s, pos, LOWER_S);
    lemma_sized_string_read(s, pos + 2, bytes);
}

/// The wire form of an integer item is read as its number.
proof fn lemma_integer_reads_back(s: Seq<u8>, pos: int, n: i64)
    requires
        has_at(s, pos, seq![LOWER_I, COLON] + int_text(n as int) + seq![SEMICOLON]),
    ensures
        grammar::spec_integer_item(s, pos) == Ok::<(i64, int), ParseError>(
            (n, pos + int_text(n as int).len() + 3),
        ),
        byte_at(s, pos) == Some(LOWER_I),
{
    lemma_item_parts(s, pos, LOWER_I, int_text(n as int));
    lemma_lead_read(s, pos, LOWER_I);
    lemma_integer_read(s, pos + 2, n);
}

/// The wire form of an array key is read as that key.
pub(crate) proof fn lemma_array_key_reads_back(s: Seq<u8>, pos: int, key: ArrayKeyView)
    requires
        has_at(s, pos, ser::spec_array_key(key)),
        key.unambiguous(),
    ensures
        grammar::spec_array_key(s, pos) == Ok::<(ArrayKeyView, int), ParseError>(
            (key, pos + ser::spec_array_key(key).len()),
        ),
{
    match key {
        ArrayKeyView::Integer(n) => {
            lemma_integer_reads_back(s, pos, n);
        },
        ArrayKeyView::String(bytes) => {
            lemma_string_reads_back(s, pos, bytes);
        },
    }
}

/// The token of a decimal, where it stands before a semicolon, is read as
/// that decimal.
proof fn lemma_decimal_read(s: Seq<u8>, pos: int, d: DecimalView)
    requires
        has_at(s, pos, ser::spec_decimal(d)),
        byte_at(s, pos + ser::spec_decimal(d).len()) == Some(SEMICOLON),
        d.well_formed(),
    ensures
        grammar::spec_decimal(s, pos) == Ok::<(DecimalView, int), ParseError>(
            (d, pos + ser::spec_decimal(d).len()),
        ),
{
    let token = ser::spec_decimal(d);
    match d {
        DecimalView::Literal(text) => {
            lemma_float_read(s, pos, text);
        },
        DecimalView::NegInfinity => {
            lemma_has_at_byte(s, pos, token, 0);
            lemma_has_at_byte(s, pos, token, 1);
            lemma_has_at_byte(s, pos, token, 2);
            lemma_has_at_byte(s, pos, token, 3);
        },
        _ => {
            lemma_has_at_byte(s, pos, token, 0);
            lemma_has_at_byte(s, pos, token, 1);
            lemma_has_at_byte(s, pos, token, 2);
        },
    }
}

/// What opens a counted block, where it stands, is read as the count.
pub(crate) proof fn lemma_block_start_read(s: Seq<u8>, pos: int, count: nat)
    requires
        has_at(s, pos, nat_text(count) + seq![COLON, OPEN_BRACE]),
        count <= usize::MAX,
    ensures
        grammar::spec_block_start(s, pos) == Ok::<(usize, int), ParseError>(
            (count as usize, pos + nat_text(count).len() + 2),
        ),
{
    lemma_has_at_concat(s, pos, nat_text(count), seq![COLON, OPEN_BRACE]);
    lemma_has_at_byte(s, pos + nat_text(count).len(), seq![COLON, OPEN_BRACE], 0);
    lemma_has_at_byte(s, pos + nat_text(count).len(), seq![COLON, OPEN_BRACE], 1);
    lemma_size_read(s, pos, count);
}

/// The parts of the wire form of a custom object stand one behind the
/// other.
pub(crate) proof fn lemma_custom_object_parts(s: Seq<u8>, pos: int, class_name: Seq<u8>, data: Seq<u8>)
    requires
        has_at(s, pos, ser::spec_serialize(ValueView::CustomObject { class_name, data })),
    ensures
        has_at(s, pos, seq![UPPER_C, COLON]),
        has_at(s, pos + 2, ser::spec_sized(class_name)),
        byte_at(s, pos + 2 + ser::spec_sized(class_name).len()) == Some(COLON),
        has_at(
            s,
            pos + 3 + ser::spec_sized(class_name).len(),
            nat_text(data.len()) + seq![COLON, OPEN_BRACE],
        ),
        has_at(s, pos + 5 + ser::spec_sized(class_name).len() + nat_text(data.len()).len(), data),
        byte_at(s, pos + 5 + ser::spec_sized(class_name).len() + nat_text(data.len()).len() + data.len())
            == Some(CLOSE_BRACE),
        ser::spec_serialize(ValueView::CustomObject { class_name, data }).len() == 6 + ser::spec_sized(
            class_name,
        ).len() + nat_text(data.len()).len() + data.len(),
{
    let lead = seq![UPPER_C, COLON];
    let name = ser::spec_sized(class_name);
    let start = nat_text(data.len()) + seq![COLON, OPEN_BRACE];
    let whole = ser::spec_serialize(ValueView::CustomObject { class_name, data });
    assert(whole =~= lead + (name + (seq![COLON] + (start + (data + seq![CLOSE_BRACE])))));
    lemma_has_at_concat(s, pos, lead, name + (seq![COLON] + (start + (data + seq![CLOSE_BRACE]))));
    let name_start = pos + 2;
    lemma_has_at_concat(s, name_start, name, seq![COLON] + (start + (data + seq![CLOSE_BRACE])));
    let colon = name_start + name.len();
    lemma_has_at_concat(s, colon, seq![COLON], start + (data + seq![CLOSE_BRACE]));
    let block = colon + 1;
    lemma_has_at_concat(s, block, start, data + seq![CLOSE_BRACE]);
    let data_start = block + start.len();
    lemma_has_at_concat(s, data_start, data, seq![CLOSE_BRACE]);
    lemma_has_at_byte(s, colon, seq![COLON], 0);
    lemma_has_at_byte(s, data_start + data.len(), seq![CLOSE_BRACE], 0);
}

/// The wire form of a custom object is read as that object.
proof fn lemma_custom_object_reads_back(s: Seq<u8>, pos: int, class_name: Seq<u8>, data: Seq<u8>)
    requires
        has_at(s, pos, ser::spec_serialize(ValueView::CustomObject { class_name, data })),
        class_name.len() <= usize::MAX,
        data.len() <= usize::MAX,
    ensures
        grammar::spec_value_custom_object(s, pos) == Ok::<(ValueView, int), ParseError>(
            (
                ValueView::CustomObject { class_name, data },
                pos + ser::spec_serialize(ValueView::CustomObject { class_name, data }).len(),
            ),
        ),
        byte_at(s, pos) == Some(UPPER_C),
{
    lemma_custom_object_parts(s, pos, class_name, data);
    lemma_lead_read(s, pos, UPPER_C);
    lemma_sized_string_read(s, pos + 2, class_name);
    let block = pos + 3 + ser::spec_sized(class_name).len();
    lemma_block_start_read(s, block, data.len());
    let start = block + nat_text(data.len()).len() + 2;
    assert(s.subrange(start, start + data.len()) == data);
}

/// The wire form of a decimal value is read as that value.
proof fn lemma_decimal_reads_back(s: Seq<u8>, pos: int, d: DecimalView)
    requires
        has_at(s, pos, ser::spec_serialize(ValueView::Decimal(d))),
        d.well_formed(),
    ensures
        grammar::spec_value_decimal(s, pos) == Ok::<(ValueView, int), ParseError>(
            (ValueView::Decimal(d), pos + ser::spec_serialize(ValueView::Decimal(d)).len()),
        ),
        byte_at(s, pos) == Some(LOWER_D),
{
    lemma_item_parts(s, pos, LOWER_D, ser::spec_decimal(d));
    lemma_lead_read(s, pos, LOWER_D);
    lemma_decimal_read(s, pos + 2, d);
}

/// The wire form of a reference, with `letter` for its kind, is read as its
/// index.
proof fn lemma_reference_reads_back(s: Seq<u8>, pos: int, letter: u8, index: usize)
    requires
        has_at(s, pos, seq![letter, COLON] + nat_text(index as nat) + seq![SEMICOLON]),
        index >= 1,
    ensures
        grammar::spec_reference(s, pos, letter) == Ok::<(usize, int), ParseError>(
            (index, pos + nat_text(index as nat).len() + 3),
        ),
        byte_at(s, pos) == Some(letter),
{
    lemma_item_parts(s, pos, letter, nat_text(index as nat));
    lemma_lead_read(s, pos, letter);
    lemma_index_read(s, pos + 2, index);
}

/// The wire forms of null and of a boolean are read as those values.
proof fn lemma_constant_reads_back(s: Seq<u8>, pos: int, v: ValueView)
    requires
        has_at(s, pos, ser::spec_serialize(v)),
        v is Null || v is Boolean,
    ensures
        v is Null ==> grammar::spec_value_null(s, pos) == Ok::<(ValueView, int), ParseError>((v, pos + 2))
            && byte_at(s, pos) == Some(UPPER_N),
        v is Boolean ==> grammar::spec_value_boolean(s, pos) == Ok::<(ValueView, int), ParseError>(
            (v, pos + 4),
        ) && byte_at(s, pos) == Some(LOWER_B),
        ser::spec_serialize(v).len() == if v is Null { 2int } else { 4int },
{
    let bytes = ser::spec_serialize(v);
    lemma_has_at_byte(s, pos, bytes, 0);
    lemma_has_at_byte(s, pos, bytes, 1);
    if v is Boolean {
        lemma_has_at_byte(s, pos, bytes, 2);
        lemma_has_at_byte(s, pos, bytes, 3);
    }
}

/// The wire form of null or of a boolean is read as that value.
proof fn lemma_constant_value_reads_back(s: Seq<u8>, pos: int, v: ValueView, depth: nat)
    requires
        has_at(s, pos, ser::spec_serialize(v)),
        v is Null || v is Boolean,
    ensures
        grammar::spec_any_value(s, pos, depth) == Ok::<(ValueView, int), ParseError>(
            (v, pos + ser::spec_serialize(v).len()),
        ),
{
    lemma_constant_reads_back(s, pos, v);
}

/// The wire form of an integer value is read as that value.
proof fn lemma_integer_value_reads_back(s: Seq<u8>, pos: int, n: i64, depth: nat)
    requires
        has_at(s, pos, ser::spec_serialize(ValueView::Integer(n))),
    ensures
        grammar::spec_any_value(s, pos, depth) == Ok::<(ValueView, int), ParseError>(
            (ValueView::Integer(n), pos + ser::spec_serialize(ValueView::Integer(n)).len()),
        ),
{
    lemma_integer_reads_back(s, pos, n);
}

/// The wire form of a decimal value is read as that value.
proof fn lemma_decimal_value_reads_back(s: Seq<u8>, pos: int, d: DecimalView, depth: nat)
    requires
        has_at(s, pos, ser::spec_serialize(ValueView::Decimal(d))),
        d.well_formed(),
    ensures
        grammar::spec_any_value(s, pos, depth) == Ok::<(ValueView, int), ParseError>(
            (ValueView::Decimal(d), pos + ser::spec_serialize(ValueView::Decimal(d)).len()),
        ),
{
    lemma_decimal_reads_back(s, pos, d);
}

/// The wire form of a string value is read as that value.
proof fn lemma_string_value_reads_back(s: Seq<u8>, pos: int, bytes: Seq<u8>, depth: nat)
    requires
        has_at(s, pos, ser::spec_serialize(ValueView::String(bytes))),
        bytes.len() <= usize::MAX,
    ensures
        grammar::spec_any_value(s, pos, depth) == Ok::<(ValueView, int), ParseError>(
            (ValueView::String(bytes), pos + ser::spec_serialize(ValueView::String(bytes)).len()),
        ),
{
    lemma_string_reads_back(s, pos, bytes);
}

/// The wire form of a custom object is read as that value.
proof fn lemma_custom_object_value_reads_back(
    s: Seq<u8>,
    pos: int,
    class_name: Seq<u8>,
    data: Seq<u8>,
    depth: nat,
)
    requires
        has_at(s, pos, ser::spec_serialize(ValueView::CustomObject { class_name, data })),
        class_name.len() <= usize::MAX,
        data.len() <= usize::MAX,
    ensures
        grammar::spec_any_value(s, pos, depth) == Ok::<(ValueView, int), ParseError>(
            (
                ValueView::CustomObject { class_name, data },
                pos + ser::spec_serialize(ValueView::CustomObject { class_name, data }).len(),
            ),
        ),
{
    lemma_custom_object_reads_back(s, pos, class_name, data);
}

/// The wire form of a reference to a value is read as that value.
proof fn lemma_value_reference_reads_back(s: Seq<u8>, pos: int, index: usize, depth: nat)
    requires
        has_at(s, pos, ser::spec_serialize(ValueView::ValueReference(index))),
        index >= 1,
    ensures
        grammar::spec_any_value(s, pos, depth) == Ok::<(ValueView, int), ParseError>(
            (
                ValueView::ValueReference(index),
                pos + ser::spec_serialize(ValueView::ValueReference(index)).len(),
            ),
        ),
{
    lemma_reference_reads_back(s, pos, UPPER_R, index);
}

/// The wire form of a reference to an object is read as that value.
proof fn lemma_object_reference_reads_back(s: Seq<u8>, pos: int, index: usize, depth: nat)
    requires
        has_at(s, pos, ser::spec_serialize(ValueView::ObjectReference(index))),
        index >= 1,
    ensures
        grammar::spec_any_value(s, pos, depth) == Ok::<(ValueView, int), ParseError>(
            (
                ValueView::ObjectReference(index),
                pos + ser::spec_serialize(ValueView::ObjectReference(index)).len(),
            ),
        ),
{
    lemma_reference_reads_back(s, pos, LOWER_R, index);
}

/// The wire form of a value that is neither an array nor an object is read
/// as that value.
proof fn lemma_scalar_reads_back(s: Seq<u8>, pos: int, v: ValueView, depth: nat)
    requires
        has_at(s, pos, ser::spec_serialize(v)),
        v.unambiguous(),
        !(v is Array),
        !(v is Object),
    ensures
        grammar::spec_any_value(s, pos, depth) == Ok::<(ValueView, int), ParseError>(
            (v, pos + ser::spec_serialize(v).len()),
        ),
{
    match v {
        ValueView::Null => {
            lemma_constant_value_reads_back(s, pos, v, depth);
        },
        ValueView::Boolean(b) => {
            lemma_constant_value_reads_back(s, pos, v, depth);
        },
        ValueView::Integer(n) => {
            lemma_integer_value_reads_back(s, pos, n, depth);
        },
        ValueView::Decimal(d) => {
            lemma_decimal_value_reads_back(s, pos, d, depth);
        },
        ValueView::String(payload) => {
            lemma_string_value_reads_back(s, pos, payload, depth);
        },
        ValueView::CustomObject { class_name, data } => {
            lemma_custom_object_value_reads_back(s, pos, class_name, data, depth);
        },
        ValueView::ValueReference(index) => {
            lemma_value_reference_reads_back(s, pos, index, depth);
        },
        ValueView::ObjectReference(index) => {
            lemma_object_reference_reads_back(s, pos, index, depth);
        },
        _ => {},
    }
}

/// The parts of the wire form of an array stand one behind the other.
pub(crate) proof fn lemma_array_parts(s: Seq<u8>, pos: int, entries: Seq<ArrayEntryView>)
    requires
        has_at(s, pos, ser::spec_serialize(ValueView::Array(entries))),
    ensures
        has_at(s, pos, seq![LOWER_A, COLON]),
        has_at(s, pos + 2, nat_text(entries.len()) + seq![COLON, OPEN_BRACE]),
        has_at(s, pos + 4 + nat_text(entries.len()).len(), ser::spec_array_entries(entries)),
        byte_at(s, pos + 4 + nat_text(entries.len()).len() + ser::spec_array_entries(entries).len())
            == Some(CLOSE_BRACE),
        ser::spec_serialize(ValueView::Array(entries)).len() == 5 + nat_text(entries.len()).len()
            + ser::spec_array_entries(entries).len(),
{
    let lead = seq![LOWER_A, COLON];
    let start = nat_text(entries.len()) + seq![COLON, OPEN_BRACE];
    let body = ser::spec_array_entries(entries);
    assert(ser::spec_serialize(ValueView::Array(entries)) =~= lead + (start + (body + seq![CLOSE_BRACE])));
    lemma_has_at_concat(s, pos, lead, start + (body + seq![CLOSE_BRACE]));
    lemma_has_at_concat(s, pos + 2, start, body + seq![CLOSE_BRACE]);
    let first = pos + 2 + start.len();
    lemma_has_at_concat(s, first, body, seq![CLOSE_BRACE]);
    lemma_has_at_byte(s, first + body.len(), seq![CLOSE_BRACE], 0);
}

/// The parts of the wire form of an object stand one behind the other.
pub(crate) proof fn lemma_object_parts(
    s: Seq<u8>,
    pos: int,
    class_name: Seq<u8>,
    properties: Seq<ObjectPropertyView>,
)
    requires
        has_at(s, pos, ser::spec_serialize(ValueView::Object { class_name, properties })),
    ensures
        has_at(s, pos, seq![UPPER_O, COLON]),
        has_at(s, pos + 2, ser::spec_sized(class_name)),
        byte_at(s, pos + 2 + ser::spec_sized(class_name).len()) == Some(COLON),
        has_at(
            s,
            pos + 3 + ser::spec_sized(class_name).len(),
            nat_text(properties.len()) + seq![COLON, OPEN_BRACE],
        ),
        has_at(
            s,
            pos + 5 + ser::spec_sized(class_name).len() + nat_text(properties.len()).len(),
            ser::spec_properties(class_name, properties),
        ),
        byte_at(
            s,
            pos + 5 + ser::spec_sized(class_name).len() + nat_text(properties.len()).len()
                + ser::spec_properties(class_name, properties).len(),
        ) == Some(CLOSE_BRACE),
        ser::spec_serialize(ValueView::Object { class_name, properties }).len() == 6 + ser::spec_sized(
            class_name,
        ).len() + nat_text(properties.len()).len() + ser::spec_properties(class_name, properties).len(),
{
    let lead = seq![UPPER_O, COLON];
    let name = ser::spec_sized(class_name);
    let start = nat_text(properties.len()) + seq![COLON, OPEN_BRACE];
    let body = ser::spec_properties(class_name, properties);
    let whole = ser::spec_serialize(ValueView::Object { class_name, properties });
    assert(whole =~= lead + (name + (seq![COLON] + (start + (body + seq![CLOSE_BRACE])))));
    lemma_has_at_concat(s, pos, lead, name + (seq![COLON] + (start + (body + seq![CLOSE_BRACE]))));
    let name_start = pos + 2;
    lemma_has_at_concat(s, name_start, name, seq![COLON] + (start + (body + seq![CLOSE_BRACE])));
    let colon = name_start + name.len();
    lemma_has_at_concat(s, colon, seq![COLON], start + (body + seq![CLOSE_BRACE]));
    let block = colon + 1;
    lemma_has_at_concat(s, block, start, body + seq![CLOSE_BRACE]);
    let first = block + start.len();
    lemma_has_at_concat(s, first, body, seq![CLOSE_BRACE]);
    lemma_has_at_byte(s, colon, seq![COLON], 0);
    lemma_has_at_byte(s, first + body.len(), seq![CLOSE_BRACE], 0);
}

/// The wire form of a value, where it stands in an input, is read as that
/// value, whatever stands before and behind it.
pub proof fn lemma_value_reads_back(s: Seq<u8>, pos: int, v: ValueView, depth: nat)
    requires
        has_at(s, pos, ser::spec_serialize(v)),
        v.unambiguous(),
        v.nests_within(depth),
    ensures
        grammar::spec_any_value(s, pos, depth) == Ok::<(ValueView, int), ParseError>(
            (v, pos + ser::spec_serialize(v).len()),
        ),
    decreases v, 4nat,
{
    match v {
        ValueView::Array(entries) => {
            lemma_array_reads_back(s, pos, entries, depth);
        },
        ValueView::Object { class_name, properties } => {
            lemma_object_reads_back(s, pos, class_name, properties, depth);
        },
        _ => {
            lemma_scalar_reads_back(s, pos, v, depth);
        },
    }
}

/// An array whose parts stand one behind the other, and whose entries are
/// read as `entries`, is read as the array of those entries.
proof fn lemma_array_read_from_parts(
    s: Seq<u8>,
    pos: int,
    entries: Seq<ArrayEntryView>,
    depth: nat,
    body_len: int,
)
    requires
        depth >= 1,
        entries.len() <= usize::MAX,
        has_at(s, pos, seq![LOWER_A, COLON]),
        has_at(s, pos + 2, nat_text(entries.len()) + seq![COLON, OPEN_BRACE]),
        grammar::spec_array_pairs(s, pos + 4 + nat_text(entries.len()).len(), entries.len(), (depth - 1) as nat)
            == Ok::<(Seq<ArrayEntryView>, int), ParseError>(
            (entries, pos + 4 + nat_text(entries.len()).len() + body_len),
        ),
        byte_at(s, pos + 4 + nat_text(entries.len()).len() + body_len) == Some(CLOSE_BRACE),
    ensures
        grammar::spec_value_array(s, pos, depth) == Ok::<(ValueView, int), ParseError>(
            (ValueView::Array(entries), pos + 5 + nat_text(entries.len()).len() + body_len),
        ),
        byte_at(s, pos) == Some(LOWER_A),
{
    lemma_lead_read(s, pos, LOWER_A);
    lemma_block_start_read(s, pos + 2, entries.len());
}

/// The wire form of an array is read as that array.
proof fn lemma_array_reads_back(s: Seq<u8>, pos: int, entries: Seq<ArrayEntryView>, depth: nat)
    requires
        has_at(s, pos, ser::spec_serialize(ValueView::Array(entries))),
        ValueView::Array(entries).unambiguous(),
        ValueView::Array(entries).nests_within(depth),
    ensures
        grammar::spec_value_array(s, pos, depth) == Ok::<(ValueView, int), ParseError>(
            (ValueView::Array(entries), pos + ser::spec_serialize(ValueView::Array(entries)).len()),
        ),
        byte_at(s, pos) == Some(LOWER_A),
    decreases entries, 2nat,
{
    lemma_array_parts(s, pos, entries);
    let first = pos + 4 + nat_text(entries.len()).len();
    lemma_entries_read_back(s, first, entries, (depth - 1) as nat);
    lemma_array_read_from_parts(s, pos, entries, depth, ser::spec_array_entries(entries).len() as int);
}

/// An object is read from what its parts are read as.
proof fn lemma_object_from_parts(
    s: Seq<u8>,
    pos: int,
    depth: nat,
    class_name: Seq<u8>,
    colon: int,
    properties: Seq<ObjectPropertyView>,
    count: usize,
    first: int,
    brace: int,
)
    requires
        depth >= 1,
        grammar::spec_lead(s, pos, UPPER_O) == Ok::<int, ParseError>(pos + 2),
        spec_sized_string(s, pos + 2) == Ok::<(Seq<u8>, int), ParseError>((class_name, colon)),
        byte_at(s, colon) == Some(COLON),
        grammar::spec_block_start(s, colon + 1) == Ok::<(usize, int), ParseError>((count, first)),
        grammar::spec_object_properties(s, first, count as nat, (depth - 1) as nat) == Ok::<
            (Seq<ObjectPropertyView>, int),
            ParseError,
        >((properties, brace)),
        byte_at(s, brace) == Some(CLOSE_BRACE),
    ensures
        grammar::spec_value_object(s, pos, depth) == Ok::<(ValueView, int), ParseError>(
            (ValueView::Object { class_name, properties }, brace + 1),
        ),
{
}

/// An object whose parts the encoder wrote is read as that object.
proof fn lemma_object_parts_read_back(
    s: Seq<u8>,
    pos: int,
    class_name: Seq<u8>,
    properties: Seq<ObjectPropertyView>,
    depth: nat,
)
    requires
        depth >= 1,
        class_name.len() <= usize::MAX,
        properties.len() <= usize::MAX,
        has_at(s, pos, seq![UPPER_O, COLON]),
        has_at(s, pos + 2, ser::spec_sized(class_name)),
        byte_at(s, pos + 2 + ser::spec_sized(class_name).len()) == Some(COLON),
        has_at(
            s,
            pos + 3 + ser::spec_sized(class_name).len(),
            nat_text(properties.len()) + seq![COLON, OPEN_BRACE],
        ),
        has_at(
            s,
            pos + 5 + ser::spec_sized(class_name).len() + nat_text(properties.len()).len(),
            ser::spec_properties(class_name, properties),
        ),
        byte_at(
            s,
            pos + 5 + ser::spec_sized(class_name).len() + nat_text(properties.len()).len()
                + ser::spec_properties(class_name, properties).len(),
        ) == Some(CLOSE_BRACE),
        forall|i: int|
            0 <= i < properties.len() ==> (#[trigger] properties[i]).unambiguous(class_name)
                && properties[i].value.nests_within((depth - 1) as nat),
    ensures
        grammar::spec_value_object(s, pos, depth) == Ok::<(ValueView, int), ParseError>(
            (
                ValueView::Object { class_name, properties },
                pos + 6 + ser::spec_sized(class_name).len() + nat_text(properties.len()).len()
                    + ser::spec_properties(class_name, properties).len(),
            ),
        ),
        byte_at(s, pos) == Some(UPPER_O),
    decreases properties, 2nat,
{
    let colon = pos + 2 + ser::spec_sized(class_name).len();
    let first = colon + 3 + nat_text(properties.len()).len();
    let brace = first + ser::spec_properties(class_name, properties).len();
    lemma_properties_read_back(s, first, class_name, properties, (depth - 1) as nat);
    lemma_lead_read(s, pos, UPPER_O);
    lemma_sized_string_read(s, pos + 2, class_name);
    lemma_block_start_read(s, colon + 1, properties.len());
    lemma_object_from_parts(
        s,
        pos,
        depth,
        class_name,
        colon,
        properties,
        properties.len() as usize,
        first,
        brace,
    );
}

/// The wire form of an object is read as that object.
proof fn lemma_object_reads_back(
    s: Seq<u8>,
    pos: int,
    class_name: Seq<u8>,
    properties: Seq<ObjectPropertyView>,
    depth: nat,
)
    requires
        has_at(s, pos, ser::spec_serialize(ValueView::Object { class_name, properties })),
        (ValueView::Object { class_name, properties }).unambiguous(),
        (ValueView::Object { class_name, properties }).nests_within(depth),
    ensures
        grammar::spec_value_object(s, pos, depth) == Ok::<(ValueView, int), ParseError>(
            (
                ValueView::Object { class_name, properties },
                pos + ser::spec_serialize(ValueView::Object { class_name, properties }).len(),
            ),
        ),
        byte_at(s, pos) == Some(UPPER_O),
    decreases properties, 3nat,
{
    lemma_object_parts(s, pos, class_name, properties);
    lemma_object_parts_read_back(s, pos, class_name, properties, depth);
}

/// The wire form of an array entry is read as that entry.
pub(crate) proof fn lemma_entry_reads_back(s: Seq<u8>, pos: int, entry: ArrayEntryView, depth: nat)
    requires
        has_at(s, pos, ser::spec_array_entry(entry)),
        entry.key.unambiguous(),
        entry.value.unambiguous(),
        entry.value.nests_within(depth),
    ensures
        grammar::spec_array_pair(s, pos, depth) == Ok::<(ArrayEntryView, int), ParseError>(
            (entry, pos + ser::spec_array_entry(entry).len()),
        ),
    decreases entry, 0nat,
{
    lemma_has_at_concat(s, pos, ser::spec_array_key(entry.key), ser::spec_serialize(entry.value));
    lemma_array_key_reads_back(s, pos, entry.key);
    lemma_value_reads_back(s, pos + ser::spec_array_key(entry.key).len(), entry.value, depth);
}

/// A non-empty list of array entries is read from what its first entry and
/// the others are read as.
proof fn lemma_entries_from_parts(
    s: Seq<u8>,
    pos: int,
    count: nat,
    depth: nat,
    entry: ArrayEntryView,
    next: int,
    others: Seq<ArrayEntryView>,
    end: int,
)
    requires
        count >= 1,
        grammar::spec_array_pair(s, pos, depth) == Ok::<(ArrayEntryView, int), ParseError>((entry, next)),
        grammar::spec_array_pairs(s, next, (count - 1) as nat, depth) == Ok::<
            (Seq<ArrayEntryView>, int),
            ParseError,
        >((others, end)),
    ensures
        grammar::spec_array_pairs(s, pos, count, depth) == Ok::<(Seq<ArrayEntryView>, int), ParseError>(
            (seq![entry] + others, end),
        ),
{
}

/// The wire form of a list of array entries is read as those entries.
proof fn lemma_entries_read_back(s: Seq<u8>, pos: int, entries: Seq<ArrayEntryView>, depth: nat)
    requires
        has_at(s, pos, ser::spec_array_entries(entries)),
        forall|i: int|
            0 <= i < entries.len() ==> (#[trigger] entries[i]).key.unambiguous()
                && entries[i].value.unambiguous() && entries[i].value.nests_within(depth),
    ensures
        grammar::spec_array_pairs(s, pos, entries.len(), depth) == Ok::<(Seq<ArrayEntryView>, int), ParseError>(
            (entries, pos + ser::spec_array_entries(entries).len()),
        ),
    decreases entries, 1nat,
{
    if entries.len() == 0 {
        assert(entries =~= Seq::<ArrayEntryView>::empty());
    } else {
        let entry = entries[0];
        let others = entries.skip(1);
        let next = pos + ser::spec_array_entry(entry).len();
        lemma_array_entries_first(entries);
        lemma_has_at_concat(s, pos, ser::spec_array_entry(entry), ser::spec_array_entries(others));
        lemma_entry_reads_back(s, pos, entry, depth);
        assert forall|i: int| 0 <= i < others.len() implies (#[trigger] others[i]).key.unambiguous()
            && others[i].value.unambiguous() && others[i].value.nests_within(depth) by {
            assert(others[i] == entries[i + 1]);
        }
        lemma_entries_read_back(s, next, others, depth);
        lemma_entries_from_parts(
            s,
            pos,
            entries.len(),
            depth,
            entry,
            next,
            others,
            next + ser::spec_array_entries(others).len(),
        );
        assert(seq![entry] + others =~= entries);
    }
}

/// The parts of the wire form of a property stand one behind the other: the
/// mangled name as a string item, then the value.
pub(crate) proof fn lemma_property_parts(s: Seq<u8>, pos: int, class_name: Seq<u8>, property: ObjectPropertyView)
    requires
        has_at(s, pos, ser::spec_property(class_name, property)),
    ensures
        ({
            let mangled = ser::spec_mangled_name(property.visibility, class_name, property.name);
            let name = seq![LOWER_S, COLON] + ser::spec_sized(mangled) + seq![SEMICOLON];
            &&& name.len() == ser::spec_sized(mangled).len() + 3
            &&& has_at(s, pos, name)
            &&& has_at(s, pos + name.len(), ser::spec_serialize(property.value))
            &&& ser::spec_property(class_name, property).len() == name.len() + ser::spec_serialize(
                property.value,
            ).len()
        }),
{
    let mangled = ser::spec_mangled_name(property.visibility, class_name, property.name);
    let name = seq![LOWER_S, COLON] + ser::spec_sized(mangled) + seq![SEMICOLON];
    lemma_has_at_concat(s, pos, name, ser::spec_serialize(property.value));
}

/// A property is read from what its name and its value are read as.
proof fn lemma_property_from_parts(
    s: Seq<u8>,
    pos: int,
    depth: nat,
    mangled: Seq<u8>,
    value_start: int,
    value: ValueView,
    next: int,
)
    requires
        grammar::spec_string(s, pos) == Ok::<(Seq<u8>, int), ParseError>((mangled, value_start)),
        grammar::spec_any_value(s, value_start, depth) == Ok::<(ValueView, int), ParseError>((value, next)),
    ensures
        grammar::spec_object_property(s, pos, depth) == Ok::<(ObjectPropertyView, int), ParseError>(
            (
                ObjectPropertyView {
                    visibility: grammar::spec_visibility(mangled).0,
                    name: grammar::spec_visibility(mangled).1,
                    value,
                },
                next,
            ),
        ),
{
    assert(grammar::spec_object_property_name(s, pos) == Ok::<
        ((ObjectPropertyVisibility, Seq<u8>), int),
        ParseError,
    >((grammar::spec_visibility(mangled), value_start)));
}

/// The wire form of a property of an object of class `class_name` is read as
/// that property.
pub(crate) proof fn lemma_property_reads_back(
    s: Seq<u8>,
    pos: int,
    class_name: Seq<u8>,
    property: ObjectPropertyView,
    depth: nat,
)
    requires
        has_at(s, pos, ser::spec_property(class_name, property)),
        property.unambiguous(class_name),
        property.value.nests_within(depth),
    ensures
        grammar::spec_object_property(s, pos, depth) == Ok::<(ObjectPropertyView, int), ParseError>(
            (property, pos + ser::spec_property(class_name, property).len()),
        ),
    decreases property, 0nat,
{
    let mangled = ser::spec_mangled_name(property.visibility, class_name, property.name);
    let value = pos + ser::spec_sized(mangled).len() + 3;
    lemma_property_parts(s, pos, class_name, property);
    lemma_string_reads_back(s, pos, mangled);
    lemma_visibility_of_mangled(property, class_name);
    lemma_value_reads_back(s, value, property.value, depth);
    lemma_property_from_parts(
        s,
        pos,
        depth,
        mangled,
        value,
        property.value,
        value + ser::spec_serialize(property.value).len(),
    );
}

/// A non-empty list of properties is read from what its first property and
/// the others are read as.
proof fn lemma_properties_from_parts(
    s: Seq<u8>,
    pos: int,
    count: nat,
    depth: nat,
    property: ObjectPropertyView,
    next: int,
    others: Seq<ObjectPropertyView>,
    end: int,
)
    requires
        count >= 1,
        grammar::spec_object_property(s, pos, depth) == Ok::<(ObjectPropertyView, int), ParseError>(
            (property, next),
        ),
        grammar::spec_object_properties(s, next, (count - 1) as nat, depth) == Ok::<
            (Seq<ObjectPropertyView>, int),
            ParseError,
        >((others, end)),
    ensures
        grammar::spec_object_properties(s, pos, count, depth) == Ok::<
            (Seq<ObjectPropertyView>, int),
            ParseError,
        >((seq![property] + others, end)),
{
}

/// The wire form of a list of properties is read as those properties.
proof fn lemma_properties_read_back(
    s: Seq<u8>,
    pos: int,
    class_name: Seq<u8>,
    properties: Seq<ObjectPropertyView>,
    depth: nat,
)
    requires
        has_at(s, pos, ser::spec_properties(class_name, properties)),
        forall|i: int|
            0 <= i < properties.len() ==> (#[trigger] properties[i]).unambiguous(class_name)
                && properties[i].value.nests_within(depth),
    ensures
        grammar::spec_object_properties(s, pos, properties.len(), depth) == Ok::<
            (Seq<ObjectPropertyView>, int),
            ParseError,
        >((properties, pos + ser::spec_properties(class_name, properties).len())),
    decreases properties, 1nat,
{
    if properties.len() == 0 {
        assert(properties =~= Seq::<ObjectPropertyView>::empty());
    } else {
        let property = properties[0];
        let others = properties.skip(1);
        let next = pos + ser::spec_property(class_name, property).len();
        lemma_properties_first(class_name, properties);
        lemma_has_at_concat(
            s,
            pos,
            ser::spec_property(class_name, property),
            ser::spec_properties(class_name, others),
        );
        lemma_property_reads_back(s, pos, class_name, property, depth);
        assert forall|i: int| 0 <= i < others.len() implies (#[trigger] others[i]).unambiguous(class_name)
            && others[i].value.nests_within(depth) by {
            assert(others[i] == properties[i + 1]);
        }
        lemma_properties_read_back(s, next, class_name, others, depth);
        lemma_properties_from_parts(
            s,
            pos,
            properties.len(),
            depth,
            property,
            next,
            others,
            next + ser::spec_properties(class_name, others).len(),
        );
        assert(seq![property] + others =~= properties);
    }
}

/// The wire form of a session entry is read as that entry.
pub(crate) proof fn lemma_session_entry_reads_back(s: Seq<u8>, pos: int, entry: SessionEntryView, depth: nat)
    requires
        has_at(s, pos, ser::spec_session_entry(entry)),
        entry.unambiguous(),
        entry.value.nests_within(depth),
    ensures
        grammar::spec_session_entry(s, pos, depth) == Ok::<(SessionEntryView, int), ParseError>(
            (entry, pos + ser::spec_session_entry(entry).len()),
        ),
        grammar::spec_session_key(s, pos) == Ok::<(Seq<u8>, int), ParseError>(
            (entry.key, pos + entry.key.len()),
        ),
        ser::spec_session_entry(entry).len() == entry.key.len() + 1 + ser::spec_serialize(entry.value).len(),
{
    let bar = pos + entry.key.len();
    lemma_has_at_concat(s, pos, entry.key + seq![PIPE], ser::spec_serialize(entry.value));
    lemma_has_at_concat(s, pos, entry.key, seq![PIPE]);
    lemma_has_at_byte(s, bar, seq![PIPE], 0);
    assert forall|i: int| pos <= i < bar implies s[i] != PIPE by {
        lemma_has_at_byte(s, pos, entry.key, i - pos);
    }
    grammar::lemma_find_at(s, pos, PIPE, bar);
    lemma_value_reads_back(s, bar + 1, entry.value, depth);
}

/// A non-empty run of session entries is read from what its first entry and
/// the others are read as.
proof fn lemma_session_from_parts(
    s: Seq<u8>,
    pos: int,
    depth: nat,
    entry: SessionEntryView,
    next: int,
    others: Seq<SessionEntryView>,
    end: int,
)
    requires
        pos < s.len(),
        grammar::spec_session_entry(s, pos, depth) == Ok::<(SessionEntryView, int), ParseError>((entry, next)),
        grammar::spec_session_entries(s, next, depth) == Ok::<(Seq<SessionEntryView>, int), ParseError>(
            (others, end),
        ),
    ensures
        grammar::spec_session_entries(s, pos, depth) == Ok::<(Seq<SessionEntryView>, int), ParseError>(
            (seq![entry] + others, end),
        ),
{
}

/// The wire form of a session, where it ends an input, is read as that
/// session.
pub proof fn lemma_session_reads_back(s: Seq<u8>, pos: int, entries: Seq<SessionEntryView>, depth: nat)
    requires
        has_at(s, pos, ser::spec_session_encode(entries)),
        pos + ser::spec_session_encode(entries).len() == s.len(),
        forall|i: int|
            0 <= i < entries.len() ==> (#[trigger] entries[i]).unambiguous() && entries[i].value.nests_within(
                depth,
            ),
    ensures
        grammar::spec_session_entries(s, pos, depth) == Ok::<(Seq<SessionEntryView>, int), ParseError>(
            (entries, s.len() as int),
        ),
    decreases entries.len(),
{
    if entries.len() == 0 {
        assert(entries =~= Seq::<SessionEntryView>::empty());
    } else {
        let entry = entries[0];
        let others = entries.skip(1);
        let next = pos + ser::spec_session_entry(entry).len();
        lemma_session_first(entries);
        lemma_has_at_concat(s, pos, ser::spec_session_entry(entry), ser::spec_session_encode(others));
        lemma_session_entry_reads_back(s, pos, entry, depth);
        assert forall|i: int| 0 <= i < others.len() implies (#[trigger] others[i]).unambiguous()
            && others[i].value.nests_within(depth) by {
            assert(others[i] == entries[i + 1]);
        }
        lemma_session_reads_back(s, next, others, depth);
        lemma_session_from_parts(s, pos, depth, entry, next, others, s.len() as int);
        assert(seq![entry] + others =~= entries);
    }
}

/// Decoding the wire form of a value gives the value back.
///
/// This holds of every unambiguous value that nests within the limit in
/// force; `unambiguous` says what that asks of a value.
pub proof fn lemma_unserialize_inverts_serialize(v: ValueView, depth: nat)
    requires
        v.unambiguous(),
        v.nests_within(depth),
    ensures
        grammar::spec_unserialize(ser::spec_serialize(v), depth) == Ok::<ValueView, ParseError>(v),
{
    let bytes = ser::spec_serialize(v);
    assert(bytes.subrange(0, bytes.len() as int) =~= bytes);
    lemma_value_reads_back(bytes, 0, v, depth);
}

/// Decoding the wire form of a session gives the session back.
///
/// This holds of every session whose keys hold no `|` and whose values are
/// unambiguous and nest within the limit in force.
pub proof fn lemma_session_decode_inverts_encode(entries: Seq<SessionEntryView>, depth: nat)
    requires
        forall|i: int|
            0 <= i < entries.len() ==> (#[trigger] entries[i]).unambiguous() && entries[i].value.nests_within(
                depth,
            ),
    ensures
        grammar::spec_session_decode(ser::spec_session_encode(entries), depth) == Ok::<
            Seq<SessionEntryView>,
            ParseError,
        >(entries),
{
    let bytes = ser::spec_session_encode(entries);
    assert(bytes.subrange(0, bytes.len() as int) =~= bytes);
    lemma_session_reads_back(bytes, 0, entries, depth);
}

/// Bytes that the encoder wrote for a value come out of decoding and
/// encoding again unchanged.
pub proof fn lemma_value_round_trip(bytes: Seq<u8>, v: ValueView, depth: nat)
    requires
        bytes == ser::spec_serialize(v),
        v.unambiguous(),
        v.nests_within(depth),
    ensures
        grammar::spec_unserialize(bytes, depth) matches Ok(decoded) && ser::spec_serialize(decoded) == bytes,
{
    lemma_unserialize_inverts_serialize(v, depth);
}

/// Bytes that the encoder wrote for a session come out of decoding and
/// encoding again unchanged.
pub proof fn lemma_session_round_trip(bytes: Seq<u8>, entries: Seq<SessionEntryView>, depth: nat)
    requires
        bytes == ser::spec_session_encode(entries),
        forall|i: int|
            0 <= i < entries.len() ==> (#[trigger] entries[i]).unambiguous() && entries[i].value.nests_within(
                depth,
            ),
    ensures
        grammar::spec_session_decode(bytes, depth) matches Ok(decoded) && ser::spec_session_encode(decoded)
            == bytes,
{
    lemma_session_decode_inverts_encode(entries, depth);
}

/// A value made of native values alone is unambiguous: its strings and
/// arrays are held in memory, so their lengths fit a machine word.
pub proof fn lemma_native_is_unambiguous(value: Value)
    requires
        value@.native(),
    ensures
        value@.unambiguous(),
    decreases value,
{
    match value {
        Value::String(bytes) => {
            assert(bytes@.len() == bytes.len());
        },
        Value::Array(entries) => {
            let views = array_entries_view(entries@);
            assert(views.len() == entries.len());
            assert forall|i: int| 0 <= i < views.len() implies (#[trigger] views[i]).key.unambiguous()
                && views[i].value.unambiguous() by {
                let entry = entries@[i];
                assert(views[i] == entry@);
                if let ArrayKey::String(bytes) = entry.key {
                    assert(bytes@.len() == bytes.len());
                }
                lemma_native_is_unambiguous(entry.value);
            }
        },
        _ => {},
    }
}

/// A tree built from native values, once encoded and decoded, is the same
/// tree again.
///
/// This holds of every such tree that nests within the limit in force.
pub proof fn lemma_native_round_trip(value: Value, depth: nat)
    requires
        value@.native(),
        value@.nests_within(depth),
    ensures
        grammar::spec_unserialize(ser::spec_serialize(value@), depth) == Ok::<ValueView, ParseError>(value@),
{
    lemma_native_is_unambiguous(value);
    lemma_unserialize_inverts_serialize(value@, depth);
}

} // verus!
