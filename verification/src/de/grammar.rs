//! The grammar of values and sessions, as functions from an input and an
//! offset to what is read there: the value and the offset behind it, or the
//! failure to report. The executable readers return exactly this.
//!
//! A value is recognised by its first byte. Arrays and objects nest; `depth`
//! says how many levels may still be entered, and a reader that meets one
//! more reports `TooDeep` instead of descending.

use vstd::prelude::*;

use crate::ascii::{
    CLOSE_BRACE, COLON, LOWER_A, LOWER_B, LOWER_D, LOWER_I, LOWER_R, LOWER_S, MINUS, NUL, ONE, OPEN_BRACE, PIPE,
    SEMICOLON, STAR, UPPER_A, UPPER_C, UPPER_F, UPPER_I, UPPER_N, UPPER_O, UPPER_R, ZERO,
};
use crate::de::raw::{
    byte_at, lemma_tokens_advance, spec_close, spec_expect, spec_float, spec_signed_integer, spec_size,
    spec_sized_string, spec_unsigned_integer, unexpected, Parsed,
};
use crate::error::{ErrorLabel, ParseError, ParseErrorKind};
use crate::text::{digits_value, signed_value};
use crate::value::{
    ArrayEntryView, ArrayKeyView, DecimalView, ObjectPropertyView, ObjectPropertyVisibility, SessionEntryView,
    ValueView,
};

verus! {

/// `r`, with a failure attributed to `label`.
pub open spec fn labelled<T>(r: Parsed<T>, label: ErrorLabel) -> Parsed<T> {
    match r {
        Ok(found) => Ok(found),
        Err(e) => Err(e.spec_within(label)),
    }
}

/// The items `front`, followed by the items that `rest` read.
pub open spec fn preceded_by<T>(front: Seq<T>, rest: Parsed<Seq<T>>) -> Parsed<Seq<T>> {
    match rest {
        Ok((items, end)) => Ok((front + items, end)),
        Err(e) => Err(e),
    }
}

/// The offset of the first byte `b` at or after `from`; the length of the
/// input if there is none.
pub open spec fn spec_find(s: Seq<u8>, from: int, b: u8) -> int
    decreases s.len() - from,
{
    if 0 <= from < s.len() && s[from] != b {
        spec_find(s, from + 1, b)
    } else {
        from
    }
}

/// A lead token: the letter of a kind of value, and a colon.
pub open spec fn spec_lead(s: Seq<u8>, pos: int, letter: u8) -> Result<int, ParseError> {
    match spec_expect(s, pos, letter) {
        Ok(colon) => spec_expect(s, colon, COLON),
        Err(e) => Err(e),
    }
}

/// A signed integer that fits 64 bits. `-0` is zero, and leading zeros do not
/// count.
pub open spec fn spec_integer(s: Seq<u8>, pos: int) -> Parsed<i64> {
    match spec_signed_integer(s, pos) {
        Ok((token, end)) => if i64::MIN <= signed_value(token) <= i64::MAX {
            Ok((signed_value(token) as i64, end))
        } else {
            Err(ParseError::at(ParseErrorKind::OutOfRange, pos))
        },
        Err(e) => Err(e),
    }
}

/// The index of a reference: digits whose value is at least one and fits a
/// machine word.
pub open spec fn spec_index(s: Seq<u8>, pos: int) -> Parsed<usize> {
    match spec_unsigned_integer(s, pos) {
        Ok((digits, end)) => if 1 <= digits_value(digits) <= usize::MAX {
            Ok((digits_value(digits) as usize, end))
        } else {
            Err(ParseError::at(ParseErrorKind::OutOfRange, pos))
        },
        Err(e) => Err(e),
    }
}

/// `N;`
pub open spec fn spec_value_null(s: Seq<u8>, pos: int) -> Parsed<ValueView> {
    match spec_expect(s, pos, UPPER_N) {
        Ok(semicolon) => match spec_expect(s, semicolon, SEMICOLON) {
            Ok(end) => Ok((ValueView::Null, end)),
            Err(e) => Err(e),
        },
        Err(e) => Err(e),
    }
}

/// `b:0;` or `b:1;`
pub open spec fn spec_value_boolean(s: Seq<u8>, pos: int) -> Parsed<ValueView> {
    match spec_lead(s, pos, LOWER_B) {
        Ok(digit) => if byte_at(s, digit) == Some(ZERO) || byte_at(s, digit) == Some(ONE) {
            match spec_expect(s, digit + 1, SEMICOLON) {
                Ok(end) => Ok((ValueView::Boolean(s[digit] == ONE), end)),
                Err(e) => Err(e),
            }
        } else {
            Err(unexpected(s, digit))
        },
        Err(e) => Err(e),
    }
}

/// `i:`, a signed integer, `;`
pub open spec fn spec_integer_item(s: Seq<u8>, pos: int) -> Parsed<i64> {
    match spec_lead(s, pos, LOWER_I) {
        Ok(number) => match spec_integer(s, number) {
            Ok((n, semicolon)) => match spec_expect(s, semicolon, SEMICOLON) {
                Ok(end) => Ok((n, end)),
                Err(e) => Err(e),
            },
            Err(e) => Err(e),
        },
        Err(e) => Err(e),
    }
}

/// An integer value.
pub open spec fn spec_value_integer(s: Seq<u8>, pos: int) -> Parsed<ValueView> {
    match spec_integer_item(s, pos) {
        Ok((n, end)) => Ok((ValueView::Integer(n), end)),
        Err(e) => Err(e),
    }
}

/// Whether the three bytes `a`, `b`, `c` stand at `pos`.
pub open spec fn has_three(s: Seq<u8>, pos: int, a: u8, b: u8, c: u8) -> bool {
    byte_at(s, pos) == Some(a) && byte_at(s, pos + 1) == Some(b) && byte_at(s, pos + 2) == Some(c)
}

/// The token of a decimal: `NAN`, `INF`, `-INF`, or a float literal.
pub open spec fn spec_decimal(s: Seq<u8>, pos: int) -> Parsed<DecimalView> {
    if has_three(s, pos, UPPER_N, UPPER_A, UPPER_N) {
        Ok((DecimalView::Nan, pos + 3))
    } else if has_three(s, pos, UPPER_I, UPPER_N, UPPER_F) {
        Ok((DecimalView::Infinity, pos + 3))
    } else if byte_at(s, pos) == Some(MINUS) && has_three(s, pos + 1, UPPER_I, UPPER_N, UPPER_F) {
        Ok((DecimalView::NegInfinity, pos + 4))
    } else {
        match spec_float(s, pos) {
            Ok((text, end)) => Ok((DecimalView::Literal(text), end)),
            Err(e) => Err(e),
        }
    }
}

/// `d:`, the token of a decimal, `;`
pub open spec fn spec_value_decimal(s: Seq<u8>, pos: int) -> Parsed<ValueView> {
    match spec_lead(s, pos, LOWER_D) {
        Ok(token) => match spec_decimal(s, token) {
            Ok((d, semicolon)) => match spec_expect(s, semicolon, SEMICOLON) {
                Ok(end) => Ok((ValueView::Decimal(d), end)),
                Err(e) => Err(e),
            },
            Err(e) => Err(e),
        },
        Err(e) => Err(e),
    }
}

/// `s:`, a length-prefixed string, `;`
pub open spec fn spec_string(s: Seq<u8>, pos: int) -> Parsed<Seq<u8>> {
    match spec_lead(s, pos, LOWER_S) {
        Ok(size) => match spec_sized_string(s, size) {
            Ok((bytes, semicolon)) => match spec_expect(s, semicolon, SEMICOLON) {
                Ok(end) => Ok((bytes, end)),
                Err(e) => Err(e),
            },
            Err(e) => Err(e),
        },
        Err(e) => Err(e),
    }
}

/// A string value.
pub open spec fn spec_value_string(s: Seq<u8>, pos: int) -> Parsed<ValueView> {
    match spec_string(s, pos) {
        Ok((bytes, end)) => Ok((ValueView::String(bytes), end)),
        Err(e) => Err(e),
    }
}

/// `R:` or `r:`, as `letter` says, the index, `;`
pub open spec fn spec_reference(s: Seq<u8>, pos: int, letter: u8) -> Parsed<usize> {
    match spec_lead(s, pos, letter) {
        Ok(digits) => match spec_index(s, digits) {
            Ok((index, semicolon)) => match spec_expect(s, semicolon, SEMICOLON) {
                Ok(end) => Ok((index, end)),
                Err(e) => Err(e),
            },
            Err(e) => Err(e),
        },
        Err(e) => Err(e),
    }
}

/// A reference to a value: `R:<index>;`
pub open spec fn spec_value_reference_to_value(s: Seq<u8>, pos: int) -> Parsed<ValueView> {
    match spec_reference(s, pos, UPPER_R) {
        Ok((index, end)) => Ok((ValueView::ValueReference(index), end)),
        Err(e) => Err(e),
    }
}

/// A reference to an object: `r:<index>;`
pub open spec fn spec_value_reference_to_object(s: Seq<u8>, pos: int) -> Parsed<ValueView> {
    match spec_reference(s, pos, LOWER_R) {
        Ok((index, end)) => Ok((ValueView::ObjectReference(index), end)),
        Err(e) => Err(e),
    }
}

/// The key of an array entry: an integer value or a string value.
pub open spec fn spec_array_key(s: Seq<u8>, pos: int) -> Parsed<ArrayKeyView> {
    if byte_at(s, pos) == Some(LOWER_I) {
        match spec_integer_item(s, pos) {
            Ok((n, end)) => Ok((ArrayKeyView::Integer(n), end)),
            Err(e) => Err(e),
        }
    } else if byte_at(s, pos) == Some(LOWER_S) {
        match spec_string(s, pos) {
            Ok((bytes, end)) => Ok((ArrayKeyView::String(bytes), end)),
            Err(e) => Err(e),
        }
    } else {
        Err(unexpected(s, pos))
    }
}

/// Splits the name that a property travels under into its visibility and its
/// own name. NUL `*` NUL in front marks a protected property. NUL, one or
/// more bytes other than NUL, and NUL mark a private one; the bytes between,
/// a class name, are dropped. Any other name is public and kept whole.
pub open spec fn spec_visibility(mangled: Seq<u8>) -> (ObjectPropertyVisibility, Seq<u8>) {
    if has_three(mangled, 0, NUL, STAR, NUL) {
        (ObjectPropertyVisibility::Protected, mangled.skip(3))
    } else if byte_at(mangled, 0) == Some(NUL) && 1 < spec_find(mangled, 1, NUL) < mangled.len() {
        (ObjectPropertyVisibility::Private, mangled.skip(spec_find(mangled, 1, NUL) + 1))
    } else {
        (ObjectPropertyVisibility::Public, mangled)
    }
}

/// The name of a property: a string value, split into visibility and name.
pub open spec fn spec_object_property_name(s: Seq<u8>, pos: int) -> Parsed<
    (ObjectPropertyVisibility, Seq<u8>),
> {
    match spec_string(s, pos) {
        Ok((mangled, end)) => Ok((spec_visibility(mangled), end)),
        Err(e) => Err(e),
    }
}

/// The sized data block of a custom object: a size, `:{`, and that many
/// bytes, taken unread.
pub open spec fn spec_data_block(s: Seq<u8>, pos: int) -> Parsed<Seq<u8>> {
    match spec_size(s, pos) {
        Ok((n, colon)) => match spec_expect(s, colon, COLON) {
            Ok(brace) => match spec_expect(s, brace, OPEN_BRACE) {
                Ok(start) => if s.len() - start < n {
                    Err(ParseError::at(ParseErrorKind::LengthMismatch, start))
                } else {
                    Ok((s.subrange(start, start + n), start + n))
                },
                Err(e) => Err(e),
            },
            Err(e) => Err(e),
        },
        Err(e) => Err(e),
    }
}

/// `C:`, the class name, `:`, the data block, `}`
pub open spec fn spec_value_custom_object(s: Seq<u8>, pos: int) -> Parsed<ValueView> {
    match spec_lead(s, pos, UPPER_C) {
        Ok(name) => match labelled(spec_sized_string(s, name), ErrorLabel::ClassName) {
            Ok((class_name, colon)) => match spec_expect(s, colon, COLON) {
                Ok(block) => match labelled(spec_data_block(s, block), ErrorLabel::ObjectProperties) {
                    Ok((data, brace)) => match spec_close(s, brace, CLOSE_BRACE) {
                        Ok(end) => Ok((ValueView::CustomObject { class_name, data }, end)),
                        Err(e) => Err(e),
                    },
                    Err(e) => Err(e),
                },
                Err(e) => Err(e),
            },
            Err(e) => Err(e),
        },
        Err(e) => Err(e),
    }
}

/// What opens a counted block: the count, `:{`.
pub open spec fn spec_block_start(s: Seq<u8>, pos: int) -> Parsed<usize> {
    match spec_size(s, pos) {
        Ok((count, colon)) => match spec_expect(s, colon, COLON) {
            Ok(brace) => match spec_expect(s, brace, OPEN_BRACE) {
                Ok(end) => Ok((count, end)),
                Err(e) => Err(e),
            },
            Err(e) => Err(e),
        },
        Err(e) => Err(e),
    }
}

/// One value, of whatever kind its first byte announces.
pub open spec fn spec_any_value(s: Seq<u8>, pos: int, depth: nat) -> Parsed<ValueView>
    decreases depth, 0nat, 0nat, 1nat,
{
    match byte_at(s, pos) {
        Some(letter) => if letter == UPPER_N {
            spec_value_null(s, pos)
        } else if letter == LOWER_B {
            spec_value_boolean(s, pos)
        } else if letter == LOWER_I {
            spec_value_integer(s, pos)
        } else if letter == LOWER_D {
            spec_value_decimal(s, pos)
        } else if letter == LOWER_S {
            spec_value_string(s, pos)
        } else if letter == LOWER_A {
            spec_value_array(s, pos, depth)
        } else if letter == UPPER_O {
            spec_value_object(s, pos, depth)
        } else if letter == UPPER_C {
            spec_value_custom_object(s, pos)
        } else if letter == UPPER_R {
            spec_value_reference_to_value(s, pos)
        } else if letter == LOWER_R {
            spec_value_reference_to_object(s, pos)
        } else {
            Err(unexpected(s, pos))
        },
        None => Err(unexpected(s, pos)),
    }
}

/// One entry of an array: a key, then a value.
pub open spec fn spec_array_pair(s: Seq<u8>, pos: int, depth: nat) -> Parsed<ArrayEntryView>
    decreases depth, 0nat, 0nat, 2nat,
{
    match spec_array_key(s, pos) {
        Ok((key, next)) => match spec_any_value(s, next, depth) {
            Ok((value, end)) => Ok((ArrayEntryView { key, value }, end)),
            Err(e) => Err(e),
        },
        Err(e) => Err(e),
    }
}

/// Exactly `count` array entries, one behind the other.
pub open spec fn spec_array_pairs(s: Seq<u8>, pos: int, count: nat, depth: nat) -> Parsed<
    Seq<ArrayEntryView>,
>
    decreases depth, 0nat, count, 3nat,
{
    if count == 0 {
        Ok((Seq::empty(), pos))
    } else {
        match spec_array_pair(s, pos, depth) {
            Ok((entry, next)) => preceded_by(seq![entry], spec_array_pairs(s, next, (count - 1) as nat, depth)),
            Err(e) => Err(e),
        }
    }
}

/// `a:`, the count, `:{`, that many entries, `}`. With no depth left the
/// array is refused as soon as its lead token is read.
pub open spec fn spec_value_array(s: Seq<u8>, pos: int, depth: nat) -> Parsed<ValueView>
    decreases depth, 0nat, 0nat, 0nat,
{
    match spec_lead(s, pos, LOWER_A) {
        Ok(block) => if depth == 0 {
            Err(ParseError::at(ParseErrorKind::TooDeep, pos))
        } else {
            match spec_block_start(s, block) {
                Ok((count, first)) => match spec_array_pairs(s, first, count as nat, (depth - 1) as nat) {
                    Ok((entries, brace)) => match spec_close(s, brace, CLOSE_BRACE) {
                        Ok(end) => Ok((ValueView::Array(entries), end)),
                        Err(e) => Err(e),
                    },
                    Err(e) => Err(e),
                },
                Err(e) => Err(e),
            }
        },
        Err(e) => Err(e),
    }
}

/// One property of an object: its name, then its value.
pub open spec fn spec_object_property(s: Seq<u8>, pos: int, depth: nat) -> Parsed<ObjectPropertyView>
    decreases depth, 0nat, 0nat, 2nat,
{
    match spec_object_property_name(s, pos) {
        Ok(((visibility, name), next)) => match spec_any_value(s, next, depth) {
            Ok((value, end)) => Ok((ObjectPropertyView { visibility, name, value }, end)),
            Err(e) => Err(e),
        },
        Err(e) => Err(e),
    }
}

/// Exactly `count` properties, one behind the other. A failure inside one is
/// attributed to that property.
pub open spec fn spec_object_properties(s: Seq<u8>, pos: int, count: nat, depth: nat) -> Parsed<
    Seq<ObjectPropertyView>,
>
    decreases depth, 0nat, count, 3nat,
{
    if count == 0 {
        Ok((Seq::empty(), pos))
    } else {
        match labelled(spec_object_property(s, pos, depth), ErrorLabel::ObjectProperty) {
            Ok((property, next)) => preceded_by(
                seq![property],
                spec_object_properties(s, next, (count - 1) as nat, depth),
            ),
            Err(e) => Err(e),
        }
    }
}

/// The counted block of an object: the count, `:{`, that many properties.
pub open spec fn spec_properties_block(s: Seq<u8>, pos: int, depth: nat) -> Parsed<Seq<ObjectPropertyView>>
    decreases depth, 1nat, 0nat, 0nat,
{
    match spec_block_start(s, pos) {
        Ok((count, first)) => spec_object_properties(s, first, count as nat, depth),
        Err(e) => Err(e),
    }
}

/// `O:`, the class name, `:`, the count, `:{`, that many properties, `}`.
/// With no depth left the object is refused as soon as its lead token is
/// read.
pub open spec fn spec_value_object(s: Seq<u8>, pos: int, depth: nat) -> Parsed<ValueView>
    decreases depth, 0nat, 0nat, 0nat,
{
    match spec_lead(s, pos, UPPER_O) {
        Ok(name) => if depth == 0 {
            Err(ParseError::at(ParseErrorKind::TooDeep, pos))
        } else {
            match labelled(spec_sized_string(s, name), ErrorLabel::ClassName) {
                Ok((class_name, colon)) => match spec_expect(s, colon, COLON) {
                    Ok(block) => match labelled(
                        spec_properties_block(s, block, (depth - 1) as nat),
                        ErrorLabel::ObjectProperties,
                    ) {
                        Ok((properties, brace)) => match spec_close(s, brace, CLOSE_BRACE) {
                            Ok(end) => Ok((ValueView::Object { class_name, properties }, end)),
                            Err(e) => Err(e),
                        },
                        Err(e) => Err(e),
                    },
                    Err(e) => Err(e),
                },
                Err(e) => Err(e),
            }
        },
        Err(e) => Err(e),
    }
}

/// A value that is neither an array nor an object, a key, a property name or
/// the start of a block, once read, starts inside the input and ends behind
/// its start, not behind the input.
pub(crate) proof fn lemma_items_advance(s: Seq<u8>, pos: int)
    ensures
        spec_value_null(s, pos) matches Ok((_, end)) ==> 0 <= pos < end <= s.len(),
        spec_value_boolean(s, pos) matches Ok((_, end)) ==> 0 <= pos < end <= s.len(),
        spec_integer_item(s, pos) matches Ok((_, end)) ==> 0 <= pos < end <= s.len(),
        spec_value_decimal(s, pos) matches Ok((_, end)) ==> 0 <= pos < end <= s.len(),
        spec_string(s, pos) matches Ok((_, end)) ==> 0 <= pos < end <= s.len(),
        spec_reference(s, pos, UPPER_R) matches Ok((_, end)) ==> 0 <= pos < end <= s.len(),
        spec_reference(s, pos, LOWER_R) matches Ok((_, end)) ==> 0 <= pos < end <= s.len(),
        spec_value_custom_object(s, pos) matches Ok((_, end)) ==> 0 <= pos < end <= s.len(),
        spec_array_key(s, pos) matches Ok((_, end)) ==> 0 <= pos < end <= s.len(),
        spec_object_property_name(s, pos) matches Ok((_, end)) ==> 0 <= pos < end <= s.len(),
        spec_block_start(s, pos) matches Ok((_, end)) ==> 0 <= pos < end <= s.len(),
{
    lemma_tokens_advance(s, pos);
    lemma_tokens_advance(s, pos + 2);
    if let Ok((_, colon)) = spec_sized_string(s, pos + 2) {
        lemma_tokens_advance(s, colon + 1);
    }
}

/// A value that was read starts inside the input and ends behind its start,
/// not behind the input.
pub proof fn lemma_any_value_advances(s: Seq<u8>, pos: int, depth: nat)
    ensures
        spec_any_value(s, pos, depth) matches Ok((_, end)) ==> 0 <= pos < end <= s.len(),
    decreases depth, 0nat, 1nat,
{
    if byte_at(s, pos) == Some(LOWER_A) {
        lemma_value_array_advances(s, pos, depth);
    } else if byte_at(s, pos) == Some(UPPER_O) {
        lemma_value_object_advances(s, pos, depth);
    } else {
        lemma_items_advance(s, pos);
    }
}

/// An array that was read starts inside the input and ends behind its start,
/// not behind the input.
proof fn lemma_value_array_advances(s: Seq<u8>, pos: int, depth: nat)
    ensures
        spec_value_array(s, pos, depth) matches Ok((_, end)) ==> 0 <= pos < end <= s.len(),
    decreases depth, 0nat, 0nat,
{
    if depth > 0 {
        if let Ok((count, first)) = spec_block_start(s, pos + 2) {
            lemma_items_advance(s, pos + 2);
            lemma_array_pairs_advance(s, first, count as nat, (depth - 1) as nat);
        }
    }
}

/// An object that was read starts inside the input and ends behind its
/// start, not behind the input.
proof fn lemma_value_object_advances(s: Seq<u8>, pos: int, depth: nat)
    ensures
        spec_value_object(s, pos, depth) matches Ok((_, end)) ==> 0 <= pos < end <= s.len(),
    decreases depth, 0nat, 0nat,
{
    if depth > 0 {
        if let Ok((_, colon)) = spec_sized_string(s, pos + 2) {
            lemma_tokens_advance(s, pos + 2);
            if let Ok((count, first)) = spec_block_start(s, colon + 1) {
                lemma_items_advance(s, colon + 1);
                lemma_object_properties_advance(s, first, count as nat, (depth - 1) as nat);
            }
        }
    }
}

/// Array entries that were read end at or behind their start, not behind the
/// input.
proof fn lemma_array_pairs_advance(s: Seq<u8>, pos: int, count: nat, depth: nat)
    requires
        0 <= pos <= s.len(),
    ensures
        spec_array_pairs(s, pos, count, depth) matches Ok((_, end)) ==> pos <= end <= s.len(),
    decreases depth, count, 3nat,
{
    if count > 0 {
        if let Ok((entry, next)) = spec_array_pair(s, pos, depth) {
            lemma_items_advance(s, pos);
            if let Ok((_, value)) = spec_array_key(s, pos) {
                lemma_any_value_advances(s, value, depth);
            }
            lemma_array_pairs_advance(s, next, (count - 1) as nat, depth);
        }
    }
}

/// Properties that were read end at or behind their start, not behind the
/// input.
proof fn lemma_object_properties_advance(s: Seq<u8>, pos: int, count: nat, depth: nat)
    requires
        0 <= pos <= s.len(),
    ensures
        spec_object_properties(s, pos, count, depth) matches Ok((_, end)) ==> pos <= end <= s.len(),
    decreases depth, count, 3nat,
{
    if count > 0 {
        if let Ok((property, next)) = spec_object_property(s, pos, depth) {
            lemma_items_advance(s, pos);
            if let Ok((_, value)) = spec_object_property_name(s, pos) {
                lemma_any_value_advances(s, value, depth);
            }
            lemma_object_properties_advance(s, next, (count - 1) as nat, depth);
        }
    }
}

/// The key of a session entry: the bytes up to the next `|`, which must be
/// there. The `|` itself is left unread.
pub open spec fn spec_session_key(s: Seq<u8>, pos: int) -> Parsed<Seq<u8>> {
    let bar = spec_find(s, pos, PIPE);
    if 0 <= pos && bar < s.len() {
        Ok((s.subrange(pos, bar), bar))
    } else {
        Err(ParseError::at(ParseErrorKind::Incomplete, bar))
    }
}

/// One session entry: a key, `|`, a value.
pub open spec fn spec_session_entry(s: Seq<u8>, pos: int, depth: nat) -> Parsed<SessionEntryView> {
    match spec_session_key(s, pos) {
        Ok((key, bar)) => match spec_any_value(s, bar + 1, depth) {
            Ok((value, end)) => Ok((SessionEntryView { key, value }, end)),
            Err(e) => Err(e),
        },
        Err(e) => Err(e),
    }
}

/// A session entry that was read starts inside the input and ends behind its
/// start, not behind the input.
pub proof fn lemma_session_entry_advances(s: Seq<u8>, pos: int, depth: nat)
    ensures
        spec_session_entry(s, pos, depth) matches Ok((_, end)) ==> 0 <= pos < end <= s.len(),
{
    lemma_find(s, pos, PIPE);
    lemma_any_value_advances(s, spec_find(s, pos, PIPE) + 1, depth);
}

/// `spec_find` returns an offset at or behind `from`; no byte between the two
/// is `b`, and the byte there, if any, is `b`.
pub(crate) proof fn lemma_find(s: Seq<u8>, from: int, b: u8)
    ensures
        from <= spec_find(s, from, b),
        0 <= from <= s.len() ==> spec_find(s, from, b) <= s.len(),
        forall|i: int| from <= i < spec_find(s, from, b) && 0 <= i < s.len() ==> s[i] != b,
        byte_at(s, spec_find(s, from, b)) matches Some(found) ==> found == b || from < 0,
    decreases s.len() - from,
{
    if 0 <= from < s.len() && s[from] != b {
        lemma_find(s, from + 1, b);
    }
}

/// `spec_find` stops at the first occurrence of the byte.
pub(crate) proof fn lemma_find_at(s: Seq<u8>, from: int, b: u8, at: int)
    requires
        0 <= from <= at < s.len(),
        s[at] == b,
        forall|i: int| from <= i < at ==> s[i] != b,
    ensures
        spec_find(s, from, b) == at,
    decreases at - from,
{
    if from < at {
        lemma_find_at(s, from + 1, b, at);
    }
}

/// Session entries from `pos` to the end of the input: none if the input
/// ends at `pos`, else one entry and those behind it.
pub open spec fn spec_session_entries(s: Seq<u8>, pos: int, depth: nat) -> Parsed<Seq<SessionEntryView>>
    decreases s.len() - pos,
{
    if pos >= s.len() {
        Ok((Seq::empty(), pos))
    } else {
        match spec_session_entry(s, pos, depth) {
            Ok((entry, next)) => {
                proof {
                    lemma_session_entry_advances(s, pos, depth);
                }
                preceded_by(seq![entry], spec_session_entries(s, next, depth))
            },
            Err(e) => Err(e),
        }
    }
}

/// The whole input as one value: the value must end where the input ends.
pub open spec fn spec_unserialize(s: Seq<u8>, depth: nat) -> Result<ValueView, ParseError> {
    match spec_any_value(s, 0, depth) {
        Ok((value, end)) => if end == s.len() {
            Ok(value)
        } else {
            Err(ParseError::at(ParseErrorKind::TrailingData, end))
        },
        Err(e) => Err(e),
    }
}

/// The whole input as a session: zero or more entries, one behind the other,
/// up to the end of the input.
pub open spec fn spec_session_decode(s: Seq<u8>, depth: nat) -> Result<Seq<SessionEntryView>, ParseError> {
    match spec_session_entries(s, 0, depth) {
        Ok((entries, _)) => Ok(entries),
        Err(e) => Err(e),
    }
}

} // verus!
