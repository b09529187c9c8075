//! The decoders: one value, or a session of named values.
//!
//! Every reader takes the whole input and the offset at which its item must
//! start, and returns the item with the offset just behind it. What it
//! returns, for every input and offset, is what the function of the same
//! name in `grammar` prescribes.

use vstd::prelude::*;
use vstd::slice::slice_subrange;

use crate::ascii::{
    CLOSE_BRACE, COLON, LOWER_A, LOWER_B, LOWER_D, LOWER_I, LOWER_R, LOWER_S, MINUS, NUL, ONE, OPEN_BRACE, PIPE,
    SEMICOLON, STAR, UPPER_A, UPPER_C, UPPER_F, UPPER_I, UPPER_N, UPPER_O, UPPER_R, ZERO,
};
use crate::de::grammar::{
    has_three, lemma_find, preceded_by, spec_any_value, spec_array_key, spec_array_pair, spec_array_pairs,
    spec_block_start, spec_data_block, spec_decimal, spec_find, spec_index, spec_integer,
    spec_integer_item, spec_lead, spec_object_properties, spec_object_property,
    spec_object_property_name, spec_properties_block, spec_reference, spec_string, spec_value_array,
    spec_value_boolean, spec_value_custom_object, spec_value_decimal, spec_value_integer, spec_value_null,
    spec_session_decode, spec_session_entries, spec_session_entry, spec_session_key, spec_unserialize,
    spec_value_object, spec_value_reference_to_object, spec_value_reference_to_value, spec_value_string,
    spec_visibility,
};
use crate::de::raw::{
    close, digits_end, digits_to_u64, expect, float, lemma_digits_end, lemma_float_is_literal, sized_string,
    size, unexpected_at, yields, Parsed,
};
use crate::error::{ErrorLabel, ParseError, ParseErrorKind};
use crate::value::{
    array_entries_view, properties_view, session_view, ArrayEntry, ArrayEntryView, ArrayKey, Decimal,
    ObjectProperty, ObjectPropertyView, ObjectPropertyVisibility, SessionEntry, SessionEntryView, Value,
    ValueView,
};

pub mod grammar;
pub mod raw;

verus! {

/// How deep arrays and objects may nest when no other limit is given.
pub const DEFAULT_MAX_DEPTH: usize = 128;

/// Whether the executable result `r`, a list of array entries, is what the
/// grammar prescribes.
pub open spec fn yields_entries(
    r: Result<(Vec<ArrayEntry>, usize), ParseError>,
    expected: Parsed<Seq<ArrayEntryView>>,
) -> bool {
    match r {
        Ok((entries, end)) => expected == Ok::<(Seq<ArrayEntryView>, int), ParseError>(
            (array_entries_view(entries@), end as int),
        ),
        Err(e) => expected == Err::<(Seq<ArrayEntryView>, int), ParseError>(e),
    }
}

/// Whether the executable result `r`, a list of properties, is what the
/// grammar prescribes.
pub open spec fn yields_properties(
    r: Result<(Vec<ObjectProperty>, usize), ParseError>,
    expected: Parsed<Seq<ObjectPropertyView>>,
) -> bool {
    match r {
        Ok((properties, end)) => expected == Ok::<(Seq<ObjectPropertyView>, int), ParseError>(
            (properties_view(properties@), end as int),
        ),
        Err(e) => expected == Err::<(Seq<ObjectPropertyView>, int), ParseError>(e),
    }
}

/// Putting an item in front of what follows, and items in front of that, is
/// putting the items and the item in front of what follows.
proof fn lemma_preceded_by_push<T>(front: Seq<T>, item: T, rest: Parsed<Seq<T>>)
    ensures
        preceded_by(front, preceded_by(seq![item], rest)) == preceded_by(front.push(item), rest),
{
    if let Ok((items, end)) = rest {
        assert(front + (seq![item] + items) =~= front.push(item) + items);
    }
}

/// The offset of the first byte `b` at or after `from`.
pub fn find(input: &[u8], from: usize, b: u8) -> (at: usize)
    ensures
        at == spec_find(input@, from as int, b),
        from <= at,
        at <= input@.len() || at == from,
{
    let mut at = from;
    while at < input.len() && input[at] != b
        invariant
            from <= at,
            at <= input@.len() || at == from,
            spec_find(input@, from as int, b) == spec_find(input@, at as int, b),
        decreases input@.len() - at,
    {
        at += 1;
    }
    at
}

/// Reads a lead token: `letter` and a colon.
pub fn lead(input: &[u8], start: usize, letter: u8) -> (r: Result<usize, ParseError>)
    ensures
        r == match spec_lead(input@, start as int, letter) {
            Ok(end) => Ok::<usize, ParseError>(end as usize),
            Err(e) => Err::<usize, ParseError>(e),
        },
        r matches Ok(end) ==> end == start + 2 && end <= input@.len(),
{
    match expect(input, start, letter) {
        Ok(colon) => expect(input, colon, COLON),
        Err(e) => Err(e),
    }
}

/// Reads a signed integer of 64 bits.
pub fn integer(input: &[u8], start: usize) -> (r: Result<(i64, usize), ParseError>)
    ensures
        yields(r, spec_integer(input@, start as int)),
        r matches Ok((_, end)) ==> start < end <= input@.len(),
{
    let negative = start < input.len() && input[start] == MINUS;
    let first = if negative { start + 1 } else { start };
    let end = digits_end(input, first);
    if end == first {
        return Err(unexpected_at(input, first));
    }
    proof {
        lemma_digits_end(input@, first as int);
        let token = input@.subrange(start as int, end as int);
        if negative {
            assert(token.skip(1) =~= input@.subrange(first as int, end as int));
        } else {
            assert(token[0] == input@[start as int]);
        }
    }
    match digits_to_u64(input, first, end) {
        Some(magnitude) => {
            if negative {
                if magnitude > 0x8000_0000_0000_0000u64 {
                    Err(ParseError::new(ParseErrorKind::OutOfRange, start))
                } else if magnitude == 0x8000_0000_0000_0000u64 {
                    Ok((i64::MIN, end))
                } else {
                    Ok((-(magnitude as i64), end))
                }
            } else {
                if magnitude > 0x7fff_ffff_ffff_ffffu64 {
                    Err(ParseError::new(ParseErrorKind::OutOfRange, start))
                } else {
                    Ok((magnitude as i64, end))
                }
            }
        },
        None => Err(ParseError::new(ParseErrorKind::OutOfRange, start)),
    }
}

/// Reads the index of a reference.
pub fn index(input: &[u8], start: usize) -> (r: Result<(usize, usize), ParseError>)
    ensures
        yields(r, spec_index(input@, start as int)),
        r matches Ok((_, end)) ==> start < end <= input@.len(),
{
    let end = digits_end(input, start);
    if end == start {
        return Err(unexpected_at(input, start));
    }
    proof {
        lemma_digits_end(input@, start as int);
    }
    match digits_to_u64(input, start, end) {
        Some(value) => {
            if 1 <= value && value <= usize::MAX as u64 {
                Ok((value as usize, end))
            } else {
                Err(ParseError::new(ParseErrorKind::OutOfRange, start))
            }
        },
        None => Err(ParseError::new(ParseErrorKind::OutOfRange, start)),
    }
}

/// `N;`
pub fn value_null<'s>(input: &'s [u8], start: usize) -> (r: Result<(Value<'s>, usize), ParseError>)
    ensures
        yields(r, spec_value_null(input@, start as int)),
        r matches Ok((_, end)) ==> start < end <= input@.len(),
{
    let semicolon = match expect(input, start, UPPER_N) {
        Ok(end) => end,
        Err(e) => return Err(e),
    };
    match expect(input, semicolon, SEMICOLON) {
        Ok(end) => Ok((Value::Null, end)),
        Err(e) => Err(e),
    }
}

/// `b:0;` or `b:1;`
pub fn value_boolean<'s>(input: &'s [u8], start: usize) -> (r: Result<(Value<'s>, usize), ParseError>)
    ensures
        yields(r, spec_value_boolean(input@, start as int)),
        r matches Ok((_, end)) ==> start < end <= input@.len(),
{
    let digit = match lead(input, start, LOWER_B) {
        Ok(end) => end,
        Err(e) => return Err(e),
    };
    if digit < input.len() && (input[digit] == ZERO || input[digit] == ONE) {
        let truth = input[digit] == ONE;
        match expect(input, digit + 1, SEMICOLON) {
            Ok(end) => Ok((Value::Boolean(truth), end)),
            Err(e) => Err(e),
        }
    } else {
        Err(unexpected_at(input, digit))
    }
}

/// `i:`, a signed integer, `;`: the number.
pub fn integer_item(input: &[u8], start: usize) -> (r: Result<(i64, usize), ParseError>)
    ensures
        yields(r, spec_integer_item(input@, start as int)),
        r matches Ok((_, end)) ==> start < end <= input@.len(),
{
    let number = match lead(input, start, LOWER_I) {
        Ok(end) => end,
        Err(e) => return Err(e),
    };
    let (n, semicolon) = match integer(input, number) {
        Ok(found) => found,
        Err(e) => return Err(e),
    };
    match expect(input, semicolon, SEMICOLON) {
        Ok(end) => Ok((n, end)),
        Err(e) => Err(e),
    }
}

/// An integer value.
pub fn value_integer<'s>(input: &'s [u8], start: usize) -> (r: Result<(Value<'s>, usize), ParseError>)
    ensures
        yields(r, spec_value_integer(input@, start as int)),
        r matches Ok((_, end)) ==> start < end <= input@.len(),
{
    match integer_item(input, start) {
        Ok((n, end)) => Ok((Value::Integer(n), end)),
        Err(e) => Err(e),
    }
}

/// Whether the three bytes `a`, `b`, `c` stand at `pos`.
pub fn has_three_at(input: &[u8], pos: usize, a: u8, b: u8, c: u8) -> (r: bool)
    ensures
        r == has_three(input@, pos as int, a, b, c),
        r ==> pos + 3 <= input@.len() <= usize::MAX,
{
    pos < input.len() && input.len() - pos >= 3 && input[pos] == a && input[pos + 1] == b && input[pos + 2]
        == c
}

/// The token of a decimal: `NAN`, `INF`, `-INF`, or a float literal.
pub fn decimal<'s>(input: &'s [u8], start: usize) -> (r: Result<(Decimal<'s>, usize), ParseError>)
    ensures
        yields(r, spec_decimal(input@, start as int)),
        r matches Ok((d, end)) ==> start < end <= input@.len() && d@.well_formed(),
{
    if has_three_at(input, start, UPPER_N, UPPER_A, UPPER_N) {
        Ok((Decimal::Nan, start + 3))
    } else if has_three_at(input, start, UPPER_I, UPPER_N, UPPER_F) {
        Ok((Decimal::Infinity, start + 3))
    } else if start < input.len() && input[start] == MINUS && has_three_at(
        input,
        start + 1,
        UPPER_I,
        UPPER_N,
        UPPER_F,
    ) {
        Ok((Decimal::NegInfinity, start + 4))
    } else {
        match float(input, start) {
            Ok((text, end)) => {
                proof {
                    lemma_float_is_literal(input@, start as int);
                }
                Ok((Decimal::Literal(text), end))
            },
            Err(e) => Err(e),
        }
    }
}

/// `d:`, the token of a decimal, `;`
pub fn value_decimal<'s>(input: &'s [u8], start: usize) -> (r: Result<(Value<'s>, usize), ParseError>)
    ensures
        yields(r, spec_value_decimal(input@, start as int)),
        r matches Ok((v, end)) ==> start < end <= input@.len() && v@.well_formed(),
{
    let token = match lead(input, start, LOWER_D) {
        Ok(end) => end,
        Err(e) => return Err(e),
    };
    let (d, semicolon) = match decimal(input, token) {
        Ok(found) => found,
        Err(e) => return Err(e),
    };
    match expect(input, semicolon, SEMICOLON) {
        Ok(end) => Ok((Value::Decimal(d), end)),
        Err(e) => Err(e),
    }
}

/// `s:`, a length-prefixed string, `;`: the payload.
pub fn string<'s>(input: &'s [u8], start: usize) -> (r: Result<(&'s [u8], usize), ParseError>)
    ensures
        yields(r, spec_string(input@, start as int)),
        r matches Ok((_, end)) ==> start < end <= input@.len(),
{
    let size = match lead(input, start, LOWER_S) {
        Ok(end) => end,
        Err(e) => return Err(e),
    };
    let (bytes, semicolon) = match sized_string(input, size) {
        Ok(found) => found,
        Err(e) => return Err(e),
    };
    match expect(input, semicolon, SEMICOLON) {
        Ok(end) => Ok((bytes, end)),
        Err(e) => Err(e),
    }
}

/// A string value.
pub fn value_string<'s>(input: &'s [u8], start: usize) -> (r: Result<(Value<'s>, usize), ParseError>)
    ensures
        yields(r, spec_value_string(input@, start as int)),
        r matches Ok((_, end)) ==> start < end <= input@.len(),
{
    match string(input, start) {
        Ok((bytes, end)) => Ok((Value::String(bytes), end)),
        Err(e) => Err(e),
    }
}

/// `R:` or `r:`, as `letter` says, the index, `;`
pub fn reference(input: &[u8], start: usize, letter: u8) -> (r: Result<(usize, usize), ParseError>)
    ensures
        yields(r, spec_reference(input@, start as int, letter)),
        r matches Ok((index, end)) ==> start < end <= input@.len() && index >= 1,
{
    let digits = match lead(input, start, letter) {
        Ok(end) => end,
        Err(e) => return Err(e),
    };
    let (index, semicolon) = match index(input, digits) {
        Ok(found) => found,
        Err(e) => return Err(e),
    };
    match expect(input, semicolon, SEMICOLON) {
        Ok(end) => Ok((index, end)),
        Err(e) => Err(e),
    }
}

/// A reference to a value: `R:<index>;`
pub fn value_reference_to_value<'s>(input: &'s [u8], start: usize) -> (r: Result<
    (Value<'s>, usize),
    ParseError,
>)
    ensures
        yields(r, spec_value_reference_to_value(input@, start as int)),
        r matches Ok((v, end)) ==> start < end <= input@.len() && v@.well_formed(),
{
    match reference(input, start, UPPER_R) {
        Ok((index, end)) => Ok((Value::ValueReference(index), end)),
        Err(e) => Err(e),
    }
}

/// A reference to an object: `r:<index>;`
pub fn value_reference_to_object<'s>(input: &'s [u8], start: usize) -> (r: Result<
    (Value<'s>, usize),
    ParseError,
>)
    ensures
        yields(r, spec_value_reference_to_object(input@, start as int)),
        r matches Ok((v, end)) ==> start < end <= input@.len() && v@.well_formed(),
{
    match reference(input, start, LOWER_R) {
        Ok((index, end)) => Ok((Value::ObjectReference(index), end)),
        Err(e) => Err(e),
    }
}

/// The key of an array entry: an integer value or a string value.
pub fn array_key<'s>(input: &'s [u8], start: usize) -> (r: Result<(ArrayKey<'s>, usize), ParseError>)
    ensures
        yields(r, spec_array_key(input@, start as int)),
        r matches Ok((_, end)) ==> start < end <= input@.len(),
{
    if start < input.len() && input[start] == LOWER_I {
        match integer_item(input, start) {
            Ok((n, end)) => Ok((ArrayKey::Integer(n), end)),
            Err(e) => Err(e),
        }
    } else if start < input.len() && input[start] == LOWER_S {
        match string(input, start) {
            Ok((bytes, end)) => Ok((ArrayKey::String(bytes), end)),
            Err(e) => Err(e),
        }
    } else {
        Err(unexpected_at(input, start))
    }
}

/// Splits the name that a property travels under into its visibility and its
/// own name.
pub fn visibility<'s>(mangled: &'s [u8]) -> (r: (ObjectPropertyVisibility, &'s [u8]))
    ensures
        (r.0, r.1@) == spec_visibility(mangled@),
{
    if has_three_at(mangled, 0, NUL, STAR, NUL) {
        (ObjectPropertyVisibility::Protected, slice_subrange(mangled, 3, mangled.len()))
    } else if mangled.len() > 0 && mangled[0] == NUL {
        let second = find(mangled, 1, NUL);
        if 1 < second && second < mangled.len() {
            (ObjectPropertyVisibility::Private, slice_subrange(mangled, second + 1, mangled.len()))
        } else {
            (ObjectPropertyVisibility::Public, mangled)
        }
    } else {
        (ObjectPropertyVisibility::Public, mangled)
    }
}

/// The name of a property: a string value, split into visibility and name.
pub fn object_property_name<'s>(input: &'s [u8], start: usize) -> (r: Result<
    ((ObjectPropertyVisibility, &'s [u8]), usize),
    ParseError,
>)
    ensures
        yields(r, spec_object_property_name(input@, start as int)),
        r matches Ok((_, end)) ==> start < end <= input@.len(),
{
    match string(input, start) {
        Ok((mangled, end)) => Ok((visibility(mangled), end)),
        Err(e) => Err(e),
    }
}

/// What opens a counted block: the count, `:{`.
pub fn block_start(input: &[u8], start: usize) -> (r: Result<(usize, usize), ParseError>)
    ensures
        yields(r, spec_block_start(input@, start as int)),
        r matches Ok((_, end)) ==> start < end <= input@.len(),
{
    let (count, colon) = match size(input, start) {
        Ok(found) => found,
        Err(e) => return Err(e),
    };
    let brace = match expect(input, colon, COLON) {
        Ok(end) => end,
        Err(e) => return Err(e),
    };
    match expect(input, brace, OPEN_BRACE) {
        Ok(end) => Ok((count, end)),
        Err(e) => Err(e),
    }
}

/// The sized data block of a custom object, taken unread.
pub fn data_block<'s>(input: &'s [u8], start: usize) -> (r: Result<(&'s [u8], usize), ParseError>)
    ensures
        yields(r, spec_data_block(input@, start as int)),
        r matches Ok((_, end)) ==> start < end <= input@.len(),
{
    let (n, data) = match block_start(input, start) {
        Ok(found) => found,
        Err(e) => return Err(e),
    };
    if input.len() - data < n {
        Err(ParseError::new(ParseErrorKind::LengthMismatch, data))
    } else {
        Ok((slice_subrange(input, data, data + n), data + n))
    }
}

/// `C:`, the class name, `:`, the data block, `}`
pub fn value_custom_object<'s>(input: &'s [u8], start: usize) -> (r: Result<(Value<'s>, usize), ParseError>)
    ensures
        yields(r, spec_value_custom_object(input@, start as int)),
        r matches Ok((v, end)) ==> start < end <= input@.len() && v@.well_formed(),
{
    let name = match lead(input, start, UPPER_C) {
        Ok(end) => end,
        Err(e) => return Err(e),
    };
    let (class_name, colon) = match sized_string(input, name) {
        Ok(found) => found,
        Err(e) => return Err(e.within(ErrorLabel::ClassName)),
    };
    let block = match expect(input, colon, COLON) {
        Ok(end) => end,
        Err(e) => return Err(e),
    };
    let (data, brace) = match data_block(input, block) {
        Ok(found) => found,
        Err(e) => return Err(e.within(ErrorLabel::ObjectProperties)),
    };
    match close(input, brace, CLOSE_BRACE) {
        Ok(end) => Ok((Value::CustomObject { class_name, data }, end)),
        Err(e) => Err(e),
    }
}

/// One value, of whatever kind its first byte announces. Arrays and objects
/// may nest `depth` deep.
pub fn any_value<'s>(input: &'s [u8], start: usize, depth: usize) -> (r: Result<
    (Value<'s>, usize),
    ParseError,
>)
    ensures
        yields(r, spec_any_value(input@, start as int, depth as nat)),
        r matches Ok((v, end)) ==> start < end <= input@.len() && v@.well_formed() && v@.nests_within(
            depth as nat,
        ),
    decreases depth, 0nat, 0nat, 1nat,
{
    if start >= input.len() {
        return Err(unexpected_at(input, start));
    }
    let letter = input[start];
    if letter == UPPER_N {
        value_null(input, start)
    } else if letter == LOWER_B {
        value_boolean(input, start)
    } else if letter == LOWER_I {
        value_integer(input, start)
    } else if letter == LOWER_D {
        value_decimal(input, start)
    } else if letter == LOWER_S {
        value_string(input, start)
    } else if letter == LOWER_A {
        value_array(input, start, depth)
    } else if letter == UPPER_O {
        value_object(input, start, depth)
    } else if letter == UPPER_C {
        value_custom_object(input, start)
    } else if letter == UPPER_R {
        value_reference_to_value(input, start)
    } else if letter == LOWER_R {
        value_reference_to_object(input, start)
    } else {
        Err(unexpected_at(input, start))
    }
}

/// One entry of an array: a key, then a value.
pub fn array_pair<'s>(input: &'s [u8], start: usize, depth: usize) -> (r: Result<
    (ArrayEntry<'s>, usize),
    ParseError,
>)
    ensures
        yields(r, spec_array_pair(input@, start as int, depth as nat)),
        r matches Ok((entry, end)) ==> start < end <= input@.len() && entry@.value.well_formed()
            && entry@.value.nests_within(depth as nat),
    decreases depth, 0nat, 0nat, 2nat,
{
    let (key, next) = match array_key(input, start) {
        Ok(found) => found,
        Err(e) => return Err(e),
    };
    match any_value(input, next, depth) {
        Ok((value, end)) => Ok((ArrayEntry { key, value }, end)),
        Err(e) => Err(e),
    }
}

/// Exactly `count` array entries, one behind the other.
pub fn array_pairs<'s>(input: &'s [u8], start: usize, count: usize, depth: usize) -> (r: Result<
    (Vec<ArrayEntry<'s>>, usize),
    ParseError,
>)
    ensures
        yields_entries(r, spec_array_pairs(input@, start as int, count as nat, depth as nat)),
        r matches Ok((entries, end)) ==> {
            &&& start <= end
            &&& end <= input@.len() || end == start
            &&& forall|i: int|
                0 <= i < entries@.len() ==> (#[trigger] array_entries_view(entries@)[i]).value.well_formed()
                    && array_entries_view(entries@)[i].value.nests_within(depth as nat)
        },
    decreases depth, 0nat, count, 3nat,
{
    let mut entries: Vec<ArrayEntry<'s>> = Vec::new();
    let mut pos = start;
    let mut i: usize = 0;
    proof {
        assert(array_entries_view(entries@) =~= Seq::<ArrayEntryView>::empty());
        lemma_preceded_by_empty(spec_array_pairs(input@, start as int, count as nat, depth as nat));
    }
    while i < count
        invariant
            i <= count,
            start <= pos,
            pos <= input@.len() || pos == start,
            spec_array_pairs(input@, start as int, count as nat, depth as nat) == preceded_by(
                array_entries_view(entries@),
                spec_array_pairs(input@, pos as int, (count - i) as nat, depth as nat),
            ),
            forall|j: int|
                0 <= j < entries@.len() ==> (#[trigger] array_entries_view(entries@)[j]).value.well_formed()
                    && array_entries_view(entries@)[j].value.nests_within(depth as nat),
        decreases count - i,
    {
        match array_pair(input, pos, depth) {
            Ok((entry, next)) => {
                proof {
                    lemma_preceded_by_push(
                        array_entries_view(entries@),
                        entry@,
                        spec_array_pairs(input@, next as int, (count - i - 1) as nat, depth as nat),
                    );
                    assert(array_entries_view(entries@.push(entry)) =~= array_entries_view(entries@).push(
                        entry@,
                    ));
                }
                entries.push(entry);
                pos = next;
                i += 1;
            },
            Err(e) => {
                return Err(e);
            },
        }
    }
    proof {
        assert(array_entries_view(entries@) + Seq::<ArrayEntryView>::empty() =~= array_entries_view(
            entries@,
        ));
    }
    Ok((entries, pos))
}

/// `a:`, the count, `:{`, that many entries, `}`
#[verifier::rlimit(40)]
pub fn value_array<'s>(input: &'s [u8], start: usize, depth: usize) -> (r: Result<
    (Value<'s>, usize),
    ParseError,
>)
    ensures
        yields(r, spec_value_array(input@, start as int, depth as nat)),
        r matches Ok((v, end)) ==> start < end <= input@.len() && v@.well_formed() && v@.nests_within(
            depth as nat,
        ),
    decreases depth, 0nat, 0nat, 0nat,
{
    let block = match lead(input, start, LOWER_A) {
        Ok(end) => end,
        Err(e) => return Err(e),
    };
    if depth == 0 {
        return Err(ParseError::new(ParseErrorKind::TooDeep, start));
    }
    let (count, first) = match block_start(input, block) {
        Ok(found) => found,
        Err(e) => return Err(e),
    };
    let (entries, brace) = match array_pairs(input, first, count, depth - 1) {
        Ok(found) => found,
        Err(e) => return Err(e),
    };
    match close(input, brace, CLOSE_BRACE) {
        Ok(end) => Ok((Value::Array(entries), end)),
        Err(e) => Err(e),
    }
}

/// One property of an object: its name, then its value.
pub fn object_property<'s>(input: &'s [u8], start: usize, depth: usize) -> (r: Result<
    (ObjectProperty<'s>, usize),
    ParseError,
>)
    ensures
        yields(r, spec_object_property(input@, start as int, depth as nat)),
        r matches Ok((property, end)) ==> start < end <= input@.len() && property@.value.well_formed()
            && property@.value.nests_within(depth as nat),
    decreases depth, 0nat, 0nat, 2nat,
{
    let ((visibility, name), next) = match object_property_name(input, start) {
        Ok(found) => found,
        Err(e) => return Err(e),
    };
    match any_value(input, next, depth) {
        Ok((value, end)) => Ok((ObjectProperty { visibility, name, value }, end)),
        Err(e) => Err(e),
    }
}

/// Exactly `count` properties, one behind the other.
pub fn object_properties<'s>(input: &'s [u8], start: usize, count: usize, depth: usize) -> (r: Result<
    (Vec<ObjectProperty<'s>>, usize),
    ParseError,
>)
    ensures
        yields_properties(r, spec_object_properties(input@, start as int, count as nat, depth as nat)),
        r matches Ok((properties, end)) ==> {
            &&& start <= end
            &&& end <= input@.len() || end == start
            &&& forall|i: int|
                0 <= i < properties@.len() ==> (#[trigger] properties_view(
                    properties@,
                )[i]).value.well_formed() && properties_view(properties@)[i].value.nests_within(
                    depth as nat,
                )
        },
    decreases depth, 0nat, count, 3nat,
{
    let mut properties: Vec<ObjectProperty<'s>> = Vec::new();
    let mut pos = start;
    let mut i: usize = 0;
    proof {
        assert(properties_view(properties@) =~= Seq::<ObjectPropertyView>::empty());
        lemma_preceded_by_empty(spec_object_properties(input@, start as int, count as nat, depth as nat));
    }
    while i < count
        invariant
            i <= count,
            start <= pos,
            pos <= input@.len() || pos == start,
            spec_object_properties(input@, start as int, count as nat, depth as nat) == preceded_by(
                properties_view(properties@),
                spec_object_properties(input@, pos as int, (count - i) as nat, depth as nat),
            ),
            forall|j: int|
                0 <= j < properties@.len() ==> (#[trigger] properties_view(
                    properties@,
                )[j]).value.well_formed() && properties_view(properties@)[j].value.nests_within(
                    depth as nat,
                ),
        decreases count - i,
    {
        match object_property(input, pos, depth) {
            Ok((property, next)) => {
                proof {
                    lemma_preceded_by_push(
                        properties_view(properties@),
                        property@,
                        spec_object_properties(input@, next as int, (count - i - 1) as nat, depth as nat),
                    );
                    assert(properties_view(properties@.push(property)) =~= properties_view(
                        properties@,
                    ).push(property@));
                }
                properties.push(property);
                pos = next;
                i += 1;
            },
            Err(e) => {
                return Err(e.within(ErrorLabel::ObjectProperty));
            },
        }
    }
    proof {
        assert(properties_view(properties@) + Seq::<ObjectPropertyView>::empty() =~= properties_view(
            properties@,
        ));
    }
    Ok((properties, pos))
}

/// The counted block of an object: the count, `:{`, that many properties.
pub fn properties_block<'s>(input: &'s [u8], start: usize, depth: usize) -> (r: Result<
    (Vec<ObjectProperty<'s>>, usize),
    ParseError,
>)
    ensures
        yields_properties(r, spec_properties_block(input@, start as int, depth as nat)),
        r matches Ok((properties, end)) ==> {
            &&& start < end <= input@.len()
            &&& forall|i: int|
                0 <= i < properties@.len() ==> (#[trigger] properties_view(
                    properties@,
                )[i]).value.well_formed() && properties_view(properties@)[i].value.nests_within(
                    depth as nat,
                )
        },
    decreases depth, 1nat, 0nat, 0nat,
{
    let (count, first) = match block_start(input, start) {
        Ok(found) => found,
        Err(e) => return Err(e),
    };
    object_properties(input, first, count, depth)
}

/// `O:`, the class name, `:`, the count, `:{`, that many properties, `}`
pub fn value_object<'s>(input: &'s [u8], start: usize, depth: usize) -> (r: Result<
    (Value<'s>, usize),
    ParseError,
>)
    ensures
        yields(r, spec_value_object(input@, start as int, depth as nat)),
        r matches Ok((v, end)) ==> start < end <= input@.len() && v@.well_formed() && v@.nests_within(
            depth as nat,
        ),
    decreases depth, 0nat, 0nat, 0nat,
{
    let name = match lead(input, start, UPPER_O) {
        Ok(end) => end,
        Err(e) => return Err(e),
    };
    if depth == 0 {
        return Err(ParseError::new(ParseErrorKind::TooDeep, start));
    }
    let (class_name, colon) = match sized_string(input, name) {
        Ok(found) => found,
        Err(e) => return Err(e.within(ErrorLabel::ClassName)),
    };
    let block = match expect(input, colon, COLON) {
        Ok(end) => end,
        Err(e) => return Err(e),
    };
    let (properties, brace) = match properties_block(input, block, depth - 1) {
        Ok(found) => found,
        Err(e) => return Err(e.within(ErrorLabel::ObjectProperties)),
    };
    match close(input, brace, CLOSE_BRACE) {
        Ok(end) => Ok((Value::Object { class_name, properties }, end)),
        Err(e) => Err(e),
    }
}

/// The key of a session entry: the bytes up to the next `|`.
pub fn session_key<'s>(input: &'s [u8], start: usize) -> (r: Result<(&'s [u8], usize), ParseError>)
    ensures
        yields(r, spec_session_key(input@, start as int)),
        r matches Ok((_, end)) ==> start <= end < input@.len() <= usize::MAX && input@[end as int] == PIPE,
{
    let bar = find(input, start, PIPE);
    proof {
        lemma_find(input@, start as int, PIPE);
    }
    if bar < input.len() {
        Ok((slice_subrange(input, start, bar), bar))
    } else {
        Err(ParseError::new(ParseErrorKind::Incomplete, bar))
    }
}

/// One session entry: a key, `|`, a value.
pub fn session_entry<'s>(input: &'s [u8], start: usize, depth: usize) -> (r: Result<
    (SessionEntry<'s>, usize),
    ParseError,
>)
    ensures
        yields(r, spec_session_entry(input@, start as int, depth as nat)),
        r matches Ok((entry, end)) ==> start < end <= input@.len() && entry@.value.well_formed()
            && entry@.value.nests_within(depth as nat),
{
    let (key, bar) = match session_key(input, start) {
        Ok(found) => found,
        Err(e) => return Err(e),
    };
    match any_value(input, bar + 1, depth) {
        Ok((value, end)) => Ok((SessionEntry { key, value }, end)),
        Err(e) => Err(e),
    }
}

/// Whether `r` is the decoded form that the grammar prescribes for a whole
/// input read as one value.
pub open spec fn decodes_to(r: Result<Value, ParseError>, expected: Result<ValueView, ParseError>) -> bool {
    match r {
        Ok(value) => expected == Ok::<ValueView, ParseError>(value@),
        Err(e) => expected == Err::<ValueView, ParseError>(e),
    }
}

/// Whether `r` is the decoded form that the grammar prescribes for a whole
/// input read as a session.
pub open spec fn decodes_to_session(
    r: Result<Vec<SessionEntry>, ParseError>,
    expected: Result<Seq<SessionEntryView>, ParseError>,
) -> bool {
    match r {
        Ok(entries) => expected == Ok::<Seq<SessionEntryView>, ParseError>(session_view(entries@)),
        Err(e) => expected == Err::<Seq<SessionEntryView>, ParseError>(e),
    }
}

/// Decodes the whole of `input` as one value in which arrays and objects
/// nest at most `max_depth` deep.
///
/// Fails where the grammar is not met, with `TrailingData` where bytes follow
/// the value, and with `TooDeep` where the nesting goes beyond `max_depth`.
pub fn unserialize_with_depth<'s>(input: &'s [u8], max_depth: usize) -> (r: Result<Value<'s>, ParseError>)
    ensures
        decodes_to(r, spec_unserialize(input@, max_depth as nat)),
        r matches Ok(value) ==> value@.well_formed() && value@.nests_within(max_depth as nat),
{
    match any_value(input, 0, max_depth) {
        Ok((value, end)) => {
            if end == input.len() {
                Ok(value)
            } else {
                Err(ParseError::new(ParseErrorKind::TrailingData, end))
            }
        },
        Err(e) => Err(e),
    }
}

/// Decodes the whole of `input` as one value, with the default limit on
/// nesting.
pub fn unserialize<'s>(input: &'s [u8]) -> (r: Result<Value<'s>, ParseError>)
    ensures
        decodes_to(r, spec_unserialize(input@, DEFAULT_MAX_DEPTH as nat)),
        r matches Ok(value) ==> value@.well_formed() && value@.nests_within(DEFAULT_MAX_DEPTH as nat),
{
    unserialize_with_depth(input, DEFAULT_MAX_DEPTH)
}

/// Decodes the whole of `input` as a session: zero or more entries, in each
/// of which arrays and objects nest at most `max_depth` deep.
pub fn session_decode_with_depth<'s>(input: &'s [u8], max_depth: usize) -> (r: Result<
    Vec<SessionEntry<'s>>,
    ParseError,
>)
    ensures
        decodes_to_session(r, spec_session_decode(input@, max_depth as nat)),
        r matches Ok(entries) ==> forall|i: int|
            0 <= i < entries@.len() ==> (#[trigger] session_view(entries@)[i]).value.well_formed()
                && session_view(entries@)[i].value.nests_within(max_depth as nat),
{
    let mut entries: Vec<SessionEntry<'s>> = Vec::new();
    let mut pos: usize = 0;
    proof {
        assert(session_view(entries@) =~= Seq::<SessionEntryView>::empty());
        lemma_preceded_by_empty(spec_session_entries(input@, 0, max_depth as nat));
    }
    while pos < input.len()
        invariant
            pos <= input@.len(),
            spec_session_entries(input@, 0, max_depth as nat) == preceded_by(
                session_view(entries@),
                spec_session_entries(input@, pos as int, max_depth as nat),
            ),
            forall|j: int|
                0 <= j < entries@.len() ==> (#[trigger] session_view(entries@)[j]).value.well_formed()
                    && session_view(entries@)[j].value.nests_within(max_depth as nat),
        decreases input@.len() - pos,
    {
        match session_entry(input, pos, max_depth) {
            Ok((entry, next)) => {
                proof {
                    lemma_preceded_by_push(
                        session_view(entries@),
                        entry@,
                        spec_session_entries(input@, next as int, max_depth as nat),
                    );
                    assert(session_view(entries@.push(entry)) =~= session_view(entries@).push(entry@));
                }
                entries.push(entry);
                pos = next;
            },
            Err(e) => {
                return Err(e);
            },
        }
    }
    proof {
        assert(session_view(entries@) + Seq::<SessionEntryView>::empty() =~= session_view(entries@));
    }
    Ok(entries)
}

/// Decodes the whole of `input` as a session, with the default limit on
/// nesting.
pub fn session_decode<'s>(input: &'s [u8]) -> (r: Result<Vec<SessionEntry<'s>>, ParseError>)
    ensures
        decodes_to_session(r, spec_session_decode(input@, DEFAULT_MAX_DEPTH as nat)),
        r matches Ok(entries) ==> forall|i: int|
            0 <= i < entries@.len() ==> (#[trigger] session_view(entries@)[i]).value.well_formed()
                && session_view(entries@)[i].value.nests_within(DEFAULT_MAX_DEPTH as nat),
{
    session_decode_with_depth(input, DEFAULT_MAX_DEPTH)
}

/// Putting no items in front changes nothing.
proof fn lemma_preceded_by_empty<T>(rest: Parsed<Seq<T>>)
    ensures
        preceded_by(Seq::<T>::empty(), rest) == rest,
{
    if let Ok((items, end)) = rest {
        assert(Seq::<T>::empty() + items =~= items);
    }
}

} // verus!
