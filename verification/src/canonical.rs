//! Which inputs the encoders reproduce.
//!
//! The decoders accept more than the encoders write: a number may carry
//! leading zeros, zero may carry a minus sign, and the class name inside the
//! name of a private property may differ from the class of its object. An
//! input is canonical when it uses none of these freedoms. Decoding a
//! canonical input and encoding the result gives the input back, byte by
//! byte; and whatever the encoders write for an unambiguous value is
//! canonical.

use vstd::prelude::*;

use crate::ascii::{
    CLOSE_BRACE, COLON, LOWER_A, LOWER_B, LOWER_D, LOWER_I, LOWER_R, LOWER_S, MINUS, OPEN_BRACE, PIPE, QUOTE,
    SEMICOLON, UPPER_C, UPPER_N, UPPER_O, UPPER_R, ZERO,
};
use crate::de::grammar;
use crate::de::raw::{
    byte_at, has_at, lemma_digits_read, lemma_has_at_byte, lemma_has_at_concat, lemma_has_at_subrange,
    lemma_tokens_advance, no_digit_at, spec_close, spec_digits_end, spec_expect, spec_signed_integer,
    spec_size, spec_sized_string, spec_unsigned_integer,
};
use crate::error::ParseError;
use crate::roundtrip::{
    lemma_array_entries_first, lemma_array_key_reads_back, lemma_array_parts, lemma_block_start_read,
    lemma_custom_object_parts, lemma_entry_reads_back, lemma_item_parts, lemma_object_parts,
    lemma_properties_first, lemma_property_parts, lemma_property_reads_back, lemma_session_first,
    lemma_session_entry_reads_back, lemma_sized_string_read, lemma_string_reads_back,
    lemma_visibility_of_mangled,
};
use crate::ser;
use crate::text::{
    digits_value, int_text, is_digit, is_shortest_digits, lemma_digits_value_positive, lemma_nat_text_digits,
    lemma_shortest_digits_text, nat_text,
};
use crate::value::{ArrayEntryView, ArrayKeyView, DecimalView, ObjectPropertyView, SessionEntryView, ValueView};

verus! {

/// Whether the digits that start at `pos` are the shortest for their value:
/// no leading zero, except in `0` itself.
pub open spec fn shortest_digits_at(s: Seq<u8>, pos: int) -> bool {
    is_shortest_digits(s.subrange(pos, spec_digits_end(s, pos)))
}

/// Whether the signed number that starts at `pos` is written as the encoder
/// writes it: the shortest digits, and no minus sign before zero.
pub open spec fn plain_integer_at(s: Seq<u8>, pos: int) -> bool {
    if byte_at(s, pos) == Some(MINUS) {
        shortest_digits_at(s, pos + 1) && byte_at(s, pos + 1) != Some(ZERO)
    } else {
        shortest_digits_at(s, pos)
    }
}

/// Whether the custom object that starts at `pos` is written as the encoder
/// writes it: both of its lengths in shortest digits.
pub open spec fn canonical_custom_object(s: Seq<u8>, pos: int) -> bool {
    &&& shortest_digits_at(s, pos + 2)
    &&& spec_sized_string(s, pos + 2) matches Ok((_, colon)) ==> shortest_digits_at(s, colon + 1)
}

/// Whether the array key that starts at `pos` is written as the encoder
/// writes it.
pub open spec fn canonical_key(s: Seq<u8>, pos: int) -> bool {
    if byte_at(s, pos) == Some(LOWER_I) {
        plain_integer_at(s, pos + 2)
    } else {
        shortest_digits_at(s, pos + 2)
    }
}

/// Whether the property name that starts at `pos`, in an object of class
/// `class_name`, is written as the encoder writes it: its length in shortest
/// digits, and, if it is private, behind that class name and no other.
pub open spec fn canonical_property_name(s: Seq<u8>, pos: int, class_name: Seq<u8>) -> bool {
    &&& shortest_digits_at(s, pos + 2)
    &&& grammar::spec_string(s, pos) matches Ok((mangled, _)) ==> ser::spec_mangled_name(
        grammar::spec_visibility(mangled).0,
        class_name,
        grammar::spec_visibility(mangled).1,
    ) == mangled
}

/// Whether the value that starts at `pos` is written as the encoder writes
/// it: every number in it plain, every length and count in shortest digits,
/// every private property under the class name of its object.
pub open spec fn canonical_value(s: Seq<u8>, pos: int, depth: nat) -> bool
    decreases depth, 0nat, 0nat, 1nat,
{
    match byte_at(s, pos) {
        Some(letter) => if letter == LOWER_I {
            plain_integer_at(s, pos + 2)
        } else if letter == LOWER_S || letter == UPPER_R || letter == LOWER_R {
            shortest_digits_at(s, pos + 2)
        } else if letter == UPPER_C {
            canonical_custom_object(s, pos)
        } else if letter == LOWER_A {
            canonical_array(s, pos, depth)
        } else if letter == UPPER_O {
            canonical_object(s, pos, depth)
        } else {
            true
        },
        None => true,
    }
}

/// Whether the array that starts at `pos` is written as the encoder writes
/// it.
pub open spec fn canonical_array(s: Seq<u8>, pos: int, depth: nat) -> bool
    decreases depth, 0nat, 0nat, 0nat,
{
    &&& shortest_digits_at(s, pos + 2)
    &&& depth >= 1 ==> (grammar::spec_block_start(s, pos + 2) matches Ok((count, first))
        ==> canonical_pairs(s, first, count as nat, (depth - 1) as nat))
}

/// Whether the array entry that starts at `pos` is written as the encoder
/// writes it.
pub open spec fn canonical_pair(s: Seq<u8>, pos: int, depth: nat) -> bool
    decreases depth, 0nat, 0nat, 2nat,
{
    &&& canonical_key(s, pos)
    &&& grammar::spec_array_key(s, pos) matches Ok((_, value)) ==> canonical_value(s, value, depth)
}

/// Whether the `count` array entries that start at `pos` are written as the
/// encoder writes them.
pub open spec fn canonical_pairs(s: Seq<u8>, pos: int, count: nat, depth: nat) -> bool
    decreases depth, 0nat, count, 3nat,
{
    count == 0 || {
        &&& canonical_pair(s, pos, depth)
        &&& grammar::spec_array_pair(s, pos, depth) matches Ok((_, next)) ==> canonical_pairs(
            s,
            next,
            (count - 1) as nat,
            depth,
        )
    }
}

/// Whether the object that starts at `pos` is written as the encoder writes
/// it.
pub open spec fn canonical_object(s: Seq<u8>, pos: int, depth: nat) -> bool
    decreases depth, 0nat, 0nat, 0nat,
{
    &&& shortest_digits_at(s, pos + 2)
    &&& spec_sized_string(s, pos + 2) matches Ok((class_name, colon)) ==> {
        &&& shortest_digits_at(s, colon + 1)
        &&& depth >= 1 ==> (grammar::spec_block_start(s, colon + 1) matches Ok((count, first))
            ==> canonical_properties(s, first, count as nat, (depth - 1) as nat, class_name))
    }
}

/// Whether the property that starts at `pos`, in an object of class
/// `class_name`, is written as the encoder writes it.
pub open spec fn canonical_property(s: Seq<u8>, pos: int, depth: nat, class_name: Seq<u8>) -> bool
    decreases depth, 0nat, 0nat, 2nat,
{
    &&& canonical_property_name(s, pos, class_name)
    &&& grammar::spec_object_property_name(s, pos) matches Ok((_, value)) ==> canonical_value(
        s,
        value,
        depth,
    )
}

/// Whether the `count` properties that start at `pos`, in an object of class
/// `class_name`, are written as the encoder writes them.
pub open spec fn canonical_properties(
    s: Seq<u8>,
    pos: int,
    count: nat,
    depth: nat,
    class_name: Seq<u8>,
) -> bool
    decreases depth, 0nat, count, 3nat,
{
    count == 0 || {
        &&& canonical_property(s, pos, depth, class_name)
        &&& grammar::spec_object_property(s, pos, depth) matches Ok((_, next)) ==> canonical_properties(
            s,
            next,
            (count - 1) as nat,
            depth,
            class_name,
        )
    }
}

/// Whether the session entries from `pos` to the end of the input are
/// written as the encoder writes them.
pub open spec fn canonical_session(s: Seq<u8>, pos: int, depth: nat) -> bool
    decreases s.len() - pos,
{
    pos >= s.len() || (grammar::spec_session_key(s, pos) matches Ok((_, bar)) ==> {
        &&& canonical_value(s, bar + 1, depth)
        &&& grammar::spec_any_value(s, bar + 1, depth) matches Ok((_, next)) ==> {
            proof {
                grammar::lemma_session_entry_advances(s, pos, depth);
            }
            canonical_session(s, next, depth)
        }
    })
}

/// A byte that was read stands where it was read.
proof fn lemma_expect_rewrite(s: Seq<u8>, pos: int, b: u8)
    requires
        spec_expect(s, pos, b) is Ok || spec_close(s, pos, b) is Ok,
    ensures
        has_at(s, pos, seq![b]),
{
    assert(s.subrange(pos, pos + 1) =~= seq![b]);
}

/// A lead token that was read stands where it was read.
proof fn lemma_lead_rewrite(s: Seq<u8>, pos: int, letter: u8)
    requires
        grammar::spec_lead(s, pos, letter) is Ok,
    ensures
        has_at(s, pos, seq![letter, COLON]),
        grammar::spec_lead(s, pos, letter) == Ok::<int, ParseError>(pos + 2),
{
    assert(s.subrange(pos, pos + 2) =~= seq![letter, COLON]);
}

/// Shortest digits that were read are the text of their value.
proof fn lemma_digits_rewrite(s: Seq<u8>, pos: int)
    requires
        spec_unsigned_integer(s, pos) is Ok,
        shortest_digits_at(s, pos),
    ensures
        ({
            let (digits, end) = spec_unsigned_integer(s, pos)->Ok_0;
            &&& digits == nat_text(digits_value(digits))
            &&& has_at(s, pos, digits)
            &&& end == pos + digits.len()
        }),
{
    let (digits, end) = spec_unsigned_integer(s, pos)->Ok_0;
    lemma_tokens_advance(s, pos);
    lemma_shortest_digits_text(digits);
}

/// A size that was read from shortest digits stands as its text.
proof fn lemma_size_rewrite(s: Seq<u8>, pos: int)
    requires
        spec_size(s, pos) is Ok,
        shortest_digits_at(s, pos),
    ensures
        ({
            let (n, end) = spec_size(s, pos)->Ok_0;
            &&& has_at(s, pos, nat_text(n as nat))
            &&& end == pos + nat_text(n as nat).len()
        }),
{
    lemma_digits_rewrite(s, pos);
}

/// A reference index that was read from shortest digits stands as its text.
proof fn lemma_index_rewrite(s: Seq<u8>, pos: int)
    requires
        grammar::spec_index(s, pos) is Ok,
        shortest_digits_at(s, pos),
    ensures
        ({
            let (n, end) = grammar::spec_index(s, pos)->Ok_0;
            &&& has_at(s, pos, nat_text(n as nat))
            &&& end == pos + nat_text(n as nat).len()
        }),
{
    lemma_digits_rewrite(s, pos);
}

/// A plain integer that was read stands as its text.
proof fn lemma_integer_rewrite(s: Seq<u8>, pos: int)
    requires
        grammar::spec_integer(s, pos) is Ok,
        plain_integer_at(s, pos),
    ensures
        ({
            let (n, end) = grammar::spec_integer(s, pos)->Ok_0;
            &&& has_at(s, pos, int_text(n as int))
            &&& end == pos + int_text(n as int).len()
        }),
{
    let (n, end) = grammar::spec_integer(s, pos)->Ok_0;
    let (token, _) = spec_signed_integer(s, pos)->Ok_0;
    lemma_tokens_advance(s, pos);
    if byte_at(s, pos) == Some(MINUS) {
        lemma_tokens_advance(s, pos + 1);
        lemma_digits_rewrite(s, pos + 1);
        let digits = s.subrange(pos + 1, end);
        assert(token.skip(1) =~= digits);
        assert(digits[0] == s[pos + 1]);
        lemma_digits_value_positive(digits);
        assert(token =~= seq![MINUS] + digits);
    } else {
        lemma_digits_rewrite(s, pos);
        assert(is_digit(token[0]));
    }
}

/// A length-prefixed string whose length was read from shortest digits
/// stands as the encoder writes it.
proof fn lemma_sized_string_rewrite(s: Seq<u8>, pos: int)
    requires
        spec_sized_string(s, pos) is Ok,
        shortest_digits_at(s, pos),
    ensures
        ({
            let (payload, end) = spec_sized_string(s, pos)->Ok_0;
            &&& has_at(s, pos, ser::spec_sized(payload))
            &&& end == pos + ser::spec_sized(payload).len()
        }),
{
    let (payload, end) = spec_sized_string(s, pos)->Ok_0;
    let (n, colon) = spec_size(s, pos)->Ok_0;
    lemma_size_rewrite(s, pos);
    lemma_tokens_advance(s, pos);
    let count = nat_text(payload.len());
    assert(s.subrange(colon, colon + 2) =~= seq![COLON, QUOTE]);
    lemma_has_at_subrange(s, colon + 2, colon + 2 + n);
    assert(s.subrange(colon + 2 + n, colon + 3 + n) =~= seq![QUOTE]);
    lemma_has_at_concat(s, colon + 2, payload, seq![QUOTE]);
    lemma_has_at_concat(s, colon, seq![COLON, QUOTE], payload + seq![QUOTE]);
    lemma_has_at_concat(s, pos, count, seq![COLON, QUOTE] + (payload + seq![QUOTE]));
    assert(ser::spec_sized(payload) =~= count + (seq![COLON, QUOTE] + (payload + seq![QUOTE])));
}

/// A string item whose length was read from shortest digits stands as the
/// encoder writes it.
proof fn lemma_string_rewrite(s: Seq<u8>, pos: int)
    requires
        grammar::spec_string(s, pos) is Ok,
        shortest_digits_at(s, pos + 2),
    ensures
        ({
            let (bytes, end) = grammar::spec_string(s, pos)->Ok_0;
            let written = seq![LOWER_S, COLON] + ser::spec_sized(bytes) + seq![SEMICOLON];
            &&& has_at(s, pos, written)
            &&& end == pos + written.len()
            &&& byte_at(s, pos) == Some(LOWER_S)
        }),
{
    let (bytes, end) = grammar::spec_string(s, pos)->Ok_0;
    lemma_lead_rewrite(s, pos, LOWER_S);
    lemma_sized_string_rewrite(s, pos + 2);
    let semicolon = pos + 2 + ser::spec_sized(bytes).len();
    lemma_expect_rewrite(s, semicolon, SEMICOLON);
    lemma_has_at_concat(s, pos, seq![LOWER_S, COLON], ser::spec_sized(bytes));
    lemma_has_at_concat(s, pos, seq![LOWER_S, COLON] + ser::spec_sized(bytes), seq![SEMICOLON]);
}

/// An integer item whose number is plain stands as the encoder writes it.
proof fn lemma_integer_item_rewrite(s: Seq<u8>, pos: int)
    requires
        grammar::spec_integer_item(s, pos) is Ok,
        plain_integer_at(s, pos + 2),
    ensures
        ({
            let (n, end) = grammar::spec_integer_item(s, pos)->Ok_0;
            let written = seq![LOWER_I, COLON] + int_text(n as int) + seq![SEMICOLON];
            &&& has_at(s, pos, written)
            &&& end == pos + written.len()
            &&& byte_at(s, pos) == Some(LOWER_I)
        }),
{
    let (n, end) = grammar::spec_integer_item(s, pos)->Ok_0;
    lemma_lead_rewrite(s, pos, LOWER_I);
    lemma_integer_rewrite(s, pos + 2);
    let semicolon = pos + 2 + int_text(n as int).len();
    lemma_expect_rewrite(s, semicolon, SEMICOLON);
    lemma_has_at_concat(s, pos, seq![LOWER_I, COLON], int_text(n as int));
    lemma_has_at_concat(s, pos, seq![LOWER_I, COLON] + int_text(n as int), seq![SEMICOLON]);
}

/// A reference whose index was read from shortest digits stands as the
/// encoder writes it.
proof fn lemma_reference_rewrite(s: Seq<u8>, pos: int, letter: u8)
    requires
        grammar::spec_reference(s, pos, letter) is Ok,
        shortest_digits_at(s, pos + 2),
    ensures
        ({
            let (index, end) = grammar::spec_reference(s, pos, letter)->Ok_0;
            let written = seq![letter, COLON] + nat_text(index as nat) + seq![SEMICOLON];
            &&& has_at(s, pos, written)
            &&& end == pos + written.len()
        }),
{
    let (index, end) = grammar::spec_reference(s, pos, letter)->Ok_0;
    lemma_lead_rewrite(s, pos, letter);
    lemma_index_rewrite(s, pos + 2);
    let semicolon = pos + 2 + nat_text(index as nat).len();
    lemma_expect_rewrite(s, semicolon, SEMICOLON);
    lemma_has_at_concat(s, pos, seq![letter, COLON], nat_text(index as nat));
    lemma_has_at_concat(s, pos, seq![letter, COLON] + nat_text(index as nat), seq![SEMICOLON]);
}

/// A key that is written as the encoder writes it stands as the wire form of
/// what it was read as.
proof fn lemma_key_rewrite(s: Seq<u8>, pos: int)
    requires
        grammar::spec_array_key(s, pos) is Ok,
        canonical_key(s, pos),
    ensures
        ({
            let (key, end) = grammar::spec_array_key(s, pos)->Ok_0;
            &&& has_at(s, pos, ser::spec_array_key(key))
            &&& end == pos + ser::spec_array_key(key).len()
        }),
{
    if byte_at(s, pos) == Some(LOWER_I) {
        lemma_integer_item_rewrite(s, pos);
    } else {
        lemma_string_rewrite(s, pos);
    }
}

/// The token of a decimal that was read stands as the encoder writes it.
proof fn lemma_decimal_token_rewrite(s: Seq<u8>, pos: int)
    requires
        grammar::spec_decimal(s, pos) is Ok,
    ensures
        ({
            let (d, end) = grammar::spec_decimal(s, pos)->Ok_0;
            &&& has_at(s, pos, ser::spec_decimal(d))
            &&& end == pos + ser::spec_decimal(d).len()
        }),
{
    let (d, end) = grammar::spec_decimal(s, pos)->Ok_0;
    match d {
        DecimalView::Literal(text) => {
            lemma_tokens_advance(s, pos);
        },
        DecimalView::NegInfinity => {
            assert(s.subrange(pos, pos + 4) =~= ser::spec_decimal(d));
        },
        _ => {
            assert(s.subrange(pos, pos + 3) =~= ser::spec_decimal(d));
        },
    }
}

/// A decimal value that was read stands as the encoder writes it.
proof fn lemma_decimal_rewrite(s: Seq<u8>, pos: int)
    requires
        grammar::spec_value_decimal(s, pos) is Ok,
    ensures
        ({
            let (v, end) = grammar::spec_value_decimal(s, pos)->Ok_0;
            &&& has_at(s, pos, ser::spec_serialize(v))
            &&& end == pos + ser::spec_serialize(v).len()
        }),
{
    let (v, end) = grammar::spec_value_decimal(s, pos)->Ok_0;
    let token = ser::spec_decimal(v->Decimal_0);
    lemma_lead_rewrite(s, pos, LOWER_D);
    lemma_decimal_token_rewrite(s, pos + 2);
    lemma_expect_rewrite(s, pos + 2 + token.len(), SEMICOLON);
    lemma_has_at_concat(s, pos, seq![LOWER_D, COLON], token);
    lemma_has_at_concat(s, pos, seq![LOWER_D, COLON] + token, seq![SEMICOLON]);
}

/// Null and booleans that were read stand as the encoder writes them.
proof fn lemma_constant_rewrite(s: Seq<u8>, pos: int)
    ensures
        grammar::spec_value_null(s, pos) matches Ok((v, end)) ==> has_at(s, pos, ser::spec_serialize(v))
            && end == pos + ser::spec_serialize(v).len(),
        grammar::spec_value_boolean(s, pos) matches Ok((v, end)) ==> has_at(s, pos, ser::spec_serialize(v))
            && end == pos + ser::spec_serialize(v).len(),
{
    if let Ok((v, end)) = grammar::spec_value_null(s, pos) {
        assert(s.subrange(pos, pos + 2) =~= ser::spec_serialize(v));
    }
    if let Ok((v, end)) = grammar::spec_value_boolean(s, pos) {
        assert(s.subrange(pos, pos + 4) =~= ser::spec_serialize(v));
    }
}

/// What opens a counted block, with its count in shortest digits, stands as
/// the encoder writes it.
proof fn lemma_block_start_rewrite(s: Seq<u8>, pos: int)
    requires
        grammar::spec_block_start(s, pos) is Ok,
        shortest_digits_at(s, pos),
    ensures
        ({
            let (count, end) = grammar::spec_block_start(s, pos)->Ok_0;
            let written = nat_text(count as nat) + seq![COLON, OPEN_BRACE];
            &&& has_at(s, pos, written)
            &&& end == pos + written.len()
        }),
{
    let (count, end) = grammar::spec_block_start(s, pos)->Ok_0;
    lemma_size_rewrite(s, pos);
    let colon = pos + nat_text(count as nat).len();
    assert(s.subrange(colon, colon + 2) =~= seq![COLON, OPEN_BRACE]);
    lemma_has_at_concat(s, pos, nat_text(count as nat), seq![COLON, OPEN_BRACE]);
}

/// Six runs of bytes that stand one behind the other stand there as their
/// concatenation.
proof fn lemma_has_at_six(
    s: Seq<u8>,
    pos: int,
    a: Seq<u8>,
    b: Seq<u8>,
    c: Seq<u8>,
    d: Seq<u8>,
    e: Seq<u8>,
    f: Seq<u8>,
)
    requires
        has_at(s, pos, a),
        has_at(s, pos + a.len(), b),
        has_at(s, pos + a.len() + b.len(), c),
        has_at(s, pos + a.len() + b.len() + c.len(), d),
        has_at(s, pos + a.len() + b.len() + c.len() + d.len(), e),
        has_at(s, pos + a.len() + b.len() + c.len() + d.len() + e.len(), f),
    ensures
        has_at(s, pos, a + b + c + d + e + f),
        (a + b + c + d + e + f).len() == a.len() + b.len() + c.len() + d.len() + e.len() + f.len(),
{
    lemma_has_at_concat(s, pos, a, b);
    lemma_has_at_concat(s, pos, a + b, c);
    lemma_has_at_concat(s, pos, a + b + c, d);
    lemma_has_at_concat(s, pos, a + b + c + d, e);
    lemma_has_at_concat(s, pos, a + b + c + d + e, f);
}

/// What a custom object is read from, part by part.
proof fn lemma_custom_object_unfold(s: Seq<u8>, pos: int)
    requires
        grammar::spec_value_custom_object(s, pos) is Ok,
    ensures
        ({
            let (v, end) = grammar::spec_value_custom_object(s, pos)->Ok_0;
            &&& grammar::spec_lead(s, pos, UPPER_C) is Ok
            &&& spec_sized_string(s, pos + 2) matches Ok((class_name, colon)) && {
                &&& spec_expect(s, colon, COLON) is Ok
                &&& grammar::spec_block_start(s, colon + 1) matches Ok((count, start)) && {
                    &&& start + count <= s.len()
                    &&& spec_close(s, start + count, CLOSE_BRACE) is Ok
                    &&& v == (ValueView::CustomObject { class_name, data: s.subrange(start, start + count) })
                    &&& end == start + count + 1
                }
            }
        }),
{
}

/// The parts of a custom object, where they stand one behind the other,
/// stand there as the wire form of the custom object.
proof fn lemma_custom_object_assemble(s: Seq<u8>, pos: int, class_name: Seq<u8>, data: Seq<u8>)
    requires
        has_at(s, pos, seq![UPPER_C, COLON]),
        has_at(s, pos + 2, ser::spec_sized(class_name)),
        has_at(s, pos + 2 + ser::spec_sized(class_name).len(), seq![COLON]),
        has_at(s, pos + 3 + ser::spec_sized(class_name).len(), nat_text(data.len()) + seq![COLON, OPEN_BRACE]),
        has_at(s, pos + 5 + ser::spec_sized(class_name).len() + nat_text(data.len()).len(), data),
        has_at(
            s,
            pos + 5 + ser::spec_sized(class_name).len() + nat_text(data.len()).len() + data.len(),
            seq![CLOSE_BRACE],
        ),
    ensures
        has_at(s, pos, ser::spec_serialize(ValueView::CustomObject { class_name, data })),
        ser::spec_serialize(ValueView::CustomObject { class_name, data }).len() == 6 + ser::spec_sized(
            class_name,
        ).len() + nat_text(data.len()).len() + data.len(),
{
    lemma_has_at_six(
        s,
        pos,
        seq![UPPER_C, COLON],
        ser::spec_sized(class_name),
        seq![COLON],
        nat_text(data.len()) + seq![COLON, OPEN_BRACE],
        data,
        seq![CLOSE_BRACE],
    );
    assert(ser::spec_serialize(ValueView::CustomObject { class_name, data }) =~= seq![UPPER_C, COLON]
        + ser::spec_sized(class_name) + seq![COLON] + (nat_text(data.len()) + seq![COLON, OPEN_BRACE])
        + data + seq![CLOSE_BRACE]);
}

/// A custom object that is written as the encoder writes it stands as the
/// wire form of what it was read as.
proof fn lemma_custom_object_rewrite(s: Seq<u8>, pos: int)
    requires
        grammar::spec_value_custom_object(s, pos) is Ok,
        canonical_custom_object(s, pos),
    ensures
        ({
            let (v, end) = grammar::spec_value_custom_object(s, pos)->Ok_0;
            &&& has_at(s, pos, ser::spec_serialize(v))
            &&& end == pos + ser::spec_serialize(v).len()
        }),
{
    lemma_custom_object_unfold(s, pos);
    let (class_name, colon) = spec_sized_string(s, pos + 2)->Ok_0;
    let (count, start) = grammar::spec_block_start(s, colon + 1)->Ok_0;
    lemma_lead_rewrite(s, pos, UPPER_C);
    lemma_sized_string_rewrite(s, pos + 2);
    lemma_expect_rewrite(s, colon, COLON);
    lemma_block_start_rewrite(s, colon + 1);
    assert(0 <= start <= s.len()) by {
        grammar::lemma_items_advance(s, colon + 1);
    }
    lemma_has_at_subrange(s, start, start + count);
    lemma_expect_rewrite(s, start + count, CLOSE_BRACE);
    lemma_custom_object_assemble(s, pos, class_name, s.subrange(start, start + count));
}

/// A value that is neither an array nor an object, and is written as the
/// encoder writes it, stands as the wire form of what it was read as.
proof fn lemma_scalar_rewrite(s: Seq<u8>, pos: int, depth: nat)
    requires
        grammar::spec_any_value(s, pos, depth) is Ok,
        canonical_value(s, pos, depth),
        byte_at(s, pos) != Some(LOWER_A),
        byte_at(s, pos) != Some(UPPER_O),
    ensures
        ({
            let (v, end) = grammar::spec_any_value(s, pos, depth)->Ok_0;
            &&& has_at(s, pos, ser::spec_serialize(v))
            &&& end == pos + ser::spec_serialize(v).len()
        }),
{
    let letter = s[pos];
    if letter == UPPER_N || letter == LOWER_B {
        lemma_constant_rewrite(s, pos);
    } else if letter == LOWER_I {
        lemma_integer_item_rewrite(s, pos);
    } else if letter == LOWER_D {
        lemma_decimal_rewrite(s, pos);
    } else if letter == LOWER_S {
        lemma_string_rewrite(s, pos);
    } else if letter == UPPER_C {
        lemma_custom_object_rewrite(s, pos);
    } else if letter == UPPER_R {
        lemma_reference_rewrite(s, pos, UPPER_R);
    } else if letter == LOWER_R {
        lemma_reference_rewrite(s, pos, LOWER_R);
    }
}

/// What an array is read from, part by part.
proof fn lemma_array_unfold(s: Seq<u8>, pos: int, depth: nat)
    requires
        grammar::spec_value_array(s, pos, depth) is Ok,
    ensures
        ({
            let (v, end) = grammar::spec_value_array(s, pos, depth)->Ok_0;
            &&& depth >= 1
            &&& grammar::spec_lead(s, pos, LOWER_A) is Ok
            &&& grammar::spec_block_start(s, pos + 2) matches Ok((count, first)) && {
                &&& grammar::spec_array_pairs(s, first, count as nat, (depth - 1) as nat) matches Ok(
                    (entries, brace),
                ) && {
                    &&& spec_close(s, brace, CLOSE_BRACE) is Ok
                    &&& v == ValueView::Array(entries)
                    &&& end == brace + 1
                }
            }
        }),
{
}

/// What an object is read from, part by part.
proof fn lemma_object_unfold(s: Seq<u8>, pos: int, depth: nat)
    requires
        grammar::spec_value_object(s, pos, depth) is Ok,
    ensures
        ({
            let (v, end) = grammar::spec_value_object(s, pos, depth)->Ok_0;
            &&& depth >= 1
            &&& grammar::spec_lead(s, pos, UPPER_O) is Ok
            &&& spec_sized_string(s, pos + 2) matches Ok((class_name, colon)) && {
                &&& spec_expect(s, colon, COLON) is Ok
                &&& grammar::spec_block_start(s, colon + 1) matches Ok((count, first)) && {
                    &&& grammar::spec_object_properties(s, first, count as nat, (depth - 1) as nat) matches Ok(
                        (properties, brace),
                    ) && {
                        &&& spec_close(s, brace, CLOSE_BRACE) is Ok
                        &&& v == (ValueView::Object { class_name, properties })
                        &&& end == brace + 1
                    }
                }
            }
        }),
{
}

/// A value that is written as the encoder writes it stands as the wire form
/// of what it was read as.
pub proof fn lemma_value_rewrite(s: Seq<u8>, pos: int, depth: nat)
    requires
        grammar::spec_any_value(s, pos, depth) is Ok,
        canonical_value(s, pos, depth),
    ensures
        ({
            let (v, end) = grammar::spec_any_value(s, pos, depth)->Ok_0;
            &&& has_at(s, pos, ser::spec_serialize(v))
            &&& end == pos + ser::spec_serialize(v).len()
        }),
    decreases depth, 0nat, 1nat,
{
    if byte_at(s, pos) == Some(LOWER_A) {
        lemma_array_rewrite(s, pos, depth);
    } else if byte_at(s, pos) == Some(UPPER_O) {
        lemma_object_rewrite(s, pos, depth);
    } else {
        lemma_scalar_rewrite(s, pos, depth);
    }
}

/// The parts of an array, where they stand one behind the other, stand there
/// as the wire form of the array.
proof fn lemma_array_assemble(s: Seq<u8>, pos: int, entries: Seq<ArrayEntryView>)
    requires
        has_at(s, pos, seq![LOWER_A, COLON]),
        has_at(s, pos + 2, nat_text(entries.len()) + seq![COLON, OPEN_BRACE]),
        has_at(s, pos + 4 + nat_text(entries.len()).len(), ser::spec_array_entries(entries)),
        has_at(
            s,
            pos + 4 + nat_text(entries.len()).len() + ser::spec_array_entries(entries).len(),
            seq![CLOSE_BRACE],
        ),
    ensures
        has_at(s, pos, ser::spec_serialize(ValueView::Array(entries))),
        ser::spec_serialize(ValueView::Array(entries)).len() == 5 + nat_text(entries.len()).len()
            + ser::spec_array_entries(entries).len(),
{
    let start = nat_text(entries.len()) + seq![COLON, OPEN_BRACE];
    let body = ser::spec_array_entries(entries);
    lemma_has_at_concat(s, pos, seq![LOWER_A, COLON], start);
    lemma_has_at_concat(s, pos, seq![LOWER_A, COLON] + start, body);
    lemma_has_at_concat(s, pos, seq![LOWER_A, COLON] + start + body, seq![CLOSE_BRACE]);
    assert(ser::spec_serialize(ValueView::Array(entries)) =~= seq![LOWER_A, COLON] + start + body
        + seq![CLOSE_BRACE]);
}

/// An array that is written as the encoder writes it stands as the wire form
/// of what it was read as.
#[verifier::rlimit(40)]
proof fn lemma_array_rewrite(s: Seq<u8>, pos: int, depth: nat)
    requires
        grammar::spec_value_array(s, pos, depth) is Ok,
        canonical_array(s, pos, depth),
    ensures
        ({
            let (v, end) = grammar::spec_value_array(s, pos, depth)->Ok_0;
            &&& has_at(s, pos, ser::spec_serialize(v))
            &&& end == pos + ser::spec_serialize(v).len()
        }),
    decreases depth, 0nat, 0nat,
{
    lemma_array_unfold(s, pos, depth);
    let (count, first) = grammar::spec_block_start(s, pos + 2)->Ok_0;
    let (entries, brace) = grammar::spec_array_pairs(s, first, count as nat, (depth - 1) as nat)->Ok_0;
    assert(canonical_pairs(s, first, count as nat, (depth - 1) as nat));
    assert(shortest_digits_at(s, pos + 2));
    lemma_lead_rewrite(s, pos, LOWER_A);
    lemma_block_start_rewrite(s, pos + 2);
    assert(0 <= first <= s.len()) by {
        grammar::lemma_items_advance(s, pos + 2);
    }
    lemma_pairs_rewrite(s, first, count as nat, (depth - 1) as nat);
    lemma_expect_rewrite(s, brace, CLOSE_BRACE);
    lemma_array_assemble(s, pos, entries);
}

/// The parts of an object, where they stand one behind the other, stand
/// there as the wire form of the object.
proof fn lemma_object_assemble(
    s: Seq<u8>,
    pos: int,
    class_name: Seq<u8>,
    properties: Seq<ObjectPropertyView>,
)
    requires
        has_at(s, pos, seq![UPPER_O, COLON]),
        has_at(s, pos + 2, ser::spec_sized(class_name)),
        has_at(s, pos + 2 + ser::spec_sized(class_name).len(), seq![COLON]),
        has_at(
            s,
            pos + 3 + ser::spec_sized(class_name).len(),
            nat_text(properties.len()) + seq![COLON, OPEN_BRACE],
        ),
        has_at(
            s,
            pos + 5 + ser::spec_sized(class_name).len() + nat_text(properties.len()).len(),
            ser::spec_properties(class_name, properties),
        ),
        has_at(
            s,
            pos + 5 + ser::spec_sized(class_name).len() + nat_text(properties.len()).len()
                + ser::spec_properties(class_name, properties).len(),
            seq![CLOSE_BRACE],
        ),
    ensures
        has_at(s, pos, ser::spec_serialize(ValueView::Object { class_name, properties })),
        ser::spec_serialize(ValueView::Object { class_name, properties }).len() == 6 + ser::spec_sized(
            class_name,
        ).len() + nat_text(properties.len()).len() + ser::spec_properties(class_name, properties).len(),
{
    lemma_has_at_six(
        s,
        pos,
        seq![UPPER_O, COLON],
        ser::spec_sized(class_name),
        seq![COLON],
        nat_text(properties.len()) + seq![COLON, OPEN_BRACE],
        ser::spec_properties(class_name, properties),
        seq![CLOSE_BRACE],
    );
    assert(ser::spec_serialize(ValueView::Object { class_name, properties }) =~= seq![UPPER_O, COLON]
        + ser::spec_sized(class_name) + seq![COLON] + (nat_text(properties.len()) + seq![
        COLON,
        OPEN_BRACE,
    ]) + ser::spec_properties(class_name, properties) + seq![CLOSE_BRACE]);
}

/// An object whose parts are written as the encoder writes them stands as
/// the wire form of what the parts were read as.
proof fn lemma_object_parts_rewrite(
    s: Seq<u8>,
    pos: int,
    depth: nat,
    class_name: Seq<u8>,
    colon: int,
    count: usize,
    first: int,
    properties: Seq<ObjectPropertyView>,
    brace: int,
)
    requires
        grammar::spec_lead(s, pos, UPPER_O) is Ok,
        spec_sized_string(s, pos + 2) == Ok::<(Seq<u8>, int), ParseError>((class_name, colon)),
        spec_expect(s, colon, COLON) is Ok,
        grammar::spec_block_start(s, colon + 1) == Ok::<(usize, int), ParseError>((count, first)),
        grammar::spec_object_properties(s, first, count as nat, depth) == Ok::<
            (Seq<ObjectPropertyView>, int),
            ParseError,
        >((properties, brace)),
        spec_close(s, brace, CLOSE_BRACE) is Ok,
        shortest_digits_at(s, pos + 2),
        shortest_digits_at(s, colon + 1),
        canonical_properties(s, first, count as nat, depth, class_name),
    ensures
        has_at(s, pos, ser::spec_serialize(ValueView::Object { class_name, properties })),
        brace + 1 == pos + ser::spec_serialize(ValueView::Object { class_name, properties }).len(),
    decreases depth, count + 1, 0nat,
{
    lemma_lead_rewrite(s, pos, UPPER_O);
    lemma_sized_string_rewrite(s, pos + 2);
    lemma_expect_rewrite(s, colon, COLON);
    lemma_block_start_rewrite(s, colon + 1);
    assert(0 <= first <= s.len()) by {
        grammar::lemma_items_advance(s, colon + 1);
    }
    lemma_properties_rewrite(s, first, count as nat, depth, class_name);
    lemma_expect_rewrite(s, brace, CLOSE_BRACE);
    lemma_object_assemble(s, pos, class_name, properties);
}

/// An object that is written as the encoder writes it stands as the wire
/// form of what it was read as.
proof fn lemma_object_rewrite(s: Seq<u8>, pos: int, depth: nat)
    requires
        grammar::spec_value_object(s, pos, depth) is Ok,
        canonical_object(s, pos, depth),
    ensures
        ({
            let (v, end) = grammar::spec_value_object(s, pos, depth)->Ok_0;
            &&& has_at(s, pos, ser::spec_serialize(v))
            &&& end == pos + ser::spec_serialize(v).len()
        }),
    decreases depth, 0nat, 0nat,
{
    lemma_object_unfold(s, pos, depth);
    let (class_name, colon) = spec_sized_string(s, pos + 2)->Ok_0;
    let (count, first) = grammar::spec_block_start(s, colon + 1)->Ok_0;
    let (properties, brace) = grammar::spec_object_properties(s, first, count as nat, (depth - 1) as nat)->Ok_0;
    lemma_object_parts_rewrite(
        s,
        pos,
        (depth - 1) as nat,
        class_name,
        colon,
        count,
        first,
        properties,
        brace,
    );
}

/// An array entry that is written as the encoder writes it stands as the
/// wire form of what it was read as.
proof fn lemma_pair_rewrite(s: Seq<u8>, pos: int, depth: nat)
    requires
        grammar::spec_array_pair(s, pos, depth) is Ok,
        canonical_pair(s, pos, depth),
    ensures
        ({
            let (entry, end) = grammar::spec_array_pair(s, pos, depth)->Ok_0;
            &&& has_at(s, pos, ser::spec_array_entry(entry))
            &&& end == pos + ser::spec_array_entry(entry).len()
        }),
    decreases depth, 0nat, 2nat,
{
    let (key, value_start) = grammar::spec_array_key(s, pos)->Ok_0;
    let (value, _) = grammar::spec_any_value(s, value_start, depth)->Ok_0;
    lemma_key_rewrite(s, pos);
    lemma_value_rewrite(s, value_start, depth);
    lemma_has_at_concat(s, pos, ser::spec_array_key(key), ser::spec_serialize(value));
}

/// Array entries that are written as the encoder writes them stand as the
/// wire form of what they were read as.
proof fn lemma_pairs_rewrite(s: Seq<u8>, pos: int, count: nat, depth: nat)
    requires
        0 <= pos <= s.len(),
        grammar::spec_array_pairs(s, pos, count, depth) is Ok,
        canonical_pairs(s, pos, count, depth),
    ensures
        ({
            let (entries, end) = grammar::spec_array_pairs(s, pos, count, depth)->Ok_0;
            &&& entries.len() == count
            &&& has_at(s, pos, ser::spec_array_entries(entries))
            &&& end == pos + ser::spec_array_entries(entries).len()
        }),
    decreases depth, count, 3nat,
{
    let (entries, end) = grammar::spec_array_pairs(s, pos, count, depth)->Ok_0;
    if count == 0 {
        assert(s.subrange(pos, pos) =~= Seq::<u8>::empty());
    } else {
        let (entry, next) = grammar::spec_array_pair(s, pos, depth)->Ok_0;
        let (others, _) = grammar::spec_array_pairs(s, next, (count - 1) as nat, depth)->Ok_0;
        lemma_pair_rewrite(s, pos, depth);
        lemma_pairs_rewrite(s, next, (count - 1) as nat, depth);
        assert(entries == seq![entry] + others);
        lemma_array_entries_first(entries);
        assert(entries.skip(1) =~= others);
        lemma_has_at_concat(s, pos, ser::spec_array_entry(entry), ser::spec_array_entries(others));
    }
}

/// What a property is read from, part by part.
proof fn lemma_property_unfold(s: Seq<u8>, pos: int, depth: nat)
    requires
        grammar::spec_object_property(s, pos, depth) is Ok,
    ensures
        ({
            let (property, end) = grammar::spec_object_property(s, pos, depth)->Ok_0;
            &&& grammar::spec_string(s, pos) matches Ok((mangled, value_start)) && {
                &&& grammar::spec_object_property_name(s, pos) is Ok
                &&& grammar::spec_object_property_name(s, pos)->Ok_0.1 == value_start
                &&& grammar::spec_any_value(s, value_start, depth) matches Ok((value, next)) && {
                    &&& property.visibility == grammar::spec_visibility(mangled).0
                    &&& property.name == grammar::spec_visibility(mangled).1
                    &&& property.value == value
                    &&& end == next
                }
            }
        }),
{
}

/// The name and the value of a property, where they stand one behind the
/// other, stand there as the wire form of the property.
proof fn lemma_property_assemble(
    s: Seq<u8>,
    pos: int,
    class_name: Seq<u8>,
    property: ObjectPropertyView,
    mangled: Seq<u8>,
)
    requires
        ser::spec_mangled_name(property.visibility, class_name, property.name) == mangled,
        has_at(s, pos, seq![LOWER_S, COLON] + ser::spec_sized(mangled) + seq![SEMICOLON]),
        has_at(
            s,
            pos + (seq![LOWER_S, COLON] + ser::spec_sized(mangled) + seq![SEMICOLON]).len(),
            ser::spec_serialize(property.value),
        ),
    ensures
        has_at(s, pos, ser::spec_property(class_name, property)),
        ser::spec_property(class_name, property).len() == (seq![LOWER_S, COLON] + ser::spec_sized(mangled)
            + seq![SEMICOLON]).len() + ser::spec_serialize(property.value).len(),
{
    lemma_has_at_concat(
        s,
        pos,
        seq![LOWER_S, COLON] + ser::spec_sized(mangled) + seq![SEMICOLON],
        ser::spec_serialize(property.value),
    );
}

/// A property that is written as the encoder writes it stands as the wire
/// form of what it was read as.
#[verifier::rlimit(40)]
proof fn lemma_property_rewrite(s: Seq<u8>, pos: int, depth: nat, class_name: Seq<u8>)
    requires
        grammar::spec_object_property(s, pos, depth) is Ok,
        canonical_property(s, pos, depth, class_name),
    ensures
        ({
            let (property, end) = grammar::spec_object_property(s, pos, depth)->Ok_0;
            &&& has_at(s, pos, ser::spec_property(class_name, property))
            &&& end == pos + ser::spec_property(class_name, property).len()
        }),
    decreases depth, 0nat, 2nat,
{
    lemma_property_unfold(s, pos, depth);
    let (property, _) = grammar::spec_object_property(s, pos, depth)->Ok_0;
    let (mangled, value_start) = grammar::spec_string(s, pos)->Ok_0;
    assert(canonical_property_name(s, pos, class_name));
    assert(canonical_value(s, value_start, depth));
    lemma_string_rewrite(s, pos);
    lemma_value_rewrite(s, value_start, depth);
    lemma_property_assemble(s, pos, class_name, property, mangled);
}

/// Properties that are written as the encoder writes them stand as the wire
/// form of what they were read as.
proof fn lemma_properties_rewrite(s: Seq<u8>, pos: int, count: nat, depth: nat, class_name: Seq<u8>)
    requires
        0 <= pos <= s.len(),
        grammar::spec_object_properties(s, pos, count, depth) is Ok,
        canonical_properties(s, pos, count, depth, class_name),
    ensures
        ({
            let (properties, end) = grammar::spec_object_properties(s, pos, count, depth)->Ok_0;
            &&& properties.len() == count
            &&& has_at(s, pos, ser::spec_properties(class_name, properties))
            &&& end == pos + ser::spec_properties(class_name, properties).len()
        }),
    decreases depth, count, 3nat,
{
    let (properties, end) = grammar::spec_object_properties(s, pos, count, depth)->Ok_0;
    if count == 0 {
        assert(s.subrange(pos, pos) =~= Seq::<u8>::empty());
    } else {
        let (property, next) = grammar::spec_object_property(s, pos, depth)->Ok_0;
        let (others, _) = grammar::spec_object_properties(s, next, (count - 1) as nat, depth)->Ok_0;
        lemma_property_rewrite(s, pos, depth, class_name);
        lemma_properties_rewrite(s, next, (count - 1) as nat, depth, class_name);
        assert(properties == seq![property] + others);
        lemma_properties_first(class_name, properties);
        assert(properties.skip(1) =~= others);
        lemma_has_at_concat(
            s,
            pos,
            ser::spec_property(class_name, property),
            ser::spec_properties(class_name, others),
        );
    }
}

/// What a non-empty run of session entries is read from, part by part.
proof fn lemma_session_unfold(s: Seq<u8>, pos: int, depth: nat)
    requires
        grammar::spec_session_entries(s, pos, depth) is Ok,
        0 <= pos < s.len(),
    ensures
        ({
            let (entries, end) = grammar::spec_session_entries(s, pos, depth)->Ok_0;
            let bar = grammar::spec_find(s, pos, PIPE);
            &&& pos <= bar < s.len()
            &&& s[bar] == PIPE
            &&& grammar::spec_any_value(s, bar + 1, depth) matches Ok((value, next)) && {
                &&& bar + 1 < next <= s.len()
                &&& grammar::spec_session_entries(s, next, depth) matches Ok((others, others_end)) && {
                    &&& entries == seq![SessionEntryView { key: s.subrange(pos, bar), value }] + others
                    &&& end == others_end
                }
            }
        }),
{
    grammar::lemma_find(s, pos, PIPE);
    grammar::lemma_session_entry_advances(s, pos, depth);
    assert(grammar::spec_session_entry(s, pos, depth) is Ok);
    grammar::lemma_any_value_advances(s, grammar::spec_find(s, pos, PIPE) + 1, depth);
}

/// A session entry and the entries behind it, where they stand one behind
/// the other, stand there as the wire form of them all.
proof fn lemma_session_assemble(
    s: Seq<u8>,
    pos: int,
    bar: int,
    value: ValueView,
    others: Seq<SessionEntryView>,
)
    requires
        0 <= pos <= bar < s.len(),
        s[bar] == PIPE,
        has_at(s, bar + 1, ser::spec_serialize(value)),
        has_at(s, bar + 1 + ser::spec_serialize(value).len(), ser::spec_session_encode(others)),
    ensures
        ({
            let entries = seq![SessionEntryView { key: s.subrange(pos, bar), value }] + others;
            &&& has_at(s, pos, ser::spec_session_encode(entries))
            &&& ser::spec_session_encode(entries).len() == bar - pos + 1 + ser::spec_serialize(value).len()
                + ser::spec_session_encode(others).len()
        }),
{
    let key = s.subrange(pos, bar);
    let entries = seq![SessionEntryView { key, value }] + others;
    lemma_has_at_subrange(s, pos, bar);
    assert(s.subrange(bar, bar + 1) =~= seq![PIPE]);
    lemma_session_first(entries);
    assert(entries.skip(1) =~= others);
    lemma_has_at_concat(s, pos, key, seq![PIPE]);
    lemma_has_at_concat(s, pos, key + seq![PIPE], ser::spec_serialize(value));
    lemma_has_at_concat(s, pos, ser::spec_session_entry(entries[0]), ser::spec_session_encode(others));
}

/// Session entries that are written as the encoder writes them stand as the
/// wire form of what they were read as, up to the end of the input.
pub proof fn lemma_session_rewrite(s: Seq<u8>, pos: int, depth: nat)
    requires
        0 <= pos <= s.len(),
        grammar::spec_session_entries(s, pos, depth) is Ok,
        canonical_session(s, pos, depth),
    ensures
        ({
            let (entries, end) = grammar::spec_session_entries(s, pos, depth)->Ok_0;
            &&& has_at(s, pos, ser::spec_session_encode(entries))
            &&& pos + ser::spec_session_encode(entries).len() == s.len()
        }),
    decreases s.len() - pos,
{
    if pos >= s.len() {
        assert(s.subrange(pos, pos) =~= Seq::<u8>::empty());
    } else {
        lemma_session_unfold(s, pos, depth);
        let bar = grammar::spec_find(s, pos, PIPE);
        let (value, next) = grammar::spec_any_value(s, bar + 1, depth)->Ok_0;
        let (others, _) = grammar::spec_session_entries(s, next, depth)->Ok_0;
        assert(canonical_value(s, bar + 1, depth) && canonical_session(s, next, depth)) by {
            assert(grammar::spec_session_key(s, pos) is Ok);
        }
        lemma_value_rewrite(s, bar + 1, depth);
        lemma_session_rewrite(s, next, depth);
        lemma_session_assemble(s, pos, bar, value, others);
    }
}

/// Encoding what a canonical input was decoded to gives the input back.
///
/// This holds of every input that the decoder accepts as one value and in
/// which numbers, lengths and the names of private properties are written
/// as the encoder writes them; `canonical_value` says so exactly.
pub proof fn lemma_serialize_inverts_unserialize(bytes: Seq<u8>, depth: nat)
    requires
        grammar::spec_unserialize(bytes, depth) is Ok,
        canonical_value(bytes, 0, depth),
    ensures
        ser::spec_serialize(grammar::spec_unserialize(bytes, depth)->Ok_0) == bytes,
{
    let v = grammar::spec_unserialize(bytes, depth)->Ok_0;
    lemma_value_rewrite(bytes, 0, depth);
    assert(bytes.subrange(0, bytes.len() as int) =~= bytes);
}

/// Encoding what a canonical input was decoded to, as a session, gives the
/// input back.
pub proof fn lemma_session_encode_inverts_decode(bytes: Seq<u8>, depth: nat)
    requires
        grammar::spec_session_decode(bytes, depth) is Ok,
        canonical_session(bytes, 0, depth),
    ensures
        ser::spec_session_encode(grammar::spec_session_decode(bytes, depth)->Ok_0) == bytes,
{
    lemma_session_rewrite(bytes, 0, depth);
    assert(bytes.subrange(0, bytes.len() as int) =~= bytes);
}

/// The text of a number, where it stands with no digit behind it, is there
/// in shortest digits.
proof fn lemma_text_is_shortest(s: Seq<u8>, pos: int, n: nat)
    requires
        has_at(s, pos, nat_text(n)),
        no_digit_at(s, pos + nat_text(n).len()),
    ensures
        shortest_digits_at(s, pos),
{
    lemma_nat_text_digits(n);
    lemma_digits_read(s, pos, nat_text(n));
}

/// The text of a signed number, where it stands with no digit behind it, is
/// there as a plain integer.
proof fn lemma_text_is_plain(s: Seq<u8>, pos: int, n: i64)
    requires
        has_at(s, pos, int_text(n as int)),
        no_digit_at(s, pos + int_text(n as int).len()),
    ensures
        plain_integer_at(s, pos),
{
    if n < 0 {
        let digits = nat_text((-n) as nat);
        lemma_nat_text_digits((-n) as nat);
        lemma_has_at_concat(s, pos, seq![MINUS], digits);
        lemma_has_at_byte(s, pos, seq![MINUS], 0);
        lemma_has_at_byte(s, pos + 1, digits, 0);
        lemma_text_is_shortest(s, pos + 1, (-n) as nat);
        if digits[0] == ZERO {
            assert(digits =~= seq![ZERO]);
        }
    } else {
        lemma_nat_text_digits(n as nat);
        lemma_has_at_byte(s, pos, nat_text(n as nat), 0);
        lemma_text_is_shortest(s, pos, n as nat);
    }
}

/// A length-prefixed string, where the encoder wrote it, has its length in
/// shortest digits.
proof fn lemma_sized_is_shortest(s: Seq<u8>, pos: int, payload: Seq<u8>)
    requires
        has_at(s, pos, ser::spec_sized(payload)),
    ensures
        shortest_digits_at(s, pos),
{
    let count = nat_text(payload.len());
    assert(ser::spec_sized(payload) =~= count + (seq![COLON, QUOTE] + payload + seq![QUOTE]));
    lemma_has_at_concat(s, pos, count, seq![COLON, QUOTE] + payload + seq![QUOTE]);
    lemma_has_at_byte(s, pos + count.len(), seq![COLON, QUOTE] + payload + seq![QUOTE], 0);
    lemma_text_is_shortest(s, pos, payload.len());
}

/// What opens a counted block, where the encoder wrote it, has its count in
/// shortest digits.
proof fn lemma_block_start_is_shortest(s: Seq<u8>, pos: int, count: nat)
    requires
        has_at(s, pos, nat_text(count) + seq![COLON, OPEN_BRACE]),
    ensures
        shortest_digits_at(s, pos),
{
    lemma_has_at_concat(s, pos, nat_text(count), seq![COLON, OPEN_BRACE]);
    lemma_has_at_byte(s, pos + nat_text(count).len(), seq![COLON, OPEN_BRACE], 0);
    lemma_text_is_shortest(s, pos, count);
}

/// An array key that the encoder wrote is canonical.
proof fn lemma_written_key_is_canonical(s: Seq<u8>, pos: int, key: ArrayKeyView)
    requires
        has_at(s, pos, ser::spec_array_key(key)),
    ensures
        canonical_key(s, pos),
{
    match key {
        ArrayKeyView::Integer(n) => {
            lemma_item_parts(s, pos, LOWER_I, int_text(n as int));
            lemma_has_at_byte(s, pos, seq![LOWER_I, COLON], 0);
            lemma_text_is_plain(s, pos + 2, n);
        },
        ArrayKeyView::String(bytes) => {
            lemma_item_parts(s, pos, LOWER_S, ser::spec_sized(bytes));
            lemma_has_at_byte(s, pos, seq![LOWER_S, COLON], 0);
            lemma_sized_is_shortest(s, pos + 2, bytes);
        },
    }
}

/// A value that is neither an array nor an object, where the encoder wrote
/// it, is canonical.
proof fn lemma_written_scalar_is_canonical(s: Seq<u8>, pos: int, v: ValueView, depth: nat)
    requires
        has_at(s, pos, ser::spec_serialize(v)),
        v.unambiguous(),
        !(v is Array),
        !(v is Object),
    ensures
        canonical_value(s, pos, depth),
{
    lemma_has_at_byte(s, pos, ser::spec_serialize(v), 0);
    match v {
        ValueView::Integer(n) => {
            lemma_item_parts(s, pos, LOWER_I, int_text(n as int));
            lemma_text_is_plain(s, pos + 2, n);
        },
        ValueView::String(bytes) => {
            lemma_item_parts(s, pos, LOWER_S, ser::spec_sized(bytes));
            lemma_sized_is_shortest(s, pos + 2, bytes);
        },
        ValueView::ValueReference(index) => {
            lemma_item_parts(s, pos, UPPER_R, nat_text(index as nat));
            lemma_text_is_shortest(s, pos + 2, index as nat);
        },
        ValueView::ObjectReference(index) => {
            lemma_item_parts(s, pos, LOWER_R, nat_text(index as nat));
            lemma_text_is_shortest(s, pos + 2, index as nat);
        },
        ValueView::CustomObject { class_name, data } => {
            lemma_custom_object_parts(s, pos, class_name, data);
            lemma_sized_is_shortest(s, pos + 2, class_name);
            lemma_sized_string_read(s, pos + 2, class_name);
            lemma_block_start_is_shortest(s, pos + 3 + ser::spec_sized(class_name).len(), data.len());
        },
        _ => {},
    }
}

/// A value that the encoder wrote is canonical where it stands.
pub proof fn lemma_written_value_is_canonical(s: Seq<u8>, pos: int, v: ValueView, depth: nat)
    requires
        has_at(s, pos, ser::spec_serialize(v)),
        v.unambiguous(),
        v.nests_within(depth),
    ensures
        canonical_value(s, pos, depth),
    decreases v, 4nat,
{
    match v {
        ValueView::Array(entries) => {
            lemma_written_array_is_canonical(s, pos, entries, depth);
        },
        ValueView::Object { class_name, properties } => {
            lemma_written_object_is_canonical(s, pos, class_name, properties, depth);
        },
        _ => {
            lemma_written_scalar_is_canonical(s, pos, v, depth);
        },
    }
}

/// An array is canonical when its count is in shortest digits and its
/// entries are canonical.
proof fn lemma_canonical_array_from_parts(s: Seq<u8>, pos: int, depth: nat, count: usize, first: int)
    requires
        depth >= 1,
        shortest_digits_at(s, pos + 2),
        grammar::spec_block_start(s, pos + 2) == Ok::<(usize, int), ParseError>((count, first)),
        canonical_pairs(s, first, count as nat, (depth - 1) as nat),
    ensures
        canonical_array(s, pos, depth),
{
}

/// An array whose parts the encoder wrote is canonical where it stands.
#[verifier::rlimit(40)]
proof fn lemma_written_array_parts_are_canonical(
    s: Seq<u8>,
    pos: int,
    entries: Seq<ArrayEntryView>,
    depth: nat,
)
    requires
        depth >= 1,
        entries.len() <= usize::MAX,
        has_at(s, pos, seq![LOWER_A, COLON]),
        has_at(s, pos + 2, nat_text(entries.len()) + seq![COLON, OPEN_BRACE]),
        has_at(s, pos + 4 + nat_text(entries.len()).len(), ser::spec_array_entries(entries)),
        forall|i: int|
            0 <= i < entries.len() ==> (#[trigger] entries[i]).key.unambiguous()
                && entries[i].value.unambiguous() && entries[i].value.nests_within((depth - 1) as nat),
    ensures
        canonical_array(s, pos, depth),
        byte_at(s, pos) == Some(LOWER_A),
    decreases entries, 2nat,
{
    let first = pos + 4 + nat_text(entries.len()).len();
    lemma_has_at_byte(s, pos, seq![LOWER_A, COLON], 0);
    lemma_block_start_is_shortest(s, pos + 2, entries.len());
    lemma_block_start_read(s, pos + 2, entries.len());
    lemma_written_entries_are_canonical(s, first, entries, (depth - 1) as nat);
    lemma_canonical_array_from_parts(s, pos, depth, entries.len() as usize, first);
}

/// An array that the encoder wrote is canonical where it stands.
proof fn lemma_written_array_is_canonical(s: Seq<u8>, pos: int, entries: Seq<ArrayEntryView>, depth: nat)
    requires
        has_at(s, pos, ser::spec_serialize(ValueView::Array(entries))),
        ValueView::Array(entries).unambiguous(),
        ValueView::Array(entries).nests_within(depth),
    ensures
        canonical_array(s, pos, depth),
        byte_at(s, pos) == Some(LOWER_A),
    decreases entries, 3nat,
{
    lemma_array_parts(s, pos, entries);
    lemma_written_array_parts_are_canonical(s, pos, entries, depth);
}

/// An object that the encoder wrote is canonical where it stands.
#[verifier::rlimit(40)]
proof fn lemma_written_object_is_canonical(
    s: Seq<u8>,
    pos: int,
    class_name: Seq<u8>,
    properties: Seq<ObjectPropertyView>,
    depth: nat,
)
    requires
        has_at(s, pos, ser::spec_serialize(ValueView::Object { class_name, properties })),
        (ValueView::Object { class_name, properties }).unambiguous(),
        (ValueView::Object { class_name, properties }).nests_within(depth),
    ensures
        canonical_object(s, pos, depth),
        byte_at(s, pos) == Some(UPPER_O),
    decreases properties, 2nat,
{
    let block = pos + 3 + ser::spec_sized(class_name).len();
    let first = block + 2 + nat_text(properties.len()).len();
    lemma_object_parts(s, pos, class_name, properties);
    lemma_has_at_byte(s, pos, seq![UPPER_O, COLON], 0);
    lemma_sized_is_shortest(s, pos + 2, class_name);
    lemma_sized_string_read(s, pos + 2, class_name);
    lemma_block_start_is_shortest(s, block, properties.len());
    lemma_block_start_read(s, block, properties.len());
    lemma_written_properties_are_canonical(s, first, class_name, properties, (depth - 1) as nat);
}

/// An array entry that the encoder wrote is canonical where it stands.
proof fn lemma_written_entry_is_canonical(s: Seq<u8>, pos: int, entry: ArrayEntryView, depth: nat)
    requires
        has_at(s, pos, ser::spec_array_entry(entry)),
        entry.key.unambiguous(),
        entry.value.unambiguous(),
        entry.value.nests_within(depth),
    ensures
        canonical_pair(s, pos, depth),
    decreases entry, 0nat,
{
    lemma_has_at_concat(s, pos, ser::spec_array_key(entry.key), ser::spec_serialize(entry.value));
    lemma_written_key_is_canonical(s, pos, entry.key);
    lemma_array_key_reads_back(s, pos, entry.key);
    lemma_written_value_is_canonical(s, pos + ser::spec_array_key(entry.key).len(), entry.value, depth);
}

/// Array entries that the encoder wrote are canonical where they stand.
proof fn lemma_written_entries_are_canonical(
    s: Seq<u8>,
    pos: int,
    entries: Seq<ArrayEntryView>,
    depth: nat,
)
    requires
        has_at(s, pos, ser::spec_array_entries(entries)),
        forall|i: int|
            0 <= i < entries.len() ==> (#[trigger] entries[i]).key.unambiguous()
                && entries[i].value.unambiguous() && entries[i].value.nests_within(depth),
    ensures
        canonical_pairs(s, pos, entries.len(), depth),
    decreases entries, 1nat,
{
    if entries.len() > 0 {
        let entry = entries[0];
        let others = entries.skip(1);
        let next = pos + ser::spec_array_entry(entry).len();
        lemma_array_entries_first(entries);
        lemma_has_at_concat(s, pos, ser::spec_array_entry(entry), ser::spec_array_entries(others));
        lemma_written_entry_is_canonical(s, pos, entry, depth);
        lemma_entry_reads_back(s, pos, entry, depth);
        assert forall|i: int| 0 <= i < others.len() implies (#[trigger] others[i]).key.unambiguous()
            && others[i].value.unambiguous() && others[i].value.nests_within(depth) by {
            assert(others[i] == entries[i + 1]);
        }
        lemma_written_entries_are_canonical(s, next, others, depth);
        assert(others.len() == entries.len() - 1);
        assert(canonical_pairs(s, next, (entries.len() - 1) as nat, depth));
    }
}

/// The name of a property that the encoder wrote is canonical.
proof fn lemma_written_name_is_canonical(
    s: Seq<u8>,
    pos: int,
    class_name: Seq<u8>,
    property: ObjectPropertyView,
)
    requires
        has_at(s, pos, ser::spec_property(class_name, property)),
        property.unambiguous(class_name),
    ensures
        canonical_property_name(s, pos, class_name),
{
    let mangled = ser::spec_mangled_name(property.visibility, class_name, property.name);
    lemma_property_parts(s, pos, class_name, property);
    lemma_item_parts(s, pos, LOWER_S, ser::spec_sized(mangled));
    lemma_sized_is_shortest(s, pos + 2, mangled);
    lemma_string_reads_back(s, pos, mangled);
    lemma_visibility_of_mangled(property, class_name);
}

/// A property that the encoder wrote is canonical where it stands.
proof fn lemma_written_property_is_canonical(
    s: Seq<u8>,
    pos: int,
    class_name: Seq<u8>,
    property: ObjectPropertyView,
    depth: nat,
)
    requires
        has_at(s, pos, ser::spec_property(class_name, property)),
        property.unambiguous(class_name),
        property.value.nests_within(depth),
    ensures
        canonical_property(s, pos, depth, class_name),
    decreases property, 0nat,
{
    let mangled = ser::spec_mangled_name(property.visibility, class_name, property.name);
    lemma_written_name_is_canonical(s, pos, class_name, property);
    lemma_property_parts(s, pos, class_name, property);
    lemma_string_reads_back(s, pos, mangled);
    lemma_written_value_is_canonical(s, pos + ser::spec_sized(mangled).len() + 3, property.value, depth);
}

/// Properties that the encoder wrote are canonical where they stand.
proof fn lemma_written_properties_are_canonical(
    s: Seq<u8>,
    pos: int,
    class_name: Seq<u8>,
    properties: Seq<ObjectPropertyView>,
    depth: nat,
)
    requires
        has_at(s, pos, ser::spec_properties(class_name, properties)),
        forall|i: int|
            0 <= i < properties.len() ==> (#[trigger] properties[i]).unambiguous(class_name)
                && properties[i].value.nests_within(depth),
    ensures
        canonical_properties(s, pos, properties.len(), depth, class_name),
    decreases properties, 1nat,
{
    if properties.len() > 0 {
        let property = properties[0];
        let others = properties.skip(1);
        let next = pos + ser::spec_property(class_name, property).len();
        lemma_properties_first(class_name, properties);
        lemma_has_at_concat(
            s,
            pos,
            ser::spec_property(class_name, property),
            ser::spec_properties(class_name, others),
        );
        lemma_written_property_is_canonical(s, pos, class_name, property, depth);
        lemma_property_reads_back(s, pos, class_name, property, depth);
        assert forall|i: int| 0 <= i < others.len() implies (#[trigger] others[i]).unambiguous(class_name)
            && others[i].value.nests_within(depth) by {
            assert(others[i] == properties[i + 1]);
        }
        lemma_written_properties_are_canonical(s, next, class_name, others, depth);
        assert(others.len() == properties.len() - 1);
        assert(canonical_properties(s, next, (properties.len() - 1) as nat, depth, class_name));
    }
}

/// A session that the encoder wrote is canonical where it stands at the end
/// of an input.
pub proof fn lemma_written_session_is_canonical(
    s: Seq<u8>,
    pos: int,
    entries: Seq<SessionEntryView>,
    depth: nat,
)
    requires
        has_at(s, pos, ser::spec_session_encode(entries)),
        pos + ser::spec_session_encode(entries).len() == s.len(),
        forall|i: int|
            0 <= i < entries.len() ==> (#[trigger] entries[i]).unambiguous() && entries[i].value.nests_within(
                depth,
            ),
    ensures
        canonical_session(s, pos, depth),
    decreases entries.len(),
{
    if entries.len() > 0 {
        let entry = entries[0];
        let others = entries.skip(1);
        let bar = pos + entry.key.len();
        let next = pos + ser::spec_session_entry(entry).len();
        lemma_session_first(entries);
        lemma_has_at_concat(s, pos, ser::spec_session_entry(entry), ser::spec_session_encode(others));
        lemma_session_entry_reads_back(s, pos, entry, depth);
        lemma_has_at_concat(s, pos, entry.key + seq![PIPE], ser::spec_serialize(entry.value));
        lemma_written_value_is_canonical(s, bar + 1, entry.value, depth);
        assert forall|i: int| 0 <= i < others.len() implies (#[trigger] others[i]).unambiguous()
            && others[i].value.nests_within(depth) by {
            assert(others[i] == entries[i + 1]);
        }
        lemma_written_session_is_canonical(s, next, others, depth);
        assert(grammar::spec_any_value(s, bar + 1, depth) == Ok::<(ValueView, int), ParseError>(
            (entry.value, next),
        ));
    }
}

/// What the encoder writes for an unambiguous value is canonical.
pub proof fn lemma_serialize_is_canonical(v: ValueView, depth: nat)
    requires
        v.unambiguous(),
        v.nests_within(depth),
    ensures
        canonical_value(ser::spec_serialize(v), 0, depth),
{
    let bytes = ser::spec_serialize(v);
    assert(bytes.subrange(0, bytes.len() as int) =~= bytes);
    lemma_written_value_is_canonical(bytes, 0, v, depth);
}

/// What the encoder writes for a session of unambiguous entries is
/// canonical.
pub proof fn lemma_session_encode_is_canonical(entries: Seq<SessionEntryView>, depth: nat)
    requires
        forall|i: int|
            0 <= i < entries.len() ==> (#[trigger] entries[i]).unambiguous() && entries[i].value.nests_within(
                depth,
            ),
    ensures
        canonical_session(ser::spec_session_encode(entries), 0, depth),
{
    let bytes = ser::spec_session_encode(entries);
    assert(bytes.subrange(0, bytes.len() as int) =~= bytes);
    lemma_written_session_is_canonical(bytes, 0, entries, depth);
}

} // verus!
