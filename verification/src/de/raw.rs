//! The primitive tokens of the wire format: digit runs, signed numbers, float
//! literals, sizes and length-prefixed strings.
//!
//! Every reader takes the whole input and the offset at which its token must
//! start, and returns what it read together with the offset just behind it.
//! The `spec_*` function of the same name says what a reader returns, for
//! every input and every offset.

use vstd::prelude::*;
use vstd::slice::slice_subrange;

use crate::ascii::{COLON, DOT, MINUS, NINE, QUOTE, ZERO};
use crate::error::{ParseError, ParseErrorKind};
use crate::text::{all_digits, digits_value, is_digit, lemma_digits_value_prefix, lemma_digits_value_push};

verus! {

/// What a reader yields in specifications: the value read and the offset
/// behind it, or the failure.
pub type Parsed<T> = Result<(T, int), ParseError>;

/// Whether the executable result `r` is what the grammar prescribes.
pub open spec fn yields<T: View>(r: Result<(T, usize), ParseError>, expected: Parsed<T::V>) -> bool {
    match r {
        Ok((value, end)) => expected == Ok::<(T::V, int), ParseError>((value@, end as int)),
        Err(e) => expected == Err::<(T::V, int), ParseError>(e),
    }
}

/// The byte at `pos`, if the input reaches that far.
pub open spec fn byte_at(s: Seq<u8>, pos: int) -> Option<u8> {
    if 0 <= pos < s.len() {
        Some(s[pos])
    } else {
        None
    }
}

/// The failure to report when the byte at `pos` is not an acceptable one:
/// a syntax error if there is a byte, incomplete input if there is none.
pub open spec fn unexpected(s: Seq<u8>, pos: int) -> ParseError {
    if 0 <= pos < s.len() {
        ParseError::at(ParseErrorKind::Syntax, pos)
    } else {
        ParseError::at(ParseErrorKind::Incomplete, pos)
    }
}

/// Reads the one byte `b`: the offset behind it, or the failure.
pub open spec fn spec_expect(s: Seq<u8>, pos: int, b: u8) -> Result<int, ParseError> {
    if byte_at(s, pos) == Some(b) {
        Ok(pos + 1)
    } else {
        Err(unexpected(s, pos))
    }
}

/// Reads the byte `b` that must close a sized or counted block. Another byte
/// in its place means that the declared length was wrong.
pub open spec fn spec_close(s: Seq<u8>, pos: int, b: u8) -> Result<int, ParseError> {
    if byte_at(s, pos) == Some(b) {
        Ok(pos + 1)
    } else if 0 <= pos < s.len() {
        Err(ParseError::at(ParseErrorKind::LengthMismatch, pos))
    } else {
        Err(ParseError::at(ParseErrorKind::Incomplete, pos))
    }
}

/// The offset of the first byte at or after `pos` that is not a digit; the
/// length of the input if only digits follow.
pub open spec fn spec_digits_end(s: Seq<u8>, pos: int) -> int
    decreases s.len() - pos,
{
    if 0 <= pos < s.len() && is_digit(s[pos]) {
        spec_digits_end(s, pos + 1)
    } else {
        pos
    }
}

/// One or more digits.
pub open spec fn spec_unsigned_integer(s: Seq<u8>, pos: int) -> Parsed<Seq<u8>> {
    let end = spec_digits_end(s, pos);
    if end > pos {
        Ok((s.subrange(pos, end), end))
    } else {
        Err(unexpected(s, pos))
    }
}

/// An optional minus sign, then one or more digits.
pub open spec fn spec_signed_integer(s: Seq<u8>, pos: int) -> Parsed<Seq<u8>> {
    if byte_at(s, pos) == Some(MINUS) {
        match spec_unsigned_integer(s, pos + 1) {
            Ok((_, end)) => Ok((s.subrange(pos, end), end)),
            Err(e) => Err(e),
        }
    } else {
        spec_unsigned_integer(s, pos)
    }
}

/// A signed integer, then optionally a dot and one or more digits. A dot that
/// no digit follows is not part of the literal.
pub open spec fn spec_float(s: Seq<u8>, pos: int) -> Parsed<Seq<u8>> {
    match spec_signed_integer(s, pos) {
        Ok((_, dot)) => {
            let end = if byte_at(s, dot) == Some(DOT) && spec_digits_end(s, dot + 1) > dot + 1 {
                spec_digits_end(s, dot + 1)
            } else {
                dot
            };
            Ok((s.subrange(pos, end), end))
        },
        Err(e) => Err(e),
    }
}

/// Whether `t`, as a whole, is a float literal: an optional minus sign, digits,
/// and optionally a dot with digits behind it.
pub open spec fn is_float_literal(t: Seq<u8>) -> bool {
    let start: int = if byte_at(t, 0) == Some(MINUS) { 1 } else { 0 };
    let dot = spec_digits_end(t, start);
    &&& dot > start
    &&& (dot == t.len() || (t[dot] == DOT && dot + 1 < t.len() && spec_digits_end(t, dot + 1) == t.len()))
}

/// A run of digits read as a machine-word size; fails when it does not fit.
pub open spec fn spec_size(s: Seq<u8>, pos: int) -> Parsed<usize> {
    match spec_unsigned_integer(s, pos) {
        Ok((digits, end)) => if digits_value(digits) <= usize::MAX {
            Ok((digits_value(digits) as usize, end))
        } else {
            Err(ParseError::at(ParseErrorKind::OutOfRange, pos))
        },
        Err(e) => Err(e),
    }
}

/// A size, `:"`, exactly that many bytes, and `"`. The payload is taken by
/// count: a quote inside it does not end it.
pub open spec fn spec_sized_string(s: Seq<u8>, pos: int) -> Parsed<Seq<u8>> {
    match spec_size(s, pos) {
        Ok((n, colon)) => match spec_expect(s, colon, COLON) {
            Ok(quote) => match spec_expect(s, quote, QUOTE) {
                Ok(start) => if s.len() - start < n {
                    Err(ParseError::at(ParseErrorKind::LengthMismatch, start))
                } else {
                    match spec_close(s, start + n, QUOTE) {
                        Ok(end) => Ok((s.subrange(start, start + n), end)),
                        Err(e) => Err(e),
                    }
                },
                Err(e) => Err(e),
            },
            Err(e) => Err(e),
        },
        Err(e) => Err(e),
    }
}

/// Whether the bytes `t` stand in `s` at offset `pos`.
pub open spec fn has_at(s: Seq<u8>, pos: int, t: Seq<u8>) -> bool {
    0 <= pos && pos + t.len() <= s.len() && s.subrange(pos, pos + t.len()) == t
}

/// Whether the byte at `pos`, if there is one, is no digit.
pub open spec fn no_digit_at(s: Seq<u8>, pos: int) -> bool {
    byte_at(s, pos) matches Some(b) ==> !is_digit(b)
}

/// The digits from `pos` up to `spec_digits_end` are digits, and that end is
/// inside the input.
pub(crate) proof fn lemma_digits_end(s: Seq<u8>, pos: int)
    requires
        0 <= pos <= s.len(),
    ensures
        pos <= spec_digits_end(s, pos) <= s.len(),
        all_digits(s.subrange(pos, spec_digits_end(s, pos))),
        byte_at(s, spec_digits_end(s, pos)) matches Some(b) ==> !is_digit(b),
    decreases s.len() - pos,
{
    if pos < s.len() && is_digit(s[pos]) {
        lemma_digits_end(s, pos + 1);
        let end = spec_digits_end(s, pos);
        assert forall|i: int| 0 <= i < end - pos implies is_digit(#[trigger] s.subrange(pos, end)[i]) by {
            if i > 0 {
                assert(s.subrange(pos, end)[i] == s.subrange(pos + 1, end)[i - 1]);
            }
        }
    }
}

/// A digit run inside a part of the input ends where the run in the whole
/// input ends, or where the part ends, whichever comes first.
proof fn lemma_digits_end_in_subrange(s: Seq<u8>, from: int, to: int, k: int)
    requires
        0 <= from <= to <= s.len(),
        0 <= k <= to - from,
    ensures
        spec_digits_end(s.subrange(from, to), k) == if spec_digits_end(s, from + k) < to {
            spec_digits_end(s, from + k) - from
        } else {
            to - from
        },
    decreases to - from - k,
{
    let part = s.subrange(from, to);
    lemma_digits_end(s, from + k);
    if k < to - from {
        assert(part[k] == s[from + k]);
        if is_digit(part[k]) {
            lemma_digits_end_in_subrange(s, from, to, k + 1);
        }
    }
}

/// What `spec_float` reads is, taken by itself, a float literal.
pub proof fn lemma_float_is_literal(s: Seq<u8>, pos: int)
    requires
        0 <= pos,
    ensures
        spec_float(s, pos) matches Ok((text, end)) ==> is_float_literal(text),
{
    if let Ok((text, end)) = spec_float(s, pos) {
        let first: int = if byte_at(s, pos) == Some(MINUS) { pos + 1 } else { pos };
        let dot = spec_digits_end(s, first);
        lemma_digits_end(s, first);
        assert(pos < s.len());
        assert(first <= s.len());
        assert(dot > first);
        if end > dot {
            lemma_digits_end(s, dot + 1);
        }
        assert(text[0] == s[pos]);
        lemma_digits_end_in_subrange(s, pos, end, first - pos);
        if end > dot {
            assert(text[dot - pos] == s[dot]);
            lemma_digits_end_in_subrange(s, pos, end, dot + 1 - pos);
        }
    }
}

/// A token that was read starts inside the input and ends behind its start,
/// not behind the input.
pub(crate) proof fn lemma_tokens_advance(s: Seq<u8>, pos: int)
    ensures
        spec_unsigned_integer(s, pos) matches Ok((_, end)) ==> 0 <= pos < end <= s.len(),
        spec_signed_integer(s, pos) matches Ok((_, end)) ==> 0 <= pos < end <= s.len(),
        spec_float(s, pos) matches Ok((_, end)) ==> 0 <= pos < end <= s.len(),
        spec_size(s, pos) matches Ok((_, end)) ==> 0 <= pos < end <= s.len(),
        spec_sized_string(s, pos) matches Ok((_, end)) ==> 0 <= pos < end <= s.len(),
{
    if 0 <= pos <= s.len() {
        lemma_digits_end(s, pos);
        if pos < s.len() {
            lemma_digits_end(s, pos + 1);
        }
        if let Ok((_, dot)) = spec_signed_integer(s, pos) {
            if dot < s.len() {
                lemma_digits_end(s, dot + 1);
            }
        }
    }
}

/// Two runs of bytes stand one behind the other exactly when their
/// concatenation stands there.
pub(crate) proof fn lemma_has_at_concat(s: Seq<u8>, pos: int, a: Seq<u8>, b: Seq<u8>)
    ensures
        has_at(s, pos, a + b) <==> has_at(s, pos, a) && has_at(s, pos + a.len(), b),
{
    if has_at(s, pos, a + b) {
        let whole = s.subrange(pos, pos + (a + b).len());
        assert forall|i: int| 0 <= i < a.len() implies s.subrange(pos, pos + a.len())[i] == a[i] by {
            assert(whole[i] == (a + b)[i]);
        }
        assert(s.subrange(pos, pos + a.len()) =~= a);
        assert forall|i: int| 0 <= i < b.len() implies s.subrange(pos + a.len(), pos + a.len() + b.len())[i]
            == b[i] by {
            assert(whole[a.len() + i] == (a + b)[a.len() + i]);
        }
        assert(s.subrange(pos + a.len(), pos + a.len() + b.len()) =~= b);
    }
    if has_at(s, pos, a) && has_at(s, pos + a.len(), b) {
        let front = s.subrange(pos, pos + a.len());
        let back = s.subrange(pos + a.len(), pos + a.len() + b.len());
        assert forall|i: int| 0 <= i < (a + b).len() implies s.subrange(pos, pos + (a + b).len())[i] == (a
            + b)[i] by {
            if i < a.len() {
                assert(front[i] == a[i]);
            } else {
                assert(back[i - a.len()] == b[i - a.len()]);
            }
        }
        assert(s.subrange(pos, pos + (a + b).len()) =~= a + b);
    }
}

/// The bytes of a run that stands in `s` are bytes of `s`.
pub(crate) proof fn lemma_has_at_byte(s: Seq<u8>, pos: int, t: Seq<u8>, i: int)
    requires
        has_at(s, pos, t),
        0 <= i < t.len(),
    ensures
        byte_at(s, pos + i) == Some(t[i]),
{
    assert(s.subrange(pos, pos + t.len())[i] == t[i]);
}

/// The part of `s` between two offsets stands in `s` at the first.
pub(crate) proof fn lemma_has_at_subrange(s: Seq<u8>, from: int, to: int)
    requires
        0 <= from <= to <= s.len(),
    ensures
        has_at(s, from, s.subrange(from, to)),
{
}

/// A run of digits that stands in `s` with no digit behind it is read whole.
pub(crate) proof fn lemma_digits_read(s: Seq<u8>, pos: int, t: Seq<u8>)
    requires
        has_at(s, pos, t),
        all_digits(t),
        no_digit_at(s, pos + t.len()),
    ensures
        spec_digits_end(s, pos) == pos + t.len(),
    decreases t.len(),
{
    if t.len() > 0 {
        lemma_has_at_byte(s, pos, t, 0);
        assert(t =~= seq![t[0]] + t.skip(1));
        lemma_has_at_concat(s, pos, seq![t[0]], t.skip(1));
        assert forall|i: int| 0 <= i < t.skip(1).len() implies is_digit(#[trigger] t.skip(1)[i]) by {
            assert(t.skip(1)[i] == t[i + 1]);
        }
        lemma_digits_read(s, pos + 1, t.skip(1));
    }
}

/// A digit run ends at the first byte that is no digit.
proof fn lemma_digits_end_at(s: Seq<u8>, pos: int, end: int)
    requires
        0 <= pos <= end <= s.len(),
        spec_digits_end(s, pos) >= end,
        no_digit_at(s, end),
    ensures
        spec_digits_end(s, pos) == end,
{
    lemma_digits_end(s, pos);
    let found = spec_digits_end(s, pos);
    if found > end {
        assert(s.subrange(pos, found)[end - pos] == s[end]);
    }
}

/// A float literal that stands in `s` is read whole, unless a digit follows
/// it, or a dot, which might begin a fraction. It begins with a digit, or
/// with a minus sign and a digit.
pub(crate) proof fn lemma_float_read(s: Seq<u8>, pos: int, text: Seq<u8>)
    requires
        has_at(s, pos, text),
        is_float_literal(text),
        no_digit_at(s, pos + text.len()),
        byte_at(s, pos + text.len()) != Some(DOT),
    ensures
        spec_float(s, pos) == Ok::<(Seq<u8>, int), ParseError>((text, pos + text.len())),
        0 <= pos < s.len(),
        is_digit(s[pos]) || (s[pos] == MINUS && pos + 1 < s.len() && is_digit(s[pos + 1])),
{
    let to = pos + text.len();
    let start: int = if byte_at(text, 0) == Some(MINUS) { 1 } else { 0 };
    let dot = spec_digits_end(text, start);
    lemma_digits_end(text, start);
    lemma_has_at_byte(s, pos, text, 0);
    lemma_has_at_byte(s, pos, text, start);
    lemma_digits_end(s, pos + start);
    lemma_digits_end_in_subrange(s, pos, to, start);
    if dot == text.len() {
        lemma_digits_end_at(s, pos + start, to);
    } else {
        lemma_has_at_byte(s, pos, text, dot);
        lemma_digits_end_in_subrange(s, pos, to, dot + 1);
        lemma_digits_end(s, pos + dot + 1);
        lemma_digits_end_at(s, pos + dot + 1, to);
    }
    assert(is_digit(text[start]));
}

/// Whether `b` is one of the ASCII digits.
pub fn is_ascii_digit(b: u8) -> (r: bool)
    ensures
        r == is_digit(b),
{
    ZERO <= b && b <= NINE
}

/// The failure for a byte at `pos` that the grammar does not accept.
pub fn unexpected_at(input: &[u8], pos: usize) -> (e: ParseError)
    ensures
        e == unexpected(input@, pos as int),
{
    if pos < input.len() {
        ParseError::new(ParseErrorKind::Syntax, pos)
    } else {
        ParseError::new(ParseErrorKind::Incomplete, pos)
    }
}

/// Reads the byte `b` at `pos`.
pub fn expect(input: &[u8], pos: usize, b: u8) -> (r: Result<usize, ParseError>)
    ensures
        r == match spec_expect(input@, pos as int, b) {
            Ok(end) => Ok::<usize, ParseError>(end as usize),
            Err(e) => Err::<usize, ParseError>(e),
        },
        r matches Ok(end) ==> end == pos + 1 && end <= input@.len(),
{
    if pos < input.len() && input[pos] == b {
        Ok(pos + 1)
    } else {
        Err(unexpected_at(input, pos))
    }
}

/// Reads the byte `b` that closes a sized or counted block at `pos`.
pub fn close(input: &[u8], pos: usize, b: u8) -> (r: Result<usize, ParseError>)
    ensures
        r == match spec_close(input@, pos as int, b) {
            Ok(end) => Ok::<usize, ParseError>(end as usize),
            Err(e) => Err::<usize, ParseError>(e),
        },
        r matches Ok(end) ==> end == pos + 1 && end <= input@.len(),
{
    if pos < input.len() {
        if input[pos] == b {
            Ok(pos + 1)
        } else {
            Err(ParseError::new(ParseErrorKind::LengthMismatch, pos))
        }
    } else {
        Err(ParseError::new(ParseErrorKind::Incomplete, pos))
    }
}

/// The offset of the first byte at or after `start` that is not a digit.
pub fn digits_end(input: &[u8], start: usize) -> (end: usize)
    ensures
        end == spec_digits_end(input@, start as int),
        start <= end,
        end <= input@.len() || end == start,
{
    let mut end = start;
    while end < input.len() && is_ascii_digit(input[end])
        invariant
            start <= end,
            end <= input@.len() || end == start,
            spec_digits_end(input@, start as int) == spec_digits_end(input@, end as int),
        decreases input@.len() - end,
    {
        end += 1;
    }
    end
}

/// One or more digits, as the slice that holds them.
pub fn unsigned_integer<'s>(input: &'s [u8], start: usize) -> (r: Result<(&'s [u8], usize), ParseError>)
    ensures
        yields(r, spec_unsigned_integer(input@, start as int)),
        r matches Ok((_, end)) ==> start < end <= input@.len(),
{
    let end = digits_end(input, start);
    if end > start {
        Ok((slice_subrange(input, start, end), end))
    } else {
        Err(unexpected_at(input, start))
    }
}

/// An optional minus sign and one or more digits, as the slice that holds them.
pub fn signed_integer<'s>(input: &'s [u8], start: usize) -> (r: Result<(&'s [u8], usize), ParseError>)
    ensures
        yields(r, spec_signed_integer(input@, start as int)),
        r matches Ok((_, end)) ==> start < end <= input@.len(),
{
    if start < input.len() && input[start] == MINUS {
        match unsigned_integer(input, start + 1) {
            Ok((_, end)) => Ok((slice_subrange(input, start, end), end)),
            Err(e) => Err(e),
        }
    } else {
        unsigned_integer(input, start)
    }
}

/// A float literal, as the slice that holds it: a signed integer, optionally
/// followed by a dot and digits.
pub fn float<'s>(input: &'s [u8], start: usize) -> (r: Result<(&'s [u8], usize), ParseError>)
    ensures
        yields(r, spec_float(input@, start as int)),
        r matches Ok((_, end)) ==> start < end <= input@.len(),
{
    match signed_integer(input, start) {
        Ok((_, dot)) => {
            let mut end = dot;
            if dot < input.len() && input[dot] == DOT {
                let fraction_end = digits_end(input, dot + 1);
                if fraction_end > dot + 1 {
                    end = fraction_end;
                }
            }
            Ok((slice_subrange(input, start, end), end))
        },
        Err(e) => Err(e),
    }
}

/// The value of the digits in `input[start..end]`, unless it is beyond 64
/// bits.
pub(crate) fn digits_to_u64(input: &[u8], start: usize, end: usize) -> (r: Option<u64>)
    requires
        start <= end <= input@.len(),
        all_digits(input@.subrange(start as int, end as int)),
    ensures
        r == if digits_value(input@.subrange(start as int, end as int)) <= u64::MAX {
            Some(digits_value(input@.subrange(start as int, end as int)) as u64)
        } else {
            None::<u64>
        },
{
    let ghost digits = input@.subrange(start as int, end as int);
    let mut value: u64 = 0;
    let mut i = start;
    proof {
        assert(digits.take(0) =~= Seq::<u8>::empty());
    }
    while i < end
        invariant
            start <= i <= end <= input@.len(),
            digits == input@.subrange(start as int, end as int),
            all_digits(digits),
            value == digits_value(digits.take(i - start)),
        decreases end - i,
    {
        let byte = input[i];
        proof {
            assert(byte == digits[i - start]);
            assert(digits.take(i - start + 1) =~= digits.take(i - start).push(byte));
            lemma_digits_value_push(digits.take(i - start), byte);
            lemma_digits_value_prefix(digits, i - start + 1);
        }
        let digit: u64 = (byte - ZERO) as u64;
        if value > (u64::MAX - digit) / 10 {
            return None;
        }
        value = value * 10 + digit;
        i += 1;
    }
    proof {
        assert(digits.take(end - start) =~= digits);
    }
    Some(value)
}

/// A run of digits read as a size.
pub fn size(input: &[u8], start: usize) -> (r: Result<(usize, usize), ParseError>)
    ensures
        yields(r, spec_size(input@, start as int)),
        r matches Ok((_, end)) ==> start < end <= input@.len(),
{
    let end = digits_end(input, start);
    if end == start {
        return Err(unexpected_at(input, start));
    }
    proof {
        lemma_digits_end(input@, start as int);
    }
    match digits_to_u64(input, start, end) {
        Some(value) => {
            if value <= usize::MAX as u64 {
                Ok((value as usize, end))
            } else {
                Err(ParseError::new(ParseErrorKind::OutOfRange, start))
            }
        },
        None => Err(ParseError::new(ParseErrorKind::OutOfRange, start)),
    }
}

/// A length-prefixed string, as the slice that holds its payload.
pub fn sized_string<'s>(input: &'s [u8], start: usize) -> (r: Result<(&'s [u8], usize), ParseError>)
    ensures
        yields(r, spec_sized_string(input@, start as int)),
        r matches Ok((_, end)) ==> start < end <= input@.len(),
{
    let (n, colon) = match size(input, start) {
        Ok(found) => found,
        Err(e) => return Err(e),
    };
    let quote = match expect(input, colon, COLON) {
        Ok(end) => end,
        Err(e) => return Err(e),
    };
    let payload = match expect(input, quote, QUOTE) {
        Ok(end) => end,
        Err(e) => return Err(e),
    };
    if input.len() - payload < n {
        return Err(ParseError::new(ParseErrorKind::LengthMismatch, payload));
    }
    match close(input, payload + n, QUOTE) {
        Ok(end) => Ok((slice_subrange(input, payload, payload + n), end)),
        Err(e) => Err(e),
    }
}

} // verus!
