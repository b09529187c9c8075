//! Numbers as decimal text: what a run of digits denotes, how a number is
//! written, and that the two undo each other.

use vstd::prelude::*;

use crate::ascii::{MINUS, NINE, ZERO};

verus! {

/// Whether `b` is one of the ASCII digits `0` to `9`.
pub open spec fn is_digit(b: u8) -> bool {
    ZERO <= b <= NINE
}

/// The number that the ASCII digit `b` stands for; `0` for any other byte.
pub open spec fn digit_value(b: u8) -> nat {
    if is_digit(b) {
        (b - ZERO) as nat
    } else {
        0
    }
}

/// The ASCII digit that stands for `d`, for `d` below ten.
pub open spec fn digit_byte(d: nat) -> u8 {
    (ZERO + d) as u8
}

/// Whether every byte of `t` is an ASCII digit.
pub open spec fn all_digits(t: Seq<u8>) -> bool {
    forall|i: int| 0 <= i < t.len() ==> is_digit(#[trigger] t[i])
}

/// The number that a run of ASCII digits denotes in base ten. Leading zeros do
/// not change it, and the empty run denotes zero.
pub open spec fn digits_value(t: Seq<u8>) -> nat
    decreases t.len(),
{
    if t.len() == 0 {
        0
    } else {
        digits_value(t.drop_last()) * 10 + digit_value(t.last())
    }
}

/// The shortest run of ASCII digits that denotes `n`: no leading zero, except
/// that zero itself is written `0`.
pub open spec fn nat_text(n: nat) -> Seq<u8>
    decreases n,
{
    if n < 10 {
        seq![digit_byte(n)]
    } else {
        nat_text(n / 10).push(digit_byte(n % 10))
    }
}

/// The text of a signed number: a minus sign before the digits of a negative
/// one, the bare digits otherwise.
pub open spec fn int_text(n: int) -> Seq<u8> {
    if n < 0 {
        seq![MINUS] + nat_text((-n) as nat)
    } else {
        nat_text(n as nat)
    }
}

/// The number that an optional minus sign followed by digits denotes.
pub open spec fn signed_value(t: Seq<u8>) -> int {
    if t.len() > 0 && t[0] == MINUS {
        -(digits_value(t.skip(1)) as int)
    } else {
        digits_value(t) as int
    }
}

/// Whether a run of digits is the shortest one for its value.
pub open spec fn is_shortest_digits(t: Seq<u8>) -> bool {
    &&& t.len() >= 1
    &&& all_digits(t)
    &&& (t.len() == 1 || t[0] != ZERO)
}

/// A digit behind a run multiplies its value by ten and adds the digit.
pub(crate) proof fn lemma_digits_value_push(t: Seq<u8>, b: u8)
    ensures
        digits_value(t.push(b)) == digits_value(t) * 10 + digit_value(b),
{
    assert(t.push(b).drop_last() =~= t);
}

/// A prefix of a digit run never denotes more than the whole run.
pub(crate) proof fn lemma_digits_value_prefix(t: Seq<u8>, k: int)
    requires
        0 <= k <= t.len(),
    ensures
        digits_value(t.take(k)) <= digits_value(t),
    decreases t.len() - k,
{
    if k == t.len() {
        assert(t.take(k) =~= t);
    } else {
        lemma_digits_value_prefix(t.drop_last(), k);
        assert(t.drop_last().take(k) =~= t.take(k));
    }
}

/// The text of a number is a run of digits in shortest form, and denotes
/// the number; only zero is written `0`.
pub proof fn lemma_nat_text_digits(n: nat)
    ensures
        is_shortest_digits(nat_text(n)),
        digits_value(nat_text(n)) == n,
        n == 0 <==> nat_text(n) == seq![ZERO],
    decreases n,
{
    let t = nat_text(n);
    if n < 10 {
        assert(t.len() == 1 && t[0] == digit_byte(n));
        assert(is_digit(t[0]) && digit_value(t[0]) == n);
        assert(t.drop_last() =~= Seq::<u8>::empty());
        assert(digits_value(Seq::<u8>::empty()) == 0);
        assert(n == 0 ==> t =~= seq![ZERO]);
    } else {
        let p = nat_text(n / 10);
        let d = digit_byte(n % 10);
        lemma_nat_text_digits(n / 10);
        lemma_digits_value_push(p, d);
        assert(is_digit(d) && digit_value(d) == n % 10);
        assert(t == p.push(d));
        assert(t[0] == p[0]);
        assert(p[0] != ZERO) by {
            if p[0] == ZERO {
                assert(p.len() == 1);
                assert(p =~= seq![ZERO]);
            }
        }
        assert forall|i: int| 0 <= i < t.len() implies is_digit(#[trigger] t[i]) by {
            if i < p.len() {
                assert(t[i] == p[i]);
            }
        }
    }
}

/// A run of digits with a nonzero first digit denotes a positive number.
pub(crate) proof fn lemma_digits_value_positive(t: Seq<u8>)
    requires
        t.len() >= 1,
        all_digits(t),
        t[0] != ZERO,
    ensures
        digits_value(t) >= 1,
    decreases t.len(),
{
    if t.len() > 1 {
        lemma_digits_value_positive(t.drop_last());
    } else {
        assert(t.drop_last() =~= Seq::<u8>::empty());
        assert(digits_value(t.drop_last()) == 0);
    }
}

/// Writing out the value of a shortest digit run gives the run back.
pub proof fn lemma_shortest_digits_text(t: Seq<u8>)
    requires
        is_shortest_digits(t),
    ensures
        nat_text(digits_value(t)) == t,
    decreases t.len(),
{
    let p = t.drop_last();
    let d = digit_value(t.last());
    if t.len() == 1 {
        assert(p =~= Seq::<u8>::empty());
        assert(digits_value(p) == 0);
        assert(nat_text(digits_value(t)) =~= t);
    } else {
        lemma_digits_value_positive(p);
        lemma_shortest_digits_text(p);
        let v = digits_value(p);
        assert(digits_value(t) == v * 10 + d);
        assert((v * 10 + d) / 10 == v);
        assert((v * 10 + d) % 10 == d);
        assert(nat_text(digits_value(t)) =~= t);
    }
}

/// Appends the shortest decimal text of `n` to `out`.
pub fn write_nat(out: &mut Vec<u8>, n: u128)
    ensures
        final(out)@ == old(out)@ + nat_text(n as nat),
    decreases n,
{
    if n >= 10 {
        write_nat(out, n / 10);
    }
    let d: u8 = (n % 10) as u8;
    out.push(ZERO + d);
    assert(out@ =~= old(out)@ + nat_text(n as nat));
}

/// Appends the decimal text of `n` to `out`, with a minus sign when negative.
pub fn write_int(out: &mut Vec<u8>, n: i64)
    ensures
        final(out)@ == old(out)@ + int_text(n as int),
{
    if n < 0 {
        out.push(MINUS);
        let magnitude: u128 = ((-(n + 1)) as u128) + 1;
        write_nat(out, magnitude);
        assert(out@ =~= old(out)@ + int_text(n as int));
    } else {
        write_nat(out, n as u128);
    }
}

} // verus!
