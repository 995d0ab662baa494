//! Decimal rendering of integers, as `to_string` prints them.

use vstd::prelude::*;
use crate::text::push_char;

verus! {

/// The decimal digit character for a value below 10.
pub open spec fn dec_digit(d: int) -> char {
    if d == 0 { '0' } else if d == 1 { '1' } else if d == 2 { '2' } else if d == 3 { '3' }
    else if d == 4 { '4' } else if d == 5 { '5' } else if d == 6 { '6' } else if d == 7 { '7' }
    else if d == 8 { '8' } else { '9' }
}

/// The shortest decimal spelling of a natural number (no sign, no leading zeros).
pub open spec fn dec(n: nat) -> Seq<char>
    decreases n,
{
    if n < 10 {
        seq![dec_digit(n as int)]
    } else {
        dec(n / 10).push(dec_digit((n % 10) as int))
    }
}

/// The decimal spelling of a signed integer: a leading `-` for negatives.
pub open spec fn dec_signed(i: int) -> Seq<char> {
    if i < 0 {
        seq!['-'] + dec((-i) as nat)
    } else {
        dec(i as nat)
    }
}

fn dec_digit_char(d: u64) -> (c: char)
    requires
        d < 10,
    ensures
        c == dec_digit(d as int),
{
    match d {
        0 => '0',
        1 => '1',
        2 => '2',
        3 => '3',
        4 => '4',
        5 => '5',
        6 => '6',
        7 => '7',
        8 => '8',
        _ => '9',
    }
}

/// Appends the decimal spelling of `n`.
pub(crate) fn push_dec(s: &mut String, n: u64)
    ensures
        final(s)@ == old(s)@ + dec(n as nat),
    decreases n,
{
    if n < 10 {
        push_char(s, dec_digit_char(n));
    } else {
        push_dec(s, n / 10);
        push_char(s, dec_digit_char(n % 10));
    }
}

/// Appends the decimal spelling of a signed `n`.
pub(crate) fn push_dec_signed(s: &mut String, n: i64)
    ensures
        final(s)@ == old(s)@ + dec_signed(n as int),
{
    if n < 0 {
        push_char(s, '-');
        let m: u64 = ((-(n + 1)) as u64) + 1;
        push_dec(s, m);
    } else {
        push_dec(s, n as u64);
    }
}

/// Whether a character is one of `0`..`9`.
pub open spec fn is_dec_char(c: char) -> bool {
    '0' <= c <= '9'
}

/// The value of a decimal digit character.
pub open spec fn dec_char_value(c: char) -> int {
    c as int - '0' as int
}

/// The value of a string of decimal digits (most significant first).
pub open spec fn digits_value(cs: Seq<char>) -> nat
    decreases cs.len(),
{
    if cs.len() == 0 {
        0
    } else {
        (10 * digits_value(cs.drop_last()) + dec_char_value(cs.last())) as nat
    }
}

/// Whether every character is a decimal digit.
pub open spec fn all_dec(cs: Seq<char>) -> bool {
    forall|i: int| 0 <= i < cs.len() ==> is_dec_char(#[trigger] cs[i])
}

proof fn lemma_dec_digit_char(d: int)
    requires
        0 <= d < 10,
    ensures
        is_dec_char(dec_digit(d)),
        dec_char_value(dec_digit(d)) == d,
{
}

/// The decimal spelling of `n` is a non-empty string of digits whose value is `n`.
pub proof fn lemma_dec_spelling(n: nat)
    ensures
        dec(n).len() > 0,
        all_dec(dec(n)),
        digits_value(dec(n)) == n,
    decreases n,
{
    if n < 10 {
        lemma_dec_digit_char(n as int);
        assert(seq![dec_digit(n as int)].drop_last() =~= Seq::<char>::empty());
        assert(digits_value(Seq::<char>::empty()) == 0);
    } else {
        lemma_dec_spelling(n / 10);
        lemma_dec_digit_char((n % 10) as int);
        assert(dec(n).drop_last() =~= dec(n / 10));
        assert(dec(n).last() == dec_digit((n % 10) as int));
        assert(10 * (n / 10) + n % 10 == n);
    }
}

} // verus!
