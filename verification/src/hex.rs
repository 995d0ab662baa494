//! Upper-case hexadecimal rendering of byte strings.

use vstd::prelude::*;
use crate::text::push_char;

verus! {

/// The upper-case hexadecimal digit for a value below 16.
pub open spec fn hex_digit(d: int) -> char {
    if d == 0 { '0' } else if d == 1 { '1' } else if d == 2 { '2' } else if d == 3 { '3' }
    else if d == 4 { '4' } else if d == 5 { '5' } else if d == 6 { '6' } else if d == 7 { '7' }
    else if d == 8 { '8' } else if d == 9 { '9' } else if d == 10 { 'A' } else if d == 11 { 'B' }
    else if d == 12 { 'C' } else if d == 13 { 'D' } else if d == 14 { 'E' } else { 'F' }
}

/// A byte as two upper-case hexadecimal digits, high nibble first (`{:02X}`).
pub open spec fn hex_byte(b: u8) -> Seq<char> {
    seq![hex_digit(b as int / 16), hex_digit(b as int % 16)]
}

/// All bytes as hexadecimal pairs, with nothing between them.
pub open spec fn hex_concat(bs: Seq<u8>) -> Seq<char>
    decreases bs.len(),
{
    if bs.len() == 0 {
        Seq::empty()
    } else {
        hex_concat(bs.drop_last()) + hex_byte(bs.last())
    }
}

/// All bytes as hexadecimal pairs, one space between neighbouring pairs.
pub open spec fn hex_joined(bs: Seq<u8>) -> Seq<char>
    decreases bs.len(),
{
    if bs.len() == 0 {
        Seq::empty()
    } else if bs.len() == 1 {
        hex_byte(bs[0])
    } else {
        hex_joined(bs.drop_last()) + seq![' '] + hex_byte(bs.last())
    }
}

fn hex_digit_char(d: u8) -> (c: char)
    requires
        d < 16,
    ensures
        c == hex_digit(d as int),
{
    match d {
        0 => '0',
        1 => '1',
        2 => '2',
        3 => '3',
        4 => '4',
        5 => '5',
        6 => '6',
        7 => '7',
        8 => '8',
        9 => '9',
        10 => 'A',
        11 => 'B',
        12 => 'C',
        13 => 'D',
        14 => 'E',
        _ => 'F',
    }
}

fn push_hex_byte(s: &mut String, b: u8)
    ensures
        final(s)@ == old(s)@ + hex_byte(b),
{
    push_char(s, hex_digit_char(b / 16));
    push_char(s, hex_digit_char(b % 16));
}

/// Bytes as upper-case hexadecimal with no separator: `[0x00, 0x22]` gives `"0022"`.
pub fn hex_no_sep(bytes: &[u8]) -> (s: String)
    ensures
        s@ == hex_concat(bytes@),
{
    let mut s = String::new();
    let mut i: usize = 0;
    while i < bytes.len()
        invariant
            i <= bytes.len(),
            s@ == hex_concat(bytes@.take(i as int)),
        decreases bytes.len() - i,
    {
        push_hex_byte(&mut s, bytes[i]);
        assert(bytes@.take(i as int + 1).drop_last() == bytes@.take(i as int));
        i = i + 1;
    }
    assert(bytes@.take(bytes.len() as int) == bytes@);
    s
}

/// Bytes as upper-case hexadecimal pairs separated by single spaces:
/// `[0x00, 0x22]` gives `"00 22"`.
pub fn hex_spaced(bytes: &[u8]) -> (s: String)
    ensures
        s@ == hex_joined(bytes@),
{
    let mut s = String::new();
    let mut i: usize = 0;
    while i < bytes.len()
        invariant
            i <= bytes.len(),
            s@ == hex_joined(bytes@.take(i as int)),
        decreases bytes.len() - i,
    {
        if i > 0 {
            push_char(&mut s, ' ');
        }
        push_hex_byte(&mut s, bytes[i]);
        assert(bytes@.take(i as int + 1).drop_last() == bytes@.take(i as int));
        i = i + 1;
    }
    assert(bytes@.take(bytes.len() as int) == bytes@);
    s
}

} // verus!
