//! Reading the hexadecimal frame text that the user types: separators are
//! dropped, the rest is read two bytes of text at a time.

use vstd::prelude::*;
use crate::text::{chars_of, push_char};
use crate::hex::{hex_byte, hex_concat, hex_digit, hex_joined};

verus! {

/// Whether `char::is_whitespace` holds: the Unicode `White_Space` property.
pub open spec fn is_white_space(c: char) -> bool {
    let u = c as u32;
    ||| 0x9 <= u <= 0xD
    ||| u == 0x20
    ||| u == 0x85
    ||| u == 0xA0
    ||| u == 0x1680
    ||| 0x2000 <= u <= 0x200A
    ||| u == 0x2028
    ||| u == 0x2029
    ||| u == 0x202F
    ||| u == 0x205F
    ||| u == 0x3000
}

/// Characters that separate bytes in typed frames and are dropped before reading:
/// white space, `-` and `:`.
pub open spec fn is_separator(c: char) -> bool {
    is_white_space(c) || c == '-' || c == ':'
}

/// The typed text with every separator removed.
pub open spec fn cleaned(s: Seq<char>) -> Seq<char>
    decreases s.len(),
{
    if s.len() == 0 {
        Seq::empty()
    } else if is_separator(s.last()) {
        cleaned(s.drop_last())
    } else {
        cleaned(s.drop_last()).push(s.last())
    }
}

/// The number of bytes of a character in UTF-8.
pub open spec fn utf8_width(c: char) -> nat {
    let u = c as u32;
    if u < 0x80 { 1 } else if u < 0x800 { 2 } else if u < 0x10000 { 3 } else { 4 }
}

/// The number of bytes of a text in UTF-8.
pub open spec fn utf8_len(s: Seq<char>) -> nat
    decreases s.len(),
{
    if s.len() == 0 {
        0
    } else {
        utf8_len(s.drop_last()) + utf8_width(s.last())
    }
}

/// Whether a character is a hexadecimal digit (`0-9`, `a-f`, `A-F`).
pub open spec fn is_hex_char(c: char) -> bool {
    ('0' <= c <= '9') || ('a' <= c <= 'f') || ('A' <= c <= 'F')
}

/// The value of a hexadecimal digit character.
pub open spec fn hex_char_value(c: char) -> int {
    if '0' <= c <= '9' {
        c as int - '0' as int
    } else if 'a' <= c <= 'f' {
        c as int - 'a' as int + 10
    } else {
        c as int - 'A' as int + 10
    }
}

/// The byte written by two ASCII characters: both must be hexadecimal
/// digits (high digit first); anything else, a sign included, is no byte.
pub open spec fn pair_value(c0: char, c1: char) -> Option<u8> {
    if is_hex_char(c0) && is_hex_char(c1) {
        Some((16 * hex_char_value(c0) + hex_char_value(c1)) as u8)
    } else {
        None
    }
}

/// The value written by one ASCII character: a hexadecimal digit, or none.
pub open spec fn single_value(c: char) -> Option<u8> {
    if is_hex_char(c) { Some(hex_char_value(c) as u8) } else { None }
}

/// Why typed frame text was refused, as plain values.
pub enum HexInputErrorView {
    Empty,
    OddLength,
    InvalidChar,
    InvalidHex(Seq<char>),
}

/// Why typed frame text was refused.
#[derive(Clone, Debug)]
pub enum HexInputError {
    /// Nothing but separators was typed.
    Empty,
    /// The remaining text has an odd number of bytes.
    OddLength,
    /// A two-byte piece of the text splits a multi-byte character.
    InvalidChar,
    /// A two-byte piece of the text is not a hexadecimal number; it holds that piece.
    InvalidHex(String),
}

impl View for HexInputError {
    type V = HexInputErrorView;

    open spec fn view(&self) -> HexInputErrorView {
        match self {
            HexInputError::Empty => HexInputErrorView::Empty,
            HexInputError::OddLength => HexInputErrorView::OddLength,
            HexInputError::InvalidChar => HexInputErrorView::InvalidChar,
            HexInputError::InvalidHex(s) => HexInputErrorView::InvalidHex(s@),
        }
    }
}

impl HexInputError {
    /// The message shown to the user for this refusal.
    pub fn message(&self) -> (m: String)
        ensures
            m@ == match self@ {
                HexInputErrorView::Empty => "数据内容不能为空"@,
                HexInputErrorView::OddLength => "十六进制字符串长度必须是偶数"@,
                HexInputErrorView::InvalidChar => "非法字符"@,
                HexInputErrorView::InvalidHex(t) => "非法十六进制: "@ + t,
            },
    {
        match self {
            HexInputError::Empty => String::from_str("数据内容不能为空"),
            HexInputError::OddLength => String::from_str("十六进制字符串长度必须是偶数"),
            HexInputError::InvalidChar => String::from_str("非法字符"),
            HexInputError::InvalidHex(t) => {
                let mut m = String::from_str("非法十六进制: ");
                m.append(t.as_str());
                m
            },
        }
    }
}

/// Prefixes decoded bytes to a decoding outcome.
pub open spec fn prefixed(p: Seq<u8>, r: Result<Seq<u8>, HexInputErrorView>) -> Result<Seq<u8>, HexInputErrorView> {
    match r {
        Ok(rest) => Ok(p + rest),
        Err(e) => Err(e),
    }
}

/// Reads cleaned text two bytes at a time, front to back, stopping at the first
/// piece that fails: a piece of two ASCII characters (or one, at the very end)
/// must be hexadecimal digits, else it is an illegal hexadecimal piece; a piece
/// that is exactly one two-byte character is valid text but no digits; any
/// other piece cuts a character apart.
pub open spec fn decode_pairs(cs: Seq<char>) -> Result<Seq<u8>, HexInputErrorView>
    decreases cs.len(),
{
    if cs.len() == 0 {
        Ok(Seq::empty())
    } else if utf8_width(cs[0]) == 1 {
        if cs.len() == 1 {
            match single_value(cs[0]) {
                Some(b) => Ok(seq![b]),
                None => Err(HexInputErrorView::InvalidHex(cs.take(1))),
            }
        } else if utf8_width(cs[1]) == 1 {
            match pair_value(cs[0], cs[1]) {
                Some(b) => prefixed(seq![b], decode_pairs(cs.skip(2))),
                None => Err(HexInputErrorView::InvalidHex(cs.take(2))),
            }
        } else {
            Err(HexInputErrorView::InvalidChar)
        }
    } else if utf8_width(cs[0]) == 2 {
        Err(HexInputErrorView::InvalidHex(cs.take(1)))
    } else {
        Err(HexInputErrorView::InvalidChar)
    }
}

/// The bytes of a typed frame, or why it was refused: separators are dropped;
/// nothing left is `Empty`; an odd number of bytes left is `OddLength`;
/// otherwise the rest is read as in `decode_pairs`.
pub open spec fn hex_input_outcome(s: Seq<char>) -> Result<Seq<u8>, HexInputErrorView> {
    let cs = cleaned(s);
    if cs.len() == 0 {
        Err(HexInputErrorView::Empty)
    } else if utf8_len(cs) % 2 != 0 {
        Err(HexInputErrorView::OddLength)
    } else {
        decode_pairs(cs)
    }
}

/// The view of a decoding result.
pub open spec fn outcome_view(r: Result<Vec<u8>, HexInputError>) -> Result<Seq<u8>, HexInputErrorView> {
    match r {
        Ok(b) => Ok(b@),
        Err(e) => Err(e@),
    }
}

fn is_white_space_char(c: char) -> (b: bool)
    ensures
        b == is_white_space(c),
{
    let u = c as u32;
    (0x9 <= u && u <= 0xD) || u == 0x20 || u == 0x85 || u == 0xA0 || u == 0x1680 || (0x2000 <= u
        && u <= 0x200A) || u == 0x2028 || u == 0x2029 || u == 0x202F || u == 0x205F || u == 0x3000
}

fn utf8_width_of(c: char) -> (w: u8)
    ensures
        w as nat == utf8_width(c),
{
    let u = c as u32;
    if u < 0x80 {
        1
    } else if u < 0x800 {
        2
    } else if u < 0x10000 {
        3
    } else {
        4
    }
}

fn hex_char_value_of(c: char) -> (v: Option<u8>)
    ensures
        v == (if is_hex_char(c) { Some(hex_char_value(c) as u8) } else { None::<u8> }),
        v is Some ==> v->0 < 16,
{
    if '0' <= c && c <= '9' {
        Some((c as u32 - '0' as u32) as u8)
    } else if 'a' <= c && c <= 'f' {
        Some((c as u32 - 'a' as u32 + 10) as u8)
    } else if 'A' <= c && c <= 'F' {
        Some((c as u32 - 'A' as u32 + 10) as u8)
    } else {
        None
    }
}

fn pair_value_of(c0: char, c1: char) -> (v: Option<u8>)
    ensures
        v == pair_value(c0, c1),
{
    match (hex_char_value_of(c0), hex_char_value_of(c1)) {
        (Some(a), Some(b)) => Some(a * 16 + b),
        _ => None,
    }
}

fn text_of(cs: &Vec<char>, from: usize, to: usize) -> (s: String)
    requires
        from <= to <= cs@.len(),
    ensures
        s@ == cs@.subrange(from as int, to as int),
{
    let mut s = String::new();
    let mut k = from;
    while k < to
        invariant
            from <= k <= to <= cs@.len(),
            s@ == cs@.subrange(from as int, k as int),
        decreases to - k,
    {
        push_char(&mut s, cs[k]);
        assert(cs@.subrange(from as int, k + 1) =~= cs@.subrange(from as int, k as int).push(cs@[k as int]));
        k = k + 1;
    }
    s
}

/// Reads a typed hexadecimal frame into bytes (see `hex_input_outcome`):
/// `"68 49-00:40"` gives `[0x68, 0x49, 0x00, 0x40]`.
pub fn parse_hex_bytes(input: &str) -> (r: Result<Vec<u8>, HexInputError>)
    ensures
        outcome_view(r) == hex_input_outcome(input@),
{
    let all = chars_of(input);
    let mut cs: Vec<char> = Vec::new();
    let mut odd = false;
    let mut i: usize = 0;
    while i < all.len()
        invariant
            i <= all@.len(),
            all@ == input@,
            cs@ == cleaned(all@.take(i as int)),
            odd == (utf8_len(cs@) % 2 == 1),
        decreases all.len() - i,
    {
        let c = all[i];
        assert(all@.take(i as int + 1).drop_last() =~= all@.take(i as int));
        if !(is_white_space_char(c) || c == '-' || c == ':') {
            assert(cs@.push(c).drop_last() =~= cs@);
            cs.push(c);
            let w = utf8_width_of(c);
            if w % 2 == 1 {
                odd = !odd;
            }
        }
        i = i + 1;
    }
    assert(all@.take(all.len() as int) =~= all@);
    if cs.len() == 0 {
        return Err(HexInputError::Empty);
    }
    if odd {
        return Err(HexInputError::OddLength);
    }
    let mut out: Vec<u8> = Vec::new();
    let n = cs.len();
    let mut i: usize = 0;
    assert(cs@.skip(0) =~= cs@);
    assert(out@ + Seq::<u8>::empty() =~= out@);
    while i < n
        invariant
            n == cs@.len(),
            i <= n,
            hex_input_outcome(input@) == decode_pairs(cs@),
            decode_pairs(cs@) == prefixed(out@, decode_pairs(cs@.skip(i as int))),
        decreases n - i,
    {
        let ghost rest = cs@.skip(i as int);
        let c0 = cs[i];
        let w0 = utf8_width_of(c0);
        if w0 == 1 {
            if i + 1 == n {
                match hex_char_value_of(c0) {
                    Some(b) => {
                        let ghost before = out@;
                        out.push(b);
                        assert(out@ =~= before + seq![b]);
                        assert(decode_pairs(rest) == Ok::<Seq<u8>, HexInputErrorView>(seq![b]));
                        assert(cs@.skip(n as int) =~= Seq::<char>::empty());
                        return Ok(out);
                    },
                    None => {
                        let t = text_of(&cs, i, i + 1);
                        assert(rest.take(1) =~= cs@.subrange(i as int, i + 1));
                        return Err(HexInputError::InvalidHex(t));
                    },
                }
            }
            let c1 = cs[i + 1];
            if utf8_width_of(c1) != 1 {
                return Err(HexInputError::InvalidChar);
            }
            match pair_value_of(c0, c1) {
                Some(b) => {
                    assert(rest.skip(2) =~= cs@.skip(i + 2));
                    assert(out@ + (seq![b] + decode_pairs(cs@.skip(i + 2))->Ok_0) =~= out@.push(b)
                        + decode_pairs(cs@.skip(i + 2))->Ok_0);
                    out.push(b);
                    i = i + 2;
                },
                None => {
                    let t = text_of(&cs, i, i + 2);
                    assert(rest.take(2) =~= cs@.subrange(i as int, i + 2));
                    return Err(HexInputError::InvalidHex(t));
                },
            }
        } else if w0 == 2 {
            let t = text_of(&cs, i, i + 1);
            assert(rest.take(1) =~= cs@.subrange(i as int, i + 1));
            return Err(HexInputError::InvalidHex(t));
        } else {
            return Err(HexInputError::InvalidChar);
        }
    }
    assert(cs@.skip(n as int) =~= Seq::<char>::empty());
    assert(out@ + Seq::<u8>::empty() =~= out@);
    Ok(out)
}


proof fn lemma_hex_digit_facts(d: int)
    requires
        0 <= d < 16,
    ensures
        is_hex_char(hex_digit(d)),
        hex_char_value(hex_digit(d)) == d,
        !is_separator(hex_digit(d)),
        utf8_width(hex_digit(d)) == 1,
{
}

pub(crate) proof fn lemma_cleaned_concat(a: Seq<char>, b: Seq<char>)
    ensures
        cleaned(a + b) == cleaned(a) + cleaned(b),
    decreases b.len(),
{
    if b.len() == 0 {
        assert(a + b =~= a);
        assert(cleaned(a) + cleaned(b) =~= cleaned(a));
    } else {
        lemma_cleaned_concat(a, b.drop_last());
        assert((a + b).drop_last() =~= a + b.drop_last());
        assert((a + b).last() == b.last());
        if is_separator(b.last()) {
        } else {
            assert(cleaned(a) + cleaned(b.drop_last()).push(b.last()) =~= (cleaned(a) + cleaned(b.drop_last())).push(b.last()));
        }
    }
}

pub(crate) proof fn lemma_utf8_len_concat(a: Seq<char>, b: Seq<char>)
    ensures
        utf8_len(a + b) == utf8_len(a) + utf8_len(b),
    decreases b.len(),
{
    if b.len() == 0 {
        assert(a + b =~= a);
    } else {
        lemma_utf8_len_concat(a, b.drop_last());
        assert((a + b).drop_last() =~= a + b.drop_last());
        assert((a + b).last() == b.last());
    }
}

proof fn lemma_hex_byte_facts(b: u8)
    ensures
        cleaned(hex_byte(b)) == hex_byte(b),
        utf8_len(hex_byte(b)) == 2,
        pair_value(hex_byte(b)[0], hex_byte(b)[1]) == Some(b),
        utf8_width(hex_byte(b)[0]) == 1,
        utf8_width(hex_byte(b)[1]) == 1,
{
    let h = hex_byte(b);
    lemma_hex_digit_facts(b as int / 16);
    lemma_hex_digit_facts(b as int % 16);
    assert(h.drop_last() =~= seq![h[0]]);
    assert(seq![h[0]].drop_last() =~= Seq::<char>::empty());
    assert(seq![h[0]].last() == h[0]);
    assert(cleaned(Seq::<char>::empty()) == Seq::<char>::empty());
    assert(utf8_len(Seq::<char>::empty()) == 0);
    assert(cleaned(seq![h[0]]) =~= Seq::<char>::empty().push(h[0]));
    assert(cleaned(h) =~= seq![h[0]].push(h[1]));
    assert(utf8_len(seq![h[0]]) == 1);
    assert(16 * (b as int / 16) + b as int % 16 == b as int);
}

proof fn lemma_hex_concat_front(bs: Seq<u8>)
    requires
        bs.len() > 0,
    ensures
        hex_concat(bs) == hex_byte(bs[0]) + hex_concat(bs.drop_first()),
    decreases bs.len(),
{
    if bs.len() == 1 {
        assert(bs.drop_last() =~= Seq::<u8>::empty());
        assert(bs.drop_first() =~= Seq::<u8>::empty());
        assert(hex_concat(bs) =~= hex_byte(bs[0]) + hex_concat(bs.drop_first()));
    } else {
        lemma_hex_concat_front(bs.drop_last());
        assert(bs.drop_last().drop_first() =~= bs.drop_first().drop_last());
        assert(bs.drop_first().last() == bs.last());
        assert(hex_concat(bs) =~= hex_byte(bs[0]) + hex_concat(bs.drop_first()));
    }
}

proof fn lemma_hex_concat_shape(bs: Seq<u8>)
    ensures
        cleaned(hex_concat(bs)) == hex_concat(bs),
        utf8_len(hex_concat(bs)) == 2 * bs.len(),
    decreases bs.len(),
{
    if bs.len() > 0 {
        lemma_hex_concat_shape(bs.drop_last());
        lemma_hex_byte_facts(bs.last());
        lemma_cleaned_concat(hex_concat(bs.drop_last()), hex_byte(bs.last()));
        lemma_utf8_len_concat(hex_concat(bs.drop_last()), hex_byte(bs.last()));
    }
}

proof fn lemma_decode_hex_concat(bs: Seq<u8>)
    ensures
        decode_pairs(hex_concat(bs)) == Ok::<Seq<u8>, HexInputErrorView>(bs),
    decreases bs.len(),
{
    if bs.len() == 0 {
        assert(bs =~= Seq::<u8>::empty());
        assert(hex_concat(bs) == Seq::<char>::empty());
    } else {
        lemma_hex_concat_front(bs);
        lemma_hex_byte_facts(bs[0]);
        lemma_decode_hex_concat(bs.drop_first());
        let cs = hex_concat(bs);
        let h = hex_byte(bs[0]);
        assert(cs.len() >= 2);
        assert(cs[0] == h[0]);
        assert(cs[1] == h[1]);
        assert(cs.skip(2) =~= hex_concat(bs.drop_first()));
        assert(decode_pairs(cs) == prefixed(seq![bs[0]], decode_pairs(cs.skip(2))));
        assert(seq![bs[0]] + bs.drop_first() =~= bs);
    }
}

/// Dropping the separators from the spaced hexadecimal form of bytes gives
/// their compact form.
pub proof fn lemma_spaced_hex_without_separators(bs: Seq<u8>)
    ensures
        cleaned(hex_joined(bs)) == hex_concat(bs),
    decreases bs.len(),
{
    if bs.len() == 1 {
        lemma_hex_byte_facts(bs[0]);
        assert(bs.drop_last() =~= Seq::<u8>::empty());
        assert(hex_concat(Seq::<u8>::empty()) == Seq::<char>::empty());
        assert(hex_concat(bs) =~= hex_byte(bs[0]));
    } else if bs.len() > 1 {
        lemma_spaced_hex_without_separators(bs.drop_last());
        lemma_hex_byte_facts(bs.last());
        let a = hex_joined(bs.drop_last());
        lemma_cleaned_concat(a, seq![' ']);
        lemma_cleaned_concat(a + seq![' '], hex_byte(bs.last()));
        assert(seq![' '].drop_last() =~= Seq::<char>::empty());
        assert(cleaned(Seq::<char>::empty()) == Seq::<char>::empty());
        assert(is_separator(' '));
        assert(cleaned(seq![' ']) =~= Seq::<char>::empty());
        assert(cleaned(a) + Seq::<char>::empty() =~= cleaned(a));
    }
}

/// Reading back the compact hexadecimal form of any non-empty bytes gives
/// those bytes.
pub proof fn lemma_compact_hex_reads_back(bs: Seq<u8>)
    requires
        bs.len() > 0,
    ensures
        hex_input_outcome(hex_concat(bs)) == Ok::<Seq<u8>, HexInputErrorView>(bs),
{
    lemma_hex_concat_shape(bs);
    lemma_decode_hex_concat(bs);
}

/// Reading back the spaced hexadecimal form (the data column of a row) of
/// any non-empty bytes gives those bytes.
pub proof fn lemma_spaced_hex_reads_back(bs: Seq<u8>)
    requires
        bs.len() > 0,
    ensures
        hex_input_outcome(hex_joined(bs)) == Ok::<Seq<u8>, HexInputErrorView>(bs),
{
    lemma_spaced_hex_without_separators(bs);
    lemma_hex_concat_shape(bs);
    lemma_decode_hex_concat(bs);
}

} // verus!
