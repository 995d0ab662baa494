//! Where the bytes of a frame stand in the typed text, so that selecting a
//! row can select the text it was decoded from.

use vstd::prelude::*;
use std::ops::Range;
use crate::text::chars_of;
use crate::hex_input::{is_hex_char, is_separator, utf8_len, utf8_width, cleaned, decode_pairs, pair_value,
    hex_char_value, prefixed, hex_input_outcome, HexInputErrorView, lemma_cleaned_concat, lemma_utf8_len_concat};

verus! {

/// The byte offsets in `s` of its hexadecimal digit characters, in order.
pub open spec fn hex_digit_offsets(s: Seq<char>) -> Seq<int>
    decreases s.len(),
{
    if s.len() == 0 {
        Seq::empty()
    } else if is_hex_char(s.last()) {
        hex_digit_offsets(s.drop_last()).push(utf8_len(s.drop_last()) as int)
    } else {
        hex_digit_offsets(s.drop_last())
    }
}

/// The text span (in bytes) of the `k`-th pair of hexadecimal digits: from
/// the first digit of the pair to just past the second.
pub open spec fn pair_span(s: Seq<char>, k: int) -> (int, int) {
    let o = hex_digit_offsets(s);
    (o[2 * k], o[2 * k + 1] + 1)
}

/// The number of whole pairs of hexadecimal digits in `s`.
pub open spec fn pair_count(s: Seq<char>) -> int {
    (hex_digit_offsets(s).len() / 2) as int
}

proof fn lemma_utf8_len_take(s: Seq<char>, k: int)
    requires
        0 <= k <= s.len(),
    ensures
        utf8_len(s.take(k)) <= utf8_len(s),
    decreases s.len(),
{
    if k < s.len() {
        assert(s.drop_last().take(k) =~= s.take(k));
        lemma_utf8_len_take(s.drop_last(), k);
    } else {
        assert(s.take(k) =~= s);
    }
}

/// The text span of every byte of the typed frame: pairs of hexadecimal
/// digits are taken in order, whatever stands between them; a last unpaired
/// digit gets no span.
///
/// Offsets are byte offsets, so they exist only where the text's UTF-8 length
/// fits in `usize`; that is so for every string in memory, and the contract
/// speaks of that case (a text too long for it gives no spans).
pub fn hex_byte_ranges(input: &str) -> (r: Vec<Range<usize>>)
    ensures
        utf8_len(input@) <= usize::MAX ==> {
            &&& r@.len() == pair_count(input@)
            &&& forall|k: int| 0 <= k < r@.len() ==> (#[trigger] r@[k]).start == pair_span(input@, k).0
                && r@[k].end == pair_span(input@, k).1
        },
{
    let cs = chars_of(input);
    let mut offs: Vec<usize> = Vec::new();
    let mut pos: usize = 0;
    let mut i: usize = 0;
    while i < cs.len()
        invariant
            cs@ == input@,
            i <= cs@.len(),
            pos == utf8_len(cs@.take(i as int)),
            offs@.len() == hex_digit_offsets(cs@.take(i as int)).len(),
            forall|k: int| 0 <= k < offs@.len() ==> #[trigger] offs@[k] == hex_digit_offsets(cs@.take(i as int))[k]
                && offs@[k] + 1 <= pos,
        decreases cs.len() - i,
    {
        let c = cs[i];
        let u = c as u32;
        let w: usize = if u < 0x80 { 1 } else if u < 0x800 { 2 } else if u < 0x10000 { 3 } else { 4 };
        proof {
            assert(cs@.take(i as int + 1).drop_last() =~= cs@.take(i as int));
            lemma_utf8_len_take(cs@, i as int + 1);
            assert(w == utf8_width(c));
        }
        if w > usize::MAX - pos {
            proof {
                lemma_utf8_len_take(cs@, i as int + 1);
            }
            return Vec::new();
        }
        if ('0' <= c && c <= '9') || ('a' <= c && c <= 'f') || ('A' <= c && c <= 'F') {
            offs.push(pos);
        }
        pos = pos + w;
        i = i + 1;
    }
    assert(cs@.take(cs.len() as int) =~= cs@);
    let mut r: Vec<Range<usize>> = Vec::new();
    let n_offs = offs.len();
    let half = n_offs / 2;
    let mut k: usize = 0;
    while k < half
        invariant
            cs@ == input@,
            n_offs == offs@.len(),
            utf8_len(input@) <= usize::MAX,
            half == n_offs / 2,
            offs@.len() == hex_digit_offsets(input@).len(),
            forall|j: int| 0 <= j < offs@.len() ==> #[trigger] offs@[j] == hex_digit_offsets(input@)[j]
                && offs@[j] + 1 <= utf8_len(input@),
            k <= half,
            r@.len() == k,
            forall|j: int| 0 <= j < k ==> (#[trigger] r@[j]).start == pair_span(input@, j).0
                && r@[j].end == pair_span(input@, j).1,
        decreases half - k,
    {
        let a = offs[2 * k];
        let b = offs[2 * k + 1];
        assert(offs@[2 * k + 1] + 1 <= utf8_len(input@));
        r.push(Range { start: a, end: b + 1 });
        k = k + 1;
    }
    r
}

/// The text span to select for a field that covers the bytes `raw` of the
/// frame: from the start of its first byte's digits to the end of its last
/// byte's digits. Byte positions past the known bytes are cut back to their
/// count; an empty result is the empty span at the cut-back start.
pub fn selection_range(byte_ranges: &[Range<usize>], raw: &Range<usize>) -> (r: Range<usize>)
    ensures
        ({
            let n = byte_ranges@.len() as int;
            let s = if raw.start < n { raw.start as int } else { n };
            let e = if raw.end < n { raw.end as int } else { n };
            if s < e {
                r.start == byte_ranges@[s].start && r.end == byte_ranges@[e - 1].end
            } else {
                r.start == s && r.end == s
            }
        }),
{
    let n = byte_ranges.len();
    let start = if raw.start < n { raw.start } else { n };
    let end = if raw.end < n { raw.end } else { n };
    if start < end {
        Range { start: byte_ranges[start].start, end: byte_ranges[end - 1].end }
    } else {
        Range { start, end: start }
    }
}


/// The character positions in `s` of its hexadecimal digits, in order.
pub open spec fn hex_digit_positions(s: Seq<char>) -> Seq<int>
    decreases s.len(),
{
    if s.len() == 0 {
        Seq::empty()
    } else if is_hex_char(s.last()) {
        hex_digit_positions(s.drop_last()).push(s.len() - 1)
    } else {
        hex_digit_positions(s.drop_last())
    }
}

/// Every character is a separator or a hexadecimal digit.
pub open spec fn only_digits_and_separators(s: Seq<char>) -> bool {
    forall|k: int| 0 <= k < s.len() ==> is_separator(#[trigger] s[k]) || is_hex_char(s[k])
}

proof fn lemma_positions(s: Seq<char>)
    ensures
        hex_digit_positions(s).len() == hex_digit_offsets(s).len(),
        forall|j: int| 0 <= j < hex_digit_positions(s).len() ==> {
            let p = #[trigger] hex_digit_positions(s)[j];
            &&& 0 <= p < s.len()
            &&& is_hex_char(s[p])
            &&& hex_digit_offsets(s)[j] == utf8_len(s.take(p)) as int
        },
        forall|j: int| 0 <= j < hex_digit_positions(s).len() - 1 ==> {
            let p = #[trigger] hex_digit_positions(s)[j];
            let q = hex_digit_positions(s)[j + 1];
            &&& p < q
            &&& forall|k: int| p < k < q ==> !is_hex_char(#[trigger] s[k])
        },
        hex_digit_positions(s).len() > 0 ==> forall|k: int|
            hex_digit_positions(s)[hex_digit_positions(s).len() - 1] < k < s.len() ==> !is_hex_char(#[trigger] s[k]),
        hex_digit_positions(s).len() == 0 ==> forall|k: int| 0 <= k < s.len() ==> !is_hex_char(#[trigger] s[k]),
    decreases s.len(),
{
    if s.len() > 0 {
        let t = s.drop_last();
        lemma_positions(t);
        let ht = hex_digit_positions(t);
        assert forall|j: int| 0 <= j < ht.len() implies s.take(#[trigger] ht[j]) =~= t.take(ht[j]) by {}
        assert forall|k: int| 0 <= k < t.len() implies #[trigger] s[k] == t[k] by {}
        assert(s.take(s.len() - 1) =~= t);
        if is_hex_char(s.last()) {
            let hs = hex_digit_positions(s);
            assert(hs == ht.push(s.len() - 1));
            assert forall|j: int| 0 <= j < hs.len() - 1 implies {
                let p = #[trigger] hs[j];
                let q = hs[j + 1];
                &&& p < q
                &&& forall|k: int| p < k < q ==> !is_hex_char(#[trigger] s[k])
            } by {
                if j < hs.len() - 2 {
                    assert(hs[j] == ht[j]);
                    assert(hs[j + 1] == ht[j + 1]);
                } else {
                    assert(hs[j] == ht[j]);
                }
            }
        }
    }
}

proof fn lemma_cleaned_positions(s: Seq<char>)
    requires
        only_digits_and_separators(s),
    ensures
        cleaned(s).len() == hex_digit_positions(s).len(),
        forall|j: int| 0 <= j < cleaned(s).len() ==> #[trigger] cleaned(s)[j] == s[hex_digit_positions(s)[j]],
    decreases s.len(),
{
    if s.len() > 0 {
        let t = s.drop_last();
        assert forall|k: int| 0 <= k < t.len() implies is_separator(#[trigger] t[k]) || is_hex_char(t[k]) by {
            assert(t[k] == s[k]);
        }
        lemma_cleaned_positions(t);
        lemma_positions(t);
        let c = s.last();
        assert(is_separator(s[s.len() - 1]) || is_hex_char(s[s.len() - 1]));
        if is_hex_char(c) {
            assert(!is_separator(c)) by {
                assert(c as u32 >= 0x30);
            }
        }
    }
}

proof fn lemma_cleaned_all_hex_means_clean(s: Seq<char>)
    requires
        forall|j: int| 0 <= j < cleaned(s).len() ==> is_hex_char(#[trigger] cleaned(s)[j]),
    ensures
        only_digits_and_separators(s),
    decreases s.len(),
{
    if s.len() > 0 {
        let t = s.drop_last();
        if is_separator(s.last()) {
            assert(cleaned(s) == cleaned(t));
        } else {
            assert(cleaned(s) == cleaned(t).push(s.last()));
            assert(cleaned(s)[cleaned(t).len() as int] == s.last());
            assert forall|j: int| 0 <= j < cleaned(t).len() implies is_hex_char(#[trigger] cleaned(t)[j]) by {
                assert(cleaned(s)[j] == cleaned(t)[j]);
            }
        }
        lemma_cleaned_all_hex_means_clean(t);
        assert forall|k: int| 0 <= k < s.len() implies is_separator(#[trigger] s[k]) || is_hex_char(s[k]) by {
            if k < t.len() {
                assert(s[k] == t[k]);
            }
        }
    }
}

proof fn lemma_decoded_pairs(cs: Seq<char>, v: Seq<u8>)
    requires
        decode_pairs(cs) == Ok::<Seq<u8>, HexInputErrorView>(v),
        utf8_len(cs) % 2 == 0,
    ensures
        cs.len() == 2 * v.len(),
        forall|j: int| 0 <= j < cs.len() ==> is_hex_char(#[trigger] cs[j]),
        forall|i: int| 0 <= i < v.len() ==> #[trigger] v[i]
            == (16 * hex_char_value(cs[2 * i]) + hex_char_value(cs[2 * i + 1])) as u8,
    decreases cs.len(),
{
    if cs.len() == 0 {
        assert(v =~= Seq::<u8>::empty());
    } else {
        assert(utf8_width(cs[0]) == 1);
        if cs.len() == 1 {
            assert(cs.drop_last() =~= Seq::<char>::empty());
            assert(utf8_len(cs) == utf8_len(Seq::<char>::empty()) + 1);
        } else {
            assert(utf8_width(cs[1]) == 1);
            let b = pair_value(cs[0], cs[1])->0;
            let rest = cs.skip(2);
            let r = decode_pairs(rest)->Ok_0;
            assert(v == seq![b] + r);
            assert(cs =~= cs.take(2) + rest);
            lemma_utf8_len_concat(cs.take(2), rest);
            assert(cs.take(2).drop_last() =~= seq![cs[0]]);
            assert(seq![cs[0]].drop_last() =~= Seq::<char>::empty());
            assert(utf8_len(seq![cs[0]]) == utf8_len(Seq::<char>::empty()) + 1);
            assert(utf8_len(cs.take(2)) == 2);
            lemma_decoded_pairs(rest, r);
            assert forall|j: int| 0 <= j < cs.len() implies is_hex_char(#[trigger] cs[j]) by {
                if j >= 2 {
                    assert(cs[j] == rest[j - 2]);
                }
            }
            assert forall|i: int| 0 <= i < v.len() implies #[trigger] v[i]
                == (16 * hex_char_value(cs[2 * i]) + hex_char_value(cs[2 * i + 1])) as u8 by {
                if i > 0 {
                    assert(v[i] == r[i - 1]);
                    assert(cs[2 * i] == rest[2 * (i - 1)]);
                    assert(cs[2 * i + 1] == rest[2 * (i - 1) + 1]);
                }
            }
        }
    }
}

proof fn lemma_cleaned_separators(s: Seq<char>)
    requires
        forall|k: int| 0 <= k < s.len() ==> is_separator(#[trigger] s[k]),
    ensures
        cleaned(s) == Seq::<char>::empty(),
    decreases s.len(),
{
    if s.len() > 0 {
        lemma_cleaned_separators(s.drop_last());
        assert(is_separator(s[s.len() - 1]));
    }
}

proof fn lemma_two_digits_read(x: char, y: char)
    requires
        is_hex_char(x),
        is_hex_char(y),
    ensures
        cleaned(seq![x, y]) == seq![x, y],
        hex_input_outcome(seq![x, y]) == Ok::<Seq<u8>, HexInputErrorView>(
            seq![(16 * hex_char_value(x) + hex_char_value(y)) as u8]),
{
    let t = seq![x, y];
    assert(!is_separator(x) && !is_separator(y)) by {
        assert(x as u32 >= 0x30);
        assert(y as u32 >= 0x30);
    }
    assert(t.drop_last() =~= seq![x]);
    assert(t.last() == y);
    assert(seq![x].drop_last() =~= Seq::<char>::empty());
    assert(seq![x].last() == x);
    assert(cleaned(Seq::<char>::empty()) == Seq::<char>::empty());
    assert(cleaned(seq![x]) =~= seq![x]);
    assert(cleaned(t) =~= t);
    assert(utf8_len(seq![x]) == utf8_len(Seq::<char>::empty()) + 1);
    assert(utf8_len(t) == 2);
    assert(t.skip(2) =~= Seq::<char>::empty());
    let b = (16 * hex_char_value(x) + hex_char_value(y)) as u8;
    assert(decode_pairs(t) == prefixed(seq![b], decode_pairs(t.skip(2))));
    assert(seq![b] + Seq::<u8>::empty() =~= seq![b]);
}

/// For typed text that reads as the bytes `v`, the text spans line up with
/// the bytes: there is one span per byte, and span `i` covers the characters
/// from the first to the second digit of byte `i` (with only separators
/// between them), and that piece of text reads as byte `i` alone.
pub proof fn lemma_byte_spans_read_back(s: Seq<char>, v: Seq<u8>)
    requires
        hex_input_outcome(s) == Ok::<Seq<u8>, HexInputErrorView>(v),
    ensures
        pair_count(s) == v.len(),
        forall|i: int| 0 <= i < v.len() ==> {
            let a = #[trigger] hex_digit_positions(s)[2 * i];
            let b = hex_digit_positions(s)[2 * i + 1];
            &&& 0 <= a < b < s.len()
            &&& pair_span(s, i) == (utf8_len(s.take(a)) as int, utf8_len(s.take(b + 1)) as int)
            &&& hex_input_outcome(s.subrange(a, b + 1)) == Ok::<Seq<u8>, HexInputErrorView>(seq![v[i]])
        },
{
    let cs = cleaned(s);
    lemma_decoded_pairs(cs, v);
    lemma_cleaned_all_hex_means_clean(s);
    lemma_cleaned_positions(s);
    lemma_positions(s);
    let h = hex_digit_positions(s);
    assert forall|i: int| 0 <= i < v.len() implies {
        let a = #[trigger] hex_digit_positions(s)[2 * i];
        let b = hex_digit_positions(s)[2 * i + 1];
        &&& 0 <= a < b < s.len()
        &&& pair_span(s, i) == (utf8_len(s.take(a)) as int, utf8_len(s.take(b + 1)) as int)
        &&& hex_input_outcome(s.subrange(a, b + 1)) == Ok::<Seq<u8>, HexInputErrorView>(seq![v[i]])
    } by {
        let a = h[2 * i];
        let b = h[2 * i + 1];
        assert(cs[2 * i] == s[a]);
        assert(cs[2 * i + 1] == s[b]);
        lemma_piece_reads(s, a, b);
        lemma_span_end(s, b);
    }
}

proof fn lemma_span_end(s: Seq<char>, b: int)
    requires
        0 <= b < s.len(),
        is_hex_char(s[b]),
    ensures
        utf8_len(s.take(b + 1)) == utf8_len(s.take(b)) + 1,
{
    assert(s.take(b + 1).drop_last() =~= s.take(b));
    assert(s.take(b + 1).last() == s[b]);
}

proof fn lemma_piece_reads(s: Seq<char>, a: int, b: int)
    requires
        only_digits_and_separators(s),
        0 <= a < b < s.len(),
        is_hex_char(s[a]),
        is_hex_char(s[b]),
        forall|k: int| a < k < b ==> !is_hex_char(#[trigger] s[k]),
    ensures
        hex_input_outcome(s.subrange(a, b + 1)) == Ok::<Seq<u8>, HexInputErrorView>(
            seq![(16 * hex_char_value(s[a]) + hex_char_value(s[b])) as u8]),
{
    let mid = s.subrange(a + 1, b);
    assert forall|k: int| 0 <= k < mid.len() implies is_separator(#[trigger] mid[k]) by {
        assert(mid[k] == s[a + 1 + k]);
        assert(!is_hex_char(s[a + 1 + k]));
    }
    lemma_cleaned_separators(mid);
    let piece = s.subrange(a, b + 1);
    assert(piece =~= seq![s[a]] + mid + seq![s[b]]);
    lemma_cleaned_concat(seq![s[a]] + mid, seq![s[b]]);
    lemma_cleaned_concat(seq![s[a]], mid);
    assert(seq![s[a]].drop_last() =~= Seq::<char>::empty());
    assert(seq![s[b]].drop_last() =~= Seq::<char>::empty());
    assert(seq![s[a]].last() == s[a]);
    assert(seq![s[b]].last() == s[b]);
    assert(cleaned(Seq::<char>::empty()) == Seq::<char>::empty());
    assert(!is_separator(s[a]) && !is_separator(s[b])) by {
        assert(s[a] as u32 >= 0x30);
        assert(s[b] as u32 >= 0x30);
    }
    assert(cleaned(seq![s[a]]) =~= seq![s[a]]);
    assert(cleaned(seq![s[b]]) =~= seq![s[b]]);
    assert(cleaned(piece) =~= seq![s[a], s[b]]);
    lemma_two_digits_read(s[a], s[b]);
    assert(hex_input_outcome(piece) == hex_input_outcome(seq![s[a], s[b]]));
}


/// The character spelling hexadecimal digit `d` (below 16): `0`-`9`, then
/// `A`-`F` in upper case or `a`-`f` in lower case.
pub open spec fn digit_char(d: int, upper: bool) -> char {
    if d < 10 {
        (48 + d) as char
    } else if upper {
        (55 + d) as char
    } else {
        (87 + d) as char
    }
}

proof fn lemma_digit_char(d: int, upper: bool)
    requires
        0 <= d < 16,
    ensures
        is_hex_char(digit_char(d, upper)),
        hex_char_value(digit_char(d, upper)) == d,
        !is_separator(digit_char(d, upper)),
        utf8_width(digit_char(d, upper)) == 1,
{
    let c = digit_char(d, upper);
    if d < 10 {
        assert(c as int == 48 + d);
    } else if upper {
        assert(c as int == 55 + d);
    } else {
        assert(c as int == 87 + d);
    }
}

/// Two hexadecimal digits, each in either case, read as the one byte they
/// spell, high digit first.
pub proof fn lemma_digit_pair_reads(d0: int, d1: int, u0: bool, u1: bool)
    requires
        0 <= d0 < 16,
        0 <= d1 < 16,
    ensures
        hex_input_outcome(seq![digit_char(d0, u0), digit_char(d1, u1)]) == Ok::<Seq<u8>, HexInputErrorView>(
            seq![(16 * d0 + d1) as u8]),
{
    lemma_digit_char(d0, u0);
    lemma_digit_char(d1, u1);
    lemma_two_digits_read(digit_char(d0, u0), digit_char(d1, u1));
}

/// Bytes spelled as pairs of hexadecimal digits in one case, with nothing between.
pub open spec fn cased_hex(bs: Seq<u8>, upper: bool) -> Seq<char>
    decreases bs.len(),
{
    if bs.len() == 0 {
        Seq::empty()
    } else {
        seq![digit_char(bs[0] as int / 16, upper), digit_char(bs[0] as int % 16, upper)]
            + cased_hex(bs.drop_first(), upper)
    }
}

proof fn lemma_cased_hex_shape(bs: Seq<u8>, upper: bool)
    ensures
        cleaned(cased_hex(bs, upper)) == cased_hex(bs, upper),
        utf8_len(cased_hex(bs, upper)) == 2 * bs.len(),
        decode_pairs(cased_hex(bs, upper)) == Ok::<Seq<u8>, HexInputErrorView>(bs),
    decreases bs.len(),
{
    if bs.len() == 0 {
        assert(bs =~= Seq::<u8>::empty());
        assert(cleaned(Seq::<char>::empty()) == Seq::<char>::empty());
        assert(utf8_len(Seq::<char>::empty()) == 0);
    } else {
        let hi = bs[0] as int / 16;
        let lo = bs[0] as int % 16;
        let x = digit_char(hi, upper);
        let y = digit_char(lo, upper);
        let rest = cased_hex(bs.drop_first(), upper);
        let t = cased_hex(bs, upper);
        lemma_cased_hex_shape(bs.drop_first(), upper);
        lemma_digit_char(hi, upper);
        lemma_digit_char(lo, upper);
        lemma_two_digits_read(x, y);
        assert(t == seq![x, y] + rest);
        lemma_cleaned_concat(seq![x, y], rest);
        assert(seq![x, y].drop_last() =~= seq![x]);
        assert(seq![x].drop_last() =~= Seq::<char>::empty());
        assert(utf8_len(seq![x]) == utf8_len(Seq::<char>::empty()) + 1);
        assert(utf8_len(seq![x, y]) == 2);
        lemma_utf8_len_concat(seq![x, y], rest);
        assert(t[0] == x);
        assert(t[1] == y);
        assert(t.skip(2) =~= rest);
        assert(16 * hi + lo == bs[0] as int);
        assert(pair_value(x, y) == Some(bs[0]));
        assert(decode_pairs(t) == prefixed(seq![bs[0]], decode_pairs(rest)));
        assert(seq![bs[0]] + bs.drop_first() =~= bs);
    }
}

/// The hexadecimal spelling of any non-empty bytes, in lower case or in upper
/// case, reads back as those bytes.
pub proof fn lemma_cased_hex_reads_back(bs: Seq<u8>, upper: bool)
    requires
        bs.len() > 0,
    ensures
        hex_input_outcome(cased_hex(bs, upper)) == Ok::<Seq<u8>, HexInputErrorView>(bs),
{
    lemma_cased_hex_shape(bs, upper);
}

} // verus!
