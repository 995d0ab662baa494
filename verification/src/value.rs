//! The decoded value tree of a protocol frame, as the table builder reads it,
//! and the one-line description of a leaf value.

use vstd::prelude::*;
use crate::decimal::{dec, dec_signed, push_dec, push_dec_signed};
use crate::hex::{hex_concat, hex_no_sep};
use crate::text::push_char;

verus! {

/// One decoded value of a frame. Containers (`Entries`, `List`, `Node`) nest
/// further values; every other variant is a leaf that is shown as one text.
#[derive(Debug)]
#[allow(inconsistent_fields)]
pub enum FieldValue {
    /// A signed integer reading.
    Int(i64),
    /// A floating-point reading, held as the text it is shown as.
    Float(String),
    /// A text reading.
    Str(String),
    /// Raw bytes, shown as hexadecimal.
    Bytes(Vec<u8>),
    /// A reading followed by its unit, such as `220 V`.
    WithUnit { value: Box<FieldValue>, unit: String },
    /// A bit field: its raw value, and the decoded meaning when there is one.
    Bit { bit_value: u64, value: Option<Box<FieldValue>> },
    /// A measuring point number, shown as `Pn<number>`.
    Pn(u32),
    /// A value that is deliberately not shown.
    Skip,
    /// Named fields, in order.
    Entries(Vec<(String, FieldValue)>),
    /// Repeated items, in order.
    List(Vec<FieldValue>),
    /// A named field with the raw bytes it was decoded from.
    Node { name: String, raw: Vec<u8>, value: Box<FieldValue> },
    /// A value that failed to decode, with the reason.
    Invalid { reason: String },
}

/// Whether a value is a container that the table opens up rather than describes.
pub open spec fn is_container(v: FieldValue) -> bool {
    v is Entries || v is List || v is Node
}

/// The text that stands for a leaf value in the description column.
/// Containers have no description of their own.
pub open spec fn describe(v: FieldValue) -> Seq<char>
    decreases v,
{
    match v {
        FieldValue::Int(i) => dec_signed(i as int),
        FieldValue::Float(t) => t@,
        FieldValue::Str(s) => s@,
        FieldValue::Bytes(b) => hex_concat(b@),
        FieldValue::WithUnit { value, unit } => describe(*value) + seq![' '] + unit@,
        FieldValue::Bit { bit_value, value } => match value {
            Some(inner) => describe(*inner),
            None => dec(bit_value as nat),
        },
        FieldValue::Pn(n) => seq!['P', 'n'] + dec(n as nat),
        FieldValue::Skip => Seq::empty(),
        FieldValue::Entries(_) => Seq::empty(),
        FieldValue::List(_) => Seq::empty(),
        FieldValue::Node { .. } => Seq::empty(),
        FieldValue::Invalid { reason } => reason@,
    }
}

/// A bit field with a decoded meaning reads as that meaning, whatever kind of
/// value the meaning is and whatever its raw bits; one without a meaning reads
/// as its raw value, the same text an integer of that value reads as.
pub proof fn lemma_bit_description(bit_value: u64, other_bits: u64, meaning: Box<FieldValue>)
    ensures
        describe(FieldValue::Bit { bit_value, value: Some(meaning) }) == describe(*meaning),
        describe(FieldValue::Bit { bit_value, value: Some(meaning) })
            == describe(FieldValue::Bit { bit_value: other_bits, value: Some(meaning) }),
        bit_value <= i64::MAX ==> describe(FieldValue::Bit { bit_value, value: None })
            == describe(FieldValue::Int(bit_value as i64)),
{
}

fn push_str(s: &mut String, t: &String)
    ensures
        final(s)@ == old(s)@ + t@,
{
    s.append(t.as_str());
}

fn push_description(s: &mut String, v: &FieldValue)
    ensures
        final(s)@ == old(s)@ + describe(*v),
    decreases v,
{
    match v {
        FieldValue::Int(i) => push_dec_signed(s, *i),
        FieldValue::Float(t) => push_str(s, t),
        FieldValue::Str(t) => push_str(s, t),
        FieldValue::Bytes(b) => {
            let h = hex_no_sep(b.as_slice());
            push_str(s, &h);
        },
        FieldValue::WithUnit { value, unit } => {
            push_description(s, value);
            push_char(s, ' ');
            push_str(s, unit);
        },
        FieldValue::Bit { bit_value, value } => match value {
            Some(inner) => push_description(s, inner),
            None => push_dec(s, *bit_value),
        },
        FieldValue::Pn(n) => {
            push_char(s, 'P');
            push_char(s, 'n');
            push_dec(s, *n as u64);
        },
        FieldValue::Invalid { reason } => push_str(s, reason),
        _ => {},
    }
}

/// The final display text of a leaf value, such as `"220 V"`.
/// Containers give the empty text; the table opens them up instead.
pub fn describe_leaf(v: &FieldValue) -> (s: String)
    ensures
        s@ == describe(*v),
{
    let mut s = String::new();
    push_description(&mut s, v);
    s
}

} // verus!
