//! The mathematical model of a tagged value tree.
//!
//! `Value` is the pure shape of a node: the thirteen kinds of the format,
//! without the display caches that the executable tree carries. Contracts
//! throughout the crate speak of this model; the binary codec is specified
//! and proved against it.
//!
//! Floating-point kinds carry their IEEE-754 bit patterns, which is what
//! the byte format stores; the codec is bit-exact.

use vstd::prelude::*;

verus! {

/// One node of the tagged tree: one of the thirteen kinds of the format.
///
/// Strings and map keys are the byte sequences the format carries
/// (length-prefixed UTF-8). A list holds its declared element tag; a
/// compound holds its entries in insertion order.
pub enum Value {
    Null,
    Byte(i8),
    Short(i16),
    Int(i32),
    Long(i64),
    Float(u32),
    Double(u64),
    ByteArray(Seq<i8>),
    Str(Seq<u8>),
    List(u8, Seq<Value>),
    Compound(Seq<(Seq<u8>, Value)>),
    IntArray(Seq<i32>),
    LongArray(Seq<i64>),
}

/// The one-byte tag of a node's kind.
pub open spec fn tag_of(v: Value) -> u8 {
    match v {
        Value::Null => 0,
        Value::Byte(_) => 1,
        Value::Short(_) => 2,
        Value::Int(_) => 3,
        Value::Long(_) => 4,
        Value::Float(_) => 5,
        Value::Double(_) => 6,
        Value::ByteArray(_) => 7,
        Value::Str(_) => 8,
        Value::List(_, _) => 9,
        Value::Compound(_) => 10,
        Value::IntArray(_) => 11,
        Value::LongArray(_) => 12,
    }
}

/// Whether a tree can be written by the binary codec and read back.
///
/// Lengths must fit their length prefixes; a non-empty list's elements all
/// carry the declared tag, which cannot be the end-marker tag 0; compound
/// entries cannot hold the end marker either, and their keys fit a 16-bit
/// length.
pub open spec fn encodable(v: Value) -> bool
    decreases v,
{
    match v {
        Value::ByteArray(s) => s.len() <= 0xFFFF_FFFF,
        Value::Str(s) => s.len() <= 0xFFFF,
        Value::List(t, elems) => {
            &&& elems.len() <= 0xFFFF_FFFF
            &&& (elems.len() > 0 ==> t != 0)
            &&& (forall|i: int| 0 <= i < elems.len() ==> tag_of(#[trigger] elems[i]) == t)
            &&& (forall|i: int| 0 <= i < elems.len() ==> encodable(#[trigger] elems[i]))
        },
        Value::Compound(entries) => {
            &&& (forall|i: int| 0 <= i < entries.len() ==> (#[trigger] entries[i]).0.len() <= 0xFFFF)
            &&& (forall|i: int| 0 <= i < entries.len() ==> tag_of((#[trigger] entries[i]).1) != 0)
            &&& (forall|i: int| 0 <= i < entries.len() ==> encodable((#[trigger] entries[i]).1))
        },
        Value::IntArray(s) => s.len() <= 0xFFFF_FFFF,
        Value::LongArray(s) => s.len() <= 0xFFFF_FFFF,
        _ => true,
    }
}

/// Rows a node occupies when every descendant is expanded: one for the
/// node itself plus, for composites, one row per array element or the
/// full row count of each child.
pub open spec fn true_height_of(v: Value) -> nat
    decreases v,
{
    match v {
        Value::ByteArray(s) => 1 + s.len(),
        Value::IntArray(s) => 1 + s.len(),
        Value::LongArray(s) => 1 + s.len(),
        Value::List(_, elems) => 1 + true_height_sum(elems),
        Value::Compound(entries) => 1 + true_height_entry_sum(entries),
        _ => 1,
    }
}

/// Sum of the fully-expanded row counts of a sequence of nodes.
pub open spec fn true_height_sum(elems: Seq<Value>) -> nat
    decreases elems,
{
    if elems.len() == 0 {
        0
    } else {
        true_height_of(elems[0]) + true_height_sum(elems.subrange(1, elems.len() as int))
    }
}

/// Sum of the fully-expanded row counts of a sequence of keyed entries.
pub open spec fn true_height_entry_sum(entries: Seq<(Seq<u8>, Value)>) -> nat
    decreases entries,
{
    if entries.len() == 0 {
        0
    } else {
        true_height_of(entries[0].1)
            + true_height_entry_sum(entries.subrange(1, entries.len() as int))
    }
}

} // verus!
