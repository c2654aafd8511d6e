//! The binary tag codec.
//!
//! A node is written as tag-specific payload bytes: fixed-width
//! big-endian numerics, length-prefixed strings and arrays, a tag- and
//! count-prefixed element sequence for lists, and name-prefixed tagged
//! entries closed by the end-marker byte 0 for compounds. The spec
//! functions here define both directions over the model; the round trip
//! `dec_payload(tag_of(v), enc_payload(v)) == (v, all of it)` is proved
//! for every encodable tree, and the executable codec in this file is
//! proved against the spec functions.

use vstd::prelude::*;

use crate::be_bytes::be2;
use crate::be_bytes::be4;
use crate::be_bytes::be8;
use crate::be_bytes::from_be2;
use crate::be_bytes::from_be4;
use crate::be_bytes::from_be8;
use crate::be_bytes::lemma_be2_roundtrip;
use crate::be_bytes::lemma_be4_roundtrip;
use crate::be_bytes::lemma_be8_roundtrip;
use crate::be_bytes::write_be2;
use crate::be_bytes::write_be4;
use crate::be_bytes::write_be8;
use crate::be_bytes::read_be2;
use crate::be_bytes::read_be4;
use crate::be_bytes::read_be8;
use crate::element::NbtCompound;
use crate::element::NbtElement;
use crate::element::NbtList;
use crate::element::NbtString;
use crate::element::NbtByteArray;
use crate::element::NbtIntArray;
use crate::element::NbtLongArray;
use crate::element::all_closed;
use crate::element::inv;
use crate::element::theight_of;
use crate::element::views_of;
use crate::element::entry_views_of;
use crate::element::vof;
use crate::element::lemma_views_of;
use crate::element::lemma_entry_views_of;
use crate::value::Value;
use crate::value::encodable;
use crate::value::tag_of;
use crate::value::true_height_of;
use crate::value::true_height_sum;
use crate::value::true_height_entry_sum;

verus! {

/// The unsigned bytes of a sequence of 8-bit integers.
pub open spec fn u8s_of(s: Seq<i8>) -> Seq<u8> {
    Seq::new(s.len(), |i: int| s[i] as u8)
}

/// The signed view of a sequence of bytes.
pub open spec fn i8s_of(s: Seq<u8>) -> Seq<i8> {
    Seq::new(s.len(), |i: int| s[i] as i8)
}

/// The payload bytes of a node (everything after its tag byte).
pub open spec fn enc_payload(v: Value) -> Seq<u8>
    decreases v,
{
    match v {
        Value::Null => seq![],
        Value::Byte(x) => seq![x as u8],
        Value::Short(x) => be2(x as u16),
        Value::Int(x) => be4(x as u32),
        Value::Long(x) => be8(x as u64),
        Value::Float(x) => be4(x),
        Value::Double(x) => be8(x),
        Value::ByteArray(s) => be4(s.len() as u32) + u8s_of(s),
        Value::Str(s) => be2(s.len() as u16) + s,
        Value::List(t, elems) => seq![t] + be4(elems.len() as u32) + enc_elems(elems),
        Value::Compound(entries) => enc_entries(entries) + seq![0u8],
        Value::IntArray(s) => be4(s.len() as u32) + enc_ints(s),
        Value::LongArray(s) => be4(s.len() as u32) + enc_longs(s),
    }
}

/// The concatenated payloads of list elements.
pub open spec fn enc_elems(elems: Seq<Value>) -> Seq<u8>
    decreases elems,
{
    if elems.len() == 0 {
        seq![]
    } else {
        enc_payload(elems[0]) + enc_elems(elems.subrange(1, elems.len() as int))
    }
}

/// The concatenated entries of a compound: tag, length-prefixed key,
/// payload — without the final end marker.
pub open spec fn enc_entries(entries: Seq<(Seq<u8>, Value)>) -> Seq<u8>
    decreases entries,
{
    if entries.len() == 0 {
        seq![]
    } else {
        seq![tag_of(entries[0].1)] + be2(entries[0].0.len() as u16) + entries[0].0
            + enc_payload(entries[0].1)
            + enc_entries(entries.subrange(1, entries.len() as int))
    }
}

/// The concatenated big-endian words of a 32-bit array.
pub open spec fn enc_ints(s: Seq<i32>) -> Seq<u8>
    decreases s,
{
    if s.len() == 0 {
        seq![]
    } else {
        be4(s[0] as u32) + enc_ints(s.subrange(1, s.len() as int))
    }
}

/// The concatenated big-endian words of a 64-bit array.
pub open spec fn enc_longs(s: Seq<i64>) -> Seq<u8>
    decreases s,
{
    if s.len() == 0 {
        seq![]
    } else {
        be8(s[0] as u64) + enc_longs(s.subrange(1, s.len() as int))
    }
}

/// Reads one payload of the given tag from the front of `s`: the node
/// and the number of bytes consumed, or nothing when the input is
/// truncated, a tag is unknown, or a non-empty list declares the end
/// marker as its element tag.
pub open spec fn dec_payload(tag: u8, s: Seq<u8>) -> Option<(Value, int)>
    decreases s.len(), 2int, 0int,
{
    if tag == 0 {
        Some((Value::Null, 0))
    } else if tag == 1 {
        if s.len() >= 1 { Some((Value::Byte(s[0] as i8), 1)) } else { None }
    } else if tag == 2 {
        if s.len() >= 2 { Some((Value::Short(from_be2(s[0], s[1]) as i16), 2)) } else { None }
    } else if tag == 3 {
        if s.len() >= 4 {
            Some((Value::Int(from_be4(s[0], s[1], s[2], s[3]) as i32), 4))
        } else {
            None
        }
    } else if tag == 4 {
        if s.len() >= 8 {
            Some((
                Value::Long(from_be8(s[0], s[1], s[2], s[3], s[4], s[5], s[6], s[7]) as i64),
                8,
            ))
        } else {
            None
        }
    } else if tag == 5 {
        if s.len() >= 4 { Some((Value::Float(from_be4(s[0], s[1], s[2], s[3])), 4)) } else { None }
    } else if tag == 6 {
        if s.len() >= 8 {
            Some((Value::Double(from_be8(s[0], s[1], s[2], s[3], s[4], s[5], s[6], s[7])), 8))
        } else {
            None
        }
    } else if tag == 7 {
        if s.len() >= 4 {
            let n = from_be4(s[0], s[1], s[2], s[3]) as int;
            if s.len() >= 4 + n {
                Some((Value::ByteArray(i8s_of(s.subrange(4, 4 + n))), 4 + n))
            } else {
                None
            }
        } else {
            None
        }
    } else if tag == 8 {
        if s.len() >= 2 {
            let n = from_be2(s[0], s[1]) as int;
            if s.len() >= 2 + n {
                Some((Value::Str(s.subrange(2, 2 + n)), 2 + n))
            } else {
                None
            }
        } else {
            None
        }
    } else if tag == 9 {
        if s.len() >= 5 {
            let t = s[0];
            let n = from_be4(s[1], s[2], s[3], s[4]) as int;
            if t == 0 && n > 0 {
                None
            } else {
                match dec_elems(t, s.skip(5), n) {
                    Some((elems, c)) => Some((Value::List(t, elems), 5 + c)),
                    None => None,
                }
            }
        } else {
            None
        }
    } else if tag == 10 {
        match dec_entries(s) {
            Some((entries, c)) => Some((Value::Compound(entries), c)),
            None => None,
        }
    } else if tag == 11 {
        if s.len() >= 4 {
            let n = from_be4(s[0], s[1], s[2], s[3]) as int;
            match dec_ints(s.skip(4), n) {
                Some(elems) => Some((Value::IntArray(elems), 4 + 4 * n)),
                None => None,
            }
        } else {
            None
        }
    } else if tag == 12 {
        if s.len() >= 4 {
            let n = from_be4(s[0], s[1], s[2], s[3]) as int;
            match dec_longs(s.skip(4), n) {
                Some(elems) => Some((Value::LongArray(elems), 4 + 8 * n)),
                None => None,
            }
        } else {
            None
        }
    } else {
        None
    }
}

/// Reads `n` payloads of tag `t` from the front of `s`.
pub open spec fn dec_elems(t: u8, s: Seq<u8>, n: int) -> Option<(Seq<Value>, int)>
    decreases s.len(), 3int, n,
{
    if n <= 0 {
        Some((seq![], 0))
    } else {
        match dec_payload(t, s) {
            Some((v, c0)) => {
                let c = if 0 <= c0 <= s.len() { c0 } else { s.len() as int };
                match dec_elems(t, s.skip(c), n - 1) {
                    Some((rest, k)) => Some((seq![v] + rest, c + k)),
                    None => None,
                }
            },
            None => None,
        }
    }
}

/// Reads compound entries from the front of `s` up to and including the
/// end marker.
pub open spec fn dec_entries(s: Seq<u8>) -> Option<(Seq<(Seq<u8>, Value)>, int)>
    decreases s.len(), 1int, 0int,
{
    if s.len() < 1 {
        None
    } else if s[0] == 0 {
        Some((seq![], 1))
    } else if s.len() < 3 {
        None
    } else {
        let t = s[0];
        let k = from_be2(s[1], s[2]) as int;
        if s.len() < 3 + k {
            None
        } else {
            let key = s.subrange(3, 3 + k);
            match dec_payload(t, s.skip(3 + k)) {
                Some((v, c0)) => {
                    let c = if 0 <= c0 <= s.len() - 3 - k { c0 } else { s.len() - 3 - k };
                    match dec_entries(s.skip(3 + k + c)) {
                        Some((rest, k2)) => Some((seq![(key, v)] + rest, 3 + k + c + k2)),
                        None => None,
                    }
                },
                None => None,
            }
        }
    }
}

/// Reads `n` big-endian 32-bit words from the front of `s`.
pub open spec fn dec_ints(s: Seq<u8>, n: int) -> Option<Seq<i32>>
    decreases s.len(), 0int, n,
{
    if n <= 0 {
        Some(seq![])
    } else if s.len() < 4 {
        None
    } else {
        match dec_ints(s.skip(4), n - 1) {
            Some(rest) => Some(seq![from_be4(s[0], s[1], s[2], s[3]) as i32] + rest),
            None => None,
        }
    }
}

/// Reads `n` big-endian 64-bit words from the front of `s`.
pub open spec fn dec_longs(s: Seq<u8>, n: int) -> Option<Seq<i64>>
    decreases s.len(), 0int, n,
{
    if n <= 0 {
        Some(seq![])
    } else if s.len() < 8 {
        None
    } else {
        match dec_longs(s.skip(8), n - 1) {
            Some(rest) => Some(
                seq![from_be8(s[0], s[1], s[2], s[3], s[4], s[5], s[6], s[7]) as i64] + rest,
            ),
            None => None,
        }
    }
}


/// What holds of a successful payload decode: the node carries the tag
/// it was read with, is encodable again, consumed bytes within range,
/// and (for real tags) occupies no more rows than bytes consumed.
pub open spec fn payload_props(tag: u8, s: Seq<u8>) -> bool {
    match dec_payload(tag, s) {
        Some((v, c)) => {
            &&& tag_of(v) == tag
            &&& encodable(v)
            &&& 0 <= c <= s.len()
            &&& true_height_of(v) <= (if tag == 0 { 1int } else { c })
        },
        None => true,
    }
}

/// The element form of `payload_props`.
pub open spec fn elems_props(t: u8, s: Seq<u8>, n: int) -> bool {
    match dec_elems(t, s, n) {
        Some((vs, c)) => {
            &&& vs.len() == (if n >= 0 { n } else { 0 })
            &&& 0 <= c <= s.len()
            &&& (forall|i: int| 0 <= i < vs.len() ==> tag_of(#[trigger] vs[i]) == t)
            &&& (forall|i: int| 0 <= i < vs.len() ==> encodable(#[trigger] vs[i]))
            &&& (t != 0 ==> true_height_sum(vs) <= c)
        },
        None => true,
    }
}

/// The entry form of `payload_props`.
pub open spec fn entries_props(s: Seq<u8>) -> bool {
    match dec_entries(s) {
        Some((es, c)) => {
            &&& 1 <= c <= s.len()
            &&& (forall|i: int| 0 <= i < es.len() ==> (#[trigger] es[i]).0.len() <= 0xFFFF)
            &&& (forall|i: int| 0 <= i < es.len() ==> tag_of((#[trigger] es[i]).1) != 0)
            &&& (forall|i: int| 0 <= i < es.len() ==> encodable((#[trigger] es[i]).1))
            &&& true_height_entry_sum(es) + 1 <= c
        },
        None => true,
    }
}

/// Decoded payloads are well formed, bounded, and no taller than their
/// byte count.
pub proof fn lemma_dec_props(tag: u8, s: Seq<u8>)
    ensures
        payload_props(tag, s),
    decreases s.len(), 2int, 0int,
{
    if tag == 9 {
        if s.len() >= 5 {
            let t = s[0];
            let n = from_be4(s[1], s[2], s[3], s[4]) as int;
            if !(t == 0 && n > 0) {
                lemma_dec_elems_props(t, s.skip(5), n);
                match dec_elems(t, s.skip(5), n) {
                    Some((elems, c)) => {
                        if t != 0 {
                            assert(true_height_of(Value::List(t, elems))
                                == 1 + true_height_sum(elems));
                        } else {
                            assert(elems.len() == 0);
                            assert(true_height_sum(elems) == 0);
                        }
                    },
                    None => {},
                }
            }
        }
    } else if tag == 10 {
        lemma_dec_entries_props(s);
    } else if tag == 11 {
        if s.len() >= 4 {
            let n = from_be4(s[0], s[1], s[2], s[3]) as int;
            lemma_dec_ints_props(s.skip(4), n);
        }
    } else if tag == 12 {
        if s.len() >= 4 {
            let n = from_be4(s[0], s[1], s[2], s[3]) as int;
            lemma_dec_longs_props(s.skip(4), n);
        }
    }
}

/// Decoded list elements are well formed and bounded.
pub proof fn lemma_dec_elems_props(t: u8, s: Seq<u8>, n: int)
    ensures
        elems_props(t, s, n),
    decreases s.len(), 3int, n,
{
    if n > 0 {
        lemma_dec_props(t, s);
        match dec_payload(t, s) {
            Some((v, c0)) => {
                let c = if 0 <= c0 <= s.len() { c0 } else { s.len() as int };
                lemma_dec_elems_props(t, s.skip(c), n - 1);
                match dec_elems(t, s.skip(c), n - 1) {
                    Some((rest, k)) => {
                        crate::element::lemma_true_sum_concat(seq![v], rest);
                        assert(seq![v].subrange(1, 1) =~= Seq::<Value>::empty());
                        assert(true_height_sum(seq![v])
                            == true_height_of(seq![v][0])
                                + true_height_sum(seq![v].subrange(1, 1)));
                    },
                    None => {},
                }
            },
            None => {},
        }
    }
}

/// Decoded compound entries are well formed and bounded.
pub proof fn lemma_dec_entries_props(s: Seq<u8>)
    ensures
        entries_props(s),
    decreases s.len(), 1int, 0int,
{
    if s.len() >= 1 && s[0] != 0 && s.len() >= 3 {
        let t = s[0];
        let k = from_be2(s[1], s[2]) as int;
        if s.len() >= 3 + k {
            let key = s.subrange(3, 3 + k);
            lemma_dec_props(t, s.skip(3 + k));
            match dec_payload(t, s.skip(3 + k)) {
                Some((v, c0)) => {
                    let c = if 0 <= c0 <= s.len() - 3 - k { c0 } else { s.len() - 3 - k };
                    lemma_dec_entries_props(s.skip(3 + k + c));
                    match dec_entries(s.skip(3 + k + c)) {
                        Some((rest, k2)) => {
                            crate::element::lemma_true_entry_sum_concat(seq![(key, v)], rest);
                            assert(seq![(key, v)].subrange(1, 1)
                                =~= Seq::<(Seq<u8>, Value)>::empty());
                            assert(true_height_entry_sum(seq![(key, v)])
                                == true_height_of(seq![(key, v)][0].1)
                                    + true_height_entry_sum(seq![(key, v)].subrange(1, 1)));
                        },
                        None => {},
                    }
                },
                None => {},
            }
        }
    }
}

/// Decoded 32-bit arrays have the requested length and fit the input.
pub proof fn lemma_dec_ints_props(s: Seq<u8>, n: int)
    ensures
        dec_ints(s, n) matches Some(es)
            ==> es.len() == (if n >= 0 { n } else { 0 }) && (n >= 0 ==> 4 * n <= s.len()),
    decreases s.len(), 0int, n,
{
    if n > 0 && s.len() >= 4 {
        lemma_dec_ints_props(s.skip(4), n - 1);
    }
}

/// Decoded 64-bit arrays have the requested length and fit the input.
pub proof fn lemma_dec_longs_props(s: Seq<u8>, n: int)
    ensures
        dec_longs(s, n) matches Some(es)
            ==> es.len() == (if n >= 0 { n } else { 0 }) && (n >= 0 ==> 8 * n <= s.len()),
    decreases s.len(), 0int, n,
{
    if n > 0 && s.len() >= 8 {
        lemma_dec_longs_props(s.skip(8), n - 1);
    }
}

/// Law: decoding the encoding of any encodable tree, with anything
/// appended, returns exactly that tree and consumes exactly its
/// encoding.
pub proof fn lemma_enc_dec(v: Value, rest: Seq<u8>)
    requires
        encodable(v),
    ensures
        dec_payload(tag_of(v), enc_payload(v) + rest)
            == Some((v, enc_payload(v).len() as int)),
    decreases v, 0int,
{
    let s = enc_payload(v) + rest;
    match v {
        Value::Null => {
            assert(enc_payload(v) =~= Seq::<u8>::empty());
        },
        Value::Byte(x) => {
            assert(s[0] == x as u8);
            assert((x as u8) as i8 == x) by (bit_vector);
        },
        Value::Short(x) => {
            lemma_be2_roundtrip(x as u16);
            assert(s[0] == be2(x as u16)[0] && s[1] == be2(x as u16)[1]);
            assert((x as u16) as i16 == x) by (bit_vector);
        },
        Value::Int(x) => {
            lemma_be4_roundtrip(x as u32);
            let b = be4(x as u32);
            assert(s[0] == b[0] && s[1] == b[1] && s[2] == b[2] && s[3] == b[3]);
            assert((x as u32) as i32 == x) by (bit_vector);
        },
        Value::Long(x) => {
            lemma_be8_roundtrip(x as u64);
            let b = be8(x as u64);
            assert(s[0] == b[0] && s[1] == b[1] && s[2] == b[2] && s[3] == b[3]
                && s[4] == b[4] && s[5] == b[5] && s[6] == b[6] && s[7] == b[7]);
            assert((x as u64) as i64 == x) by (bit_vector);
        },
        Value::Float(x) => {
            lemma_be4_roundtrip(x);
            let b = be4(x);
            assert(s[0] == b[0] && s[1] == b[1] && s[2] == b[2] && s[3] == b[3]);
        },
        Value::Double(x) => {
            lemma_be8_roundtrip(x);
            let b = be8(x);
            assert(s[0] == b[0] && s[1] == b[1] && s[2] == b[2] && s[3] == b[3]
                && s[4] == b[4] && s[5] == b[5] && s[6] == b[6] && s[7] == b[7]);
        },
        Value::ByteArray(s0) => {
            let nw = s0.len() as u32;
            lemma_be4_roundtrip(nw);
            let b = be4(nw);
            assert(s[0] == b[0] && s[1] == b[1] && s[2] == b[2] && s[3] == b[3]);
            let n = from_be4(s[0], s[1], s[2], s[3]) as int;
            assert(n == s0.len());
            assert(s.subrange(4, 4 + n) =~= u8s_of(s0));
            assert forall|i: int| 0 <= i < s0.len()
                implies i8s_of(u8s_of(s0))[i] == s0[i] by {
                let x = s0[i];
                assert((x as u8) as i8 == x) by (bit_vector);
            }
            assert(i8s_of(u8s_of(s0)) =~= s0);
        },
        Value::Str(s0) => {
            let nw = s0.len() as u16;
            lemma_be2_roundtrip(nw);
            let b = be2(nw);
            assert(s[0] == b[0] && s[1] == b[1]);
            let n = from_be2(s[0], s[1]) as int;
            assert(n == s0.len());
            assert(s.subrange(2, 2 + n) =~= s0);
        },
        Value::List(t, elems) => {
            let nw = elems.len() as u32;
            lemma_be4_roundtrip(nw);
            let b = be4(nw);
            let body = enc_elems(elems);
            assert(enc_payload(v) == seq![t] + be4(nw) + body);
            assert(s[0] == t);
            assert(s[1] == b[0] && s[2] == b[1] && s[3] == b[2] && s[4] == b[3]);
            let n = from_be4(s[1], s[2], s[3], s[4]) as int;
            assert(n == elems.len());
            assert(!(t == 0 && n > 0));
            assert(s.skip(5) =~= body + rest);
            lemma_enc_dec_elems(t, elems, rest);
            assert(dec_elems(t, body + rest, n) == Some((elems, body.len() as int)));
            assert(enc_payload(v).len() == 5 + body.len());
        },
        Value::Compound(entries) => {
            assert(enc_payload(v) == enc_entries(entries) + seq![0u8]);
            assert(s =~= enc_entries(entries) + (seq![0u8] + rest));
            lemma_enc_dec_entries(entries, rest);
            assert(dec_entries(enc_entries(entries) + (seq![0u8] + rest))
                == Some((entries, enc_entries(entries).len() as int + 1)));
            assert(enc_payload(v).len() == enc_entries(entries).len() + 1);
        },
        Value::IntArray(s0) => {
            let nw = s0.len() as u32;
            lemma_be4_roundtrip(nw);
            let b = be4(nw);
            assert(s[0] == b[0] && s[1] == b[1] && s[2] == b[2] && s[3] == b[3]);
            let n = from_be4(s[0], s[1], s[2], s[3]) as int;
            assert(n == s0.len());
            assert(s.skip(4) =~= enc_ints(s0) + rest);
            lemma_enc_dec_ints(s0, rest);
            assert(enc_payload(v).len() == 4 + enc_ints(s0).len());
        },
        Value::LongArray(s0) => {
            let nw = s0.len() as u32;
            lemma_be4_roundtrip(nw);
            let b = be4(nw);
            assert(s[0] == b[0] && s[1] == b[1] && s[2] == b[2] && s[3] == b[3]);
            let n = from_be4(s[0], s[1], s[2], s[3]) as int;
            assert(n == s0.len());
            assert(s.skip(4) =~= enc_longs(s0) + rest);
            lemma_enc_dec_longs(s0, rest);
            assert(enc_payload(v).len() == 4 + enc_longs(s0).len());
        },
    }
}

/// Element form of the round trip.
pub proof fn lemma_enc_dec_elems(t: u8, elems: Seq<Value>, rest: Seq<u8>)
    requires
        forall|i: int| 0 <= i < elems.len() ==> tag_of(#[trigger] elems[i]) == t,
        forall|i: int| 0 <= i < elems.len() ==> encodable(#[trigger] elems[i]),
    ensures
        dec_elems(t, enc_elems(elems) + rest, elems.len() as int)
            == Some((elems, enc_elems(elems).len() as int)),
    decreases elems, 1int,
{
    if elems.len() == 0 {
        assert(enc_elems(elems) =~= Seq::<u8>::empty());
        assert(dec_elems(t, rest, 0) == Some((Seq::<Value>::empty(), 0int)));
        assert(elems =~= Seq::<Value>::empty());
        assert(enc_elems(elems) + rest =~= rest);
    } else {
        let e0 = elems[0];
        let tail = elems.subrange(1, elems.len() as int);
        let h = enc_payload(e0);
        let b = enc_elems(tail);
        assert(enc_elems(elems) == h + b);
        let s = enc_elems(elems) + rest;
        assert(s =~= h + (b + rest));
        lemma_enc_dec(e0, b + rest);
        assert(dec_payload(t, s) == Some((e0, h.len() as int)));
        let c0 = h.len() as int;
        assert(0 <= c0 <= s.len());
        assert(s.skip(c0) =~= b + rest);
        lemma_enc_dec_elems(t, tail, rest);
        assert(dec_elems(t, b + rest, tail.len() as int) == Some((tail, b.len() as int)));
        assert(seq![e0] + tail =~= elems);
        assert(dec_elems(t, s, elems.len() as int)
            == Some((seq![e0] + tail, c0 + b.len() as int)));
        assert(enc_elems(elems).len() == h.len() + b.len());
    }
}

/// Entry form of the round trip: entries are read back up to and
/// including the end marker.
#[verifier::rlimit(100)]
pub proof fn lemma_enc_dec_entries(entries: Seq<(Seq<u8>, Value)>, rest: Seq<u8>)
    requires
        forall|i: int| 0 <= i < entries.len() ==> (#[trigger] entries[i]).0.len() <= 0xFFFF,
        forall|i: int| 0 <= i < entries.len() ==> tag_of((#[trigger] entries[i]).1) != 0,
        forall|i: int| 0 <= i < entries.len() ==> encodable((#[trigger] entries[i]).1),
    ensures
        dec_entries(enc_entries(entries) + (seq![0u8] + rest))
            == Some((entries, enc_entries(entries).len() as int + 1)),
    decreases entries, 1int,
{
    if entries.len() == 0 {
        assert(enc_entries(entries) =~= Seq::<u8>::empty());
        let s = enc_entries(entries) + (seq![0u8] + rest);
        assert(s =~= seq![0u8] + rest);
        assert(s.len() >= 1 && s[0] == 0);
        assert(entries =~= Seq::<(Seq<u8>, Value)>::empty());
    } else {
        let p0 = entries[0];
        let key = p0.0;
        let v0 = p0.1;
        let t = tag_of(v0);
        let tail = entries.subrange(1, entries.len() as int);
        let kl = key.len() as int;
        let h = seq![t] + be2(key.len() as u16) + key + enc_payload(v0);
        let b = enc_entries(tail);
        assert(enc_entries(entries) == h + b);
        let s = enc_entries(entries) + (seq![0u8] + rest);
        assert(s =~= h + (b + (seq![0u8] + rest)));
        assert(s[0] == t);
        assert(t != 0);
        lemma_be2_roundtrip(key.len() as u16);
        let b2 = be2(key.len() as u16);
        assert(s[1] == b2[0] && s[2] == b2[1]);
        let k = from_be2(s[1], s[2]) as int;
        assert(k == kl);
        assert(s.len() >= 3 + k);
        assert(s.subrange(3, 3 + k) =~= key);
        assert(s.skip(3 + k) =~= enc_payload(v0) + (b + (seq![0u8] + rest)));
        lemma_enc_dec(v0, b + (seq![0u8] + rest));
        let c0 = enc_payload(v0).len() as int;
        assert(dec_payload(t, s.skip(3 + k)) == Some((v0, c0)));
        assert(0 <= c0 <= s.len() - 3 - k);
        assert(s.skip(3 + k + c0) =~= b + (seq![0u8] + rest));
        lemma_enc_dec_entries(tail, rest);
        assert(dec_entries(b + (seq![0u8] + rest)) == Some((tail, b.len() as int + 1)));
        assert(seq![(key, v0)] + tail =~= entries);
        assert(dec_entries(s) == Some((seq![(key, v0)] + tail, 3 + k + c0 + b.len() as int + 1)));
        assert(enc_entries(entries).len() == 3 + kl + enc_payload(v0).len() + b.len());
    }
}

/// 32-bit array form of the round trip.
pub proof fn lemma_enc_dec_ints(s0: Seq<i32>, rest: Seq<u8>)
    ensures
        enc_ints(s0).len() == 4 * s0.len(),
        dec_ints(enc_ints(s0) + rest, s0.len() as int) == Some(s0),
    decreases s0,
{
    if s0.len() == 0 {
        assert(enc_ints(s0) =~= Seq::<u8>::empty());
        assert(enc_ints(s0) + rest =~= rest);
        assert(s0 =~= Seq::<i32>::empty());
    } else {
        let x = s0[0];
        let tail = s0.subrange(1, s0.len() as int);
        let b = be4(x as u32);
        assert(enc_ints(s0) == b + enc_ints(tail));
        let s = enc_ints(s0) + rest;
        assert(s =~= b + (enc_ints(tail) + rest));
        lemma_be4_roundtrip(x as u32);
        assert(s[0] == b[0] && s[1] == b[1] && s[2] == b[2] && s[3] == b[3]);
        assert((x as u32) as i32 == x) by (bit_vector);
        lemma_enc_dec_ints(tail, rest);
        assert(s.skip(4) =~= enc_ints(tail) + rest);
        assert(seq![x] + tail =~= s0);
    }
}

/// 64-bit array form of the round trip.
pub proof fn lemma_enc_dec_longs(s0: Seq<i64>, rest: Seq<u8>)
    ensures
        enc_longs(s0).len() == 8 * s0.len(),
        dec_longs(enc_longs(s0) + rest, s0.len() as int) == Some(s0),
    decreases s0,
{
    if s0.len() == 0 {
        assert(enc_longs(s0) =~= Seq::<u8>::empty());
        assert(enc_longs(s0) + rest =~= rest);
        assert(s0 =~= Seq::<i64>::empty());
    } else {
        let x = s0[0];
        let tail = s0.subrange(1, s0.len() as int);
        let b = be8(x as u64);
        assert(enc_longs(s0) == b + enc_longs(tail));
        let s = enc_longs(s0) + rest;
        assert(s =~= b + (enc_longs(tail) + rest));
        lemma_be8_roundtrip(x as u64);
        assert(s[0] == b[0] && s[1] == b[1] && s[2] == b[2] && s[3] == b[3]
            && s[4] == b[4] && s[5] == b[5] && s[6] == b[6] && s[7] == b[7]);
        assert((x as u64) as i64 == x) by (bit_vector);
        lemma_enc_dec_longs(tail, rest);
        assert(s.skip(8) =~= enc_longs(tail) + rest);
        assert(seq![x] + tail =~= s0);
    }
}

/// Law: the codec round-trips every encodable tree exactly — the
/// decoder applied to the encoder's bytes returns the same tree,
/// element tags, key order and all, consuming every byte.
pub proof fn lemma_codec_roundtrip(v: Value)
    requires
        encodable(v),
    ensures
        dec_payload(tag_of(v), enc_payload(v)) == Some((v, enc_payload(v).len() as int)),
{
    lemma_enc_dec(v, Seq::empty());
    assert(enc_payload(v) + Seq::<u8>::empty() =~= enc_payload(v));
}

/// The bytes of a whole document: the fixed three-byte preamble (root
/// tag byte and an empty 16-bit name length) followed by the root's
/// payload.
pub open spec fn enc_file(v: Value) -> Seq<u8> {
    seq![10u8, 0u8, 0u8] + enc_payload(v)
}

/// Reads a whole document: the three-byte preamble is skipped without
/// inspection, then the root is decoded as a compound; trailing bytes
/// are ignored.
pub open spec fn dec_file(s: Seq<u8>) -> Option<Value> {
    if s.len() < 3 {
        None
    } else {
        match dec_payload(10, s.skip(3)) {
            Some((v, c)) => Some(v),
            None => None,
        }
    }
}

impl NbtElement {
    /// Reads one payload of the given tag from `bytes` at `*idx`,
    /// advancing `*idx` past it. Returns nothing — and promises the
    /// input itself has no such payload — on truncated input, an
    /// unknown tag, or a non-empty list declaring the end-marker
    /// element tag.
    pub fn from_bytes(element: u8, bytes: &[u8], idx: &mut usize) -> (r: Option<NbtElement>)
        requires
            *old(idx) <= bytes@.len(),
        ensures
            match r {
                Some(e) => {
                    &&& inv(e)
                    &&& all_closed(e)
                    &&& encodable(vof(e))
                    &&& *old(idx) <= *final(idx) <= bytes@.len()
                    &&& dec_payload(element, bytes@.skip(*old(idx) as int))
                        == Some((vof(e), *final(idx) - *old(idx)))
                },
                None => dec_payload(element, bytes@.skip(*old(idx) as int)) is None
                    && *final(idx) == *old(idx),
            },
    {
        match Self::from_bytes_at(element, bytes, *idx) {
            Some((e, end)) => {
                *idx = end;
                Some(e)
            },
            None => None,
        }
    }

    /// Cursor-style core of `from_bytes`: reads one payload of `tag`
    /// starting at `start` and returns the node with the index just
    /// past it.
    #[verifier::loop_isolation(false)]
    #[verifier::rlimit(60)]
    fn from_bytes_at(tag: u8, bytes: &[u8], start: usize) -> (r: Option<(NbtElement, usize)>)
        requires
            start <= bytes@.len(),
        ensures
            match r {
                Some((e, end)) => {
                    &&& inv(e)
                    &&& all_closed(e)
                    &&& encodable(vof(e))
                    &&& start <= end <= bytes@.len()
                    &&& dec_payload(tag, bytes@.skip(start as int))
                        == Some((vof(e), end - start))
                },
                None => dec_payload(tag, bytes@.skip(start as int)) is None,
            },
        decreases bytes@.len() - start, 1nat,
    {
        let ghost s = bytes@.skip(start as int);
        proof {
            assert(s.len() == bytes@.len() - start);
            assert(forall|i: int| 0 <= i < s.len() ==> s[i] == bytes@[start + i]);
        }
        let len = bytes.len();
        if tag == 0 {
            Some((NbtElement::Null, start))
        } else if tag == 1 {
            if len - start >= 1 {
                Some((NbtElement::Byte(bytes[start] as i8), start + 1))
            } else {
                None
            }
        } else if tag == 2 {
            if len - start >= 2 {
                let x = read_be2(bytes, start);
                Some((NbtElement::Short(x as i16), start + 2))
            } else {
                None
            }
        } else if tag == 3 {
            if len - start >= 4 {
                let x = read_be4(bytes, start);
                Some((NbtElement::Int(x as i32), start + 4))
            } else {
                None
            }
        } else if tag == 4 {
            if len - start >= 8 {
                let x = read_be8(bytes, start);
                Some((NbtElement::Long(x as i64), start + 8))
            } else {
                None
            }
        } else if tag == 5 {
            if len - start >= 4 {
                let x = read_be4(bytes, start);
                Some((NbtElement::Float(x), start + 4))
            } else {
                None
            }
        } else if tag == 6 {
            if len - start >= 8 {
                let x = read_be8(bytes, start);
                Some((NbtElement::Double(x), start + 8))
            } else {
                None
            }
        } else if tag == 7 {
            if len - start < 4 {
                return None;
            }
            let n32 = read_be4(bytes, start);
            let n = n32 as usize;
            if n > len - (start + 4) {
                proof {
                    assert(s.len() < 4 + n32 as int);
                }
                return None;
            }
            let base = start + 4;
            let mut values: Vec<i8> = Vec::new();
            let mut i: usize = 0;
            while i < n
                invariant
                    i <= n,
                    values@.len() == i,
                    forall|j: int| 0 <= j < i ==> values@[j] == bytes@[base + j] as i8,
                decreases n - i,
            {
                values.push(bytes[base + i] as i8);
                i += 1;
            }
            proof {
                assert(values@ =~= i8s_of(s.subrange(4, 4 + n as int)));
            }
            let arr = NbtByteArray::new(values);
            Some((NbtElement::ByteArray(arr), base + n))
        } else if tag == 8 {
            if len - start < 2 {
                return None;
            }
            let n16 = read_be2(bytes, start);
            let n = n16 as usize;
            if n > len - (start + 2) {
                proof {
                    assert(s.len() < 2 + n16 as int);
                }
                return None;
            }
            let base = start + 2;
            let mut sb: Vec<u8> = Vec::new();
            let mut i: usize = 0;
            while i < n
                invariant
                    i <= n,
                    sb@.len() == i,
                    forall|j: int| 0 <= j < i ==> sb@[j] == bytes@[base + j],
                decreases n - i,
            {
                sb.push(bytes[base + i]);
                i += 1;
            }
            proof {
                assert(sb@ =~= s.subrange(2, 2 + n as int));
            }
            Some((NbtElement::Str(NbtString::new(sb)), base + n))
        } else if tag == 9 {
            Self::dec_list_at(bytes, start)
        } else if tag == 10 {
            Self::dec_compound_at(bytes, start)
        } else if tag == 11 {
            Self::dec_ints_at(bytes, start)
        } else if tag == 12 {
            Self::dec_longs_at(bytes, start)
        } else {
            None
        }
    }

    /// The tag-9 arm of `from_bytes_at`.
    #[verifier::loop_isolation(false)]
    #[verifier::rlimit(100)]
    fn dec_list_at(bytes: &[u8], start: usize) -> (r: Option<(NbtElement, usize)>)
        requires
            start <= bytes@.len(),
        ensures
            match r {
                Some((e, end)) => {
                    &&& inv(e)
                    &&& all_closed(e)
                    &&& encodable(vof(e))
                    &&& start <= end <= bytes@.len()
                    &&& dec_payload(9, bytes@.skip(start as int))
                        == Some((vof(e), end - start))
                },
                None => dec_payload(9, bytes@.skip(start as int)) is None,
            },
        decreases bytes@.len() - start, 0nat,
    {
        let ghost tag: u8 = 9;
        let ghost s = bytes@.skip(start as int);
        proof {
            assert(s.len() == bytes@.len() - start);
            assert(forall|i: int| 0 <= i < s.len() ==> s[i] == bytes@[start + i]);
        }
        let len = bytes.len();
        if len - start < 5 {
            return None;
        }
        let t = bytes[start];
            let n32 = read_be4(bytes, start + 1);
            let n = n32 as usize;
            proof {
                assert(s[0] == t);
                assert(s[1] == bytes@[start + 1] && s[2] == bytes@[start + 2]
                    && s[3] == bytes@[start + 3] && s[4] == bytes@[start + 4]);
            }
            if t == 0 && n > 0 {
                return None;
            }
            let ghost s5 = s.skip(5);
            let base = start + 5;
            proof {
                assert(s5 =~= bytes@.skip(base as int));
            }
            let mut list = NbtList::new(Vec::new(), t);
            proof {
                assert(views_of(list.elements@) =~= Seq::<Value>::empty());
                assert(true_height_sum(Seq::<Value>::empty()) == 0);
            }
            let mut cur: usize = base;
            let mut i: usize = 0;
            while i < n
                invariant
                    i <= n,
                    base <= cur <= len,
                    list.element == t,
                    list.open == false,
                    list.max_depth == 0,
                    inv(NbtElement::List(list)),
                    forall|j: int| 0 <= j < list.elements@.len()
                        ==> all_closed(#[trigger] list.elements@[j]),
                    forall|j: int| 0 <= j < list.elements@.len()
                        ==> encodable(vof(#[trigger] list.elements@[j])),
                    forall|j: int| 0 <= j < list.elements@.len()
                        ==> tag_of(vof(#[trigger] list.elements@[j])) == t,
                    list.elements@.len() == i,
                    t != 0 ==> list.true_height <= 1 + cur - base,
                    t == 0 ==> cur == base,
                    dec_elems(t, s5, n as int) == (match dec_elems(t, bytes@.skip(cur as int),
                        n - i) {
                        Some((rest, k)) => Some::<(Seq<Value>, int)>((
                            views_of(list.elements@) + rest,
                            cur - base + k,
                        )),
                        None => None::<(Seq<Value>, int)>,
                    }),
                decreases n - i,
            {
                let ghost scur = bytes@.skip(cur as int);
                let child_opt = Self::from_bytes_at(t, bytes, cur);
                match child_opt {
                    Some((child, end)) => {
                        let ghost oldcur = cur;
                        let ghost c = end - cur;
                        let ghost prev = list.elements@;
                        proof {
                            lemma_dec_props(t, scur);
                            assert(dec_payload(t, scur) == Some((vof(child), c)));
                            assert(true_height_of(vof(child)) <= c);
                            assert(0 <= c <= scur.len());
                            assert(scur.skip(c) =~= bytes@.skip(end as int));
                            let p = prev.push(child);
                            lemma_views_of(prev);
                            lemma_views_of(p);
                            assert forall|q: int| 0 <= q < p.len()
                                implies views_of(p)[q]
                                    == views_of(prev).push(vof(child))[q] by {
                                assert(views_of(p)[q] == vof(p[q]));
                                if q < prev.len() {
                                    assert(p[q] == prev[q]);
                                    assert(views_of(prev)[q] == vof(prev[q]));
                                } else {
                                    assert(p[q] == child);
                                }
                            }
                            assert(views_of(p) =~= views_of(prev).push(vof(child)));
                            crate::element::lemma_true_sum_concat(views_of(prev),
                                seq![vof(child)]);
                            assert(seq![vof(child)].subrange(1, 1) =~= Seq::<Value>::empty());
                            assert(true_height_sum(seq![vof(child)])
                                == true_height_of(vof(child)));
                            assert(views_of(prev).push(vof(child))
                                =~= views_of(prev) + seq![vof(child)]);
                        }
                        list.push(child);
                        cur = end;
                        i += 1;
                        proof {
                            assert(list.elements@ == prev.push(child));
                            assert(views_of(list.elements@)
                                == views_of(prev).push(vof(child)));
                            assert(dec_elems(t, bytes@.skip(oldcur as int), n - i + 1)
                                == (match dec_elems(t, bytes@.skip(cur as int), n - i) {
                                Some((rest, k)) => Some::<(Seq<Value>, int)>((
                                    seq![vof(child)] + rest,
                                    c + k,
                                )),
                                None => None::<(Seq<Value>, int)>,
                            }));
                            match dec_elems(t, bytes@.skip(cur as int), n - i) {
                                Some((rest, k)) => {
                                    assert(views_of(list.elements@) + rest
                                        =~= views_of(prev) + (seq![vof(child)] + rest));
                                },
                                None => {},
                            }
                        }
                    },
                    None => {
                        proof {
                            assert(dec_payload(t, scur) is None);
                        }
                        return None;
                    },
                }
            }
            proof {
                assert(dec_elems(t, bytes@.skip(cur as int), 0)
                    == Some((Seq::<Value>::empty(), 0int)));
                assert(views_of(list.elements@) + Seq::<Value>::empty()
                    =~= views_of(list.elements@));
                assert(dec_elems(t, s5, n as int)
                    == Some((views_of(list.elements@), cur - base as int)));
                assert(dec_payload(tag, s)
                    == Some((Value::List(t, views_of(list.elements@)), cur - start as int)));
                lemma_views_of(list.elements@);
                let vs = views_of(list.elements@);
                assert forall|q: int| 0 <= q < vs.len()
                    implies tag_of(#[trigger] vs[q]) == t && encodable(vs[q]) by {
                    assert(vs[q] == vof(list.elements@[q]));
                }
                assert(encodable(Value::List(t, vs)));
                assert(all_closed(NbtElement::List(list)));
            }
            Some((NbtElement::List(list), cur))
    }

    /// The tag-10 arm of `from_bytes_at`.
    #[verifier::loop_isolation(false)]
    #[verifier::rlimit(100)]
    fn dec_compound_at(bytes: &[u8], start: usize) -> (r: Option<(NbtElement, usize)>)
        requires
            start <= bytes@.len(),
        ensures
            match r {
                Some((e, end)) => {
                    &&& inv(e)
                    &&& all_closed(e)
                    &&& encodable(vof(e))
                    &&& start <= end <= bytes@.len()
                    &&& dec_payload(10, bytes@.skip(start as int))
                        == Some((vof(e), end - start))
                },
                None => dec_payload(10, bytes@.skip(start as int)) is None,
            },
        decreases bytes@.len() - start, 0nat,
    {
        let ghost tag: u8 = 10;
        let ghost s = bytes@.skip(start as int);
        proof {
            assert(s.len() == bytes@.len() - start);
            assert(forall|i: int| 0 <= i < s.len() ==> s[i] == bytes@[start + i]);
        }
        let len = bytes.len();
        {
            let mut cpd = NbtCompound::new();
            proof {
                assert(entry_views_of(cpd.entries@) =~= Seq::<(Seq<u8>, Value)>::empty());
                assert(true_height_entry_sum(Seq::<(Seq<u8>, Value)>::empty()) == 0);
            }
            let mut cur: usize = start;
            loop
                invariant
                    start <= cur <= len,
                    len == bytes@.len(),
                    cpd.open == false,
                    cpd.max_depth == 0,
                    inv(NbtElement::Compound(cpd)),
                    forall|j: int| 0 <= j < cpd.entries@.len()
                        ==> all_closed((#[trigger] cpd.entries@[j]).1),
                    forall|j: int| 0 <= j < cpd.entries@.len()
                        ==> encodable(vof((#[trigger] cpd.entries@[j]).1)),
                    forall|j: int| 0 <= j < cpd.entries@.len()
                        ==> tag_of(vof((#[trigger] cpd.entries@[j]).1)) != 0,
                    forall|j: int| 0 <= j < cpd.entries@.len()
                        ==> (#[trigger] cpd.entries@[j]).0@.len() <= 0xFFFF,
                    true_height_entry_sum(entry_views_of(cpd.entries@)) <= cur - start,
                    dec_entries(s) == (match dec_entries(bytes@.skip(cur as int)) {
                        Some((rest, k)) => Some::<(Seq<(Seq<u8>, Value)>, int)>((
                            entry_views_of(cpd.entries@) + rest,
                            cur - start + k,
                        )),
                        None => None::<(Seq<(Seq<u8>, Value)>, int)>,
                    }),
                decreases len - cur,
            {
                let ghost scur = bytes@.skip(cur as int);
                proof {
                    assert(forall|i: int| 0 <= i < scur.len() ==> scur[i] == bytes@[cur + i]);
                }
                if len - cur < 1 {
                    return None;
                }
                let t = bytes[cur];
                if t == 0 {
                    proof {
                        lemma_entry_views_of(cpd.entries@);
                        let es = entry_views_of(cpd.entries@);
                        assert forall|q: int| 0 <= q < es.len()
                            implies (#[trigger] es[q]).0.len() <= 0xFFFF
                                && tag_of(es[q].1) != 0 && encodable(es[q].1) by {
                            assert(es[q] == (cpd.entries@[q].0@, vof(cpd.entries@[q].1)));
                        }
                        assert(encodable(Value::Compound(es)));
                        assert(dec_entries(scur)
                            == Some((Seq::<(Seq<u8>, Value)>::empty(), 1int)));
                        assert(entry_views_of(cpd.entries@) + Seq::<(Seq<u8>, Value)>::empty()
                            =~= entry_views_of(cpd.entries@));
                        assert(dec_entries(s)
                            == Some((entry_views_of(cpd.entries@), cur + 1 - start as int)));
                        assert(dec_payload(tag, s)
                            == Some((Value::Compound(entry_views_of(cpd.entries@)),
                                cur + 1 - start as int)));
                    }
                    return Some((NbtElement::Compound(cpd), cur + 1));
                }
                if len - cur < 3 {
                    return None;
                }
                let klen16 = read_be2(bytes, cur + 1);
                let klen = klen16 as usize;
                if klen > len - (cur + 3) {
                    proof {
                        assert(scur.len() < 3 + klen16 as int);
                    }
                    return None;
                }
                let kbase = cur + 3;
                let mut key: Vec<u8> = Vec::new();
                let mut j: usize = 0;
                while j < klen
                    invariant
                        j <= klen,
                        key@.len() == j,
                        forall|q: int| 0 <= q < j ==> key@[q] == bytes@[kbase + q],
                    decreases klen - j,
                {
                    key.push(bytes[kbase + j]);
                    j += 1;
                }
                proof {
                    assert(key@ =~= scur.subrange(3, 3 + klen as int));
                }
                let child_opt = Self::from_bytes_at(t, bytes, kbase + klen);
                match child_opt {
                    Some((child, end)) => {
                        let ghost oldcur = cur;
                        let ghost spay = bytes@.skip((kbase + klen) as int);
                        let ghost c = end - (kbase + klen);
                        let ghost prev = cpd.entries@;
                        proof {
                            assert(spay =~= scur.skip(3 + klen as int));
                            lemma_dec_props(t, spay);
                            assert(dec_payload(t, spay) == Some((vof(child), c)));
                            assert(true_height_of(vof(child)) <= c);
                            assert(0 <= c <= spay.len());
                            assert(scur.skip(3 + klen + c) =~= bytes@.skip(end as int));
                            let p = prev.push((key, child));
                            lemma_entry_views_of(prev);
                            lemma_entry_views_of(p);
                            assert forall|q: int| 0 <= q < p.len()
                                implies entry_views_of(p)[q]
                                    == entry_views_of(prev).push((key@, vof(child)))[q] by {
                                assert(entry_views_of(p)[q] == (p[q].0@, vof(p[q].1)));
                                if q < prev.len() {
                                    assert(p[q] == prev[q]);
                                    assert(entry_views_of(prev)[q]
                                        == (prev[q].0@, vof(prev[q].1)));
                                } else {
                                    assert(p[q] == (key, child));
                                }
                            }
                            assert(entry_views_of(p)
                                =~= entry_views_of(prev).push((key@, vof(child))));
                            crate::element::lemma_true_entry_sum_concat(
                                entry_views_of(prev), seq![(key@, vof(child))]);
                            assert(seq![(key@, vof(child))].subrange(1, 1)
                                =~= Seq::<(Seq<u8>, Value)>::empty());
                            assert(true_height_entry_sum(seq![(key@, vof(child))])
                                == true_height_of(vof(child)));
                            assert(entry_views_of(prev).push((key@, vof(child)))
                                =~= entry_views_of(prev) + seq![(key@, vof(child))]);
                        }
                        cpd.put(key, child);
                        cur = end;
                        proof {
                            assert(cpd.entries@ == prev.push((key, child)));
                            assert(entry_views_of(cpd.entries@)
                                == entry_views_of(prev).push((key@, vof(child))));
                            assert(dec_entries(bytes@.skip(oldcur as int))
                                == (match dec_entries(bytes@.skip(cur as int)) {
                                Some((rest, k)) => Some::<(Seq<(Seq<u8>, Value)>, int)>((
                                    seq![(key@, vof(child))] + rest,
                                    3 + klen + c + k,
                                )),
                                None => None::<(Seq<(Seq<u8>, Value)>, int)>,
                            }));
                            match dec_entries(bytes@.skip(cur as int)) {
                                Some((rest, k)) => {
                                    assert(entry_views_of(cpd.entries@) + rest
                                        =~= entry_views_of(prev)
                                            + (seq![(key@, vof(child))] + rest));
                                },
                                None => {},
                            }
                        }
                    },
                    None => {
                        proof {
                            assert(dec_payload(t, bytes@.skip((kbase + klen) as int))
                                is None);
                            assert(bytes@.skip((kbase + klen) as int)
                                =~= scur.skip(3 + klen as int));
                            assert(dec_entries(scur) is None);
                        }
                        return None;
                    },
                }
            }
        }
    }

    /// The tag-11 arm of `from_bytes_at`.
    #[verifier::loop_isolation(false)]
    #[verifier::rlimit(100)]
    fn dec_ints_at(bytes: &[u8], start: usize) -> (r: Option<(NbtElement, usize)>)
        requires
            start <= bytes@.len(),
        ensures
            match r {
                Some((e, end)) => {
                    &&& inv(e)
                    &&& all_closed(e)
                    &&& encodable(vof(e))
                    &&& start <= end <= bytes@.len()
                    &&& dec_payload(11, bytes@.skip(start as int))
                        == Some((vof(e), end - start))
                },
                None => dec_payload(11, bytes@.skip(start as int)) is None,
            },
        decreases bytes@.len() - start, 0nat,
    {
        let ghost tag: u8 = 11;
        let ghost s = bytes@.skip(start as int);
        proof {
            assert(s.len() == bytes@.len() - start);
            assert(forall|i: int| 0 <= i < s.len() ==> s[i] == bytes@[start + i]);
        }
        let len = bytes.len();
        {
            if len - start < 4 {
                return None;
            }
            let n32 = read_be4(bytes, start);
            let n = n32 as usize;
            let base = start + 4;
            let ghost s4 = s.skip(4);
            proof {
                assert(s4 =~= bytes@.skip(base as int));
            }
            let mut values: Vec<i32> = Vec::new();
            let mut cur: usize = base;
            let mut i: usize = 0;
            while i < n
                invariant
                    i <= n,
                    base <= cur <= len,
                    cur == base + 4 * i,
                    values@.len() == i,
                    dec_ints(s4, n as int) == (match dec_ints(bytes@.skip(cur as int), n - i) {
                        Some(rest) => Some::<Seq<i32>>(values@ + rest),
                        None => None::<Seq<i32>>,
                    }),
                decreases n - i,
            {
                if len - cur < 4 {
                    proof {
                        assert(bytes@.skip(cur as int).len() < 4);
                        assert(dec_ints(bytes@.skip(cur as int), n - i) is None);
                    }
                    return None;
                }
                let x = read_be4(bytes, cur);
                let ghost prev = values@;
                values.push(x as i32);
                proof {
                    let scur = bytes@.skip(cur as int);
                    assert(scur[0] == bytes@[cur as int] && scur[1] == bytes@[cur + 1]
                        && scur[2] == bytes@[cur + 2] && scur[3] == bytes@[cur + 3]);
                    assert(scur.skip(4) =~= bytes@.skip(cur + 4));
                    match dec_ints(bytes@.skip(cur + 4), n - i - 1) {
                        Some(rest) => {
                            assert(prev + (seq![x as i32] + rest) =~= values@ + rest);
                        },
                        None => {},
                    }
                }
                cur = cur + 4;
                i += 1;
            }
            proof {
                assert(dec_ints(bytes@.skip(cur as int), 0) == Some(Seq::<i32>::empty()));
                assert(values@ + Seq::<i32>::empty() =~= values@);
                assert(dec_ints(s4, n as int) == Some(values@));
                assert(cur - start == 4 + 4 * n as int);
            }
            let arr = NbtIntArray::new(values);
            Some((NbtElement::IntArray(arr), cur))
        }
    }

    /// The tag-12 arm of `from_bytes_at`.
    #[verifier::loop_isolation(false)]
    #[verifier::rlimit(100)]
    fn dec_longs_at(bytes: &[u8], start: usize) -> (r: Option<(NbtElement, usize)>)
        requires
            start <= bytes@.len(),
        ensures
            match r {
                Some((e, end)) => {
                    &&& inv(e)
                    &&& all_closed(e)
                    &&& encodable(vof(e))
                    &&& start <= end <= bytes@.len()
                    &&& dec_payload(12, bytes@.skip(start as int))
                        == Some((vof(e), end - start))
                },
                None => dec_payload(12, bytes@.skip(start as int)) is None,
            },
        decreases bytes@.len() - start, 0nat,
    {
        let ghost tag: u8 = 12;
        let ghost s = bytes@.skip(start as int);
        proof {
            assert(s.len() == bytes@.len() - start);
            assert(forall|i: int| 0 <= i < s.len() ==> s[i] == bytes@[start + i]);
        }
        let len = bytes.len();
        {
            if len - start < 4 {
                return None;
            }
            let n32 = read_be4(bytes, start);
            let n = n32 as usize;
            let base = start + 4;
            let ghost s4 = s.skip(4);
            proof {
                assert(s4 =~= bytes@.skip(base as int));
            }
            let mut values: Vec<i64> = Vec::new();
            let mut cur: usize = base;
            let mut i: usize = 0;
            while i < n
                invariant
                    i <= n,
                    base <= cur <= len,
                    cur == base + 8 * i,
                    values@.len() == i,
                    dec_longs(s4, n as int) == (match dec_longs(bytes@.skip(cur as int), n - i) {
                        Some(rest) => Some::<Seq<i64>>(values@ + rest),
                        None => None::<Seq<i64>>,
                    }),
                decreases n - i,
            {
                if len - cur < 8 {
                    proof {
                        assert(bytes@.skip(cur as int).len() < 8);
                        assert(dec_longs(bytes@.skip(cur as int), n - i) is None);
                    }
                    return None;
                }
                let x = read_be8(bytes, cur);
                let ghost prev = values@;
                values.push(x as i64);
                proof {
                    let scur = bytes@.skip(cur as int);
                    assert(scur[0] == bytes@[cur as int] && scur[1] == bytes@[cur + 1]
                        && scur[2] == bytes@[cur + 2] && scur[3] == bytes@[cur + 3]
                        && scur[4] == bytes@[cur + 4] && scur[5] == bytes@[cur + 5]
                        && scur[6] == bytes@[cur + 6] && scur[7] == bytes@[cur + 7]);
                    assert(scur.skip(8) =~= bytes@.skip(cur + 8));
                    match dec_longs(bytes@.skip(cur + 8), n - i - 1) {
                        Some(rest) => {
                            assert(prev + (seq![x as i64] + rest) =~= values@ + rest);
                        },
                        None => {},
                    }
                }
                cur = cur + 8;
                i += 1;
            }
            proof {
                assert(dec_longs(bytes@.skip(cur as int), 0) == Some(Seq::<i64>::empty()));
                assert(values@ + Seq::<i64>::empty() =~= values@);
                assert(dec_longs(s4, n as int) == Some(values@));
                assert(cur - start == 4 + 8 * n as int);
            }
            let arr = NbtLongArray::new(values);
            Some((NbtElement::LongArray(arr), cur))
        }
    }
}

/// Law: a whole document round-trips — reading back the written bytes
/// of any encodable compound root returns the same tree.
#[verifier::rlimit(100)]
pub proof fn lemma_file_roundtrip(v: Value)
    requires
        encodable(v),
        tag_of(v) == 10,
    ensures
        dec_file(enc_file(v)) == Some(v),
{
    let ef = enc_file(v);
    assert(ef.len() == 3 + enc_payload(v).len());
    assert(ef.skip(3) =~= enc_payload(v));
    lemma_codec_roundtrip(v);
    assert(dec_payload(10, ef.skip(3)) == Some((v, enc_payload(v).len() as int)));
    assert(dec_file(ef) == Some(v));
}
} // verus!
