//! The executable half of the binary tag codec: the streaming encoder
//! and decoder, proved against the spec functions in `codec`.

use vstd::prelude::*;

use crate::be_bytes::be2;
use crate::be_bytes::be4;
use crate::be_bytes::be8;
use crate::be_bytes::from_be2;
use crate::be_bytes::from_be4;
use crate::be_bytes::from_be8;
use crate::be_bytes::write_be2;
use crate::be_bytes::write_be4;
use crate::be_bytes::write_be8;
use crate::be_bytes::read_be2;
use crate::be_bytes::read_be4;
use crate::be_bytes::read_be8;
use crate::codec::dec_elems;
use crate::codec::dec_entries;
use crate::codec::dec_file;
use crate::codec::dec_ints;
use crate::codec::dec_longs;
use crate::codec::dec_payload;
use crate::codec::enc_elems;
use crate::codec::enc_entries;
use crate::codec::enc_file;
use crate::codec::enc_ints;
use crate::codec::enc_longs;
use crate::codec::enc_payload;
use crate::codec::i8s_of;
use crate::codec::u8s_of;
use crate::codec::lemma_dec_props;
use crate::element::NbtCompound;
use crate::element::NbtElement;
use crate::element::NbtList;
use crate::element::NbtString;
use crate::element::NbtByteArray;
use crate::element::NbtIntArray;
use crate::element::NbtLongArray;
use crate::element::all_closed;
use crate::element::inv;
use crate::element::theight_of;
use crate::element::views_of;
use crate::element::entry_views_of;
use crate::element::vof;
use crate::element::lemma_views_of;
use crate::element::lemma_entry_views_of;
use crate::value::Value;
use crate::value::encodable;
use crate::value::tag_of;
use crate::value::true_height_of;
use crate::value::true_height_sum;
use crate::value::true_height_entry_sum;

verus! {

/// Concatenation splits element encodings.
pub proof fn lemma_enc_elems_concat(a: Seq<Value>, b: Seq<Value>)
    ensures
        enc_elems(a + b) == enc_elems(a) + enc_elems(b),
    decreases a.len(),
{
    if a.len() == 0 {
        assert(a + b =~= b);
        assert(enc_elems(a) + enc_elems(b) =~= enc_elems(b));
    } else {
        let c = a + b;
        assert(c[0] == a[0]);
        assert(c.subrange(1, c.len() as int) =~= a.subrange(1, a.len() as int) + b);
        lemma_enc_elems_concat(a.subrange(1, a.len() as int), b);
        assert(enc_elems(c)
            == enc_payload(c[0]) + enc_elems(c.subrange(1, c.len() as int)));
        assert(enc_elems(a)
            == enc_payload(a[0]) + enc_elems(a.subrange(1, a.len() as int)));
        assert(enc_elems(c) =~= enc_elems(a) + enc_elems(b));
    }
}

/// Concatenation splits entry encodings.
pub proof fn lemma_enc_entries_concat(a: Seq<(Seq<u8>, Value)>, b: Seq<(Seq<u8>, Value)>)
    ensures
        enc_entries(a + b) == enc_entries(a) + enc_entries(b),
    decreases a.len(),
{
    if a.len() == 0 {
        assert(a + b =~= b);
        assert(enc_entries(a) + enc_entries(b) =~= enc_entries(b));
    } else {
        let c = a + b;
        assert(c[0] == a[0]);
        assert(c.subrange(1, c.len() as int) =~= a.subrange(1, a.len() as int) + b);
        lemma_enc_entries_concat(a.subrange(1, a.len() as int), b);
        assert(enc_entries(c)
            == seq![tag_of(c[0].1)] + be2(c[0].0.len() as u16) + c[0].0 + enc_payload(c[0].1)
                + enc_entries(c.subrange(1, c.len() as int)));
        assert(enc_entries(a)
            == seq![tag_of(a[0].1)] + be2(a[0].0.len() as u16) + a[0].0 + enc_payload(a[0].1)
                + enc_entries(a.subrange(1, a.len() as int)));
        assert(enc_entries(c) =~= enc_entries(a) + enc_entries(b));
    }
}

/// Concatenation splits 32-bit word encodings.
pub proof fn lemma_enc_ints_concat(a: Seq<i32>, b: Seq<i32>)
    ensures
        enc_ints(a + b) == enc_ints(a) + enc_ints(b),
    decreases a.len(),
{
    if a.len() == 0 {
        assert(a + b =~= b);
        assert(enc_ints(a) + enc_ints(b) =~= enc_ints(b));
    } else {
        let c = a + b;
        assert(c[0] == a[0]);
        assert(c.subrange(1, c.len() as int) =~= a.subrange(1, a.len() as int) + b);
        lemma_enc_ints_concat(a.subrange(1, a.len() as int), b);
        assert(enc_ints(c) == be4(c[0] as u32) + enc_ints(c.subrange(1, c.len() as int)));
        assert(enc_ints(a) == be4(a[0] as u32) + enc_ints(a.subrange(1, a.len() as int)));
        assert(enc_ints(c) =~= enc_ints(a) + enc_ints(b));
    }
}

/// Concatenation splits 64-bit word encodings.
pub proof fn lemma_enc_longs_concat(a: Seq<i64>, b: Seq<i64>)
    ensures
        enc_longs(a + b) == enc_longs(a) + enc_longs(b),
    decreases a.len(),
{
    if a.len() == 0 {
        assert(a + b =~= b);
        assert(enc_longs(a) + enc_longs(b) =~= enc_longs(b));
    } else {
        let c = a + b;
        assert(c[0] == a[0]);
        assert(c.subrange(1, c.len() as int) =~= a.subrange(1, a.len() as int) + b);
        lemma_enc_longs_concat(a.subrange(1, a.len() as int), b);
        assert(enc_longs(c) == be8(c[0] as u64) + enc_longs(c.subrange(1, c.len() as int)));
        assert(enc_longs(a) == be8(a[0] as u64) + enc_longs(a.subrange(1, a.len() as int)));
        assert(enc_longs(c) =~= enc_longs(a) + enc_longs(b));
    }
}

/// Single-element encodings, unfolded.
pub proof fn lemma_enc_singletons(v: Value, p: (Seq<u8>, Value), x: i32, y: i64)
    ensures
        enc_elems(seq![v]) == enc_payload(v),
        enc_entries(seq![p])
            == seq![tag_of(p.1)] + be2(p.0.len() as u16) + p.0 + enc_payload(p.1),
        enc_ints(seq![x]) == be4(x as u32),
        enc_longs(seq![y]) == be8(y as u64),
{
    assert(seq![v].subrange(1, 1) =~= Seq::<Value>::empty());
    assert(enc_elems(seq![v])
        == enc_payload(seq![v][0]) + enc_elems(seq![v].subrange(1, 1)));
    assert(enc_elems(seq![v]) =~= enc_payload(v));
    assert(seq![p].subrange(1, 1) =~= Seq::<(Seq<u8>, Value)>::empty());
    assert(enc_entries(seq![p])
        == seq![tag_of(seq![p][0].1)] + be2(seq![p][0].0.len() as u16) + seq![p][0].0
            + enc_payload(seq![p][0].1) + enc_entries(seq![p].subrange(1, 1)));
    assert(enc_entries(seq![p])
        =~= seq![tag_of(p.1)] + be2(p.0.len() as u16) + p.0 + enc_payload(p.1));
    assert(seq![x].subrange(1, 1) =~= Seq::<i32>::empty());
    assert(enc_ints(seq![x]) == be4(seq![x][0] as u32) + enc_ints(seq![x].subrange(1, 1)));
    assert(enc_ints(seq![x]) =~= be4(x as u32));
    assert(seq![y].subrange(1, 1) =~= Seq::<i64>::empty());
    assert(enc_longs(seq![y]) == be8(seq![y][0] as u64) + enc_longs(seq![y].subrange(1, 1)));
    assert(enc_longs(seq![y]) =~= be8(y as u64));
}

impl NbtElement {
    /// Writes this node's payload bytes (everything but its own tag
    /// byte) to the writer.
    #[verifier::loop_isolation(false)]
    #[verifier::rlimit(100)]
    pub fn to_bytes(&self, writer: &mut Vec<u8>)
        requires
            inv(*self),
            encodable(vof(*self)),
        ensures
            final(writer)@ == old(writer)@ + enc_payload(vof(*self)),
        decreases *self,
    {
        let ghost pre = writer@;
        match self {
            NbtElement::Null => {
                proof {
                    assert(pre + enc_payload(vof(*self)) =~= pre);
                }
            },
            NbtElement::Byte(x) => {
                writer.push(*x as u8);
                proof {
                    assert(writer@ =~= pre + enc_payload(vof(*self)));
                }
            },
            NbtElement::Short(x) => {
                write_be2(writer, *x as u16);
            },
            NbtElement::Int(x) => {
                write_be4(writer, *x as u32);
            },
            NbtElement::Long(x) => {
                write_be8(writer, *x as u64);
            },
            NbtElement::Float(x) => {
                write_be4(writer, *x);
            },
            NbtElement::Double(x) => {
                write_be8(writer, *x);
            },
            NbtElement::ByteArray(a) => {
                let n = a.values.len();
                write_be4(writer, n as u32);
                let ghost mid = writer@;
                let mut i: usize = 0;
                proof {
                    assert(u8s_of(a.values@.take(0)) =~= Seq::<u8>::empty());
                    assert(mid + u8s_of(a.values@.take(0)) =~= mid);
                }
                while i < n
                    invariant
                        i <= n,
                        writer@ == mid + u8s_of(a.values@.take(i as int)),
                    decreases n - i,
                {
                    writer.push(a.values[i] as u8);
                    proof {
                        assert(u8s_of(a.values@.take(i + 1))
                            =~= u8s_of(a.values@.take(i as int)).push(a.values@[i as int] as u8));
                        assert(writer@ =~= mid + u8s_of(a.values@.take(i + 1)));
                    }
                    i += 1;
                }
                proof {
                    assert(a.values@.take(n as int) =~= a.values@);
                    assert(writer@ =~= pre + enc_payload(vof(*self)));
                }
            },
            NbtElement::Str(st) => {
                let n = st.bytes.len();
                write_be2(writer, n as u16);
                let ghost mid = writer@;
                let mut i: usize = 0;
                proof {
                    assert(mid + st.bytes@.take(0) =~= mid);
                }
                while i < n
                    invariant
                        i <= n,
                        writer@ == mid + st.bytes@.take(i as int),
                    decreases n - i,
                {
                    writer.push(st.bytes[i]);
                    proof {
                        assert(st.bytes@.take(i + 1)
                            =~= st.bytes@.take(i as int).push(st.bytes@[i as int]));
                        assert(writer@ =~= mid + st.bytes@.take(i + 1));
                    }
                    i += 1;
                }
                proof {
                    assert(st.bytes@.take(n as int) =~= st.bytes@);
                    assert(writer@ =~= pre + enc_payload(vof(*self)));
                }
            },
            NbtElement::List(l) => {
                let ghost vs = views_of(l.elements@);
                proof {
                    lemma_views_of(l.elements@);
                }
                writer.push(l.element);
                let n = l.elements.len();
                write_be4(writer, n as u32);
                let ghost mid = writer@;
                let mut i: usize = 0;
                proof {
                    assert(vs.take(0) =~= Seq::<Value>::empty());
                    assert(mid + enc_elems(vs.take(0)) =~= mid);
                }
                while i < n
                    invariant
                        i <= n,
                        writer@ == mid + enc_elems(vs.take(i as int)),
                    decreases n - i,
                {
                    proof {
                        let gl = self->List_0;
                        assert(decreases_to!(*self => gl));
                        assert(decreases_to!(gl => gl.elements));
                        assert(decreases_to!(gl.elements => gl.elements@));
                        assert(decreases_to!(gl.elements@ => gl.elements@[i as int]));
                    }
                    l.elements[i].to_bytes(writer);
                    proof {
                        assert(vs.take(i + 1) =~= vs.take(i as int) + seq![vs[i as int]]);
                        lemma_enc_elems_concat(vs.take(i as int), seq![vs[i as int]]);
                        lemma_enc_singletons(vs[i as int], (seq![], Value::Null), 0, 0);
                        assert(writer@ =~= mid + enc_elems(vs.take(i + 1)));
                    }
                    i += 1;
                }
                proof {
                    assert(vs.take(n as int) =~= vs);
                    assert(pre + enc_payload(vof(*self))
                        =~= pre + (seq![l.element] + be4(n as u32) + enc_elems(vs)));
                    assert(writer@ =~= pre + enc_payload(vof(*self)));
                }
            },
            NbtElement::Compound(c) => {
                let ghost es = entry_views_of(c.entries@);
                proof {
                    lemma_entry_views_of(c.entries@);
                }
                let n = c.entries.len();
                let ghost mid = writer@;
                let mut i: usize = 0;
                proof {
                    assert(es.take(0) =~= Seq::<(Seq<u8>, Value)>::empty());
                    assert(mid + enc_entries(es.take(0)) =~= mid);
                }
                while i < n
                    invariant
                        i <= n,
                        writer@ == mid + enc_entries(es.take(i as int)),
                    decreases n - i,
                {
                    let tag = c.entries[i].1.id();
                    writer.push(tag);
                    let klen = c.entries[i].0.len();
                    write_be2(writer, klen as u16);
                    let ghost kmid = writer@;
                    let mut j: usize = 0;
                    proof {
                        assert(kmid + c.entries@[i as int].0@.take(0) =~= kmid);
                    }
                    while j < klen
                        invariant
                            j <= klen,
                            writer@ == kmid + c.entries@[i as int].0@.take(j as int),
                        decreases klen - j,
                    {
                        writer.push(c.entries[i].0[j]);
                        proof {
                            assert(c.entries@[i as int].0@.take(j + 1)
                                =~= c.entries@[i as int].0@.take(j as int)
                                    .push(c.entries@[i as int].0@[j as int]));
                            assert(writer@ =~= kmid + c.entries@[i as int].0@.take(j + 1));
                        }
                        j += 1;
                    }
                    proof {
                        assert(c.entries@[i as int].0@.take(klen as int)
                            =~= c.entries@[i as int].0@);
                        let gc = self->Compound_0;
                        assert(decreases_to!(*self => gc));
                        assert(decreases_to!(gc => gc.entries));
                        assert(decreases_to!(gc.entries => gc.entries@));
                        assert(decreases_to!(gc.entries@ => gc.entries@[i as int]));
                        assert(decreases_to!(gc.entries@[i as int] => gc.entries@[i as int].1));
                        assert(es[i as int] == (c.entries@[i as int].0@,
                            vof(c.entries@[i as int].1)));
                        assert(encodable(vof(*self)));
                        assert(vof(*self) == Value::Compound(es));
                        assert(encodable(es[i as int].1));
                    }
                    c.entries[i].1.to_bytes(writer);
                    proof {
                        assert(es.take(i + 1) =~= es.take(i as int) + seq![es[i as int]]);
                        lemma_enc_entries_concat(es.take(i as int), seq![es[i as int]]);
                        lemma_enc_singletons(Value::Null, es[i as int], 0, 0);
                        assert(writer@ =~= mid + enc_entries(es.take(i + 1)));
                    }
                    i += 1;
                }
                writer.push(0u8);
                proof {
                    assert(es.take(n as int) =~= es);
                    assert(writer@ =~= pre + enc_payload(vof(*self)));
                }
            },
            NbtElement::IntArray(a) => {
                let n = a.values.len();
                write_be4(writer, n as u32);
                let ghost mid = writer@;
                let mut i: usize = 0;
                proof {
                    assert(a.values@.take(0) =~= Seq::<i32>::empty());
                    assert(mid + enc_ints(a.values@.take(0)) =~= mid);
                }
                while i < n
                    invariant
                        i <= n,
                        writer@ == mid + enc_ints(a.values@.take(i as int)),
                    decreases n - i,
                {
                    write_be4(writer, a.values[i] as u32);
                    proof {
                        assert(a.values@.take(i + 1)
                            =~= a.values@.take(i as int) + seq![a.values@[i as int]]);
                        lemma_enc_ints_concat(a.values@.take(i as int), seq![a.values@[i as int]]);
                        lemma_enc_singletons(Value::Null, (seq![], Value::Null),
                            a.values@[i as int], 0);
                        assert(writer@ =~= mid + enc_ints(a.values@.take(i + 1)));
                    }
                    i += 1;
                }
                proof {
                    assert(a.values@.take(n as int) =~= a.values@);
                    assert(writer@ =~= pre + enc_payload(vof(*self)));
                }
            },
            NbtElement::LongArray(a) => {
                let n = a.values.len();
                write_be4(writer, n as u32);
                let ghost mid = writer@;
                let mut i: usize = 0;
                proof {
                    assert(a.values@.take(0) =~= Seq::<i64>::empty());
                    assert(mid + enc_longs(a.values@.take(0)) =~= mid);
                }
                while i < n
                    invariant
                        i <= n,
                        writer@ == mid + enc_longs(a.values@.take(i as int)),
                    decreases n - i,
                {
                    write_be8(writer, a.values[i] as u64);
                    proof {
                        assert(a.values@.take(i + 1)
                            =~= a.values@.take(i as int) + seq![a.values@[i as int]]);
                        lemma_enc_longs_concat(a.values@.take(i as int),
                            seq![a.values@[i as int]]);
                        lemma_enc_singletons(Value::Null, (seq![], Value::Null), 0,
                            a.values@[i as int]);
                        assert(writer@ =~= mid + enc_longs(a.values@.take(i + 1)));
                    }
                    i += 1;
                }
                proof {
                    assert(a.values@.take(n as int) =~= a.values@);
                    assert(writer@ =~= pre + enc_payload(vof(*self)));
                }
            },
        }
    }
}

impl NbtElement {
    /// Reads a whole document: skips the three-byte preamble without
    /// inspecting it, then decodes the root as a compound. Trailing
    /// bytes are ignored, as the format's readers do.
    pub fn from_file(bytes: &[u8]) -> (r: Option<NbtElement>)
        ensures
            match r {
                Some(e) => {
                    &&& inv(e)
                    &&& all_closed(e)
                    &&& encodable(vof(e))
                    &&& tag_of(vof(e)) == 10
                    &&& dec_file(bytes@) == Some(vof(e))
                },
                None => dec_file(bytes@) is None,
            },
    {
        if bytes.len() < 3 {
            return None;
        }
        let mut idx: usize = 3;
        match Self::from_bytes(10, bytes, &mut idx) {
            Some(e) => Some(e),
            None => None,
        }
    }

    /// Writes a whole document: the three-byte preamble (compound tag,
    /// empty name) followed by this node's payload.
    pub fn to_file(&self) -> (r: Vec<u8>)
        requires
            inv(*self),
            encodable(vof(*self)),
        ensures
            r@ == enc_file(vof(*self)),
    {
        let mut writer: Vec<u8> = Vec::new();
        writer.push(0x0Au8);
        writer.push(0x00u8);
        writer.push(0x00u8);
        proof {
            assert(writer@ =~= seq![10u8, 0u8, 0u8]);
        }
        self.to_bytes(&mut writer);
        writer
    }
}

} // verus!
