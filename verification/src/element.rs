//! The executable tagged value tree.
//!
//! Each composite node carries the display caches of the data model:
//! `height` (rows shown when the node is expanded), `true_height` (rows
//! when every descendant is expanded), the expansion flag and the cached
//! nesting depth. The caches are maintained incrementally by every
//! mutation; `inv` ties them to the recursive definitions, and `view`
//! maps a node to its pure model in `value`.

use vstd::prelude::*;

use crate::value::Value;
use crate::value::tag_of;
use crate::value::true_height_of;
use crate::value::true_height_sum;
use crate::value::true_height_entry_sum;

verus! {

/// A string node: the raw bytes the format carries.
#[derive(Debug, PartialEq, Eq, Clone)]
pub struct NbtString {
    pub bytes: Vec<u8>,
}

/// An array of 8-bit integers with its display caches.
#[derive(Debug, PartialEq, Eq, Clone)]
pub struct NbtByteArray {
    pub values: Vec<i8>,
    pub height: usize,
    pub true_height: usize,
    pub open: bool,
    pub max_depth: usize,
}

/// An array of 32-bit integers with its display caches.
#[derive(Debug, PartialEq, Eq, Clone)]
pub struct NbtIntArray {
    pub values: Vec<i32>,
    pub height: usize,
    pub true_height: usize,
    pub open: bool,
    pub max_depth: usize,
}

/// An array of 64-bit integers with its display caches.
#[derive(Debug, PartialEq, Eq, Clone)]
pub struct NbtLongArray {
    pub values: Vec<i64>,
    pub height: usize,
    pub true_height: usize,
    pub open: bool,
    pub max_depth: usize,
}

/// A homogeneous list: the declared element tag and the children.
#[derive(Debug, PartialEq, Eq)]
pub struct NbtList {
    pub elements: Vec<NbtElement>,
    pub element: u8,
    pub height: usize,
    pub true_height: usize,
    pub open: bool,
    pub max_depth: usize,
}

/// A keyed map in insertion order.
#[derive(Debug, PartialEq, Eq)]
pub struct NbtCompound {
    pub entries: Vec<(Vec<u8>, NbtElement)>,
    pub height: usize,
    pub true_height: usize,
    pub open: bool,
    pub max_depth: usize,
}

/// One node of the tree: the thirteen kinds of the format.
///
/// The two floating-point kinds hold their IEEE-754 bit patterns, which
/// is exactly what the byte format stores.
#[derive(Debug, PartialEq, Eq)]
pub enum NbtElement {
    Null,
    Byte(i8),
    Short(i16),
    Int(i32),
    Long(i64),
    Float(u32),
    Double(u64),
    ByteArray(NbtByteArray),
    Str(NbtString),
    List(NbtList),
    Compound(NbtCompound),
    IntArray(NbtIntArray),
    LongArray(NbtLongArray),
}

/// The pure model of a node.
pub open spec fn vof(e: NbtElement) -> Value
    decreases e,
{
    match e {
        NbtElement::Null => Value::Null,
        NbtElement::Byte(x) => Value::Byte(x),
        NbtElement::Short(x) => Value::Short(x),
        NbtElement::Int(x) => Value::Int(x),
        NbtElement::Long(x) => Value::Long(x),
        NbtElement::Float(x) => Value::Float(x),
        NbtElement::Double(x) => Value::Double(x),
        NbtElement::ByteArray(a) => Value::ByteArray(a.values@),
        NbtElement::Str(s) => Value::Str(s.bytes@),
        NbtElement::List(l) => Value::List(l.element, views_of(l.elements@)),
        NbtElement::Compound(c) => Value::Compound(entry_views_of(c.entries@)),
        NbtElement::IntArray(a) => Value::IntArray(a.values@),
        NbtElement::LongArray(a) => Value::LongArray(a.values@),
    }
}

/// The models of a sequence of nodes.
pub open spec fn views_of(s: Seq<NbtElement>) -> Seq<Value>
    decreases s,
{
    if s.len() == 0 {
        Seq::empty()
    } else {
        seq![vof(s[0])] + views_of(s.subrange(1, s.len() as int))
    }
}

/// The models of a sequence of keyed entries.
pub open spec fn entry_views_of(s: Seq<(Vec<u8>, NbtElement)>) -> Seq<(Seq<u8>, Value)>
    decreases s,
{
    if s.len() == 0 {
        Seq::empty()
    } else {
        seq![(s[0].0@, vof(s[0].1))] + entry_views_of(s.subrange(1, s.len() as int))
    }
}

impl View for NbtElement {
    type V = Value;

    open spec fn view(&self) -> Value {
        vof(*self)
    }
}

/// `views_of` maps the sequence pointwise.
pub proof fn lemma_views_of(s: Seq<NbtElement>)
    ensures
        views_of(s).len() == s.len(),
        forall|i: int| 0 <= i < s.len() ==> views_of(s)[i] == vof(#[trigger] s[i]),
    decreases s.len(),
{
    if s.len() > 0 {
        let sub = s.subrange(1, s.len() as int);
        lemma_views_of(sub);
        assert(views_of(s) == seq![vof(s[0])] + views_of(sub));
        assert forall|i: int| 0 <= i < s.len() implies views_of(s)[i] == vof(#[trigger] s[i]) by {
            if i > 0 {
                assert(views_of(s)[i] == views_of(sub)[i - 1]);
                assert(sub[i - 1] == s[i]);
            }
        }
    }
}

/// `entry_views_of` maps the sequence pointwise.
pub proof fn lemma_entry_views_of(s: Seq<(Vec<u8>, NbtElement)>)
    ensures
        entry_views_of(s).len() == s.len(),
        forall|i: int| 0 <= i < s.len()
            ==> entry_views_of(s)[i] == ((#[trigger] s[i]).0@, vof(s[i].1)),
    decreases s.len(),
{
    if s.len() > 0 {
        let sub = s.subrange(1, s.len() as int);
        lemma_entry_views_of(sub);
        assert(entry_views_of(s) == seq![(s[0].0@, vof(s[0].1))] + entry_views_of(sub));
        assert forall|i: int| 0 <= i < s.len()
            implies entry_views_of(s)[i] == ((#[trigger] s[i]).0@, vof(s[i].1)) by {
            if i > 0 {
                assert(entry_views_of(s)[i] == entry_views_of(sub)[i - 1]);
                assert(sub[i - 1] == s[i]);
            }
        }
    }
}

/// Rows a node currently occupies: one if collapsed or a leaf, else one
/// plus the rows of its visible children.
pub open spec fn height_of(e: NbtElement) -> nat
    decreases e,
{
    match e {
        NbtElement::ByteArray(a) => if a.open { 1 + a.values@.len() } else { 1 },
        NbtElement::IntArray(a) => if a.open { 1 + a.values@.len() } else { 1 },
        NbtElement::LongArray(a) => if a.open { 1 + a.values@.len() } else { 1 },
        NbtElement::List(l) => if l.open { 1 + height_sum(l.elements@) } else { 1 },
        NbtElement::Compound(c) => if c.open { 1 + entry_height_sum(c.entries@) } else { 1 },
        _ => 1,
    }
}

/// Sum of the visible rows of a sequence of nodes.
pub open spec fn height_sum(s: Seq<NbtElement>) -> nat
    decreases s,
{
    if s.len() == 0 {
        0
    } else {
        height_of(s[0]) + height_sum(s.subrange(1, s.len() as int))
    }
}

/// Sum of the visible rows of a sequence of keyed entries.
pub open spec fn entry_height_sum(s: Seq<(Vec<u8>, NbtElement)>) -> nat
    decreases s,
{
    if s.len() == 0 {
        0
    } else {
        height_of(s[0].1) + entry_height_sum(s.subrange(1, s.len() as int))
    }
}

/// The expanded row count of a node, read off its model.
pub open spec fn theight_of(e: NbtElement) -> nat {
    true_height_of(vof(e))
}

/// Well-formedness: every cached row count equals its recursive
/// definition, and only a node with children may be expanded.
pub open spec fn inv(e: NbtElement) -> bool
    decreases e,
{
    match e {
        NbtElement::ByteArray(a) => {
            &&& a.height == 1 + a.values@.len()
            &&& a.true_height == 1 + a.values@.len()
            &&& (a.open ==> a.values@.len() > 0)
        },
        NbtElement::IntArray(a) => {
            &&& a.height == 1 + a.values@.len()
            &&& a.true_height == 1 + a.values@.len()
            &&& (a.open ==> a.values@.len() > 0)
        },
        NbtElement::LongArray(a) => {
            &&& a.height == 1 + a.values@.len()
            &&& a.true_height == 1 + a.values@.len()
            &&& (a.open ==> a.values@.len() > 0)
        },
        NbtElement::List(l) => {
            &&& l.height == 1 + height_sum(l.elements@)
            &&& l.true_height == 1 + true_height_sum(views_of(l.elements@))
            &&& (l.open ==> l.elements@.len() > 0)
            &&& (forall|i: int| 0 <= i < l.elements@.len() ==> inv(#[trigger] l.elements@[i]))
        },
        NbtElement::Compound(c) => {
            &&& c.height == 1 + entry_height_sum(c.entries@)
            &&& c.true_height == 1 + true_height_entry_sum(entry_views_of(c.entries@))
            &&& (c.open ==> c.entries@.len() > 0)
            &&& (forall|i: int| 0 <= i < c.entries@.len() ==> inv((#[trigger] c.entries@[i]).1))
        },
        _ => true,
    }
}

/// A node shows at most as many rows as it would fully expanded.
pub proof fn lemma_height_le_true_height(e: NbtElement)
    requires
        inv(e),
    ensures
        height_of(e) <= theight_of(e),
    decreases e, 0nat,
{
    match e {
        NbtElement::List(l) => {
            if l.open {
                lemma_height_sum_le(l.elements@);
            } else {
                lemma_true_height_pos(vof(e));
            }
        },
        NbtElement::Compound(c) => {
            if c.open {
                lemma_entry_height_sum_le(c.entries@);
            } else {
                lemma_true_height_pos(vof(e));
            }
        },
        _ => {},
    }
}

/// Sum form of `lemma_height_le_true_height` for list children.
pub proof fn lemma_height_sum_le(s: Seq<NbtElement>)
    requires
        forall|i: int| 0 <= i < s.len() ==> inv(#[trigger] s[i]),
    ensures
        height_sum(s) <= true_height_sum(views_of(s)),
    decreases s, 1nat,
{
    if s.len() > 0 {
        let sub = s.subrange(1, s.len() as int);
        lemma_height_le_true_height(s[0]);
        lemma_height_sum_le(sub);
        assert(height_sum(s) == height_of(s[0]) + height_sum(sub));
        assert(views_of(s) == seq![vof(s[0])] + views_of(sub));
        let vs = views_of(s);
        assert(vs.len() > 0 && vs[0] == vof(s[0])) by {
            lemma_views_of(s);
        }
        assert(vs.subrange(1, vs.len() as int) =~= views_of(sub)) by {
            lemma_views_of(s);
            lemma_views_of(sub);
        }
        assert(true_height_sum(vs)
            == true_height_of(vs[0]) + true_height_sum(vs.subrange(1, vs.len() as int)));
    }
}

/// Sum form of `lemma_height_le_true_height` for compound entries.
pub proof fn lemma_entry_height_sum_le(s: Seq<(Vec<u8>, NbtElement)>)
    requires
        forall|i: int| 0 <= i < s.len() ==> inv((#[trigger] s[i]).1),
    ensures
        entry_height_sum(s) <= true_height_entry_sum(entry_views_of(s)),
    decreases s, 1nat,
{
    if s.len() > 0 {
        let sub = s.subrange(1, s.len() as int);
        lemma_height_le_true_height(s[0].1);
        lemma_entry_height_sum_le(sub);
        assert(entry_height_sum(s) == height_of(s[0].1) + entry_height_sum(sub));
        assert(entry_views_of(s) == seq![(s[0].0@, vof(s[0].1))] + entry_views_of(sub));
        let vs = entry_views_of(s);
        assert(vs.len() > 0 && vs[0].1 == vof(s[0].1)) by {
            lemma_entry_views_of(s);
        }
        assert(vs.subrange(1, vs.len() as int) =~= entry_views_of(sub)) by {
            lemma_entry_views_of(s);
            lemma_entry_views_of(sub);
        }
        assert(true_height_entry_sum(vs)
            == true_height_of(vs[0].1) + true_height_entry_sum(vs.subrange(1, vs.len() as int)));
    }
}

/// Every node occupies at least one row.
pub proof fn lemma_true_height_pos(v: Value)
    ensures
        true_height_of(v) >= 1,
{
}


/// Splitting a concatenation splits the row sum.
pub proof fn lemma_height_sum_concat(a: Seq<NbtElement>, b: Seq<NbtElement>)
    ensures
        height_sum(a + b) == height_sum(a) + height_sum(b),
    decreases a.len(),
{
    if a.len() == 0 {
        assert(a + b =~= b);
    } else {
        let c = a + b;
        assert(c[0] == a[0]);
        assert(c.subrange(1, c.len() as int) =~= a.subrange(1, a.len() as int) + b);
        lemma_height_sum_concat(a.subrange(1, a.len() as int), b);
        assert(height_sum(c) == height_of(c[0]) + height_sum(c.subrange(1, c.len() as int)));
        assert(height_sum(a) == height_of(a[0]) + height_sum(a.subrange(1, a.len() as int)));
    }
}

/// Splitting a concatenation splits the row sum of keyed entries.
pub proof fn lemma_entry_height_sum_concat(a: Seq<(Vec<u8>, NbtElement)>, b: Seq<(Vec<u8>, NbtElement)>)
    ensures
        entry_height_sum(a + b) == entry_height_sum(a) + entry_height_sum(b),
    decreases a.len(),
{
    if a.len() == 0 {
        assert(a + b =~= b);
    } else {
        let c = a + b;
        assert(c[0] == a[0]);
        assert(c.subrange(1, c.len() as int) =~= a.subrange(1, a.len() as int) + b);
        lemma_entry_height_sum_concat(a.subrange(1, a.len() as int), b);
        assert(entry_height_sum(c)
            == height_of(c[0].1) + entry_height_sum(c.subrange(1, c.len() as int)));
        assert(entry_height_sum(a)
            == height_of(a[0].1) + entry_height_sum(a.subrange(1, a.len() as int)));
    }
}

/// The model of a concatenation is the concatenation of the models.
pub proof fn lemma_views_of_concat(a: Seq<NbtElement>, b: Seq<NbtElement>)
    ensures
        views_of(a + b) == views_of(a) + views_of(b),
    decreases a.len(),
{
    if a.len() == 0 {
        assert(a + b =~= b);
        assert(views_of(a) + views_of(b) =~= views_of(b));
    } else {
        let c = a + b;
        assert(c[0] == a[0]);
        assert(c.subrange(1, c.len() as int) =~= a.subrange(1, a.len() as int) + b);
        lemma_views_of_concat(a.subrange(1, a.len() as int), b);
        assert(views_of(c) == seq![vof(c[0])] + views_of(c.subrange(1, c.len() as int)));
        assert(views_of(a) == seq![vof(a[0])] + views_of(a.subrange(1, a.len() as int)));
        assert(views_of(c) =~= views_of(a) + views_of(b));
    }
}

/// The model of a concatenation of entries, likewise.
pub proof fn lemma_entry_views_of_concat(
    a: Seq<(Vec<u8>, NbtElement)>,
    b: Seq<(Vec<u8>, NbtElement)>,
)
    ensures
        entry_views_of(a + b) == entry_views_of(a) + entry_views_of(b),
    decreases a.len(),
{
    if a.len() == 0 {
        assert(a + b =~= b);
        assert(entry_views_of(a) + entry_views_of(b) =~= entry_views_of(b));
    } else {
        let c = a + b;
        assert(c[0] == a[0]);
        assert(c.subrange(1, c.len() as int) =~= a.subrange(1, a.len() as int) + b);
        lemma_entry_views_of_concat(a.subrange(1, a.len() as int), b);
        assert(entry_views_of(c)
            == seq![(c[0].0@, vof(c[0].1))] + entry_views_of(c.subrange(1, c.len() as int)));
        assert(entry_views_of(a)
            == seq![(a[0].0@, vof(a[0].1))] + entry_views_of(a.subrange(1, a.len() as int)));
        assert(entry_views_of(c) =~= entry_views_of(a) + entry_views_of(b));
    }
}

/// Splitting a concatenation splits the fully-expanded row sum.
pub proof fn lemma_true_sum_concat(a: Seq<Value>, b: Seq<Value>)
    ensures
        true_height_sum(a + b) == true_height_sum(a) + true_height_sum(b),
    decreases a.len(),
{
    if a.len() == 0 {
        assert(a + b =~= b);
    } else {
        let c = a + b;
        assert(c[0] == a[0]);
        assert(c.subrange(1, c.len() as int) =~= a.subrange(1, a.len() as int) + b);
        lemma_true_sum_concat(a.subrange(1, a.len() as int), b);
        assert(true_height_sum(c)
            == true_height_of(c[0]) + true_height_sum(c.subrange(1, c.len() as int)));
        assert(true_height_sum(a)
            == true_height_of(a[0]) + true_height_sum(a.subrange(1, a.len() as int)));
    }
}

/// Splitting a concatenation of model entries, likewise.
pub proof fn lemma_true_entry_sum_concat(a: Seq<(Seq<u8>, Value)>, b: Seq<(Seq<u8>, Value)>)
    ensures
        true_height_entry_sum(a + b) == true_height_entry_sum(a) + true_height_entry_sum(b),
    decreases a.len(),
{
    if a.len() == 0 {
        assert(a + b =~= b);
    } else {
        let c = a + b;
        assert(c[0] == a[0]);
        assert(c.subrange(1, c.len() as int) =~= a.subrange(1, a.len() as int) + b);
        lemma_true_entry_sum_concat(a.subrange(1, a.len() as int), b);
        assert(true_height_entry_sum(c)
            == true_height_of(c[0].1) + true_height_entry_sum(c.subrange(1, c.len() as int)));
        assert(true_height_entry_sum(a)
            == true_height_of(a[0].1) + true_height_entry_sum(a.subrange(1, a.len() as int)));
    }
}

/// Row sums of singletons.
pub proof fn lemma_sums_singleton(e: NbtElement)
    ensures
        height_sum(seq![e]) == height_of(e),
        views_of(seq![e]) == seq![vof(e)],
        true_height_sum(seq![vof(e)]) == theight_of(e),
{
    assert(seq![e].subrange(1, 1) =~= Seq::<NbtElement>::empty());
    assert(height_sum(seq![e]) == height_of(seq![e][0]) + height_sum(seq![e].subrange(1, 1)));
    assert(views_of(seq![e]) == seq![vof(seq![e][0])] + views_of(seq![e].subrange(1, 1)));
    assert(views_of(seq![e]) =~= seq![vof(e)]);
    let v = seq![vof(e)];
    assert(v.subrange(1, 1) =~= Seq::<Value>::empty());
    assert(true_height_sum(v) == true_height_of(v[0]) + true_height_sum(v.subrange(1, 1)));
}

/// Row sums of singleton keyed entries.
pub proof fn lemma_entry_sums_singleton(p: (Vec<u8>, NbtElement))
    ensures
        entry_height_sum(seq![p]) == height_of(p.1),
        entry_views_of(seq![p]) == seq![(p.0@, vof(p.1))],
        true_height_entry_sum(seq![(p.0@, vof(p.1))]) == theight_of(p.1),
{
    assert(seq![p].subrange(1, 1) =~= Seq::<(Vec<u8>, NbtElement)>::empty());
    assert(entry_height_sum(seq![p])
        == height_of(seq![p][0].1) + entry_height_sum(seq![p].subrange(1, 1)));
    assert(entry_views_of(seq![p])
        == seq![(seq![p][0].0@, vof(seq![p][0].1))] + entry_views_of(seq![p].subrange(1, 1)));
    assert(entry_views_of(seq![p]) =~= seq![(p.0@, vof(p.1))]);
    let v = seq![(p.0@, vof(p.1))];
    assert(v.subrange(1, 1) =~= Seq::<(Seq<u8>, Value)>::empty());
    assert(true_height_entry_sum(v)
        == true_height_of(v[0].1) + true_height_entry_sum(v.subrange(1, 1)));
}


/// Whether a node is currently expanded.
pub open spec fn open_of(e: NbtElement) -> bool {
    match e {
        NbtElement::ByteArray(a) => a.open,
        NbtElement::IntArray(a) => a.open,
        NbtElement::LongArray(a) => a.open,
        NbtElement::List(l) => l.open,
        NbtElement::Compound(c) => c.open,
        _ => false,
    }
}

/// Number of children a node owns (array slots, list elements or map
/// entries; zero for leaves).
pub open spec fn child_count(e: NbtElement) -> nat {
    match e {
        NbtElement::ByteArray(a) => a.values@.len(),
        NbtElement::IntArray(a) => a.values@.len(),
        NbtElement::LongArray(a) => a.values@.len(),
        NbtElement::List(l) => l.elements@.len(),
        NbtElement::Compound(c) => c.entries@.len(),
        _ => 0,
    }
}

/// The model of the empty node of each tag: what `from_id` builds. An
/// unknown tag falls back to the long-array kind, and the empty list
/// carries the out-of-band element tag `0xFF`.
pub open spec fn default_value(id: u8) -> Value {
    if id == 0 { Value::Null }
    else if id == 1 { Value::Byte(0) }
    else if id == 2 { Value::Short(0) }
    else if id == 3 { Value::Int(0) }
    else if id == 4 { Value::Long(0) }
    else if id == 5 { Value::Float(0) }
    else if id == 6 { Value::Double(0) }
    else if id == 7 { Value::ByteArray(Seq::empty()) }
    else if id == 8 { Value::Str(Seq::empty()) }
    else if id == 9 { Value::List(0xFF, Seq::empty()) }
    else if id == 10 { Value::Compound(Seq::empty()) }
    else if id == 11 { Value::IntArray(Seq::empty()) }
    else { Value::LongArray(Seq::empty()) }
}

/// A node with its two cached row counts replaced; leaves are unchanged.
pub open spec fn with_counts(e: NbtElement, h: usize, th: usize) -> NbtElement {
    match e {
        NbtElement::ByteArray(a) => NbtElement::ByteArray(
            NbtByteArray { height: h, true_height: th, ..a },
        ),
        NbtElement::IntArray(a) => NbtElement::IntArray(
            NbtIntArray { height: h, true_height: th, ..a },
        ),
        NbtElement::LongArray(a) => NbtElement::LongArray(
            NbtLongArray { height: h, true_height: th, ..a },
        ),
        NbtElement::List(l) => NbtElement::List(NbtList { height: h, true_height: th, ..l }),
        NbtElement::Compound(c) => NbtElement::Compound(
            NbtCompound { height: h, true_height: th, ..c },
        ),
        _ => e,
    }
}

/// The cached row count of a node (1 for leaves).
pub open spec fn cached_height(e: NbtElement) -> nat {
    match e {
        NbtElement::ByteArray(a) => a.height as nat,
        NbtElement::IntArray(a) => a.height as nat,
        NbtElement::LongArray(a) => a.height as nat,
        NbtElement::List(l) => l.height as nat,
        NbtElement::Compound(c) => c.height as nat,
        _ => 1,
    }
}

/// The cached fully-expanded row count of a node (1 for leaves).
pub open spec fn cached_true_height(e: NbtElement) -> nat {
    match e {
        NbtElement::ByteArray(a) => a.true_height as nat,
        NbtElement::IntArray(a) => a.true_height as nat,
        NbtElement::LongArray(a) => a.true_height as nat,
        NbtElement::List(l) => l.true_height as nat,
        NbtElement::Compound(c) => c.true_height as nat,
        _ => 1,
    }
}

impl NbtElement {
    /// The one-byte tag of this node's kind.
    pub fn id(&self) -> (r: u8)
        ensures
            r == tag_of(self@),
    {
        match self {
            NbtElement::Null => 0,
            NbtElement::Byte(_) => 1,
            NbtElement::Short(_) => 2,
            NbtElement::Int(_) => 3,
            NbtElement::Long(_) => 4,
            NbtElement::Float(_) => 5,
            NbtElement::Double(_) => 6,
            NbtElement::ByteArray(_) => 7,
            NbtElement::Str(_) => 8,
            NbtElement::List(_) => 9,
            NbtElement::Compound(_) => 10,
            NbtElement::IntArray(_) => 11,
            NbtElement::LongArray(_) => 12,
        }
    }

    /// The empty node of a tag; an unknown tag yields a long array.
    pub fn from_id(id: u8) -> (r: Self)
        ensures
            vof(r) == default_value(id),
            inv(r),
            all_closed(r),
            !open_of(r),
            child_count(r) == 0,
    {
        if id == 0 { NbtElement::Null }
        else if id == 1 { NbtElement::Byte(0) }
        else if id == 2 { NbtElement::Short(0) }
        else if id == 3 { NbtElement::Int(0) }
        else if id == 4 { NbtElement::Long(0) }
        else if id == 5 { NbtElement::Float(0) }
        else if id == 6 { NbtElement::Double(0) }
        else if id == 7 {
            NbtElement::ByteArray(NbtByteArray {
                values: Vec::new(), height: 1, true_height: 1, open: false, max_depth: 0,
            })
        }
        else if id == 8 { NbtElement::Str(NbtString { bytes: Vec::new() }) }
        else if id == 9 {
            NbtElement::List(NbtList {
                elements: Vec::new(), element: 0xFF, height: 1, true_height: 1,
                open: false, max_depth: 0,
            })
        }
        else if id == 10 {
            NbtElement::Compound(NbtCompound {
                entries: Vec::new(), height: 1, true_height: 1, open: false, max_depth: 0,
            })
        }
        else if id == 11 {
            NbtElement::IntArray(NbtIntArray {
                values: Vec::new(), height: 1, true_height: 1, open: false, max_depth: 0,
            })
        }
        else {
            NbtElement::LongArray(NbtLongArray {
                values: Vec::new(), height: 1, true_height: 1, open: false, max_depth: 0,
            })
        }
    }

    /// Rows this node currently occupies on screen.
    pub fn height(&self) -> (r: usize)
        requires
            inv(*self),
        ensures
            r == height_of(*self),
    {
        match self {
            NbtElement::ByteArray(a) => if a.open { a.height } else { 1 },
            NbtElement::IntArray(a) => if a.open { a.height } else { 1 },
            NbtElement::LongArray(a) => if a.open { a.height } else { 1 },
            NbtElement::List(l) => if l.open { l.height } else { 1 },
            NbtElement::Compound(c) => if c.open { c.height } else { 1 },
            _ => 1,
        }
    }

    /// Rows this node would occupy with every descendant expanded.
    pub fn true_height(&self) -> (r: usize)
        requires
            inv(*self),
        ensures
            r == theight_of(*self),
    {
        match self {
            NbtElement::ByteArray(a) => a.true_height,
            NbtElement::IntArray(a) => a.true_height,
            NbtElement::LongArray(a) => a.true_height,
            NbtElement::List(l) => l.true_height,
            NbtElement::Compound(c) => c.true_height,
            _ => 1,
        }
    }

    /// Whether this node is currently expanded.
    pub fn open(&self) -> (r: bool)
        ensures
            r == open_of(*self),
    {
        match self {
            NbtElement::ByteArray(a) => a.open,
            NbtElement::IntArray(a) => a.open,
            NbtElement::LongArray(a) => a.open,
            NbtElement::List(l) => l.open,
            NbtElement::Compound(c) => c.open,
            _ => false,
        }
    }

    /// Raises both cached row counts, after a subtree grew below this
    /// node; leaves are unchanged.
    pub fn increment(&mut self, amount: usize, true_amount: usize)
        requires
            is_composite(*old(self)) ==> cached_height(*old(self)) + amount <= usize::MAX
                && cached_true_height(*old(self)) + true_amount <= usize::MAX,
        ensures
            *final(self) == with_counts(
                *old(self),
                (cached_height(*old(self)) + amount) as usize,
                (cached_true_height(*old(self)) + true_amount) as usize,
            ),
    {
        match self {
            NbtElement::ByteArray(a) => {
                a.height = a.height + amount;
                a.true_height = a.true_height + true_amount;
            },
            NbtElement::IntArray(a) => {
                a.height = a.height + amount;
                a.true_height = a.true_height + true_amount;
            },
            NbtElement::LongArray(a) => {
                a.height = a.height + amount;
                a.true_height = a.true_height + true_amount;
            },
            NbtElement::List(l) => {
                l.height = l.height + amount;
                l.true_height = l.true_height + true_amount;
            },
            NbtElement::Compound(c) => {
                c.height = c.height + amount;
                c.true_height = c.true_height + true_amount;
            },
            _ => {},
        }
    }

    /// Lowers both cached row counts, after a subtree shrank below this
    /// node; leaves are unchanged.
    pub fn decrement(&mut self, amount: usize, true_amount: usize)
        requires
            is_composite(*old(self)) ==> amount <= cached_height(*old(self))
                && true_amount <= cached_true_height(*old(self)),
        ensures
            *final(self) == with_counts(
                *old(self),
                (cached_height(*old(self)) - amount) as usize,
                (cached_true_height(*old(self)) - true_amount) as usize,
            ),
    {
        match self {
            NbtElement::ByteArray(a) => {
                a.height = a.height - amount;
                a.true_height = a.true_height - true_amount;
            },
            NbtElement::IntArray(a) => {
                a.height = a.height - amount;
                a.true_height = a.true_height - true_amount;
            },
            NbtElement::LongArray(a) => {
                a.height = a.height - amount;
                a.true_height = a.true_height - true_amount;
            },
            NbtElement::List(l) => {
                l.height = l.height - amount;
                l.true_height = l.true_height - true_amount;
            },
            NbtElement::Compound(c) => {
                c.height = c.height - amount;
                c.true_height = c.true_height - true_amount;
            },
            _ => {},
        }
    }
}

/// Every expansion flag in the subtree is off.
pub open spec fn all_closed(e: NbtElement) -> bool
    decreases e,
{
    match e {
        NbtElement::ByteArray(a) => !a.open,
        NbtElement::IntArray(a) => !a.open,
        NbtElement::LongArray(a) => !a.open,
        NbtElement::List(l) => {
            &&& !l.open
            &&& forall|i: int| 0 <= i < l.elements@.len() ==> all_closed(#[trigger] l.elements@[i])
        },
        NbtElement::Compound(c) => {
            &&& !c.open
            &&& forall|i: int| 0 <= i < c.entries@.len()
                ==> all_closed((#[trigger] c.entries@[i]).1)
        },
        _ => true,
    }
}

/// Every node of the subtree with children is expanded.
pub open spec fn all_expanded(e: NbtElement) -> bool
    decreases e,
{
    match e {
        NbtElement::ByteArray(a) => a.values@.len() > 0 ==> a.open,
        NbtElement::IntArray(a) => a.values@.len() > 0 ==> a.open,
        NbtElement::LongArray(a) => a.values@.len() > 0 ==> a.open,
        NbtElement::List(l) => {
            &&& (l.elements@.len() > 0 ==> l.open)
            &&& forall|i: int| 0 <= i < l.elements@.len() ==> all_expanded(#[trigger] l.elements@[i])
        },
        NbtElement::Compound(c) => {
            &&& (c.entries@.len() > 0 ==> c.open)
            &&& forall|i: int| 0 <= i < c.entries@.len() ==> all_expanded((#[trigger] c.entries@[i]).1)
        },
        _ => true,
    }
}

/// Each node shows at least one row.
pub proof fn lemma_height_sum_ge_len(s: Seq<NbtElement>)
    ensures
        height_sum(s) >= s.len(),
    decreases s.len(),
{
    if s.len() > 0 {
        let sub = s.subrange(1, s.len() as int);
        assert(height_sum(s) == height_of(s[0]) + height_sum(sub));
        lemma_height_sum_ge_len(sub);
    }
}

/// Keyed entries likewise show at least one row each.
pub proof fn lemma_entry_height_sum_ge_len(s: Seq<(Vec<u8>, NbtElement)>)
    ensures
        entry_height_sum(s) >= s.len(),
    decreases s.len(),
{
    if s.len() > 0 {
        let sub = s.subrange(1, s.len() as int);
        assert(entry_height_sum(s) == height_of(s[0].1) + entry_height_sum(sub));
        lemma_entry_height_sum_ge_len(sub);
    }
}

/// When every node of a sequence shows exactly one row, the sum is the
/// length.
pub proof fn lemma_height_sum_all_one(s: Seq<NbtElement>)
    requires
        forall|i: int| 0 <= i < s.len() ==> height_of(#[trigger] s[i]) == 1,
    ensures
        height_sum(s) == s.len(),
    decreases s.len(),
{
    if s.len() > 0 {
        lemma_height_sum_all_one(s.subrange(1, s.len() as int));
    }
}

/// Entry form of `lemma_height_sum_all_one`.
pub proof fn lemma_entry_height_sum_all_one(s: Seq<(Vec<u8>, NbtElement)>)
    requires
        forall|i: int| 0 <= i < s.len() ==> height_of((#[trigger] s[i]).1) == 1,
    ensures
        entry_height_sum(s) == s.len(),
    decreases s.len(),
{
    if s.len() > 0 {
        lemma_entry_height_sum_all_one(s.subrange(1, s.len() as int));
    }
}

/// Row sums depend only on the pointwise visible heights.
pub proof fn lemma_height_sum_pointwise(a: Seq<NbtElement>, b: Seq<NbtElement>)
    requires
        a.len() == b.len(),
        forall|i: int| 0 <= i < a.len()
            ==> height_of(#[trigger] a[i]) == height_of(#[trigger] b[i]),
    ensures
        height_sum(a) == height_sum(b),
    decreases a.len(),
{
    if a.len() > 0 {
        lemma_height_sum_pointwise(a.subrange(1, a.len() as int), b.subrange(1, b.len() as int));
    }
}

/// Entry form of `lemma_height_sum_pointwise`.
pub proof fn lemma_entry_height_sum_pointwise(
    a: Seq<(Vec<u8>, NbtElement)>,
    b: Seq<(Vec<u8>, NbtElement)>,
)
    requires
        a.len() == b.len(),
        forall|i: int| 0 <= i < a.len()
            ==> height_of((#[trigger] a[i]).1) == height_of((#[trigger] b[i]).1),
    ensures
        entry_height_sum(a) == entry_height_sum(b),
    decreases a.len(),
{
    if a.len() > 0 {
        lemma_entry_height_sum_pointwise(
            a.subrange(1, a.len() as int),
            b.subrange(1, b.len() as int),
        );
    }
}

/// Models depend only on the pointwise models.
pub proof fn lemma_views_of_pointwise(a: Seq<NbtElement>, b: Seq<NbtElement>)
    requires
        a.len() == b.len(),
        forall|i: int| 0 <= i < a.len() ==> vof(#[trigger] a[i]) == vof(#[trigger] b[i]),
    ensures
        views_of(a) == views_of(b),
    decreases a.len(),
{
    lemma_views_of(a);
    lemma_views_of(b);
    assert forall|i: int| 0 <= i < a.len()
        implies views_of(a)[i] == views_of(b)[i] by {
        assert(views_of(a)[i] == vof(a[i]));
        assert(views_of(b)[i] == vof(b[i]));
    }
    assert(views_of(a) =~= views_of(b));
}

/// Entry form of `lemma_views_of_pointwise`.
pub proof fn lemma_entry_views_of_pointwise(
    a: Seq<(Vec<u8>, NbtElement)>,
    b: Seq<(Vec<u8>, NbtElement)>,
)
    requires
        a.len() == b.len(),
        forall|i: int| 0 <= i < a.len()
            ==> (#[trigger] a[i]).0@ == (#[trigger] b[i]).0@ && vof(a[i].1) == vof(b[i].1),
    ensures
        entry_views_of(a) == entry_views_of(b),
{
    lemma_entry_views_of(a);
    lemma_entry_views_of(b);
    assert forall|i: int| 0 <= i < a.len()
        implies entry_views_of(a)[i] == entry_views_of(b)[i] by {
        assert(entry_views_of(a)[i] == (a[i].0@, vof(a[i].1)));
        assert(entry_views_of(b)[i] == (b[i].0@, vof(b[i].1)));
    }
    assert(entry_views_of(a) =~= entry_views_of(b));
}

/// Effect of removing one node on models and row sums.
pub proof fn lemma_elem_remove(s: Seq<NbtElement>, i: int)
    requires
        0 <= i < s.len(),
    ensures
        height_sum(s) >= height_of(s[i]),
        height_sum(s.remove(i)) == height_sum(s) - height_of(s[i]),
        views_of(s.remove(i)) == views_of(s).remove(i),
        true_height_sum(views_of(s)) >= theight_of(s[i]),
        true_height_sum(views_of(s.remove(i)))
            == true_height_sum(views_of(s)) - theight_of(s[i]),
{
    let a = s.subrange(0, i);
    let x = s[i];
    let b = s.subrange(i + 1, s.len() as int);
    assert(s =~= a + (seq![x] + b));
    lemma_height_sum_concat(a, seq![x] + b);
    lemma_height_sum_concat(seq![x], b);
    lemma_sums_singleton(x);
    assert(seq![x] + b =~= seq![x].add(b));
    assert(s.remove(i) =~= a + b);
    lemma_height_sum_concat(a, b);
    lemma_views_of_concat(a, seq![x] + b);
    lemma_views_of_concat(seq![x], b);
    lemma_views_of_concat(a, b);
    lemma_true_sum_concat(views_of(a), views_of(seq![x] + b));
    lemma_true_sum_concat(views_of(seq![x]), views_of(b));
    lemma_true_sum_concat(views_of(a), views_of(b));
    lemma_views_of(s);
    lemma_views_of(a);
    lemma_views_of(b);
    assert(views_of(s.remove(i)) =~= views_of(s).remove(i));
}

/// Effect of inserting one node on models and row sums.
pub proof fn lemma_elem_insert(s: Seq<NbtElement>, i: int, e: NbtElement)
    requires
        0 <= i <= s.len(),
    ensures
        height_sum(s.insert(i, e)) == height_sum(s) + height_of(e),
        views_of(s.insert(i, e)) == views_of(s).insert(i, vof(e)),
        true_height_sum(views_of(s.insert(i, e)))
            == true_height_sum(views_of(s)) + theight_of(e),
{
    let a = s.subrange(0, i);
    let b = s.subrange(i, s.len() as int);
    assert(s =~= a + b);
    assert(s.insert(i, e) =~= a + (seq![e] + b));
    lemma_height_sum_concat(a, b);
    lemma_height_sum_concat(a, seq![e] + b);
    lemma_height_sum_concat(seq![e], b);
    lemma_sums_singleton(e);
    lemma_views_of_concat(a, b);
    lemma_views_of_concat(a, seq![e] + b);
    lemma_views_of_concat(seq![e], b);
    lemma_true_sum_concat(views_of(a), views_of(b));
    lemma_true_sum_concat(views_of(a), views_of(seq![e] + b));
    lemma_true_sum_concat(views_of(seq![e]), views_of(b));
    lemma_views_of(a);
    lemma_views_of(b);
    lemma_views_of(s);
    assert(views_of(s.insert(i, e)) =~= views_of(s).insert(i, vof(e)));
}

/// Effect of removing one keyed entry on models and row sums.
pub proof fn lemma_entry_remove(s: Seq<(Vec<u8>, NbtElement)>, i: int)
    requires
        0 <= i < s.len(),
    ensures
        entry_height_sum(s) >= height_of(s[i].1),
        entry_height_sum(s.remove(i)) == entry_height_sum(s) - height_of(s[i].1),
        entry_views_of(s.remove(i)) == entry_views_of(s).remove(i),
        true_height_entry_sum(entry_views_of(s)) >= theight_of(s[i].1),
        true_height_entry_sum(entry_views_of(s.remove(i)))
            == true_height_entry_sum(entry_views_of(s)) - theight_of(s[i].1),
{
    let a = s.subrange(0, i);
    let x = s[i];
    let b = s.subrange(i + 1, s.len() as int);
    assert(s =~= a + (seq![x] + b));
    lemma_entry_height_sum_concat(a, seq![x] + b);
    lemma_entry_height_sum_concat(seq![x], b);
    lemma_entry_sums_singleton(x);
    assert(s.remove(i) =~= a + b);
    lemma_entry_height_sum_concat(a, b);
    lemma_entry_views_of_concat(a, seq![x] + b);
    lemma_entry_views_of_concat(seq![x], b);
    lemma_entry_views_of_concat(a, b);
    lemma_true_entry_sum_concat(entry_views_of(a), entry_views_of(seq![x] + b));
    lemma_true_entry_sum_concat(entry_views_of(seq![x]), entry_views_of(b));
    lemma_true_entry_sum_concat(entry_views_of(a), entry_views_of(b));
    lemma_entry_views_of(s);
    lemma_entry_views_of(a);
    lemma_entry_views_of(b);
    assert(entry_views_of(s.remove(i)) =~= entry_views_of(s).remove(i));
}

/// Effect of inserting one keyed entry on models and row sums.
pub proof fn lemma_entry_insert(s: Seq<(Vec<u8>, NbtElement)>, i: int, p: (Vec<u8>, NbtElement))
    requires
        0 <= i <= s.len(),
    ensures
        entry_height_sum(s.insert(i, p)) == entry_height_sum(s) + height_of(p.1),
        entry_views_of(s.insert(i, p)) == entry_views_of(s).insert(i, (p.0@, vof(p.1))),
        true_height_entry_sum(entry_views_of(s.insert(i, p)))
            == true_height_entry_sum(entry_views_of(s)) + theight_of(p.1),
{
    let a = s.subrange(0, i);
    let b = s.subrange(i, s.len() as int);
    assert(s =~= a + b);
    assert(s.insert(i, p) =~= a + (seq![p] + b));
    lemma_entry_height_sum_concat(a, b);
    lemma_entry_height_sum_concat(a, seq![p] + b);
    lemma_entry_height_sum_concat(seq![p], b);
    lemma_entry_sums_singleton(p);
    lemma_entry_views_of_concat(a, b);
    lemma_entry_views_of_concat(a, seq![p] + b);
    lemma_entry_views_of_concat(seq![p], b);
    lemma_true_entry_sum_concat(entry_views_of(a), entry_views_of(b));
    lemma_true_entry_sum_concat(entry_views_of(a), entry_views_of(seq![p] + b));
    lemma_true_entry_sum_concat(entry_views_of(seq![p]), entry_views_of(b));
    lemma_entry_views_of(a);
    lemma_entry_views_of(b);
    lemma_entry_views_of(s);
    assert(entry_views_of(s.insert(i, p)) =~= entry_views_of(s).insert(i, (p.0@, vof(p.1))));
}

/// With the whole subtree expanded, a well-formed node shows all of its
/// rows.
pub proof fn lemma_expanded_height(e: NbtElement)
    requires
        inv(e),
        all_expanded(e),
    ensures
        height_of(e) == theight_of(e),
    decreases e, 0nat,
{
    match e {
        NbtElement::List(l) => {
            if l.open {
                lemma_expanded_height_sum(l.elements@);
            }
        },
        NbtElement::Compound(c) => {
            if c.open {
                lemma_expanded_height_sum_entries(c.entries@);
            }
        },
        _ => {},
    }
}

/// Sum form of `lemma_expanded_height` for list children.
pub proof fn lemma_expanded_height_sum(s: Seq<NbtElement>)
    requires
        forall|i: int| 0 <= i < s.len() ==> inv(#[trigger] s[i]),
        forall|i: int| 0 <= i < s.len() ==> all_expanded(#[trigger] s[i]),
    ensures
        height_sum(s) == true_height_sum(views_of(s)),
    decreases s, 1nat,
{
    if s.len() > 0 {
        let sub = s.subrange(1, s.len() as int);
        lemma_expanded_height(s[0]);
        lemma_expanded_height_sum(sub);
        assert(height_sum(s) == height_of(s[0]) + height_sum(sub));
        assert(views_of(s) == seq![vof(s[0])] + views_of(sub));
        let vs = views_of(s);
        assert(vs[0] == vof(s[0]));
        assert(vs.subrange(1, vs.len() as int) =~= views_of(sub));
        assert(true_height_sum(vs)
            == true_height_of(vs[0]) + true_height_sum(vs.subrange(1, vs.len() as int)));
    }
}

/// Sum form of `lemma_expanded_height` for compound entries.
pub proof fn lemma_expanded_height_sum_entries(s: Seq<(Vec<u8>, NbtElement)>)
    requires
        forall|i: int| 0 <= i < s.len() ==> inv((#[trigger] s[i]).1),
        forall|i: int| 0 <= i < s.len() ==> all_expanded((#[trigger] s[i]).1),
    ensures
        entry_height_sum(s) == true_height_entry_sum(entry_views_of(s)),
    decreases s, 1nat,
{
    if s.len() > 0 {
        let sub = s.subrange(1, s.len() as int);
        lemma_expanded_height(s[0].1);
        lemma_expanded_height_sum_entries(sub);
        assert(entry_height_sum(s) == height_of(s[0].1) + entry_height_sum(sub));
        assert(entry_views_of(s) == seq![(s[0].0@, vof(s[0].1))] + entry_views_of(sub));
        let vs = entry_views_of(s);
        assert(vs[0].1 == vof(s[0].1));
        assert(vs.subrange(1, vs.len() as int) =~= entry_views_of(sub));
        assert(true_height_entry_sum(vs)
            == true_height_of(vs[0].1)
                + true_height_entry_sum(vs.subrange(1, vs.len() as int)));
    }
}

impl NbtElement {
    /// Number of children this node owns.
    pub fn len(&self) -> (r: usize)
        ensures
            r == child_count(*self),
    {
        match self {
            NbtElement::ByteArray(a) => a.values.len(),
            NbtElement::IntArray(a) => a.values.len(),
            NbtElement::LongArray(a) => a.values.len(),
            NbtElement::List(l) => l.elements.len(),
            NbtElement::Compound(c) => c.entries.len(),
            _ => 0,
        }
    }

    /// Collapses this node and every descendant.
    #[verifier::loop_isolation(false)]
    pub fn shut(&mut self)
        requires
            inv(*old(self)),
        ensures
            inv(*final(self)),
            vof(*final(self)) == vof(*old(self)),
            all_closed(*final(self)),
        decreases *old(self),
    {
        let ghost g0 = *self;
        match self {
            NbtElement::ByteArray(a) => {
                a.open = false;
            },
            NbtElement::IntArray(a) => {
                a.open = false;
            },
            NbtElement::LongArray(a) => {
                a.open = false;
            },
            NbtElement::List(l) => {
                let ghost ge = l.elements@;
                let n = l.elements.len();
                proof {
                    lemma_height_sum_ge_len(ge);
                }
                let mut i: usize = 0;
                while i < n
                    invariant
                        i <= n,
                        n == l.elements@.len(),
                        n == ge.len(),
                        n < usize::MAX,
                        l.element == g0->List_0.element,
                        l.true_height == g0->List_0.true_height,
                        forall|j: int| i <= j < n ==> #[trigger] l.elements@[j] == ge[j],
                        forall|j: int| 0 <= j < n ==> inv(#[trigger] l.elements@[j]),
                        forall|j: int| 0 <= j < i ==> all_closed(#[trigger] l.elements@[j]),
                        forall|j: int| 0 <= j < n
                            ==> vof(#[trigger] l.elements@[j]) == vof(ge[j]),
                        forall|j: int| i <= j < n ==> inv(#[trigger] ge[j]),
                    decreases n - i,
                {
                    proof {
                        assert(l.elements@[i as int] == ge[i as int]);
                        let gl = g0->List_0;
                        assert(decreases_to!(g0 => gl));
                        assert(decreases_to!(gl => gl.elements));
                        assert(decreases_to!(gl.elements => gl.elements@));
                        assert(decreases_to!(gl.elements@ => gl.elements@[i as int]));
                        assert(decreases_to!(g0 => ge[i as int]));
                    }
                    l.elements[i].shut();
                    i += 1;
                }
                l.open = false;
                l.height = 1 + n;
                proof {
                    assert forall|j: int| 0 <= j < n
                        implies height_of(#[trigger] l.elements@[j]) == 1 by {
                        assert(all_closed(l.elements@[j]));
                    }
                    lemma_height_sum_all_one(l.elements@);
                    lemma_views_of_pointwise(l.elements@, ge);
                }
            },
            NbtElement::Compound(c) => {
                let ghost ge = c.entries@;
                let n = c.entries.len();
                proof {
                    lemma_entry_height_sum_ge_len(ge);
                }
                let mut i: usize = 0;
                while i < n
                    invariant
                        i <= n,
                        n == c.entries@.len(),
                        n == ge.len(),
                        n < usize::MAX,
                        c.true_height == g0->Compound_0.true_height,
                        forall|j: int| i <= j < n ==> #[trigger] c.entries@[j] == ge[j],
                        forall|j: int| 0 <= j < n ==> #[trigger] c.entries@[j].0@ == ge[j].0@,
                        forall|j: int| 0 <= j < n ==> inv((#[trigger] c.entries@[j]).1),
                        forall|j: int| 0 <= j < i ==> all_closed((#[trigger] c.entries@[j]).1),
                        forall|j: int| 0 <= j < n
                            ==> vof((#[trigger] c.entries@[j]).1) == vof(ge[j].1),
                        forall|j: int| i <= j < n ==> inv((#[trigger] ge[j]).1),
                    decreases n - i,
                {
                    proof {
                        assert(c.entries@[i as int] == ge[i as int]);
                        let gc = g0->Compound_0;
                        assert(decreases_to!(g0 => gc));
                        assert(decreases_to!(gc => gc.entries));
                        assert(decreases_to!(gc.entries => gc.entries@));
                        assert(decreases_to!(gc.entries@ => gc.entries@[i as int]));
                        assert(decreases_to!(gc.entries@[i as int] => gc.entries@[i as int].1));
                        assert(decreases_to!(g0 => ge[i as int].1));
                    }
                    c.entries[i].1.shut();
                    i += 1;
                }
                c.open = false;
                c.height = 1 + n;
                proof {
                    assert forall|j: int| 0 <= j < n
                        implies height_of((#[trigger] c.entries@[j]).1) == 1 by {
                        assert(all_closed(c.entries@[j].1));
                    }
                    lemma_entry_height_sum_all_one(c.entries@);
                    lemma_entry_views_of_pointwise(c.entries@, ge);
                }
            },
            _ => {},
        }
    }

    /// Expands this node and every descendant that has children.
    #[verifier::loop_isolation(false)]
    pub fn expand(&mut self)
        requires
            inv(*old(self)),
        ensures
            inv(*final(self)),
            vof(*final(self)) == vof(*old(self)),
            all_expanded(*final(self)),
        decreases *old(self),
    {
        let ghost g0 = *self;
        match self {
            NbtElement::ByteArray(a) => {
                a.open = a.values.len() > 0;
            },
            NbtElement::IntArray(a) => {
                a.open = a.values.len() > 0;
            },
            NbtElement::LongArray(a) => {
                a.open = a.values.len() > 0;
            },
            NbtElement::List(l) => {
                let ghost ge = l.elements@;
                let n = l.elements.len();
                let mut i: usize = 0;
                while i < n
                    invariant
                        i <= n,
                        n == l.elements@.len(),
                        n == ge.len(),
                        l.element == g0->List_0.element,
                        l.true_height == g0->List_0.true_height,
                        forall|j: int| i <= j < n ==> #[trigger] l.elements@[j] == ge[j],
                        forall|j: int| 0 <= j < n ==> inv(#[trigger] l.elements@[j]),
                        forall|j: int| 0 <= j < i ==> all_expanded(#[trigger] l.elements@[j]),
                        forall|j: int| 0 <= j < n
                            ==> vof(#[trigger] l.elements@[j]) == vof(ge[j]),
                        forall|j: int| i <= j < n ==> inv(#[trigger] ge[j]),
                    decreases n - i,
                {
                    proof {
                        assert(l.elements@[i as int] == ge[i as int]);
                        let gl = g0->List_0;
                        assert(decreases_to!(g0 => gl));
                        assert(decreases_to!(gl => gl.elements));
                        assert(decreases_to!(gl.elements => gl.elements@));
                        assert(decreases_to!(gl.elements@ => gl.elements@[i as int]));
                        assert(decreases_to!(g0 => ge[i as int]));
                    }
                    l.elements[i].expand();
                    i += 1;
                }
                l.open = n > 0;
                let th = l.true_height;
                l.height = th;
                proof {
                    lemma_views_of_pointwise(l.elements@, ge);
                    lemma_expanded_height_sum(l.elements@);
                }
            },
            NbtElement::Compound(c) => {
                let ghost ge = c.entries@;
                let n = c.entries.len();
                let mut i: usize = 0;
                while i < n
                    invariant
                        i <= n,
                        n == c.entries@.len(),
                        n == ge.len(),
                        c.true_height == g0->Compound_0.true_height,
                        forall|j: int| i <= j < n ==> #[trigger] c.entries@[j] == ge[j],
                        forall|j: int| 0 <= j < n ==> #[trigger] c.entries@[j].0@ == ge[j].0@,
                        forall|j: int| 0 <= j < n ==> inv((#[trigger] c.entries@[j]).1),
                        forall|j: int| 0 <= j < i ==> all_expanded((#[trigger] c.entries@[j]).1),
                        forall|j: int| 0 <= j < n
                            ==> vof((#[trigger] c.entries@[j]).1) == vof(ge[j].1),
                        forall|j: int| i <= j < n ==> inv((#[trigger] ge[j]).1),
                    decreases n - i,
                {
                    proof {
                        assert(c.entries@[i as int] == ge[i as int]);
                        let gc = g0->Compound_0;
                        assert(decreases_to!(g0 => gc));
                        assert(decreases_to!(gc => gc.entries));
                        assert(decreases_to!(gc.entries => gc.entries@));
                        assert(decreases_to!(gc.entries@ => gc.entries@[i as int]));
                        assert(decreases_to!(gc.entries@[i as int] => gc.entries@[i as int].1));
                        assert(decreases_to!(g0 => ge[i as int].1));
                    }
                    c.entries[i].1.expand();
                    i += 1;
                }
                c.open = n > 0;
                let th = c.true_height;
                c.height = th;
                proof {
                    lemma_entry_views_of_pointwise(c.entries@, ge);
                    lemma_expanded_height_sum_entries(c.entries@);
                }
            },
            _ => {},
        }
    }

    /// Flips the expansion state: expanding a non-empty collapsed node,
    /// or collapsing the whole subtree of an expanded one. Returns
    /// whether the node was a composite at all.
    pub fn toggle(&mut self) -> (r: bool)
        requires
            inv(*old(self)),
        ensures
            inv(*final(self)),
            vof(*final(self)) == vof(*old(self)),
            r == (matches!(*old(self),
                NbtElement::ByteArray(_) | NbtElement::IntArray(_) | NbtElement::LongArray(_)
                | NbtElement::List(_) | NbtElement::Compound(_))),
            open_of(*final(self))
                == (r && !open_of(*old(self)) && child_count(*old(self)) > 0),
            !open_of(*final(self)) && r ==> all_closed(*final(self)),
            !r ==> *final(self) == *old(self),
    {
        let composite = match &*self {
            NbtElement::ByteArray(_) => true,
            NbtElement::IntArray(_) => true,
            NbtElement::LongArray(_) => true,
            NbtElement::List(_) => true,
            NbtElement::Compound(_) => true,
            _ => false,
        };
        if !composite {
            return false;
        }
        let was_open = self.open();
        let empty = self.len() == 0;
        if was_open || empty {
            self.shut();
        } else {
            match self {
                NbtElement::ByteArray(a) => { a.open = true; },
                NbtElement::IntArray(a) => { a.open = true; },
                NbtElement::LongArray(a) => { a.open = true; },
                NbtElement::List(l) => { l.open = true; },
                NbtElement::Compound(c) => { c.open = true; },
                _ => {},
            }
        }
        true
    }
}

/// The model after removing the `i`-th child; leaves are unchanged.
pub open spec fn remove_child(v: Value, i: int) -> Value {
    match v {
        Value::ByteArray(s) => Value::ByteArray(s.remove(i)),
        Value::IntArray(s) => Value::IntArray(s.remove(i)),
        Value::LongArray(s) => Value::LongArray(s.remove(i)),
        Value::List(t, elems) => Value::List(t, elems.remove(i)),
        Value::Compound(entries) => Value::Compound(entries.remove(i)),
        _ => v,
    }
}

impl NbtElement {
    /// Removes the `i`-th child of a composite node, keeping the cached
    /// row counts consistent; a node emptied by the removal is closed.
    pub fn delete(&mut self, index: usize)
        requires
            inv(*old(self)),
            index < child_count(*old(self)),
        ensures
            inv(*final(self)),
            vof(*final(self)) == remove_child(vof(*old(self)), index as int),
            child_count(*final(self)) == child_count(*old(self)) - 1,
            open_of(*final(self)) == (open_of(*old(self)) && child_count(*old(self)) > 1),
    {
        match self {
            NbtElement::ByteArray(a) => {
                a.values.remove(index);
                a.height = a.height - 1;
                a.true_height = a.true_height - 1;
                if a.values.len() == 0 {
                    a.open = false;
                }
            },
            NbtElement::IntArray(a) => {
                a.values.remove(index);
                a.height = a.height - 1;
                a.true_height = a.true_height - 1;
                if a.values.len() == 0 {
                    a.open = false;
                }
            },
            NbtElement::LongArray(a) => {
                a.values.remove(index);
                a.height = a.height - 1;
                a.true_height = a.true_height - 1;
                if a.values.len() == 0 {
                    a.open = false;
                }
            },
            NbtElement::List(l) => {
                let ghost ge = l.elements@;
                proof {
                    lemma_elem_remove(ge, index as int);
                }
                let removed = l.elements.remove(index);
                let h = removed.height();
                let th = removed.true_height();
                l.height = l.height - h;
                l.true_height = l.true_height - th;
                if l.elements.len() == 0 {
                    l.open = false;
                }
            },
            NbtElement::Compound(c) => {
                let ghost ge = c.entries@;
                proof {
                    lemma_entry_remove(ge, index as int);
                }
                let removed = c.entries.remove(index);
                let h = removed.1.height();
                let th = removed.1.true_height();
                c.height = c.height - h;
                c.true_height = c.true_height - th;
                if c.entries.len() == 0 {
                    c.open = false;
                }
            },
            _ => {},
        }
    }
}

impl NbtString {
    /// A string node over the given bytes.
    pub fn new(bytes: Vec<u8>) -> (r: Self)
        ensures
            r.bytes == bytes,
            inv(NbtElement::Str(r)),
    {
        NbtString { bytes }
    }
}

impl NbtByteArray {
    /// A collapsed array node over the given values.
    pub fn new(values: Vec<i8>) -> (r: Self)
        requires
            values@.len() < usize::MAX,
        ensures
            r.values == values,
            r.open == false,
            r.max_depth == 0,
            inv(NbtElement::ByteArray(r)),
    {
        let n = values.len();
        NbtByteArray { values, height: 1 + n, true_height: 1 + n, open: false, max_depth: 0 }
    }
}

impl NbtIntArray {
    /// A collapsed array node over the given values.
    pub fn new(values: Vec<i32>) -> (r: Self)
        requires
            values@.len() < usize::MAX,
        ensures
            r.values == values,
            r.open == false,
            r.max_depth == 0,
            inv(NbtElement::IntArray(r)),
    {
        let n = values.len();
        NbtIntArray { values, height: 1 + n, true_height: 1 + n, open: false, max_depth: 0 }
    }
}

impl NbtLongArray {
    /// A collapsed array node over the given values.
    pub fn new(values: Vec<i64>) -> (r: Self)
        requires
            values@.len() < usize::MAX,
        ensures
            r.values == values,
            r.open == false,
            r.max_depth == 0,
            inv(NbtElement::LongArray(r)),
    {
        let n = values.len();
        NbtLongArray { values, height: 1 + n, true_height: 1 + n, open: false, max_depth: 0 }
    }
}

impl NbtList {
    /// A collapsed list node over the given children and declared
    /// element tag.
    #[verifier::loop_isolation(false)]
    pub fn new(elements: Vec<NbtElement>, element: u8) -> (r: Self)
        requires
            forall|i: int| 0 <= i < elements@.len() ==> inv(#[trigger] elements@[i]),
            1 + true_height_sum(views_of(elements@)) <= usize::MAX,
        ensures
            r.elements == elements,
            r.element == element,
            r.open == false,
            r.max_depth == 0,
            r.height == 1 + height_sum(elements@),
            r.true_height == 1 + true_height_sum(views_of(elements@)),
            inv(NbtElement::List(r)),
    {
        let ghost ge = elements@;
        let n = elements.len();
        let mut h: usize = 0;
        let mut th: usize = 0;
        let mut i: usize = 0;
        proof {
            lemma_height_sum_le(ge);
            assert(ge.take(0) =~= Seq::<NbtElement>::empty());
            assert(views_of(ge.take(0)) =~= Seq::<Value>::empty());
        }
        while i < n
            invariant
                i <= n,
                h == height_sum(ge.take(i as int)),
                th == true_height_sum(views_of(ge.take(i as int))),
            decreases n - i,
        {
            proof {
                assert(ge =~= ge.take(i as int) + ge.skip(i as int));
                lemma_height_sum_concat(ge.take(i as int), ge.skip(i as int));
                lemma_true_sum_concat(
                    views_of(ge.take(i as int)),
                    views_of(ge.skip(i as int)),
                );
                lemma_views_of_concat(ge.take(i as int), ge.skip(i as int));
                assert forall|j: int| 0 <= j < ge.skip(i as int).len()
                    implies inv(#[trigger] ge.skip(i as int)[j]) by {
                    assert(ge.skip(i as int)[j] == ge[i + j]);
                }
                lemma_height_sum_le(ge.skip(i as int));
                assert(ge.take(i as int + 1) =~= ge.take(i as int) + seq![ge[i as int]]);
                lemma_height_sum_concat(ge.take(i as int), seq![ge[i as int]]);
                lemma_views_of_concat(ge.take(i as int), seq![ge[i as int]]);
                lemma_true_sum_concat(
                    views_of(ge.take(i as int)),
                    views_of(seq![ge[i as int]]),
                );
                lemma_sums_singleton(ge[i as int]);
            }
            let eh = elements[i].height();
            let eth = elements[i].true_height();
            h = h + eh;
            th = th + eth;
            i += 1;
        }
        proof {
            assert(ge.take(n as int) =~= ge);
        }
        NbtList {
            elements,
            element,
            height: 1 + h,
            true_height: 1 + th,
            open: false,
            max_depth: 0,
        }
    }

    /// Appends one child, keeping the cached row counts consistent.
    pub fn push(&mut self, value: NbtElement)
        requires
            inv(NbtElement::List(*old(self))),
            inv(value),
            old(self).true_height + theight_of(value) <= usize::MAX,
        ensures
            final(self).elements@ == old(self).elements@.push(value),
            final(self).element == old(self).element,
            final(self).open == old(self).open,
            final(self).max_depth == old(self).max_depth,
            inv(NbtElement::List(*final(self))),
    {
        proof {
            lemma_height_le_true_height(value);
            lemma_height_sum_le(self.elements@);
            lemma_elem_insert(self.elements@, self.elements@.len() as int, value);
            assert(self.elements@.insert(self.elements@.len() as int, value)
                =~= self.elements@.push(value));
            lemma_views_of(self.elements@);
            assert(views_of(self.elements@).insert(views_of(self.elements@).len() as int,
                vof(value)) =~= views_of(self.elements@).push(vof(value)));
        }
        let h = value.height();
        let th = value.true_height();
        self.height = self.height + h;
        self.true_height = self.true_height + th;
        self.elements.push(value);
    }
}

impl NbtCompound {
    /// An empty, collapsed map node.
    pub fn new() -> (r: Self)
        ensures
            r.entries@.len() == 0,
            r.open == false,
            r.max_depth == 0,
            inv(NbtElement::Compound(r)),
    {
        NbtCompound { entries: Vec::new(), height: 1, true_height: 1, open: false, max_depth: 0 }
    }

    /// Appends one keyed entry, keeping the cached row counts
    /// consistent.
    pub fn put(&mut self, key: Vec<u8>, value: NbtElement)
        requires
            inv(NbtElement::Compound(*old(self))),
            inv(value),
            old(self).true_height + theight_of(value) <= usize::MAX,
        ensures
            final(self).entries@ == old(self).entries@.push((key, value)),
            final(self).open == old(self).open,
            final(self).max_depth == old(self).max_depth,
            inv(NbtElement::Compound(*final(self))),
    {
        proof {
            lemma_height_le_true_height(value);
            lemma_entry_height_sum_le(self.entries@);
            lemma_entry_insert(self.entries@, self.entries@.len() as int, (key, value));
            assert(self.entries@.insert(self.entries@.len() as int, (key, value))
                =~= self.entries@.push((key, value)));
            lemma_entry_views_of(self.entries@);
            assert(entry_views_of(self.entries@).insert(
                entry_views_of(self.entries@).len() as int, (key@, vof(value)))
                =~= entry_views_of(self.entries@).push((key@, vof(value))));
        }
        let h = value.height();
        let th = value.true_height();
        self.height = self.height + h;
        self.true_height = self.true_height + th;
        self.entries.push((key, value));
    }
}

/// The cached nesting depth of a node (zero for leaves).
pub open spec fn cached_depth(e: NbtElement) -> nat {
    match e {
        NbtElement::ByteArray(a) => a.max_depth as nat,
        NbtElement::IntArray(a) => a.max_depth as nat,
        NbtElement::LongArray(a) => a.max_depth as nat,
        NbtElement::List(l) => l.max_depth as nat,
        NbtElement::Compound(c) => c.max_depth as nat,
        _ => 0,
    }
}

impl NbtElement {
    /// The cached nesting depth used for layout.
    pub fn max_depth(&self) -> (r: usize)
        ensures
            r == cached_depth(*self),
    {
        match self {
            NbtElement::ByteArray(a) => a.max_depth,
            NbtElement::IntArray(a) => a.max_depth,
            NbtElement::LongArray(a) => a.max_depth,
            NbtElement::List(l) => l.max_depth,
            NbtElement::Compound(c) => c.max_depth,
            _ => 0,
        }
    }
}

/// Effect of replacing one node on models and row sums.
pub proof fn lemma_elem_update(s: Seq<NbtElement>, i: int, e: NbtElement)
    requires
        0 <= i < s.len(),
    ensures
        height_sum(s.update(i, e))
            == height_sum(s) - height_of(s[i]) + height_of(e),
        views_of(s.update(i, e)) == views_of(s).update(i, vof(e)),
        true_height_sum(views_of(s.update(i, e)))
            == true_height_sum(views_of(s)) - theight_of(s[i]) + theight_of(e),
        height_sum(s) >= height_of(s[i]),
        true_height_sum(views_of(s)) >= theight_of(s[i]),
{
    lemma_elem_remove(s, i);
    assert(s.update(i, e) =~= s.remove(i).insert(i, e));
    lemma_elem_insert(s.remove(i), i, e);
    lemma_views_of(s);
    lemma_views_of(s.remove(i));
    lemma_views_of(s.update(i, e));
    assert(views_of(s.update(i, e)) =~= views_of(s).update(i, vof(e)));
}

/// Effect of replacing one keyed entry's node on models and row sums.
pub proof fn lemma_entry_update(s: Seq<(Vec<u8>, NbtElement)>, i: int, p: (Vec<u8>, NbtElement))
    requires
        0 <= i < s.len(),
    ensures
        entry_height_sum(s.update(i, p))
            == entry_height_sum(s) - height_of(s[i].1) + height_of(p.1),
        entry_views_of(s.update(i, p)) == entry_views_of(s).update(i, (p.0@, vof(p.1))),
        true_height_entry_sum(entry_views_of(s.update(i, p)))
            == true_height_entry_sum(entry_views_of(s)) - theight_of(s[i].1) + theight_of(p.1),
        entry_height_sum(s) >= height_of(s[i].1),
        true_height_entry_sum(entry_views_of(s)) >= theight_of(s[i].1),
{
    lemma_entry_remove(s, i);
    assert(s.update(i, p) =~= s.remove(i).insert(i, p));
    lemma_entry_insert(s.remove(i), i, p);
    lemma_entry_views_of(s);
    lemma_entry_views_of(s.remove(i));
    lemma_entry_views_of(s.update(i, p));
    assert(entry_views_of(s.update(i, p)) =~= entry_views_of(s).update(i, (p.0@, vof(p.1))));
}

/// Whether a node is a composite (one that owns children).
pub open spec fn is_composite(e: NbtElement) -> bool {
    matches!(e,
        NbtElement::ByteArray(_) | NbtElement::IntArray(_) | NbtElement::LongArray(_)
        | NbtElement::List(_) | NbtElement::Compound(_))
}

/// Whether a node can take `v` as a direct child: the matching
/// primitive for the three arrays, the declared element tag (or any
/// real tag, when empty) for a list, any real tag for a map.
pub open spec fn accepts(a: NbtElement, v: NbtElement) -> bool {
    match a {
        NbtElement::ByteArray(_) => v matches NbtElement::Byte(_),
        NbtElement::IntArray(_) => v matches NbtElement::Int(_),
        NbtElement::LongArray(_) => v matches NbtElement::Long(_),
        NbtElement::List(l) => tag_of(vof(v)) != 0
            && (l.elements@.len() == 0 || tag_of(vof(v)) == l.element),
        NbtElement::Compound(_) => tag_of(vof(v)) != 0,
        _ => false,
    }
}

impl NbtCompound {
    /// Whether any entry is filed under the given key: the sibling
    /// scan behind duplicate-key detection while an edit is resolved.
    #[verifier::loop_isolation(false)]
    pub fn has_key(&self, key: &[u8]) -> (r: bool)
        ensures
            r == exists|i: int| 0 <= i < self.entries@.len()
                && (#[trigger] self.entries@[i]).0@ == key@,
    {
        let n = self.entries.len();
        let mut i: usize = 0;
        while i < n
            invariant
                i <= n,
                n == self.entries@.len(),
                forall|j: int| 0 <= j < i ==> (#[trigger] self.entries@[j]).0@ != key@,
            decreases n - i,
        {
            if bytes_equal(&self.entries[i].0, key) {
                proof {
                    assert(self.entries@[i as int].0@ == key@);
                }
                return true;
            }
            i += 1;
        }
        false
    }
}

/// Whether two byte strings hold the same bytes.
#[verifier::loop_isolation(false)]
pub fn bytes_equal(a: &[u8], b: &[u8]) -> (r: bool)
    ensures
        r == (a@ == b@),
{
    if a.len() != b.len() {
        proof {
            assert(a@ != b@);
        }
        return false;
    }
    let n = a.len();
    let mut i: usize = 0;
    while i < n
        invariant
            i <= n,
            n == a@.len() == b@.len(),
            forall|j: int| 0 <= j < i ==> #[trigger] a@[j] == b@[j],
        decreases n - i,
    {
        if a[i] != b[i] {
            proof {
                assert(a@ != b@);
            }
            return false;
        }
        i += 1;
    }
    proof {
        assert(a@ =~= b@);
    }
    true
}
} // verus!
