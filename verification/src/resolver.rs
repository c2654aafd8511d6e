//! The row-indexed mutation resolver.
//!
//! A drag-style structural edit arrives as a pending key and value, a
//! mutable row budget counted in sixteenths of a row height, the
//! current and target nesting depths, a running line number and a path
//! accumulator. Resolution walks the tree consuming rows: a node's
//! whole first row inserts before its first child, the second row of a
//! collapsed node inserts as its only child, and while scanning an
//! expanded node's children a budget in a child's first half row
//! inserts before it, in its last half row after it, and anywhere else
//! descends. The closed outcome set: `Dropped` with the row-count
//! deltas, `Missed` (the caller retries at an ancestor), and
//! `InvalidType` (the target cannot take this kind; the value comes
//! back untouched).

use vstd::prelude::*;

use crate::element::NbtByteArray;
use crate::element::NbtCompound;
use crate::element::NbtElement;
use crate::element::NbtIntArray;
use crate::element::NbtList;
use crate::element::NbtLongArray;
use crate::region::NbtRegion;
use crate::chunk::NbtChunk;
use crate::element::height_of;
use crate::element::open_of;
use crate::element::child_count;
use crate::element::is_composite;
use crate::element::accepts;
use crate::element::inv;
use crate::element::theight_of;
use crate::element::vof;
use crate::element::views_of;
use crate::element::entry_views_of;
use crate::value::Value;
use crate::value::true_height_sum;
use crate::value::true_height_entry_sum;
use crate::value::tag_of;

verus! {

/// A value waiting to be placed: a plain tree node, or a whole
/// container document.
#[derive(Debug, PartialEq, Eq)]
pub enum Pending {
    Elem(NbtElement),
    Chunk(crate::chunk::NbtChunk),
}

/// The closed outcome set of a resolution: placed (row delta, full row
/// delta, label of the inserted entry, resulting line number), missed
/// (retry at an ancestor), or rejected by the target's kind.
#[derive(Debug, PartialEq, Eq)]
pub enum DropFn {
    Dropped(usize, usize, Option<Vec<u8>>, usize),
    Missed(Option<Vec<u8>>, Pending),
    InvalidType(Option<Vec<u8>>, Pending),
}

/// The key a pending entry is filed under: the given one, or empty.
pub open spec fn spec_key(key: Option<Vec<u8>>) -> Seq<u8> {
    match key {
        Some(k) => k@,
        None => Seq::empty(),
    }
}

/// `b` is `a` with `v` inserted among its children at position `i`,
/// under `key` where children are keyed. Only a matching kind may
/// enter: the matching primitive for the three arrays, the declared
/// element tag (or any tag, when empty) for a list, any real tag for a
/// map.
pub open spec fn child_inserted_at(a: Value, b: Value, key: Seq<u8>, v: Value, i: int) -> bool {
    match a {
        Value::ByteArray(s) => match v {
            Value::Byte(x) => 0 <= i <= s.len() && b == Value::ByteArray(s.insert(i, x)),
            _ => false,
        },
        Value::IntArray(s) => match v {
            Value::Int(x) => 0 <= i <= s.len() && b == Value::IntArray(s.insert(i, x)),
            _ => false,
        },
        Value::LongArray(s) => match v {
            Value::Long(x) => 0 <= i <= s.len() && b == Value::LongArray(s.insert(i, x)),
            _ => false,
        },
        Value::List(t, es) => {
            &&& tag_of(v) != 0
            &&& (es.len() == 0 || t == tag_of(v))
            &&& 0 <= i <= es.len()
            &&& b == Value::List(tag_of(v), es.insert(i, v))
        },
        Value::Compound(es) => {
            &&& tag_of(v) != 0
            &&& 0 <= i <= es.len()
            &&& b == Value::Compound(es.insert(i, (key, v)))
        },
        _ => false,
    }
}

/// `b` is `a` with `v` inserted along the recorded index path: the
/// path's last entry is the insertion position, every entry before it
/// names the child descended into, and every sibling along the way is
/// untouched.
pub open spec fn placed_along(a: Value, b: Value, key: Seq<u8>, v: Value, path: Seq<usize>)
    -> bool
    decreases path.len(),
{
    if path.len() == 0 {
        false
    } else if path.len() == 1 {
        child_inserted_at(a, b, key, v, path[0] as int)
    } else {
        let i = path[0] as int;
        match a {
            Value::List(t, ea) => match b {
                Value::List(t2, eb) => t == t2 && ea.len() == eb.len() && 0 <= i < ea.len()
                    && placed_along(ea[i], eb[i], key, v, path.subrange(1, path.len() as int))
                    && (forall|j: int| 0 <= j < ea.len() && j != i
                        ==> #[trigger] ea[j] == eb[j]),
                _ => false,
            },
            Value::Compound(ea) => match b {
                Value::Compound(eb) => ea.len() == eb.len() && 0 <= i < ea.len()
                    && ea[i].0 == eb[i].0
                    && placed_along(ea[i].1, eb[i].1, key, v,
                        path.subrange(1, path.len() as int))
                    && (forall|j: int| 0 <= j < ea.len() && j != i
                        ==> #[trigger] ea[j] == eb[j]),
                _ => false,
            },
            _ => false,
        }
    }
}

/// Two nodes with identical payloads, caches, flags and children.
/// (Plain value equality short-circuits; the recursive cases compare
/// vector contents pointwise.)
pub open spec fn same_tree(a: NbtElement, b: NbtElement) -> bool
    decreases a,
{
    ||| a == b
    ||| (match a {
        NbtElement::ByteArray(s) => (b matches NbtElement::ByteArray(t)
            && t.values@ == s.values@ && t.height == s.height
            && t.true_height == s.true_height && t.open == s.open
            && t.max_depth == s.max_depth),
        NbtElement::Str(s) => (b matches NbtElement::Str(t) && t.bytes@ == s.bytes@),
        NbtElement::IntArray(s) => (b matches NbtElement::IntArray(t)
            && t.values@ == s.values@ && t.height == s.height
            && t.true_height == s.true_height && t.open == s.open
            && t.max_depth == s.max_depth),
        NbtElement::LongArray(s) => (b matches NbtElement::LongArray(t)
            && t.values@ == s.values@ && t.height == s.height
            && t.true_height == s.true_height && t.open == s.open
            && t.max_depth == s.max_depth),
        NbtElement::List(l) => (b matches NbtElement::List(m)
            && m.element == l.element && m.height == l.height
            && m.true_height == l.true_height && m.open == l.open
            && m.max_depth == l.max_depth
            && m.elements@.len() == l.elements@.len()
            && (forall|i: int| 0 <= i < l.elements@.len()
                ==> same_tree(#[trigger] l.elements@[i], m.elements@[i]))),
        NbtElement::Compound(c) => (b matches NbtElement::Compound(d)
            && d.height == c.height && d.true_height == c.true_height
            && d.open == c.open && d.max_depth == c.max_depth
            && d.entries@.len() == c.entries@.len()
            && (forall|i: int| 0 <= i < c.entries@.len()
                ==> (#[trigger] c.entries@[i]).0@ == d.entries@[i].0@
                    && same_tree(c.entries@[i].1, d.entries@[i].1))),
        _ => false,
    })
}

/// Identical trees have the same model, row counts and expansion
/// state.
pub proof fn lemma_same_tree_props(a: NbtElement, b: NbtElement)
    requires
        same_tree(a, b),
    ensures
        vof(b) == vof(a),
        height_of(b) == height_of(a),
        crate::element::open_of(b) == crate::element::open_of(a),
        crate::element::cached_height(b) == crate::element::cached_height(a),
        crate::element::cached_true_height(b) == crate::element::cached_true_height(a),
        inv(a) ==> inv(b),
    decreases a,
{
    if a == b {
    } else {
        match a {
            NbtElement::List(l) => {
                let m = b->List_0;
                assert forall|i: int| 0 <= i < l.elements@.len()
                    implies vof(#[trigger] m.elements@[i]) == vof(l.elements@[i])
                        && height_of(m.elements@[i]) == height_of(l.elements@[i])
                        && (inv(l.elements@[i]) ==> inv(m.elements@[i])) by {
                    lemma_same_tree_props(l.elements@[i], m.elements@[i]);
                }
                crate::element::lemma_views_of_pointwise(m.elements@, l.elements@);
                crate::element::lemma_height_sum_pointwise(m.elements@, l.elements@);
            },
            NbtElement::Compound(c) => {
                let d = b->Compound_0;
                assert forall|i: int| 0 <= i < c.entries@.len()
                    implies vof((#[trigger] d.entries@[i]).1) == vof(c.entries@[i].1)
                        && d.entries@[i].0@ == c.entries@[i].0@
                        && height_of(d.entries@[i].1) == height_of(c.entries@[i].1)
                        && (inv(c.entries@[i].1) ==> inv(d.entries@[i].1)) by {
                    lemma_same_tree_props(c.entries@[i].1, d.entries@[i].1);
                }
                crate::element::lemma_entry_views_of_pointwise(d.entries@, c.entries@);
                crate::element::lemma_entry_height_sum_pointwise(d.entries@, c.entries@);
            },
            _ => {},
        }
    }
}


/// Whether every child of a node shows exactly one row (array rows
/// always do; list and map children when each is collapsed or a leaf).
pub open spec fn children_collapsed(e: NbtElement) -> bool {
    match e {
        NbtElement::List(l) => forall|i: int| 0 <= i < l.elements@.len()
            ==> height_of(#[trigger] l.elements@[i]) == 1,
        NbtElement::Compound(c) => forall|i: int| 0 <= i < c.entries@.len()
            ==> height_of((#[trigger] c.entries@[i]).1) == 1,
        _ => true,
    }
}

/// The child node a path step names; the node itself where children
/// are primitive rows or the step is out of range.
pub open spec fn child_at(e: NbtElement, i: int) -> NbtElement {
    match e {
        NbtElement::List(l) => if 0 <= i < l.elements@.len() { l.elements@[i] } else { e },
        NbtElement::Compound(c) => if 0 <= i < c.entries@.len() { c.entries@[i].1 } else {
            e
        },
        _ => e,
    }
}

/// Fully expanded rows of the children before position `k`.
pub open spec fn child_tsum_prefix(e: NbtElement, k: int) -> nat {
    match e {
        NbtElement::ByteArray(a) => if 0 <= k <= a.values@.len() { k as nat } else { 0 },
        NbtElement::IntArray(a) => if 0 <= k <= a.values@.len() { k as nat } else { 0 },
        NbtElement::LongArray(a) => if 0 <= k <= a.values@.len() { k as nat } else { 0 },
        NbtElement::List(l) => if 0 <= k <= l.elements@.len() {
            true_height_sum(views_of(l.elements@.subrange(0, k)))
        } else {
            0
        },
        NbtElement::Compound(c) => if 0 <= k <= c.entries@.len() {
            true_height_entry_sum(entry_views_of(c.entries@.subrange(0, k)))
        } else {
            0
        },
        _ => 0,
    }
}

/// The one-based line number that an insertion along `path` lands on,
/// counting every row as if fully expanded, below a node whose own
/// header row is `base`.
pub open spec fn line_at(e: NbtElement, path: Seq<usize>, base: int) -> int
    decreases path.len(),
{
    if path.len() <= 1 {
        let k = if path.len() == 1 { path[0] as int } else { 0 };
        base + 1 + child_tsum_prefix(e, k)
    } else {
        line_at(child_at(e, path[0] as int), path.subrange(1, path.len() as int),
            base + 1 + child_tsum_prefix(e, path[0] as int))
    }
}

/// Whether the budget falls where this node itself decides at the
/// target depth: anywhere in its first row, in a collapsed node's
/// second row, or — when the node is expanded and every child shows
/// one row — on any child boundary of its span.
pub open spec fn zone_hit(a: NbtElement, y0: usize, depth: usize, target_depth: usize)
    -> bool {
    &&& depth == target_depth
    &&& is_composite(a)
    &&& (y0 < 16
        || (!open_of(a) && 16 <= y0 < 24)
        || (open_of(a) && children_collapsed(a)
            && (y0 as int) < 16 + 16 * child_count(a)))
}

/// What every resolution outcome promises: a missed or rejected edit
/// leaves the tree untouched and hands the value back; a placed edit
/// grows the tree by exactly the value's rows, somewhere under the
/// node, and reports the two row deltas faithfully.
pub open spec fn drop_post(
    a: NbtElement,
    b: NbtElement,
    key: Option<Vec<u8>>,
    element: NbtElement,
    ind0: Seq<usize>,
    ind1: Seq<usize>,
    line_number: usize,
    y0: usize,
    y1: usize,
    depth: usize,
    target_depth: usize,
    r: DropFn,
) -> bool {
    &&& y1 <= y0
    &&& (zone_hit(a, y0, depth, target_depth) && accepts(a, element) ==> r is Dropped)
    &&& (zone_hit(a, y0, depth, target_depth) && !accepts(a, element)
        ==> r is InvalidType)
    &&& (r is InvalidType ==> target_depth >= depth)
    &&& match r {
        DropFn::Missed(k, e) => {
            &&& same_tree(a, b)
            &&& k == key
            &&& e == Pending::Elem(element)
            &&& ind1 == ind0
            &&& (y0 < 16 ==> y1 == y0)
            &&& (is_composite(a) && !open_of(a) && y0 >= 16 ==> y1 == y0 - 16)
        },
        DropFn::InvalidType(k, e) => same_tree(a, b) && k == key
            && e == Pending::Elem(element),
        DropFn::Dropped(dh, dth, lbl, ln) => {
            &&& dth == theight_of(element)
            &&& theight_of(b) == theight_of(a) + dth
            &&& height_of(b) == height_of(a) + dh
            &&& tag_of(vof(b)) == tag_of(vof(a))
            &&& (lbl is Some == key is Some)
            &&& (lbl matches Some(s)
                ==> key matches Some(k2) && s@ == k2@)
            &&& ind1.len() > ind0.len()
            &&& ind1.subrange(0, ind0.len() as int) == ind0
            &&& placed_along(vof(a), vof(b), spec_key(key), vof(element),
                ind1.subrange(ind0.len() as int, ind1.len() as int))
            &&& ln == line_at(a, ind1.subrange(ind0.len() as int, ind1.len() as int),
                line_number as int)
            &&& line_number < ln
                <= line_number + theight_of(a) + theight_of(element) + 1
        },
    }
}


/// Places a pending 8-bit value into an array by row budget.
#[verifier::loop_isolation(false)]
#[verifier::rlimit(100)]
fn drop_into_bytes(
    a: &mut NbtByteArray,
    key: Option<Vec<u8>>,
    element: NbtElement,
    y: &mut usize,
    depth: usize,
    target_depth: usize,
    line_number: usize,
    indices: &mut Vec<usize>,
) -> (r: DropFn)
    requires
        inv(NbtElement::ByteArray(*old(a))),
        inv(element),
        theight_of(NbtElement::ByteArray(*old(a))) + theight_of(element) <= usize::MAX,
        line_number + theight_of(NbtElement::ByteArray(*old(a))) + theight_of(element) + 1
            <= usize::MAX,
    ensures
        inv(NbtElement::ByteArray(*final(a))),
        drop_post(NbtElement::ByteArray(*old(a)), NbtElement::ByteArray(*final(a)), key,
            element, old(indices)@, final(indices)@, line_number, *old(y), *final(y),
            depth, target_depth, r),
{
    let ghost ga = *a;
    let ghost ea = NbtElement::ByteArray(ga);
    let ghost hyp = zone_hit(ea, *old(y), depth, target_depth);
    let n = a.values.len();
    let zone1 = *y < 16 && depth == target_depth;
    let zone2 = !a.open && *y < 24 && *y >= 16 && depth == target_depth;
    if zone1 || zone2 {
        match element {
            NbtElement::Byte(x) => {
                let at: usize = if zone1 { 0 } else { n };
                let before = if a.open { 1 + n } else { 1 };
                indices.push(at);
                a.values.insert(at, x);
                a.height = a.height + 1;
                a.true_height = a.true_height + 1;
                a.open = true;
                let after = 2 + n;
                let ln = if zone1 { line_number + 1 } else { line_number + 1 + n };
                proof {
                    assert(vof(element) == Value::Byte(x));
                    assert(vof(NbtElement::ByteArray(*a))
                        == Value::ByteArray(ga.values@.insert(at as int, x)));
                    assert(0 <= at as int <= ga.values@.len());
                    assert(child_inserted_at(Value::ByteArray(ga.values@),
                        Value::ByteArray(ga.values@.insert(at as int, x)), spec_key(key),
                        Value::Byte(x), at as int));
                    assert(indices@.subrange(0, old(indices)@.len() as int)
                        =~= old(indices)@);
                    assert(indices@.subrange(old(indices)@.len() as int,
                        indices@.len() as int) =~= seq![at]);
                    assert(ln == line_at(ea, seq![at], line_number as int));
                }
                return DropFn::Dropped(after - before, 1, key, ln);
            },
            _ => {
                return DropFn::InvalidType(key, Pending::Elem(element));
            },
        }
    }
    if *y < 16 {
        proof {
            assert(!hyp);
        }
        return DropFn::Missed(key, Pending::Elem(element));
    }
    *y = *y - 16;
    if a.open && n > 0 {
        indices.push(0);
        let mut i: usize = 0;
        while i < n
            invariant
                i <= n,
                *a == ga,
                n == a.values@.len(),
                indices@.len() == old(indices)@.len() + 1,
                indices@.subrange(0, old(indices)@.len() as int) == old(indices)@,
                *y as int == *old(y) - 16 - 16 * (i as int),
                hyp ==> depth == target_depth && (*old(y) as int) < 16 + 16 * (n as int),
            decreases n - i,
        {
            if *y < 16 {
                if depth == target_depth {
                    let at: usize = if *y < 8 { i } else { i + 1 };
                    match element {
                        NbtElement::Byte(x) => {
                            let m2 = indices.len();
                            indices[m2 - 1] = at;
                            a.values.insert(at, x);
                            a.height = a.height + 1;
                            a.true_height = a.true_height + 1;
                            let ln = if at == i { line_number + 1 + i } else {
                                line_number + 2 + i
                            };
                            proof {
                                assert(vof(element) == Value::Byte(x));
                                assert(vof(NbtElement::ByteArray(*a))
                                    == Value::ByteArray(ga.values@.insert(at as int, x)));
                                assert(0 <= at as int <= ga.values@.len());
                                assert(child_inserted_at(Value::ByteArray(ga.values@),
                                    Value::ByteArray(ga.values@.insert(at as int, x)),
                                    spec_key(key), Value::Byte(x), at as int));
                                assert(indices@.subrange(0, old(indices)@.len() as int)
                                    =~= old(indices)@);
                                assert(indices@.subrange(old(indices)@.len() as int,
                                    indices@.len() as int) =~= seq![at]);
                                assert(ln == line_at(ea, seq![at], line_number as int));
                            }
                            return DropFn::Dropped(1, 1, key, ln);
                        },
                        _ => {
                            return DropFn::InvalidType(key, Pending::Elem(element));
                        },
                    }
                }
                proof {
                    assert(!hyp);
                }
                indices.pop();
                proof {
                    assert(indices@ =~= old(indices)@);
                }
                return DropFn::Missed(key, Pending::Elem(element));
            }
            *y = *y - 16;
            i += 1;
        }
        proof {
            assert(!hyp);
        }
        indices.pop();
        proof {
            assert(indices@ =~= old(indices)@);
        }
    }
    proof {
        assert(!hyp);
    }
    DropFn::Missed(key, Pending::Elem(element))
}

/// Places a pending 32-bit value into an array by row budget.
#[verifier::loop_isolation(false)]
#[verifier::rlimit(100)]
fn drop_into_ints(
    a: &mut NbtIntArray,
    key: Option<Vec<u8>>,
    element: NbtElement,
    y: &mut usize,
    depth: usize,
    target_depth: usize,
    line_number: usize,
    indices: &mut Vec<usize>,
) -> (r: DropFn)
    requires
        inv(NbtElement::IntArray(*old(a))),
        inv(element),
        theight_of(NbtElement::IntArray(*old(a))) + theight_of(element) <= usize::MAX,
        line_number + theight_of(NbtElement::IntArray(*old(a))) + theight_of(element) + 1
            <= usize::MAX,
    ensures
        inv(NbtElement::IntArray(*final(a))),
        drop_post(NbtElement::IntArray(*old(a)), NbtElement::IntArray(*final(a)), key,
            element, old(indices)@, final(indices)@, line_number, *old(y), *final(y),
            depth, target_depth, r),
{
    let ghost ga = *a;
    let ghost ea = NbtElement::IntArray(ga);
    let ghost hyp = zone_hit(ea, *old(y), depth, target_depth);
    let n = a.values.len();
    let zone1 = *y < 16 && depth == target_depth;
    let zone2 = !a.open && *y < 24 && *y >= 16 && depth == target_depth;
    if zone1 || zone2 {
        match element {
            NbtElement::Int(x) => {
                let at: usize = if zone1 { 0 } else { n };
                let before = if a.open { 1 + n } else { 1 };
                indices.push(at);
                a.values.insert(at, x);
                a.height = a.height + 1;
                a.true_height = a.true_height + 1;
                a.open = true;
                let after = 2 + n;
                let ln = if zone1 { line_number + 1 } else { line_number + 1 + n };
                proof {
                    assert(vof(element) == Value::Int(x));
                    assert(vof(NbtElement::IntArray(*a))
                        == Value::IntArray(ga.values@.insert(at as int, x)));
                    assert(0 <= at as int <= ga.values@.len());
                    assert(child_inserted_at(Value::IntArray(ga.values@),
                        Value::IntArray(ga.values@.insert(at as int, x)), spec_key(key),
                        Value::Int(x), at as int));
                    assert(indices@.subrange(0, old(indices)@.len() as int)
                        =~= old(indices)@);
                    assert(indices@.subrange(old(indices)@.len() as int,
                        indices@.len() as int) =~= seq![at]);
                    assert(ln == line_at(ea, seq![at], line_number as int));
                }
                return DropFn::Dropped(after - before, 1, key, ln);
            },
            _ => {
                return DropFn::InvalidType(key, Pending::Elem(element));
            },
        }
    }
    if *y < 16 {
        proof {
            assert(!hyp);
        }
        return DropFn::Missed(key, Pending::Elem(element));
    }
    *y = *y - 16;
    if a.open && n > 0 {
        indices.push(0);
        let mut i: usize = 0;
        while i < n
            invariant
                i <= n,
                *a == ga,
                n == a.values@.len(),
                indices@.len() == old(indices)@.len() + 1,
                indices@.subrange(0, old(indices)@.len() as int) == old(indices)@,
                *y as int == *old(y) - 16 - 16 * (i as int),
                hyp ==> depth == target_depth && (*old(y) as int) < 16 + 16 * (n as int),
            decreases n - i,
        {
            if *y < 16 {
                if depth == target_depth {
                    let at: usize = if *y < 8 { i } else { i + 1 };
                    match element {
                        NbtElement::Int(x) => {
                            let m2 = indices.len();
                            indices[m2 - 1] = at;
                            a.values.insert(at, x);
                            a.height = a.height + 1;
                            a.true_height = a.true_height + 1;
                            let ln = if at == i { line_number + 1 + i } else {
                                line_number + 2 + i
                            };
                            proof {
                                assert(vof(element) == Value::Int(x));
                                assert(vof(NbtElement::IntArray(*a))
                                    == Value::IntArray(ga.values@.insert(at as int, x)));
                                assert(0 <= at as int <= ga.values@.len());
                                assert(child_inserted_at(Value::IntArray(ga.values@),
                                    Value::IntArray(ga.values@.insert(at as int, x)),
                                    spec_key(key), Value::Int(x), at as int));
                                assert(indices@.subrange(0, old(indices)@.len() as int)
                                    =~= old(indices)@);
                                assert(indices@.subrange(old(indices)@.len() as int,
                                    indices@.len() as int) =~= seq![at]);
                                assert(ln == line_at(ea, seq![at], line_number as int));
                            }
                            return DropFn::Dropped(1, 1, key, ln);
                        },
                        _ => {
                            return DropFn::InvalidType(key, Pending::Elem(element));
                        },
                    }
                }
                proof {
                    assert(!hyp);
                }
                indices.pop();
                proof {
                    assert(indices@ =~= old(indices)@);
                }
                return DropFn::Missed(key, Pending::Elem(element));
            }
            *y = *y - 16;
            i += 1;
        }
        proof {
            assert(!hyp);
        }
        indices.pop();
        proof {
            assert(indices@ =~= old(indices)@);
        }
    }
    proof {
        assert(!hyp);
    }
    DropFn::Missed(key, Pending::Elem(element))
}

/// Places a pending 64-bit value into an array by row budget.
#[verifier::loop_isolation(false)]
#[verifier::rlimit(100)]
fn drop_into_longs(
    a: &mut NbtLongArray,
    key: Option<Vec<u8>>,
    element: NbtElement,
    y: &mut usize,
    depth: usize,
    target_depth: usize,
    line_number: usize,
    indices: &mut Vec<usize>,
) -> (r: DropFn)
    requires
        inv(NbtElement::LongArray(*old(a))),
        inv(element),
        theight_of(NbtElement::LongArray(*old(a))) + theight_of(element) <= usize::MAX,
        line_number + theight_of(NbtElement::LongArray(*old(a))) + theight_of(element) + 1
            <= usize::MAX,
    ensures
        inv(NbtElement::LongArray(*final(a))),
        drop_post(NbtElement::LongArray(*old(a)), NbtElement::LongArray(*final(a)), key,
            element, old(indices)@, final(indices)@, line_number, *old(y), *final(y),
            depth, target_depth, r),
{
    let ghost ga = *a;
    let ghost ea = NbtElement::LongArray(ga);
    let ghost hyp = zone_hit(ea, *old(y), depth, target_depth);
    let n = a.values.len();
    let zone1 = *y < 16 && depth == target_depth;
    let zone2 = !a.open && *y < 24 && *y >= 16 && depth == target_depth;
    if zone1 || zone2 {
        match element {
            NbtElement::Long(x) => {
                let at: usize = if zone1 { 0 } else { n };
                let before = if a.open { 1 + n } else { 1 };
                indices.push(at);
                a.values.insert(at, x);
                a.height = a.height + 1;
                a.true_height = a.true_height + 1;
                a.open = true;
                let after = 2 + n;
                let ln = if zone1 { line_number + 1 } else { line_number + 1 + n };
                proof {
                    assert(vof(element) == Value::Long(x));
                    assert(vof(NbtElement::LongArray(*a))
                        == Value::LongArray(ga.values@.insert(at as int, x)));
                    assert(0 <= at as int <= ga.values@.len());
                    assert(child_inserted_at(Value::LongArray(ga.values@),
                        Value::LongArray(ga.values@.insert(at as int, x)), spec_key(key),
                        Value::Long(x), at as int));
                    assert(indices@.subrange(0, old(indices)@.len() as int)
                        =~= old(indices)@);
                    assert(indices@.subrange(old(indices)@.len() as int,
                        indices@.len() as int) =~= seq![at]);
                    assert(ln == line_at(ea, seq![at], line_number as int));
                }
                return DropFn::Dropped(after - before, 1, key, ln);
            },
            _ => {
                return DropFn::InvalidType(key, Pending::Elem(element));
            },
        }
    }
    if *y < 16 {
        proof {
            assert(!hyp);
        }
        return DropFn::Missed(key, Pending::Elem(element));
    }
    *y = *y - 16;
    if a.open && n > 0 {
        indices.push(0);
        let mut i: usize = 0;
        while i < n
            invariant
                i <= n,
                *a == ga,
                n == a.values@.len(),
                indices@.len() == old(indices)@.len() + 1,
                indices@.subrange(0, old(indices)@.len() as int) == old(indices)@,
                *y as int == *old(y) - 16 - 16 * (i as int),
                hyp ==> depth == target_depth && (*old(y) as int) < 16 + 16 * (n as int),
            decreases n - i,
        {
            if *y < 16 {
                if depth == target_depth {
                    let at: usize = if *y < 8 { i } else { i + 1 };
                    match element {
                        NbtElement::Long(x) => {
                            let m2 = indices.len();
                            indices[m2 - 1] = at;
                            a.values.insert(at, x);
                            a.height = a.height + 1;
                            a.true_height = a.true_height + 1;
                            let ln = if at == i { line_number + 1 + i } else {
                                line_number + 2 + i
                            };
                            proof {
                                assert(vof(element) == Value::Long(x));
                                assert(vof(NbtElement::LongArray(*a))
                                    == Value::LongArray(ga.values@.insert(at as int, x)));
                                assert(0 <= at as int <= ga.values@.len());
                                assert(child_inserted_at(Value::LongArray(ga.values@),
                                    Value::LongArray(ga.values@.insert(at as int, x)),
                                    spec_key(key), Value::Long(x), at as int));
                                assert(indices@.subrange(0, old(indices)@.len() as int)
                                    =~= old(indices)@);
                                assert(indices@.subrange(old(indices)@.len() as int,
                                    indices@.len() as int) =~= seq![at]);
                                assert(ln == line_at(ea, seq![at], line_number as int));
                            }
                            return DropFn::Dropped(1, 1, key, ln);
                        },
                        _ => {
                            return DropFn::InvalidType(key, Pending::Elem(element));
                        },
                    }
                }
                proof {
                    assert(!hyp);
                }
                indices.pop();
                proof {
                    assert(indices@ =~= old(indices)@);
                }
                return DropFn::Missed(key, Pending::Elem(element));
            }
            *y = *y - 16;
            i += 1;
        }
        proof {
            assert(!hyp);
        }
        indices.pop();
        proof {
            assert(indices@ =~= old(indices)@);
        }
    }
    proof {
        assert(!hyp);
    }
    DropFn::Missed(key, Pending::Elem(element))
}

/// Places a pending keyed value into a map by row budget, or descends
/// into the child whose rows the budget falls in.
#[verifier::loop_isolation(false)]
#[verifier::rlimit(100)]
fn drop_into_compound(
    c: &mut NbtCompound,
    key: Option<Vec<u8>>,
    element: NbtElement,
    y: &mut usize,
    depth: usize,
    target_depth: usize,
    line_number: usize,
    indices: &mut Vec<usize>,
) -> (r: DropFn)
    requires
        inv(NbtElement::Compound(*old(c))),
        inv(element),
        theight_of(NbtElement::Compound(*old(c))) + theight_of(element) <= usize::MAX,
        line_number + theight_of(NbtElement::Compound(*old(c))) + theight_of(element) + 1
            <= usize::MAX,
        *old(y) <= usize::MAX - 8,
        depth + theight_of(NbtElement::Compound(*old(c))) <= usize::MAX,
    ensures
        inv(NbtElement::Compound(*final(c))),
        drop_post(NbtElement::Compound(*old(c)), NbtElement::Compound(*final(c)), key,
            element, old(indices)@, final(indices)@, line_number, *old(y), *final(y),
            depth, target_depth, r),
    decreases *old(c), 0nat,
{
    let ghost gc = *c;
    let ghost gev = entry_views_of(gc.entries@);
    let ghost gelem = vof(element);
    let ghost ea = NbtElement::Compound(gc);
    let ghost hyp = zone_hit(ea, *old(y), depth, target_depth);
    let n = c.entries.len();
    let elem_ok = element.id() != 0;
    let zone1 = *y < 16 && depth == target_depth;
    let zone2 = !c.open && *y < 24 && *y >= 16 && depth == target_depth;
    if zone1 || zone2 {
        if !elem_ok {
            return DropFn::InvalidType(key, Pending::Elem(element));
        }
        let at: usize = if zone1 { 0 } else { n };
        indices.push(at);
        let before = if c.open { c.height } else { 1 };
        let before_th = c.true_height;
        let h = element.height();
        let th = element.true_height();
        let (ekey, label): (Vec<u8>, Option<Vec<u8>>) = match key {
            Some(k) => {
                let l = crate::envelope::copy_bytes(k.as_slice());
                (k, Some(l))
            },
            None => (Vec::new(), None),
        };
        proof {
            assert(ekey@ == spec_key(key));
            crate::element::lemma_entry_views_of(gc.entries@);
            crate::element::lemma_height_le_true_height(element);
            crate::element::lemma_entry_height_sum_le(gc.entries@);
            lemma_entry_insert_bundle(gc.entries@, at as int, (ekey, element));
        }
        c.entries.insert(at, (ekey, element));
        c.height = c.height + h;
        c.true_height = c.true_height + th;
        c.open = true;
        let after = c.height;
        let ln = if zone1 { line_number + 1 } else { line_number + before_th };
        proof {
            assert(gc.entries@.subrange(0, 0) =~= Seq::<(Vec<u8>, NbtElement)>::empty());
            assert(entry_views_of(gc.entries@.subrange(0, 0))
                =~= Seq::<(Seq<u8>, Value)>::empty());
            assert(gc.entries@.subrange(0, n as int) =~= gc.entries@);
            assert(entry_views_of(gc.entries@.subrange(0, n as int)) == gev);
            assert(before_th == 1 + true_height_entry_sum(gev));
            assert(ln == line_at(ea, seq![at], line_number as int));
            assert(vof(NbtElement::Compound(*c))
                == Value::Compound(gev.insert(at as int, (spec_key(key), gelem))));
            assert(child_inserted_at(Value::Compound(gev),
                Value::Compound(gev.insert(at as int, (spec_key(key), gelem))),
                spec_key(key), gelem, at as int));
            assert(indices@.subrange(0, old(indices)@.len() as int) =~= old(indices)@);
            assert(indices@.subrange(old(indices)@.len() as int, indices@.len() as int)
                =~= seq![at]);
        }
        return DropFn::Dropped(after - before, th, label, ln);
    }
    if *y < 16 {
        proof {
            assert(!hyp);
        }
        return DropFn::Missed(key, Pending::Elem(element));
    }
    *y = *y - 16;
    if c.open && n > 0 {
        indices.push(0);
        let mut i: usize = 0;
        let mut lc: usize = line_number;
        proof {
            assert(gc.entries@.subrange(0, 0) =~= Seq::<(Vec<u8>, NbtElement)>::empty());
            assert(entry_views_of(gc.entries@.subrange(0, 0))
                =~= Seq::<(Seq<u8>, Value)>::empty());
            assert(gc.entries@.subrange(0, n as int) =~= gc.entries@);
        }
        while i < n
            invariant
                i <= n,
                *c == gc,
                n == gc.entries@.len(),
                *y <= usize::MAX - 8,
                indices@.len() == old(indices)@.len() + 1,
                indices@.subrange(0, old(indices)@.len() as int) == old(indices)@,
                lc == line_number
                    + true_height_entry_sum(entry_views_of(gc.entries@.subrange(0, i as int))),
                lc + true_height_entry_sum(entry_views_of(gc.entries@.subrange(i as int,
                    n as int))) == line_number + true_height_entry_sum(gev),
                *y <= *old(y),
                hyp ==> *y as int == *old(y) - 16 - 16 * (i as int),
                hyp ==> (*old(y) as int) < 16 + 16 * (n as int),
            decreases n - i,
        {
            proof {
                assert(gc.entries@.subrange(i as int, n as int)
                    =~= seq![gc.entries@[i as int]]
                        + gc.entries@.subrange(i + 1, n as int));
                crate::element::lemma_entry_views_of_concat(seq![gc.entries@[i as int]],
                    gc.entries@.subrange(i + 1, n as int));
                crate::element::lemma_entry_sums_singleton(gc.entries@[i as int]);
                crate::element::lemma_true_entry_sum_concat(
                    entry_views_of(seq![gc.entries@[i as int]]),
                    entry_views_of(gc.entries@.subrange(i + 1, n as int)));
                assert(gc.entries@.subrange(0, i + 1)
                    =~= gc.entries@.subrange(0, i as int) + seq![gc.entries@[i as int]]);
                crate::element::lemma_entry_views_of_concat(
                    gc.entries@.subrange(0, i as int), seq![gc.entries@[i as int]]);
                crate::element::lemma_true_entry_sum_concat(
                    entry_views_of(gc.entries@.subrange(0, i as int)),
                    entry_views_of(seq![gc.entries@[i as int]]));
            }
            let hi = c.entries[i].1.height();
            let thi = c.entries[i].1.true_height();
            proof {
                if hyp {
                    assert(height_of(gc.entries@[i as int].1) == 1);
                    assert(hi == 1);
                }
            }
            let m = indices.len();
            indices[m - 1] = i;
            let in_before = *y < 8;
            let in_after = !in_before && *y / 16 + 1 == hi && *y % 16 >= 8;
            if (in_before || in_after) && depth == target_depth {
                if !elem_ok {
                    return DropFn::InvalidType(key, Pending::Elem(element));
                }
                let at: usize = if in_before { i } else { i + 1 };
                let m2 = indices.len();
                indices[m2 - 1] = at;
                let h = element.height();
                let th = element.true_height();
                let (ekey, label): (Vec<u8>, Option<Vec<u8>>) = match key {
                    Some(k) => {
                        let l = crate::envelope::copy_bytes(k.as_slice());
                        (k, Some(l))
                    },
                    None => (Vec::new(), None),
                };
                proof {
                    assert(ekey@ == spec_key(key));
                    crate::element::lemma_entry_views_of(gc.entries@);
                    crate::element::lemma_height_le_true_height(element);
                    crate::element::lemma_entry_height_sum_le(gc.entries@);
                    lemma_entry_insert_bundle(gc.entries@, at as int, (ekey, element));
                }
                c.entries.insert(at, (ekey, element));
                c.height = c.height + h;
                c.true_height = c.true_height + th;
                let ln = if in_before { lc + 1 } else { lc + thi + 1 };
                proof {
                    assert(thi == theight_of(gc.entries@[i as int].1));
                    assert(ln == line_at(ea, seq![at], line_number as int));
                    assert(vof(NbtElement::Compound(*c))
                        == Value::Compound(gev.insert(at as int, (spec_key(key), gelem))));
                    assert(child_inserted_at(Value::Compound(gev),
                        Value::Compound(gev.insert(at as int, (spec_key(key), gelem))),
                        spec_key(key), gelem, at as int));
                    assert(indices@.subrange(0, old(indices)@.len() as int)
                        =~= old(indices)@);
                    assert(indices@.subrange(old(indices)@.len() as int,
                        indices@.len() as int) =~= seq![at]);
                }
                return DropFn::Dropped(h, th, label, ln);
            }
            let in_span = *y / 16 < hi;
            if in_span {
                proof {
                    assert(!hyp);
                    let ge = gc.entries@[i as int].1;
                    assert(decreases_to!(gc => gc.entries));
                    assert(decreases_to!(gc.entries => gc.entries@));
                    assert(decreases_to!(gc.entries@ => gc.entries@[i as int]));
                    assert(decreases_to!(gc.entries@[i as int]
                        => gc.entries@[i as int].1));
                    crate::element::lemma_entry_height_sum_le(gc.entries@);
                }
                let sub = c.entries[i].1.drop(key, element, y, depth + 1, target_depth,
                    lc + 1, indices);
                match sub {
                    DropFn::Dropped(dh, dth, lbl, ln) => {
                        proof {
                            assert(c.entries@ =~= gc.entries@.update(i as int,
                                (gc.entries@[i as int].0, c.entries@[i as int].1)));
                            lemma_entry_update_bundle(gc.entries@, i as int,
                                (gc.entries@[i as int].0, c.entries@[i as int].1));
                            assert forall|j: int| 0 <= j < c.entries@.len()
                                implies inv((#[trigger] c.entries@[j]).1) by {
                                if j != i {
                                    assert(c.entries@[j] == gc.entries@[j]);
                                }
                            }
                            crate::element::lemma_entry_height_sum_le(c.entries@);
                            assert(c.height + dh
                                == 1 + crate::element::entry_height_sum(c.entries@));
                            assert(c.true_height + dth
                                == 1 + true_height_entry_sum(entry_views_of(c.entries@)));
                        }
                        c.height = c.height + dh;
                        c.true_height = c.true_height + dth;
                        proof {
                            let ea = gev;
                            let eb = entry_views_of(c.entries@);
                            crate::element::lemma_entry_views_of(gc.entries@);
                            crate::element::lemma_entry_views_of(c.entries@);
                            let n0 = old(indices)@.len() as int;
                            let nm = n0 + 1;
                            assert(indices@.subrange(0, n0) =~= old(indices)@);
                            let path = indices@.subrange(n0, indices@.len() as int);
                            assert(path.len() >= 2);
                            assert(path[0] == i);
                            assert(path.subrange(1, path.len() as int)
                                =~= indices@.subrange(nm, indices@.len() as int));
                            assert(placed_along(Value::Compound(ea), Value::Compound(eb),
                                spec_key(key), gelem, path));
                            assert(vof(NbtElement::Compound(gc)) == Value::Compound(ea));
                            assert(vof(NbtElement::Compound(*c)) == Value::Compound(eb));
                            assert(child_at(NbtElement::Compound(gc), i as int)
                                == gc.entries@[i as int].1);
                            assert(child_tsum_prefix(NbtElement::Compound(gc), i as int)
                                == true_height_entry_sum(entry_views_of(
                                    gc.entries@.subrange(0, i as int))));
                            assert(ln == line_at(gc.entries@[i as int].1,
                                path.subrange(1, path.len() as int), (lc + 1) as int));
                            assert(ln == line_at(NbtElement::Compound(gc), path,
                                line_number as int));
                        }
                        return DropFn::Dropped(dh, dth, lbl, ln);
                    },
                    DropFn::InvalidType(k2, e2) => {
                        proof {
                            assert(c.entries@ == gc.entries@.update(i as int,
                                (gc.entries@[i as int].0, c.entries@[i as int].1)));
                            assert forall|j: int| 0 <= j < gc.entries@.len()
                                implies (#[trigger] gc.entries@[j]).0@
                                    == c.entries@[j].0@
                                    && same_tree(gc.entries@[j].1, c.entries@[j].1) by {
                                if j != i as int {
                                    assert(c.entries@[j] == gc.entries@[j]);
                                }
                            }
                            assert(same_tree(NbtElement::Compound(gc),
                                NbtElement::Compound(*c)));
                            lemma_same_tree_props(NbtElement::Compound(gc),
                                NbtElement::Compound(*c));
                        }
                        return DropFn::InvalidType(k2, e2);
                    },
                    DropFn::Missed(k2, e2) => {
                        proof {
                            assert(c.entries@ == gc.entries@.update(i as int,
                                (gc.entries@[i as int].0, c.entries@[i as int].1)));
                            assert forall|j: int| 0 <= j < gc.entries@.len()
                                implies (#[trigger] gc.entries@[j]).0@
                                    == c.entries@[j].0@
                                    && same_tree(gc.entries@[j].1, c.entries@[j].1) by {
                                if j != i as int {
                                    assert(c.entries@[j] == gc.entries@[j]);
                                }
                            }
                            assert(same_tree(NbtElement::Compound(gc),
                                NbtElement::Compound(*c)));
                            lemma_same_tree_props(NbtElement::Compound(gc),
                                NbtElement::Compound(*c));
                        }
                        indices.pop();
                        proof {
                            assert(indices@ =~= old(indices)@);
                        }
                        return DropFn::Missed(k2, e2);
                    },
                }
            }
            proof {
                assert(hi <= *y / 16);
                assert(16 * hi <= 16 * (*y / 16));
                assert(16 * (*y / 16) <= *y);
                crate::element::lemma_height_le_true_height(gc.entries@[i as int].1);
            }
            *y = *y - 16 * hi;
            lc = lc + thi;
            i += 1;
        }
        proof {
            assert(!hyp);
        }
        indices.pop();
        proof {
            assert(indices@ =~= old(indices)@);
        }
    }
    proof {
        assert(!hyp);
    }
    DropFn::Missed(key, Pending::Elem(element))
}

/// The entry-insert facts `drop_into_compound` needs, bundled.
proof fn lemma_entry_insert_bundle(s: Seq<(Vec<u8>, NbtElement)>, i: int,
    p: (Vec<u8>, NbtElement))
    requires
        0 <= i <= s.len(),
    ensures
        crate::element::entry_height_sum(s.insert(i, p))
            == crate::element::entry_height_sum(s) + height_of(p.1),
        crate::element::entry_views_of(s.insert(i, p))
            == crate::element::entry_views_of(s).insert(i, (p.0@, vof(p.1))),
        crate::value::true_height_entry_sum(crate::element::entry_views_of(s.insert(i, p)))
            == crate::value::true_height_entry_sum(crate::element::entry_views_of(s))
                + theight_of(p.1),
{
    crate::element::lemma_entry_insert(s, i, p);
}

/// The entry-update facts `drop_into_compound` needs, bundled.
proof fn lemma_entry_update_bundle(s: Seq<(Vec<u8>, NbtElement)>, i: int,
    p: (Vec<u8>, NbtElement))
    requires
        0 <= i < s.len(),
    ensures
        crate::element::entry_height_sum(s.update(i, p))
            == crate::element::entry_height_sum(s) - height_of(s[i].1) + height_of(p.1),
        crate::element::entry_views_of(s.update(i, p))
            == crate::element::entry_views_of(s).update(i, (p.0@, vof(p.1))),
        crate::value::true_height_entry_sum(crate::element::entry_views_of(s.update(i, p)))
            == crate::value::true_height_entry_sum(crate::element::entry_views_of(s))
                - theight_of(s[i].1) + theight_of(p.1),
        crate::element::entry_height_sum(s) >= height_of(s[i].1),
        crate::value::true_height_entry_sum(crate::element::entry_views_of(s))
            >= theight_of(s[i].1),
{
    crate::element::lemma_entry_update(s, i, p);
}


/// Places a pending value into a list by row budget, or descends into
/// the child whose rows the budget falls in. A non-empty list only
/// takes values of its declared element tag; an empty list takes any
/// real tag and adopts it.
#[verifier::loop_isolation(false)]
#[verifier::rlimit(100)]
fn drop_into_list(
    l: &mut NbtList,
    key: Option<Vec<u8>>,
    element: NbtElement,
    y: &mut usize,
    depth: usize,
    target_depth: usize,
    line_number: usize,
    indices: &mut Vec<usize>,
) -> (r: DropFn)
    requires
        inv(NbtElement::List(*old(l))),
        inv(element),
        theight_of(NbtElement::List(*old(l))) + theight_of(element) <= usize::MAX,
        line_number + theight_of(NbtElement::List(*old(l))) + theight_of(element) + 1
            <= usize::MAX,
        *old(y) <= usize::MAX - 8,
        depth + theight_of(NbtElement::List(*old(l))) <= usize::MAX,
    ensures
        inv(NbtElement::List(*final(l))),
        drop_post(NbtElement::List(*old(l)), NbtElement::List(*final(l)), key, element,
            old(indices)@, final(indices)@, line_number, *old(y), *final(y), depth,
            target_depth, r),
    decreases *old(l), 0nat,
{
    let ghost gl = *l;
    let ghost gev = views_of(gl.elements@);
    let ghost gelem = vof(element);
    let ghost ea = NbtElement::List(gl);
    let ghost hyp = zone_hit(ea, *old(y), depth, target_depth);
    let n = l.elements.len();
    let tag = element.id();
    let elem_ok = tag != 0 && (n == 0 || tag == l.element);
    let zone1 = *y < 16 && depth == target_depth;
    let zone2 = !l.open && *y < 24 && *y >= 16 && depth == target_depth;
    if zone1 || zone2 {
        if !elem_ok {
            return DropFn::InvalidType(key, Pending::Elem(element));
        }
        let at: usize = if zone1 { 0 } else { n };
        indices.push(at);
        let before = if l.open { l.height } else { 1 };
        let before_th = l.true_height;
        let h = element.height();
        let th = element.true_height();
        proof {
            crate::element::lemma_views_of(gl.elements@);
            crate::element::lemma_height_le_true_height(element);
            crate::element::lemma_height_sum_le(gl.elements@);
            crate::element::lemma_elem_insert(gl.elements@, at as int, element);
        }
        l.element = tag;
        l.elements.insert(at, element);
        l.height = l.height + h;
        l.true_height = l.true_height + th;
        l.open = true;
        let after = l.height;
        let ln = if zone1 { line_number + 1 } else { line_number + before_th };
        proof {
            assert(gl.elements@.subrange(0, 0) =~= Seq::<NbtElement>::empty());
            assert(views_of(gl.elements@.subrange(0, 0)) =~= Seq::<Value>::empty());
            assert(gl.elements@.subrange(0, n as int) =~= gl.elements@);
            assert(views_of(gl.elements@.subrange(0, n as int)) == gev);
            assert(before_th == 1 + true_height_sum(gev));
            assert(ln == line_at(ea, seq![at], line_number as int));
            assert(vof(NbtElement::List(*l))
                == Value::List(tag_of(gelem), gev.insert(at as int, gelem)));
            assert(child_inserted_at(Value::List(gl.element, gev),
                Value::List(tag_of(gelem), gev.insert(at as int, gelem)),
                spec_key(key), gelem, at as int));
            assert(indices@.subrange(0, old(indices)@.len() as int) =~= old(indices)@);
            assert(indices@.subrange(old(indices)@.len() as int, indices@.len() as int)
                =~= seq![at]);
        }
        return DropFn::Dropped(after - before, th, key, ln);
    }
    if *y < 16 {
        proof {
            assert(!hyp);
        }
        return DropFn::Missed(key, Pending::Elem(element));
    }
    *y = *y - 16;
    if l.open && n > 0 {
        indices.push(0);
        let mut i: usize = 0;
        let mut lc: usize = line_number;
        proof {
            assert(gl.elements@.subrange(0, 0) =~= Seq::<NbtElement>::empty());
            assert(views_of(gl.elements@.subrange(0, 0)) =~= Seq::<Value>::empty());
            assert(gl.elements@.subrange(0, n as int) =~= gl.elements@);
        }
        while i < n
            invariant
                i <= n,
                *l == gl,
                n == gl.elements@.len(),
                *y <= usize::MAX - 8,
                indices@.len() == old(indices)@.len() + 1,
                indices@.subrange(0, old(indices)@.len() as int) == old(indices)@,
                lc == line_number
                    + true_height_sum(views_of(gl.elements@.subrange(0, i as int))),
                lc + true_height_sum(views_of(gl.elements@.subrange(i as int, n as int)))
                    == line_number + true_height_sum(gev),
                *y <= *old(y),
                hyp ==> *y as int == *old(y) - 16 - 16 * (i as int),
                hyp ==> (*old(y) as int) < 16 + 16 * (n as int),
            decreases n - i,
        {
            proof {
                assert(gl.elements@.subrange(i as int, n as int)
                    =~= seq![gl.elements@[i as int]]
                        + gl.elements@.subrange(i + 1, n as int));
                crate::element::lemma_views_of_concat(seq![gl.elements@[i as int]],
                    gl.elements@.subrange(i + 1, n as int));
                crate::element::lemma_sums_singleton(gl.elements@[i as int]);
                crate::element::lemma_true_sum_concat(
                    views_of(seq![gl.elements@[i as int]]),
                    views_of(gl.elements@.subrange(i + 1, n as int)));
                assert(gl.elements@.subrange(0, i + 1)
                    =~= gl.elements@.subrange(0, i as int) + seq![gl.elements@[i as int]]);
                crate::element::lemma_views_of_concat(gl.elements@.subrange(0, i as int),
                    seq![gl.elements@[i as int]]);
                crate::element::lemma_true_sum_concat(
                    views_of(gl.elements@.subrange(0, i as int)),
                    views_of(seq![gl.elements@[i as int]]));
            }
            let hi = l.elements[i].height();
            let thi = l.elements[i].true_height();
            proof {
                if hyp {
                    assert(height_of(gl.elements@[i as int]) == 1);
                    assert(hi == 1);
                }
            }
            let m = indices.len();
            indices[m - 1] = i;
            let in_before = *y < 8;
            let in_after = !in_before && *y / 16 + 1 == hi && *y % 16 >= 8;
            if (in_before || in_after) && depth == target_depth {
                if !elem_ok {
                    return DropFn::InvalidType(key, Pending::Elem(element));
                }
                let at: usize = if in_before { i } else { i + 1 };
                let m2 = indices.len();
                indices[m2 - 1] = at;
                let h = element.height();
                let th = element.true_height();
                proof {
                    crate::element::lemma_views_of(gl.elements@);
                    crate::element::lemma_height_le_true_height(element);
                    crate::element::lemma_height_sum_le(gl.elements@);
                    crate::element::lemma_elem_insert(gl.elements@, at as int, element);
                }
                l.elements.insert(at, element);
                l.height = l.height + h;
                l.true_height = l.true_height + th;
                let ln = if in_before { lc + 1 } else { lc + thi + 1 };
                proof {
                    assert(thi == theight_of(gl.elements@[i as int]));
                    assert(ln == line_at(ea, seq![at], line_number as int));
                    assert(vof(NbtElement::List(*l))
                        == Value::List(tag_of(gelem), gev.insert(at as int, gelem)));
                    assert(child_inserted_at(Value::List(gl.element, gev),
                        Value::List(tag_of(gelem), gev.insert(at as int, gelem)),
                        spec_key(key), gelem, at as int));
                    assert(indices@.subrange(0, old(indices)@.len() as int)
                        =~= old(indices)@);
                    assert(indices@.subrange(old(indices)@.len() as int,
                        indices@.len() as int) =~= seq![at]);
                }
                return DropFn::Dropped(h, th, key, ln);
            }
            let in_span = *y / 16 < hi;
            if in_span {
                proof {
                    assert(!hyp);
                    assert(decreases_to!(gl => gl.elements));
                    assert(decreases_to!(gl.elements => gl.elements@));
                    assert(decreases_to!(gl.elements@ => gl.elements@[i as int]));
                    crate::element::lemma_height_sum_le(gl.elements@);
                }
                let sub = l.elements[i].drop(key, element, y, depth + 1, target_depth,
                    lc + 1, indices);
                match sub {
                    DropFn::Dropped(dh, dth, lbl, ln) => {
                        proof {
                            assert(l.elements@ =~= gl.elements@.update(i as int,
                                l.elements@[i as int]));
                            crate::element::lemma_elem_update(gl.elements@, i as int,
                                l.elements@[i as int]);
                            assert forall|j: int| 0 <= j < l.elements@.len()
                                implies inv(#[trigger] l.elements@[j]) by {
                                if j != i {
                                    assert(l.elements@[j] == gl.elements@[j]);
                                }
                            }
                            crate::element::lemma_height_sum_le(l.elements@);
                            assert(l.height + dh
                                == 1 + crate::element::height_sum(l.elements@));
                            assert(l.true_height + dth
                                == 1 + true_height_sum(views_of(l.elements@)));
                        }
                        l.height = l.height + dh;
                        l.true_height = l.true_height + dth;
                        proof {
                            let eb = views_of(l.elements@);
                            crate::element::lemma_views_of(gl.elements@);
                            crate::element::lemma_views_of(l.elements@);
                            let n0 = old(indices)@.len() as int;
                            let nm = n0 + 1;
                            assert(indices@.subrange(0, n0) =~= old(indices)@);
                            let path = indices@.subrange(n0, indices@.len() as int);
                            assert(path.len() >= 2);
                            assert(path[0] == i);
                            assert(path.subrange(1, path.len() as int)
                                =~= indices@.subrange(nm, indices@.len() as int));
                            assert(placed_along(Value::List(gl.element, gev),
                                Value::List(gl.element, eb), spec_key(key), gelem, path));
                            assert(vof(NbtElement::List(gl))
                                == Value::List(gl.element, gev));
                            assert(vof(NbtElement::List(*l))
                                == Value::List(gl.element, eb));
                            assert(child_at(NbtElement::List(gl), i as int)
                                == gl.elements@[i as int]);
                            assert(child_tsum_prefix(NbtElement::List(gl), i as int)
                                == true_height_sum(views_of(
                                    gl.elements@.subrange(0, i as int))));
                            assert(ln == line_at(gl.elements@[i as int],
                                path.subrange(1, path.len() as int), (lc + 1) as int));
                            assert(ln == line_at(NbtElement::List(gl), path,
                                line_number as int));
                        }
                        return DropFn::Dropped(dh, dth, lbl, ln);
                    },
                    DropFn::InvalidType(k2, e2) => {
                        proof {
                            assert(l.elements@ == gl.elements@.update(i as int,
                                l.elements@[i as int]));
                            assert forall|j: int| 0 <= j < gl.elements@.len()
                                implies same_tree(#[trigger] gl.elements@[j],
                                    l.elements@[j]) by {
                                if j != i as int {
                                    assert(l.elements@[j] == gl.elements@[j]);
                                }
                            }
                            assert(same_tree(NbtElement::List(gl), NbtElement::List(*l)));
                            lemma_same_tree_props(NbtElement::List(gl),
                                NbtElement::List(*l));
                        }
                        return DropFn::InvalidType(k2, e2);
                    },
                    DropFn::Missed(k2, e2) => {
                        proof {
                            assert(l.elements@ == gl.elements@.update(i as int,
                                l.elements@[i as int]));
                            assert forall|j: int| 0 <= j < gl.elements@.len()
                                implies same_tree(#[trigger] gl.elements@[j],
                                    l.elements@[j]) by {
                                if j != i as int {
                                    assert(l.elements@[j] == gl.elements@[j]);
                                }
                            }
                            assert(same_tree(NbtElement::List(gl), NbtElement::List(*l)));
                            lemma_same_tree_props(NbtElement::List(gl),
                                NbtElement::List(*l));
                        }
                        indices.pop();
                        proof {
                            assert(indices@ =~= old(indices)@);
                        }
                        return DropFn::Missed(k2, e2);
                    },
                }
            }
            proof {
                assert(hi <= *y / 16);
                assert(16 * hi <= 16 * (*y / 16));
                assert(16 * (*y / 16) <= *y);
                crate::element::lemma_height_le_true_height(gl.elements@[i as int]);
            }
            *y = *y - 16 * hi;
            lc = lc + thi;
            i += 1;
        }
        proof {
            assert(!hyp);
        }
        indices.pop();
        proof {
            assert(indices@ =~= old(indices)@);
        }
    }
    proof {
        assert(!hyp);
    }
    DropFn::Missed(key, Pending::Elem(element))
}

impl NbtElement {
    /// Resolves a row-indexed structural edit against this node: see
    /// the module description for the traversal rules. A missed or
    /// rejected edit leaves the tree untouched and returns the pending
    /// value; a placed edit updates every cached row count on the way
    /// down.
    pub fn drop(&mut self, key: Option<Vec<u8>>, element: NbtElement, y: &mut usize,
        depth: usize, target_depth: usize, line_number: usize,
        indices: &mut Vec<usize>) -> (r: DropFn)
        requires
            inv(*old(self)),
            inv(element),
            theight_of(*old(self)) + theight_of(element) <= usize::MAX,
            line_number + theight_of(*old(self)) + theight_of(element) + 1 <= usize::MAX,
            *old(y) <= usize::MAX - 8,
            depth + theight_of(*old(self)) <= usize::MAX,
        ensures
            inv(*final(self)),
            drop_post(*old(self), *final(self), key, element, old(indices)@,
                final(indices)@, line_number, *old(y), *final(y), depth, target_depth,
                r),
        decreases *old(self), 1nat,
    {
        match self {
            NbtElement::ByteArray(a) => drop_into_bytes(a, key, element, y, depth,
                target_depth, line_number, indices),
            NbtElement::IntArray(a) => drop_into_ints(a, key, element, y, depth,
                target_depth, line_number, indices),
            NbtElement::LongArray(a) => drop_into_longs(a, key, element, y, depth,
                target_depth, line_number, indices),
            NbtElement::List(l) => drop_into_list(l, key, element, y, depth, target_depth,
                line_number, indices),
            NbtElement::Compound(c) => drop_into_compound(c, key, element, y, depth,
                target_depth, line_number, indices),
            _ => DropFn::Missed(key, Pending::Elem(element)),
        }
    }
}


/// Fully expanded rows of the documents before display position `k`.
pub open spec fn region_tsum_prefix(r: NbtRegion, k: int) -> nat {
    if 0 <= k <= r.map@.len() {
        crate::region::rtheight_sum(r.map@.subrange(0, k), r.chunks@)
    } else {
        0
    }
}

/// The one-based line number an insertion along `path` lands on below
/// a container whose own header row is `base`.
pub open spec fn region_line_at(r: NbtRegion, path: Seq<usize>, base: int) -> int {
    if path.len() <= 1 {
        let k = if path.len() == 1 { path[0] as int } else { 0 };
        base + 1 + region_tsum_prefix(r, k)
    } else {
        let i = path[0] as int;
        let inner = if 0 <= i < r.map@.len() && r.map@[i] < 1024
            && r.chunks@.len() == 1024 && r.chunks@[r.map@[i] as int] is Some {
            r.chunks@[r.map@[i] as int]->0.inner
        } else {
            NbtElement::Null
        };
        line_at(inner, path.subrange(1, path.len() as int),
            base + 1 + region_tsum_prefix(r, i))
    }
}

/// The rows a pending value would add fully expanded.
pub open spec fn pending_theight(e: Pending) -> nat {
    match e {
        Pending::Elem(el) => theight_of(el),
        Pending::Chunk(c) => theight_of(c.inner),
    }
}

/// Well-formedness of a pending value.
pub open spec fn pending_wf(e: Pending) -> bool {
    match e {
        Pending::Elem(el) => inv(el),
        Pending::Chunk(c) => crate::chunk::chunk_wf(c),
    }
}

/// Two containers with identical maps, caches and slot data.
pub open spec fn same_region(a: NbtRegion, b: NbtRegion) -> bool {
    &&& b.map@ == a.map@
    &&& b.height == a.height
    &&& b.true_height == a.true_height
    &&& b.open == a.open
    &&& b.max_depth == a.max_depth
    &&& b.chunks@.len() == a.chunks@.len()
    &&& forall|p: int| 0 <= p < a.chunks@.len()
        ==> ((#[trigger] a.chunks@[p]) is Some == b.chunks@[p] is Some)
    &&& forall|p: int| 0 <= p < a.chunks@.len() && (#[trigger] a.chunks@[p]) is Some
        ==> b.chunks@[p]->0.x == a.chunks@[p]->0.x
            && b.chunks@[p]->0.z == a.chunks@[p]->0.z
            && b.chunks@[p]->0.compression == a.chunks@[p]->0.compression
            && b.chunks@[p]->0.last_modified == a.chunks@[p]->0.last_modified
            && same_tree(a.chunks@[p]->0.inner, b.chunks@[p]->0.inner)
}

/// Effect on the row sums of replacing the document in the slot one
/// map entry names.
pub proof fn lemma_rsum_update(map: Seq<u16>, chunks: Seq<Option<NbtChunk>>, i: int,
    c2: NbtChunk)
    requires
        0 <= i < map.len(),
        (map[i] as int) < chunks.len(),
        forall|a: int, b: int| 0 <= a < b < map.len()
            ==> (#[trigger] map[a]) != (#[trigger] map[b]),
    ensures
        crate::region::rheight_sum(map, chunks.update(map[i] as int, Some(c2)))
            == crate::region::rheight_sum(map, chunks)
                - crate::region::slot_height(chunks, map[i] as int)
                + crate::element::height_of(c2.inner),
        crate::region::rtheight_sum(map, chunks.update(map[i] as int, Some(c2)))
            == crate::region::rtheight_sum(map, chunks)
                - crate::region::slot_theight(chunks, map[i] as int)
                + theight_of(c2.inner),
        crate::region::rheight_sum(map, chunks)
            >= crate::region::slot_height(chunks, map[i] as int),
        crate::region::rtheight_sum(map, chunks)
            >= crate::region::slot_theight(chunks, map[i] as int),
{
    let p = map[i] as int;
    let chunks2 = chunks.update(p, Some(c2));
    let a = map.subrange(0, i);
    let b = map.subrange(i + 1, map.len() as int);
    assert(map =~= a + (seq![map[i]] + b));
    crate::region::lemma_rsum_concat(a, seq![map[i]] + b, chunks);
    crate::region::lemma_rsum_concat(seq![map[i]], b, chunks);
    crate::region::lemma_rsum_singleton(map[i], chunks);
    crate::region::lemma_rsum_concat(a, seq![map[i]] + b, chunks2);
    crate::region::lemma_rsum_concat(seq![map[i]], b, chunks2);
    crate::region::lemma_rsum_singleton(map[i], chunks2);
    assert forall|j: int| 0 <= j < a.len()
        implies crate::region::slot_height(chunks2, (#[trigger] a[j]) as int)
            == crate::region::slot_height(chunks, a[j] as int)
            && crate::region::slot_theight(chunks2, a[j] as int)
            == crate::region::slot_theight(chunks, a[j] as int) by {
        assert(a[j] == map[j]);
        assert(map[j] != map[i]);
        assert(a[j] as int != p);
        assert(chunks2.len() == chunks.len());
        if (0 <= a[j] as int) && ((a[j] as int) < chunks.len()) {
            assert(chunks2[a[j] as int] == chunks[a[j] as int]);
        }
    }
    crate::region::lemma_rsum_agree(a, chunks, chunks2);
    assert forall|j: int| 0 <= j < b.len()
        implies crate::region::slot_height(chunks2, (#[trigger] b[j]) as int)
            == crate::region::slot_height(chunks, b[j] as int)
            && crate::region::slot_theight(chunks2, b[j] as int)
            == crate::region::slot_theight(chunks, b[j] as int) by {
        assert(b[j] == map[i + 1 + j]);
        assert(map[i + 1 + j] != map[i]);
        assert(b[j] as int != p);
        assert(chunks2.len() == chunks.len());
        if (0 <= b[j] as int) && ((b[j] as int) < chunks.len()) {
            assert(chunks2[b[j] as int] == chunks[b[j] as int]);
        }
    }
    crate::region::lemma_rsum_agree(b, chunks, chunks2);
}

impl NbtRegion {
    /// Resolves a row-indexed structural edit against the container: a
    /// pending document is placed between documents by the row zones
    /// (probing for its slot and adopting the slot's coordinates), a
    /// pending plain node descends into the document whose rows the
    /// budget falls in. `InvalidType` rejections leave the container
    /// untouched: a full container, a document aimed inside another
    /// document's rows, and a plain value aimed at the container's own
    /// depth, where only documents sit.
    #[verifier::loop_isolation(false)]
    #[verifier::rlimit(100)]
    pub fn drop(&mut self, key: Option<Vec<u8>>, element: Pending, y: &mut usize,
        depth: usize, target_depth: usize, line_number: usize,
        indices: &mut Vec<usize>) -> (r: DropFn)
        requires
            crate::region::region_inv(*old(self)),
            pending_wf(element),
            old(self).true_height + pending_theight(element) <= usize::MAX,
            line_number + old(self).true_height + pending_theight(element) + 1
                <= usize::MAX,
            *old(y) <= usize::MAX - 8,
            depth + old(self).true_height <= usize::MAX,
        ensures
            crate::region::region_inv(*final(self)),
            (match element {
                Pending::Chunk(ch) => depth == target_depth && (*old(y) < 16
                    || (!old(self).open && 16 <= *old(y) < 24)
                    || (old(self).open
                        && (forall|j: int| 0 <= j < old(self).map@.len()
                            ==> crate::region::slot_height(old(self).chunks@,
                                (#[trigger] old(self).map@[j]) as int) == 1)
                        && *old(y) < 16 * (1 + old(self).map@.len())))
                    ==> (if crate::region::first_free_from(old(self).chunks@,
                            crate::chunk::slot_of(ch.x, ch.z)) is Some {
                        r is Dropped
                    } else {
                        r is InvalidType
                    }),
                Pending::Elem(_) => depth == target_depth ==> r is InvalidType,
            }),
            r is InvalidType ==> (match element {
                Pending::Chunk(ch) => crate::region::first_free_from(old(self).chunks@,
                    crate::chunk::slot_of(ch.x, ch.z)) is None
                    || (old(self).open && *old(y) >= 16),
                Pending::Elem(_) => target_depth >= depth,
            }),
            (element matches Pending::Chunk(_)) && depth == target_depth
                && (*old(y) < 16
                    || (!old(self).open && 16 <= *old(y) < 24)
                    || (old(self).open && (*old(y) as int) < 16
                        + 16 * crate::region::rheight_sum(old(self).map@,
                            old(self).chunks@)))
                ==> !(r is Missed),
            match r {
                DropFn::Missed(k, e) => {
                    &&& same_region(*old(self), *final(self))
                    &&& k == key
                    &&& e == element
                    &&& final(indices)@ == old(indices)@
                    &&& *final(y) <= *old(y)
                    &&& (*old(y) < 16 ==> *final(y) == *old(y))
                    &&& (!old(self).open && *old(y) >= 16 ==> *final(y) == *old(y) - 16)
                },
                DropFn::InvalidType(k, e) => same_region(*old(self), *final(self))
                    && k == key && e == element,
                DropFn::Dropped(dh, dth, lbl, ln) => {
                    &&& dth == pending_theight(element)
                    &&& final(self).true_height == old(self).true_height + dth
                    &&& line_number < ln
                        <= line_number + old(self).true_height + pending_theight(element)
                            + 1
                    &&& final(indices)@.len() > old(indices)@.len()
                    &&& final(indices)@.subrange(0, old(indices)@.len() as int)
                        == old(indices)@
                    &&& match element {
                        Pending::Chunk(ch) => {
                            &&& crate::region::first_free_from(old(self).chunks@,
                                crate::chunk::slot_of(ch.x, ch.z)) is Some
                            &&& final(self).height == (if old(self).open {
                                old(self).height as nat
                            } else {
                                1nat
                            }) + dh
                            &&& lbl matches Some(s)
                            &&& lbl->0@ == crate::chunk::dec_bytes_of(ch.z as int)
                            &&& {
                                let p = crate::region::first_free_from(old(self).chunks@,
                                    crate::chunk::slot_of(ch.x, ch.z))->0;
                                let i = final(indices)@[old(indices)@.len() as int] as int;
                                &&& final(indices)@.len() == old(indices)@.len() + 1
                                &&& 0 <= i <= old(self).map@.len()
                                &&& final(self).map@
                                    == old(self).map@.insert(i, p as u16)
                                &&& final(self).chunks@
                                    == old(self).chunks@.update(p, Some(NbtChunk {
                                        x: (p / 32) as u8,
                                        z: (p % 32) as u8,
                                        ..ch
                                    }))
                                &&& final(self).open == true
                                &&& ln == line_number + 1
                                    + region_tsum_prefix(*old(self), i)
                            }
                        },
                        Pending::Elem(el) => {
                            &&& final(self).map@ == old(self).map@
                            &&& final(self).open == old(self).open
                            &&& final(self).height == old(self).height + dh
                            &&& (lbl is Some == key is Some)
                            &&& (lbl matches Some(s) ==> key matches Some(k2) && s@ == k2@)
                            &&& ln == region_line_at(*old(self), final(indices)@.subrange(
                                old(indices)@.len() as int, final(indices)@.len() as int),
                                line_number as int)
                            &&& {
                                let i = final(indices)@[old(indices)@.len() as int] as int;
                                &&& 0 <= i < old(self).map@.len()
                                &&& {
                                    let p = old(self).map@[i] as int;
                                    &&& old(self).chunks@[p] is Some
                                    &&& final(self).chunks@[p] is Some
                                    &&& (forall|q: int| 0 <= q < 1024 && q != p
                                        ==> #[trigger] final(self).chunks@[q]
                                            == old(self).chunks@[q])
                                    &&& final(self).chunks@[p]->0.x
                                        == old(self).chunks@[p]->0.x
                                    &&& final(self).chunks@[p]->0.z
                                        == old(self).chunks@[p]->0.z
                                    &&& final(self).chunks@[p]->0.compression
                                        == old(self).chunks@[p]->0.compression
                                    &&& final(self).chunks@[p]->0.last_modified
                                        == old(self).chunks@[p]->0.last_modified
                                    &&& placed_along(vof(old(self).chunks@[p]->0.inner),
                                        vof(final(self).chunks@[p]->0.inner),
                                        spec_key(key), vof(el),
                                        final(indices)@.subrange(
                                            old(indices)@.len() as int + 1,
                                            final(indices)@.len() as int))
                                }
                            }
                        },
                    }
                },
            },
    {
        match element {
            Pending::Chunk(ch) => self.drop_chunk(key, ch, y, depth, target_depth,
                line_number, indices),
            Pending::Elem(el) => self.drop_elem(key, el, y, depth, target_depth,
                line_number, indices),
        }
    }

    /// The document arm of `drop`: places a pending document between
    /// documents; never descends.
    #[verifier::loop_isolation(false)]
    #[verifier::rlimit(100)]
    fn drop_chunk(&mut self, key: Option<Vec<u8>>, ch: NbtChunk, y: &mut usize,
        depth: usize, target_depth: usize, line_number: usize,
        indices: &mut Vec<usize>) -> (r: DropFn)
        requires
            crate::region::region_inv(*old(self)),
            pending_wf(Pending::Chunk(ch)),
            old(self).true_height + theight_of(ch.inner) <= usize::MAX,
            line_number + old(self).true_height + theight_of(ch.inner) + 1 <= usize::MAX,
            *old(y) <= usize::MAX - 8,
        ensures
            crate::region::region_inv(*final(self)),
            match r {
                DropFn::Missed(k, e) => {
                    &&& same_region(*old(self), *final(self))
                    &&& k == key
                    &&& e == Pending::Chunk(ch)
                    &&& final(indices)@ == old(indices)@
                    &&& *final(y) <= *old(y)
                    &&& (*old(y) < 16 ==> *final(y) == *old(y))
                    &&& (!old(self).open && *old(y) >= 16 ==> *final(y) == *old(y) - 16)
                },
                DropFn::InvalidType(k, e) => same_region(*old(self), *final(self))
                    && k == key && e == Pending::Chunk(ch),
                DropFn::Dropped(dh, dth, lbl, ln) => {
                    &&& dth == theight_of(ch.inner)
                    &&& final(self).true_height == old(self).true_height + dth
                    &&& final(self).height
                        == (if old(self).open { old(self).height as nat } else { 1nat }) + dh
                    &&& lbl matches Some(s)
                    &&& lbl->0@ == crate::chunk::dec_bytes_of(ch.z as int)
                    &&& line_number < ln
                        <= line_number + old(self).true_height + theight_of(ch.inner) + 1
                    &&& final(indices)@.len() == old(indices)@.len() + 1
                    &&& final(indices)@.subrange(0, old(indices)@.len() as int)
                        == old(indices)@
                    &&& crate::region::first_free_from(old(self).chunks@,
                        crate::chunk::slot_of(ch.x, ch.z)) is Some
                    &&& {
                        let p = crate::region::first_free_from(old(self).chunks@,
                            crate::chunk::slot_of(ch.x, ch.z))->0;
                        let i = final(indices)@[old(indices)@.len() as int] as int;
                        &&& 0 <= i <= old(self).map@.len()
                        &&& final(self).map@ == old(self).map@.insert(i, p as u16)
                        &&& final(self).chunks@
                            == old(self).chunks@.update(p, Some(NbtChunk {
                                x: (p / 32) as u8,
                                z: (p % 32) as u8,
                                ..ch
                            }))
                        &&& final(self).open == true
                        &&& ln == line_number + 1 + region_tsum_prefix(*old(self), i)
                    }
                },
            },
            depth == target_depth && (*old(y) < 16
                || (!old(self).open && 16 <= *old(y) < 24)
                || (old(self).open
                    && (forall|j: int| 0 <= j < old(self).map@.len()
                        ==> crate::region::slot_height(old(self).chunks@,
                            (#[trigger] old(self).map@[j]) as int) == 1)
                    && *old(y) < 16 * (1 + old(self).map@.len())))
                ==> (if crate::region::first_free_from(old(self).chunks@,
                        crate::chunk::slot_of(ch.x, ch.z)) is Some {
                    r is Dropped
                } else {
                    r is InvalidType
                }),
            depth == target_depth && (*old(y) < 16
                || (!old(self).open && 16 <= *old(y) < 24)
                || (old(self).open && (*old(y) as int) < 16
                    + 16 * crate::region::rheight_sum(old(self).map@, old(self).chunks@)))
                ==> !(r is Missed),
            r is InvalidType ==> crate::region::first_free_from(old(self).chunks@,
                crate::chunk::slot_of(ch.x, ch.z)) is None
                || (old(self).open && *old(y) >= 16),
    {
        let ghost g0 = *self;
        let ghost total_hyp = depth == target_depth && (*old(y) < 16
            || (!g0.open && 16 <= *old(y) < 24)
            || (g0.open
                && (forall|j: int| 0 <= j < g0.map@.len()
                    ==> crate::region::slot_height(g0.chunks@,
                        (#[trigger] g0.map@[j]) as int) == 1)
                && *old(y) < 16 * (1 + g0.map@.len())));
        let ghost span_hyp = depth == target_depth && (*old(y) < 16
            || (!g0.open && 16 <= *old(y) < 24)
            || (g0.open && (*old(y) as int)
                < 16 + 16 * crate::region::rheight_sum(g0.map@, g0.chunks@)));
        let zone1 = *y < 16 && depth == target_depth;
        let zone2 = !self.open && *y < 24 && *y >= 16 && depth == target_depth;
        if zone1 || zone2 {
            let at: usize = if zone1 { 0 } else { self.map.len() };
            indices.push(at);
            let before = if self.open { self.height } else { 1 };
            let before_th = self.true_height;
            let th = ch.inner.true_height();
            let ghost gz = ch.z;
            let label = Some(crate::chunk::dec_bytes(ch.z));
            match self.insert(at, ch) {
                Ok(()) => {
                    self.open = true;
                    let after = self.height;
                    let ln = if zone1 { line_number + 1 } else {
                        line_number + before_th
                    };
                    proof {
                        assert(indices@.subrange(0, old(indices)@.len() as int)
                            =~= old(indices)@);
                        assert(g0.map@.subrange(0, 0) =~= Seq::<u16>::empty());
                        assert(g0.map@.subrange(0, g0.map@.len() as int) =~= g0.map@);
                        assert(before_th == 1
                            + crate::region::rtheight_sum(g0.map@, g0.chunks@));
                        assert(ln == line_number + 1
                            + region_tsum_prefix(g0, at as int));
                    }
                    return DropFn::Dropped(after - before, th, label, ln);
                },
                Err(c2) => {
                    return DropFn::InvalidType(key, Pending::Chunk(c2));
                },
            }
        }
        if *y < 16 {
            proof {
                assert(!total_hyp);
                assert(!span_hyp);
            }
            return DropFn::Missed(key, Pending::Chunk(ch));
        }
        *y = *y - 16;
        let n = self.map.len();
        if self.open && n > 0 {
            indices.push(0);
            let mut i: usize = 0;
            let mut lc: usize = line_number;
            proof {
                assert(g0.map@.subrange(0, 0) =~= Seq::<u16>::empty());
                assert(g0.map@.subrange(0, n as int) =~= g0.map@);
            }
            while i < n
                invariant
                    i <= n,
                    *self == g0,
                    n == g0.map@.len(),
                    depth == target_depth || !total_hyp,
                    indices@.len() == old(indices)@.len() + 1,
                    indices@.subrange(0, old(indices)@.len() as int)
                        == old(indices)@,
                    lc == line_number + crate::region::rtheight_sum(
                        g0.map@.subrange(0, i as int), g0.chunks@),
                    lc + crate::region::rtheight_sum(
                        g0.map@.subrange(i as int, n as int), g0.chunks@)
                        == line_number
                            + crate::region::rtheight_sum(g0.map@, g0.chunks@),
                    *y <= *old(y),
                    total_hyp ==> *y as int == *old(y) - 16 - 16 * (i as int),
                    total_hyp ==> *old(y) < 16 * (1 + n as int),
                    span_hyp ==> *y as int == *old(y) - 16 - 16
                        * crate::region::rheight_sum(g0.map@.subrange(0, i as int),
                            g0.chunks@),
                    span_hyp ==> (*old(y) as int) < 16 + 16
                        * crate::region::rheight_sum(g0.map@, g0.chunks@),
                decreases n - i,
            {
                proof {
                    assert(g0.map@.subrange(i as int, n as int)
                        =~= seq![g0.map@[i as int]]
                            + g0.map@.subrange(i + 1, n as int));
                    crate::region::lemma_rsum_concat(seq![g0.map@[i as int]],
                        g0.map@.subrange(i + 1, n as int), g0.chunks@);
                    crate::region::lemma_rsum_singleton(g0.map@[i as int],
                        g0.chunks@);
                    assert(g0.map@.subrange(0, i + 1)
                        =~= g0.map@.subrange(0, i as int)
                            + seq![g0.map@[i as int]]);
                    crate::region::lemma_rsum_concat(
                        g0.map@.subrange(0, i as int), seq![g0.map@[i as int]],
                        g0.chunks@);
                }
                let p = self.map[i];
                let hi = match &self.chunks[p as usize] {
                    Some(c) => c.inner.height(),
                    None => 1,
                };
                let thi = match &self.chunks[p as usize] {
                    Some(c) => c.inner.true_height(),
                    None => 1,
                };
                proof {
                    if total_hyp {
                        assert(crate::region::slot_height(g0.chunks@,
                            g0.map@[i as int] as int) == 1);
                        assert(hi == 1);
                    }
                }
                let m = indices.len();
                indices[m - 1] = i;
                let in_before = *y < 8;
                let in_after = !in_before && *y / 16 + 1 == hi && *y % 16 >= 8;
                if (in_before || in_after) && depth == target_depth {
                    let at: usize = if in_before { i } else { i + 1 };
                    let m2 = indices.len();
                    indices[m2 - 1] = at;
                    let th = ch.inner.true_height();
                    let h = ch.inner.height();
                    let label = Some(crate::chunk::dec_bytes(ch.z));
                    match self.insert(at, ch) {
                        Ok(()) => {
                            self.open = true;
                            let ln = if in_before { lc + 1 } else {
                                lc + thi + 1
                            };
                            proof {
                                assert(indices@.subrange(0,
                                    old(indices)@.len() as int)
                                    =~= old(indices)@);
                                assert(thi == crate::region::slot_theight(g0.chunks@,
                                    g0.map@[i as int] as int));
                                assert(ln == line_number + 1
                                    + region_tsum_prefix(g0, at as int));
                            }
                            return DropFn::Dropped(h, th, label, ln);
                        },
                        Err(c2) => {
                            return DropFn::InvalidType(key, Pending::Chunk(c2));
                        },
                    }
                }
                let in_span = *y / 16 < hi;
                if in_span {
                    // the budget lies inside this document's own rows:
                    // a document cannot enter a document
                    indices.pop();
                    return DropFn::InvalidType(key, Pending::Chunk(ch));
                }
                proof {
                    assert(hi <= *y / 16);
                    assert(16 * hi <= 16 * (*y / 16));
                    assert(16 * (*y / 16) <= *y);
                }
                *y = *y - 16 * hi;
                lc = lc + thi;
                i += 1;
            }
            proof {
                assert(g0.map@.subrange(0, n as int) =~= g0.map@);
                assert(!total_hyp);
                assert(!span_hyp);
            }
            indices.pop();
            proof {
                assert(indices@ =~= old(indices)@);
            }
        }
        proof {
            assert(!total_hyp);
            assert(!span_hyp);
        }
        DropFn::Missed(key, Pending::Chunk(ch))
    }

    /// The plain-node arm of `drop`: a plain value can never sit
    /// between documents, so a target at the container's own depth is
    /// rejected outright; otherwise the budget descends into the
    /// document whose rows it falls in.
    #[verifier::loop_isolation(false)]
    #[verifier::rlimit(100)]
    fn drop_elem(&mut self, key: Option<Vec<u8>>, el: NbtElement, y: &mut usize,
        depth: usize, target_depth: usize, line_number: usize,
        indices: &mut Vec<usize>) -> (r: DropFn)
        requires
            crate::region::region_inv(*old(self)),
            inv(el),
            old(self).true_height + theight_of(el) <= usize::MAX,
            line_number + old(self).true_height + theight_of(el) + 1 <= usize::MAX,
            *old(y) <= usize::MAX - 8,
            depth + old(self).true_height <= usize::MAX,
        ensures
            crate::region::region_inv(*final(self)),
            depth == target_depth ==> r is InvalidType,
            match r {
                DropFn::Missed(k, e) => {
                    &&& same_region(*old(self), *final(self))
                    &&& k == key
                    &&& e == Pending::Elem(el)
                    &&& final(indices)@ == old(indices)@
                    &&& *final(y) <= *old(y)
                    &&& (*old(y) < 16 ==> *final(y) == *old(y))
                    &&& (!old(self).open && *old(y) >= 16 ==> *final(y) == *old(y) - 16)
                },
                DropFn::InvalidType(k, e) => same_region(*old(self), *final(self))
                    && k == key && e == Pending::Elem(el) && target_depth >= depth,
                DropFn::Dropped(dh, dth, lbl, ln) => {
                    &&& dth == theight_of(el)
                    &&& final(self).true_height == old(self).true_height + dth
                    &&& final(self).height == old(self).height + dh
                    &&& (lbl is Some == key is Some)
                    &&& (lbl matches Some(s) ==> key matches Some(k2) && s@ == k2@)
                    &&& ln == region_line_at(*old(self), final(indices)@.subrange(
                        old(indices)@.len() as int, final(indices)@.len() as int),
                        line_number as int)
                    &&& line_number < ln
                        <= line_number + old(self).true_height + theight_of(el) + 1
                    &&& final(indices)@.len() > old(indices)@.len()
                    &&& final(indices)@.subrange(0, old(indices)@.len() as int)
                        == old(indices)@
                    &&& final(self).map@ == old(self).map@
                    &&& final(self).open == old(self).open
                    &&& {
                        let i = final(indices)@[old(indices)@.len() as int] as int;
                        &&& 0 <= i < old(self).map@.len()
                        &&& {
                            let p = old(self).map@[i] as int;
                            &&& old(self).chunks@[p] is Some
                            &&& final(self).chunks@[p] is Some
                            &&& (forall|q: int| 0 <= q < 1024 && q != p
                                ==> #[trigger] final(self).chunks@[q]
                                    == old(self).chunks@[q])
                            &&& final(self).chunks@[p]->0.x == old(self).chunks@[p]->0.x
                            &&& final(self).chunks@[p]->0.z == old(self).chunks@[p]->0.z
                            &&& final(self).chunks@[p]->0.compression
                                == old(self).chunks@[p]->0.compression
                            &&& final(self).chunks@[p]->0.last_modified
                                == old(self).chunks@[p]->0.last_modified
                            &&& placed_along(vof(old(self).chunks@[p]->0.inner),
                                vof(final(self).chunks@[p]->0.inner), spec_key(key),
                                vof(el), final(indices)@.subrange(
                                    old(indices)@.len() as int + 1,
                                    final(indices)@.len() as int))
                        }
                    }
                },
            },
    {
        let ghost g0 = *self;
        if depth == target_depth {
            return DropFn::InvalidType(key, Pending::Elem(el));
        }
        if *y < 16 {
            return DropFn::Missed(key, Pending::Elem(el));
        }
        *y = *y - 16;
        let n = self.map.len();
        if self.open && n > 0 {
            indices.push(0);
            let mut i: usize = 0;
            let mut lc: usize = line_number;
            proof {
                assert(g0.map@.subrange(0, 0) =~= Seq::<u16>::empty());
                assert(g0.map@.subrange(0, n as int) =~= g0.map@);
            }
            while i < n
                invariant
                    i <= n,
                    *self == g0,
                    n == g0.map@.len(),
                    *y <= usize::MAX - 8,
                    *y <= *old(y),
                    indices@.len() == old(indices)@.len() + 1,
                    indices@.subrange(0, old(indices)@.len() as int)
                        == old(indices)@,
                    lc == line_number + crate::region::rtheight_sum(
                        g0.map@.subrange(0, i as int), g0.chunks@),
                    lc + crate::region::rtheight_sum(
                        g0.map@.subrange(i as int, n as int), g0.chunks@)
                        == line_number
                            + crate::region::rtheight_sum(g0.map@, g0.chunks@),
                decreases n - i,
            {
                proof {
                    assert(g0.map@.subrange(i as int, n as int)
                        =~= seq![g0.map@[i as int]]
                            + g0.map@.subrange(i + 1, n as int));
                    crate::region::lemma_rsum_concat(seq![g0.map@[i as int]],
                        g0.map@.subrange(i + 1, n as int), g0.chunks@);
                    crate::region::lemma_rsum_singleton(g0.map@[i as int],
                        g0.chunks@);
                    assert(g0.map@.subrange(0, i + 1)
                        =~= g0.map@.subrange(0, i as int)
                            + seq![g0.map@[i as int]]);
                    crate::region::lemma_rsum_concat(
                        g0.map@.subrange(0, i as int), seq![g0.map@[i as int]],
                        g0.chunks@);
                }
                let p = self.map[i];
                let hi = match &self.chunks[p as usize] {
                    Some(c) => c.inner.height(),
                    None => 1,
                };
                let thi = match &self.chunks[p as usize] {
                    Some(c) => c.inner.true_height(),
                    None => 1,
                };
                let m = indices.len();
                indices[m - 1] = i;
                let in_span = *y / 16 < hi;
                if in_span {
                    let ghost gch = g0.chunks@[p as int]->0;
                    let sub = match &mut self.chunks[p as usize] {
                        Some(c) => c.inner.drop(key, el, y, depth + 1,
                            target_depth, lc + 1, indices),
                        None => {
                            proof {
                                assert(false);
                            }
                            unreached()
                        },
                    };
                    match sub {
                        DropFn::Dropped(dh, dth, lbl, ln) => {
                            proof {
                                lemma_rsum_update(g0.map@, g0.chunks@, i as int,
                                    self.chunks@[p as int]->0);
                                assert(self.chunks@ =~= g0.chunks@.update(
                                    p as int, Some(self.chunks@[p as int]->0)));
                                assert forall|j: int| 0 <= j < g0.map@.len()
                                    implies (#[trigger] g0.map@[j]) < 1024
                                        && self.chunks@[g0.map@[j] as int]
                                            is Some
                                        && inv(self.chunks@[g0.map@[j] as int]
                                            ->0.inner) by {
                                    if g0.map@[j] != p {
                                        assert(self.chunks@[g0.map@[j] as int]
                                            == g0.chunks@[g0.map@[j] as int]);
                                    }
                                }
                                crate::region::lemma_rsum_le(g0.map@,
                                    self.chunks@);
                                crate::element::lemma_height_le_true_height(
                                    self.chunks@[p as int]->0.inner);
                            }
                            self.height = self.height + dh;
                            self.true_height = self.true_height + dth;
                            proof {
                                let n0 = old(indices)@.len() as int;
                                assert(indices@.subrange(0, n0)
                                    =~= old(indices)@);
                                assert(indices@[n0] == i);
                                let path = indices@.subrange(n0,
                                    indices@.len() as int);
                                assert(path.len() >= 2);
                                assert(path[0] == i);
                                assert(path.subrange(1, path.len() as int)
                                    =~= indices@.subrange(n0 + 1,
                                        indices@.len() as int));
                                assert(region_tsum_prefix(g0, i as int)
                                    == crate::region::rtheight_sum(
                                        g0.map@.subrange(0, i as int), g0.chunks@));
                                assert(ln == line_at(g0.chunks@[p as int]->0.inner,
                                    path.subrange(1, path.len() as int),
                                    (lc + 1) as int));
                                assert(ln == region_line_at(g0, path,
                                    line_number as int));
                            }
                            return DropFn::Dropped(dh, dth, lbl, ln);
                        },
                        DropFn::InvalidType(k2, e2) => {
                            proof {
                                assert(self.chunks@ =~= g0.chunks@.update(
                                    p as int, Some(self.chunks@[p as int]->0)));
                                assert forall|q: int| 0 <= q < 1024
                                    && (#[trigger] g0.chunks@[q]) is Some
                                    implies same_tree(g0.chunks@[q]->0.inner,
                                        self.chunks@[q]->0.inner)
                                        && inv(self.chunks@[q]->0.inner) by {
                                    if q != p as int {
                                        assert(self.chunks@[q]
                                            == g0.chunks@[q]);
                                    } else {
                                        lemma_same_tree_props(
                                            g0.chunks@[q]->0.inner,
                                            self.chunks@[q]->0.inner);
                                    }
                                }
                                assert forall|j: int| 0 <= j < g0.map@.len()
                                    implies crate::region::slot_height(
                                        self.chunks@,
                                        (#[trigger] g0.map@[j]) as int)
                                        == crate::region::slot_height(g0.chunks@,
                                            g0.map@[j] as int)
                                        && crate::region::slot_theight(
                                            self.chunks@, g0.map@[j] as int)
                                        == crate::region::slot_theight(
                                            g0.chunks@, g0.map@[j] as int) by {
                                    lemma_same_tree_props(
                                        g0.chunks@[g0.map@[j] as int]->0.inner,
                                        self.chunks@[g0.map@[j] as int]
                                            ->0.inner);
                                }
                                crate::region::lemma_rsum_agree(g0.map@,
                                    g0.chunks@, self.chunks@);
                                crate::region::lemma_rtsum_agree(g0.map@,
                                    g0.chunks@, self.chunks@);
                            }
                            return DropFn::InvalidType(k2, e2);
                        },
                        DropFn::Missed(k2, e2) => {
                            proof {
                                assert(self.chunks@ =~= g0.chunks@.update(
                                    p as int, Some(self.chunks@[p as int]->0)));
                                assert forall|q: int| 0 <= q < 1024
                                    && (#[trigger] g0.chunks@[q]) is Some
                                    implies same_tree(g0.chunks@[q]->0.inner,
                                        self.chunks@[q]->0.inner)
                                        && inv(self.chunks@[q]->0.inner) by {
                                    if q != p as int {
                                        assert(self.chunks@[q]
                                            == g0.chunks@[q]);
                                    } else {
                                        lemma_same_tree_props(
                                            g0.chunks@[q]->0.inner,
                                            self.chunks@[q]->0.inner);
                                    }
                                }
                                assert forall|j: int| 0 <= j < g0.map@.len()
                                    implies crate::region::slot_height(
                                        self.chunks@,
                                        (#[trigger] g0.map@[j]) as int)
                                        == crate::region::slot_height(g0.chunks@,
                                            g0.map@[j] as int)
                                        && crate::region::slot_theight(
                                            self.chunks@, g0.map@[j] as int)
                                        == crate::region::slot_theight(
                                            g0.chunks@, g0.map@[j] as int) by {
                                    lemma_same_tree_props(
                                        g0.chunks@[g0.map@[j] as int]->0.inner,
                                        self.chunks@[g0.map@[j] as int]
                                            ->0.inner);
                                }
                                crate::region::lemma_rsum_agree(g0.map@,
                                    g0.chunks@, self.chunks@);
                                crate::region::lemma_rtsum_agree(g0.map@,
                                    g0.chunks@, self.chunks@);
                            }
                            indices.pop();
                            proof {
                                assert(indices@ =~= old(indices)@);
                            }
                            return DropFn::Missed(k2, e2);
                        },
                    }
                }
                proof {
                    assert(hi <= *y / 16);
                    assert(16 * hi <= 16 * (*y / 16));
                    assert(16 * (*y / 16) <= *y);
                }
                *y = *y - 16 * hi;
                lc = lc + thi;
                i += 1;
            }
            indices.pop();
            proof {
                assert(indices@ =~= old(indices)@);
            }
        }
        DropFn::Missed(key, Pending::Elem(el))
    }
}

/// Where a visible row lies below a node: `None` unless the row
/// exists; row zero is the node's own header; each expanded child
/// claims its visible rows in display order. The answer is the path
/// of child indices down to the row's node and that node's depth.
pub open spec fn locate_spec(e: NbtElement, y: int, depth: int) -> Option<(Seq<usize>, int)>
    decreases e, 1nat,
{
    if y == 0 {
        Some((Seq::empty(), depth))
    } else if !open_of(e) {
        None
    } else {
        match e {
            NbtElement::ByteArray(a) => if 1 <= y <= a.values@.len() {
                Some((seq![(y - 1) as usize], depth + 1))
            } else {
                None
            },
            NbtElement::IntArray(a) => if 1 <= y <= a.values@.len() {
                Some((seq![(y - 1) as usize], depth + 1))
            } else {
                None
            },
            NbtElement::LongArray(a) => if 1 <= y <= a.values@.len() {
                Some((seq![(y - 1) as usize], depth + 1))
            } else {
                None
            },
            NbtElement::List(l) => locate_elems(l.elements@, y - 1, depth + 1, 0),
            NbtElement::Compound(c) => locate_entries(c.entries@, y - 1, depth + 1, 0),
            _ => None,
        }
    }
}

/// The scan of `locate_spec` over list children from absolute child
/// position `idx`.
pub open spec fn locate_elems(s: Seq<NbtElement>, y: int, depth: int, idx: int)
    -> Option<(Seq<usize>, int)>
    decreases s, 0nat,
{
    if s.len() == 0 {
        None
    } else if y < height_of(s[0]) {
        match locate_spec(s[0], y, depth) {
            Some((path, d)) => Some((seq![idx as usize] + path, d)),
            None => None,
        }
    } else {
        locate_elems(s.subrange(1, s.len() as int), y - height_of(s[0]), depth, idx + 1)
    }
}

/// The scan of `locate_spec` over map entries from absolute child
/// position `idx`.
pub open spec fn locate_entries(s: Seq<(Vec<u8>, NbtElement)>, y: int, depth: int, idx: int)
    -> Option<(Seq<usize>, int)>
    decreases s, 0nat,
{
    if s.len() == 0 {
        None
    } else if y < height_of(s[0].1) {
        match locate_spec(s[0].1, y, depth) {
            Some((path, d)) => Some((seq![idx as usize] + path, d)),
            None => None,
        }
    } else {
        locate_entries(s.subrange(1, s.len() as int), y - height_of(s[0].1), depth, idx + 1)
    }
}

/// Law: row location is total — below a well-formed node, a row is
/// located exactly when it is one of the node's visible rows.
pub proof fn lemma_locate_total(e: NbtElement, y: int, depth: int)
    requires
        inv(e),
    ensures
        (locate_spec(e, y, depth) is Some) <==> (0 <= y < height_of(e)),
    decreases e, 1nat,
{
    match e {
        NbtElement::List(l) => {
            if y != 0 && l.open {
                lemma_locate_elems_total(l.elements@, y - 1, depth + 1, 0);
            }
        },
        NbtElement::Compound(c) => {
            if y != 0 && c.open {
                lemma_locate_entries_total(c.entries@, y - 1, depth + 1, 0);
            }
        },
        _ => {},
    }
}

/// The list-children form of `lemma_locate_total`.
pub proof fn lemma_locate_elems_total(s: Seq<NbtElement>, y: int, depth: int, idx: int)
    requires
        forall|i: int| 0 <= i < s.len() ==> inv(#[trigger] s[i]),
    ensures
        (locate_elems(s, y, depth, idx) is Some)
            <==> (0 <= y < crate::element::height_sum(s)),
    decreases s, 0nat,
{
    if s.len() > 0 {
        let sub = s.subrange(1, s.len() as int);
        assert(crate::element::height_sum(s)
            == height_of(s[0]) + crate::element::height_sum(sub));
        if y < height_of(s[0]) {
            lemma_locate_total(s[0], y, depth);
        } else {
            lemma_locate_elems_total(sub, y - height_of(s[0]), depth, idx + 1);
        }
    }
}

/// The map-entries form of `lemma_locate_total`.
pub proof fn lemma_locate_entries_total(s: Seq<(Vec<u8>, NbtElement)>, y: int, depth: int,
    idx: int)
    requires
        forall|i: int| 0 <= i < s.len() ==> inv((#[trigger] s[i]).1),
    ensures
        (locate_entries(s, y, depth, idx) is Some)
            <==> (0 <= y < crate::element::entry_height_sum(s)),
    decreases s, 0nat,
{
    if s.len() > 0 {
        let sub = s.subrange(1, s.len() as int);
        assert(crate::element::entry_height_sum(s)
            == height_of(s[0].1) + crate::element::entry_height_sum(sub));
        if y < height_of(s[0].1) {
            lemma_locate_total(s[0].1, y, depth);
        } else {
            lemma_locate_entries_total(sub, y - height_of(s[0].1), depth, idx + 1);
        }
    }
}

impl NbtElement {
    /// Locates the node that owns visible row `y` below this node:
    /// the path of child indices down to it and its depth, or nothing
    /// when the node shows no such row.
    pub fn locate(&self, y: usize, depth: usize) -> (r: Option<(Vec<usize>, usize)>)
        requires
            inv(*self),
            depth + theight_of(*self) <= usize::MAX,
        ensures
            match r {
                Some(pd) => locate_spec(*self, y as int, depth as int)
                    matches Some(sp) && pd.0@ == sp.0 && pd.1 == sp.1,
                None => locate_spec(*self, y as int, depth as int) is None,
            },
            (r is Some) <==> (y < height_of(*self)),
    {
        proof {
            lemma_locate_total(*self, y as int, depth as int);
        }
        let mut path: Vec<usize> = Vec::new();
        match self.locate_into(y, depth, &mut path) {
            Some(d) => Some((path, d)),
            None => None,
        }
    }

    /// The accumulator form of `locate`: pushes the path onto
    /// `path` and returns the located node's depth.
    #[verifier::loop_isolation(false)]
    #[verifier::rlimit(100)]
    fn locate_into(&self, y: usize, depth: usize, path: &mut Vec<usize>) -> (r: Option<
        usize>)
        requires
            inv(*self),
            depth + theight_of(*self) <= usize::MAX,
        ensures
            match r {
                Some(d) => locate_spec(*self, y as int, depth as int)
                    matches Some(sp) && sp.1 == d
                    && final(path)@ == old(path)@ + sp.0,
                None => locate_spec(*self, y as int, depth as int) is None
                    && final(path)@ == old(path)@,
            },
        decreases *self,
    {
        if y == 0 {
            proof {
                assert(old(path)@ + Seq::<usize>::empty() =~= old(path)@);
            }
            return Some(depth);
        }
        if !self.open() {
            return None;
        }
        match self {
            NbtElement::ByteArray(a) => {
                if 1 <= y && y <= a.values.len() {
                    path.push(y - 1);
                    proof {
                        assert(path@ =~= old(path)@ + seq![(y - 1) as usize]);
                    }
                    Some(depth + 1)
                } else {
                    None
                }
            },
            NbtElement::IntArray(a) => {
                if 1 <= y && y <= a.values.len() {
                    path.push(y - 1);
                    proof {
                        assert(path@ =~= old(path)@ + seq![(y - 1) as usize]);
                    }
                    Some(depth + 1)
                } else {
                    None
                }
            },
            NbtElement::LongArray(a) => {
                if 1 <= y && y <= a.values.len() {
                    path.push(y - 1);
                    proof {
                        assert(path@ =~= old(path)@ + seq![(y - 1) as usize]);
                    }
                    Some(depth + 1)
                } else {
                    None
                }
            },
            NbtElement::List(l) => {
                let ghost gl = *l;
                let n = l.elements.len();
                let mut yy: usize = y - 1;
                let mut i: usize = 0;
                proof {
                    assert(gl.elements@.subrange(0, n as int) =~= gl.elements@);
                }
                while i < n
                    invariant
                        i <= n,
                        n == gl.elements@.len(),
                        locate_elems(gl.elements@, y - 1, depth as int + 1, 0)
                            == locate_elems(gl.elements@.subrange(i as int, n as int),
                                yy as int, depth as int + 1, i as int),
                        true_height_sum(views_of(gl.elements@.subrange(i as int,
                            n as int))) <= true_height_sum(views_of(gl.elements@)),
                        path@ == old(path)@,
                    decreases n - i,
                {
                    proof {
                        assert(gl.elements@.subrange(i as int, n as int)
                            =~= seq![gl.elements@[i as int]]
                                + gl.elements@.subrange(i + 1, n as int));
                        crate::element::lemma_views_of_concat(
                            seq![gl.elements@[i as int]],
                            gl.elements@.subrange(i + 1, n as int));
                        crate::element::lemma_sums_singleton(gl.elements@[i as int]);
                        crate::element::lemma_true_sum_concat(
                            views_of(seq![gl.elements@[i as int]]),
                            views_of(gl.elements@.subrange(i + 1, n as int)));
                        assert(gl.elements@.subrange(i as int, n as int)[0]
                            == gl.elements@[i as int]);
                        assert(gl.elements@.subrange(i as int, n as int)
                            .subrange(1, (n - i) as int)
                            =~= gl.elements@.subrange(i + 1, n as int));
                    }
                    let hi = l.elements[i].height();
                    if yy < hi {
                        proof {
                            assert(decreases_to!(gl => gl.elements));
                            assert(decreases_to!(gl.elements => gl.elements@));
                            assert(decreases_to!(gl.elements@
                                => gl.elements@[i as int]));
                            crate::element::lemma_true_height_pos(
                                vof(gl.elements@[i as int]));
                        }
                        path.push(i);
                        let sub = l.elements[i].locate_into(yy, depth + 1, path);
                        match sub {
                            Some(d) => {
                                proof {
                                    let sp = locate_spec(gl.elements@[i as int],
                                        yy as int, depth as int + 1)->0;
                                    assert(path@ =~= old(path)@
                                        + (seq![i as usize] + sp.0));
                                }
                                return Some(d);
                            },
                            None => {
                                path.pop();
                                proof {
                                    assert(path@ =~= old(path)@);
                                }
                                return None;
                            },
                        }
                    }
                    yy = yy - hi;
                    i += 1;
                }
                proof {
                    assert(gl.elements@.subrange(n as int, n as int)
                        =~= Seq::<NbtElement>::empty());
                }
                None
            },
            NbtElement::Compound(c) => {
                let ghost gc = *c;
                let n = c.entries.len();
                let mut yy: usize = y - 1;
                let mut i: usize = 0;
                proof {
                    assert(gc.entries@.subrange(0, n as int) =~= gc.entries@);
                }
                while i < n
                    invariant
                        i <= n,
                        n == gc.entries@.len(),
                        locate_entries(gc.entries@, y - 1, depth as int + 1, 0)
                            == locate_entries(gc.entries@.subrange(i as int, n as int),
                                yy as int, depth as int + 1, i as int),
                        true_height_entry_sum(entry_views_of(gc.entries@.subrange(
                            i as int, n as int)))
                            <= true_height_entry_sum(entry_views_of(gc.entries@)),
                        path@ == old(path)@,
                    decreases n - i,
                {
                    proof {
                        assert(gc.entries@.subrange(i as int, n as int)
                            =~= seq![gc.entries@[i as int]]
                                + gc.entries@.subrange(i + 1, n as int));
                        crate::element::lemma_entry_views_of_concat(
                            seq![gc.entries@[i as int]],
                            gc.entries@.subrange(i + 1, n as int));
                        crate::element::lemma_entry_sums_singleton(
                            gc.entries@[i as int]);
                        crate::element::lemma_true_entry_sum_concat(
                            entry_views_of(seq![gc.entries@[i as int]]),
                            entry_views_of(gc.entries@.subrange(i + 1, n as int)));
                        assert(gc.entries@.subrange(i as int, n as int)[0]
                            == gc.entries@[i as int]);
                        assert(gc.entries@.subrange(i as int, n as int)
                            .subrange(1, (n - i) as int)
                            =~= gc.entries@.subrange(i + 1, n as int));
                    }
                    let hi = c.entries[i].1.height();
                    if yy < hi {
                        proof {
                            assert(decreases_to!(gc => gc.entries));
                            assert(decreases_to!(gc.entries => gc.entries@));
                            assert(decreases_to!(gc.entries@
                                => gc.entries@[i as int]));
                            assert(decreases_to!(gc.entries@[i as int]
                                => gc.entries@[i as int].1));
                            crate::element::lemma_true_height_pos(
                                vof(gc.entries@[i as int].1));
                        }
                        path.push(i);
                        let sub = c.entries[i].1.locate_into(yy, depth + 1, path);
                        match sub {
                            Some(d) => {
                                proof {
                                    let sp = locate_spec(gc.entries@[i as int].1,
                                        yy as int, depth as int + 1)->0;
                                    assert(path@ =~= old(path)@
                                        + (seq![i as usize] + sp.0));
                                }
                                return Some(d);
                            },
                            None => {
                                path.pop();
                                proof {
                                    assert(path@ =~= old(path)@);
                                }
                                return None;
                            },
                        }
                    }
                    yy = yy - hi;
                    i += 1;
                }
                proof {
                    assert(gc.entries@.subrange(n as int, n as int)
                        =~= Seq::<(Vec<u8>, NbtElement)>::empty());
                }
                None
            },
            _ => None,
        }
    }
}
} // verus!
