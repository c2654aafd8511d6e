//! The sector-addressed container: 1024 document slots addressed by a
//! coordinate pair, plus the insertion-ordered position map that gives
//! display order.

use vstd::prelude::*;
use vstd::string::StringExecFns;

use crate::chunk::NbtChunk;
use crate::chunk::chunk_wf;
use crate::chunk::slot_of;
use crate::element::height_of;
use crate::element::theight_of;
use crate::element::inv;
use crate::element::vof;

verus! {

/// The container: a fixed array of 1024 optional documents and the
/// position map of occupied slot indices in insertion order, with the
/// cached row counts of the data model.
#[derive(Debug, PartialEq, Eq)]
pub struct NbtRegion {
    pub map: Vec<u16>,
    pub chunks: Vec<Option<NbtChunk>>,
    pub height: usize,
    pub true_height: usize,
    pub open: bool,
    pub max_depth: usize,
}

/// Rows the document in a slot shows, zero for an absent slot.
pub open spec fn slot_height(chunks: Seq<Option<NbtChunk>>, p: int) -> nat {
    if 0 <= p < chunks.len() {
        match chunks[p] {
            Some(c) => height_of(c.inner),
            None => 0,
        }
    } else {
        0
    }
}

/// Fully-expanded rows of the document in a slot, zero for an absent
/// slot.
pub open spec fn slot_theight(chunks: Seq<Option<NbtChunk>>, p: int) -> nat {
    if 0 <= p < chunks.len() {
        match chunks[p] {
            Some(c) => theight_of(c.inner),
            None => 0,
        }
    } else {
        0
    }
}

/// Sum of the visible rows of the documents the position map names.
pub open spec fn rheight_sum(map: Seq<u16>, chunks: Seq<Option<NbtChunk>>) -> nat
    decreases map.len(),
{
    if map.len() == 0 {
        0
    } else {
        slot_height(chunks, map[0] as int) + rheight_sum(map.subrange(1, map.len() as int), chunks)
    }
}

/// Sum of the fully-expanded rows of the documents the position map
/// names.
pub open spec fn rtheight_sum(map: Seq<u16>, chunks: Seq<Option<NbtChunk>>) -> nat
    decreases map.len(),
{
    if map.len() == 0 {
        0
    } else {
        slot_theight(chunks, map[0] as int)
            + rtheight_sum(map.subrange(1, map.len() as int), chunks)
    }
}

/// Well-formedness of the container: 1024 slots; the position map
/// names occupied slots, without repetition, and every occupied slot
/// exactly once; each document is well formed and carries the
/// coordinates of its slot; the cached row counts match the documents;
/// only a non-empty container may be expanded.
pub open spec fn region_inv(r: NbtRegion) -> bool {
    &&& r.chunks@.len() == 1024
    &&& forall|i: int| 0 <= i < r.map@.len()
        ==> (#[trigger] r.map@[i]) < 1024 && r.chunks@[r.map@[i] as int] is Some
    &&& forall|i: int, j: int| 0 <= i < j < r.map@.len()
        ==> (#[trigger] r.map@[i]) != (#[trigger] r.map@[j])
    &&& forall|p: int| 0 <= p < 1024 && (#[trigger] r.chunks@[p]) is Some
        ==> exists|i: int| 0 <= i < r.map@.len() && (#[trigger] r.map@[i]) == p
    &&& forall|p: int| 0 <= p < 1024 && (#[trigger] r.chunks@[p]) is Some
        ==> chunk_wf(r.chunks@[p]->0) && slot_of(r.chunks@[p]->0.x, r.chunks@[p]->0.z) == p
    &&& r.height == 1 + rheight_sum(r.map@, r.chunks@)
    &&& r.true_height == 1 + rtheight_sum(r.map@, r.chunks@)
    &&& (r.open ==> r.map@.len() > 0)
}

/// Splitting a position map splits the row sums.
pub proof fn lemma_rsum_concat(a: Seq<u16>, b: Seq<u16>, chunks: Seq<Option<NbtChunk>>)
    ensures
        rheight_sum(a + b, chunks) == rheight_sum(a, chunks) + rheight_sum(b, chunks),
        rtheight_sum(a + b, chunks) == rtheight_sum(a, chunks) + rtheight_sum(b, chunks),
    decreases a.len(),
{
    if a.len() == 0 {
        assert(a + b =~= b);
    } else {
        let c = a + b;
        assert(c[0] == a[0]);
        assert(c.subrange(1, c.len() as int) =~= a.subrange(1, a.len() as int) + b);
        lemma_rsum_concat(a.subrange(1, a.len() as int), b, chunks);
        assert(rheight_sum(c, chunks)
            == slot_height(chunks, c[0] as int)
                + rheight_sum(c.subrange(1, c.len() as int), chunks));
        assert(rheight_sum(a, chunks)
            == slot_height(chunks, a[0] as int)
                + rheight_sum(a.subrange(1, a.len() as int), chunks));
        assert(rtheight_sum(c, chunks)
            == slot_theight(chunks, c[0] as int)
                + rtheight_sum(c.subrange(1, c.len() as int), chunks));
        assert(rtheight_sum(a, chunks)
            == slot_theight(chunks, a[0] as int)
                + rtheight_sum(a.subrange(1, a.len() as int), chunks));
    }
}

/// Row sums of a single position.
pub proof fn lemma_rsum_singleton(p: u16, chunks: Seq<Option<NbtChunk>>)
    ensures
        rheight_sum(seq![p], chunks) == slot_height(chunks, p as int),
        rtheight_sum(seq![p], chunks) == slot_theight(chunks, p as int),
{
    assert(seq![p].subrange(1, 1) =~= Seq::<u16>::empty());
    assert(rheight_sum(seq![p], chunks)
        == slot_height(chunks, seq![p][0] as int)
            + rheight_sum(seq![p].subrange(1, 1), chunks));
    assert(rtheight_sum(seq![p], chunks)
        == slot_theight(chunks, seq![p][0] as int)
            + rtheight_sum(seq![p].subrange(1, 1), chunks));
}

/// Row sums read only the slots the map names.
pub proof fn lemma_rsum_agree(
    map: Seq<u16>,
    a: Seq<Option<NbtChunk>>,
    b: Seq<Option<NbtChunk>>,
)
    requires
        forall|i: int| 0 <= i < map.len()
            ==> slot_height(a, (#[trigger] map[i]) as int) == slot_height(b, map[i] as int)
                && slot_theight(a, map[i] as int) == slot_theight(b, map[i] as int),
    ensures
        rheight_sum(map, a) == rheight_sum(map, b),
        rtheight_sum(map, a) == rtheight_sum(map, b),
    decreases map.len(),
{
    if map.len() > 0 {
        lemma_rsum_agree(map.subrange(1, map.len() as int), a, b);
    }
}

/// Effect on the row sums of inserting one position into the map.
pub proof fn lemma_rsum_insert(map: Seq<u16>, i: int, p: u16, chunks: Seq<Option<NbtChunk>>)
    requires
        0 <= i <= map.len(),
    ensures
        rheight_sum(map.insert(i, p), chunks)
            == rheight_sum(map, chunks) + slot_height(chunks, p as int),
        rtheight_sum(map.insert(i, p), chunks)
            == rtheight_sum(map, chunks) + slot_theight(chunks, p as int),
{
    let a = map.subrange(0, i);
    let b = map.subrange(i, map.len() as int);
    assert(map =~= a + b);
    assert(map.insert(i, p) =~= a + (seq![p] + b));
    lemma_rsum_concat(a, b, chunks);
    lemma_rsum_concat(a, seq![p] + b, chunks);
    lemma_rsum_concat(seq![p], b, chunks);
    lemma_rsum_singleton(p, chunks);
}

/// Effect on the row sums of removing one position from the map.
pub proof fn lemma_rsum_remove(map: Seq<u16>, i: int, chunks: Seq<Option<NbtChunk>>)
    requires
        0 <= i < map.len(),
    ensures
        rheight_sum(map, chunks) >= slot_height(chunks, map[i] as int),
        rheight_sum(map.remove(i), chunks)
            == rheight_sum(map, chunks) - slot_height(chunks, map[i] as int),
        rtheight_sum(map, chunks) >= slot_theight(chunks, map[i] as int),
        rtheight_sum(map.remove(i), chunks)
            == rtheight_sum(map, chunks) - slot_theight(chunks, map[i] as int),
{
    let a = map.subrange(0, i);
    let x = map[i];
    let b = map.subrange(i + 1, map.len() as int);
    assert(map =~= a + (seq![x] + b));
    assert(map.remove(i) =~= a + b);
    lemma_rsum_concat(a, seq![x] + b, chunks);
    lemma_rsum_concat(seq![x], b, chunks);
    lemma_rsum_concat(a, b, chunks);
    lemma_rsum_singleton(x, chunks);
}

impl NbtRegion {
    /// An empty container: 1024 absent slots, no position-map entries.
    pub fn new() -> (r: Self)
        ensures
            region_inv(r),
            r.map@.len() == 0,
            forall|p: int| 0 <= p < 1024 ==> (#[trigger] r.chunks@[p]) is None,
            r.open == false,
            r.height == 1,
            r.true_height == 1,
            r.max_depth == 0,
    {
        let mut chunks: Vec<Option<NbtChunk>> = Vec::new();
        let mut i: usize = 0;
        while i < 1024
            invariant
                i <= 1024,
                chunks@.len() == i,
                forall|p: int| 0 <= p < i ==> (#[trigger] chunks@[p]) is None,
            decreases 1024 - i,
        {
            chunks.push(None);
            i += 1;
        }
        NbtRegion { map: Vec::new(), chunks, height: 1, true_height: 1, open: false,
            max_depth: 0 }
    }

    /// Number of documents the container holds.
    pub fn len(&self) -> (r: usize)
        ensures
            r == self.map@.len(),
    {
        self.map.len()
    }

    /// Whether the container holds no documents.
    pub fn is_empty(&self) -> (r: bool)
        ensures
            r == (self.map@.len() == 0),
    {
        self.map.len() == 0
    }

    /// Whether the container row is expanded.
    pub fn open(&self) -> (r: bool)
        ensures
            r == self.open,
    {
        self.open
    }

    /// Rows the container currently occupies: one when collapsed, else
    /// one plus its documents' rows.
    pub fn height(&self) -> (r: usize)
        requires
            region_inv(*self),
        ensures
            r == (if self.open { 1 + rheight_sum(self.map@, self.chunks@) } else { 1nat }),
    {
        if self.open {
            self.height
        } else {
            1
        }
    }

    /// Rows the container would occupy with everything expanded.
    pub fn true_height(&self) -> (r: usize)
        requires
            region_inv(*self),
        ensures
            r == 1 + rtheight_sum(self.map@, self.chunks@),
    {
        self.true_height
    }

    /// Raises both cached row counts after a subtree grew below.
    pub fn increment(&mut self, amount: usize, true_amount: usize)
        requires
            old(self).height + amount <= usize::MAX,
            old(self).true_height + true_amount <= usize::MAX,
        ensures
            *final(self) == (NbtRegion {
                height: (old(self).height + amount) as usize,
                true_height: (old(self).true_height + true_amount) as usize,
                ..*old(self)
            }),
    {
        self.height = self.height + amount;
        self.true_height = self.true_height + true_amount;
    }

    /// Lowers both cached row counts after a subtree shrank below.
    pub fn decrement(&mut self, amount: usize, true_amount: usize)
        requires
            amount <= old(self).height,
            true_amount <= old(self).true_height,
        ensures
            *final(self) == (NbtRegion {
                height: (old(self).height - amount) as usize,
                true_height: (old(self).true_height - true_amount) as usize,
                ..*old(self)
            }),
    {
        self.height = self.height - amount;
        self.true_height = self.true_height - true_amount;
    }

    /// The document at a display position, in position-map order.
    pub fn get(&self, idx: usize) -> (r: Option<&NbtChunk>)
        requires
            region_inv(*self),
        ensures
            match r {
                Some(c) => idx < self.map@.len()
                    && self.chunks@[self.map@[idx as int] as int] == Some(*c),
                None => idx >= self.map@.len(),
            },
    {
        if idx < self.map.len() {
            let p = self.map[idx];
            self.chunks[p as usize].as_ref()
        } else {
            None
        }
    }

    /// The position map, in display order.
    pub fn children(&self) -> (r: Vec<u16>)
        ensures
            r@ == self.map@,
    {
        let mut out: Vec<u16> = Vec::new();
        let mut i: usize = 0;
        while i < self.map.len()
            invariant
                i <= self.map@.len(),
                out@ == self.map@.take(i as int),
            decreases self.map@.len() - i,
        {
            out.push(self.map[i]);
            proof {
                assert(self.map@.take(i + 1) =~= self.map@.take(i as int).push(self.map@[i as int]));
            }
            i += 1;
        }
        proof {
            assert(self.map@.take(self.map@.len() as int) =~= self.map@);
        }
        out
    }

    /// The cached nesting depth used for layout.
    pub fn max_depth(&self) -> (r: usize)
        ensures
            r == self.max_depth,
    {
        self.max_depth
    }
}


/// The first absent slot at or after `p`, probing linearly forward.
pub open spec fn first_free_from(chunks: Seq<Option<NbtChunk>>, p: int) -> Option<int>
    decreases 1024 - p,
{
    if p < 0 || p >= 1024 {
        None
    } else if chunks[p] is None {
        Some(p)
    } else {
        first_free_from(chunks, p + 1)
    }
}

impl NbtRegion {
    /// Places a document at the given display position. The document's
    /// declared coordinates pick the starting slot; occupied slots are
    /// probed linearly forward, and the document's stored coordinates
    /// are updated to the slot it lands in. Returns the document
    /// unchanged when the display position is out of range or no free
    /// slot exists at or after the starting one.
    #[verifier::loop_isolation(false)]
    #[verifier::rlimit(100)]
    pub fn insert(&mut self, idx: usize, value: NbtChunk) -> (r: Result<(), NbtChunk>)
        requires
            region_inv(*old(self)),
            chunk_wf(value),
            old(self).true_height + theight_of(value.inner) <= usize::MAX,
        ensures
            region_inv(*final(self)),
            match r {
                Ok(()) => {
                    &&& idx <= old(self).map@.len()
                    &&& first_free_from(old(self).chunks@, slot_of(value.x, value.z)) is Some
                    &&& {
                        let p = first_free_from(old(self).chunks@,
                            slot_of(value.x, value.z))->0;
                        &&& old(self).chunks@[p] is None
                        &&& final(self).map@ == old(self).map@.insert(idx as int, p as u16)
                        &&& final(self).chunks@ == old(self).chunks@.update(p, Some(NbtChunk {
                            x: (p / 32) as u8,
                            z: (p % 32) as u8,
                            ..value
                        }))
                        &&& final(self).map@.len() == old(self).map@.len() + 1
                        &&& final(self).open == old(self).open
                        &&& final(self).true_height
                            == old(self).true_height + theight_of(value.inner)
                        &&& final(self).height
                            == old(self).height + crate::element::height_of(value.inner)
                    }
                },
                Err(v) => {
                    &&& v == value
                    &&& *final(self) == *old(self)
                    &&& (idx > old(self).map@.len()
                        || first_free_from(old(self).chunks@,
                            slot_of(value.x, value.z)) is None)
                },
            },
    {
        let start: usize = (value.x as usize) * 32 + (value.z as usize);
        let mut pos: usize = start;
        while pos < 1024 && self.chunks[pos].is_some()
            invariant
                start <= pos <= 1024,
                forall|q: int| start <= q < pos ==> self.chunks@[q] is Some,
            decreases 1024 - pos,
        {
            pos += 1;
        }
        proof {
            lemma_first_free(self.chunks@, start as int, pos as int);
        }
        if pos >= 1024 || idx > self.map.len() {
            return Err(value);
        }
        let mut value = value;
        value.x = (pos / 32) as u8;
        value.z = (pos % 32) as u8;
        let h = value.inner.height();
        let th = value.inner.true_height();
        let ghost old_map = self.map@;
        let ghost old_chunks = self.chunks@;
        self.map.insert(idx, pos as u16);
        self.chunks[pos] = Some(value);
        proof {
            lemma_rsum_agree(old_map, old_chunks, self.chunks@);
            lemma_rsum_insert(old_map, idx as int, pos as u16, self.chunks@);
            lemma_rsum_le(old_map, old_chunks);
            crate::element::lemma_height_le_true_height(value.inner);
        }
        self.height = self.height + h;
        self.true_height = self.true_height + th;
        proof {
            assert forall|p: int| 0 <= p < 1024 && (#[trigger] self.chunks@[p]) is Some
                implies exists|i: int| 0 <= i < self.map@.len()
                    && (#[trigger] self.map@[i]) == p by {
                if p == pos as int {
                    assert(self.map@[idx as int] == pos as u16);
                } else {
                    assert(old_chunks[p] is Some);
                    let i = choose|i: int| 0 <= i < old_map.len()
                        && (#[trigger] old_map[i]) == p;
                    if i < idx {
                        assert(self.map@[i] == old_map[i]);
                    } else {
                        assert(self.map@[i + 1] == old_map[i]);
                    }
                }
            }
        }
        Ok(())
    }

    /// Places a document directly into a known-free slot at a display
    /// position, without probing; the document must already carry the
    /// slot's coordinates.
    pub fn insert_unchecked(&mut self, pos: usize, idx: usize, value: NbtChunk)
        requires
            region_inv(*old(self)),
            chunk_wf(value),
            pos < 1024,
            idx <= old(self).map@.len(),
            old(self).chunks@[pos as int] is None,
            slot_of(value.x, value.z) == pos,
            old(self).true_height + theight_of(value.inner) <= usize::MAX,
        ensures
            region_inv(*final(self)),
            final(self).map@ == old(self).map@.insert(idx as int, pos as u16),
            final(self).chunks@ == old(self).chunks@.update(pos as int, Some(value)),
            final(self).open == old(self).open,
            final(self).true_height == old(self).true_height + theight_of(value.inner),
    {
        let h = value.inner.height();
        let th = value.inner.true_height();
        let ghost old_map = self.map@;
        let ghost old_chunks = self.chunks@;
        self.map.insert(idx, pos as u16);
        self.chunks[pos] = Some(value);
        proof {
            lemma_rsum_agree(old_map, old_chunks, self.chunks@);
            lemma_rsum_insert(old_map, idx as int, pos as u16, self.chunks@);
            lemma_rsum_le(old_map, old_chunks);
            crate::element::lemma_height_le_true_height(value.inner);
        }
        self.height = self.height + h;
        self.true_height = self.true_height + th;
        proof {
            assert forall|p: int| 0 <= p < 1024 && (#[trigger] self.chunks@[p]) is Some
                implies exists|i: int| 0 <= i < self.map@.len()
                    && (#[trigger] self.map@[i]) == p by {
                if p == pos as int {
                    assert(self.map@[idx as int] == pos as u16);
                } else {
                    assert(old_chunks[p] is Some);
                    let i = choose|i: int| 0 <= i < old_map.len()
                        && (#[trigger] old_map[i]) == p;
                    if i < idx {
                        assert(self.map@[i] == old_map[i]);
                    } else {
                        assert(self.map@[i + 1] == old_map[i]);
                    }
                }
            }
        }
    }

    /// Removes and returns the document at a display position,
    /// clearing its slot; an emptied container is closed.
    pub fn remove(&mut self, idx: usize) -> (r: NbtChunk)
        requires
            region_inv(*old(self)),
            idx < old(self).map@.len(),
        ensures
            region_inv(*final(self)),
            old(self).chunks@[old(self).map@[idx as int] as int] == Some(r),
            final(self).map@ == old(self).map@.remove(idx as int),
            final(self).chunks@
                == old(self).chunks@.update(old(self).map@[idx as int] as int,
                    None::<NbtChunk>),
            final(self).true_height == old(self).true_height - theight_of(r.inner),
    {
        let p = self.map.remove(idx);
        let ghost old_map = old(self).map@;
        let ghost old_chunks = self.chunks@;
        let slot = &mut self.chunks[p as usize];
        let taken = slot.take();
        let r = match taken {
            Some(c) => c,
            None => {
                proof {
                    assert(false);
                }
                unreached()
            },
        };
        let h = r.inner.height();
        let th = r.inner.true_height();
        proof {
            lemma_rsum_remove(old_map, idx as int, old_chunks);
            lemma_rsum_agree(old_map.remove(idx as int), old_chunks, self.chunks@);
        }
        self.height = self.height - h;
        self.true_height = self.true_height - th;
        if self.map.len() == 0 {
            self.open = false;
        }
        proof {
            let new_map = self.map@;
            assert forall|q: int| 0 <= q < 1024 && (#[trigger] self.chunks@[q]) is Some
                implies exists|i: int| 0 <= i < new_map.len()
                    && (#[trigger] new_map[i]) == q by {
                assert(old_chunks[q] is Some);
                let i = choose|i: int| 0 <= i < old_map.len() && (#[trigger] old_map[i]) == q;
                assert(q != p as int);
                assert(i != idx);
                if i < idx {
                    assert(new_map[i] == old_map[i]);
                } else {
                    assert(new_map[i - 1] == old_map[i]);
                }
            }
        }
        r
    }
}

/// Linear probing finds exactly the first absent slot.
pub proof fn lemma_first_free(chunks: Seq<Option<NbtChunk>>, start: int, pos: int)
    requires
        chunks.len() == 1024,
        0 <= start <= pos <= 1024,
        forall|q: int| start <= q < pos ==> (#[trigger] chunks[q]) is Some,
        pos < 1024 ==> chunks[pos] is None,
    ensures
        first_free_from(chunks, start)
            == (if pos < 1024 { Some(pos) } else { None::<int> }),
    decreases pos - start,
{
    if start < pos {
        lemma_first_free(chunks, start + 1, pos);
    }
}

/// With well-formed documents, a container shows at most its expanded
/// rows.
pub proof fn lemma_rsum_le(map: Seq<u16>, chunks: Seq<Option<NbtChunk>>)
    requires
        forall|i: int| 0 <= i < map.len()
            ==> (#[trigger] map[i]) < 1024 && chunks.len() == 1024
                && chunks[map[i] as int] is Some && inv(chunks[map[i] as int]->0.inner),
    ensures
        rheight_sum(map, chunks) <= rtheight_sum(map, chunks),
    decreases map.len(),
{
    if map.len() > 0 {
        crate::element::lemma_height_le_true_height(chunks[map[0] as int]->0.inner);
        lemma_rsum_le(map.subrange(1, map.len() as int), chunks);
    }
}

/// Occupied documents show at least one row each.
pub proof fn lemma_rsum_ge_len(map: Seq<u16>, chunks: Seq<Option<NbtChunk>>)
    requires
        forall|i: int| 0 <= i < map.len()
            ==> (#[trigger] map[i]) < 1024 && chunks.len() == 1024
                && chunks[map[i] as int] is Some,
    ensures
        rheight_sum(map, chunks) >= map.len(),
        rtheight_sum(map, chunks) >= map.len(),
    decreases map.len(),
{
    if map.len() > 0 {
        crate::element::lemma_true_height_pos(vof(chunks[map[0] as int]->0.inner));
        lemma_rsum_ge_len(map.subrange(1, map.len() as int), chunks);
    }
}

/// When every named document shows one row, the sum is the count.
pub proof fn lemma_rsum_all_one(map: Seq<u16>, chunks: Seq<Option<NbtChunk>>)
    requires
        forall|i: int| 0 <= i < map.len()
            ==> slot_height(chunks, (#[trigger] map[i]) as int) == 1,
    ensures
        rheight_sum(map, chunks) == map.len(),
    decreases map.len(),
{
    if map.len() > 0 {
        lemma_rsum_all_one(map.subrange(1, map.len() as int), chunks);
    }
}

/// When every named document shows all of its rows, the two sums are
/// equal.
pub proof fn lemma_rsum_h_eq_th(map: Seq<u16>, chunks: Seq<Option<NbtChunk>>)
    requires
        forall|i: int| 0 <= i < map.len()
            ==> slot_height(chunks, (#[trigger] map[i]) as int)
                == slot_theight(chunks, map[i] as int),
    ensures
        rheight_sum(map, chunks) == rtheight_sum(map, chunks),
    decreases map.len(),
{
    if map.len() > 0 {
        lemma_rsum_h_eq_th(map.subrange(1, map.len() as int), chunks);
    }
}

/// The slot data two containers' mutations must preserve: occupancy,
/// each document's tree model, coordinates, framing and timestamp.
pub open spec fn slots_data_eq(a: Seq<Option<NbtChunk>>, b: Seq<Option<NbtChunk>>) -> bool {
    &&& a.len() == b.len()
    &&& forall|p: int| 0 <= p < a.len() ==> ((#[trigger] a[p]) is Some == (#[trigger] b[p]) is Some)
    &&& forall|p: int| 0 <= p < a.len() && (#[trigger] a[p]) is Some
        ==> vof(a[p]->0.inner) == vof(b[p]->0.inner)
            && a[p]->0.x == b[p]->0.x && a[p]->0.z == b[p]->0.z
            && a[p]->0.compression == b[p]->0.compression
            && a[p]->0.last_modified == b[p]->0.last_modified
}

impl NbtRegion {
    /// Collapses the container and every document in it.
    #[verifier::loop_isolation(false)]
    #[verifier::rlimit(100)]
    pub fn shut(&mut self)
        requires
            region_inv(*old(self)),
        ensures
            region_inv(*final(self)),
            final(self).map@ == old(self).map@,
            slots_data_eq(old(self).chunks@, final(self).chunks@),
            forall|p: int| 0 <= p < 1024 && (#[trigger] final(self).chunks@[p]) is Some
                ==> crate::element::all_closed(final(self).chunks@[p]->0.inner),
            final(self).open == false,
            final(self).true_height == old(self).true_height,
    {
        let ghost oldchunks = self.chunks@;
        let ghost oldmap = self.map@;
        let mut p: usize = 0;
        while p < 1024
            invariant
                p <= 1024,
                self.map@ == oldmap,
                self.chunks@.len() == 1024,
                self.height == old(self).height,
                self.true_height == old(self).true_height,
                self.open == old(self).open,
                self.max_depth == old(self).max_depth,
                forall|q: int| p <= q < 1024 ==> #[trigger] self.chunks@[q] == oldchunks[q],
                forall|q: int| 0 <= q < 1024
                    ==> ((#[trigger] self.chunks@[q]) is Some == oldchunks[q] is Some),
                forall|q: int| 0 <= q < p && (#[trigger] self.chunks@[q]) is Some
                    ==> vof(self.chunks@[q]->0.inner) == vof(oldchunks[q]->0.inner)
                        && inv(self.chunks@[q]->0.inner)
                        && crate::element::all_closed(self.chunks@[q]->0.inner)
                        && self.chunks@[q]->0.x == oldchunks[q]->0.x
                        && self.chunks@[q]->0.z == oldchunks[q]->0.z
                        && self.chunks@[q]->0.compression == oldchunks[q]->0.compression
                        && self.chunks@[q]->0.last_modified == oldchunks[q]->0.last_modified,
            decreases 1024 - p,
        {
            match &mut self.chunks[p] {
                Some(c) => {
                    c.inner.shut();
                },
                None => {},
            }
            p += 1;
        }
        self.open = false;
        let n = self.map.len();
        proof {
            lemma_rsum_ge_len(oldmap, oldchunks);
            assert forall|i: int| 0 <= i < oldmap.len()
                implies slot_theight(self.chunks@, (#[trigger] oldmap[i]) as int)
                    == slot_theight(oldchunks, oldmap[i] as int) by {
                assert(vof(self.chunks@[oldmap[i] as int]->0.inner)
                    == vof(oldchunks[oldmap[i] as int]->0.inner));
            }
            lemma_rtsum_agree(oldmap, oldchunks, self.chunks@);
            assert forall|i: int| 0 <= i < oldmap.len()
                implies slot_height(self.chunks@, (#[trigger] oldmap[i]) as int) == 1 by {
                assert(crate::element::all_closed(self.chunks@[oldmap[i] as int]->0.inner));
            }
            lemma_rsum_all_one(oldmap, self.chunks@);
        }
        self.height = 1 + n;
        proof {
            assert forall|i: int| 0 <= i < oldmap.len()
                implies slot_theight(self.chunks@, (#[trigger] oldmap[i]) as int)
                    == slot_theight(oldchunks, oldmap[i] as int) by {}
        }
    }

    /// Expands the container and every document in it.
    #[verifier::loop_isolation(false)]
    #[verifier::rlimit(100)]
    pub fn expand(&mut self)
        requires
            region_inv(*old(self)),
        ensures
            region_inv(*final(self)),
            final(self).map@ == old(self).map@,
            slots_data_eq(old(self).chunks@, final(self).chunks@),
            forall|p: int| 0 <= p < 1024 && (#[trigger] final(self).chunks@[p]) is Some
                ==> crate::element::all_expanded(final(self).chunks@[p]->0.inner),
            final(self).open == (old(self).map@.len() > 0),
            final(self).true_height == old(self).true_height,
    {
        let ghost oldchunks = self.chunks@;
        let ghost oldmap = self.map@;
        let mut p: usize = 0;
        while p < 1024
            invariant
                p <= 1024,
                self.map@ == oldmap,
                self.chunks@.len() == 1024,
                self.height == old(self).height,
                self.true_height == old(self).true_height,
                self.open == old(self).open,
                self.max_depth == old(self).max_depth,
                forall|q: int| p <= q < 1024 ==> #[trigger] self.chunks@[q] == oldchunks[q],
                forall|q: int| 0 <= q < 1024
                    ==> ((#[trigger] self.chunks@[q]) is Some == oldchunks[q] is Some),
                forall|q: int| 0 <= q < p && (#[trigger] self.chunks@[q]) is Some
                    ==> vof(self.chunks@[q]->0.inner) == vof(oldchunks[q]->0.inner)
                        && inv(self.chunks@[q]->0.inner)
                        && crate::element::all_expanded(self.chunks@[q]->0.inner)
                        && self.chunks@[q]->0.x == oldchunks[q]->0.x
                        && self.chunks@[q]->0.z == oldchunks[q]->0.z
                        && self.chunks@[q]->0.compression == oldchunks[q]->0.compression
                        && self.chunks@[q]->0.last_modified == oldchunks[q]->0.last_modified,
            decreases 1024 - p,
        {
            match &mut self.chunks[p] {
                Some(c) => {
                    c.inner.expand();
                },
                None => {},
            }
            p += 1;
        }
        self.open = self.map.len() > 0;
        let th = self.true_height;
        proof {
            assert forall|i: int| 0 <= i < oldmap.len()
                implies slot_theight(self.chunks@, (#[trigger] oldmap[i]) as int)
                    == slot_theight(oldchunks, oldmap[i] as int) by {
                assert(vof(self.chunks@[oldmap[i] as int]->0.inner)
                    == vof(oldchunks[oldmap[i] as int]->0.inner));
            }
            lemma_rtsum_agree(oldmap, oldchunks, self.chunks@);
            assert forall|i: int| 0 <= i < oldmap.len()
                implies slot_height(self.chunks@, (#[trigger] oldmap[i]) as int)
                    == slot_theight(self.chunks@, oldmap[i] as int) by {
                crate::element::lemma_expanded_height(self.chunks@[oldmap[i] as int]->0.inner);
            }
            lemma_rsum_h_eq_th(oldmap, self.chunks@);
        }
        self.height = th;
        proof {
            assert forall|i: int| 0 <= i < oldmap.len()
                implies slot_theight(self.chunks@, (#[trigger] oldmap[i]) as int)
                    == slot_theight(oldchunks, oldmap[i] as int) by {}
        }
    }

    /// Flips the container's expansion state; collapsing also collapses
    /// every document.
    pub fn toggle(&mut self) -> (r: Option<()>)
        requires
            region_inv(*old(self)),
        ensures
            region_inv(*final(self)),
            final(self).map@ == old(self).map@,
            slots_data_eq(old(self).chunks@, final(self).chunks@),
            final(self).open == (!old(self).open && old(self).map@.len() > 0),
            !final(self).open ==> forall|p: int| 0 <= p < 1024
                && (#[trigger] final(self).chunks@[p]) is Some
                ==> crate::element::all_closed(final(self).chunks@[p]->0.inner),
            final(self).true_height == old(self).true_height,
            r is Some,
    {
        let will_open = !self.open && self.map.len() > 0;
        if will_open {
            self.open = true;
        } else {
            self.shut();
        }
        Some(())
    }
}

/// The expanded-rows sum reads only each named document's model.
pub proof fn lemma_rtsum_agree(
    map: Seq<u16>,
    a: Seq<Option<NbtChunk>>,
    b: Seq<Option<NbtChunk>>,
)
    requires
        forall|i: int| 0 <= i < map.len()
            ==> slot_theight(a, (#[trigger] map[i]) as int) == slot_theight(b, map[i] as int),
    ensures
        rtheight_sum(map, a) == rtheight_sum(map, b),
    decreases map.len(),
{
    if map.len() > 0 {
        lemma_rtsum_agree(map.subrange(1, map.len() as int), a, b);
    }
}

/// The cached nesting depth of the document in a slot, zero when
/// absent.
pub open spec fn slot_depth(chunks: Seq<Option<NbtChunk>>, p: int) -> nat {
    if 0 <= p < chunks.len() {
        match chunks[p] {
            Some(c) => crate::element::cached_depth(c.inner),
            None => 0,
        }
    } else {
        0
    }
}

/// The nesting depth the container's layout cache should hold: one
/// more than the deepest document, by the documents' own caches.
pub open spec fn rdepth_max(map: Seq<u16>, chunks: Seq<Option<NbtChunk>>) -> nat
    decreases map.len(),
{
    if map.len() == 0 {
        0
    } else {
        let rest = rdepth_max(map.subrange(1, map.len() as int), chunks);
        let first = depth_step(slot_depth(chunks, map[0] as int));
        if first >= rest {
            first
        } else {
            rest
        }
    }
}

/// One deeper, saturating at the machine limit.
pub open spec fn depth_step(d: nat) -> nat {
    if d >= usize::MAX { usize::MAX as nat } else { d + 1 }
}

/// Splitting the map splits the depth maximum.
pub proof fn lemma_rdepth_concat(a: Seq<u16>, b: Seq<u16>, chunks: Seq<Option<NbtChunk>>)
    ensures
        rdepth_max(a + b, chunks)
            == (if rdepth_max(a, chunks) >= rdepth_max(b, chunks) {
                rdepth_max(a, chunks)
            } else {
                rdepth_max(b, chunks)
            }),
    decreases a.len(),
{
    if a.len() == 0 {
        assert(a + b =~= b);
    } else {
        let c = a + b;
        assert(c[0] == a[0]);
        assert(c.subrange(1, c.len() as int) =~= a.subrange(1, a.len() as int) + b);
        lemma_rdepth_concat(a.subrange(1, a.len() as int), b, chunks);
    }
}

/// The depth maximum of a single position.
pub proof fn lemma_rdepth_singleton(p: u16, chunks: Seq<Option<NbtChunk>>)
    ensures
        rdepth_max(seq![p], chunks) == depth_step(slot_depth(chunks, p as int)),
{
    assert(seq![p].subrange(1, 1) =~= Seq::<u16>::empty());
    assert(rdepth_max(seq![p].subrange(1, 1), chunks) == 0);
    assert(seq![p][0] == p);
}

impl NbtRegion {
    /// The display label of the container: its document count, as
    /// "N chunk" or "N chunks".
    pub fn value(&self) -> (r: String)
        ensures
            r@ == crate::chunk::dec_of(self.map@.len() as int) + " chunk"@
                + (if self.map@.len() == 1 { Seq::<char>::empty() } else { "s"@ }),
    {
        let mut out = String::new();
        crate::chunk::push_dec(&mut out, self.map.len());
        proof {
            reveal_strlit(" chunk");
            reveal_strlit("s");
        }
        out.append(" chunk");
        if self.map.len() != 1 {
            out.append("s");
            proof {
                assert(out@ =~= crate::chunk::dec_of(self.map@.len() as int) + " chunk"@
                    + "s"@);
            }
        } else {
            proof {
                assert(out@ =~= crate::chunk::dec_of(self.map@.len() as int) + " chunk"@
                    + Seq::<char>::empty());
            }
        }
        out
    }

    /// Recomputes the cached nesting depth from the documents' own
    /// caches: one more than the deepest visible document, zero when
    /// collapsed.
    #[verifier::loop_isolation(false)]
    pub fn recache_depth(&mut self)
        requires
            region_inv(*old(self)),
        ensures
            *final(self) == (NbtRegion {
                max_depth: (if old(self).open {
                    rdepth_max(old(self).map@, old(self).chunks@)
                } else {
                    0nat
                }) as usize,
                ..*old(self)
            }),
    {
        let mut md: usize = 0;
        if self.open {
            let n = self.map.len();
            let mut i: usize = 0;
            proof {
                assert(self.map@.take(0) =~= Seq::<u16>::empty());
            }
            while i < n
                invariant
                    i <= n,
                    md == rdepth_max(self.map@.take(i as int), self.chunks@),
                decreases n - i,
            {
                let p = self.map[i];
                let d = match &self.chunks[p as usize] {
                    Some(c) => c.inner.max_depth(),
                    None => 0,
                };
                proof {
                    assert(self.map@.take(i + 1)
                        =~= self.map@.take(i as int) + seq![self.map@[i as int]]);
                    lemma_rdepth_concat(self.map@.take(i as int), seq![self.map@[i as int]],
                        self.chunks@);
                    lemma_rdepth_singleton(self.map@[i as int], self.chunks@);
                }
                let step = if d == usize::MAX { d } else { d + 1 };
                if step > md {
                    md = step;
                }
                i += 1;
            }
            proof {
                assert(self.map@.take(n as int) =~= self.map@);
            }
        }
        self.max_depth = md;
    }

    /// A mutable borrow of the document at a display position. The
    /// caller edits the document in place; the cached row counts are
    /// its to maintain afterwards, through `increment` and
    /// `decrement`.
    pub fn get_mut(&mut self, idx: usize) -> (r: &mut NbtChunk)
        requires
            region_inv(*old(self)),
            idx < old(self).map@.len(),
        ensures
            *r == old(self).chunks@[old(self).map@[idx as int] as int]->0,
            final(self).map@ == old(self).map@,
            final(self).chunks@ == old(self).chunks@.update(
                old(self).map@[idx as int] as int, Some(*final(r))),
            final(self).height == old(self).height,
            final(self).true_height == old(self).true_height,
            final(self).open == old(self).open,
            final(self).max_depth == old(self).max_depth,
    {
        let p = self.map[idx];
        let slot = &mut self.chunks[p as usize];
        match slot {
            Some(c) => c,
            None => {
                proof {
                    assert(false);
                }
                unreached()
            },
        }
    }
}

impl NbtRegion {
    /// Whether a document already sits at the given coordinate pair:
    /// the sibling scan behind duplicate-coordinate detection while an
    /// edit is resolved. Under the container invariant each document
    /// carries its slot's coordinates, so this is the slot's
    /// occupancy; out-of-range coordinates hold nothing.
    pub fn has_coordinate(&self, x: u8, z: u8) -> (r: bool)
        requires
            region_inv(*self),
        ensures
            r == (x < 32 && z < 32 && self.chunks@[slot_of(x, z)] is Some),
            r == exists|i: int| 0 <= i < self.map@.len()
                && self.chunks@[(#[trigger] self.map@[i]) as int] is Some
                && self.chunks@[self.map@[i] as int]->0.x == x
                && self.chunks@[self.map@[i] as int]->0.z == z,
    {
        if x < 32 && z < 32 {
            let p = (x as usize) * 32 + (z as usize);
            let r = self.chunks[p].is_some();
            proof {
                if r {
                    let i = choose|i: int| 0 <= i < self.map@.len()
                        && (#[trigger] self.map@[i]) == p;
                    assert(self.chunks@[self.map@[i] as int] is Some);
                    assert(slot_of(self.chunks@[self.map@[i] as int]->0.x,
                        self.chunks@[self.map@[i] as int]->0.z) == p as int);
                    assert(self.chunks@[self.map@[i] as int]->0.x == x
                        && self.chunks@[self.map@[i] as int]->0.z == z)
                        by (nonlinear_arith)
                        requires
                            self.chunks@[self.map@[i] as int]->0.x < 32,
                            self.chunks@[self.map@[i] as int]->0.z < 32,
                            x < 32,
                            z < 32,
                            slot_of(self.chunks@[self.map@[i] as int]->0.x,
                                self.chunks@[self.map@[i] as int]->0.z) == p as int,
                            p == x as int * 32 + z as int,
                    {
                    }
                } else {
                    assert forall|i: int| 0 <= i < self.map@.len()
                        && self.chunks@[(#[trigger] self.map@[i]) as int] is Some
                        implies !(self.chunks@[self.map@[i] as int]->0.x == x
                            && self.chunks@[self.map@[i] as int]->0.z == z) by {
                        if self.chunks@[self.map@[i] as int]->0.x == x
                            && self.chunks@[self.map@[i] as int]->0.z == z {
                            assert(self.map@[i] as int == p as int);
                        }
                    }
                }
            }
            r
        } else {
            proof {
                assert forall|i: int| 0 <= i < self.map@.len()
                    && self.chunks@[(#[trigger] self.map@[i]) as int] is Some
                    implies !(self.chunks@[self.map@[i] as int]->0.x == x
                        && self.chunks@[self.map@[i] as int]->0.z == z) by {
                    if self.chunks@[self.map@[i] as int]->0.x == x
                        && self.chunks@[self.map@[i] as int]->0.z == z {
                        assert(self.chunks@[self.map@[i] as int]->0.x < 32);
                    }
                }
            }
            false
        }
    }
}
} // verus!
