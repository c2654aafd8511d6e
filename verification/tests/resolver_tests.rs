use nbtworkbench::chunk::NbtChunk;
use nbtworkbench::element::NbtCompound;
use nbtworkbench::element::NbtElement;
use nbtworkbench::envelope::FileFormat;
use nbtworkbench::region::NbtRegion;
use nbtworkbench::resolver::DropFn;
use nbtworkbench::resolver::Pending;

fn small_compound() -> NbtElement {
    let mut c = NbtCompound::new();
    c.put(b"a".to_vec(), NbtElement::Int(1));
    c.put(b"b".to_vec(), NbtElement::Int(2));
    NbtElement::Compound(c)
}

fn chunk_at(x: u8, z: u8) -> NbtChunk {
    let mut c = NbtCompound::new();
    c.put(b"v".to_vec(), NbtElement::Int(5));
    NbtChunk::from_compound(c, (x, z), FileFormat::Zlib, 0)
}

#[test]
fn drop_in_top_zone_inserts_before_first_child() {
    let mut v = small_compound();
    let mut y = 8usize;
    let mut indices = vec![];
    let r = v.drop(Some(b"k".to_vec()), NbtElement::Int(9), &mut y, 0, 0, 0, &mut indices);
    match r {
        DropFn::Dropped(_, dth, label, ln) => {
            assert_eq!(dth, 1);
            assert_eq!(label, Some(b"k".to_vec()));
            assert_eq!(ln, 1);
        },
        _ => panic!("the top half-row zone must place the value"),
    }
    assert_eq!(indices, vec![0]);
    assert!(v.open());
    match &v {
        NbtElement::Compound(c) => {
            assert_eq!(c.entries.len(), 3);
            assert_eq!(c.entries[0].0, b"k".to_vec());
            assert_eq!(c.entries[0].1, NbtElement::Int(9));
        },
        _ => unreachable!(),
    }
}

#[test]
fn drop_in_second_row_of_collapsed_node_appends() {
    let mut v = small_compound();
    let mut y = 16usize;
    let mut indices = vec![];
    let r = v.drop(None, NbtElement::Int(9), &mut y, 0, 0, 0, &mut indices);
    assert!(matches!(r, DropFn::Dropped(..)));
    assert_eq!(indices, vec![2]);
    match &v {
        NbtElement::Compound(c) => {
            assert_eq!(c.entries[2].0, b"".to_vec());
            assert_eq!(c.entries[2].1, NbtElement::Int(9));
        },
        _ => unreachable!(),
    }
}

#[test]
fn drop_misses_when_the_target_lies_deeper() {
    let mut v = small_compound();
    let before = v.true_height();
    let mut y = 0usize;
    let mut indices = vec![];
    // the target depth is below this node, and its collapsed children
    // offer no rows to descend into
    let r = v.drop(None, NbtElement::Int(9), &mut y, 0, 1, 0, &mut indices);
    match r {
        DropFn::Missed(k, Pending::Elem(e)) => {
            assert_eq!(k, None);
            assert_eq!(e, NbtElement::Int(9));
        },
        _ => panic!("no row of this node is at the target depth"),
    }
    assert!(indices.is_empty());
    assert_eq!(v.true_height(), before);
}

#[test]
fn drop_anywhere_in_first_row_places_at_the_front() {
    for y0 in [0usize, 3, 8, 15] {
        let mut v = small_compound();
        let mut y = y0;
        let mut indices = vec![];
        let r = v.drop(None, NbtElement::Int(9), &mut y, 0, 0, 0, &mut indices);
        match r {
            DropFn::Dropped(_, _, _, ln) => assert_eq!(ln, 1),
            _ => panic!("the whole first row is the insert-before zone"),
        }
        assert_eq!(indices, vec![0]);
    }
}

#[test]
fn drop_between_children_of_an_expanded_node() {
    let mut v = small_compound();
    v.toggle();
    // rows: header 0, child a 1, child b 2; budget in a's last half row
    let mut y = 24usize;
    let mut indices = vec![];
    let r = v.drop(Some(b"m".to_vec()), NbtElement::Int(9), &mut y, 0, 0, 0, &mut indices);
    assert!(matches!(r, DropFn::Dropped(..)));
    assert_eq!(indices, vec![1]);
    match &v {
        NbtElement::Compound(c) => {
            assert_eq!(c.entries[1].0, b"m".to_vec());
        },
        _ => unreachable!(),
    }
}

#[test]
fn drop_descends_into_nested_compound() {
    let mut outer = NbtCompound::new();
    let mut inner = NbtCompound::new();
    inner.put(b"x".to_vec(), NbtElement::Int(1));
    outer.put(b"in".to_vec(), NbtElement::Compound(inner));
    let mut v = NbtElement::Compound(outer);
    v.expand();
    // rows: outer 0, inner 1, x 2; aim at inner's own top zone at depth 1
    let mut y = 16 + 8;
    let mut indices = vec![];
    let r = v.drop(Some(b"y".to_vec()), NbtElement::Int(2), &mut y, 0, 1, 0, &mut indices);
    assert!(matches!(r, DropFn::Dropped(..)));
    assert_eq!(indices, vec![0, 0]);
    match &v {
        NbtElement::Compound(c) => match &c.entries[0].1 {
            NbtElement::Compound(i) => {
                assert_eq!(i.entries.len(), 2);
                assert_eq!(i.entries[0].0, b"y".to_vec());
            },
            _ => unreachable!(),
        },
        _ => unreachable!(),
    }
}

#[test]
fn wrong_kind_for_a_list_is_rejected_with_the_value() {
    let mut l = nbtworkbench::element::NbtList::new(vec![NbtElement::Int(1)], 3);
    let mut v = NbtElement::List(l);
    let mut y = 8usize;
    let mut indices = vec![];
    let r = v.drop(None, NbtElement::Byte(1), &mut y, 0, 0, 0, &mut indices);
    match r {
        DropFn::InvalidType(_, Pending::Elem(e)) => assert_eq!(e, NbtElement::Byte(1)),
        _ => panic!("a list must reject a mismatched element tag"),
    }
    l = match v {
        NbtElement::List(l) => l,
        _ => unreachable!(),
    };
    assert_eq!(l.elements.len(), 1);
}

#[test]
fn wrong_kind_for_an_array_is_rejected() {
    let arr = nbtworkbench::element::NbtByteArray::new(vec![1, 2]);
    let mut v = NbtElement::ByteArray(arr);
    let mut y = 8usize;
    let mut indices = vec![];
    let r = v.drop(None, NbtElement::Short(1), &mut y, 0, 0, 0, &mut indices);
    assert!(matches!(r, DropFn::InvalidType(..)));
    let mut y2 = 8usize;
    let r2 = v.drop(None, NbtElement::Byte(3), &mut y2, 0, 0, 0, &mut indices);
    assert!(matches!(r2, DropFn::Dropped(..)));
}

#[test]
fn region_drop_places_a_document_and_probes_its_slot() {
    let mut r = NbtRegion::new();
    r.insert(0, chunk_at(3, 3)).unwrap();
    let mut y = 8usize;
    let mut indices = vec![];
    let out = r.drop(None, Pending::Chunk(chunk_at(3, 3)), &mut y, 0, 0, 0, &mut indices);
    match out {
        DropFn::Dropped(_, dth, label, ln) => {
            assert_eq!(dth, 2);
            assert_eq!(label, Some(b"3".to_vec()));
            assert_eq!(ln, 1);
        },
        _ => panic!("the top half-row zone must place the document"),
    }
    assert_eq!(indices, vec![0]);
    assert!(r.open());
    assert_eq!(r.len(), 2);
    // display position 0 is the newly inserted document, relocated to (3,4)
    let placed = r.get(0).unwrap();
    assert_eq!((placed.x, placed.z), (3, 4));
}

#[test]
fn region_drop_rejects_a_document_when_no_slot_is_free() {
    let mut r = NbtRegion::new();
    r.insert(0, chunk_at(31, 31)).unwrap();
    let mut y = 8usize;
    let mut indices = vec![];
    let out = r.drop(None, Pending::Chunk(chunk_at(31, 31)), &mut y, 0, 0, 0, &mut indices);
    assert!(matches!(out, DropFn::InvalidType(..)));
    assert_eq!(r.len(), 1);
}

#[test]
fn region_drop_first_row_places_at_the_front() {
    let mut r = NbtRegion::new();
    r.insert(0, chunk_at(1, 1)).unwrap();
    let mut y = 0usize;
    let mut indices = vec![];
    let out = r.drop(None, Pending::Chunk(chunk_at(2, 2)), &mut y, 0, 0, 0, &mut indices);
    assert!(matches!(out, DropFn::Dropped(..)));
    assert_eq!(r.len(), 2);
    assert_eq!(indices, vec![0]);
}

#[test]
fn region_drop_misses_a_document_aimed_deeper() {
    let mut r = NbtRegion::new();
    r.insert(0, chunk_at(1, 1)).unwrap();
    let mut y = 0usize;
    let mut indices = vec![];
    let out = r.drop(None, Pending::Chunk(chunk_at(2, 2)), &mut y, 0, 1, 0, &mut indices);
    assert!(matches!(out, DropFn::Missed(..)));
    assert_eq!(r.len(), 1);
    assert!(indices.is_empty());
}

#[test]
fn region_drop_rejects_a_plain_value_at_its_own_depth() {
    let mut r = NbtRegion::new();
    r.insert(0, chunk_at(1, 1)).unwrap();
    let mut y = 8usize;
    let mut indices = vec![];
    let out = r.drop(None, Pending::Elem(NbtElement::Int(7)), &mut y, 0, 0, 0, &mut indices);
    match out {
        DropFn::InvalidType(_, Pending::Elem(e)) => assert_eq!(e, NbtElement::Int(7)),
        _ => panic!("only documents may sit between documents"),
    }
    assert_eq!(r.len(), 1);
}

#[test]
fn region_drop_descends_into_a_document_for_plain_nodes() {
    let mut r = NbtRegion::new();
    r.insert(0, chunk_at(0, 0)).unwrap();
    r.toggle().unwrap();
    // rows: region 0, chunk 1; aim at the chunk's top zone at depth 1
    let mut y = 16 + 8;
    let mut indices = vec![];
    let out = r.drop(Some(b"n".to_vec()), Pending::Elem(NbtElement::Int(7)), &mut y, 0, 1,
        0, &mut indices);
    assert!(matches!(out, DropFn::Dropped(..)));
    assert_eq!(indices, vec![0, 0]);
    let c = r.get(0).unwrap();
    match &c.inner {
        NbtElement::Compound(m) => {
            assert_eq!(m.entries.len(), 2);
            assert_eq!(m.entries[0].0, b"n".to_vec());
            assert_eq!(m.entries[0].1, NbtElement::Int(7));
        },
        _ => unreachable!(),
    }
}

#[test]
fn locate_walks_visible_rows() {
    let mut outer = NbtCompound::new();
    let mut inner = NbtCompound::new();
    inner.put(b"x".to_vec(), NbtElement::Int(1));
    inner.put(b"y".to_vec(), NbtElement::Int(2));
    outer.put(b"in".to_vec(), NbtElement::Compound(inner));
    outer.put(b"tail".to_vec(), NbtElement::Int(9));
    let mut v = NbtElement::Compound(outer);
    v.expand();
    // rows: 0 outer, 1 inner, 2 x, 3 y, 4 tail
    assert_eq!(v.locate(0, 5), Some((vec![], 5)));
    assert_eq!(v.locate(1, 0), Some((vec![0], 1)));
    assert_eq!(v.locate(2, 0), Some((vec![0, 0], 2)));
    assert_eq!(v.locate(3, 0), Some((vec![0, 1], 2)));
    assert_eq!(v.locate(4, 0), Some((vec![1], 1)));
    assert_eq!(v.locate(5, 0), None);
}

#[test]
fn locate_sees_only_visible_rows() {
    let mut outer = NbtCompound::new();
    outer.put(b"a".to_vec(), NbtElement::Int(1));
    let mut v = NbtElement::Compound(outer);
    // collapsed: only the header row exists
    assert_eq!(v.locate(0, 0), Some((vec![], 0)));
    assert_eq!(v.locate(1, 0), None);
    v.toggle();
    assert_eq!(v.locate(1, 0), Some((vec![0], 1)));
}

#[test]
fn locate_indexes_array_rows() {
    let arr = nbtworkbench::element::NbtIntArray::new(vec![7, 8, 9]);
    let mut v = NbtElement::IntArray(arr);
    v.toggle();
    assert_eq!(v.locate(2, 3), Some((vec![1], 4)));
    assert_eq!(v.locate(4, 3), None);
}

#[test]
fn drop_reports_exact_line_numbers() {
    // an expanded map of two collapsed maps, the first holding one entry
    let mut outer = NbtCompound::new();
    let mut first = NbtCompound::new();
    first.put(b"x".to_vec(), NbtElement::Int(1));
    outer.put(b"a".to_vec(), NbtElement::Compound(first));
    outer.put(b"b".to_vec(), NbtElement::Int(2));
    let mut v = NbtElement::Compound(outer);
    v.toggle();
    // child "a" is collapsed (2 rows fully expanded), child "b" is 1 row;
    // budget in a's last half row inserts after it, below a's 2 rows
    let mut y = 16 + 8;
    let mut indices = vec![];
    let r = v.drop(Some(b"m".to_vec()), NbtElement::Int(5), &mut y, 0, 0, 0, &mut indices);
    match r {
        DropFn::Dropped(_, _, _, ln) => assert_eq!(ln, 3),
        _ => panic!("the half-row zone must place the value"),
    }
    assert_eq!(indices, vec![1]);
}

#[test]
fn region_drop_append_zone_line_number() {
    let mut r = NbtRegion::new();
    r.insert(0, chunk_at(1, 1)).unwrap();
    // collapsed container: budget in the second row appends, landing
    // after the document's two fully expanded rows
    let mut y = 16usize;
    let mut indices = vec![];
    let out = r.drop(None, Pending::Chunk(chunk_at(2, 2)), &mut y, 0, 0, 7, &mut indices);
    match out {
        DropFn::Dropped(_, _, label, ln) => {
            assert_eq!(label, Some(b"2".to_vec()));
            assert_eq!(ln, 7 + 1 + 2);
        },
        _ => panic!("the collapsed-container zone must place the document"),
    }
    assert_eq!(indices, vec![1]);
}

#[test]
fn missed_drop_keeps_budget_above_the_zones() {
    let mut v = small_compound();
    let mut y = 3usize;
    let mut indices = vec![];
    let r = v.drop(None, NbtElement::Int(9), &mut y, 0, 1, 0, &mut indices);
    assert!(matches!(r, DropFn::Missed(..)));
    assert_eq!(y, 3);
}

#[test]
fn region_toggle_collapse_shuts_documents() {
    let mut r = NbtRegion::new();
    r.insert(0, chunk_at(0, 0)).unwrap();
    r.toggle().unwrap();
    // expand the document in place, then restore the container's row
    // caches as its display callers must
    let doc = r.get_mut(0);
    let before = doc.inner.height();
    doc.inner.toggle();
    let after = doc.inner.height();
    r.increment(after - before, 0);
    assert!(r.get(0).unwrap().open());
    r.toggle().unwrap();
    assert!(!r.open());
    assert!(!r.get(0).unwrap().open());
}

#[test]
fn duplicate_detection_scans_keys_and_coordinates() {
    let mut c = NbtCompound::new();
    c.put(b"alpha".to_vec(), NbtElement::Int(1));
    c.put(b"beta".to_vec(), NbtElement::Int(2));
    assert!(c.has_key(b"alpha"));
    assert!(c.has_key(b"beta"));
    assert!(!c.has_key(b"gamma"));
    assert!(!c.has_key(b"alph"));

    let mut r = NbtRegion::new();
    r.insert(0, chunk_at(3, 3)).unwrap();
    assert!(r.has_coordinate(3, 3));
    assert!(!r.has_coordinate(3, 4));
    assert!(!r.has_coordinate(40, 3));
    // probing relocates the duplicate, and the scan sees the new pair
    r.insert(1, chunk_at(3, 3)).unwrap();
    assert!(r.has_coordinate(3, 4));
}

#[test]
fn region_drop_rejects_a_document_aimed_inside_another() {
    let mut r = NbtRegion::new();
    r.insert(0, chunk_at(0, 0)).unwrap();
    r.toggle().unwrap();
    // expand the document so its entry row is visible, keeping caches
    let doc = r.get_mut(0);
    let before = doc.inner.height();
    doc.inner.toggle();
    let after = doc.inner.height();
    r.increment(after - before, 0);
    // rows: container 0, document 1, its entry 2; aim a document at the
    // entry row at the container's own depth
    let mut y = 2 * 16 + 4;
    let mut indices = vec![];
    let out = r.drop(None, Pending::Chunk(chunk_at(5, 5)), &mut y, 0, 0, 0, &mut indices);
    assert!(matches!(out, DropFn::InvalidType(..)));
    assert_eq!(r.len(), 1);
}
