use nbtworkbench::element::NbtByteArray;
use nbtworkbench::element::NbtCompound;
use nbtworkbench::element::NbtElement;
use nbtworkbench::element::NbtIntArray;
use nbtworkbench::element::NbtList;
use nbtworkbench::element::NbtLongArray;
use nbtworkbench::element::NbtString;

fn compound(entries: Vec<(&str, NbtElement)>) -> NbtElement {
    let mut c = NbtCompound::new();
    for (k, v) in entries {
        c.put(k.as_bytes().to_vec(), v);
    }
    NbtElement::Compound(c)
}

fn rich_tree() -> NbtElement {
    let list = NbtList::new(
        vec![NbtElement::Int(1), NbtElement::Int(-2), NbtElement::Int(300)],
        3,
    );
    compound(vec![
        ("b", NbtElement::Byte(-7)),
        ("s", NbtElement::Short(-30000)),
        ("i", NbtElement::Int(123456789)),
        ("l", NbtElement::Long(-9876543210)),
        ("f", NbtElement::Float(0x3F80_0000)),
        ("d", NbtElement::Double(0x3FF0_0000_0000_0000)),
        ("ba", NbtElement::ByteArray(NbtByteArray::new(vec![1, -1, 127, -128]))),
        ("str", NbtElement::Str(NbtString::new(b"hello world".to_vec()))),
        ("list", NbtElement::List(list)),
        ("inner", compound(vec![("x", NbtElement::Int(5))])),
        ("ia", NbtElement::IntArray(NbtIntArray::new(vec![10, -20]))),
        ("la", NbtElement::LongArray(NbtLongArray::new(vec![1, 2, 3]))),
    ])
}

#[test]
fn document_round_trip_preserves_structure() {
    let v = rich_tree();
    let bytes = v.to_file();
    let back = NbtElement::from_file(bytes.as_slice()).expect("round trip");
    assert_eq!(back, v);
}

#[test]
fn document_preamble_is_fixed() {
    let v = compound(vec![("x", NbtElement::Int(5))]);
    let bytes = v.to_file();
    assert_eq!(&bytes[..3], &[0x0A, 0x00, 0x00]);
}

#[test]
fn exact_bytes_of_single_int_entry() {
    let v = compound(vec![("x", NbtElement::Int(5))]);
    let bytes = v.to_file();
    // preamble, then: tag 3, key length 1, key "x", 4-byte value, end marker
    assert_eq!(
        bytes,
        vec![0x0A, 0x00, 0x00, 0x03, 0x00, 0x01, b'x', 0x00, 0x00, 0x00, 0x05, 0x00]
    );
}

#[test]
fn truncated_input_is_rejected() {
    let v = rich_tree();
    let bytes = v.to_file();
    for cut in [0, 1, 2, 3, 5, bytes.len() - 1] {
        assert!(NbtElement::from_file(&bytes[..cut]).is_none());
    }
}

#[test]
fn unknown_tag_is_rejected() {
    let mut idx = 0usize;
    assert!(NbtElement::from_bytes(13, &[0u8; 8], &mut idx).is_none());
    assert!(NbtElement::from_bytes(255, &[0u8; 8], &mut idx).is_none());
}

#[test]
fn end_marker_list_with_elements_is_rejected() {
    // list payload: element tag 0, count 1
    let payload = [0x00, 0x00, 0x00, 0x00, 0x01];
    let mut idx = 0usize;
    assert!(NbtElement::from_bytes(9, &payload, &mut idx).is_none());
}

#[test]
fn empty_list_keeps_declared_tag() {
    let v = NbtElement::List(NbtList::new(vec![], 0xFF));
    let mut out = vec![];
    v.to_bytes(&mut out);
    assert_eq!(out, vec![0xFF, 0x00, 0x00, 0x00, 0x00]);
    let mut idx = 0usize;
    let back = NbtElement::from_bytes(9, &out, &mut idx).expect("decode");
    assert_eq!(back, v);
    assert_eq!(idx, out.len());
}

#[test]
fn from_id_builds_each_kind() {
    for id in 0u8..13 {
        let e = NbtElement::from_id(id);
        assert_eq!(e.id(), id);
        assert_eq!(e.height(), 1);
        assert_eq!(e.true_height(), 1);
        assert!(!e.open());
    }
}

#[test]
fn heights_track_structure() {
    let v = rich_tree();
    // 1 for the root + 12 entries + 4 array rows + 3 list rows + 1 nested
    // entry + 2 + 3 array rows
    assert_eq!(v.true_height(), 1 + 12 + 4 + 3 + 1 + 2 + 3);
    assert_eq!(v.height(), 1);
}

#[test]
fn toggle_expand_and_shut() {
    let mut v = compound(vec![("x", NbtElement::Int(5)), ("y", NbtElement::Int(6))]);
    assert_eq!(v.height(), 1);
    assert!(v.toggle());
    assert!(v.open());
    assert_eq!(v.height(), 3);
    assert!(v.toggle());
    assert!(!v.open());
    assert_eq!(v.height(), 1);
    v.expand();
    assert_eq!(v.height(), v.true_height());
    v.shut();
    assert_eq!(v.height(), 1);
}

#[test]
fn toggle_on_leaf_is_refused() {
    let mut v = NbtElement::Int(5);
    assert!(!v.toggle());
}

#[test]
fn delete_updates_heights() {
    let mut v = compound(vec![("x", NbtElement::Int(5)), ("y", NbtElement::Int(6))]);
    let th = v.true_height();
    v.delete(0);
    assert_eq!(v.true_height(), th - 1);
    assert_eq!(v.len(), 1);
}

#[test]
fn icon_upscales_by_pixel_repetition() {
    let mut src = vec![0u8; 1024];
    for (i, b) in src.iter_mut().enumerate() {
        *b = (i % 251) as u8;
    }
    let out = nbtworkbench::assets::icon(&src);
    assert_eq!(out.len(), 65536);
    // pixel (0,0) fills the top-left 8x8 block
    for y in 0..8 {
        for x in 0..8 {
            for c in 0..4 {
                assert_eq!(out[(y * 128 + x) * 4 + c], src[c]);
            }
        }
    }
    // pixel (15,15) fills the bottom-right block
    assert_eq!(out[(127 * 128 + 127) * 4], src[(15 * 16 + 15) * 4]);
}
