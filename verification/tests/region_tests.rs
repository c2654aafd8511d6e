use nbtworkbench::chunk::NbtChunk;
use nbtworkbench::element::NbtCompound;
use nbtworkbench::element::NbtElement;
use nbtworkbench::envelope::FileFormat;
use nbtworkbench::region::NbtRegion;

fn chunk_at(x: u8, z: u8, value: i32) -> NbtChunk {
    let mut c = NbtCompound::new();
    c.put(b"v".to_vec(), NbtElement::Int(value));
    NbtChunk::from_compound(c, (x, z), FileFormat::Zlib, 7)
}

fn chunk_value(c: &NbtChunk) -> Option<i32> {
    match &c.inner {
        NbtElement::Compound(m) => match m.entries.first() {
            Some((_, NbtElement::Int(v))) => Some(*v),
            _ => None,
        },
        _ => None,
    }
}

#[test]
fn empty_region_encodes_to_blank_header() {
    let r = NbtRegion::new();
    let bytes = r.to_bytes();
    assert_eq!(bytes.len(), 8192);
    assert!(bytes.iter().all(|b| *b == 0));
}

#[test]
fn gzip_document_round_trips_through_envelope_and_codec() {
    let mut m = NbtCompound::new();
    m.put(b"x".to_vec(), NbtElement::Int(5));
    let doc = NbtElement::Compound(m);
    let plain = doc.to_file();
    let packed = FileFormat::Gzip.encode(plain.as_slice());
    assert_ne!(packed, plain);
    assert_eq!(&packed[..2], &[0x1F, 0x8B]);
    let unpacked = FileFormat::decode_sniffed(packed.as_slice()).expect("inflate");
    assert_eq!(unpacked, plain);
    let back = NbtElement::from_file(unpacked.as_slice()).expect("decode");
    match &back {
        NbtElement::Compound(c) => {
            assert_eq!(c.entries.len(), 1);
            assert_eq!(c.entries[0].0, b"x".to_vec());
            assert_eq!(c.entries[0].1, NbtElement::Int(5));
        },
        _ => panic!("root must be a map"),
    }
}

#[test]
fn zlib_and_raw_envelopes_round_trip() {
    let data = b"some document bytes".to_vec();
    for kind in [FileFormat::Zlib, FileFormat::Nbt] {
        let packed = kind.encode(data.as_slice());
        let unpacked = kind.decode(packed.as_slice()).expect("decode");
        assert_eq!(unpacked, data);
    }
}

#[test]
fn malformed_streams_are_rejected() {
    assert!(FileFormat::Gzip.decode(&[1, 2, 3]).is_none());
    assert!(FileFormat::Zlib.decode(&[0x78, 0x9C, 0xFF, 0xFF, 0xFF]).is_none());
    assert!(FileFormat::from_discriminant(0).is_none());
    assert!(FileFormat::from_discriminant(4).is_none());
    assert_eq!(FileFormat::from_discriminant(1), Some(FileFormat::Gzip));
    assert_eq!(FileFormat::from_discriminant(2), Some(FileFormat::Zlib));
    assert_eq!(FileFormat::from_discriminant(3), Some(FileFormat::Nbt));
}

#[test]
fn region_round_trip_preserves_documents() {
    let mut r = NbtRegion::new();
    r.insert(0, chunk_at(0, 1, 11)).unwrap();
    r.insert(1, chunk_at(3, 3, 33)).unwrap();
    r.insert(2, chunk_at(31, 31, 99)).unwrap();
    let bytes = r.to_bytes();
    assert_eq!(bytes.len() % 4096, 0);
    let back = NbtRegion::from_bytes(bytes.as_slice()).expect("decode");
    assert_eq!(back.len(), 3);
    let c0 = back.get(0).expect("slot");
    assert_eq!((c0.x, c0.z), (0, 1));
    assert_eq!(chunk_value(c0), Some(11));
    assert_eq!(c0.compression, FileFormat::Zlib);
    assert_eq!(c0.last_modified, 7);
    let c1 = back.get(1).expect("slot");
    assert_eq!((c1.x, c1.z), (3, 3));
    assert_eq!(chunk_value(c1), Some(33));
    let c2 = back.get(2).expect("slot");
    assert_eq!((c2.x, c2.z), (31, 31));
    assert_eq!(chunk_value(c2), Some(99));
}

#[test]
fn empty_first_record_leaves_slot_absent_and_neighbours_decode() {
    let mut r = NbtRegion::new();
    r.insert(0, chunk_at(0, 1, 42)).unwrap();
    let bytes = r.to_bytes();
    // the header record and timestamp of slot 0 are zero
    assert_eq!(&bytes[0..4], &[0, 0, 0, 0]);
    assert_eq!(&bytes[4096..4100], &[0, 0, 0, 0]);
    let back = NbtRegion::from_bytes(bytes.as_slice()).expect("decode");
    assert_eq!(back.len(), 1);
    let c = back.get(0).expect("neighbour decodes independently");
    assert_eq!((c.x, c.z), (0, 1));
    assert_eq!(chunk_value(c), Some(42));
}

#[test]
fn short_buffer_rejects_whole_region() {
    assert!(NbtRegion::from_bytes(&[0u8; 8191]).is_none());
    assert!(NbtRegion::from_bytes(&[]).is_none());
}

#[test]
fn garbage_slot_is_dropped_without_failing_the_rest() {
    let mut r = NbtRegion::new();
    r.insert(0, chunk_at(0, 1, 42)).unwrap();
    let mut bytes = r.to_bytes();
    // hand-craft a second record pointing at sectors full of zeros
    let sectors = (bytes.len() - 8192) / 4096;
    let word = (((2 + sectors) as u32) << 8) | 1;
    bytes[8..12].copy_from_slice(&word.to_be_bytes());
    bytes.extend(std::iter::repeat(0u8).take(4096));
    let back = NbtRegion::from_bytes(bytes.as_slice()).expect("decode");
    assert_eq!(back.len(), 1);
    assert_eq!(chunk_value(back.get(0).unwrap()), Some(42));
}

#[test]
fn probing_insert_relocates_to_next_free_slot() {
    let mut r = NbtRegion::new();
    r.insert(0, chunk_at(3, 3, 1)).unwrap();
    let before = r.len();
    r.insert(1, chunk_at(3, 3, 2)).unwrap();
    assert_eq!(r.len(), before + 1);
    let moved = r.get(1).expect("inserted");
    assert_eq!((moved.x, moved.z), (3, 4));
    assert_eq!(chunk_value(moved), Some(2));
    // the first document kept its slot
    let kept = r.get(0).expect("kept");
    assert_eq!((kept.x, kept.z), (3, 3));
}

#[test]
fn insert_rejects_out_of_range_index() {
    let mut r = NbtRegion::new();
    let c = chunk_at(1, 1, 5);
    match r.insert(3, c) {
        Err(back) => assert_eq!((back.x, back.z), (1, 1)),
        Ok(()) => panic!("index beyond the map must be refused"),
    }
}

#[test]
fn insert_rejects_when_no_slot_is_free_forward() {
    let mut r = NbtRegion::new();
    r.insert(0, chunk_at(31, 31, 1)).unwrap();
    match r.insert(1, chunk_at(31, 31, 2)) {
        Err(back) => assert_eq!(chunk_value(&back), Some(2)),
        Ok(()) => panic!("probing past the last slot must be refused"),
    }
}

#[test]
fn remove_clears_the_slot() {
    let mut r = NbtRegion::new();
    r.insert(0, chunk_at(2, 2, 9)).unwrap();
    r.insert(1, chunk_at(4, 4, 10)).unwrap();
    let taken = r.remove(0);
    assert_eq!((taken.x, taken.z), (2, 2));
    assert_eq!(r.len(), 1);
    assert_eq!(chunk_value(r.get(0).unwrap()), Some(10));
}

#[test]
fn region_heights_and_labels() {
    let mut r = NbtRegion::new();
    assert_eq!(r.value(), "0 chunks");
    r.insert(0, chunk_at(0, 0, 1)).unwrap();
    assert_eq!(r.value(), "1 chunk");
    r.insert(1, chunk_at(0, 1, 2)).unwrap();
    assert_eq!(r.value(), "2 chunks");
    assert_eq!(r.height(), 1);
    assert_eq!(r.true_height(), 1 + 2 * 2);
    r.toggle().unwrap();
    assert!(r.open());
    assert_eq!(r.height(), 3);
    r.expand();
    assert_eq!(r.height(), r.true_height());
    r.shut();
    assert_eq!(r.height(), 1);
    let c = r.get(0).unwrap();
    assert_eq!(c.value(), "0, 0");
    assert_eq!(chunk_at(12, 3, 0).value(), "12, 3");
    assert_eq!(chunk_at(131, 131, 0).value(), "131, 131");
}
