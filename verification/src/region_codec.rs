//! The container file codec: a fixed 8192-byte header of 1024
//! offset/length records and 1024 timestamps, followed by 4096-byte
//! sectors holding each occupied slot's compressed document.

use vstd::prelude::*;

use crate::be_bytes::be4;
use crate::be_bytes::from_be4;
use crate::be_bytes::read_be4;
use crate::be_bytes::lemma_be4_roundtrip;
use crate::be_bytes::write_be4;
use crate::chunk::NbtChunk;
use crate::chunk::chunk_body;
use crate::chunk::chunk_fits;
use crate::chunk::chunk_sectors;
use crate::chunk::chunk_wf;
use crate::codec::dec_file;
use crate::element::NbtElement;
use crate::element::all_closed;
use crate::element::inv;
use crate::element::theight_of;
use crate::element::vof;
use crate::envelope::FileFormat;
use crate::envelope::envelope_decode;
use crate::envelope::kind_of_discriminant;
use crate::region::NbtRegion;
use crate::region::region_inv;
use crate::region::lemma_rsum_all_one;
use crate::value::Value;
use crate::value::tag_of;
use crate::value::true_height_of;

verus! {

/// The header record of a slot: sector offset in the high 24 bits,
/// sector count in the low 8.
pub open spec fn header_word(bytes: Seq<u8>, p: int) -> u32 {
    from_be4(bytes[4 * p], bytes[4 * p + 1], bytes[4 * p + 2], bytes[4 * p + 3])
}

/// The modification timestamp of a slot.
pub open spec fn ts_word(bytes: Seq<u8>, p: int) -> u32 {
    from_be4(bytes[4096 + 4 * p], bytes[4096 + 4 * p + 1], bytes[4096 + 4 * p + 2],
        bytes[4096 + 4 * p + 3])
}

/// Reads one slot's sector-padded data block: byte length, compression
/// discriminant, compressed payload. Yields the framing and the
/// decoded document, or nothing for an absent or malformed slot.
pub open spec fn parse_slot_data(data: Seq<u8>) -> Option<(FileFormat, Value)> {
    if data.len() < 5 {
        None
    } else {
        let blen = from_be4(data[0], data[1], data[2], data[3]) as int;
        if blen < 1 {
            None
        } else if data.len() - 5 < blen - 1 {
            None
        } else {
            match kind_of_discriminant(data[4]) {
                None => None,
                Some(k) => {
                    let payload = data.subrange(5, 5 + (blen - 1));
                    match envelope_decode(k, payload) {
                        None => None,
                        Some(doc) => match dec_file(doc) {
                            None => None,
                            Some(v) => Some((k, v)),
                        },
                    }
                },
            }
        }
    }
}

/// Reads one slot of a container file: resolves its header record to a
/// sector span, bounds-checks it, and parses the data block. An
/// offset record below 512 means the slot is absent.
pub open spec fn parse_slot(bytes: Seq<u8>, p: int) -> Option<(FileFormat, Value)> {
    if bytes.len() < 8192 {
        None
    } else {
        let w = header_word(bytes, p) as int;
        if w < 512 {
            None
        } else {
            let count = w % 256;
            let sec = w / 256;
            let start = 8192 + (sec - 2) * 4096;
            let span = count * 4096;
            if start + span > bytes.len() {
                None
            } else {
                parse_slot_data(bytes.subrange(start, start + span))
            }
        }
    }
}

/// The occupied slot indices of a container file from `p` on, in
/// ascending order.
pub open spec fn occ_list(bytes: Seq<u8>, p: int) -> Seq<u16>
    decreases 1024 - p,
{
    if p < 0 || p >= 1024 {
        Seq::empty()
    } else if parse_slot(bytes, p) is Some {
        seq![p as u16] + occ_list(bytes, p + 1)
    } else {
        occ_list(bytes, p + 1)
    }
}

/// Total fully-expanded rows of the documents a container file holds
/// from slot `p` on.
pub open spec fn occ_th_sum(bytes: Seq<u8>, p: int) -> nat
    decreases 1024 - p,
{
    if p < 0 || p >= 1024 {
        0
    } else {
        (match parse_slot(bytes, p) {
            Some((k, v)) => true_height_of(v),
            None => 0,
        }) + occ_th_sum(bytes, p + 1)
    }
}

impl NbtRegion {
    /// Reads a whole container file. Each of the 1024 header records is
    /// resolved and decoded independently; an absent or malformed slot
    /// stays empty without failing the rest. Nothing is returned only
    /// for a buffer too short to hold the header, or for contents
    /// whose total row count exceeds the machine's limit.
    #[verifier::loop_isolation(false)]
    #[verifier::rlimit(100)]
    pub fn from_bytes(bytes: &[u8]) -> (r: Option<NbtRegion>)
        ensures
            match r {
                Some(rg) => {
                    &&& bytes@.len() >= 8192
                    &&& region_inv(rg)
                    &&& rg.open == false
                    &&& rg.map@ == occ_list(bytes@, 0)
                    &&& rg.true_height == 1 + occ_th_sum(bytes@, 0)
                    &&& forall|p: int| 0 <= p < 1024 ==> match parse_slot(bytes@, p) {
                        Some(kv) => {
                            &&& (#[trigger] rg.chunks@[p]) matches Some(c)
                            &&& vof(c.inner) == kv.1
                            &&& crate::value::encodable(vof(c.inner))
                            &&& all_closed(c.inner)
                            &&& c.compression == kv.0
                            &&& c.last_modified == ts_word(bytes@, p)
                            &&& c.x == p / 32
                            &&& c.z == p % 32
                        },
                        None => (#[trigger] rg.chunks@[p]) is None,
                    }
                },
                None => bytes@.len() < 8192 || 1 + occ_th_sum(bytes@, 0) > usize::MAX,
            },
    {
        if bytes.len() < 8192 {
            return None;
        }
        let mut rg = NbtRegion::new();
        let mut p: usize = 0;
        while p < 1024
            invariant
                p <= 1024,
                bytes@.len() >= 8192,
                region_inv(rg),
                rg.open == false,
                rg.chunks@.len() == 1024,
                occ_list(bytes@, 0) =~= rg.map@ + occ_list(bytes@, p as int),
                occ_th_sum(bytes@, 0)
                    == rg.true_height - 1 + occ_th_sum(bytes@, p as int),
                forall|q: int| p <= q < 1024 ==> (#[trigger] rg.chunks@[q]) is None,
                forall|q: int| 0 <= q < p ==> match parse_slot(bytes@, q) {
                    Some(kv) => {
                        &&& (#[trigger] rg.chunks@[q]) matches Some(c)
                        &&& vof(c.inner) == kv.1
                        &&& crate::value::encodable(vof(c.inner))
                        &&& all_closed(c.inner)
                        &&& c.compression == kv.0
                        &&& c.last_modified == ts_word(bytes@, q)
                        &&& c.x == q / 32
                        &&& c.z == q % 32
                    },
                    None => (#[trigger] rg.chunks@[q]) is None,
                },
            decreases 1024 - p,
        {
            let w = read_be4(bytes, 4 * p);
            let ts = read_be4(bytes, 4096 + 4 * p);
            let parsed = Self::read_slot(bytes, w);
            match parsed {
                Some((kind, root)) => {
                    proof {
                        assert(parse_slot(bytes@, p as int) matches Some(kv)
                            && kv.0 == kind && kv.1 == vof(root));
                    }
                    let th = root.true_height();
                    if usize::MAX - rg.true_height < th {
                        proof {
                            assert(1 + occ_th_sum(bytes@, 0) > usize::MAX);
                        }
                        return None;
                    }
                    let idx = rg.map.len();
                    let chunk = NbtChunk {
                        inner: root,
                        last_modified: ts,
                        compression: kind,
                        x: (p / 32) as u8,
                        z: (p % 32) as u8,
                    };
                    proof {
                        assert(crate::chunk::slot_of(chunk.x, chunk.z) == p as int);
                    }
                    let ghost oldmap = rg.map@;
                    rg.insert_unchecked(p, idx, chunk);
                    proof {
                        assert(rg.map@ =~= oldmap + seq![p as u16]);
                    }
                },
                None => {},
            }
            p += 1;
            proof {
                assert(occ_list(bytes@, 0) =~= rg.map@ + occ_list(bytes@, p as int));
            }
        }
        proof {
            assert(occ_list(bytes@, 1024) =~= Seq::<u16>::empty());
            assert(rg.map@ =~= rg.map@ + occ_list(bytes@, 1024));
        }
        Some(rg)
    }

    /// Resolves one header record and decodes the slot it addresses.
    #[verifier::loop_isolation(false)]
    #[verifier::rlimit(100)]
    fn read_slot(bytes: &[u8], w: u32) -> (r: Option<(FileFormat, NbtElement)>)
        requires
            bytes@.len() >= 8192,
        ensures
            forall|p: int| header_word(bytes@, p) == w && 0 <= p < 1024
                ==> match r {
                    Some(kr) => #[trigger] parse_slot(bytes@, p)
                        == Some((kr.0, vof(kr.1)))
                        && inv(kr.1) && all_closed(kr.1)
                        && crate::value::encodable(vof(kr.1))
                        && (kr.1 matches NbtElement::Compound(_)),
                    None => parse_slot(bytes@, p) is None,
                },
    {
        if w < 512 {
            return None;
        }
        let count: u64 = (w % 256) as u64;
        let sec: u64 = (w / 256) as u64;
        let start64: u64 = 8192 + (sec - 2) * 4096;
        let span64: u64 = count * 4096;
        if start64 + span64 > bytes.len() as u64 {
            return None;
        }
        proof {
            assert(start64 <= bytes@.len());
            assert(span64 <= bytes@.len());
        }
        let start: usize = start64 as usize;
        let span: usize = span64 as usize;
        proof {
            assert(start == start64 && span == span64);
            assert(start + span <= bytes@.len());
        }
        let ghost data = bytes@.subrange(start as int, start as int + span as int);
        if span < 5 {
            return None;
        }
        let blen = read_be4(bytes, start);
        proof {
            assert(data[0] == bytes@[start as int] && data[1] == bytes@[start as int + 1]
                && data[2] == bytes@[start as int + 2] && data[3] == bytes@[start as int + 3]
                && data[4] == bytes@[start as int + 4]);
        }
        if blen < 1 {
            return None;
        }
        let plen = (blen - 1) as usize;
        if span - 5 < plen {
            return None;
        }
        let disc = bytes[start + 4];
        let kind = match FileFormat::from_discriminant(disc) {
            Some(k) => k,
            None => {
                return None;
            },
        };
        let mut payload: Vec<u8> = Vec::new();
        let mut i: usize = 0;
        while i < plen
            invariant
                i <= plen,
                start + 5 + plen <= bytes@.len(),
                payload@.len() == i,
                forall|j: int| 0 <= j < i ==> payload@[j] == bytes@[start + 5 + j],
            decreases plen - i,
        {
            payload.push(bytes[start + 5 + i]);
            i += 1;
        }
        proof {
            assert(payload@ =~= data.subrange(5, 5 + plen as int));
        }
        let doc = match kind.decode(payload.as_slice()) {
            Some(d) => d,
            None => {
                return None;
            },
        };
        match NbtElement::from_file(doc.as_slice()) {
            Some(root) => Some((kind, root)),
            None => None,
        }
    }
}


/// Whether a slot will be written: occupied and within the 255-sector
/// limit of a header record.
pub open spec fn slot_live(chunks: Seq<Option<NbtChunk>>, p: int) -> bool {
    0 <= p < chunks.len() && chunks[p] is Some && chunk_fits(chunks[p]->0)
}

/// The sectors a slot contributes to the file.
pub open spec fn sectors_at(chunks: Seq<Option<NbtChunk>>, p: int) -> int {
    if slot_live(chunks, p) {
        chunk_sectors(chunks[p]->0)
    } else {
        0
    }
}

/// The sectors of all written slots before `p`.
pub open spec fn cum_sectors(chunks: Seq<Option<NbtChunk>>, p: int) -> int
    decreases p,
{
    if p <= 0 {
        0
    } else {
        cum_sectors(chunks, p - 1) + sectors_at(chunks, p - 1)
    }
}

/// The header record written for a slot: the slot's first sector (the
/// running cursor, starting after the two header sectors) in the high
/// 24 bits and its sector count in the low 8; zero for a slot that is
/// not written.
pub open spec fn offset_word_at(chunks: Seq<Option<NbtChunk>>, p: int) -> u32 {
    if slot_live(chunks, p) {
        ((2 + cum_sectors(chunks, p)) * 256 + sectors_at(chunks, p)) as u32
    } else {
        0
    }
}

/// The timestamp written for a slot; zero for a slot that is not
/// written.
pub open spec fn ts_at(chunks: Seq<Option<NbtChunk>>, p: int) -> u32 {
    if slot_live(chunks, p) {
        chunks[p]->0.last_modified
    } else {
        0
    }
}

/// The offset table from slot `p` on.
pub open spec fn enc_offsets(chunks: Seq<Option<NbtChunk>>, p: int) -> Seq<u8>
    decreases 1024 - p,
{
    if p < 0 || p >= 1024 {
        Seq::empty()
    } else {
        be4(offset_word_at(chunks, p)) + enc_offsets(chunks, p + 1)
    }
}

/// The timestamp table from slot `p` on.
pub open spec fn enc_timestamps(chunks: Seq<Option<NbtChunk>>, p: int) -> Seq<u8>
    decreases 1024 - p,
{
    if p < 0 || p >= 1024 {
        Seq::empty()
    } else {
        be4(ts_at(chunks, p)) + enc_timestamps(chunks, p + 1)
    }
}

/// The concatenated sector-padded bodies of the written slots from
/// slot `p` on, in slot order.
pub open spec fn enc_bodies(chunks: Seq<Option<NbtChunk>>, p: int) -> Seq<u8>
    decreases 1024 - p,
{
    if p < 0 || p >= 1024 {
        Seq::empty()
    } else {
        (if slot_live(chunks, p) {
            chunk_body(chunks[p]->0)
        } else {
            Seq::empty()
        }) + enc_bodies(chunks, p + 1)
    }
}

/// The whole container file: the two header sectors, then the bodies,
/// compacted in slot order with no sector reuse.
pub open spec fn region_encode(chunks: Seq<Option<NbtChunk>>) -> Seq<u8> {
    enc_offsets(chunks, 0) + enc_timestamps(chunks, 0) + enc_bodies(chunks, 0)
}

/// Every slot contributes at most 255 sectors.
pub proof fn lemma_cum_sectors_bound(chunks: Seq<Option<NbtChunk>>, p: int)
    requires
        0 <= p <= 1024,
    ensures
        0 <= cum_sectors(chunks, p) <= p * 255,
    decreases p,
{
    if p > 0 {
        lemma_cum_sectors_bound(chunks, p - 1);
        if slot_live(chunks, p - 1) {
            let c = chunks[p - 1]->0;
            assert(chunk_body(c).len() == 5 + crate::chunk::chunk_payload(c).len()
                + crate::chunk::pad_of(crate::chunk::chunk_payload(c).len() as int));
            assert(chunk_sectors(c) <= 255) by {
                assert(chunk_body(c).len() <= 255 * 4096);
            }
            assert(chunk_sectors(c) >= 0);
        }
    }
}

impl NbtRegion {
    /// Writes the whole container file: 1024 offset records, 1024
    /// timestamps, then every document's sector-padded body, packed in
    /// slot order by a running sector cursor. A document whose body
    /// would not fit its header record's 255-sector limit is written
    /// as absent. The layout is deterministic and compacted; physical
    /// offsets of a decoded file are not preserved.
    #[verifier::loop_isolation(false)]
    #[verifier::rlimit(100)]
    pub fn to_bytes(&self) -> (r: Vec<u8>)
        requires
            region_inv(*self),
            forall|p: int| 0 <= p < 1024 && (#[trigger] self.chunks@[p]) is Some
                ==> crate::value::encodable(vof(self.chunks@[p]->0.inner)),
        ensures
            r@ == region_encode(self.chunks@),
            forall|p: int| 0 <= p < 1024 && slot_live(self.chunks@, p)
                ==> envelope_decode((#[trigger] self.chunks@[p])->0.compression,
                    crate::chunk::chunk_payload(self.chunks@[p]->0))
                    == Some(crate::codec::enc_file(vof(self.chunks@[p]->0.inner))),
    {
        let ghost chunks = self.chunks@;
        let mut bodies: Vec<Vec<u8>> = Vec::new();
        let mut p: usize = 0;
        while p < 1024
            invariant
                p <= 1024,
                region_inv(*self),
                chunks == self.chunks@,
                bodies@.len() == p,
                forall|q: int| 0 <= q < p ==> (#[trigger] bodies@[q])@
                    == (if slot_live(chunks, q) { chunk_body(chunks[q]->0) } else {
                        Seq::<u8>::empty()
                    }),
                forall|q: int| 0 <= q < p
                    ==> (#[trigger] bodies@[q])@.len() == 4096 * sectors_at(chunks, q),
                forall|q: int| 0 <= q < p && slot_live(chunks, q)
                    ==> envelope_decode((#[trigger] chunks[q])->0.compression,
                        crate::chunk::chunk_payload(chunks[q]->0))
                        == Some(crate::codec::enc_file(vof(chunks[q]->0.inner))),
            decreases 1024 - p,
        {
            match &self.chunks[p] {
                Some(c) => {
                    match c.to_bytes() {
                        Some(b) => {
                            bodies.push(b);
                        },
                        None => {
                            bodies.push(Vec::new());
                        },
                    }
                },
                None => {
                    bodies.push(Vec::new());
                },
            }
            p += 1;
        }
        let mut out: Vec<u8> = Vec::new();
        let mut o: usize = 2;
        let mut p: usize = 0;
        proof {
            assert(out@ + enc_offsets(chunks, 0) =~= enc_offsets(chunks, 0));
        }
        while p < 1024
            invariant
                p <= 1024,
                chunks == self.chunks@,
                bodies@.len() == 1024,
                forall|q: int| 0 <= q < 1024
                    ==> (#[trigger] bodies@[q])@.len() == 4096 * sectors_at(chunks, q),
                o == 2 + cum_sectors(chunks, p as int),
                enc_offsets(chunks, 0) =~= out@ + enc_offsets(chunks, p as int),
            decreases 1024 - p,
        {
            proof {
                lemma_cum_sectors_bound(chunks, p as int);
                lemma_cum_sectors_bound(chunks, p as int + 1);
            }
            let sectors = bodies[p].len() / 4096;
            let w: u32;
            if sectors > 0 {
                w = ((o as u32) * 256) + (sectors as u32);
                o = o + sectors;
            } else {
                w = 0;
            }
            proof {
                assert(w == offset_word_at(chunks, p as int));
            }
            write_be4(&mut out, w);
            p += 1;
            proof {
                assert(enc_offsets(chunks, 0) =~= out@ + enc_offsets(chunks, p as int));
            }
        }
        proof {
            assert(enc_offsets(chunks, 1024) =~= Seq::<u8>::empty());
            assert(out@ =~= enc_offsets(chunks, 0));
        }
        let mut p: usize = 0;
        let ghost off_part = out@;
        proof {
            assert(out@ + enc_timestamps(chunks, 0)
                =~= off_part + enc_timestamps(chunks, 0));
        }
        while p < 1024
            invariant
                p <= 1024,
                chunks == self.chunks@,
                region_inv(*self),
                off_part + enc_timestamps(chunks, 0)
                    =~= out@ + enc_timestamps(chunks, p as int),
            decreases 1024 - p,
        {
            let w: u32;
            match &self.chunks[p] {
                Some(c) => {
                    match c.to_bytes() {
                        Some(b) => {
                            w = c.last_modified;
                        },
                        None => {
                            w = 0;
                        },
                    }
                },
                None => {
                    w = 0;
                },
            }
            proof {
                assert(w == ts_at(chunks, p as int));
            }
            write_be4(&mut out, w);
            p += 1;
            proof {
                assert(off_part + enc_timestamps(chunks, 0)
                    =~= out@ + enc_timestamps(chunks, p as int));
            }
        }
        proof {
            assert(enc_timestamps(chunks, 1024) =~= Seq::<u8>::empty());
            assert(out@ =~= enc_offsets(chunks, 0) + enc_timestamps(chunks, 0));
        }
        let ghost head_part = out@;
        let mut p: usize = 0;
        proof {
            assert(out@ + enc_bodies(chunks, 0) =~= head_part + enc_bodies(chunks, 0));
        }
        while p < 1024
            invariant
                p <= 1024,
                chunks == self.chunks@,
                bodies@.len() == 1024,
                forall|q: int| 0 <= q < 1024 ==> (#[trigger] bodies@[q])@
                    == (if slot_live(chunks, q) { chunk_body(chunks[q]->0) } else {
                        Seq::<u8>::empty()
                    }),
                head_part + enc_bodies(chunks, 0) =~= out@ + enc_bodies(chunks, p as int),
            decreases 1024 - p,
        {
            let body = &bodies[p];
            let mut i: usize = 0;
            let ghost pre = out@;
            while i < body.len()
                invariant
                    i <= body@.len(),
                    out@ == pre + body@.take(i as int),
                decreases body@.len() - i,
            {
                out.push(body[i]);
                proof {
                    assert(body@.take(i + 1) =~= body@.take(i as int).push(body@[i as int]));
                    assert(out@ =~= pre + body@.take(i + 1));
                }
                i += 1;
            }
            proof {
                assert(body@.take(body@.len() as int) =~= body@);
            }
            p += 1;
            proof {
                assert(head_part + enc_bodies(chunks, 0)
                    =~= out@ + enc_bodies(chunks, p as int));
            }
        }
        proof {
            assert(enc_bodies(chunks, 1024) =~= Seq::<u8>::empty());
            assert(out@ =~= region_encode(chunks));
        }
        out
    }
}

/// Law: an occupied slot round-trips — reading back the written
/// sector-padded body of any well-formed, writable document yields the
/// same framing and the same tree. (The premise on the envelope is
/// what `NbtChunk::to_bytes` guarantees of the body it wrote: the
/// compressed payload inflates back to the document's bytes.)
#[verifier::rlimit(100)]
pub proof fn lemma_slot_roundtrip(c: NbtChunk)
    requires
        chunk_wf(c),
        crate::value::encodable(vof(c.inner)),
        chunk_fits(c),
        crate::envelope::envelope_decode(c.compression, crate::chunk::chunk_payload(c))
            == Some(crate::codec::enc_file(vof(c.inner))),
    ensures
        parse_slot_data(chunk_body(c)) == Some((c.compression, vof(c.inner))),
{
    let pay = crate::chunk::chunk_payload(c);
    let n = pay.len() as int;
    let data = chunk_body(c);
    let head = be4((n + 1) as u32);
    assert(data == head + seq![crate::envelope::discriminant_of(c.compression)] + pay
        + crate::chunk::zeros(crate::chunk::pad_of(n)));
    assert(data.len() == 5 + n + crate::chunk::pad_of(n));
    assert(crate::chunk::pad_of(n) >= 0) by {
        let m = (n + 5) % 4096;
        assert(0 <= m < 4096);
    }
    assert(data[0] == head[0] && data[1] == head[1] && data[2] == head[2]
        && data[3] == head[3]);
    crate::be_bytes::lemma_be4_roundtrip((n + 1) as u32);
    let blen = from_be4(data[0], data[1], data[2], data[3]) as int;
    assert(blen == n + 1);
    assert(data[4] == crate::envelope::discriminant_of(c.compression));
    assert(crate::envelope::kind_of_discriminant(data[4]) == Some(c.compression));
    assert(data.subrange(5, 5 + n) =~= pay);
    assert(crate::envelope::envelope_decode(c.compression, data.subrange(5, 5 + n))
        == Some(crate::codec::enc_file(vof(c.inner))));
    assert(tag_of(vof(c.inner)) == 10);
    crate::codec::lemma_file_roundtrip(vof(c.inner));
    assert(crate::codec::dec_file(crate::codec::enc_file(vof(c.inner)))
        == Some(vof(c.inner)));
}

/// Lengths of the three segments of an encoded container.
pub proof fn lemma_enc_lengths(chunks: Seq<Option<NbtChunk>>, p: int)
    requires
        0 <= p <= 1024,
    ensures
        enc_offsets(chunks, p).len() == 4 * (1024 - p),
        enc_timestamps(chunks, p).len() == 4 * (1024 - p),
        enc_bodies(chunks, p).len()
            == 4096 * (cum_sectors(chunks, 1024) - cum_sectors(chunks, p)),
    decreases 1024 - p,
{
    if p < 1024 {
        lemma_enc_lengths(chunks, p + 1);
        lemma_cum_between(chunks, p + 1, 1024);
        if slot_live(chunks, p) {
            let c = chunks[p]->0;
            assert(chunk_body(c).len() == 5 + crate::chunk::chunk_payload(c).len()
                + crate::chunk::pad_of(crate::chunk::chunk_payload(c).len() as int));
            assert(chunk_body(c).len() % 4096 == 0) by {
                let m = (crate::chunk::chunk_payload(c).len() + 5) as int % 4096;
                assert(0 <= m < 4096);
                if m != 0 {
                    assert(crate::chunk::pad_of(
                        crate::chunk::chunk_payload(c).len() as int) == 4096 - m);
                }
            }
            assert(chunk_body(c).len() == 4096 * chunk_sectors(c));
        }
    }
}

/// The sector cursor never moves backwards.
pub proof fn lemma_cum_between(chunks: Seq<Option<NbtChunk>>, p: int, q: int)
    requires
        0 <= p <= q <= 1024,
    ensures
        cum_sectors(chunks, p) <= cum_sectors(chunks, q),
        cum_sectors(chunks, q) - cum_sectors(chunks, p)
            >= (if p < q { sectors_at(chunks, p) } else { 0 }),
    decreases q - p,
{
    lemma_cum_sectors_bound(chunks, p);
    if p < q {
        lemma_cum_between(chunks, p + 1, q);
        if slot_live(chunks, p) {
            let c = chunks[p]->0;
            assert(chunk_sectors(c) >= 0);
        }
    }
}

/// The offset record of slot `p`, read out of the offset table.
pub proof fn lemma_offsets_index(chunks: Seq<Option<NbtChunk>>, q: int, p: int, k: int)
    requires
        0 <= q <= p < 1024,
        0 <= k < 4,
    ensures
        enc_offsets(chunks, q)[4 * (p - q) + k] == be4(offset_word_at(chunks, p))[k],
    decreases p - q,
{
    lemma_enc_lengths(chunks, q + 1);
    if q < p {
        lemma_offsets_index(chunks, q + 1, p, k);
        assert(enc_offsets(chunks, q)[4 * (p - q) + k]
            == enc_offsets(chunks, q + 1)[4 * (p - q - 1) + k]);
    }
}

/// The timestamp of slot `p`, read out of the timestamp table.
pub proof fn lemma_timestamps_index(chunks: Seq<Option<NbtChunk>>, q: int, p: int, k: int)
    requires
        0 <= q <= p < 1024,
        0 <= k < 4,
    ensures
        enc_timestamps(chunks, q)[4 * (p - q) + k] == be4(ts_at(chunks, p))[k],
    decreases p - q,
{
    lemma_enc_lengths(chunks, q + 1);
    if q < p {
        lemma_timestamps_index(chunks, q + 1, p, k);
        assert(enc_timestamps(chunks, q)[4 * (p - q) + k]
            == enc_timestamps(chunks, q + 1)[4 * (p - q - 1) + k]);
    }
}

/// The body of a written slot, sliced out of the body segment by the
/// sector cursor.
pub proof fn lemma_bodies_slice(chunks: Seq<Option<NbtChunk>>, q: int, p: int)
    requires
        0 <= q <= p < 1024,
        slot_live(chunks, p),
    ensures
        enc_bodies(chunks, q).subrange(
            4096 * (cum_sectors(chunks, p) - cum_sectors(chunks, q)),
            4096 * (cum_sectors(chunks, p) - cum_sectors(chunks, q))
                + 4096 * chunk_sectors(chunks[p]->0))
            == chunk_body(chunks[p]->0),
    decreases p - q,
{
    lemma_enc_lengths(chunks, q);
    lemma_enc_lengths(chunks, q + 1);
    lemma_cum_between(chunks, q, p);
    if q + 1 <= p {
        lemma_cum_between(chunks, q + 1, p);
    }
    lemma_cum_between(chunks, p, 1024);
    let head = if slot_live(chunks, q) { chunk_body(chunks[q]->0) } else {
        Seq::<u8>::empty()
    };
    assert(enc_bodies(chunks, q) == head + enc_bodies(chunks, q + 1));
    assert(head.len() == 4096 * sectors_at(chunks, q)) by {
        if slot_live(chunks, q) {
            let c = chunks[q]->0;
            assert(chunk_body(c).len() % 4096 == 0) by {
                let m = (crate::chunk::chunk_payload(c).len() + 5) as int % 4096;
                assert(0 <= m < 4096);
                if m != 0 {
                    assert(crate::chunk::pad_of(
                        crate::chunk::chunk_payload(c).len() as int) == 4096 - m);
                }
            }
            assert(chunk_body(c).len() == 4096 * chunk_sectors(c));
        }
    }
    if q == p {
        assert(enc_bodies(chunks, q).subrange(0, head.len() as int) =~= head);
    } else {
        lemma_bodies_slice(chunks, q + 1, p);
        let lo = 4096 * (cum_sectors(chunks, p) - cum_sectors(chunks, q));
        let hi = lo + 4096 * chunk_sectors(chunks[p]->0);
        assert(cum_sectors(chunks, q + 1) == cum_sectors(chunks, q)
            + sectors_at(chunks, q));
        assert(enc_bodies(chunks, q).subrange(lo, hi)
            =~= enc_bodies(chunks, q + 1).subrange(lo - head.len(), hi - head.len()));
    }
}

/// Law: the container codec round-trips per slot — in the encoded
/// file, every written slot's header record resolves to exactly that
/// slot's body, which re-parses to the same framing and the same
/// document, and every other slot parses as absent; timestamps read
/// back as written. (The envelope premise is what `NbtChunk::to_bytes`
/// guarantees of each written body.)
#[verifier::rlimit(100)]
pub proof fn lemma_region_roundtrip_slot(chunks: Seq<Option<NbtChunk>>, p: int)
    requires
        chunks.len() == 1024,
        0 <= p < 1024,
        slot_live(chunks, p) ==> chunk_wf(chunks[p]->0)
            && crate::value::encodable(vof(chunks[p]->0.inner))
            && envelope_decode(chunks[p]->0.compression,
                crate::chunk::chunk_payload(chunks[p]->0))
                == Some(crate::codec::enc_file(vof(chunks[p]->0.inner))),
    ensures
        parse_slot(region_encode(chunks), p)
            == (if slot_live(chunks, p) {
                Some((chunks[p]->0.compression, vof(chunks[p]->0.inner)))
            } else {
                None::<(FileFormat, Value)>
            }),
        ts_word(region_encode(chunks), p) == ts_at(chunks, p),
{
    let bytes = region_encode(chunks);
    lemma_enc_lengths(chunks, 0);
    lemma_cum_sectors_bound(chunks, 1024);
    lemma_cum_sectors_bound(chunks, p);
    lemma_cum_between(chunks, p, 1024);
    assert(bytes.len() == 8192 + 4096 * cum_sectors(chunks, 1024));
    let w0 = offset_word_at(chunks, p);
    lemma_offsets_index(chunks, 0, p, 0);
    lemma_offsets_index(chunks, 0, p, 1);
    lemma_offsets_index(chunks, 0, p, 2);
    lemma_offsets_index(chunks, 0, p, 3);
    assert(bytes[4 * p] == enc_offsets(chunks, 0)[4 * p]);
    assert(bytes[4 * p + 1] == enc_offsets(chunks, 0)[4 * p + 1]);
    assert(bytes[4 * p + 2] == enc_offsets(chunks, 0)[4 * p + 2]);
    assert(bytes[4 * p + 3] == enc_offsets(chunks, 0)[4 * p + 3]);
    assert(enc_offsets(chunks, 0)[4 * p] == be4(w0)[0]) by {
        assert(4 * (p - 0) + 0 == 4 * p);
    }
    assert(enc_offsets(chunks, 0)[4 * p + 1] == be4(w0)[1]);
    assert(enc_offsets(chunks, 0)[4 * p + 2] == be4(w0)[2]);
    assert(enc_offsets(chunks, 0)[4 * p + 3] == be4(w0)[3]);
    lemma_be4_roundtrip(w0);
    assert(header_word(bytes, p) == w0);
    let t0 = ts_at(chunks, p);
    lemma_timestamps_index(chunks, 0, p, 0);
    lemma_timestamps_index(chunks, 0, p, 1);
    lemma_timestamps_index(chunks, 0, p, 2);
    lemma_timestamps_index(chunks, 0, p, 3);
    assert(bytes[4096 + 4 * p] == enc_timestamps(chunks, 0)[4 * p]);
    assert(bytes[4096 + 4 * p + 1] == enc_timestamps(chunks, 0)[4 * p + 1]);
    assert(bytes[4096 + 4 * p + 2] == enc_timestamps(chunks, 0)[4 * p + 2]);
    assert(bytes[4096 + 4 * p + 3] == enc_timestamps(chunks, 0)[4 * p + 3]);
    assert(enc_timestamps(chunks, 0)[4 * p] == be4(t0)[0]) by {
        assert(4 * (p - 0) + 0 == 4 * p);
    }
    assert(enc_timestamps(chunks, 0)[4 * p + 1] == be4(t0)[1]);
    assert(enc_timestamps(chunks, 0)[4 * p + 2] == be4(t0)[2]);
    assert(enc_timestamps(chunks, 0)[4 * p + 3] == be4(t0)[3]);
    lemma_be4_roundtrip(t0);
    assert(ts_word(bytes, p) == t0);
    if !slot_live(chunks, p) {
        assert(offset_word_at(chunks, p) == 0);
        assert(parse_slot(bytes, p) is None);
    } else {
        let c = chunks[p]->0;
        let cum = cum_sectors(chunks, p);
        let s = chunk_sectors(c);
        assert(1 <= s <= 255) by {
            assert(chunk_body(c).len() == 5 + crate::chunk::chunk_payload(c).len()
                + crate::chunk::pad_of(crate::chunk::chunk_payload(c).len() as int));
            let m = (crate::chunk::chunk_payload(c).len() + 5) as int % 4096;
            assert(0 <= m < 4096);
            if m != 0 {
                assert(crate::chunk::pad_of(crate::chunk::chunk_payload(c).len() as int)
                    == 4096 - m);
            }
            assert(chunk_body(c).len() % 4096 == 0);
            assert(chunk_body(c).len() <= 255 * 4096);
        }
        let w = offset_word_at(chunks, p) as int;
        assert(w == (2 + cum) * 256 + s);
        assert(w / 256 == 2 + cum && w % 256 == s) by (nonlinear_arith)
            requires
                w == (2 + cum) * 256 + s,
                0 <= s < 256,
                0 <= cum,
        {
        }
        assert(w >= 512);
        let start = 8192 + cum * 4096;
        let span = s * 4096;
        assert(cum + s == cum_sectors(chunks, p + 1)) by {
            assert(cum_sectors(chunks, p + 1) == cum_sectors(chunks, p)
                + sectors_at(chunks, p));
        }
        lemma_cum_between(chunks, p + 1, 1024);
        assert(start + span <= bytes.len());
        assert(chunk_body(c).len() == 4096 * s) by {
            let m = (crate::chunk::chunk_payload(c).len() + 5) as int % 4096;
            assert(0 <= m < 4096);
            if m != 0 {
                assert(crate::chunk::pad_of(crate::chunk::chunk_payload(c).len() as int)
                    == 4096 - m);
            }
            assert(chunk_body(c).len() % 4096 == 0);
        }
        lemma_bodies_slice(chunks, 0, p);
        assert(bytes.subrange(start, start + span)
            =~= enc_bodies(chunks, 0).subrange(start - 8192, start + span - 8192));
        assert(bytes.subrange(start, start + span) == chunk_body(c));
        lemma_slot_roundtrip(c);
        assert(parse_slot(bytes, p) == Some((c.compression, vof(c.inner))));
    }
}

/// Law: the whole container round-trips — parsing the encoded file
/// recovers every written slot's document, framing and timestamp, and
/// leaves every other slot absent; only the physical layout is
/// renewed.
pub proof fn lemma_region_roundtrip(chunks: Seq<Option<NbtChunk>>)
    requires
        chunks.len() == 1024,
        forall|p: int| 0 <= p < 1024 && slot_live(chunks, p)
            ==> chunk_wf((#[trigger] chunks[p])->0)
                && crate::value::encodable(vof(chunks[p]->0.inner))
                && envelope_decode(chunks[p]->0.compression,
                    crate::chunk::chunk_payload(chunks[p]->0))
                    == Some(crate::codec::enc_file(vof(chunks[p]->0.inner))),
    ensures
        forall|p: int| 0 <= p < 1024 ==> #[trigger] parse_slot(region_encode(chunks), p)
            == (if slot_live(chunks, p) {
                Some((chunks[p]->0.compression, vof(chunks[p]->0.inner)))
            } else {
                None::<(FileFormat, Value)>
            }),
        forall|p: int| 0 <= p < 1024
            ==> #[trigger] ts_word(region_encode(chunks), p) == ts_at(chunks, p),
{
    assert forall|p: int| 0 <= p < 1024
        implies #[trigger] parse_slot(region_encode(chunks), p)
            == (if slot_live(chunks, p) {
                Some((chunks[p]->0.compression, vof(chunks[p]->0.inner)))
            } else {
                None::<(FileFormat, Value)>
            }) by {
        lemma_region_roundtrip_slot(chunks, p);
    }
    assert forall|p: int| 0 <= p < 1024
        implies #[trigger] ts_word(region_encode(chunks), p) == ts_at(chunks, p) by {
        lemma_region_roundtrip_slot(chunks, p);
    }
}
} // verus!
