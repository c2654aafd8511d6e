//! One container document: a compound-rooted tree stored in one slot,
//! keyed by a coordinate pair, with its framing and last-modified
//! timestamp.

use vstd::prelude::*;
use vstd::string::StringExecFns;

use crate::be_bytes::be4;
use crate::codec::enc_file;
use crate::codec::enc_payload;
use crate::element::NbtCompound;
use crate::element::NbtElement;
use crate::element::height_of;
use crate::element::inv;
use crate::element::open_of;
use crate::element::theight_of;
use crate::element::vof;
use crate::envelope::FileFormat;
use crate::envelope::discriminant_of;
use crate::envelope::envelope_encode;
use crate::value::Value;
use crate::value::encodable;

verus! {

/// One document of the container: a compound-rooted tree plus its slot
/// coordinates, framing and timestamp.
#[derive(Debug, PartialEq, Eq)]
pub struct NbtChunk {
    pub inner: NbtElement,
    pub last_modified: u32,
    pub compression: FileFormat,
    pub x: u8,
    pub z: u8,
}

/// Well-formedness of a document: a well-formed compound root and
/// in-range coordinates.
pub open spec fn chunk_wf(c: NbtChunk) -> bool {
    &&& c.inner matches NbtElement::Compound(_)
    &&& inv(c.inner)
    &&& c.x < 32
    &&& c.z < 32
}

/// The slot index a coordinate pair addresses.
pub open spec fn slot_of(x: u8, z: u8) -> int {
    x as int * 32 + z as int
}

/// The compressed bytes of a document's encoded tree.
pub open spec fn chunk_payload(c: NbtChunk) -> Seq<u8> {
    envelope_encode(c.compression, enc_file(vof(c.inner)))
}

/// A sequence of zero bytes.
pub open spec fn zeros(n: int) -> Seq<u8> {
    Seq::new(n as nat, |i: int| 0u8)
}

/// Zero padding that rounds a slot body out to a sector boundary.
pub open spec fn pad_of(payload_len: int) -> int {
    (4096 - ((payload_len + 5) % 4096)) % 4096
}

/// The sector-padded body of an occupied slot: the byte length of
/// discriminant plus payload, the discriminant, the payload, and zero
/// padding to a sector boundary.
pub open spec fn chunk_body(c: NbtChunk) -> Seq<u8> {
    be4((chunk_payload(c).len() + 1) as u32) + seq![discriminant_of(c.compression)]
        + chunk_payload(c) + zeros(pad_of(chunk_payload(c).len() as int))
}

/// Whether a document can be written and read back: its encoded tree
/// stays under the decoder's one-gibibyte cap and its compressed body
/// fits the 255 sectors a header record can address.
pub open spec fn chunk_fits(c: NbtChunk) -> bool {
    &&& enc_file(vof(c.inner)).len() < 0x4000_0000
    &&& chunk_payload(c).len() + 5 <= 255 * 4096
}

/// The whole sectors a document's body occupies.
pub open spec fn chunk_sectors(c: NbtChunk) -> int {
    chunk_body(c).len() as int / 4096
}

/// The character of one decimal digit.
pub open spec fn digit_char(d: u8) -> char {
    if d == 0 { '0' }
    else if d == 1 { '1' }
    else if d == 2 { '2' }
    else if d == 3 { '3' }
    else if d == 4 { '4' }
    else if d == 5 { '5' }
    else if d == 6 { '6' }
    else if d == 7 { '7' }
    else if d == 8 { '8' }
    else { '9' }
}

/// The decimal digits of a non-negative value.
pub open spec fn dec_of(n: int) -> Seq<char>
    decreases n,
{
    if n < 10 {
        seq![digit_char_of(n)]
    } else {
        dec_of(n / 10) + seq![digit_char_of(n % 10)]
    }
}

/// The character of one decimal digit, as an integer.
pub open spec fn digit_char_of(d: int) -> char {
    digit_char(if 0 <= d < 10 { d as u8 } else { 0u8 })
}

/// Appends one decimal digit to a string.
fn push_digit(out: &mut String, d: u8)
    requires
        d < 10,
    ensures
        final(out)@ == old(out)@ + seq![digit_char(d)],
{
    if d == 0 {
        proof { reveal_strlit("0"); }
        out.append("0");
    } else if d == 1 {
        proof { reveal_strlit("1"); }
        out.append("1");
    } else if d == 2 {
        proof { reveal_strlit("2"); }
        out.append("2");
    } else if d == 3 {
        proof { reveal_strlit("3"); }
        out.append("3");
    } else if d == 4 {
        proof { reveal_strlit("4"); }
        out.append("4");
    } else if d == 5 {
        proof { reveal_strlit("5"); }
        out.append("5");
    } else if d == 6 {
        proof { reveal_strlit("6"); }
        out.append("6");
    } else if d == 7 {
        proof { reveal_strlit("7"); }
        out.append("7");
    } else if d == 8 {
        proof { reveal_strlit("8"); }
        out.append("8");
    } else {
        proof { reveal_strlit("9"); }
        out.append("9");
    }
}

/// The display label of a document: its coordinates as "x, z".
pub open spec fn chunk_label(c: NbtChunk) -> Seq<char> {
    dec_of(c.x as int) + seq![',', ' '] + dec_of(c.z as int)
}

/// Appends the decimal digits of a value to a string.
pub fn push_dec(out: &mut String, x: usize)
    ensures
        final(out)@ == old(out)@ + dec_of(x as int),
    decreases x,
{
    if x < 10 {
        push_digit(out, x as u8);
        assert(out@ =~= old(out)@ + dec_of(x as int));
    } else {
        push_dec(out, x / 10);
        push_digit(out, (x % 10) as u8);
        assert(out@ =~= old(out)@ + dec_of(x as int));
    }
}

impl NbtChunk {
    /// Wraps a compound tree into a document at the given coordinates.
    pub fn from_compound(compound: NbtCompound, pos: (u8, u8), compression: FileFormat,
        last_modified: u32) -> (r: Self)
        ensures
            r.inner == NbtElement::Compound(compound),
            r.x == pos.0,
            r.z == pos.1,
            r.compression == compression,
            r.last_modified == last_modified,
    {
        NbtChunk { inner: NbtElement::Compound(compound), last_modified, compression, x: pos.0,
            z: pos.1 }
    }

    /// Rows this document currently occupies.
    pub fn height(&self) -> (r: usize)
        requires
            inv(self.inner),
        ensures
            r == height_of(self.inner),
    {
        self.inner.height()
    }

    /// Rows this document would occupy fully expanded.
    pub fn true_height(&self) -> (r: usize)
        requires
            inv(self.inner),
        ensures
            r == theight_of(self.inner),
    {
        self.inner.true_height()
    }

    /// Whether this document's root is expanded.
    pub fn open(&self) -> (r: bool)
        ensures
            r == open_of(self.inner),
    {
        self.inner.open()
    }

    /// The display label of this document: its coordinates as "x, z".
    pub fn value(&self) -> (r: String)
        ensures
            r@ == chunk_label(*self),
    {
        let mut out = String::new();
        push_dec(&mut out, self.x as usize);
        proof {
            reveal_strlit(", ");
        }
        out.append(", ");
        push_dec(&mut out, self.z as usize);
        proof {
            assert(out@ =~= chunk_label(*self));
        }
        out
    }

    /// Writes this document's sector-padded slot body: byte length,
    /// compression discriminant, compressed payload, zero padding.
    /// Nothing if the encoded tree is too large to travel (the
    /// decoder's one-gibibyte cap) or the body would overflow the 255
    /// sectors a header record can address.
    pub fn to_bytes(&self) -> (r: Option<Vec<u8>>)
        requires
            chunk_wf(*self),
            encodable(vof(self.inner)),
        ensures
            match r {
                Some(b) => chunk_fits(*self) && b@ == chunk_body(*self)
                    && b@.len() % 4096 == 0 && 1 <= chunk_sectors(*self) <= 255
                    && b@.len() == 4096 * chunk_sectors(*self)
                    && crate::envelope::envelope_decode(self.compression,
                        chunk_payload(*self)) == Some(enc_file(vof(self.inner))),
                None => !chunk_fits(*self),
            },
    {
        let file = self.inner.to_file();
        if file.len() >= 0x4000_0000 {
            return None;
        }
        let payload = self.compression.encode(file.as_slice());
        let n = payload.len();
        if n > 255 * 4096 - 5 {
            return None;
        }
        let mut body: Vec<u8> = Vec::new();
        crate::be_bytes::write_be4(&mut body, (n + 1) as u32);
        body.push(self.compression.discriminant());
        let mut i: usize = 0;
        let ghost head = be4((n + 1) as u32) + seq![discriminant_of(self.compression)];
        proof {
            assert(body@ =~= head + chunk_payload(*self).take(0));
        }
        while i < n
            invariant
                i <= n,
                n == payload@.len(),
                payload@ == chunk_payload(*self),
                body@ == head + chunk_payload(*self).take(i as int),
            decreases n - i,
        {
            body.push(payload[i]);
            proof {
                assert(chunk_payload(*self).take(i + 1)
                    =~= chunk_payload(*self).take(i as int).push(payload@[i as int]));
                assert(body@ =~= head + chunk_payload(*self).take(i + 1));
            }
            i += 1;
        }
        proof {
            assert(chunk_payload(*self).take(n as int) =~= chunk_payload(*self));
        }
        let pad = (4096 - ((n + 5) % 4096)) % 4096;
        let mut j: usize = 0;
        let ghost mid = body@;
        proof {
            assert(mid + zeros(0) =~= mid);
        }
        while j < pad
            invariant
                j <= pad,
                pad == pad_of(chunk_payload(*self).len() as int),
                body@ == mid + zeros(j as int),
            decreases pad - j,
        {
            body.push(0u8);
            proof {
                assert(zeros(j + 1) =~= zeros(j as int).push(0u8));
                assert(body@ =~= mid + zeros(j + 1));
            }
            j += 1;
        }
        proof {
            assert(body@ =~= chunk_body(*self));
            assert(body@.len() == 5 + n + pad_of(n as int));
            assert((5 + n + pad_of(n as int)) % 4096 == 0) by {
                let m = (n + 5) as int % 4096;
                assert(0 <= m < 4096);
                assert(pad_of(n as int) == (4096 - m) % 4096);
                if m == 0 {
                    assert(pad_of(n as int) == 0);
                } else {
                    assert(pad_of(n as int) == 4096 - m);
                }
            }
        }
        Some(body)
    }
}


/// The ASCII decimal digits of a non-negative value.
pub open spec fn dec_bytes_of(n: int) -> Seq<u8>
    decreases n,
{
    if n < 10 {
        seq![(n + 0x30) as u8]
    } else {
        dec_bytes_of(n / 10) + seq![(n % 10 + 0x30) as u8]
    }
}

/// Appends the ASCII decimal digits of a value to a byte vector.
pub fn push_dec_bytes(out: &mut Vec<u8>, x: usize)
    ensures
        final(out)@ == old(out)@ + dec_bytes_of(x as int),
    decreases x,
{
    if x < 10 {
        out.push((x as u8) + 0x30);
        assert(out@ =~= old(out)@ + dec_bytes_of(x as int));
    } else {
        push_dec_bytes(out, x / 10);
        out.push(((x % 10) as u8) + 0x30);
        assert(out@ =~= old(out)@ + dec_bytes_of(x as int));
    }
}

/// The ASCII decimal digits of an 8-bit value.
pub fn dec_bytes(x: u8) -> (r: Vec<u8>)
    ensures
        r@ == dec_bytes_of(x as int),
{
    let mut out: Vec<u8> = Vec::new();
    push_dec_bytes(&mut out, x as usize);
    proof {
        assert(out@ =~= dec_bytes_of(x as int));
    }
    out
}
} // verus!
