//! The window icon: an 8-fold nearest-neighbour upscale of a 16x16
//! RGBA source image to 128x128. Which source image is used — and any
//! I/O around it — is the caller's business; the scaling itself is
//! pure.

use vstd::prelude::*;

verus! {

/// The byte at flat position `j` of the upscaled image: each output
/// pixel (row `j / 512`, column `(j % 512) / 4`, channel `j % 4`)
/// copies the source pixel at one eighth of its coordinates.
pub open spec fn icon_byte(src: Seq<u8>, j: int) -> u8 {
    src[(((j / 512) / 8) * 16 + ((j % 512) / 4) / 8) * 4 + j % 4]
}

/// Upscales a 16x16 RGBA image (1024 bytes, row-major) to 128x128
/// (65536 bytes) by pixel repetition.
#[verifier::loop_isolation(false)]
#[verifier::rlimit(100)]
pub fn icon(original: &[u8]) -> (r: Vec<u8>)
    requires
        original@.len() >= 1024,
    ensures
        r@.len() == 65536,
        forall|j: int| 0 <= j < 65536 ==> #[trigger] r@[j] == icon_byte(original@, j),
{
    let mut out: Vec<u8> = Vec::new();
    let mut y: usize = 0;
    while y < 128
        invariant
            y <= 128,
            out@.len() == y * 512,
            forall|j: int| 0 <= j < out@.len()
                ==> #[trigger] out@[j] == icon_byte(original@, j),
        decreases 128 - y,
    {
        let mut x: usize = 0;
        while x < 128
            invariant
                x <= 128,
                y < 128,
                out@.len() == y * 512 + x * 4,
                forall|j: int| 0 <= j < out@.len()
                    ==> #[trigger] out@[j] == icon_byte(original@, j),
            decreases 128 - x,
        {
            let mut c: usize = 0;
            while c < 4
                invariant
                    c <= 4,
                    x < 128,
                    y < 128,
                    out@.len() == y * 512 + x * 4 + c,
                    forall|j: int| 0 <= j < out@.len()
                        ==> #[trigger] out@[j] == icon_byte(original@, j),
                decreases 4 - c,
            {
                let src_idx = ((y / 8) * 16 + x / 8) * 4 + c;
                out.push(original[src_idx]);
                proof {
                    let k = (y * 512 + x * 4 + c) as int;
                    assert(k / 512 == y && k % 512 == x * 4 + c) by (nonlinear_arith)
                        requires
                            y < 128,
                            x < 128,
                            c < 4,
                            k == y * 512 + x * 4 + c,
                    {
                    }
                    assert((x * 4 + c) / 4 == x && (x * 4 + c) % 4 == c)
                        by (nonlinear_arith)
                        requires
                            x < 128,
                            c < 4,
                    {
                    }
                    assert(k % 4 == c) by (nonlinear_arith)
                        requires
                            y < 128,
                            x < 128,
                            c < 4,
                            k == y * 512 + x * 4 + c,
                    {
                    }
                    assert(icon_byte(original@, k)
                        == original@[(((y / 8) * 16 + x / 8) * 4 + c) as int]);
                }
                c += 1;
            }
            x += 1;
        }
        y += 1;
    }
    out
}

} // verus!
