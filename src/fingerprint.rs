use vstd::prelude::*;

use crate::letterbox::RawImage;

verus! {

/// Relies on image_hasher's Hasher::hash_image and ImageHash::as_bytes, with
/// the gradient algorithm at hash size 8 × 8. Nothing is stated of the bytes:
/// the hasher resamples through floating-point functions whose precision may
/// vary between platforms.
#[verifier::external_body]
fn gradient_hash_bytes(image: &RawImage) -> (r: Vec<u8>)
    requires
        image.well_formed(),
{
    let buf = image::RgbImage::from_raw(image.width, image.height, image.pixels.clone()).unwrap();
    let hasher = image_hasher::HasherConfig::new().hash_alg(image_hasher::HashAlg::Gradient)
        .hash_size(8, 8).to_hasher();
    hasher.hash_image(&image::DynamicImage::ImageRgb8(buf)).as_bytes().to_vec()
}

pub open spec fn pow256(k: nat) -> nat
    decreases k,
{
    if k == 0 {
        1
    } else {
        256 * pow256((k - 1) as nat)
    }
}

/// Byte `k` of `bytes`, or zero past its end.
pub open spec fn padded_byte(bytes: Seq<u8>, k: int) -> nat {
    if 0 <= k < bytes.len() {
        bytes[k] as nat
    } else {
        0
    }
}

/// The first `k` bytes of `bytes`, zero-padded, read as a big-endian number.
pub open spec fn big_endian_prefix(bytes: Seq<u8>, k: nat) -> nat
    decreases k,
{
    if k == 0 {
        0
    } else {
        big_endian_prefix(bytes, (k - 1) as nat) * 256 + padded_byte(bytes, k - 1)
    }
}

/// The first eight bytes of `bytes`, zero-padded, as a big-endian `u64`.
pub fn u64_from_be_prefix(bytes: &Vec<u8>) -> (r: u64)
    ensures
        r as nat == big_endian_prefix(bytes@, 8),
{
    let mut acc: u64 = 0;
    let mut k: usize = 0;
    proof {
        reveal_with_fuel(pow256, 9);
    }
    while k < 8
        invariant
            k <= 8,
            acc as nat == big_endian_prefix(bytes@, k as nat),
            (acc as nat) < pow256(k as nat),
            pow256(k as nat) <= pow256(7) * 256,
        decreases 8 - k,
    {
        let b: u8 = if k < bytes.len() {
            bytes[k]
        } else {
            0
        };
        proof {
            reveal_with_fuel(pow256, 9);
            assert(pow256(7) * 256 == 0x1_0000_0000_0000_0000nat);
            assert((acc as nat) * 256 + (b as nat) < pow256(k as nat) * 256) by (nonlinear_arith)
                requires
                    (acc as nat) < pow256(k as nat),
                    b < 256,
            ;
            if k < 7 {
                assert(pow256((k + 1) as nat) <= pow256(7) * 256) by {
                    reveal_with_fuel(pow256, 9);
                }
            }
        }
        acc = acc * 256 + b as u64;
        k = k + 1;
    }
    acc
}

/// Perceptual fingerprints of images: similar images get numbers that differ
/// in few bits.
pub struct Fingerprint {}

impl Default for Fingerprint {
    fn default() -> (r: Fingerprint)
        ensures
            r == (Fingerprint {  }),
    {
        Fingerprint::new()
    }
}

impl Fingerprint {
    pub fn new() -> (r: Fingerprint)
        ensures
            r == (Fingerprint {  }),
    {
        Fingerprint {  }
    }

    /// The image's gradient hash, its first eight bytes (zero-padded) read as
    /// a big-endian number by `u64_from_be_prefix`. The hash itself comes from
    /// `image_hasher` and is not stated.
    pub fn fingerprint(&self, image: &RawImage) -> u64
        requires
            image.well_formed(),
    {
        let hash = gradient_hash_bytes(image);
        u64_from_be_prefix(&hash)
    }
}

} // verus!
