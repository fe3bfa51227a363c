use vstd::prelude::*;
use vstd::arithmetic::div_mod::{lemma_fundamental_div_mod, lemma_fundamental_div_mod_converse};

verus! {

/// Side of the square canvas the scorer reads.
pub const CANVAS_SIZE: u32 = 512;

/// Value of every byte of the letterbox bars (white).
pub const BACKGROUND: u8 = 255;

/// A decoded image: `width × height` pixels, row by row, three bytes
/// (red, green, blue) per pixel.
#[derive(Debug)]
pub struct RawImage {
    pub width: u32,
    pub height: u32,
    pub pixels: Vec<u8>,
}

impl RawImage {
    pub open spec fn well_formed(&self) -> bool {
        self.pixels@.len() == self.width as nat * self.height as nat * 3
    }
}

/// The size of the thumbnail: the longer side becomes `size`, the other one is
/// scaled by the same factor and rounded down.
pub open spec fn fitted_size(width: nat, height: nat, size: nat) -> (nat, nat) {
    if width >= height {
        (size, size * height / width)
    } else {
        (size * width / height, size)
    }
}

/// A canvas of `size × size` pixels in the background colour.
pub open spec fn blank_canvas(size: nat) -> Seq<u8> {
    Seq::new(size * size * 3, |i: int| BACKGROUND)
}

/// Column of byte `i` in an RGB image `width` pixels wide.
pub open spec fn column_of(i: int, width: nat) -> int {
    (i / 3) % (width as int)
}

/// Row of byte `i` in an RGB image `width` pixels wide.
pub open spec fn row_of(i: int, width: nat) -> int {
    (i / 3) / (width as int)
}

/// `base` (`base_width` pixels wide) with the pixels of `top` copied over it,
/// the top-left pixel of `top` at column `x`, row `y`.
pub open spec fn overlaid(
    base: Seq<u8>,
    base_width: nat,
    top: Seq<u8>,
    top_width: nat,
    top_height: nat,
    x: nat,
    y: nat,
) -> Seq<u8> {
    Seq::new(
        base.len(),
        |i: int|
            {
                let px = column_of(i, base_width);
                let py = row_of(i, base_width);
                if x <= px < x + top_width && y <= py < y + top_height {
                    top[((py - y) * top_width + (px - x)) * 3 + i % 3]
                } else {
                    base[i]
                }
            },
    )
}

/// The canvas made from `thumb`, a thumbnail of the fitted size for an image
/// of `width × height`: centred on a blank `size × size` canvas, the odd pixel
/// of padding on the trailing side.
pub open spec fn letterboxed(thumb: Seq<u8>, width: u32, height: u32, size: u32) -> Seq<u8> {
    let (w, h) = fitted_size(width as nat, height as nat, size as nat);
    overlaid(
        blank_canvas(size as nat),
        size as nat,
        thumb,
        w,
        h,
        ((size - w) / 2) as nat,
        ((size - h) / 2) as nat,
    )
}

/// `thumb` has the byte count of a thumbnail of the fitted size.
pub open spec fn is_fitted_thumbnail(thumb: Seq<u8>, width: u32, height: u32, size: u32) -> bool {
    let (w, h) = fitted_size(width as nat, height as nat, size as nat);
    thumb.len() == w * h * 3
}

/// `canvas` is the letterbox of an image of `width × height`: some resampled
/// thumbnail of the fitted size, centred on a blank canvas.
pub open spec fn is_letterbox_of(canvas: Seq<u8>, width: u32, height: u32, size: u32) -> bool {
    exists|thumb: Seq<u8>|
        is_fitted_thumbnail(thumb, width, height, size) && canvas == letterboxed(
            thumb,
            width,
            height,
            size,
        )
}

/// Relies on image::imageops::resize with FilterType::Gaussian on an RGB
/// buffer: the result has exactly the requested size. Its bytes are not
/// stated: the kernel goes through floating-point functions whose precision
/// may vary between platforms.
#[verifier::external_body]
fn resize_gaussian(image: &RawImage, new_width: u32, new_height: u32) -> (r: Vec<u8>)
    requires
        image.well_formed(),
    ensures
        r@.len() == new_width as nat * new_height as nat * 3,
{
    let buf = image::RgbImage::from_raw(image.width, image.height, image.pixels.clone()).unwrap();
    image::imageops::resize(&buf, new_width, new_height, image::imageops::FilterType::Gaussian)
        .into_raw()
}

/// Relies on image::imageops::overlay on RGB buffers: RGB pixels have no
/// alpha, so each pixel of `top` replaces the pixel of `base` under it.
#[verifier::external_body]
fn overlay_rgb(
    base: Vec<u8>,
    base_width: u32,
    base_height: u32,
    top: &Vec<u8>,
    top_width: u32,
    top_height: u32,
    x: u32,
    y: u32,
) -> (r: Vec<u8>)
    requires
        base@.len() == base_width as nat * base_height as nat * 3,
        top@.len() == top_width as nat * top_height as nat * 3,
        x + top_width <= base_width,
        y + top_height <= base_height,
    ensures
        r@ == overlaid(
            base@,
            base_width as nat,
            top@,
            top_width as nat,
            top_height as nat,
            x as nat,
            y as nat,
        ),
{
    let mut canvas = image::RgbImage::from_raw(base_width, base_height, base).unwrap();
    let thumb = image::RgbImage::from_raw(top_width, top_height, top.clone()).unwrap();
    image::imageops::overlay(&mut canvas, &thumb, x as i64, y as i64);
    canvas.into_raw()
}

/// The thumbnail size for an image of `width × height` on a canvas of side `size`.
pub fn fitted_dimensions(width: u32, height: u32, size: u32) -> (r: (u32, u32))
    requires
        width > 0,
        height > 0,
    ensures
        (r.0 as nat, r.1 as nat) == fitted_size(width as nat, height as nat, size as nat),
        r.0 <= size,
        r.1 <= size,
{
    if width >= height {
        assert(size as u64 * height as u64 <= u64::MAX) by (nonlinear_arith)
            requires
                size <= u32::MAX,
                height <= u32::MAX,
        ;
        let scaled = (size as u64) * (height as u64);
        proof {
            assert(scaled / (width as u64) <= size) by (nonlinear_arith)
                requires
                    scaled == size as u64 * height as u64,
                    height <= width,
                    width > 0,
            ;
        }
        (size, (scaled / (width as u64)) as u32)
    } else {
        assert(size as u64 * width as u64 <= u64::MAX) by (nonlinear_arith)
            requires
                size <= u32::MAX,
                width <= u32::MAX,
        ;
        let scaled = (size as u64) * (width as u64);
        proof {
            assert(scaled / (height as u64) <= size) by (nonlinear_arith)
                requires
                    scaled == size as u64 * width as u64,
                    width < height,
                    height > 0,
            ;
        }
        ((scaled / (height as u64)) as u32, size)
    }
}

/// A blank canvas of `size × size` pixels.
pub fn blank(size: u32) -> (r: Vec<u8>)
    requires
        size as nat * size as nat * 3 <= usize::MAX,
    ensures
        r@ == blank_canvas(size as nat),
{
    let n: usize = (size as usize) * (size as usize) * 3;
    let mut r: Vec<u8> = Vec::new();
    while r.len() < n
        invariant
            r@.len() <= n,
            n == size as nat * size as nat * 3,
            forall|i: int| 0 <= i < r@.len() ==> r@[i] == BACKGROUND,
        decreases n - r@.len(),
    {
        r.push(BACKGROUND);
    }
    assert(r@ =~= blank_canvas(size as nat));
    r
}

/// Centres `thumb`, the resampled thumbnail of an image of `width × height`,
/// on a white `size × size` canvas.
pub fn place_thumbnail(thumb: &Vec<u8>, width: u32, height: u32, size: u32) -> (r: RawImage)
    requires
        width > 0,
        height > 0,
        size as nat * size as nat * 3 <= usize::MAX,
        is_fitted_thumbnail(thumb@, width, height, size),
    ensures
        r.width == size,
        r.height == size,
        r.well_formed(),
        r.pixels@ == letterboxed(thumb@, width, height, size),
{
    let (w, h) = fitted_dimensions(width, height, size);
    let canvas = blank(size);
    let pixels = overlay_rgb(canvas, size, size, thumb, w, h, (size - w) / 2, (size - h) / 2);
    RawImage { width: size, height: size, pixels }
}

/// Resizes `image` so that its longer side is `size`, keeping its aspect
/// ratio, and centres it on a white `size × size` canvas. The resampled
/// bytes come from `image` and are not stated; the placement is, by
/// `place_thumbnail`.
pub fn letterbox(image: &RawImage, size: u32) -> (r: RawImage)
    requires
        image.well_formed(),
        image.width > 0,
        image.height > 0,
        size as nat * size as nat * 3 <= usize::MAX,
    ensures
        r.width == size,
        r.height == size,
        r.well_formed(),
        is_letterbox_of(r.pixels@, image.width, image.height, size),
{
    let (w, h) = fitted_dimensions(image.width, image.height, size);
    let thumbnail = resize_gaussian(image, w, h);
    assert(is_fitted_thumbnail(thumbnail@, image.width, image.height, size));
    place_thumbnail(&thumbnail, image.width, image.height, size)
}

/// Byte `i` of an RGB image `width` pixels wide lies at its column and row.
pub proof fn lemma_byte_position(i: int, width: nat)
    requires
        0 <= i,
        width > 0,
    ensures
        i == (row_of(i, width) * width + column_of(i, width)) * 3 + i % 3,
        0 <= column_of(i, width) < width,
        0 <= i % 3 < 3,
{
    lemma_fundamental_div_mod(i, 3);
    lemma_fundamental_div_mod(i / 3, width as int);
    assert(row_of(i, width) * width == width * row_of(i, width)) by (nonlinear_arith);
}

/// A square image fills the whole canvas: no byte of the result is padding,
/// each is the byte at the same place in the resampled thumbnail.
pub proof fn lemma_square_has_no_padding(thumb: Seq<u8>, side: u32, size: u32)
    requires
        side > 0,
        size > 0,
        is_fitted_thumbnail(thumb, side, side, size),
    ensures
        fitted_size(side as nat, side as nat, size as nat) == (size as nat, size as nat),
        letterboxed(thumb, side, side, size) == thumb,
{
    assert(size as nat * side as nat / side as nat == size as nat) by {
        lemma_fundamental_div_mod_converse(size * side, side as int, size as int, 0);
    }
    let s = size as nat;
    let canvas = letterboxed(thumb, side, side, size);
    assert forall|i: int| 0 <= i < size * size * 3 implies #[trigger] canvas[i] == thumb[i] by {
        lemma_byte_position(i, s);
        assert(row_of(i, s) < s) by {
            if row_of(i, s) >= s {
                assert(row_of(i, s) * s >= s * s) by (nonlinear_arith)
                    requires
                        row_of(i, s) >= s,
                ;
            }
        }
    }
    assert(canvas =~= thumb);
}

/// A wide image gets white bands above and below it: every byte in a row
/// above the thumbnail, or below it, is background. The bands are
/// `(size - h) / 2` rows and the rest, `h` the thumbnail's height.
pub proof fn lemma_wide_image_bands(thumb: Seq<u8>, width: u32, height: u32, size: u32)
    requires
        width > height > 0,
        size > 0,
    ensures
        ({
            let h = size as nat * height as nat / width as nat;
            &&& fitted_size(width as nat, height as nat, size as nat) == (size as nat, h as nat)
            &&& forall|i: int|
                0 <= i < size * size * 3 && (row_of(i, size as nat) < (size - h) / 2
                    || row_of(i, size as nat) >= (size - h) / 2 + h) ==> #[trigger] letterboxed(
                    thumb,
                    width,
                    height,
                    size,
                )[i] == BACKGROUND
        }),
{
    let h = size as nat * height as nat / width as nat;
    assert(h <= size) by {
        assert(size as nat * height as nat <= size as nat * width as nat) by (nonlinear_arith)
            requires
                height < width,
        ;
        lemma_fundamental_div_mod_converse(size * width, width as int, size as int, 0);
        vstd::arithmetic::div_mod::lemma_div_is_ordered(
            size * height,
            size * width,
            width as int,
        );
    }
    assert forall|i: int|
        0 <= i < size * size * 3 && (row_of(i, size as nat) < (size - h) / 2 || row_of(
            i,
            size as nat,
        ) >= (size - h) / 2 + h) implies #[trigger] letterboxed(thumb, width, height, size)[i]
        == BACKGROUND by {
        assert(blank_canvas(size as nat)[i] == BACKGROUND);
    }
}

/// A tall image gets white bands left and right of it: every byte in a
/// column left of the thumbnail, or right of it, is background.
pub proof fn lemma_tall_image_bands(thumb: Seq<u8>, width: u32, height: u32, size: u32)
    requires
        height > width > 0,
        size > 0,
    ensures
        ({
            let w = size as nat * width as nat / height as nat;
            &&& fitted_size(width as nat, height as nat, size as nat) == (w as nat, size as nat)
            &&& forall|i: int|
                0 <= i < size * size * 3 && (column_of(i, size as nat) < (size - w) / 2
                    || column_of(i, size as nat) >= (size - w) / 2 + w) ==> #[trigger] letterboxed(
                    thumb,
                    width,
                    height,
                    size,
                )[i] == BACKGROUND
        }),
{
    let w = size as nat * width as nat / height as nat;
    assert forall|i: int|
        0 <= i < size * size * 3 && (column_of(i, size as nat) < (size - w) / 2 || column_of(
            i,
            size as nat,
        ) >= (size - w) / 2 + w) implies #[trigger] letterboxed(thumb, width, height, size)[i]
        == BACKGROUND by {
        assert(blank_canvas(size as nat)[i] == BACKGROUND);
    }
}

} // verus!
