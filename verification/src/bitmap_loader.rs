//! Conversions between images and bitmaps.
//!
//! Reading and writing image files is left to the caller; this module turns
//! a decoded `image::DynamicImage` into a `Bitmap` and a `Bitmap` into an
//! RGBA image ready to be saved.
use vstd::prelude::*;
use image::{DynamicImage, GenericImageView, Pixel};
use crate::grid::{Bitmap, is_rect, shape2_fits, lemma_small_shape2_fits};

verus! {

#[verifier::external_type_specification]
#[verifier::external_body]
pub struct ExDynamicImage(image::DynamicImage);

/// `(width, height)` of an image, as `GenericImageView::dimensions` reports it.
pub uninterp spec fn image_dimensions(img: DynamicImage) -> (u32, u32);

/// The pixels of an image: `(x, y)` to the `(r, g, b, a)` channels that
/// `GenericImageView::get_pixel(x, y).to_rgba()` gives.
pub uninterp spec fn image_pixels(img: DynamicImage) -> Map<(u32, u32), (u8, u8, u8, u8)>;

/// `GenericImageView::dimensions` of a `DynamicImage`. Claims too that
/// `width * height` is at most `isize::MAX`: the image's buffer holds at
/// least one byte per pixel (`ImageBuffer::new` and `from_raw` check
/// `width * height * channels` against the buffer's length), and no buffer
/// is longer than `isize::MAX` bytes.
#[verifier::external_body]
fn dimensions_of(img: &DynamicImage) -> (r: (u32, u32))
    ensures
        r == image_dimensions(*img),
        (r.0 as int) * (r.1 as int) <= isize::MAX,
{
    img.dimensions()
}

/// `GenericImageView::get_pixel(x, y)` of a `DynamicImage`, taken to RGBA
/// with `Pixel::to_rgba`; `get_pixel` panics out of bounds, hence the `requires`.
#[verifier::external_body]
fn rgba_at(img: &DynamicImage, x: u32, y: u32) -> (r: (u8, u8, u8, u8))
    requires
        x < image_dimensions(*img).0,
        y < image_dimensions(*img).1,
    ensures
        r == image_pixels(*img)[(x, y)],
{
    let rgba = img.get_pixel(x, y).to_rgba();
    (rgba[0], rgba[1], rgba[2], rgba[3])
}

/// The four channels stored for pixel `(x, y)` in a row-major RGBA buffer of width `w`.
pub open spec fn raw_rgba(buf: Seq<u8>, w: int, x: int, y: int) -> (u8, u8, u8, u8) {
    let k = 4 * (y * w + x);
    (buf[k], buf[k + 1], buf[k + 2], buf[k + 3])
}

/// `DynamicImage::ImageRgba8(RgbaImage::from_raw(width, height, buf))`.
/// `from_raw` gives `Some` when `4 * width * height` does not overflow and is
/// at most `buf.len()`, hence the `requires`. Pixel `(x, y)` of an RGBA8
/// buffer is stored at `4 * (y * width + x)`, and `get_pixel` on the
/// `ImageRgba8` variant gives it back unchanged.
#[verifier::external_body]
fn rgba_image_from_raw(width: u32, height: u32, buf: Vec<u8>) -> (r: DynamicImage)
    requires
        buf@.len() == 4 * (width as int) * (height as int),
    ensures
        image_dimensions(r) == (width, height),
        forall|x: u32, y: u32|
            x < width && y < height ==> #[trigger] image_pixels(r)[(x, y)] == raw_rgba(
                buf@,
                width as int,
                x as int,
                y as int,
            ),
{
    DynamicImage::ImageRgba8(image::RgbaImage::from_raw(width, height, buf).unwrap())
}

/// Whether a pixel counts as set: not white (each of R, G, B above 240) and
/// not transparent (alpha below 128).
pub open spec fn pixel_is_set(p: (u8, u8, u8, u8)) -> bool {
    let is_white = p.0 > 240 && p.1 > 240 && p.2 > 240;
    let is_transparent = p.3 < 128;
    !is_white && !is_transparent
}

/// Whether `b` is the bitmap of `img`: one row per image row, one column per
/// image column, and the cell in row `y`, column `x` set exactly where pixel
/// `(x, y)` is set.
pub open spec fn is_bitmap_of_image(b: Bitmap, img: DynamicImage) -> bool {
    &&& b.rows() == image_dimensions(img).1
    &&& b.cols() == image_dimensions(img).0
    &&& forall|y: int, x: int|
        0 <= y < b.rows() && 0 <= x < b.cols() ==> #[trigger] b.cell(y, x) == pixel_is_set(
            image_pixels(img)[(x as u32, y as u32)],
        )
}

/// In the bitmap of an image, a cell is set exactly when its pixel is
/// opaque enough (alpha at least 128) and one of red, green and blue is at
/// most 240.
pub proof fn lemma_bitmap_pixel_rule(b: Bitmap, img: DynamicImage, y: int, x: int)
    requires
        is_bitmap_of_image(b, img),
        0 <= y < b.rows(),
        0 <= x < b.cols(),
    ensures
        b.cell(y, x) <==> ({
            let p = image_pixels(img)[(x as u32, y as u32)];
            p.3 >= 128 && (p.0 <= 240 || p.1 <= 240 || p.2 <= 240)
        }),
{
    assert(b.cell(y, x) == pixel_is_set(image_pixels(img)[(x as u32, y as u32)]));
}

/// Whether an image's shape passes the size check of the bitmap built from it.
pub open spec fn image_fits_bitmap_spec(img: DynamicImage) -> bool {
    shape2_fits(image_dimensions(img).1 as int, image_dimensions(img).0 as int)
}

/// Whether `bitmap_from_image` can build the bitmap of `img`: its
/// `height` by `width` shape passes `ndarray`'s size check.
pub fn image_fits_bitmap(img: &DynamicImage) -> (r: bool)
    ensures
        r == image_fits_bitmap_spec(*img),
{
    let (width, height) = dimensions_of(img);
    let h = height as usize;
    let w = width as usize;
    if h == 0 || w == 0 {
        let n = if h == 0 { w } else { h };
        n as u128 <= isize::MAX as u128
    } else {
        (h as u128) * (w as u128) <= isize::MAX as u128
    }
}

/// Convert an image to a boolean array with one row per image row: the cell
/// in row `y`, column `x` is set where pixel `(x, y)` is neither white nor transparent.
pub fn bitmap_from_image(img: &DynamicImage) -> (r: Result<Bitmap, core::convert::Infallible>)
    requires
        image_fits_bitmap_spec(*img),
    ensures
        r matches Ok(b) && is_bitmap_of_image(b, *img),
{
    let (width, height) = dimensions_of(img);

    // Create a boolean array with the same dimensions as the image
    let mut bitmap = Bitmap::new(height as usize, width as usize, false);

    let mut y: u32 = 0;
    while y < height
        invariant
            (width, height) == image_dimensions(*img),
            y <= height,
            bitmap.rows() == height,
            bitmap.cols() == width,
            is_rect(bitmap@, height as int, width as int),
            forall|yy: int, x: int|
                0 <= yy < y && 0 <= x < width ==> #[trigger] bitmap@[yy][x] == pixel_is_set(
                    image_pixels(*img)[(x as u32, yy as u32)],
                ),
            forall|yy: int, xx: int| y <= yy < height && 0 <= xx < width ==> !#[trigger] bitmap@[yy][xx],
        decreases height - y,
    {
        let mut x: u32 = 0;
        while x < width
            invariant
                (width, height) == image_dimensions(*img),
                y < height,
                x <= width,
                bitmap.rows() == height,
                bitmap.cols() == width,
                is_rect(bitmap@, height as int, width as int),
                forall|yy: int, xx: int|
                    0 <= yy < y && 0 <= xx < width ==> #[trigger] bitmap@[yy][xx] == pixel_is_set(
                        image_pixels(*img)[(xx as u32, yy as u32)],
                    ),
                forall|xx: int|
                    0 <= xx < x ==> #[trigger] bitmap@[y as int][xx] == pixel_is_set(
                        image_pixels(*img)[(xx as u32, y)],
                    ),
                forall|yy: int, xx: int|
                    (y < yy < height && 0 <= xx < width) || (yy == y && x <= xx < width)
                        ==> !#[trigger] bitmap@[yy][xx],
            decreases width - x,
        {
            let (r, g, b, a) = rgba_at(img, x, y);

            // Consider pixel as "true" if it's not white and not transparent
            let is_white = r > 240 && g > 240 && b > 240;
            let is_transparent = a < 128;

            if !is_white && !is_transparent {
                bitmap.set(y as usize, x as usize, true);
            }
            x += 1;
        }
        y += 1;
    }

    Ok(bitmap)
}

/// The pixel that a saved bitmap cell becomes: opaque black for a set cell,
/// opaque white otherwise.
pub open spec fn cell_color(value: bool) -> (u8, u8, u8, u8) {
    if value { (0, 0, 0, 255) } else { (255, 255, 255, 255) }
}

/// Whether `img` is the image of `bitmap`: `cols` pixels wide and `rows`
/// high (taken as `u32`), pixel `(x, y)` coloured after the cell in row `y`,
/// column `x`.
pub open spec fn is_image_of_bitmap(img: DynamicImage, bitmap: Bitmap) -> bool {
    &&& image_dimensions(img) == (bitmap.cols() as u32, bitmap.rows() as u32)
    &&& forall|x: u32, y: u32|
        x < bitmap.cols() && y < bitmap.rows() ==> #[trigger] image_pixels(img)[(x, y)]
            == cell_color(bitmap.cell(y as int, x as int))
}

/// Saving a bitmap as an image and reading the image back gives the same
/// bitmap: same shape, same cells.
pub proof fn lemma_image_round_trip(b: Bitmap, img: DynamicImage, c: Bitmap)
    requires
        b.wf(),
        c.wf(),
        b.rows() <= u32::MAX,
        b.cols() <= u32::MAX,
        is_image_of_bitmap(img, b),
        is_bitmap_of_image(c, img),
    ensures
        c.rows() == b.rows(),
        c.cols() == b.cols(),
        c@ == b@,
{
    assert forall|y: int, x: int| 0 <= y < b.rows() && 0 <= x < b.cols() implies #[trigger] c@[y][x] == b@[y][x] by {
        assert(image_pixels(img)[(x as u32, y as u32)] == cell_color(b.cell(y, x)));
        assert(c.cell(y, x) == pixel_is_set(image_pixels(img)[(x as u32, y as u32)]));
    }
    assert forall|y: int| 0 <= y < b.rows() implies #[trigger] c@[y] == b@[y] by {
        assert(c@[y] =~= b@[y]);
    }
    assert(c@ =~= b@);
}

/// Row-major order: a pixel of an earlier row, or earlier in the same row,
/// comes first.
proof fn lemma_row_major_before(yy: int, xx: int, y: int, x: int, w: int)
    requires
        0 <= xx < w,
        0 <= x,
        0 <= yy,
        yy < y || (yy == y && xx < x),
    ensures
        0 <= yy * w + xx < y * w + x,
{
    assert(0 <= yy * w + xx < y * w + x) by (nonlinear_arith)
        requires
            0 <= xx < w,
            0 <= x,
            0 <= yy,
            yy < y || (yy == y && xx < x),
    ;
}

/// Whether `bitmap_to_image` can build the image of `bitmap`: the image's
/// width and height are the bitmap's column and row counts taken as `u32`,
/// which must not cut a non-empty bitmap's shape, and its RGBA buffer must
/// not exceed `isize::MAX` bytes.
pub open spec fn bitmap_fits_image(bitmap: Bitmap) -> bool {
    &&& bitmap.rows() > 0 && bitmap.cols() > 0 ==> bitmap.rows() <= u32::MAX && bitmap.cols() <= u32::MAX
    &&& 4 * (bitmap.cols() as u32 as int) * (bitmap.rows() as u32 as int) <= isize::MAX
}

/// Whether `bitmap_to_image` can build the image of `bitmap`.
pub fn image_fits_of(bitmap: &Bitmap) -> (r: bool)
    ensures
        r == bitmap_fits_image(*bitmap),
{
    let (rows, cols) = bitmap.dim();
    if rows > 0 && cols > 0 && (rows > 0xffff_ffff || cols > 0xffff_ffff) {
        return false;
    }
    let w = cols as u32;
    let h = rows as u32;
    assert(4 * (w as int) * (h as int) <= 4 * 0xffff_ffff * 0xffff_ffff) by (nonlinear_arith)
        requires
            w <= 0xffff_ffff,
            h <= 0xffff_ffff,
    ;
    let bytes: u128 = 4 * (w as u128) * (h as u128);
    bytes <= isize::MAX as u128
}

/// The RGBA image of a bitmap, one pixel per cell: pixel `(x, y)` is black
/// where the cell in row `y`, column `x` is set, white elsewhere.
pub fn bitmap_to_image(bitmap: &Bitmap) -> (r: DynamicImage)
    requires
        bitmap_fits_image(*bitmap),
    ensures
        is_image_of_bitmap(r, *bitmap),
{
    let (height, width) = bitmap.dim();
    let w = width as u32;
    let h = height as u32;
    let mut buf: Vec<u8> = Vec::new();
    let mut y: u32 = 0;
    while y < h
        invariant
            (height, width) == (bitmap.rows(), bitmap.cols()),
            bitmap.wf(),
            bitmap_fits_image(*bitmap),
            w == width as u32,
            h == height as u32,
            y <= h,
            buf@.len() == 4 * (y * w),
            forall|yy: int, xx: int|
                0 <= yy < y && 0 <= xx < w ==> #[trigger] raw_rgba(buf@, w as int, xx, yy) == cell_color(
                    bitmap@[yy][xx],
                ),
        decreases h - y,
    {
        let mut x: u32 = 0;
        while x < w
            invariant
                (height, width) == (bitmap.rows(), bitmap.cols()),
                bitmap.wf(),
                bitmap_fits_image(*bitmap),
                w == width as u32,
                h == height as u32,
                y < h,
                x <= w,
                buf@.len() == 4 * (y * w + x),
                forall|yy: int, xx: int|
                    (0 <= yy < y && 0 <= xx < w) || (yy == y && 0 <= xx < x) ==> #[trigger] raw_rgba(
                        buf@,
                        w as int,
                        xx,
                        yy,
                    ) == cell_color(bitmap@[yy][xx]),
            decreases w - x,
        {
            let ghost before = buf@;
            let value = bitmap.get(y as usize, x as usize);
            let pixel: (u8, u8, u8, u8) = if value {
                (0, 0, 0, 255) // Black for true
            } else {
                (255, 255, 255, 255) // White for false
            };
            buf.push(pixel.0);
            buf.push(pixel.1);
            buf.push(pixel.2);
            buf.push(pixel.3);
            proof {
                assert forall|yy: int, xx: int|
                    (0 <= yy < y && 0 <= xx < w) || (yy == y && 0 <= xx < x + 1) implies #[trigger] raw_rgba(
                        buf@,
                        w as int,
                        xx,
                        yy,
                    ) == cell_color(bitmap@[yy][xx]) by {
                    if yy == y && xx == x {
                    } else {
                        lemma_row_major_before(yy, xx, y as int, x as int, w as int);
                        assert(raw_rgba(buf@, w as int, xx, yy) == raw_rgba(before, w as int, xx, yy));
                    }
                }
            }
            x += 1;
        }
        assert(y * w + w == (y + 1) * w) by (nonlinear_arith);
        y += 1;
    }
    assert(4 * (h * w) == 4 * (w as int) * (h as int)) by (nonlinear_arith);
    rgba_image_from_raw(w, h, buf)
}

/// Whether two strings hold the same characters.
fn same_text(a: &str, b: &str) -> (r: bool)
    ensures
        r == (a@ == b@),
{
    let n = a.unicode_len();
    if n != b.unicode_len() {
        return false;
    }
    let mut i: usize = 0;
    while i < n
        invariant
            n == a@.len(),
            n == b@.len(),
            i <= n,
            forall|k: int| 0 <= k < i ==> a@[k] == b@[k],
        decreases n - i,
    {
        if a.get_char(i) != b.get_char(i) {
            return false;
        }
        i += 1;
    }
    assert(a@ =~= b@);
    true
}

/// The file extensions that the directory loader reads as images.
pub open spec fn is_supported_extension_spec(ext: Seq<char>) -> bool {
    ext == "bmp"@ || ext == "png"@ || ext == "jpg"@ || ext == "jpeg"@
}

/// Whether a file with this extension is loaded as a bitmap: `bmp`, `png`,
/// `jpg` or `jpeg`, compared exactly (case matters).
pub fn is_supported_extension(extension: &str) -> (r: bool)
    ensures
        r == is_supported_extension_spec(extension@),
{
    same_text(extension, "bmp") || same_text(extension, "png") || same_text(extension, "jpg")
        || same_text(extension, "jpeg")
}

/// The plus-shaped three by three pattern.
pub open spec fn cross_pattern() -> Seq<Seq<bool>> {
    seq![seq![false, true, false], seq![true, true, true], seq![false, true, false]]
}

/// Create a simple test bitmap for debugging
pub fn create_test_bitmap() -> (r: Bitmap)
    ensures
        r.rows() == 3,
        r.cols() == 3,
        r@ == cross_pattern(),
{
    let rows = vec![vec![false, true, false], vec![true, true, true], vec![false, true, false]];
    assert(rows@.len() == 3);
    assert(rows@[0]@.len() == 3);
    proof {
        lemma_small_shape2_fits(3, 3);
    }
    let r = Bitmap::from_rows(&rows);
    assert(r@ =~~= cross_pattern());
    r
}

} // verus!
