//! Image decoding, center-cropping, and resizing into a fixed `PixelGrid`.
//! Pure data in (bytes, options), pure data out (grid).
//!
//! Decoding and resampling are done by the `image` crate; cropping and all
//! guards are this module's own. Images are held as [`RgbImage`], a plain
//! row-major RGB8 buffer.

use vstd::prelude::*;
use crate::error::BeadError;
use crate::geom::{lemma_row_major_lt, lemma_row_major_injective, lemma_next_row};
use crate::models::PixelGrid;
use ::image::imageops::FilterType as ImgFilter;
use ::image::{ImageBuffer, RgbImage as ImgRgb};

verus! {

/// A row-major 8-bit RGB image: `pixels[y * width + x]` is the pixel at
/// `(x, y)`. Well-formed when `pixels.len() == width * height`.
#[derive(Debug, Clone, PartialEq)]
pub struct RgbImage {
    pub width: u32,
    pub height: u32,
    pub pixels: Vec<[u8; 3]>,
}

impl RgbImage {
    /// One pixel per position.
    pub open spec fn wf(&self) -> bool {
        self.pixels@.len() == self.width as int * self.height as int
    }

    /// The pixel at `(x, y)`.
    pub open spec fn pixel(&self, x: int, y: int) -> [u8; 3] {
        self.pixels@[y * self.width as int + x]
    }

    /// An image of the given size filled with `color`.
    pub fn from_pixel(width: u32, height: u32, color: [u8; 3]) -> (img: RgbImage)
        requires
            width as int * height as int <= usize::MAX,
        ensures
            img.wf(),
            img.width == width,
            img.height == height,
            forall|i: int| 0 <= i < img.pixels@.len() ==> #[trigger] img.pixels@[i] == color,
    {
        let n = width as usize * height as usize;
        let pixels = vec![color; n];
        RgbImage { width, height, pixels }
    }

    /// A black image of the given size.
    pub fn new(width: u32, height: u32) -> (img: RgbImage)
        requires
            width as int * height as int <= usize::MAX,
        ensures
            img.wf(),
            img.width == width,
            img.height == height,
            forall|i: int| 0 <= i < img.pixels@.len() ==> #[trigger] img.pixels@[i] == [0u8, 0, 0],
    {
        RgbImage::from_pixel(width, height, [0, 0, 0])
    }

    /// Width in pixels.
    pub fn width(&self) -> (w: u32)
        ensures
            w == self.width,
    {
        self.width
    }

    /// Height in pixels.
    pub fn height(&self) -> (h: u32)
        ensures
            h == self.height,
    {
        self.height
    }

    /// The pixel at `(x, y)`.
    pub fn get_pixel(&self, x: u32, y: u32) -> (p: [u8; 3])
        requires
            self.wf(),
            x < self.width,
            y < self.height,
        ensures
            p == self.pixel(x as int, y as int),
    {
        let len = self.pixels.len();
        proof {
            lemma_row_major_lt(self.width as int, x as int, y as int, self.height as int);
        }
        self.pixels[y as usize * self.width as usize + x as usize]
    }

    /// Set the pixel at `(x, y)`.
    pub fn put_pixel(&mut self, x: u32, y: u32, color: [u8; 3])
        requires
            old(self).wf(),
            x < old(self).width,
            y < old(self).height,
        ensures
            final(self).wf(),
            final(self).width == old(self).width,
            final(self).height == old(self).height,
            final(self).pixels@ == old(self).pixels@.update(y * old(self).width + x, color),
    {
        let len = self.pixels.len();
        proof {
            lemma_row_major_lt(self.width as int, x as int, y as int, self.height as int);
        }
        let i = y as usize * self.width as usize + x as usize;
        self.pixels.set(i, color);
    }
}

} // verus!

verus! {

/// The sub-rectangle `[x0, x0 + w) × [y0, y0 + h)` of `src`, as a new image.
fn copy_rect(src: &RgbImage, x0: u32, y0: u32, w: u32, h: u32) -> (out: RgbImage)
    requires
        src.wf(),
        x0 as int + w as int <= src.width as int,
        y0 as int + h as int <= src.height as int,
    ensures
        out.wf(),
        out.width == w,
        out.height == h,
        forall|x: int, y: int| 0 <= x < w && 0 <= y < h
            ==> #[trigger] out.pixel(x, y) == src.pixel(x0 + x, y0 + y),
{
    let sw = src.width;
    let ghost swi = sw as int;
    let srclen = src.pixels.len();
    proof {
        assert(w as int * h as int <= src.width as int * src.height as int) by (nonlinear_arith)
            requires w as int <= src.width as int, h as int <= src.height as int;
    }
    let mut pixels: Vec<[u8; 3]> = Vec::with_capacity(w as usize * h as usize);
    let mut y: u32 = 0;
    while y < h
        invariant
            src.wf(),
            sw == src.width,
            swi == sw as int,
            srclen == src.pixels@.len(),
            x0 as int + w as int <= sw as int,
            y0 as int + h as int <= src.height as int,
            0 <= y <= h,
            pixels@.len() == y as int * w as int,
            forall|xx: int, yy: int| 0 <= xx < w && 0 <= yy < y
                ==> #[trigger] pixels@[yy * w as int + xx] == src.pixel(x0 + xx, y0 + yy),
        decreases h - y,
    {
        let mut x: u32 = 0;
        while x < w
            invariant
                src.wf(),
                sw == src.width,
                srclen == src.pixels@.len(),
                x0 as int + w as int <= sw as int,
                y0 as int + h as int <= src.height as int,
                0 <= y < h,
                0 <= x <= w,
                pixels@.len() == y as int * w as int + x,
                forall|xx: int, yy: int| 0 <= xx < w && 0 <= yy < y
                    ==> #[trigger] pixels@[yy * w as int + xx] == src.pixel(x0 + xx, y0 + yy),
                forall|xx: int| 0 <= xx < x
                    ==> #[trigger] pixels@[y as int * w as int + xx] == src.pixel(x0 + xx, y0 + y),
            decreases w - x,
        {
            proof {
                lemma_row_major_lt(sw as int, (x0 + x) as int, (y0 + y) as int, src.height as int);
            }
            let p = src.pixels[(y0 + y) as usize * sw as usize + (x0 + x) as usize];
            let ghost before = pixels@;
            pixels.push(p);
            proof {
                assert forall|xx: int, yy: int| 0 <= xx < w && 0 <= yy < y
                    implies #[trigger] pixels@[yy * w as int + xx] == src.pixel(x0 + xx, y0 + yy) by {
                    lemma_row_major_lt(w as int, xx, yy, y as int);
                    assert(pixels@[yy * w as int + xx] == before[yy * w as int + xx]);
                }
                assert forall|xx: int| 0 <= xx < x + 1
                    implies #[trigger] pixels@[y as int * w as int + xx] == src.pixel(x0 + xx, y0 + y) by {
                    if xx < x {
                        assert(pixels@[y as int * w as int + xx] == before[y as int * w as int + xx]);
                    }
                }
            }
            x += 1;
        }
        proof {
            lemma_next_row(w as int, y as int);
            assert forall|xx: int, yy: int| 0 <= xx < w && 0 <= yy < y + 1
                implies #[trigger] pixels@[yy * w as int + xx] == src.pixel(x0 + xx, y0 + yy) by {
                if yy == y {
                } else {
                }
            }
        }
        y += 1;
    }
    let out = RgbImage { width: w, height: h, pixels };
    assert forall|x: int, y: int| 0 <= x < w && 0 <= y < h
        implies #[trigger] out.pixel(x, y) == src.pixel(x0 + x, y0 + y) by {
        assert(out.pixel(x, y) == out.pixels@[y * w as int + x]);
    }
    proof {
        assert(h as int * w as int == w as int * h as int) by (nonlinear_arith);
    }
    out
}

/// Crop size `(width, height)` for a `sw × sh` source and a `tw : th`
/// target: the whole source when the ratios are exactly equal, otherwise the
/// largest sub-rectangle of ratio `tw : th` (floored), limited by the height
/// when the source is wider than the target and by the width otherwise.
pub open spec fn crop_size(sw: int, sh: int, tw: int, th: int) -> (int, int) {
    if sw * th == sh * tw {
        (sw, sh)
    } else if sw * th > sh * tw {
        (sh * tw / th, sh)
    } else {
        (sw, sw * th / tw)
    }
}

/// Why `crop_center` rejects a `sw × sh` source and a `tw : th` target, if it
/// does; guards are checked in this order.
pub open spec fn crop_failure(sw: int, sh: int, tw: int, th: int) -> Option<Seq<char>> {
    if tw == 0 {
        Some("crop target width is 0"@)
    } else if th == 0 {
        Some("crop target height is 0"@)
    } else if sw == 0 {
        Some("source width is 0"@)
    } else if sh == 0 {
        Some("source height is 0"@)
    } else if crop_size(sw, sh, tw, th).0 == 0 {
        Some("computed crop width floored to 0"@)
    } else if crop_size(sw, sh, tw, th).1 == 0 {
        Some("computed crop height floored to 0"@)
    } else {
        None
    }
}

proof fn lemma_div_below(a: int, b: int, c: int)
    requires
        0 <= a < b * c,
        c > 0,
    ensures
        0 <= a / c < b,
{
    vstd::arithmetic::div_mod::lemma_fundamental_div_mod(a, c);
    vstd::arithmetic::div_mod::lemma_div_pos_is_pos(a, c);
    assert(c * (a / c) <= a) by (nonlinear_arith)
        requires a % c >= 0, a == c * (a / c) + a % c;
    assert(a / c < b) by (nonlinear_arith)
        requires c * (a / c) < b * c, c > 0;
}

/// `out` is the centered `crop_size` sub-rectangle of `src` for the target
/// `tw : th`, offsets floored.
pub open spec fn is_center_crop(src: &RgbImage, tw: u32, th: u32, out: &RgbImage) -> bool {
    let (cw, ch) = crop_size(src.width as int, src.height as int, tw as int, th as int);
    let x0 = (src.width - cw) / 2;
    let y0 = (src.height - ch) / 2;
    &&& out.wf()
    &&& out.width == cw
    &&& out.height == ch
    &&& forall|x: int, y: int| 0 <= x < cw && 0 <= y < ch
        ==> #[trigger] out.pixel(x, y) == src.pixel(x0 + x, y0 + y)
}

/// An accepted crop keeps at least one pixel on each axis.
proof fn lemma_crop_size_positive(sw: int, sh: int, tw: int, th: int)
    requires
        sw >= 0,
        sh >= 0,
        tw >= 0,
        th >= 0,
        crop_failure(sw, sh, tw, th) is None,
    ensures
        crop_size(sw, sh, tw, th).0 > 0,
        crop_size(sw, sh, tw, th).1 > 0,
{
    if sw * th == sh * tw {
    } else if sw * th > sh * tw {
        assert(sh * tw / th >= 0) by (nonlinear_arith)
            requires sh >= 0, tw >= 0, th > 0;
    } else {
        assert(sw * th / tw >= 0) by (nonlinear_arith)
            requires sw >= 0, th >= 0, tw > 0;
    }
}

/// A source whose aspect ratio already equals the target's is kept whole:
/// its center crop is the image itself.
pub proof fn lemma_crop_exact_ratio_keeps_image(src: &RgbImage, tw: u32, th: u32, out: &RgbImage)
    requires
        src.wf(),
        is_center_crop(src, tw, th, out),
        src.width as int * th as int == src.height as int * tw as int,
    ensures
        out.width == src.width,
        out.height == src.height,
        out.pixels@ == src.pixels@,
{
    let w = src.width as int;
    let h = src.height as int;
    assert forall|i: int| 0 <= i < out.pixels@.len() implies out.pixels@[i] == src.pixels@[i] by {
        let x = i % w;
        let y = i / w;
        vstd::arithmetic::div_mod::lemma_fundamental_div_mod(i, w);
        vstd::arithmetic::div_mod::lemma_mod_pos_bound(i, w);
        assert(i == y * w + x) by (nonlinear_arith)
            requires
                i == w * (i / w) + i % w,
                x == i % w,
                y == i / w,
        ;
        assert(0 <= y < h) by (nonlinear_arith)
            requires
                i == y * w + x,
                0 <= x < w,
                0 <= i < w * h,
        ;
        assert(out.pixel(x, y) == src.pixel(x, y));
    }
    assert(out.pixels@ =~= src.pixels@);
}

/// The crop size of a `sw × sh` source for the target ratio `tw : th`,
/// computed by 64-bit cross-multiplication.
pub fn crop_dims(sw: u32, sh: u32, tw: u32, th: u32) -> (r: (u64, u64))
    requires
        tw > 0,
        th > 0,
    ensures
        r.0 as int == crop_size(sw as int, sh as int, tw as int, th as int).0,
        r.1 as int == crop_size(sw as int, sh as int, tw as int, th as int).1,
{
    let sw64 = sw as u64;
    let sh64 = sh as u64;
    let tw64 = tw as u64;
    let th64 = th as u64;
    proof {
        assert(sw64 as int * th64 as int <= 0xffff_ffff * 0xffff_ffff) by (nonlinear_arith)
            requires sw64 <= 0xffff_ffff, th64 <= 0xffff_ffff;
        assert(sh64 as int * tw64 as int <= 0xffff_ffff * 0xffff_ffff) by (nonlinear_arith)
            requires sh64 <= 0xffff_ffff, tw64 <= 0xffff_ffff;
    }
    let src_ratio = sw64 * th64;
    let tgt_ratio = sh64 * tw64;
    if src_ratio == tgt_ratio {
        (sw64, sh64)
    } else if src_ratio > tgt_ratio {
        (sh64 * tw64 / th64, sh64)
    } else {
        (sw64, sw64 * th64 / tw64)
    }
}

/// A center crop is centered: the columns dropped left and right of it, and
/// the rows dropped above and below it, differ in number by at most one (the
/// odd one goes right and below), and each kept pixel is the source pixel
/// shifted by the left and top drop.
pub proof fn lemma_center_crop_balanced(src: &RgbImage, tw: u32, th: u32, out: &RgbImage)
    requires
        src.wf(),
        crop_failure(src.width as int, src.height as int, tw as int, th as int) is None,
        is_center_crop(src, tw, th, out),
    ensures
        out.width <= src.width,
        out.height <= src.height,
        ({
            let left = (src.width - out.width) / 2;
            let right = src.width - out.width - left;
            let top = (src.height - out.height) / 2;
            let bottom = src.height - out.height - top;
            &&& 0 <= right - left <= 1
            &&& 0 <= bottom - top <= 1
            &&& forall|x: int, y: int| 0 <= x < out.width && 0 <= y < out.height
                ==> #[trigger] out.pixel(x, y) == src.pixel(left + x, top + y)
        }),
{
    lemma_crop_size_within(src.width as int, src.height as int, tw as int, th as int);
}

/// A crop never exceeds its source.
proof fn lemma_crop_size_within(sw: int, sh: int, tw: int, th: int)
    requires
        sw >= 0,
        sh >= 0,
        tw > 0,
        th > 0,
    ensures
        crop_size(sw, sh, tw, th).0 <= sw,
        crop_size(sw, sh, tw, th).1 <= sh,
{
    if sw * th == sh * tw {
    } else if sw * th > sh * tw {
        lemma_div_below(sh * tw, sw, th);
    } else {
        assert(sw * th < sh * tw);
        lemma_div_below(sw * th, sh, tw);
    }
}

/// Center-crop `src` to the largest sub-rectangle whose aspect ratio matches
/// the target `tw : th` (see [`crop_size`]). Offsets floor, so an odd leftover
/// pixel goes to the right / bottom; an exactly matching ratio keeps the
/// whole image. Degenerate inputs (see [`crop_failure`]) are rejected with
/// `InvalidImage`; ratios are compared by 64-bit cross-multiplication, so
/// extreme aspect ratios neither overflow nor panic.
pub fn crop_center(src: &RgbImage, tw: u32, th: u32) -> (r: Result<RgbImage, BeadError>)
    requires
        src.wf(),
    ensures
        match crop_failure(src.width as int, src.height as int, tw as int, th as int) {
            Some(reason) => r matches Err(BeadError::InvalidImage { reason: e }) && e@ == reason,
            None => r matches Ok(out) && is_center_crop(src, tw, th, &out) && out.width <= src.width
                && out.height <= src.height && forall|x: int, y: int| 0 <= x < out.width && 0 <= y < out.height
                ==> #[trigger] out.pixel(x, y) == src.pixel(
                (src.width - out.width) / 2 + x,
                (src.height - out.height) / 2 + y,
            ),
        },
{
    if tw == 0 {
        return Err(BeadError::InvalidImage { reason: String::from_str("crop target width is 0") });
    }
    if th == 0 {
        return Err(BeadError::InvalidImage { reason: String::from_str("crop target height is 0") });
    }
    let src_w = src.width;
    let src_h = src.height;
    if src_w == 0 {
        return Err(BeadError::InvalidImage { reason: String::from_str("source width is 0") });
    }
    if src_h == 0 {
        return Err(BeadError::InvalidImage { reason: String::from_str("source height is 0") });
    }
    let src_w64 = src_w as u64;
    let src_h64 = src_h as u64;
    let tw64 = tw as u64;
    let th64 = th as u64;
    proof {
        assert(src_w64 as int * th64 as int <= 0xffff_ffff * 0xffff_ffff) by (nonlinear_arith)
            requires src_w64 <= 0xffff_ffff, th64 <= 0xffff_ffff;
        assert(src_h64 as int * tw64 as int <= 0xffff_ffff * 0xffff_ffff) by (nonlinear_arith)
            requires src_h64 <= 0xffff_ffff, tw64 <= 0xffff_ffff;
    }
    let src_ratio = src_w64 * th64;
    let tgt_ratio = src_h64 * tw64;
    let (crop_w64, crop_h64) = if src_ratio == tgt_ratio {
        (src_w64, src_h64)
    } else if src_ratio > tgt_ratio {
        (src_h64 * tw64 / th64, src_h64)
    } else {
        (src_w64, src_w64 * th64 / tw64)
    };
    proof {
        if src_ratio > tgt_ratio {
            lemma_div_below(src_h64 as int * tw64 as int, src_w64 as int, th64 as int);
        } else if src_ratio < tgt_ratio {
            lemma_div_below(src_w64 as int * th64 as int, src_h64 as int, tw64 as int);
        }
    }
    if crop_w64 == 0 {
        return Err(BeadError::InvalidImage {
            reason: String::from_str("computed crop width floored to 0"),
        });
    }
    if crop_h64 == 0 {
        return Err(BeadError::InvalidImage {
            reason: String::from_str("computed crop height floored to 0"),
        });
    }
    let crop_w = crop_w64 as u32;
    let crop_h = crop_h64 as u32;
    let x = (src_w - crop_w) / 2;
    let y = (src_h - crop_h) / 2;
    Ok(copy_rect(src, x, y, crop_w, crop_h))
}

} // verus!

verus! {

/// Resampling filter used when scaling an image to the target grid.
#[derive(Debug, Clone, Copy, PartialEq, Eq, Structural)]
pub enum FilterType {
    /// Nearest neighbor.
    Nearest,
    /// Linear filter.
    Triangle,
    /// Cubic filter.
    CatmullRom,
    /// Gaussian filter.
    Gaussian,
    /// Lanczos with window 3.
    Lanczos3,
}

/// Options controlling how an image is resized into the target grid.
#[derive(Debug, Clone, Copy, PartialEq, Eq, Structural)]
pub struct ResizeOptions {
    /// Resampling filter used when scaling to the target grid.
    pub filter: FilterType,
}

impl Default for ResizeOptions {
    /// The default filter is `Lanczos3`.
    fn default() -> (o: ResizeOptions)
        ensures
            o.filter == FilterType::Lanczos3,
    {
        ResizeOptions { filter: FilterType::Lanczos3 }
    }
}

/// `bytes` begin with `sig`.
pub open spec fn starts_with(bytes: Seq<u8>, sig: Seq<u8>) -> bool {
    sig.len() <= bytes.len() && bytes.subrange(0, sig.len() as int) == sig
}

/// The eight-byte PNG signature.
pub open spec fn png_signature() -> Seq<u8> {
    seq![0x89u8, 0x50u8, 0x4eu8, 0x47u8, 0x0du8, 0x0au8, 0x1au8, 0x0au8]
}

/// The JPEG start-of-image marker followed by the first byte of the next marker.
pub open spec fn jpeg_signature() -> Seq<u8> {
    seq![0xffu8, 0xd8u8, 0xffu8]
}

/// A RIFF container (`RIFF`, a four-byte size, then `WEBP`).
pub open spec fn is_webp_header(bytes: Seq<u8>) -> bool {
    &&& bytes.len() >= 12
    &&& bytes.subrange(0, 4) == seq![0x52u8, 0x49u8, 0x46u8, 0x46u8]
    &&& bytes.subrange(8, 12) == seq![0x57u8, 0x45u8, 0x42u8, 0x50u8]
}

/// `bytes` open with the signature of a format this library decodes: PNG,
/// JPEG or WebP.
pub open spec fn has_supported_signature(bytes: Seq<u8>) -> bool {
    starts_with(bytes, png_signature()) || starts_with(bytes, jpeg_signature()) || is_webp_header(bytes)
}

/// What decoding `bytes` gives: `None` when they do not decode, otherwise
/// the `(width, height)` of the decoded image and its row-major RGB8 pixels.
/// The library relies on the pixel part for PNG input only.
pub uninterp spec fn decode_outcome(bytes: Seq<u8>) -> Option<(u32, u32, Seq<[u8; 3]>)>;

/// `image::guess_format(bytes)`, then
/// `image::load_from_memory_with_format(bytes, format)?.to_rgb8()`: sniff the
/// format from the built-in magic-byte table, decode with the compiled-in
/// decoder (PNG, JPEG, WebP), and normalize to 8-bit RGB (alpha dropped, luma
/// copied to all channels, 16-bit channels reduced, palettes expanded).
/// Neither call consults the format-detection or decoding hooks.
///
/// Stated:
/// - whether the bytes decode, and the size of what they decode to, depend
///   on the bytes alone (the format comes from the first bytes, headers fix
///   the size, and the decoding limits are the crate's constant defaults);
/// - for PNG input the pixels depend on the bytes alone too (inflate,
///   unfiltering and the RGB8 conversion are exact integer or IEEE-754 basic
///   arithmetic); both are named [`decode_outcome`];
/// - only PNG, JPEG and WebP decoders are built in, so a decode succeeds only
///   on bytes that open with one of their signatures;
/// - a decoded image has one pixel per position.
///
/// Not stated: the pixels of JPEG and WebP input (the JPEG decoder picks
/// SIMD code paths by CPU at run time).
#[verifier::external_body]
fn load_rgb8(bytes: &[u8]) -> (r: Result<RgbImage, ::image::ImageError>)
    ensures
        match decode_outcome(bytes@) {
            None => r is Err,
            Some((w, h, px)) => r matches Ok(img) && img.wf() && img.width == w && img.height == h
                && (starts_with(bytes@, png_signature()) ==> img.pixels@ == px),
        },
        r is Ok ==> has_supported_signature(bytes@),
{
    let format = match ::image::guess_format(bytes) {
        Ok(f) => f,
        Err(e) => return Err(e),
    };
    match ::image::load_from_memory_with_format(bytes, format) {
        Ok(decoded) => {
            let img = decoded.to_rgb8();
            let (width, height) = img.dimensions();
            Ok(RgbImage { width, height, pixels: img.pixels().map(|p| p.0).collect() })
        },
        Err(e) => Err(e),
    }
}

/// `img` is what `bytes` decode to: the named size, and for PNG input the
/// named pixels.
pub open spec fn is_decoding_of(bytes: Seq<u8>, img: &RgbImage) -> bool {
    &&& img.wf()
    &&& decode_outcome(bytes) matches Some((w, h, px))
    &&& img.width == w
    &&& img.height == h
    &&& starts_with(bytes, png_signature()) ==> img.pixels@ == px
}

/// Decode image bytes and normalize them to 8-bit RGB. Auto-sniffs the
/// format; PNG, JPEG and WebP are supported. Corrupt, truncated, or
/// unsupported bytes give `ImageDecode`; in particular bytes that do not open
/// with a PNG, JPEG or WebP signature never decode.
pub fn decode_image(bytes: &[u8]) -> (r: Result<RgbImage, BeadError>)
    ensures
        match decode_outcome(bytes@) {
            None => r matches Err(e) && e is ImageDecode,
            Some(_) => r matches Ok(img) && is_decoding_of(bytes@, &img),
        },
        r is Ok ==> has_supported_signature(bytes@),
{
    match load_rgb8(bytes) {
        Ok(img) => Ok(img),
        Err(e) => Err(BeadError::ImageDecode(e)),
    }
}

/// Largest `usize` value that a single allocation may reach.
pub open spec fn alloc_limit() -> int {
    isize::MAX as int
}

/// The filters whose resampling uses only IEEE-754 basic `f32` operations
/// (with `floor`, `ceil` and rounding), so that its result is fixed by the
/// inputs on every machine.
pub open spec fn is_exact_filter(filter: FilterType) -> bool {
    filter is Nearest || filter is Triangle
}

/// `out` is what `image::imageops::resize` gives, on some target, when it
/// resamples a `src_w × src_h` image with these row-major pixels to
/// `width × height` with `filter`. A relation, not a function: for the
/// filters whose kernels call platform math the result may differ between
/// targets.
pub uninterp spec fn resampled(
    pixels: Seq<[u8; 3]>,
    src_w: u32,
    src_h: u32,
    width: u32,
    height: u32,
    filter: FilterType,
    out: Seq<[u8; 3]>,
) -> bool;

/// `image::imageops::resize(src, width, height, filter)` on an RGB8 image,
/// returning the row-major pixels. Stated: the result has `width * height`
/// pixels; it is a resampling of `src` with `filter` itself (the relation
/// [`resampled`]); with Nearest or Triangle it is the only such result
/// (those kernels use only basic `f32` arithmetic, `floor`, `ceil` and
/// rounding, so every target gives the same pixels); when the size is
/// unchanged it is an exact copy of `src` (the function copies instead of
/// resampling then). Not stated: which pixels a CatmullRom, Lanczos3 or
/// Gaussian resampling gives: CatmullRom's kernel uses `f32::powi`, whose
/// precision std leaves unspecified, and the other two call the platform's
/// `sin` and `exp`, which are not bit-identical across targets. `requires`
/// leaves out sizes whose buffers (the `f32` RGBA intermediate of
/// `src.width × height` and the output) would overflow.
#[verifier::external_body]
fn resize_pixels(src: &RgbImage, width: u32, height: u32, filter: FilterType) -> (r: Vec<[u8; 3]>)
    requires
        src.wf(),
        src.width > 0,
        src.height > 0,
        width > 0,
        height > 0,
        16 * (src.width as int) * (height as int) <= alloc_limit(),
        3 * (width as int) * (height as int) <= alloc_limit(),
    ensures
        r@.len() == width as int * height as int,
        (width == src.width && height == src.height) ==> r@ == src.pixels@,
        resampled(src.pixels@, src.width, src.height, width, height, filter, r@),
        is_exact_filter(filter) ==> forall|o: Seq<[u8; 3]>|
            #[trigger] resampled(src.pixels@, src.width, src.height, width, height, filter, o) ==> o == r@,
{
    let f = match filter {
        FilterType::Nearest => ImgFilter::Nearest,
        FilterType::Triangle => ImgFilter::Triangle,
        FilterType::CatmullRom => ImgFilter::CatmullRom,
        FilterType::Gaussian => ImgFilter::Gaussian,
        FilterType::Lanczos3 => ImgFilter::Lanczos3,
    };
    let flat = src.pixels.as_flattened().to_vec();
    let buf: ImgRgb = ImageBuffer::from_raw(src.width, src.height, flat).expect("well-formed");
    let resized = ::image::imageops::resize(&buf, width, height, f);
    resized.pixels().map(|p| p.0).collect()
}

/// Why `resize_image` rejects a target size or source, if it does; guards are
/// checked in this order.
pub open spec fn resize_failure(src: &RgbImage, width: u32, height: u32) -> Option<Seq<char>> {
    if width == 0 {
        Some("resize target width is 0"@)
    } else if height == 0 {
        Some("resize target height is 0"@)
    } else if src.width == 0 {
        Some("source width is 0"@)
    } else if src.height == 0 {
        Some("source height is 0"@)
    } else {
        None
    }
}

/// `grid` is `src` resized to `width × height` with `filter`: one pixel per
/// cell, the very pixels of `src` when the size is kept, a resampling of
/// `src` with `filter` itself, and the only one for Nearest and Triangle.
pub open spec fn is_resized(src: &RgbImage, width: u32, height: u32, filter: FilterType, grid: &PixelGrid) -> bool {
    &&& grid.wf()
    &&& grid.width == width
    &&& grid.height == height
    &&& (width == src.width && height == src.height) ==> grid.pixels@ == src.pixels@
    &&& resampled(src.pixels@, src.width, src.height, width, height, filter, grid.pixels@)
    &&& is_exact_filter(filter) ==> forall|o: Seq<[u8; 3]>|
        #[trigger] resampled(src.pixels@, src.width, src.height, width, height, filter, o) ==> o == grid.pixels@
}

/// Resizing with Nearest or Triangle is deterministic: two resizes of one
/// source to one size with the same such filter give the same pixels.
pub proof fn lemma_exact_resize_unique(src: &RgbImage, width: u32, height: u32, filter: FilterType, g1: &PixelGrid, g2: &PixelGrid)
    requires
        is_exact_filter(filter),
        is_resized(src, width, height, filter, g1),
        is_resized(src, width, height, filter, g2),
    ensures
        g1.pixels@ == g2.pixels@,
{
    assert(resampled(src.pixels@, src.width, src.height, width, height, filter, g2.pixels@));
}

/// Resize `src` to an exact `width × height` `PixelGrid` (aspect ratio is not
/// preserved: callers crop first). Upscaling is allowed. A zero target
/// dimension or a zero-dimension source is rejected with `InvalidImage`
/// before any resampling. Keeping the size copies the pixels unchanged.
pub fn resize_image(src: &RgbImage, width: u32, height: u32, options: &ResizeOptions)
    -> (r: Result<PixelGrid, BeadError>)
    requires
        src.wf(),
        resize_failure(src, width, height) is None ==> 16 * (src.width as int) * (height as int) <= alloc_limit(),
        resize_failure(src, width, height) is None ==> 3 * (width as int) * (height as int) <= alloc_limit(),
    ensures
        match resize_failure(src, width, height) {
            Some(reason) => r matches Err(BeadError::InvalidImage { reason: e }) && e@ == reason,
            None => r matches Ok(grid) && is_resized(src, width, height, options.filter, &grid),
        },
{
    if width == 0 {
        return Err(BeadError::InvalidImage { reason: String::from_str("resize target width is 0") });
    }
    if height == 0 {
        return Err(BeadError::InvalidImage { reason: String::from_str("resize target height is 0") });
    }
    if src.width == 0 {
        return Err(BeadError::InvalidImage { reason: String::from_str("source width is 0") });
    }
    if src.height == 0 {
        return Err(BeadError::InvalidImage { reason: String::from_str("source height is 0") });
    }
    let pixels = resize_pixels(src, width, height, options.filter);
    Ok(PixelGrid { width, height, pixels })
}

/// Why `image_to_grid` rejects a target size before decoding, if it does.
pub open spec fn target_failure(width: u32, height: u32) -> Option<Seq<char>> {
    if width == 0 {
        Some("target width is 0"@)
    } else if height == 0 {
        Some("target height is 0"@)
    } else {
        None
    }
}

/// `image_to_grid` succeeds on `bytes` for a `width × height` target: the
/// target is non-zero, the bytes decode, and the decoded image crops to the
/// target ratio.
pub open spec fn grid_ok(bytes: Seq<u8>, width: u32, height: u32) -> bool {
    &&& target_failure(width, height) is None
    &&& decode_outcome(bytes) matches Some((dw, dh, _))
    &&& crop_failure(dw as int, dh as int, width as int, height as int) is None
}

/// The width of the crop `image_to_grid` makes of what `bytes` decode to for
/// a `width × height` target (0 when they do not decode).
pub open spec fn grid_crop_width(bytes: Seq<u8>, width: u32, height: u32) -> int {
    match decode_outcome(bytes) {
        Some((dw, dh, _)) => crop_size(dw as int, dh as int, width as int, height as int).0,
        None => 0,
    }
}

/// The resampling buffers of `image_to_grid` fit in one allocation: the
/// output grid, and the `f32` RGBA intermediate of the crop's width by the
/// target height (16 bytes per pixel), whenever the call gets that far.
pub open spec fn grid_fits(bytes: Seq<u8>, width: u32, height: u32) -> bool {
    &&& target_failure(width, height) is None ==> 3 * (width as int) * (height as int) <= alloc_limit()
    &&& grid_ok(bytes, width, height) ==> 16 * grid_crop_width(bytes, width, height) * (height as int) <= alloc_limit()
}

/// `e` is the error `image_to_grid` gives on `bytes` for a `width × height`
/// target: the first failing guard in the order target size, decoding,
/// cropping (no error when none fails).
pub open spec fn is_grid_error(bytes: Seq<u8>, width: u32, height: u32, e: BeadError) -> bool {
    match target_failure(width, height) {
        Some(reason) => e matches BeadError::InvalidImage { reason: m } && m@ == reason,
        None => match decode_outcome(bytes) {
            None => e is ImageDecode,
            Some((dw, dh, _)) => match crop_failure(dw as int, dh as int, width as int, height as int) {
                Some(reason) => e matches BeadError::InvalidImage { reason: m } && m@ == reason,
                None => false,
            },
        },
    }
}

/// `grid` is what `bytes` decode to (see [`is_decoding_of`]), center-cropped
/// to the target ratio `width : height` and resized to `width × height` with
/// `filter`.
pub open spec fn is_target_grid(bytes: Seq<u8>, width: u32, height: u32, filter: FilterType, grid: &PixelGrid) -> bool {
    exists|decoded: RgbImage, cropped: RgbImage| {
        &&& is_decoding_of(bytes, &decoded)
        &&& #[trigger] is_center_crop(&decoded, width, height, &cropped)
        &&& is_resized(&cropped, width, height, filter, grid)
    }
}

/// Decode image bytes and produce a `width × height` `PixelGrid`: decode and
/// normalize, center-crop to the target ratio, resize to the exact size.
/// The target size is validated first, before decoding; then decoding and
/// cropping errors pass through unchanged.
pub fn image_to_grid(bytes: &[u8], width: u32, height: u32, options: &ResizeOptions)
    -> (r: Result<PixelGrid, BeadError>)
    requires
        grid_fits(bytes@, width, height),
    ensures
        match r {
            Ok(grid) => grid_ok(bytes@, width, height) && is_target_grid(bytes@, width, height, options.filter, &grid),
            Err(e) => is_grid_error(bytes@, width, height, e),
        },
{
    if width == 0 {
        return Err(BeadError::InvalidImage { reason: String::from_str("target width is 0") });
    }
    if height == 0 {
        return Err(BeadError::InvalidImage { reason: String::from_str("target height is 0") });
    }
    let decoded = match decode_image(bytes) {
        Ok(img) => img,
        Err(e) => return Err(e),
    };
    let cropped = match crop_center(&decoded, width, height) {
        Ok(img) => img,
        Err(e) => return Err(e),
    };
    proof {
        lemma_crop_size_positive(decoded.width as int, decoded.height as int, width as int, height as int);
        assert(grid_ok(bytes@, width, height));
        assert(cropped.width == grid_crop_width(bytes@, width, height));
    }
    let ghost c = cropped;
    let ghost d = decoded;
    match resize_image(&cropped, width, height, options) {
        Ok(grid) => {
            assert(is_center_crop(&d, width, height, &c));
            Ok(grid)
        },
        Err(e) => Err(e),
    }
}

} // verus!
