//! Guards and source preparation of the superpixel generator: the image is
//! decoded and center-cropped to the target ratio, then checked against the
//! palette and the target size before the clustering runs on it. The
//! clustering itself works in floating-point Oklab and is not part of this
//! library.

use vstd::prelude::*;
use crate::error::BeadError;
use crate::image::{crop_center, crop_failure, crop_size, decode_image, decode_outcome, is_center_crop, is_decoding_of, RgbImage};
use crate::matcher::{check_palette_len, palette_len_failure};
use crate::palette::Palette;
use crate::text::{decimal, push_decimal};

verus! {

/// The reason the superpixel generator refuses a target larger than the
/// cropped source.
pub open spec fn upsampling_reason(width: u32, height: u32, src_w: u32, src_h: u32) -> Seq<char> {
    "Gerstner requires target <= source (S >= 1): target "@ + decimal(width as nat) + "x"@
        + decimal(height as nat) + " exceeds cropped source "@ + decimal(src_w as nat) + "x"@
        + decimal(src_h as nat)
}

/// Why the superpixel generator refuses a `src_w × src_h` cropped source for
/// a `width × height` target, if it does, checked in this order: the palette
/// size, then a target larger than the source on either axis, then a zero
/// target dimension.
pub open spec fn superpixel_failure(palette_len: nat, src_w: u32, src_h: u32, width: u32, height: u32)
    -> Option<(bool, Seq<char>)>
{
    match palette_len_failure(palette_len) {
        Some(reason) => Some((true, reason)),
        None => if src_w < width || src_h < height {
            Some((false, upsampling_reason(width, height, src_w, src_h)))
        } else if width == 0 || height == 0 {
            Some((false, "Gerstner target width or height is 0"@))
        } else {
            None
        },
    }
}

/// `e` is the error that a failed superpixel guard reports.
pub open spec fn is_superpixel_error(e: BeadError, failure: Option<(bool, Seq<char>)>) -> bool {
    match failure {
        Some((true, reason)) => e matches BeadError::InvalidPalette { reason: m } && m@ == reason,
        Some((false, reason)) => e matches BeadError::InvalidImage { reason: m } && m@ == reason,
        None => false,
    }
}

/// The superpixel generator's guards: the palette size as the matchers check
/// it (`InvalidPalette`), then a target no larger than the cropped source on
/// either axis, then a non-zero target (`InvalidImage`). Never panics.
pub fn check_superpixel(palette: &Palette, src_w: u32, src_h: u32, width: u32, height: u32)
    -> (r: Result<(), BeadError>)
    ensures
        match superpixel_failure(palette.colors@.len(), src_w, src_h, width, height) {
            None => r is Ok,
            Some((true, reason)) => r matches Err(BeadError::InvalidPalette { reason: e }) && e@ == reason,
            Some((false, reason)) => r matches Err(BeadError::InvalidImage { reason: e }) && e@ == reason,
        },
{
    match check_palette_len(palette) {
        Ok(()) => {},
        Err(e) => return Err(e),
    }
    if src_w < width || src_h < height {
        let mut reason = String::from_str("Gerstner requires target <= source (S >= 1): target ");
        push_decimal(&mut reason, width as u64);
        reason.append("x");
        push_decimal(&mut reason, height as u64);
        reason.append(" exceeds cropped source ");
        push_decimal(&mut reason, src_w as u64);
        reason.append("x");
        push_decimal(&mut reason, src_h as u64);
        proof {
            reveal_strlit("x");
            reveal_strlit(" exceeds cropped source ");
            reveal_strlit("Gerstner requires target <= source (S >= 1): target ");
            assert(reason@ =~= upsampling_reason(width, height, src_w, src_h));
        }
        return Err(BeadError::InvalidImage { reason });
    }
    if width == 0 || height == 0 {
        return Err(BeadError::InvalidImage {
            reason: String::from_str("Gerstner target width or height is 0"),
        });
    }
    Ok(())
}

/// The source the superpixel generator clusters: `image_bytes` decoded
/// (`ImageDecode` when they do not decode), center-cropped to the target
/// ratio `width : height` (`InvalidImage` on a degenerate crop), then held to
/// [`check_superpixel`].
pub fn superpixel_source(image_bytes: &[u8], palette: &Palette, width: u32, height: u32)
    -> (r: Result<RgbImage, BeadError>)
    ensures
        match decode_outcome(image_bytes@) {
            None => r matches Err(e) && e is ImageDecode,
            Some((dw, dh, _)) => match crop_failure(dw as int, dh as int, width as int, height as int) {
                Some(reason) => r matches Err(BeadError::InvalidImage { reason: e }) && e@ == reason,
                None => {
                    let cw = crop_size(dw as int, dh as int, width as int, height as int).0 as u32;
                    let ch = crop_size(dw as int, dh as int, width as int, height as int).1 as u32;
                    match superpixel_failure(palette.colors@.len(), cw, ch, width, height) {
                        Some(f) => r matches Err(e) && is_superpixel_error(e, Some(f)),
                        None => r matches Ok(img) && exists|decoded: RgbImage| {
                            &&& is_decoding_of(image_bytes@, &decoded)
                            &&& #[trigger] is_center_crop(&decoded, width, height, &img)
                        },
                    }
                },
            },
        },
{
    let decoded = match decode_image(image_bytes) {
        Ok(img) => img,
        Err(e) => return Err(e),
    };
    let cropped = match crop_center(&decoded, width, height) {
        Ok(img) => img,
        Err(e) => return Err(e),
    };
    let ghost d = decoded;
    match check_superpixel(palette, cropped.width, cropped.height, width, height) {
        Ok(()) => {
            assert(is_center_crop(&d, width, height, &cropped));
            Ok(cropped)
        },
        Err(e) => Err(e),
    }
}

} // verus!
