//! The engine's shared error type.

use vstd::prelude::*;

verus! {

/// Opaque declaration of `serde_json::Error`, carried by [`BeadError::PaletteParse`].
#[verifier::external_type_specification]
#[verifier::external_body]
pub struct ExJsonError(serde_json::Error);

/// Opaque declaration of `image::ImageError`, carried by the image variants of [`BeadError`].
#[verifier::external_type_specification]
#[verifier::external_body]
pub struct ExImageError(::image::ImageError);

/// The shared engine error. Fallible public APIs return `Result<T, BeadError>`;
/// total APIs (e.g. `match_pattern`, `count_colors`) return their value directly.
#[derive(Debug)]
#[non_exhaustive]
pub enum BeadError {
    /// Placeholder for functionality that is not available.
    NotImplemented,
    /// Palette JSON failed to parse (syntax error, missing field or wrong type).
    PaletteParse(serde_json::Error),
    /// A palette violates a semantic invariant (empty colors, duplicate code,
    /// malformed hex, too many colors). `reason` is deterministic and names the
    /// single offending object.
    InvalidPalette { reason: String },
    /// Image bytes failed to decode.
    ImageDecode(::image::ImageError),
    /// A requested image operation is semantically invalid (zero dimension,
    /// degenerate crop, oversized output, `max_colors == 0`).
    InvalidImage { reason: String },
    /// PNG encoding failed.
    ImageEncode { source: ::image::ImageError },
}

/// The human-readable message of an error, as the engine displays it.
pub open spec fn error_message(e: BeadError) -> Seq<char> {
    match e {
        BeadError::NotImplemented => "not yet implemented"@,
        BeadError::PaletteParse(_) => "failed to parse palette JSON"@,
        BeadError::InvalidPalette { reason } => "invalid palette: "@ + reason@,
        BeadError::ImageDecode(_) => "failed to decode image"@,
        BeadError::InvalidImage { reason } => "invalid image: "@ + reason@,
        BeadError::ImageEncode { .. } => "failed to encode image"@,
    }
}

impl BeadError {
    /// The display text of this error (what `to_string` gives for the
    /// frontends' copy of this type).
    pub fn message(&self) -> (m: String)
        ensures
            m@ == error_message(*self),
    {
        match self {
            BeadError::NotImplemented => String::from_str("not yet implemented"),
            BeadError::PaletteParse(_) => String::from_str("failed to parse palette JSON"),
            BeadError::InvalidPalette { reason } => {
                let mut m = String::from_str("invalid palette: ");
                m.append(reason.as_str());
                m
            },
            BeadError::ImageDecode(_) => String::from_str("failed to decode image"),
            BeadError::InvalidImage { reason } => {
                let mut m = String::from_str("invalid image: ");
                m.append(reason.as_str());
                m
            },
            BeadError::ImageEncode { .. } => String::from_str("failed to encode image"),
        }
    }
}

} // verus!
