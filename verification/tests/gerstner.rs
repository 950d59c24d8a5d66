use bead_core::gerstner::{check_superpixel, superpixel_source};
use bead_core::{BeadError, Palette, PaletteColor};

fn palette_from(colors: &[(&str, [u8; 3])]) -> Palette {
    Palette {
        brand: "Test".to_string(),
        colors: colors
            .iter()
            .map(|(code, rgb)| PaletteColor {
                code: code.to_string(),
                name: code.to_string(),
                rgb: *rgb,
            })
            .collect(),
    }
}

fn rgb_bw_palette() -> Palette {
    palette_from(&[
        ("R", [255, 0, 0]),
        ("G", [0, 255, 0]),
        ("B", [0, 0, 255]),
        ("K", [0, 0, 0]),
        ("W", [255, 255, 255]),
    ])
}

/// Left half red, right half blue, as PNG bytes.
fn two_color_png(w: u32, h: u32) -> Vec<u8> {
    let img = ::image::RgbImage::from_fn(w, h, |x, _| {
        if x < w / 2 {
            ::image::Rgb([200, 20, 20])
        } else {
            ::image::Rgb([20, 20, 200])
        }
    });
    let mut buf = std::io::Cursor::new(Vec::new());
    ::image::DynamicImage::ImageRgb8(img)
        .write_to(&mut buf, ::image::ImageFormat::Png)
        .expect("fixture must encode");
    buf.into_inner()
}

#[test]
fn gerstner_upsampling_rejected() {
    let palette = rgb_bw_palette();
    let err = check_superpixel(&palette, 4, 4, 8, 8).expect_err("upsampling must reject");
    match err {
        BeadError::InvalidImage { reason } => {
            assert!(
                reason.contains("Gerstner") && reason.contains("target"),
                "reason must name the target/source constraint, got: {reason:?}"
            );
            assert_eq!(
                reason,
                "Gerstner requires target <= source (S >= 1): target 8x8 exceeds cropped source 4x4"
            );
        }
        other => panic!("expected InvalidImage, got {other:?}"),
    }
    assert!(matches!(check_superpixel(&palette, 4, 4, 4, 8), Err(BeadError::InvalidImage { .. })));
}

#[test]
fn gerstner_empty_palette_rejected() {
    let empty = Palette {
        brand: "Empty".to_string(),
        colors: vec![],
    };
    match check_superpixel(&empty, 8, 8, 4, 4) {
        Err(BeadError::InvalidPalette { reason }) => assert!(reason.contains("no colors"), "got: {reason:?}"),
        other => panic!("expected InvalidPalette, got {other:?}"),
    }
}

#[test]
fn superpixel_guards_order_and_zero_target() {
    let palette = rgb_bw_palette();
    assert!(check_superpixel(&palette, 16, 8, 4, 2).is_ok());
    assert!(check_superpixel(&palette, 4, 4, 4, 4).is_ok());
    match check_superpixel(&palette, 4, 4, 0, 2) {
        Err(BeadError::InvalidImage { reason }) => assert_eq!(reason, "Gerstner target width or height is 0"),
        other => panic!("expected InvalidImage, got {other:?}"),
    }
    // The palette is checked before the size.
    let empty = Palette {
        brand: "Empty".to_string(),
        colors: vec![],
    };
    assert!(matches!(check_superpixel(&empty, 4, 4, 8, 8), Err(BeadError::InvalidPalette { .. })));
}

#[test]
fn superpixel_source_decodes_and_crops() {
    let palette = rgb_bw_palette();
    let img = superpixel_source(&two_color_png(16, 8), &palette, 4, 2).expect("source");
    assert_eq!((img.width, img.height), (16, 8));
    assert_eq!(img.get_pixel(0, 0), [200, 20, 20]);
    assert_eq!(img.get_pixel(15, 7), [20, 20, 200]);

    // A square target keeps the centered 8×8 block.
    let sq = superpixel_source(&two_color_png(16, 8), &palette, 2, 2).expect("square source");
    assert_eq!((sq.width, sq.height), (8, 8));

    assert!(matches!(superpixel_source(b"not an image", &palette, 4, 2), Err(BeadError::ImageDecode(_))));
    assert!(matches!(
        superpixel_source(&two_color_png(4, 2), &palette, 8, 4),
        Err(BeadError::InvalidImage { .. })
    ));
}
