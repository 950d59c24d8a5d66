use bead_core::image::{crop_center, decode_image, image_to_grid, resize_image, FilterType, ResizeOptions, RgbImage};
use bead_core::BeadError;
use std::io::Cursor;

// ---- fixtures, built in memory ---------------------------------------------

fn encode(img: ::image::DynamicImage, format: ::image::ImageFormat) -> Vec<u8> {
    let mut buf = Cursor::new(Vec::new());
    img.write_to(&mut buf, format).expect("fixture must encode");
    buf.into_inner()
}

/// 160×200 RGB8 gradient: r = x % 256, g = y % 256, b = (x + y) % 256.
fn gradient_png() -> Vec<u8> {
    let img = ::image::RgbImage::from_fn(160, 200, |x, y| {
        ::image::Rgb([(x % 256) as u8, (y % 256) as u8, ((x + y) % 256) as u8])
    });
    encode(::image::DynamicImage::ImageRgb8(img), ::image::ImageFormat::Png)
}

/// 4×4 RGBA8 whose (0,0) is fully transparent RGBA(10,20,30,0) and (3,3) is
/// RGB(200,100,50) at half alpha.
fn transparent_rgba_png() -> Vec<u8> {
    let img = ::image::RgbaImage::from_fn(4, 4, |x, y| match (x, y) {
        (0, 0) => ::image::Rgba([10, 20, 30, 0]),
        (3, 3) => ::image::Rgba([200, 100, 50, 128]),
        _ => ::image::Rgba([1, 2, 3, 255]),
    });
    encode(::image::DynamicImage::ImageRgba8(img), ::image::ImageFormat::Png)
}

/// 4×4 8-bit grayscale with (0,0) == 123.
fn luma8_png() -> Vec<u8> {
    let img = ::image::GrayImage::from_fn(4, 4, |x, y| ::image::Luma([(123 + x * 10 + y) as u8]));
    encode(::image::DynamicImage::ImageLuma8(img), ::image::ImageFormat::Png)
}

/// 2×2 16-bit RGB: (0,0) = (0xFFFF, 0x0000, 0x8000), (1,1) = (0x0100, 0x0100, 0x0100).
fn rgb16_png() -> Vec<u8> {
    let img: ::image::ImageBuffer<::image::Rgb<u16>, Vec<u16>> =
        ::image::ImageBuffer::from_fn(2, 2, |x, y| match (x, y) {
            (0, 0) => ::image::Rgb([0xFFFF, 0x0000, 0x8000]),
            (1, 1) => ::image::Rgb([0x0100, 0x0100, 0x0100]),
            _ => ::image::Rgb([0x1234, 0x5678, 0x9ABC]),
        });
    encode(::image::DynamicImage::ImageRgb16(img), ::image::ImageFormat::Png)
}

fn crc32(bytes: &[u8]) -> u32 {
    let mut crc: u32 = 0xFFFF_FFFF;
    for &b in bytes {
        crc ^= b as u32;
        for _ in 0..8 {
            let mask = (crc & 1).wrapping_neg();
            crc = (crc >> 1) ^ (0xEDB8_8320 & mask);
        }
    }
    !crc
}

fn adler32(bytes: &[u8]) -> u32 {
    let (mut a, mut b) = (1u32, 0u32);
    for &x in bytes {
        a = (a + x as u32) % 65521;
        b = (b + a) % 65521;
    }
    (b << 16) | a
}

fn png_chunk(out: &mut Vec<u8>, kind: &[u8; 4], data: &[u8]) {
    out.extend_from_slice(&(data.len() as u32).to_be_bytes());
    let mut typed = kind.to_vec();
    typed.extend_from_slice(data);
    out.extend_from_slice(&typed);
    out.extend_from_slice(&crc32(&typed).to_be_bytes());
}

/// 2×2 indexed PNG; palette entries 0..3 are red, green, blue, yellow and the
/// image is [[0, 1], [2, 3]].
fn palette_png() -> Vec<u8> {
    let mut out = vec![0x89, b'P', b'N', b'G', 0x0D, 0x0A, 0x1A, 0x0A];
    let mut ihdr = Vec::new();
    ihdr.extend_from_slice(&2u32.to_be_bytes());
    ihdr.extend_from_slice(&2u32.to_be_bytes());
    ihdr.extend_from_slice(&[8, 3, 0, 0, 0]);
    png_chunk(&mut out, b"IHDR", &ihdr);
    png_chunk(&mut out, b"PLTE", &[255, 0, 0, 0, 255, 0, 0, 0, 255, 255, 255, 0]);
    let raw = [0u8, 0, 1, 0, 2, 3];
    let mut z = vec![0x78, 0x01, 0x01];
    z.extend_from_slice(&(raw.len() as u16).to_le_bytes());
    z.extend_from_slice(&(!(raw.len() as u16)).to_le_bytes());
    z.extend_from_slice(&raw);
    z.extend_from_slice(&adler32(&raw).to_be_bytes());
    png_chunk(&mut out, b"IDAT", &z);
    png_chunk(&mut out, b"IEND", &[]);
    out
}

fn smoke_rgb(w: u32, h: u32) -> ::image::DynamicImage {
    ::image::DynamicImage::ImageRgb8(::image::RgbImage::from_fn(w, h, |x, y| {
        ::image::Rgb([(x * 16) as u8, (y * 16) as u8, 128])
    }))
}

fn smoke_jpg() -> Vec<u8> {
    encode(smoke_rgb(16, 16), ::image::ImageFormat::Jpeg)
}

fn smoke_webp() -> Vec<u8> {
    encode(smoke_rgb(16, 16), ::image::ImageFormat::WebP)
}

/// An 8×4 JPEG carrying an EXIF Orientation=6 tag in an APP1 segment.
fn exif_orientation_jpg() -> Vec<u8> {
    let jpg = encode(smoke_rgb(8, 4), ::image::ImageFormat::Jpeg);
    let tiff: [u8; 26] = [
        b'M', b'M', 0x00, 0x2A, 0x00, 0x00, 0x00, 0x08, // header, IFD at 8
        0x00, 0x01, // one entry
        0x01, 0x12, 0x00, 0x03, 0x00, 0x00, 0x00, 0x01, 0x00, 0x06, 0x00, 0x00, // Orientation = 6
        0x00, 0x00, 0x00, 0x00, // no next IFD
    ];
    let mut app1 = vec![0xFF, 0xE1];
    let len = (2 + 6 + tiff.len()) as u16;
    app1.extend_from_slice(&len.to_be_bytes());
    app1.extend_from_slice(b"Exif\0\0");
    app1.extend_from_slice(&tiff);
    let mut out = jpg[..2].to_vec();
    out.extend_from_slice(&app1);
    out.extend_from_slice(&jpg[2..]);
    out
}

fn nearest() -> ResizeOptions {
    ResizeOptions {
        filter: FilterType::Nearest,
    }
}

// ---- tests -----------------------------------------------------------------

#[test]
fn grid_has_exact_cell_count() {
    let grid = image_to_grid(&gradient_png(), 80, 100, &ResizeOptions::default()).unwrap();
    assert_eq!(grid.width, 80);
    assert_eq!(grid.height, 100);
    assert_eq!(grid.pixels.len(), 8000);
}

#[test]
fn grid_is_deterministic() {
    let png = gradient_png();
    let opts = ResizeOptions::default();
    let a = image_to_grid(&png, 80, 100, &opts).unwrap();
    let b = image_to_grid(&png, 80, 100, &opts).unwrap();
    assert_eq!(a, b);

    let grid = image_to_grid(&png, 4, 5, &nearest()).unwrap();
    assert_eq!(grid.width, 4);
    assert_eq!(grid.height, 5);
    let expected: Vec<[u8; 3]> = vec![
        [20, 20, 40],
        [60, 20, 80],
        [100, 20, 120],
        [140, 20, 160],
        [20, 60, 80],
        [60, 60, 120],
        [100, 60, 160],
        [140, 60, 200],
        [20, 100, 120],
        [60, 100, 160],
        [100, 100, 200],
        [140, 100, 240],
        [20, 140, 160],
        [60, 140, 200],
        [100, 140, 240],
        [140, 140, 24],
        [20, 180, 200],
        [60, 180, 240],
        [100, 180, 24],
        [140, 180, 64],
    ];
    assert_eq!(grid.pixels, expected);
}

#[test]
fn decode_png() {
    let img = decode_image(&gradient_png()).unwrap();
    assert_eq!((img.width(), img.height()), (160, 200));
}

#[test]
fn decode_jpeg() {
    let img = decode_image(&smoke_jpg()).unwrap();
    assert_eq!((img.width(), img.height()), (16, 16));
}

#[test]
fn decode_webp() {
    let img = decode_image(&smoke_webp()).unwrap();
    assert_eq!((img.width(), img.height()), (16, 16));
}

#[test]
fn decode_rejects_garbage() {
    let err = decode_image(b"not an image").unwrap_err();
    assert!(matches!(err, BeadError::ImageDecode(_)));
}

#[test]
fn decode_rejects_unsupported_format() {
    let mut gif = b"GIF89a".to_vec();
    gif.extend_from_slice(&[1, 0, 1, 0, 0, 0, 0, 0x3B]);
    let mut bmp = b"BM".to_vec();
    bmp.extend_from_slice(&[0u8; 60]);
    let mut tiff = b"II*\0".to_vec();
    tiff.extend_from_slice(&[8, 0, 0, 0, 0, 0, 0, 0, 0, 0]);
    for bytes in [gif, bmp, tiff] {
        let err = decode_image(&bytes).unwrap_err();
        assert!(matches!(err, BeadError::ImageDecode(_)), "uncompiled format must be ImageDecode");
    }
}

#[test]
fn alpha_is_dropped_deterministically() {
    let png = transparent_rgba_png();
    let a = decode_image(&png).unwrap();
    let b = decode_image(&png).unwrap();
    assert_eq!(a.get_pixel(0, 0), [10, 20, 30]);
    assert_eq!(a.get_pixel(3, 3), [200, 100, 50]);
    assert_eq!(a, b, "normalization is deterministic across runs");
}

#[test]
fn luma8_normalized_to_rgb() {
    let img = decode_image(&luma8_png()).unwrap();
    for px in &img.pixels {
        let [r, g, b] = *px;
        assert!(r == g && g == b, "luma maps to r == g == b, got {px:?}");
    }
    assert_eq!(img.get_pixel(0, 0), [123, 123, 123]);
}

#[test]
fn rgb16_normalized_to_rgb8() {
    let img = decode_image(&rgb16_png()).unwrap();
    assert_eq!((img.width(), img.height()), (2, 2));
    assert_eq!(img.get_pixel(0, 0), [255, 0, 128]);
    assert_eq!(img.get_pixel(1, 1), [1, 1, 1]);
}

#[test]
fn palette_png_expanded() {
    let img = decode_image(&palette_png()).unwrap();
    assert_eq!(img.get_pixel(0, 0), [255, 0, 0]);
    assert_eq!(img.get_pixel(1, 0), [0, 255, 0]);
    assert_eq!(img.get_pixel(0, 1), [0, 0, 255]);
    assert_eq!(img.get_pixel(1, 1), [255, 255, 0]);
}

#[test]
fn crop_center_odd_split_biases_right_bottom() {
    let mut src = RgbImage::new(5, 1);
    src.put_pixel(2, 0, [9, 9, 9]);
    let out = crop_center(&src, 1, 1).unwrap();
    assert_eq!((out.width(), out.height()), (1, 1));
    assert_eq!(out.get_pixel(0, 0), [9, 9, 9], "kept the centered column");

    let mut src2 = RgbImage::new(4, 1);
    src2.put_pixel(1, 0, [7, 7, 7]);
    let out2 = crop_center(&src2, 1, 1).unwrap();
    assert_eq!(out2.get_pixel(0, 0), [7, 7, 7]);
}

#[test]
fn crop_center_landscape_to_square() {
    let src = RgbImage::new(20, 10);
    let out = crop_center(&src, 1, 1).unwrap();
    assert_eq!(out.width(), out.height(), "square crop: width == height");
    assert_eq!((out.width(), out.height()), (10, 10));
}

#[test]
fn crop_center_already_matching_ratio_is_noop() {
    let src = decode_image(&gradient_png()).unwrap();
    let out = crop_center(&src, 4, 5).unwrap();
    assert_eq!((out.width(), out.height()), (160, 200));
    assert_eq!(out, src, "exact-ratio crop is a no-op");
}

#[test]
fn crop_center_near_equal_ratio_is_not_noop() {
    let src = RgbImage::new(100, 99);
    let out = crop_center(&src, 1, 1).unwrap();
    assert_eq!((out.width(), out.height()), (99, 99));
    assert_ne!((out.width(), out.height()), (100, 99), "near-equal ratio must crop, not no-op");
}

#[test]
fn upscaling_is_allowed() {
    let src = RgbImage::new(4, 4);
    let grid = resize_image(&src, 50, 50, &ResizeOptions::default()).unwrap();
    assert_eq!(grid.pixels.len(), 2500);
    assert_eq!((grid.width, grid.height), (50, 50));
}

#[test]
fn zero_width_rejected() {
    let src = RgbImage::new(10, 10);
    let err = resize_image(&src, 0, 10, &ResizeOptions::default()).unwrap_err();
    match &err {
        BeadError::InvalidImage { reason } => assert!(reason.contains("width"), "reason names width: {reason}"),
        other => panic!("expected InvalidImage, got {other:?}"),
    }
    let err2 = resize_image(&src, 0, 10, &ResizeOptions::default()).unwrap_err();
    assert_eq!(err.message(), err2.message());
}

#[test]
fn zero_height_rejected() {
    let src = RgbImage::new(10, 10);
    let err = resize_image(&src, 10, 0, &ResizeOptions::default()).unwrap_err();
    match &err {
        BeadError::InvalidImage { reason } => assert!(reason.contains("height"), "reason names height: {reason}"),
        other => panic!("expected InvalidImage, got {other:?}"),
    }
    let err2 = resize_image(&src, 10, 0, &ResizeOptions::default()).unwrap_err();
    assert_eq!(err.message(), err2.message());
}

#[test]
fn one_by_one_target_ok() {
    let grid = image_to_grid(&gradient_png(), 1, 1, &ResizeOptions::default()).unwrap();
    assert_eq!(grid.pixels.len(), 1);
    assert_eq!((grid.width, grid.height), (1, 1));
}

#[test]
fn image_to_grid_zero_target_rejected() {
    let png = gradient_png();
    let e0 = image_to_grid(&png, 0, 10, &ResizeOptions::default()).unwrap_err();
    match e0 {
        BeadError::InvalidImage { reason } => assert_eq!(reason, "target width is 0"),
        other => panic!("expected InvalidImage, got {other:?}"),
    }
    let e1 = image_to_grid(&png, 10, 0, &ResizeOptions::default()).unwrap_err();
    match e1 {
        BeadError::InvalidImage { reason } => assert_eq!(reason, "target height is 0"),
        other => panic!("expected InvalidImage, got {other:?}"),
    }
}

#[test]
fn crop_center_zero_target_rejected() {
    let img = decode_image(&gradient_png()).unwrap();
    let e0 = crop_center(&img, 0, 10).unwrap_err();
    assert!(matches!(e0, BeadError::InvalidImage { .. }));
    let e1 = crop_center(&img, 10, 0).unwrap_err();
    assert!(matches!(e1, BeadError::InvalidImage { .. }));
}

#[test]
fn crop_center_extreme_ratio_rejected() {
    let wide = RgbImage::new(100, 1);
    let e0 = crop_center(&wide, 1, 100).unwrap_err();
    match e0 {
        BeadError::InvalidImage { reason } => assert!(reason.contains("width")),
        other => panic!("expected InvalidImage, got {other:?}"),
    }
    let tall = RgbImage::new(1, 100);
    let e1 = crop_center(&tall, 100, 1).unwrap_err();
    match e1 {
        BeadError::InvalidImage { reason } => assert!(reason.contains("height")),
        other => panic!("expected InvalidImage, got {other:?}"),
    }
}

#[test]
fn resize_image_zero_source_rejected() {
    let z0 = RgbImage::new(0, 5);
    let e0 = resize_image(&z0, 80, 100, &ResizeOptions::default()).unwrap_err();
    assert!(matches!(e0, BeadError::InvalidImage { .. }));
    let z1 = RgbImage::new(5, 0);
    let e1 = resize_image(&z1, 80, 100, &ResizeOptions::default()).unwrap_err();
    assert!(matches!(e1, BeadError::InvalidImage { .. }));
}

#[test]
fn crop_center_extreme_aspect_no_overflow() {
    let wide = RgbImage::new(100_000, 1);
    let e0 = crop_center(&wide, 1, 100_000).unwrap_err();
    assert!(matches!(e0, BeadError::InvalidImage { .. }));
    let tall = RgbImage::new(1, 100_000);
    let e1 = crop_center(&tall, 100_000, 1).unwrap_err();
    assert!(matches!(e1, BeadError::InvalidImage { .. }));
}

#[test]
fn exif_orientation_not_applied() {
    let img = decode_image(&exif_orientation_jpg()).unwrap();
    assert_eq!((img.width(), img.height()), (8, 4), "stored size is 8×4; EXIF is not applied");
}

#[test]
fn default_filter_is_lanczos3() {
    assert_eq!(ResizeOptions::default().filter, FilterType::Lanczos3);
}

#[test]
fn resize_same_size_keeps_pixels() {
    let mut src = RgbImage::new(3, 2);
    src.put_pixel(0, 0, [1, 2, 3]);
    src.put_pixel(2, 1, [250, 251, 252]);
    let grid = resize_image(&src, 3, 2, &nearest()).unwrap();
    assert_eq!(grid.pixels, src.pixels);
    let grid = resize_image(&src, 3, 2, &ResizeOptions::default()).unwrap();
    assert_eq!(grid.pixels, src.pixels);
}

#[test]
fn crop_center_keeps_the_centered_block() {
    // 6×2 cropped to 1:1 keeps the 2×2 block starting at x = 2.
    let mut src = RgbImage::new(6, 2);
    for x in 0..6 {
        for y in 0..2 {
            src.put_pixel(x, y, [x as u8, y as u8, 0]);
        }
    }
    let out = crop_center(&src, 1, 1).unwrap();
    assert_eq!(out.pixels, vec![[2, 0, 0], [3, 0, 0], [2, 1, 0], [3, 1, 0]]);
}
