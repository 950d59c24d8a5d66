use bead_core::palette::{palette_from_raw, parse_hex, validate_palette};
use bead_core::{BeadError, Palette, PaletteColor, RawColor, RawPalette};

fn raw(brand: &str, colors: &[(&str, &str, &str)]) -> RawPalette {
    RawPalette {
        brand: brand.to_string(),
        colors: colors
            .iter()
            .map(|(code, name, rgb)| RawColor {
                code: code.to_string(),
                name: name.to_string(),
                rgb: rgb.to_string(),
            })
            .collect(),
    }
}

fn invalid_reason(r: Result<Palette, BeadError>) -> String {
    match r.expect_err("must fail") {
        BeadError::InvalidPalette { reason } => reason,
        other => panic!("expected InvalidPalette, got {other:?}"),
    }
}

#[test]
fn load_valid_palette_parses_all_colors() {
    let palette = palette_from_raw(raw(
        "Test",
        &[("T01", "First", "#0A0B0C"), ("T02", "Second", "#FFFFFF"), ("T03", "Third", "#000000")],
    ))
    .expect("valid palette must load");
    assert_eq!(palette.brand, "Test");
    assert_eq!(palette.colors.len(), 3);
    assert_eq!(palette.colors[0].code, "T01");
    assert_eq!(palette.colors[1].code, "T02");
    assert_eq!(palette.colors[2].code, "T03");
    assert_eq!(palette.colors[0].rgb, [10, 11, 12]);
    assert_eq!(palette.colors[1].rgb, [255, 255, 255]);
    assert_eq!(palette.colors[2].rgb, [0, 0, 0]);
    assert_eq!(palette.colors[1].name, "Second");
}

#[test]
fn load_rejects_malformed_hex() {
    let reason = invalid_reason(palette_from_raw(raw("Test", &[("BAD", "Bad", "#00GG00")])));
    assert!(reason.contains("BAD"), "reason must name the offending code, got: {reason:?}");
}

#[test]
fn load_rejects_empty_colors() {
    let err = palette_from_raw(raw("Empty", &[])).expect_err("empty colors must be rejected");
    assert!(matches!(err, BeadError::InvalidPalette { .. }), "expected InvalidPalette, got {err:?}");
}

#[test]
fn load_rejects_duplicate_codes() {
    let reason = invalid_reason(palette_from_raw(raw(
        "Dupe",
        &[("S01", "First", "#111111"), ("S01", "Second", "#222222")],
    )));
    assert!(reason.contains("S01"), "reason must name the duplicate code, got: {reason:?}");
}

#[test]
fn load_rejects_wrong_hex_length() {
    let err = palette_from_raw(raw("Test", &[("C01", "Short", "#FFF")])).expect_err("shorthand hex");
    assert!(matches!(err, BeadError::InvalidPalette { .. }), "expected InvalidPalette, got {err:?}");
}

#[test]
fn load_rejects_missing_hash() {
    let err = palette_from_raw(raw("Test", &[("C01", "NoHash", "000000")])).expect_err("missing '#'");
    assert!(matches!(err, BeadError::InvalidPalette { .. }), "expected InvalidPalette, got {err:?}");
}

#[test]
fn load_accepts_lowercase_hex() {
    let palette = palette_from_raw(raw("Test", &[("C01", "Lower", "#aabbcc")]))
        .expect("lowercase hex must be accepted");
    assert_eq!(palette.colors[0].rgb, [170, 187, 204]);
}

#[test]
fn validate_passes_on_loaded_palette() {
    let palette = palette_from_raw(raw("Test", &[("C01", "One", "#010203"), ("C02", "Two", "#040506")]))
        .expect("valid palette must load");
    assert!(validate_palette(&palette).is_ok());
}

#[test]
fn validate_rejects_empty() {
    let palette = Palette {
        brand: "Empty".to_string(),
        colors: vec![],
    };
    let err = validate_palette(&palette).expect_err("empty palette must be rejected");
    assert!(matches!(err, BeadError::InvalidPalette { .. }), "expected InvalidPalette, got {err:?}");
}

#[test]
fn validate_rejects_duplicate_codes() {
    let palette = Palette {
        brand: "Dupe".to_string(),
        colors: vec![
            PaletteColor {
                code: "S01".to_string(),
                name: "First".to_string(),
                rgb: [1, 1, 1],
            },
            PaletteColor {
                code: "S01".to_string(),
                name: "Second".to_string(),
                rgb: [2, 2, 2],
            },
        ],
    };
    let err = validate_palette(&palette).expect_err("duplicate codes must be rejected");
    match err {
        BeadError::InvalidPalette { reason } => {
            assert!(reason.contains("S01"), "reason must name the duplicate code, got: {reason:?}");
        }
        other => panic!("expected InvalidPalette, got {other:?}"),
    }
}

#[test]
fn load_is_deterministic() {
    let valid = raw("Det", &[("C01", "One", "#0A0B0C"), ("C02", "Two", "#AABBCC")]);
    let first = palette_from_raw(valid.clone()).expect("must load");
    let second = palette_from_raw(valid).expect("must load");
    assert_eq!(first, second);

    let bad_hex = raw("Det", &[("C01", "One", "#00GG00")]);
    let r1 = invalid_reason(palette_from_raw(bad_hex.clone()));
    let r2 = invalid_reason(palette_from_raw(bad_hex));
    assert_eq!(r1, r2, "bad-hex reason must be byte-identical");

    let dup = raw("Det", &[("C01", "One", "#111111"), ("C01", "Two", "#222222")]);
    let d1 = invalid_reason(palette_from_raw(dup.clone()));
    let d2 = invalid_reason(palette_from_raw(dup));
    assert_eq!(d1, d2, "duplicate-code reason must be byte-identical");

    let both = raw("Det", &[("D99", "BadHex", "#00GG00"), ("D99", "Dup", "#333333")]);
    let reason = invalid_reason(palette_from_raw(both));
    assert!(
        reason.contains("hex digits") && !reason.contains("duplicate"),
        "bad hex must be reported before duplicate, got: {reason:?}"
    );
}

#[test]
fn load_rejects_non_ascii_hex() {
    let err = palette_from_raw(raw("T", &[("C01", "Euro", "#€000")]))
        .expect_err("non-ASCII hex must be rejected, not panic");
    assert!(matches!(err, BeadError::InvalidPalette { .. }), "expected InvalidPalette, got {err:?}");
}

#[test]
fn load_rejects_sign_hex() {
    let err = palette_from_raw(raw("T", &[("C01", "Plus", "#+0+0+0")])).expect_err("sign char");
    assert!(matches!(err, BeadError::InvalidPalette { .. }), "expected InvalidPalette, got {err:?}");
}

#[test]
fn parse_hex_values_and_errors() {
    assert_eq!(parse_hex("#0A0B0C").unwrap(), [10, 11, 12]);
    assert_eq!(parse_hex("#aabbcc").unwrap(), [170, 187, 204]);
    assert_eq!(parse_hex("#FfFf00").unwrap(), [255, 255, 0]);
    for bad in ["", "#", "FFFFFF", "#FFF", "#FFFFFFF", "#GG0000", "#-10000", " #FFFFFF"] {
        assert!(
            matches!(parse_hex(bad), Err(BeadError::InvalidPalette { .. })),
            "{bad:?} must be rejected"
        );
    }
}

#[test]
fn error_reasons_quote_codes_and_values() {
    let reason = invalid_reason(palette_from_raw(raw("Test", &[("BAD", "Bad", "#00GG00")])));
    assert_eq!(reason, "color \"BAD\": rgb \"#00GG00\" must be exactly 6 hex digits after '#'");

    let reason = invalid_reason(palette_from_raw(raw("Test", &[("Q\"1", "Quote", "FF0000")])));
    assert_eq!(reason, "color \"Q\\\"1\": rgb \"FF0000\" must start with '#'");

    let reason = invalid_reason(palette_from_raw(raw("Dupe", &[("S01", "a", "#111111"), ("S01", "b", "#222222")])));
    assert_eq!(reason, "duplicate color code \"S01\"");

    let reason = invalid_reason(palette_from_raw(raw("Empty", &[])));
    assert_eq!(reason, "palette has no colors");
}
