use bead_core::BeadError;

#[test]
fn error_displays() {
    assert_eq!(BeadError::NotImplemented.message(), "not yet implemented");
}

#[test]
fn error_messages_carry_reasons() {
    let e = BeadError::InvalidPalette {
        reason: "palette has no colors".to_string(),
    };
    assert_eq!(e.message(), "invalid palette: palette has no colors");
    let e = BeadError::InvalidImage {
        reason: "target width is 0".to_string(),
    };
    assert_eq!(e.message(), "invalid image: target width is 0");
}

#[test]
fn palette_parse_error_message() {
    let parse_error = serde_json::from_str::<serde_json::Value>("{ not json").unwrap_err();
    let e = BeadError::PaletteParse(parse_error);
    assert_eq!(e.message(), "failed to parse palette JSON");
}
