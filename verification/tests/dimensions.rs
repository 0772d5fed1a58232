use fractalz::dimensions::{is_power_of_four, DimensionsError, ScreenDimensions};

#[test]
fn parses_plain_dimensions() {
    let d = ScreenDimensions::from_str("800x600").unwrap();
    assert_eq!(d.tuple(), (800, 600));
}

#[test]
fn parses_trimmed_dimensions() {
    let d = ScreenDimensions::from_str("  1920x1080\n").unwrap();
    assert_eq!(d.tuple(), (1920, 1080));
}

#[test]
fn parses_leading_zeros() {
    let d = ScreenDimensions::from_str("007x05").unwrap();
    assert_eq!(d.tuple(), (7, 5));
}

#[test]
fn rejects_missing_separator() {
    assert_eq!(
        ScreenDimensions::from_str("800"),
        Err(DimensionsError::InvalidFormat)
    );
}

#[test]
fn rejects_two_separators() {
    assert_eq!(
        ScreenDimensions::from_str("800x600x2"),
        Err(DimensionsError::InvalidFormat)
    );
}

#[test]
fn rejects_empty_width() {
    assert_eq!(
        ScreenDimensions::from_str("x600"),
        Err(DimensionsError::InvalidWidth)
    );
}

#[test]
fn rejects_empty_height() {
    assert_eq!(
        ScreenDimensions::from_str("800x"),
        Err(DimensionsError::InvalidHeight)
    );
}

#[test]
fn rejects_non_digit_width() {
    assert_eq!(
        ScreenDimensions::from_str("80a0x600"),
        Err(DimensionsError::InvalidWidth)
    );
}

#[test]
fn rejects_width_overflow() {
    assert_eq!(
        ScreenDimensions::from_str("4294967296x1"),
        Err(DimensionsError::InvalidWidth)
    );
}

#[test]
fn accepts_width_at_limit() {
    let d = ScreenDimensions::from_str("4294967295x1").unwrap();
    assert_eq!(d.tuple(), (4294967295, 1));
}

#[test]
fn rejects_height_overflow() {
    assert_eq!(
        ScreenDimensions::from_str("1x4294967296"),
        Err(DimensionsError::InvalidHeight)
    );
}

#[test]
fn rejects_inner_spaces() {
    // only the outer ends are trimmed; a blank inside a field is not a digit
    assert_eq!(
        ScreenDimensions::from_str("800 x600"),
        Err(DimensionsError::InvalidWidth)
    );
    assert_eq!(
        ScreenDimensions::from_str("800x 600"),
        Err(DimensionsError::InvalidHeight)
    );
}

#[test]
fn rejects_empty_input() {
    assert_eq!(
        ScreenDimensions::from_str("   "),
        Err(DimensionsError::InvalidFormat)
    );
}

#[test]
fn error_messages_match() {
    assert_eq!(
        DimensionsError::InvalidFormat.message(),
        "invalid dimension format"
    );
    assert_eq!(DimensionsError::InvalidWidth.message(), "invalid width");
    assert_eq!(DimensionsError::InvalidHeight.message(), "invalid height");
}

#[test]
fn default_dimensions() {
    let d = ScreenDimensions::default();
    assert_eq!(d.tuple(), (800, 600));
}

#[test]
fn powers_of_four() {
    assert!(is_power_of_four(1));
    assert!(is_power_of_four(4));
    assert!(is_power_of_four(16));
    assert!(is_power_of_four(64));
    assert!(is_power_of_four(1 << 30));
    assert!(!is_power_of_four(0));
    assert!(!is_power_of_four(2));
    assert!(!is_power_of_four(8));
    assert!(!is_power_of_four(12));
    assert!(!is_power_of_four(1 << 31));
}
