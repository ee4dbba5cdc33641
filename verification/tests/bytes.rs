use rusttp::bytes::{
    is_horizontal_space, is_not_space, is_space, is_token, is_version, not_line_ending, ByteClass,
};

/// The token bytes, written out.
const TOKEN_BYTES: &[u8] =
    b"!#$%&'*+-.0123456789ABCDEFGHIJKLMNOPQRSTUVWXYZ_`abcdefghijklmnopqrstuvwxyz|~";

#[test]
fn token_bytes_are_exactly_the_listed_ones() {
    for c in 0..=255u8 {
        assert_eq!(is_token(c), TOKEN_BYTES.contains(&c), "byte {}", c);
    }
}

#[test]
fn token_count_is_seventy_six() {
    let n = (0..=255u8).filter(|c| is_token(*c)).count();
    assert_eq!(n, 76);
}

#[test]
fn separators_are_no_tokens() {
    for c in b"\"(),/:;<=>?@[\\]^{}" {
        assert!(!is_token(*c), "byte {}", c);
    }
}

#[test]
fn space_tab_and_controls_are_no_tokens() {
    assert!(!is_token(b' '));
    assert!(!is_token(b'\t'));
    assert!(!is_token(b'\r'));
    assert!(!is_token(b'\n'));
    assert!(!is_token(0));
    assert!(!is_token(31));
    assert!(!is_token(127));
}

#[test]
fn bytes_above_ascii_are_no_tokens() {
    for c in 128..=255u8 {
        assert!(!is_token(c));
    }
}

#[test]
fn token_range_edges() {
    assert!(is_token(0x21));
    assert!(!is_token(0x20));
    assert!(is_token(0x7e));
    assert!(!is_token(0x7f));
    assert!(is_token(0x39));
    assert!(!is_token(0x3a));
    assert!(!is_token(0x40));
    assert!(is_token(0x41));
    assert!(is_token(0x5a));
    assert!(!is_token(0x5b));
    assert!(!is_token(0x5e));
    assert!(is_token(0x5f));
}

#[test]
fn space_is_the_space_byte_alone() {
    for c in 0..=255u8 {
        assert_eq!(is_space(c), c == b' ');
    }
}

#[test]
fn not_space_is_the_complement_of_space() {
    for c in 0..=255u8 {
        assert_eq!(is_not_space(c), !is_space(c));
    }
}

#[test]
fn horizontal_space_is_space_or_tab() {
    for c in 0..=255u8 {
        assert_eq!(is_horizontal_space(c), c == b' ' || c == b'\t');
    }
}

#[test]
fn version_bytes_are_digits_and_full_stop() {
    for c in 0..=255u8 {
        assert_eq!(is_version(c), c.is_ascii_digit() || c == b'.');
    }
}

#[test]
fn not_line_ending_excludes_cr_and_lf_alone() {
    for c in 0..=255u8 {
        assert_eq!(not_line_ending(c), c != b'\r' && c != b'\n');
    }
}

#[test]
fn classes_agree_with_predicates() {
    for c in 0..=255u8 {
        assert_eq!(ByteClass::Token.matches(c), is_token(c));
        assert_eq!(ByteClass::Space.matches(c), is_space(c));
        assert_eq!(ByteClass::NotSpace.matches(c), is_not_space(c));
        assert_eq!(ByteClass::HorizontalSpace.matches(c), is_horizontal_space(c));
        assert_eq!(ByteClass::Version.matches(c), is_version(c));
        assert_eq!(ByteClass::NotLineEnding.matches(c), not_line_ending(c));
    }
}
