use sling::util::{at_or_above_version, parse_u32, str_contains, to_hex, VersionError};

#[test]
fn version_newer_major_is_above() {
    assert_eq!(at_or_above_version("v25.02", "24.11"), Ok(true));
}

#[test]
fn version_equal_is_at() {
    assert_eq!(at_or_above_version("v24.11", "24.11"), Ok(true));
}

#[test]
fn version_older_is_below() {
    assert_eq!(at_or_above_version("v24.08.2-modded", "24.11"), Ok(false));
}

#[test]
fn version_with_patch_and_suffix() {
    assert_eq!(at_or_above_version("v24.11.1-12-gabcdef", "24.11"), Ok(true));
}

#[test]
fn version_fewer_pieces_than_minimum() {
    assert_eq!(at_or_above_version("v24.11", "24.11.1"), Ok(false));
}

#[test]
fn version_without_v_is_refused() {
    assert_eq!(at_or_above_version("24.11", "24.11"), Err(VersionError::NoV));
}

#[test]
fn version_with_one_piece_is_refused() {
    assert_eq!(at_or_above_version("v25", "24.11"), Err(VersionError::BadVersion));
}

#[test]
fn version_with_four_pieces_is_refused() {
    assert_eq!(at_or_above_version("v24.11.1.2", "24.11"), Err(VersionError::BadVersion));
}

#[test]
fn version_minimum_not_a_number() {
    assert_eq!(at_or_above_version("v24.11", "24.x"), Err(VersionError::NotANumber));
}

#[test]
fn parse_u32_accepts_plus_and_digits() {
    assert_eq!(parse_u32(&"+42".chars().collect()), Some(42));
    assert_eq!(parse_u32(&"4294967295".chars().collect()), Some(u32::MAX));
    assert_eq!(parse_u32(&"4294967296".chars().collect()), None);
    assert_eq!(parse_u32(&"".chars().collect()), None);
    assert_eq!(parse_u32(&"+".chars().collect()), None);
    assert_eq!(parse_u32(&"1a".chars().collect()), None);
}

#[test]
fn str_contains_finds_bytes() {
    assert!(str_contains("Too many HTLCs in flight", "Too many HTLCs"));
    assert!(!str_contains("too many htlcs", "Too many HTLCs"));
    assert!(str_contains("abc", ""));
    assert!(!str_contains("ab", "abc"));
}

#[test]
fn hex_is_lowercase_two_digits_per_byte() {
    assert_eq!(to_hex(&[0x00, 0x0f, 0xa0, 0xff]), "000fa0ff");
    assert_eq!(to_hex(&[]), "");
}
