//! Version parsing: `major.minor.patch` with surrounding whitespace.

use worldsync::version::{Version, VersionError};

#[test]
fn plain_triple_parses() {
    let v = Version::try_from(b"1.2.3").unwrap();
    assert_eq!(v, Version { major: 1, minor: 2, patch: 3 });
}

#[test]
fn surrounding_whitespace_is_trimmed() {
    let v = Version::try_from(b"  10.0.7\n").unwrap();
    assert_eq!(v, Version { major: 10, minor: 0, patch: 7 });
}

#[test]
fn plus_signs_and_leading_zeros_are_numerals() {
    let v = Version::try_from(b"+1.02.003").unwrap();
    assert_eq!(v, Version { major: 1, minor: 2, patch: 3 });
}

#[test]
fn largest_parts_fit() {
    let v = Version::try_from(b"4294967295.0.4294967295").unwrap();
    assert_eq!(v.major, u32::MAX);
    assert_eq!(v.patch, u32::MAX);
}

#[test]
fn wrong_part_count_is_a_format_error() {
    assert_eq!(Version::try_from(b"1.2").unwrap_err(), VersionError::Format);
    assert_eq!(Version::try_from(b"1.2.3.4").unwrap_err(), VersionError::Format);
    assert_eq!(Version::try_from(b"").unwrap_err(), VersionError::Format);
}

#[test]
fn each_bad_part_is_named() {
    assert_eq!(
        Version::try_from(b"a.2.3").unwrap_err(),
        VersionError::InvalidMajor
    );
    assert_eq!(
        Version::try_from(b"1..3").unwrap_err(),
        VersionError::InvalidMinor
    );
    assert_eq!(
        Version::try_from(b"1.2.x").unwrap_err(),
        VersionError::InvalidPatch
    );
}

#[test]
fn overflowing_parts_are_invalid() {
    assert_eq!(
        Version::try_from(b"4294967296.0.0").unwrap_err(),
        VersionError::InvalidMajor
    );
}

#[test]
fn inner_whitespace_is_not_trimmed() {
    assert_eq!(
        Version::try_from(b"1 .2.3").unwrap_err(),
        VersionError::InvalidMajor
    );
}

#[test]
fn rendering_parses_back() {
    let v = Version { major: 1, minor: 23, patch: 456 };
    let text = v.to_text();
    assert_eq!(text, b"1.23.456".to_vec());
    assert_eq!(Version::try_from(&text).unwrap(), v);
    let extremes = Version { major: 0, minor: u32::MAX, patch: 10 };
    assert_eq!(Version::try_from(&extremes.to_text()).unwrap(), extremes);
}

#[test]
fn failures_describe_themselves() {
    assert_eq!(
        VersionError::Format.describe(),
        "Version must be in format 'major.minor.patch'"
    );
    assert_eq!(VersionError::InvalidMajor.describe(), "Invalid major version");
    assert_eq!(VersionError::InvalidMinor.describe(), "Invalid minor version");
    assert_eq!(VersionError::InvalidPatch.describe(), "Invalid patch version");
}
