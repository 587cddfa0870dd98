use dining_philosophers::version::{parse_version, ParseError, Version};

#[test]
fn parse_known_versions() {
    assert_eq!(parse_version(&1), Ok(Version::Version1));
    assert_eq!(parse_version(&2), Ok(Version::Version2));
}

#[test]
fn parse_rejects_other_headers() {
    assert_eq!(parse_version(&3), Err(ParseError::InvalidHeaderLength));
    assert_eq!(parse_version(&0), Err(ParseError::InvalidVersion));
    assert_eq!(parse_version(&255), Err(ParseError::InvalidVersion));
}
