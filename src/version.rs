use vstd::prelude::*;

verus! {

/// Protocol versions that a header byte may announce.
#[derive(Debug, Clone, Copy, PartialEq, Eq, Structural)]
pub enum Version {
    Version1,
    Version2,
}

/// Why a header byte was not accepted.
#[derive(Debug, Clone, Copy, PartialEq, Eq, Structural)]
pub enum ParseError {
    InvalidHeaderLength,
    InvalidVersion,
}

/// What a header byte decodes to.
pub open spec fn version_of(header: u8) -> Result<Version, ParseError> {
    if header == 1 {
        Ok(Version::Version1)
    } else if header == 2 {
        Ok(Version::Version2)
    } else if header == 3 {
        Err(ParseError::InvalidHeaderLength)
    } else {
        Err(ParseError::InvalidVersion)
    }
}

/// Reads the version announced by a header byte.
pub fn parse_version(header: &u8) -> (r: Result<Version, ParseError>)
    ensures
        r == version_of(*header),
{
    match *header {
        1 => Ok(Version::Version1),
        2 => Ok(Version::Version2),
        3 => Err(ParseError::InvalidHeaderLength),
        _ => Err(ParseError::InvalidVersion),
    }
}

} // verus!
