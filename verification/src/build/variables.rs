//! Variables of a build, as the environment gives them.

use vstd::prelude::*;
use crate::build::version;
use crate::build::version::{ParseError, ReleaseStage, Version};
use crate::number;
use crate::text;

verus! {

/// The time of the build: the variable where it is set, or else the current time.
///
/// Returns nothing where the variable is no number.
pub fn build_timestamp(variable: Option<&str>, now: u64) -> (r: Option<u64>)
    ensures
        match variable {
            Some(s) => match r {
                Some(n) => number::number(s@, u64::MAX as nat) == Some(n as nat),
                None => number::number(s@, u64::MAX as nat) is None,
            },
            None => r == Some(now),
        },
{
    match variable {
        Some(s) => number::parse(s, u64::MAX),
        None => Some(now),
    }
}

/// Whether the features make the build a preview.
pub fn is_preview(features: &str) -> (r: bool)
    ensures
        r == text::has(features@, "__preview"@),
{
    text::contains(features, "__preview")
}

/// The number of the build: that of the text for a preview, and zero for a release.
///
/// Returns nothing where the text is no number.
pub fn version_number(is_preview: bool, number_text: &str) -> (r: Option<u16>)
    ensures
        r == (if is_preview {
            version::part(text::trimmed(number_text@))
        } else {
            Some(0u16)
        }),
{
    if is_preview {
        match number::parse(text::trim(number_text).as_str(), 0xffff) {
            Some(n) => Some(n as u16),
            None => None,
        }
    } else {
        Some(0)
    }
}

/// The version with the number of the build, where it is a preview.
pub open spec fn with_build(v: Version, build: u16) -> Version {
    match v.stage {
        ReleaseStage::Release => v,
        ReleaseStage::Preview { version, .. } => Version {
            stage: ReleaseStage::Preview { version, build: Some(build) },
            ..v
        },
    }
}

/// The version of the package, with the number of the build where it is a preview.
///
/// # Errors
///
/// Returns an error if the text is no version.
pub fn pkg_version(package: &str, build: u16) -> (r: Result<Version, ParseError>)
    ensures
        r == (match version::parsed(package@) {
            Ok(v) => Ok::<Version, ParseError>(with_build(v, build)),
            Err(e) => Err(e),
        }),
{
    match Version::parse(package) {
        Ok(v) => match v.stage {
            ReleaseStage::Release => Ok(v),
            ReleaseStage::Preview { version, .. } => Ok(
                Version {
                    major: v.major,
                    minor: v.minor,
                    patch: v.patch,
                    stage: ReleaseStage::Preview { version, build: Some(build) },
                },
            ),
        },
        Err(e) => Err(e),
    }
}

} // verus!
