//! Generated source that describes a build.

use vstd::prelude::*;
use crate::build::version;
use crate::build::version::{ReleaseStage, Version};
use crate::codec;

verus! {

/// A version as source.
pub open spec fn version_source(v: Version) -> Seq<char> {
    "Version { major: "@ + codec::decimal(v.major as nat) + ", minor: "@ + codec::decimal(
        v.minor as nat,
    ) + ", patch: "@ + codec::decimal(v.patch as nat) + ", stage: "@ + stage_source(v.stage) + " }"@
}

/// A stage as source.
pub open spec fn stage_source(s: ReleaseStage) -> Seq<char> {
    match s {
        ReleaseStage::Release => "Release"@,
        ReleaseStage::Preview { version, build } => "Preview { version: "@ + codec::decimal(
            version as nat,
        ) + ", build: "@ + match build {
            None => "None"@,
            Some(n) => "Some("@ + codec::decimal(n as nat) + ")"@,
        } + " }"@,
    }
}

fn write_stage(s: &ReleaseStage) -> (r: String)
    ensures
        r@ == stage_source(*s),
{
    match s {
        ReleaseStage::Release => "Release".to_owned(),
        ReleaseStage::Preview { version, build } => {
            let number = match build {
                None => "None".to_owned(),
                Some(n) => "Some(".to_owned().concat(
                    codec::format_decimal(*n as u64).as_str(),
                ).concat(")"),
            };
            "Preview { version: ".to_owned().concat(
                codec::format_decimal(*version as u64).as_str(),
            ).concat(", build: ").concat(number.as_str()).concat(" }")
        },
    }
}

/// Returns a version as source.
pub fn write_version(v: &Version) -> (r: String)
    ensures
        r@ == version_source(*v),
{
    "Version { major: ".to_owned().concat(codec::format_decimal(v.major as u64).as_str()).concat(
        ", minor: ",
    ).concat(codec::format_decimal(v.minor as u64).as_str()).concat(", patch: ").concat(
        codec::format_decimal(v.patch as u64).as_str(),
    ).concat(", stage: ").concat(write_stage(&v.stage).as_str()).concat(" }")
}

/// A truth value as source.
pub open spec fn bool_source(b: bool) -> Seq<char> {
    if b {
        "true"@
    } else {
        "false"@
    }
}

fn write_bool(b: bool) -> (r: &'static str)
    ensures
        r@ == bool_source(b),
{
    if b {
        "true"
    } else {
        "false"
    }
}

/// The source of the constant with the number of the build; nothing for a release.
pub open spec fn number_source(version_number: u16) -> Seq<char> {
    if version_number != 0 {
        "pub const BUILD_VERSION: u32 = "@ + codec::decimal(version_number as nat) + ";\n"@
    } else {
        Seq::empty()
    }
}

/// What stands before the time of the build on Unix.
pub const EPOCH_UNIX: &'static str = "#[cfg(unix)]\n\
    pub const BUILD_EPOCH: std::time::SystemTime =\n\
    \x20\x20\x20\x20unsafe { ::core::intrinsics::transmute((";

/// What stands between the times of the build on Unix and on Windows.
pub const EPOCH_WINDOWS: &'static str = "i64, 0u32)) };\n\
    \n\
    #[cfg(windows)]\n\
    pub const BUILD_EPOCH: std::time::SystemTime = unsafe {\n\
    \x20\x20\x20\x20const INTERVALS_PER_SEC: u64 = 10_000_000;\n\
    \x20\x20\x20\x20const INTERVALS_TO_UNIX_EPOCH: u64 = 11_644_473_600 * INTERVALS_PER_SEC;\n\
    \x20\x20\x20\x20const TARGET_INTERVALS: u64 = INTERVALS_TO_UNIX_EPOCH + ";

/// What stands behind the time of the build on Windows.
pub const EPOCH_END: &'static str = " * INTERVALS_PER_SEC;\n\
    \n\
    \x20\x20\x20\x20::core::intrinsics::transmute((\n\
    \x20\x20\x20\x20\x20\x20\x20\x20TARGET_INTERVALS as u32,\n\
    \x20\x20\x20\x20\x20\x20\x20\x20(TARGET_INTERVALS >> 32) as u32,\n\
    \x20\x20\x20\x20))\n\
    };\n";

/// The source of the constants with the time of the build.
pub open spec fn epoch_source(timestamp: u64) -> Seq<char> {
    EPOCH_UNIX@ + codec::decimal(timestamp as nat) + EPOCH_WINDOWS@ + codec::decimal(
        timestamp as nat,
    ) + EPOCH_END@
}

/// The generated source, with the quoted time of the build.
pub open spec fn build_source(
    version_number: u16,
    quoted_time: Seq<char>,
    timestamp: u64,
    v: Version,
    is_preview: bool,
    is_debug: bool,
) -> Seq<char> {
    "use crate::app::model::version::{Version, ReleaseStage::*};\n\n"@ + number_source(
        version_number,
    ) + "pub const BUILD_TIMESTAMP: &'static str = "@ + quoted_time + ";\n"@
        + "/// pub const VERSION_STR: &'static str = \""@ + version::version_text(v)
        + "\";\npub const VERSION: Version = "@ + version_source(v) + ";\n"@
        + "pub const IS_PRERELEASE: bool = "@ + bool_source(is_preview)
        + ";\npub const IS_DEBUG: bool = "@ + bool_source(is_debug) + ";\n\n"@ + epoch_source(
        timestamp,
    )
}

/// The generated source that describes a build.
pub struct BuildInfo;

impl BuildInfo {
    /// Returns the generated source.
    ///
    /// Returns nothing where the time of the build is no date.
    pub fn source(
        self,
        version_number: u16,
        timestamp: u64,
        v: &Version,
        is_preview: bool,
        is_debug: bool,
    ) -> (r: Option<String>)
        ensures
            match codec::rfc3339(as_signed(timestamp)) {
                Some(time) => r is Some && (r->0)@ == build_source(
                    version_number,
                    codec::quoted(time),
                    timestamp,
                    *v,
                    is_preview,
                    is_debug,
                ),
                None => r is None,
            },
    {
        match codec::format_rfc3339(to_signed(timestamp)) {
            Some(time) => {
                let quoted = codec::quote(time.as_str());
                Some(
                    BuildInfo::source_with(
                        version_number,
                        quoted.as_str(),
                        timestamp,
                        v,
                        is_preview,
                        is_debug,
                    ),
                )
            },
            None => None,
        }
    }

    /// Returns the generated source with a quoted time of the build.
    pub fn source_with(
        version_number: u16,
        quoted_time: &str,
        timestamp: u64,
        v: &Version,
        is_preview: bool,
        is_debug: bool,
    ) -> (r: String)
        ensures
            r@ == build_source(
                version_number,
                quoted_time@,
                timestamp,
                *v,
                is_preview,
                is_debug,
            ),
    {
        let number = if version_number != 0 {
            "pub const BUILD_VERSION: u32 = ".to_owned().concat(
                codec::format_decimal(version_number as u64).as_str(),
            ).concat(";\n")
        } else {
            String::new()
        };
        let time = codec::format_decimal(timestamp);
        let epoch = EPOCH_UNIX.to_owned().concat(time.as_str()).concat(EPOCH_WINDOWS).concat(
            time.as_str(),
        ).concat(EPOCH_END);
        "use crate::app::model::version::{Version, ReleaseStage::*};\n\n".to_owned().concat(
            number.as_str(),
        ).concat("pub const BUILD_TIMESTAMP: &'static str = ").concat(quoted_time).concat(
            ";\n",
        ).concat("/// pub const VERSION_STR: &'static str = \"").concat(v.to_text().as_str()).concat(
            "\";\npub const VERSION: Version = ",
        ).concat(write_version(v).as_str()).concat(";\n").concat(
            "pub const IS_PRERELEASE: bool = ",
        ).concat(write_bool(is_preview)).concat(";\npub const IS_DEBUG: bool = ").concat(
            write_bool(is_debug),
        ).concat(";\n\n").concat(epoch.as_str())
    }
}

/// The seconds as a signed number, with the same bits.
pub open spec fn as_signed(n: u64) -> i64 {
    if n <= i64::MAX {
        n as i64
    } else {
        (n - 0x1_0000_0000_0000_0000) as i64
    }
}

fn to_signed(n: u64) -> (r: i64)
    ensures
        r == as_signed(n),
{
    if n <= i64::MAX as u64 {
        n as i64
    } else {
        (n as i128 - 0x1_0000_0000_0000_0000i128) as i64
    }
}

} // verus!
