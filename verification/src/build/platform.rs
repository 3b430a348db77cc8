//! Platforms.

use vstd::prelude::*;
use crate::codec;
use crate::text;

verus! {

/// A platform.
#[allow(non_camel_case_types)]
#[derive(Debug, Clone, Copy, PartialEq, Eq, Structural)]
pub enum PlatformType {
    Windows,
    macOS,
    Linux,
    Android,
    FreeBSD,
    Unknown,
}

impl PlatformType {
    /// The name of the platform.
    pub open spec fn name(self) -> Seq<char> {
        match self {
            PlatformType::Windows => "Windows"@,
            PlatformType::macOS => "macOS"@,
            PlatformType::Linux => "Linux"@,
            PlatformType::Android => "Android"@,
            PlatformType::FreeBSD => "FreeBSD"@,
            PlatformType::Unknown => "Unknown"@,
        }
    }

    /// Returns the name of the platform.
    pub fn as_str(self) -> (r: &'static str)
        ensures
            r@ == self.name(),
    {
        match self {
            PlatformType::Windows => "Windows",
            PlatformType::macOS => "macOS",
            PlatformType::Linux => "Linux",
            PlatformType::Android => "Android",
            PlatformType::FreeBSD => "FreeBSD",
            PlatformType::Unknown => "Unknown",
        }
    }

    /// The platform, or Windows where clients do not come from it.
    pub open spec fn usual(self) -> PlatformType {
        match self {
            PlatformType::Windows | PlatformType::macOS | PlatformType::Linux => self,
            _ => PlatformType::Windows,
        }
    }

    /// Returns the platform, or Windows where clients do not come from it.
    pub fn or_default(self) -> (r: PlatformType)
        ensures
            r == self.usual(),
    {
        match self {
            PlatformType::Windows | PlatformType::macOS | PlatformType::Linux => self,
            _ => PlatformType::Windows,
        }
    }
}

/// The generated source with the default platform and the example of the configuration.
pub struct PlatformInfo;

/// The generated source, with the quoted example.
pub open spec fn platform_source(default: PlatformType, quoted: Seq<char>) -> Seq<char> {
    "use crate::app::model::platform::PlatformType;\n\n"@
        + "pub const DEFAULT: PlatformType = PlatformType::"@ + default.name() + ";\n"@
        + "pub const CONFIG_EXAMPLE: &'static str = "@ + quoted + ";\n"@
}

/// The example of the configuration for a platform.
pub open spec fn example_for(template: Seq<char>, default: PlatformType) -> Seq<char> {
    text::replaced(template, "{DEFAULT_PLATFORM}"@, default.name())
}

impl PlatformInfo {
    /// Returns the generated source for a platform, from the template of the example.
    pub fn source(self, current: PlatformType, template: &str) -> (r: String)
        ensures
            r@ == platform_source(
                current.usual(),
                codec::quoted(example_for(template@, current.usual())),
            ),
    {
        let default = current.or_default();
        let example = PlatformInfo::example(default, template);
        PlatformInfo::source_with(default, codec::quote(example.as_str()).as_str())
    }

    /// Returns the example of the configuration for a platform.
    pub fn example(default: PlatformType, template: &str) -> (r: String)
        ensures
            r@ == example_for(template@, default),
    {
        proof {
            reveal_strlit("{DEFAULT_PLATFORM}");
        }
        text::replace(template, "{DEFAULT_PLATFORM}", default.as_str())
    }

    /// Returns the generated source with a quoted example.
    pub fn source_with(default: PlatformType, quoted: &str) -> (r: String)
        ensures
            r@ == platform_source(default, quoted@),
    {
        "use crate::app::model::platform::PlatformType;\n\n".to_owned().concat(
            "pub const DEFAULT: PlatformType = PlatformType::",
        ).concat(default.as_str()).concat(";\n").concat(
            "pub const CONFIG_EXAMPLE: &'static str = ",
        ).concat(quoted).concat(";\n")
    }
}

/// The default platform is one that clients come from, and its own default.
pub proof fn default_is_usual(p: PlatformType)
    ensures
        p.usual() is Windows || p.usual() is macOS || p.usual() is Linux,
        p.usual().usual() == p.usual(),
{
}

} // verus!
