//! Versions: `v0.4.0-pre.6+build.8`.

use vstd::prelude::*;
use crate::codec;
use crate::number;
use crate::text;
use crate::text_laws;

verus! {

/// The stage of a release.
#[derive(Debug, Clone, Copy, PartialEq, Eq, Structural)]
pub enum ReleaseStage {
    /// A release.
    Release,
    /// A preview: `-pre.6` or `-pre.6+build.8`.
    Preview {
        /// The number of the preview.
        version: u16,
        /// The number of the build, if there is one.
        build: Option<u16>,
    },
}

/// A version: `v0.4.0-pre.6+build.8`, where `v` can be left out.
#[derive(Debug, Clone, Copy, PartialEq, Eq, Structural)]
pub struct Version {
    pub major: u16,
    pub minor: u16,
    pub patch: u16,
    pub stage: ReleaseStage,
}

/// Why a text is no version.
#[derive(Debug, Clone, Copy, PartialEq, Eq, Structural)]
pub enum ParseError {
    /// There are too few or too many parts.
    InvalidFormat,
    /// A part is no number.
    InvalidNumber,
    /// What follows the numbers is no preview.
    InvalidPreRelease,
    /// What follows the preview is no build.
    InvalidBuild,
}

impl ParseError {
    /// The text of the error.
    pub open spec fn text(self) -> Seq<char> {
        match self {
            ParseError::InvalidFormat => "invalid version format"@,
            ParseError::InvalidNumber => "invalid number in version"@,
            ParseError::InvalidPreRelease => "invalid pre-release format"@,
            ParseError::InvalidBuild => "invalid build format"@,
        }
    }

    /// Returns the text of the error.
    pub fn message(&self) -> (r: &'static str)
        ensures
            r@ == self.text(),
    {
        match self {
            ParseError::InvalidFormat => "invalid version format",
            ParseError::InvalidNumber => "invalid number in version",
            ParseError::InvalidPreRelease => "invalid pre-release format",
            ParseError::InvalidBuild => "invalid build format",
        }
    }
}

/// The text of a stage.
pub open spec fn stage_text(stage: ReleaseStage) -> Seq<char> {
    match stage {
        ReleaseStage::Release => Seq::empty(),
        ReleaseStage::Preview { version, build: None } => "-pre."@ + codec::decimal(version as nat),
        ReleaseStage::Preview { version, build: Some(build) } => "-pre."@ + codec::decimal(
            version as nat,
        ) + "+build."@ + codec::decimal(build as nat),
    }
}

/// The numbers of a version.
pub open spec fn base_text(v: Version) -> Seq<char> {
    codec::decimal(v.major as nat) + "."@ + codec::decimal(v.minor as nat) + "."@ + codec::decimal(
        v.patch as nat,
    )
}

/// The text of a version.
pub open spec fn version_text(v: Version) -> Seq<char> {
    base_text(v) + stage_text(v.stage)
}

impl ReleaseStage {
    /// Returns the text of the stage.
    pub fn to_text(&self) -> (r: String)
        ensures
            r@ == stage_text(*self),
    {
        match self {
            ReleaseStage::Release => String::new(),
            ReleaseStage::Preview { version, build: None } => "-pre.".to_owned().concat(
                codec::format_decimal(*version as u64).as_str(),
            ),
            ReleaseStage::Preview { version, build: Some(build) } => "-pre.".to_owned().concat(
                codec::format_decimal(*version as u64).as_str(),
            ).concat("+build.").concat(codec::format_decimal(*build as u64).as_str()),
        }
    }
}

/// The number of a part of a version.
pub open spec fn part(s: Seq<char>) -> Option<u16> {
    match number::number(s, 0xffff) {
        Some(n) => Some(n as u16),
        None => None,
    }
}

/// The stage that a text names behind `-`: `pre.X` or `pre.X+build.Y`.
pub open spec fn parsed_extension(s: Seq<char>) -> Result<ReleaseStage, ParseError> {
    if !text::begins(s, "pre."@) {
        Err(ParseError::InvalidPreRelease)
    } else {
        let rest = s.skip("pre."@.len() as int);
        match text::find(rest, "+"@, 0) {
            None => match part(rest) {
                Some(version) => Ok(ReleaseStage::Preview { version, build: None }),
                None => Err(ParseError::InvalidPreRelease),
            },
            Some(i) => match part(rest.take(i)) {
                None => Err(ParseError::InvalidPreRelease),
                Some(version) => {
                    let tail = rest.skip(i + 1);
                    if !text::begins(tail, "build."@) {
                        Err(ParseError::InvalidBuild)
                    } else {
                        match part(tail.skip("build."@.len() as int)) {
                            Some(build) => Ok(
                                ReleaseStage::Preview { version, build: Some(build) },
                            ),
                            None => Err(ParseError::InvalidBuild),
                        }
                    }
                },
            },
        }
    }
}

/// The numbers of a version; the error where there are not three.
pub open spec fn parsed_base(s: Seq<char>) -> Result<(u16, u16, u16), ParseError> {
    let p = text::pieces(s, "."@);
    if exists|i: int| 0 <= i < p.len() && i < 3 && part(#[trigger] p[i]) is None {
        Err(ParseError::InvalidNumber)
    } else if p.len() != 3 {
        Err(ParseError::InvalidFormat)
    } else {
        Ok((part(p[0])->0, part(p[1])->0, part(p[2])->0))
    }
}

/// The version that a text without a leading `v` names.
pub open spec fn parsed_plain(s: Seq<char>) -> Result<Version, ParseError> {
    let at = text::find(s, "-"@, 0);
    let base = match at {
        Some(i) => s.take(i),
        None => s,
    };
    match parsed_base(base) {
        Err(e) => Err(e),
        Ok((major, minor, patch)) => match at {
            None => Ok(Version { major, minor, patch, stage: ReleaseStage::Release }),
            Some(i) => match parsed_extension(s.skip(i + 1)) {
                Ok(stage) => Ok(Version { major, minor, patch, stage }),
                Err(e) => Err(e),
            },
        },
    }
}

/// The version that a text names, whether or not it begins with `v`.
pub open spec fn parsed(s: Seq<char>) -> Result<Version, ParseError> {
    if text::begins(s, "v"@) {
        parsed_plain(s.skip(1))
    } else {
        parsed_plain(s)
    }
}

fn parse_part(s: &str) -> (r: Option<u16>)
    ensures
        r == part(s@),
{
    match number::parse(s, 0xffff) {
        Some(n) => Some(n as u16),
        None => None,
    }
}

/// Reads the stage behind `-`.
///
/// # Errors
///
/// Returns an error if the text is no preview, or its build is none.
pub fn parse_extension(s: &str) -> (r: Result<ReleaseStage, ParseError>)
    ensures
        r == parsed_extension(s@),
{
    proof {
        reveal_strlit("+");
    }
    let after_pre = match text::strip_prefix(s, "pre.") {
        Some(rest) => rest,
        None => return Err(ParseError::InvalidPreRelease),
    };
    match text::split_once(after_pre.as_str(), "+") {
        None => match parse_part(after_pre.as_str()) {
            Some(version) => Ok(ReleaseStage::Preview { version, build: None }),
            None => Err(ParseError::InvalidPreRelease),
        },
        Some((version_text, build_part)) => {
            let version = match parse_part(version_text.as_str()) {
                Some(n) => n,
                None => return Err(ParseError::InvalidPreRelease),
            };
            let build_text = match text::strip_prefix(build_part.as_str(), "build.") {
                Some(rest) => rest,
                None => return Err(ParseError::InvalidBuild),
            };
            match parse_part(build_text.as_str()) {
                Some(build) => Ok(ReleaseStage::Preview { version, build: Some(build) }),
                None => Err(ParseError::InvalidBuild),
            }
        },
    }
}

fn parse_base(s: &str) -> (r: Result<(u16, u16, u16), ParseError>)
    ensures
        r == parsed_base(s@),
{
    proof {
        reveal_strlit(".");
    }
    let pieces = text::split(s, ".");
    let ghost p = text::pieces(s@, "."@);
    let mut numbers: Vec<u16> = Vec::new();
    let mut i: usize = 0;
    while i < pieces.len() && i < 3
        invariant
            text::views(pieces@) == p,
            p == text::pieces(s@, "."@),
            i == numbers@.len() <= pieces@.len(),
            i <= 3,
            forall|j: int| 0 <= j < i ==> part(#[trigger] p[j]) == Some(numbers@[j]),
        decreases pieces@.len() - i,
    {
        assert(p[i as int] == pieces@[i as int]@);
        match parse_part(pieces[i].as_str()) {
            Some(n) => numbers.push(n),
            None => return Err(ParseError::InvalidNumber),
        }
        i += 1;
    }
    if pieces.len() != 3 {
        return Err(ParseError::InvalidFormat);
    }
    assert(part(p[0]) == Some(numbers@[0]) && part(p[1]) == Some(numbers@[1]) && part(p[2])
        == Some(numbers@[2]));
    Ok((numbers[0], numbers[1], numbers[2]))
}

fn parse_plain(s: &str) -> (r: Result<Version, ParseError>)
    ensures
        r == parsed_plain(s@),
{
    proof {
        reveal_strlit("-");
    }
    match text::split_once(s, "-") {
        None => match parse_base(s) {
            Ok((major, minor, patch)) => Ok(
                Version { major, minor, patch, stage: ReleaseStage::Release },
            ),
            Err(e) => Err(e),
        },
        Some((base, extension)) => match parse_base(base.as_str()) {
            Ok((major, minor, patch)) => match parse_extension(extension.as_str()) {
                Ok(stage) => Ok(Version { major, minor, patch, stage }),
                Err(e) => Err(e),
            },
            Err(e) => Err(e),
        },
    }
}

impl Version {
    /// Returns the text of the version, without a leading `v`.
    pub fn to_text(&self) -> (r: String)
        ensures
            r@ == version_text(*self),
    {
        codec::format_decimal(self.major as u64).concat(".").concat(
            codec::format_decimal(self.minor as u64).as_str(),
        ).concat(".").concat(codec::format_decimal(self.patch as u64).as_str()).concat(
            self.stage.to_text().as_str(),
        )
    }

    /// Reads a version. The text can begin with `v`.
    ///
    /// # Errors
    ///
    /// Returns an error if the text is no version.
    pub fn parse(s: &str) -> (r: Result<Version, ParseError>)
        ensures
            r == parsed(s@),
    {
        proof {
            reveal_strlit("v");
        }
        match text::strip_prefix(s, "v") {
            Some(rest) => parse_plain(rest.as_str()),
            None => parse_plain(s),
        }
    }
}

impl core::str::FromStr for Version {
    type Err = ParseError;

    fn from_str(s: &str) -> (r: Result<Version, ParseError>)
        ensures
            r == parsed(s@),
    {
        Version::parse(s)
    }
}

proof fn lemma_decimal(n: nat)
    ensures
        codec::decimal(n).len() > 0,
        forall|i: int|
            0 <= i < codec::decimal(n).len() ==> number::is_digit(#[trigger] codec::decimal(n)[i]),
        number::value(codec::decimal(n)) == n,
    decreases n,
{
    if n < 10 {
        assert(codec::decimal(n).drop_last() =~= Seq::empty());
        assert(codec::decimal(n).last() == codec::digit(n));
        assert(number::value(Seq::<char>::empty()) == 0);
    } else {
        lemma_decimal(n / 10);
        assert(codec::decimal(n).drop_last() =~= codec::decimal(n / 10));
        assert(codec::decimal(n).last() == codec::digit(n % 10));
    }
}

/// A number in decimal digits is read back.
pub proof fn part_is_read_back(n: u16)
    ensures
        part(codec::decimal(n as nat)) == Some(n),
{
    lemma_decimal(n as nat);
}

proof fn lemma_free(n: u16, c: char)
    requires
        !number::is_digit(c),
    ensures
        text_laws::free_of(codec::decimal(n as nat), c),
{
    lemma_decimal(n as nat);
}

proof fn lemma_base(v: Version)
    ensures
        parsed_base(base_text(v)) == Ok::<(u16, u16, u16), ParseError>((v.major, v.minor, v.patch)),
        text_laws::free_of(base_text(v), '-'),
{
    reveal_strlit(".");
    let a = codec::decimal(v.major as nat);
    let b = codec::decimal(v.minor as nat);
    let c = codec::decimal(v.patch as nat);
    lemma_free(v.major, '.');
    lemma_free(v.minor, '.');
    lemma_free(v.patch, '.');
    lemma_free(v.major, '-');
    lemma_free(v.minor, '-');
    lemma_free(v.patch, '-');
    part_is_read_back(v.major);
    part_is_read_back(v.minor);
    part_is_read_back(v.patch);
    text_laws::lemma_two_pieces(a, "."@, b);
    text_laws::lemma_piece_more(a + "."@ + b, "."@, c, 0);
    assert(seq![a, b].push(c) =~= seq![a, b, c]);
    assert(text::pieces(base_text(v), "."@) == seq![a, b, c]);
}

#[verifier::spinoff_prover]
#[verifier::rlimit(50)]
proof fn lemma_stage(version: u16, build: Option<u16>)
    ensures
        parsed_extension(stage_text(ReleaseStage::Preview { version, build }).skip(1)) == Ok::<
            ReleaseStage,
            ParseError,
        >(ReleaseStage::Preview { version, build }),
        stage_text(ReleaseStage::Preview { version, build })[0] == '-',
        stage_text(ReleaseStage::Preview { version, build }).len() > 0,
{
    reveal_strlit("-pre.");
    reveal_strlit("pre.");
    reveal_strlit("+build.");
    reveal_strlit("build.");
    reveal_strlit("+");
    let a = codec::decimal(version as nat);
    let s = stage_text(ReleaseStage::Preview { version, build }).skip(1);
    lemma_free(version, '+');
    part_is_read_back(version);
    match build {
        None => {
            assert(s =~= "pre."@ + a);
            assert(s.subrange(0, 4) =~= "pre."@);
            assert(s.skip(4) =~= a);
            text_laws::lemma_find_none(a, "+"@, 0);
        },
        Some(n) => {
            let b = codec::decimal(n as nat);
            part_is_read_back(n);
            let rest = a + "+build."@ + b;
            assert(s =~= "pre."@ + rest);
            assert(s.subrange(0, 4) =~= "pre."@);
            assert(s.skip(4) =~= rest);
            assert(rest.subrange(a.len() as int, a.len() as int + 1) =~= "+"@);
            assert forall|i: int| 0 <= i < a.len() implies #[trigger] rest[i] != '+' by {
                assert(rest[i] == a[i]);
            }
            text_laws::lemma_find_at(rest, "+"@, 0, a.len() as int);
            assert(rest.take(a.len() as int) =~= a);
            let tail = rest.skip(a.len() as int + 1);
            assert(tail =~= "build."@ + b);
            assert(tail.subrange(0, 6) =~= "build."@);
            assert(tail.skip(6) =~= b);
        },
    }
}

/// The text of a version is read back as the version, whether or not `v` is put before it.
pub proof fn version_is_read_back(v: Version)
    ensures
        parsed(version_text(v)) == Ok::<Version, ParseError>(v),
        parsed("v"@ + version_text(v)) == Ok::<Version, ParseError>(v),
{
    reveal_strlit("-");
    reveal_strlit("v");
    lemma_base(v);
    let base = base_text(v);
    let s = version_text(v);
    assert(!text::begins(s, "v"@)) by {
        lemma_decimal(v.major as nat);
        assert(s[0] == codec::decimal(v.major as nat)[0]);
        if text::begins(s, "v"@) {
            assert(s.subrange(0, 1)[0] == s[0]);
        }
    }
    assert(text::begins("v"@ + s, "v"@)) by {
        assert(("v"@ + s).subrange(0, 1) =~= "v"@);
    }
    assert(("v"@ + s).skip(1) =~= s);
    match v.stage {
        ReleaseStage::Release => {
            assert(s =~= base);
            text_laws::lemma_find_none(s, "-"@, 0);
        },
        ReleaseStage::Preview { version, build } => {
            lemma_stage(version, build);
            let n = base.len() as int;
            assert(s.subrange(n, n + 1) =~= "-"@);
            assert forall|i: int| 0 <= i < n implies #[trigger] s[i] != '-' by {
                assert(s[i] == base[i]);
            }
            text_laws::lemma_find_at(s, "-"@, 0, n);
            assert(s.take(n) =~= base);
            assert(s.skip(n + 1) =~= stage_text(v.stage).skip(1));
        },
    }
}

} // verus!
