//! What the description of a build says, and how versions are read and written.

use vstd::prelude::*;
use crate::build::info;
use crate::build::info::{write_version, BuildInfo};
use crate::build::once::{initialize, initialized, Once};
use crate::build::platform::{PlatformInfo, PlatformType};
use crate::build::variables::{build_timestamp, is_preview, pkg_version, version_number};
use crate::build::version;
use crate::build::version::{parse_extension, ParseError, ReleaseStage, Version};
use crate::codec;
use crate::number;
use crate::text;
use crate::text_laws;

verus! {

/// The text writes the number.
pub open spec fn writes(s: Seq<char>, n: u16) -> bool {
    number::number(s, 65535) == Some(n as nat)
}

/// The text writes no number that a part of a version can have.
pub open spec fn writes_none(s: Seq<char>) -> bool {
    number::number(s, 65535) is None
}

proof fn lemma_part(s: Seq<char>)
    ensures
        version::part(s) is None <==> writes_none(s),
        version::part(s) matches Some(n) ==> writes(s, n),
{
}

/// What follows the numbers of a version names its stage.
pub open spec fn names_stage(s: Seq<char>, stage: ReleaseStage) -> bool {
    match stage {
        ReleaseStage::Release => s.len() == 0,
        ReleaseStage::Preview { version, build: None } => exists|x: Seq<char>|
            s == "-pre."@ + x && #[trigger] writes(x, version),
        ReleaseStage::Preview { version, build: Some(n) } => exists|x: Seq<char>, y: Seq<char>|
            s == "-pre."@ + x + "+build."@ + y && #[trigger] writes(x, version)
                && #[trigger] writes(y, n),
    }
}

/// The text is three numbers between dots, and a stage.
pub open spec fn names_version(s: Seq<char>, v: Version) -> bool {
    exists|a: Seq<char>, b: Seq<char>, c: Seq<char>, ext: Seq<char>|
        #![trigger writes(a, v.major), writes(b, v.minor), writes(c, v.patch), names_stage(ext, v.stage)]
        s == a + "."@ + b + "."@ + c + ext && writes(a, v.major) && writes(b, v.minor) && writes(
            c,
            v.patch,
        ) && names_stage(ext, v.stage)
}

proof fn lemma_cut(s: Seq<char>, p: Seq<char>)
    ensures
        text::find(s, p, 0) matches Some(i) ==> 0 <= i && i + p.len() <= s.len() && s == s.take(i)
            + p + s.skip(i + p.len()),
        text::begins(s, p) ==> s == p + s.skip(p.len() as int),
{
    text_laws::lemma_find_props(s, p, 0);
    if let Some(i) = text::find(s, p, 0) {
        assert(s.subrange(i, i + p.len()) == p);
        assert(s =~= s.take(i) + p + s.skip(i + p.len()));
    }
    if text::begins(s, p) {
        assert(s.subrange(0, p.len() as int) == p);
        assert(s =~= p + s.skip(p.len() as int));
    }
}

/// Only a text that names a version is read as one: three numbers between dots, behind a `v` or not,
/// and then nothing, a preview, or a preview with a build.
pub proof fn only_versions_are_read(s: &str, r: Result<Version, ParseError>)
    requires
        call_ensures(Version::parse, (s,), r),
        r is Ok,
    ensures
        names_version(s@, r->Ok_0) || exists|t: Seq<char>|
            s@ == "v"@ + t && #[trigger] names_version(t, r->Ok_0),
{
    reveal_strlit("v");
    lemma_cut(s@, "v"@);
    if text::begins(s@, "v"@) {
        lemma_plain(s@.skip(1));
        assert(s@ == "v"@ + s@.skip(1));
    } else {
        lemma_plain(s@);
    }
}

proof fn lemma_plain(s: Seq<char>)
    ensures
        version::parsed_plain(s) matches Ok(v) ==> names_version(s, v),
{
    reveal_strlit("-");
    if let Ok(v) = version::parsed_plain(s) {
        let at = text::find(s, "-"@, 0);
        lemma_cut(s, "-"@);
        let base = match at {
            Some(i) => s.take(i),
            None => s,
        };
        let ext = match at {
            Some(i) => "-"@ + s.skip(i + 1),
            None => Seq::empty(),
        };
        assert(s =~= base + ext);
        lemma_three(base);
        if let Some(i) = at {
            lemma_named(s.skip(i + 1));
        }
        assert(names_stage(ext, v.stage));
        let p = text::pieces(base, "."@);
        let (a, b, c) = (p[0], p[1], p[2]);
        assert(writes(a, v.major) && writes(b, v.minor) && writes(c, v.patch));
        assert(s == a + "."@ + b + "."@ + c + ext);
    }
}

proof fn lemma_three(base: Seq<char>)
    ensures
        version::parsed_base(base) matches Ok((x, y, z)) ==> {
            let p = text::pieces(base, "."@);
            &&& p.len() == 3
            &&& base == p[0] + "."@ + p[1] + "."@ + p[2]
            &&& writes(p[0], x) && writes(p[1], y) && writes(p[2], z)
        },
{
    reveal_strlit(".");
    let p = text::pieces(base, "."@);
    if version::parsed_base(base) is Ok {
        text_laws::pieces_make_the_text(base, "."@);
        assert(version::part(p[0]) is Some && version::part(p[1]) is Some && version::part(
            p[2],
        ) is Some);
        let d = p.drop_last();
        assert(d.drop_last().len() == 1);
        assert(text::joined(d.drop_last(), "."@) == p[0]);
        assert(text::joined(d, "."@) == p[0] + "."@ + p[1]);
        assert(text::joined(p, "."@) == text::joined(d, "."@) + "."@ + p[2]);
    }
}

proof fn lemma_named(t: Seq<char>)
    ensures
        version::parsed_extension(t) matches Ok(stage) ==> names_stage("-"@ + t, stage),
{
    reveal_strlit("-");
    reveal_strlit("pre.");
    reveal_strlit("-pre.");
    reveal_strlit("+");
    reveal_strlit("build.");
    reveal_strlit("+build.");
    if let Ok(stage) = version::parsed_extension(t) {
        lemma_cut(t, "pre."@);
        let rest = t.skip(4);
        lemma_cut(rest, "+"@);
        match text::find(rest, "+"@, 0) {
            None => {
                assert("-"@ + t =~= "-pre."@ + rest);
                assert(writes(rest, stage->version));
            },
            Some(j) => {
                let x = rest.take(j);
                let tail = rest.skip(j + 1);
                lemma_cut(tail, "build."@);
                let y = tail.skip(6);
                assert("-"@ + t =~= "-pre."@ + x + "+build."@ + y);
                assert(writes(x, stage->version));
                assert(writes(y, stage->build->0));
            },
        }
    }
}

/// Three numbers between dots are read as a release, whatever way they are written; where one of
/// them is none, that is told.
pub proof fn three_numbers_are_a_release(
    s: &str,
    r: Result<Version, ParseError>,
    a: Seq<char>,
    b: Seq<char>,
    c: Seq<char>,
)
    requires
        call_ensures(Version::parse, (s,), r),
        s@ == a + "."@ + b + "."@ + c,
        text_laws::free_of(a, '.') && text_laws::free_of(a, '-') && text_laws::free_of(a, 'v'),
        text_laws::free_of(b, '.') && text_laws::free_of(b, '-'),
        text_laws::free_of(c, '.') && text_laws::free_of(c, '-'),
    ensures
        r matches Ok(v) ==> v.stage is Release && writes(a, v.major) && writes(b, v.minor)
            && writes(c, v.patch),
        r is Ok <==> !writes_none(a) && !writes_none(b) && !writes_none(c),
        r matches Err(e) ==> e is InvalidNumber,
{
    reveal_strlit("v");
    reveal_strlit("-");
    reveal_strlit(".");
    assert(!text::begins(s@, "v"@)) by {
        if text::begins(s@, "v"@) {
            assert(s@.subrange(0, 1)[0] == s@[0]);
            if a.len() > 0 {
                assert(s@[0] == a[0]);
            } else {
                assert(s@[0] == '.');
            }
        }
    }
    let t = a + "."@ + b;
    assert forall|i: int| 0 <= i < s@.len() implies #[trigger] s@[i] != '-' by {
        if i < a.len() {
            assert(s@[i] == a[i]);
        } else if i == a.len() {
        } else if i < t.len() {
            assert(s@[i] == b[i - a.len() - 1]);
        } else if i > t.len() {
            assert(s@[i] == c[i - t.len() - 1]);
        }
    }
    text_laws::lemma_find_none(s@, "-"@, 0);
    text_laws::lemma_two_pieces(a, "."@, b);
    text_laws::lemma_piece_more(t, "."@, c, 0);
    let p = text::pieces(s@, "."@);
    assert(p =~= seq![a, b, c]);
    lemma_part(a);
    lemma_part(b);
    lemma_part(c);
    assert(p[0] == a && p[1] == b && p[2] == c);
}

/// Fewer or more than three numbers between dots are no version.
pub proof fn other_counts_are_no_version(
    s: &str,
    r: Result<Version, ParseError>,
)
    requires
        call_ensures(Version::parse, (s,), r),
        text_laws::free_of(s@, '-'),
        !text::begins(s@, "v"@),
        text::pieces(s@, "."@).len() != 3,
    ensures
        r matches Err(e) && (e is InvalidFormat <==> forall|i: int|
            0 <= i < 3 && i < text::pieces(s@, "."@).len() ==> !writes_none(
                #[trigger] text::pieces(s@, "."@)[i],
            )),
        r matches Err(e) && (e is InvalidFormat || e is InvalidNumber),
{
    reveal_strlit("-");
    text_laws::lemma_find_none(s@, "-"@, 0);
    let p = text::pieces(s@, "."@);
    assert forall|i: int| 0 <= i < p.len() implies (version::part(#[trigger] p[i]) is None
        <==> writes_none(p[i])) by {
        lemma_part(p[i]);
    }
}

/// A `v` before a version changes nothing.
pub proof fn leading_v_changes_nothing(
    s: &str,
    t: &str,
    r: Result<Version, ParseError>,
    q: Result<Version, ParseError>,
)
    requires
        call_ensures(Version::parse, (s,), r),
        call_ensures(Version::parse, (t,), q),
        !text::begins(s@, "v"@),
        t@ == "v"@ + s@,
    ensures
        r == q,
{
    reveal_strlit("v");
    assert(t@.subrange(0, 1) =~= "v"@);
    assert(t@.skip(1) =~= s@);
}

/// The text of a version is its numbers between dots, and its stage: `-pre.` with the number of a
/// preview, and `+build.` with that of its build. Read again, with or without a `v`, it is the
/// version.
pub proof fn versions_are_written_and_read(
    v: &Version,
    t: String,
    s: &str,
    r: Result<Version, ParseError>,
    stage: &ReleaseStage,
    st: String,
)
    requires
        call_ensures(Version::to_text, (v,), t),
        call_ensures(Version::parse, (s,), r),
        s@ == t@ || s@ == "v"@ + t@,
        call_ensures(ReleaseStage::to_text, (stage,), st),
        *stage == v.stage,
    ensures
        r == Ok::<Version, ParseError>(*v),
        t@ == codec::decimal(v.major as nat) + "."@ + codec::decimal(v.minor as nat) + "."@
            + codec::decimal(v.patch as nat) + st@,
        *stage is Release ==> st@.len() == 0,
        *stage matches ReleaseStage::Preview { version, build } ==> (build is None ==> st@
            == "-pre."@ + codec::decimal(version as nat)) && (build matches Some(n) ==> st@
            == "-pre."@ + codec::decimal(version as nat) + "+build."@ + codec::decimal(n as nat)),
{
    version::version_is_read_back(*v);
}

/// What follows the dash of a version is a preview with its number, and a build with its own where
/// a plus sign follows; anything else is told apart.
pub proof fn extensions_are_read(
    s: &str,
    r: Result<ReleaseStage, ParseError>,
    x: Seq<char>,
    z: Seq<char>,
    y: Seq<char>,
)
    requires
        call_ensures(parse_extension, (s,), r),
        text_laws::free_of(x, '+'),
    ensures
        !text::begins(s@, "pre."@) ==> r == Err::<ReleaseStage, ParseError>(
            ParseError::InvalidPreRelease,
        ),
        s@ == "pre."@ + x ==> {
            &&& writes_none(x) ==> r == Err::<ReleaseStage, ParseError>(
                ParseError::InvalidPreRelease,
            )
            &&& !writes_none(x) ==> (r matches Ok(ReleaseStage::Preview { version, build })
                && build is None && writes(x, version))
        },
        s@ == "pre."@ + x + "+"@ + z ==> {
            &&& writes_none(x) ==> r == Err::<ReleaseStage, ParseError>(
                ParseError::InvalidPreRelease,
            )
            &&& !writes_none(x) && !text::begins(z, "build."@) ==> r == Err::<
                ReleaseStage,
                ParseError,
            >(ParseError::InvalidBuild)
            &&& !writes_none(x) && z == "build."@ + y && writes_none(y) ==> r == Err::<
                ReleaseStage,
                ParseError,
            >(ParseError::InvalidBuild)
            &&& !writes_none(x) && z == "build."@ + y && !writes_none(y) ==> (r matches Ok(
                ReleaseStage::Preview { version, build },
            ) && writes(x, version) && build is Some && writes(y, build->0))
        },
{
    reveal_strlit("pre.");
    reveal_strlit("+");
    reveal_strlit("build.");
    lemma_part(x);
    lemma_part(y);
    if s@ == "pre."@ + x {
        assert(s@.subrange(0, 4) =~= "pre."@);
        assert(s@.skip(4) =~= x);
        text_laws::lemma_find_none(x, "+"@, 0);
    }
    if s@ == "pre."@ + x + "+"@ + z {
        let rest = x + "+"@ + z;
        assert(s@.subrange(0, 4) =~= "pre."@);
        assert(s@.skip(4) =~= rest);
        let n = x.len() as int;
        assert(rest.subrange(n, n + 1) =~= "+"@);
        assert forall|i: int| 0 <= i < n implies #[trigger] rest[i] != '+' by {
            assert(rest[i] == x[i]);
        }
        text_laws::lemma_find_at(rest, "+"@, 0, n);
        assert(rest.take(n) =~= x);
        assert(rest.skip(n + 1) =~= z);
        if z == "build."@ + y {
            assert(z.subrange(0, 6) =~= "build."@);
            assert(z.skip(6) =~= y);
        }
    }
}

/// Each reason why a text is no version has its own words.
pub proof fn reasons_have_words(e: &ParseError, r: &'static str)
    requires
        call_ensures(ParseError::message, (e,), r),
    ensures
        *e is InvalidFormat ==> r@ == "invalid version format"@,
        *e is InvalidNumber ==> r@ == "invalid number in version"@,
        *e is InvalidPreRelease ==> r@ == "invalid pre-release format"@,
        *e is InvalidBuild ==> r@ == "invalid build format"@,
{
}

/// The time of a build is the one that is set, or else the current one; it is never made up.
pub proof fn build_time_is_taken(variable: Option<&str>, now: u64, r: Option<u64>)
    requires
        call_ensures(build_timestamp, (variable, now), r),
    ensures
        variable is None ==> r == Some(now),
        variable is Some ==> (r is None <==> number::number(variable->0@, u64::MAX as nat) is None),
        variable is Some && r is Some ==> number::number(variable->0@, u64::MAX as nat) == Some(
            r->0 as nat,
        ),
{
}

/// A build is a preview exactly where its features say so; a release has the number zero, a preview
/// the one that is written, with any white space around it.
pub proof fn previews_have_numbers(
    features: &str,
    preview: bool,
    number_text: &str,
    r: Option<u16>,
    zero: Option<u16>,
)
    requires
        call_ensures(is_preview, (features,), preview),
        call_ensures(version_number, (true, number_text), r),
        call_ensures(version_number, (false, number_text), zero),
    ensures
        preview <==> exists|i: int| #[trigger] text::occurs_at(features@, "__preview"@, i),
        zero == Some(0u16),
        r is None <==> writes_none(text::trimmed(number_text@)),
        r matches Some(n) ==> writes(text::trimmed(number_text@), n),
{
    text_laws::first_occurrence_is_found(features@, "__preview"@, 0);
}

/// The version of the package is the one that its text names; only the build of a preview is set to
/// the number of the build.
pub proof fn package_version_gets_its_build(
    package: &str,
    build: u16,
    r: Result<Version, ParseError>,
    q: Result<Version, ParseError>,
)
    requires
        call_ensures(pkg_version, (package, build), r),
        call_ensures(Version::parse, (package,), q),
    ensures
        q matches Err(e) ==> r == Err::<Version, ParseError>(e),
        q matches Ok(v) ==> r is Ok && {
            let w = r->Ok_0;
            &&& w.major == v.major && w.minor == v.minor && w.patch == v.patch
            &&& v.stage is Release ==> w.stage is Release
            &&& v.stage matches ReleaseStage::Preview { version, build: b } ==> w.stage == (
            ReleaseStage::Preview { version, build: Some(build) })
        },
{
}

/// The name of a platform is its own; clients come from Windows, macOS and Linux, and Windows stands
/// for any other.
pub proof fn platforms_have_names(p: PlatformType, name: &'static str, usual: PlatformType)
    requires
        call_ensures(PlatformType::as_str, (p,), name),
        call_ensures(PlatformType::or_default, (p,), usual),
    ensures
        p is Windows ==> name@ == "Windows"@ && usual is Windows,
        p is macOS ==> name@ == "macOS"@ && usual is macOS,
        p is Linux ==> name@ == "Linux"@ && usual is Linux,
        p is Android ==> name@ == "Android"@ && usual is Windows,
        p is FreeBSD ==> name@ == "FreeBSD"@ && usual is Windows,
        p is Unknown ==> name@ == "Unknown"@ && usual is Windows,
{
}

/// The example of the configuration is the template with the name of the platform in each place for
/// it, and nothing else changed.
pub proof fn examples_name_the_platform(
    p: PlatformType,
    template: &str,
    r: String,
    name: &'static str,
)
    requires
        call_ensures(PlatformInfo::example, (p, template), r),
        call_ensures(PlatformType::as_str, (p,), name),
    ensures
        r@ == text::joined(text::pieces(template@, "{DEFAULT_PLATFORM}"@), name@),
        !text::has(template@, "{DEFAULT_PLATFORM}"@) ==> r@ == template@,
{
    reveal_strlit("{DEFAULT_PLATFORM}");
    text_laws::replacing_keeps_pieces(template@, "{DEFAULT_PLATFORM}"@, name@);
}

/// The generated source names the default platform, and quotes the example for it.
pub proof fn platform_source_quotes_the_example(
    p: PlatformType,
    usual: PlatformType,
    name: &'static str,
    template: &str,
    r: String,
    example: String,
    quoted: &str,
    with: String,
)
    requires
        call_ensures(PlatformInfo::source, (PlatformInfo, p, template), r),
        call_ensures(PlatformType::or_default, (p,), usual),
        call_ensures(PlatformType::as_str, (usual,), name),
        call_ensures(PlatformInfo::example, (usual, template), example),
        call_ensures(PlatformInfo::source_with, (usual, quoted), with),
        quoted@ == codec::quoted(example@),
    ensures
        r@ == with@,
        with@ == "use crate::app::model::platform::PlatformType;\n\n"@
            + "pub const DEFAULT: PlatformType = PlatformType::"@ + name@ + ";\n"@
            + "pub const CONFIG_EXAMPLE: &'static str = "@ + quoted@ + ";\n"@,
{
}

/// A version is written as source with its fields.
pub proof fn version_source_has_the_fields(v: &Version, r: String)
    requires
        call_ensures(write_version, (v,), r),
    ensures
        v.stage is Release ==> r@ == "Version { major: "@ + codec::decimal(v.major as nat)
            + ", minor: "@ + codec::decimal(v.minor as nat) + ", patch: "@ + codec::decimal(
            v.patch as nat,
        ) + ", stage: "@ + "Release"@ + " }"@,
        v.stage matches ReleaseStage::Preview { version, build } ==> r@ == "Version { major: "@
            + codec::decimal(v.major as nat) + ", minor: "@ + codec::decimal(v.minor as nat)
            + ", patch: "@ + codec::decimal(v.patch as nat) + ", stage: "@ + ("Preview { version: "@
            + codec::decimal(version as nat) + ", build: "@ + (match build {
            Some(n) => "Some("@ + codec::decimal(n as nat) + ")"@,
            None => "None"@,
        }) + " }"@) + " }"@,
{
}

/// The source that describes a build tells its number, where it has one, its time, its version, and
/// whether it is a preview or made for debugging; each of these in its own place.
pub proof fn build_source_tells_the_build(
    number: u16,
    quoted: &str,
    timestamp: u64,
    v: &Version,
    preview: bool,
    debug: bool,
    r: String,
    text: String,
    fields: String,
)
    requires
        call_ensures(
            BuildInfo::source_with,
            (number, quoted, timestamp, v, preview, debug),
            r,
        ),
        call_ensures(Version::to_text, (v,), text),
        call_ensures(write_version, (v,), fields),
    ensures
        r@ == "use crate::app::model::version::{Version, ReleaseStage::*};\n\n"@ + (if number == 0 {
            Seq::empty()
        } else {
            "pub const BUILD_VERSION: u32 = "@ + codec::decimal(number as nat) + ";\n"@
        }) + "pub const BUILD_TIMESTAMP: &'static str = "@ + quoted@ + ";\n"@
            + "/// pub const VERSION_STR: &'static str = \""@ + text@
            + "\";\npub const VERSION: Version = "@ + fields@ + ";\n"@
            + "pub const IS_PRERELEASE: bool = "@ + (if preview {
            "true"@
        } else {
            "false"@
        }) + ";\npub const IS_DEBUG: bool = "@ + (if debug {
            "true"@
        } else {
            "false"@
        }) + ";\n\n"@ + (info::EPOCH_UNIX@ + codec::decimal(timestamp as nat) + info::EPOCH_WINDOWS@
            + codec::decimal(timestamp as nat) + info::EPOCH_END@),
{
}

/// The source has the time of the build as a date, quoted; there is none where the time is no date.
pub proof fn build_source_has_the_date(
    number: u16,
    timestamp: u64,
    v: &Version,
    preview: bool,
    debug: bool,
    r: Option<String>,
    quoted: &str,
    with: String,
    date: i64,
)
    requires
        call_ensures(BuildInfo::source, (BuildInfo, number, timestamp, v, preview, debug), r),
        call_ensures(
            BuildInfo::source_with,
            (number, quoted, timestamp, v, preview, debug),
            with,
        ),
        date == timestamp || date == timestamp - 0x1_0000_0000_0000_0000,
    ensures
        r is None <==> codec::rfc3339(date) is None,
        r is Some && quoted@ == codec::quoted(codec::rfc3339(date)->0) ==> (r->0)@ == with@,
{
}

/// Work is done the first time that it is asked for, and not again.
pub proof fn work_is_done_once<F: FnOnce()>(
    fresh: Once,
    before: bool,
    o: &mut Once,
    f: F,
    r: bool,
    earlier: bool,
    later: bool,
)
    requires
        call_ensures(Once::new, (), fresh),
        call_ensures(initialized, (&fresh,), before),
        call_ensures(initialize::<F>, (o, f), r),
        call_ensures(initialized, (old(o),), earlier),
        call_ensures(initialized, (final(o),), later),
    ensures
        !before,
        later,
        r <==> !earlier,
        r ==> call_ensures(f, (), ()),
{
}

} // verus!
