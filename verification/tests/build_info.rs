use cursor_api::build::info::{write_version, BuildInfo};
use cursor_api::build::once::{initialize, initialized, Once};
use cursor_api::build::platform::{PlatformInfo, PlatformType};
use cursor_api::build::variables::{build_timestamp, is_preview, pkg_version, version_number};
use cursor_api::build::version::{parse_extension, ParseError, ReleaseStage, Version};
use cursor_api::dynamic_key::{get_hash, hex_to_byte, init, message_of, update, RawToken, Secret};
use cursor_api::niche_types::{NonNegativeI16, NonNegativeI8};
use cursor_api::number;

fn version(stage: ReleaseStage) -> Version {
    Version {
        major: 0,
        minor: 4,
        patch: 12,
        stage,
    }
}

fn preview(version: u16, build: Option<u16>) -> ReleaseStage {
    ReleaseStage::Preview { version, build }
}

#[test]
fn versions_are_written_and_read_back() {
    let versions = vec![
        (version(ReleaseStage::Release), "0.4.12"),
        (version(preview(6, None)), "0.4.12-pre.6"),
        (version(preview(6, Some(8))), "0.4.12-pre.6+build.8"),
    ];
    for (v, text) in versions {
        assert_eq!(v.to_text(), text);
        assert_eq!(Version::parse(text), Ok(v));
        assert_eq!(text.parse::<Version>(), Ok(v));
    }
    assert_eq!(
        Version::parse("v0.4.0-pre.6+build.8"),
        Ok(Version {
            major: 0,
            minor: 4,
            patch: 0,
            stage: ReleaseStage::Preview { version: 6, build: Some(8) },
        })
    );
    assert_eq!(Version::parse("v0.4.0"), Version::parse("0.4.0"));
    assert_eq!(Version::parse("vv0.4.0"), Err(ParseError::InvalidNumber));
    assert_eq!(Version::parse("+1.+2.+3").map(|v| v.to_text()), Ok("1.2.3".to_owned()));
}

#[test]
fn broken_versions_are_refused() {
    assert_eq!(Version::parse("1.2"), Err(ParseError::InvalidFormat));
    assert_eq!(Version::parse("1.2.3.4"), Err(ParseError::InvalidFormat));
    assert_eq!(Version::parse("1.x"), Err(ParseError::InvalidNumber));
    assert_eq!(Version::parse("1.2.65536"), Err(ParseError::InvalidNumber));
    assert_eq!(Version::parse(""), Err(ParseError::InvalidNumber));
    assert_eq!(Version::parse("1.2.3-rc.1"), Err(ParseError::InvalidPreRelease));
    assert_eq!(Version::parse("1.2.3-pre.x"), Err(ParseError::InvalidPreRelease));
    assert_eq!(Version::parse("1.2.3-pre.1+8"), Err(ParseError::InvalidBuild));
    assert_eq!(Version::parse("1.2.3-pre.1+build."), Err(ParseError::InvalidBuild));
    assert_eq!(parse_extension("pre.1+build.2"), Ok(preview(1, Some(2))));
    assert_eq!(ParseError::InvalidFormat.message(), "invalid version format");
    assert_eq!(ParseError::InvalidNumber.message(), "invalid number in version");
    assert_eq!(ParseError::InvalidPreRelease.message(), "invalid pre-release format");
    assert_eq!(ParseError::InvalidBuild.message(), "invalid build format");
}

#[test]
fn numbers_in_text() {
    assert_eq!(number::parse("0", 9), Some(0));
    assert_eq!(number::parse("+007", 9), Some(7));
    assert_eq!(number::parse("10", 9), None);
    assert_eq!(number::parse("+", 9), None);
    assert_eq!(number::parse("-1", 9), None);
    assert_eq!(number::parse("18446744073709551615", u64::MAX), Some(u64::MAX));
    assert_eq!(number::parse("18446744073709551616", u64::MAX), None);
}

#[test]
fn variables_of_a_build() {
    assert_eq!(build_timestamp(Some("12"), 5), Some(12));
    assert_eq!(build_timestamp(Some("x"), 5), None);
    assert_eq!(build_timestamp(None, 5), Some(5));
    assert!(is_preview("a,__preview"));
    assert!(!is_preview("preview"));
    assert_eq!(version_number(true, " 17\n"), Some(17));
    assert_eq!(version_number(true, "x"), None);
    assert_eq!(version_number(false, "x"), Some(0));
    assert_eq!(
        pkg_version("0.4.12-pre.6", 9),
        Ok(version(preview(6, Some(9))))
    );
    assert_eq!(pkg_version("0.4.12", 9), Ok(version(ReleaseStage::Release)));
    assert_eq!(pkg_version("x", 9), Err(ParseError::InvalidNumber));
}

#[test]
fn platforms() {
    assert_eq!(PlatformType::macOS.as_str(), "macOS");
    assert_eq!(PlatformType::FreeBSD.or_default(), PlatformType::Windows);
    assert_eq!(PlatformType::Linux.or_default(), PlatformType::Linux);
    let source = PlatformInfo.source(PlatformType::Android, "p = \"{DEFAULT_PLATFORM}\"\n");
    assert_eq!(
        source,
        "use crate::app::model::platform::PlatformType;\n\npub const DEFAULT: PlatformType = PlatformType::Windows;\npub const CONFIG_EXAMPLE: &'static str = \"p = \\\"Windows\\\"\\n\";\n"
    );
}

#[test]
fn source_of_a_build() {
    let v = version(preview(6, Some(8)));
    assert_eq!(write_version(&v), format!("{:?}", v));
    let release = version(ReleaseStage::Release);
    assert_eq!(write_version(&release), format!("{:?}", release));
    let source = BuildInfo.source(8, 0, &v, true, false).unwrap();
    assert!(source.starts_with(
        "use crate::app::model::version::{Version, ReleaseStage::*};\n\npub const BUILD_VERSION: u32 = 8;\npub const BUILD_TIMESTAMP: &'static str = \"1970-01-01T00:00:00Z\";\n/// pub const VERSION_STR: &'static str = \"0.4.12-pre.6+build.8\";\n"
    ));
    assert!(source.contains("pub const IS_PRERELEASE: bool = true;\npub const IS_DEBUG: bool = false;\n"));
    assert!(source.contains("transmute((0i64, 0u32))"));
    let source = BuildInfo.source(0, 1_000_000_000, &v, true, false).unwrap();
    assert!(!source.contains("BUILD_VERSION"));
    assert!(source.contains("\"2001-09-09T01:46:40Z\""));
    assert!(BuildInfo.source(0, i64::MAX as u64, &v, true, false).is_none());
}

#[test]
fn work_is_done_once() {
    let mut once = Once::new();
    let mut count = 0;
    assert!(!initialized(&once));
    assert!(initialize(&mut once, || count += 1));
    assert!(initialized(&once));
    assert!(!initialize(&mut once, || count += 1));
    assert_eq!(count, 1);
    assert!(!initialize(&mut once, || panic!("done already")));
    assert!(initialized(&once));
}

#[test]
fn integers_that_are_not_negative() {
    assert_eq!(NonNegativeI8::new(-1), None);
    assert_eq!(NonNegativeI8::new(0), Some(NonNegativeI8::min()));
    assert_eq!(NonNegativeI8::new(127), Some(NonNegativeI8::max()));
    assert_eq!(NonNegativeI8::new_unchecked(5).as_inner(), 5);
    assert!(NonNegativeI8::min() < NonNegativeI8::max());
    assert_eq!(NonNegativeI16::new(-1), None);
    assert_eq!(NonNegativeI16::max().as_inner(), 0x7fff);
    assert_eq!(NonNegativeI16::new(7).map(|n| n.as_inner()), Some(7));
    assert_eq!(NonNegativeI16::new_unchecked(5), NonNegativeI16::new(5).unwrap());
    assert_eq!(NonNegativeI16::min().as_inner(), 0);
}

fn hex(bytes: &[u8]) -> String {
    bytes.iter().map(|b| format!("{:02x}", b)).collect()
}

#[test]
fn secrets_in_hexadecimal_digits() {
    let key: Vec<u8> = (0..64).collect();
    let text = format!("  hex:{}  ignored", hex(&key));
    assert_eq!(Secret::parse_str(&text).0.unwrap().to_vec(), key);
    let short: Vec<u8> = (1..33).collect();
    let parsed = Secret::parse_str(&format!("hex:{}A", hex(&short))).0.unwrap();
    assert_eq!(parsed[..32], short[..]);
    assert_eq!(parsed[32], 0xa0);
    assert_eq!(parsed[33..], [0; 31]);
    assert_eq!(hex_to_byte(b'f', b'0'), Some(0xf0));
    assert_eq!(hex_to_byte(b'g', b'0'), None);
    assert!(Secret::parse_str(" \t ").0.is_none());
}

#[test]
fn other_secrets_are_hashed() {
    let digest = "ba7816bf8f01cfea414140de5dae2223b00361a396177a9cb410ff61f20015ad";
    let parsed = Secret::parse_str("abc").0.unwrap();
    assert_eq!(hex(&parsed[..32]), digest);
    assert_eq!(parsed[32..], [0; 32]);
    let broken = format!("hex:{}zz", "11".repeat(40));
    let parsed = Secret::parse_str(&broken).0.unwrap();
    assert_ne!(parsed[..32], [0x11; 32]);
    assert_eq!(parsed[32..40], [0x11; 8]);
    assert_eq!(parsed[40..], [0; 24]);
    let key = Secret::key_from("word", &[7; 32]);
    assert_eq!(key[..32], [7; 32]);
    assert_eq!(key[32..], [0; 32]);
}

#[test]
fn hashes_of_tokens() {
    let raw = RawToken {
        provider: "auth0".to_owned(),
        id: vec![1],
        signature: vec![2],
        start: [3; 8],
        end: [4; 8],
        randomness: vec![5],
        is_session: true,
    };
    let mut expected: Vec<u8> = Vec::new();
    expected.extend_from_slice(b"subjectauth0\x01signature\x02duration");
    expected.extend_from_slice(&[3; 8]);
    expected.extend_from_slice(&[4; 8]);
    expected.extend_from_slice(b"randomness\x05typesession");
    assert_eq!(message_of(&raw), expected);
    let mut key = init([0x0b; 64]);
    let first = get_hash(&key, &raw);
    assert_eq!(first, get_hash(&key, &raw));
    update(&mut key, [0x0c; 64]);
    assert_ne!(first, get_hash(&key, &raw));
    let web = RawToken {
        is_session: false,
        ..raw
    };
    assert!(message_of(&web).ends_with(b"typeweb"));
    assert_ne!(get_hash(&key, &web), first);

    let secret = sha2::digest::array::Array([0x0c; 64]);
    let mut mac = <hmac::Hmac<sha2::Sha256> as hmac::KeyInit>::new(&secret);
    for part in [
        &b"subject"[..],
        b"auth0",
        &[1],
        b"signature",
        &[2],
        b"duration",
        &[3; 8],
        &[4; 8],
        b"randomness",
        &[5],
        b"type",
        b"web",
    ] {
        hmac::Mac::update(&mut mac, part);
    }
    let code = hmac::Mac::finalize(mac).into_bytes().0;
    assert_eq!(get_hash(&key, &web), code);
}
