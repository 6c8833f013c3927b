use unearth::hash::digest;
use unearth::json::Json;
use unearth::recover::{
    format_uuid, join_path, looks_like_jpeg_name, sanitize_component, RecoverOptions, RecoverStats,
};
use unearth::source::{Fault, ReadError, Source};
use unearth::strings::{push_hex, push_numeral, same_text, utf16_lossy};
use unearth::text::{parse_number, parse_padded_number, trim};
use unearth::times::{from_exfat, from_unix};
use unearth::utf8::is_utf8;

fn hex(b: &[u8]) -> String {
    let mut s = String::new();
    push_hex(&mut s, b);
    s
}

#[test]
fn sha256_of_known_messages() {
    assert_eq!(
        hex(&digest(&Vec::new())),
        "e3b0c44298fc1c149afbf4c8996fb92427ae41e4649b934ca495991b7852b855"
    );
    assert_eq!(
        hex(&digest(&b"abc".to_vec())),
        "ba7816bf8f01cfea414140de5dae2223b00361a396177a9cb410ff61f20015ad"
    );
    assert_eq!(
        hex(&digest(
            &b"abcdbcdecdefdefgefghfghighijhijkijkljklmklmnlmnomnopnopq".to_vec()
        )),
        "248d6a61d20638b8e5c026930c3e6039a33ce45964ff2167f6ecedd419db06c1"
    );
    assert_eq!(
        hex(&digest(&vec![b'a'; 1000])),
        "41edece42d63e8d9bf515a9ba6932e1c20cbc9f5a5d134645adb5db1b9737ea3"
    );
}

#[test]
fn reads_end_with_the_image_and_stop_at_faults() {
    let src = Source::with_faults(vec![1, 2, 3, 4, 5], vec![Fault { start: 3, end: 4 }]);
    assert_eq!(src.size(), 5);
    assert_eq!(src.read_at(0, 3), Ok(vec![1, 2, 3]));
    assert_eq!(src.read_at(1, 9), Err(ReadError { offset: 3 }));
    assert_eq!(src.read_at(4, 9), Ok(vec![5]));
    assert_eq!(src.read_at(5, 1), Ok(vec![]));
    assert_eq!(src.read_at(u64::MAX, 1), Ok(vec![]));
    let src = Source::new(vec![1, 2, 3]);
    assert_eq!(src.part(1, 0, 2), Ok(Some(vec![2, 3])));
    assert_eq!(src.part(1, 1, 2), Ok(None));
    assert_eq!(src.part_upto(1, 1, 2), Ok(vec![3]));
    assert_eq!(src.byte(0, 2), Ok(Some(3)));
    assert_eq!(src.byte(0, 3), Ok(None));
}

#[test]
fn numerals_and_texts() {
    let mut s = String::from("n");
    push_numeral(&mut s, 255, 16, 4);
    push_numeral(&mut s, 0, 10, 1);
    push_numeral(&mut s, u64::MAX, 10, 8);
    assert_eq!(s, "n00ff018446744073709551615");
    assert!(same_text("a", "a"));
    assert!(!same_text("a", "b"));
    assert!(!same_text("a", "ab"));
}

#[test]
fn utf16_pairs_and_halves() {
    assert_eq!(utf16_lossy(&[0x41, 0xE4, 0x20AC]), "A\u{e4}\u{20ac}");
    assert_eq!(utf16_lossy(&[0xD83D, 0xDE00]), "\u{1F600}");
    assert_eq!(utf16_lossy(&[0xD83D, 0x41]), "\u{FFFD}A");
    assert_eq!(utf16_lossy(&[0xDE00, 0xD83D]), "\u{FFFD}\u{FFFD}");
    assert_eq!(utf16_lossy(&[]), "");
}

#[test]
fn utf8_is_told_from_other_bytes() {
    assert!(is_utf8("a\u{e4}\u{20ac}\u{1F600}".as_bytes()));
    assert!(!is_utf8(&[0x80]));
    assert!(!is_utf8(&[0xC0, 0x80]));
    assert!(!is_utf8(&[0xED, 0xA0, 0x80]));
    assert!(!is_utf8(&[0xF4, 0x90, 0x80, 0x80]));
    assert!(!is_utf8(&[0xE2, 0x82]));
}

#[test]
fn numbers_in_text() {
    assert_eq!(parse_number(b"0123", 10), Some(123));
    assert_eq!(parse_number(b"+7", 10), Some(7));
    assert_eq!(parse_number(b"", 10), None);
    assert_eq!(parse_number(b"-1", 10), None);
    assert_eq!(parse_number(b"18446744073709551616", 10), None);
    assert_eq!(parse_number(b"fF", 16), Some(255));
    assert_eq!(parse_number(b"8", 8), None);
    assert_eq!(parse_padded_number(b"  12 \n", 8), Some(10));
    assert_eq!(trim("\u{2003} a b\u{85}".as_bytes()), b"a b");
    assert_eq!(trim(b" \t"), b"");
}

#[test]
fn packed_times() {
    // 1980-01-01 00:00:00 and 2024-02-29 13:37:58.
    assert_eq!(from_exfat(0x0021_0000), Some(315_532_800));
    let t = (44 << 25) | (2 << 21) | (29 << 16) | (13 << 11) | (37 << 5) | 29;
    assert_eq!(from_exfat(t), Some(1_709_213_878));
    // No month, no day, and the thirtieth of February.
    assert_eq!(from_exfat(0), None);
    assert_eq!(from_exfat(1 << 21), None);
    assert_eq!(from_exfat((44 << 25) | (2 << 21) | (30 << 16)), None);
    assert_eq!(from_exfat((1 << 21) | (1 << 16) | (24 << 11)), None);
    assert_eq!(from_unix(0), None);
    assert_eq!(from_unix(5), Some(5));
}

fn all() -> RecoverOptions {
    RecoverOptions {
        min_size: 0,
        max_size: None,
        newer: None,
        older: None,
        name: None,
        dry_run: false,
    }
}

#[test]
fn options_say_what_is_asked_for() {
    let mut o = all();
    assert!(o.size_ok(0) && o.time_ok(None) && o.name_ok(""));
    o.min_size = 2;
    o.max_size = Some(4);
    assert!(!o.size_ok(1) && o.size_ok(2) && o.size_ok(4) && !o.size_ok(5));
    o.newer = Some(10);
    assert!(!o.time_ok(None) && !o.time_ok(Some(9)) && o.time_ok(Some(10)));
    o.older = Some(20);
    assert!(o.time_ok(Some(20)) && !o.time_ok(Some(21)));
    o.name = Some("ab".to_string());
    assert!(o.name_ok("xaby") && o.name_ok("ab") && !o.name_ok("a") && !o.name_ok("aXb"));
    o.name = Some(String::new());
    assert!(o.name_ok(""));
}

#[test]
fn names_become_single_components() {
    assert_eq!(sanitize_component("a/b\\c\n\u{7f}"), "a_b_c__");
    assert_eq!(sanitize_component(".."), "_recovered");
    assert_eq!(sanitize_component("."), "_recovered");
    assert_eq!(sanitize_component("..."), "...");
    assert_eq!(sanitize_component("\u{e4}\u{1F600}"), "\u{e4}\u{1F600}");
    assert_eq!(sanitize_component(&sanitize_component("../x")), ".._x");
    assert_eq!(join_path("", "a"), "a");
    assert_eq!(join_path("a/b", "c"), "a/b/c");
    assert!(looks_like_jpeg_name("x.JPG") && looks_like_jpeg_name("a.b.jPeg"));
    assert!(!looks_like_jpeg_name("jpg") && !looks_like_jpeg_name("x.jpgx"));
}

#[test]
fn uuids_are_written_in_groups() {
    let b: Vec<u8> = (1..=16).collect();
    assert_eq!(
        format_uuid(&b).unwrap(),
        "01020304-0506-0708-090a-0b0c0d0e0f10"
    );
    assert_eq!(format_uuid(&[0u8; 16]), None);
}

#[test]
fn outcomes_carry_the_digests_of_what_was_recovered() {
    let mut s = RecoverStats::new();
    s.record_recovered("a".to_string(), 3, b"abc".to_vec(), Some(1), None);
    s.record_recoverable("b".to_string(), 9, None, Some(2));
    s.record_skipped("c".to_string(), 7);
    assert_eq!(s.files[0].sha256, Some(digest(&b"abc".to_vec())));
    assert_eq!(s.files[0].content.as_deref(), Some(&b"abc"[..]));
    assert_eq!((s.files[1].size, s.files[1].sha256), (9, None));
    assert_eq!((s.skipped[0].path.as_str(), s.skipped[0].size), ("c", 7));
}

#[test]
fn json_values_give_what_they_are() {
    let j = Json::Object(vec![
        ("a".to_string(), Json::Unsigned(1)),
        ("b".to_string(), Json::Text("t".to_string())),
        ("a".to_string(), Json::Null),
    ]);
    assert_eq!(j.get("a").unwrap().as_u64(), Some(1));
    assert_eq!(j.get("b").unwrap().as_str(), Some("t"));
    assert!(j.get("c").is_none());
    assert!(j.as_array().is_none() && j.as_str().is_none() && j.as_u64().is_none());
    assert!(Json::Number("-1".to_string()).as_u64().is_none());
    assert_eq!(Json::Array(vec![Json::Bool(true)]).as_array().unwrap().len(), 1);
    assert!(Json::Null.get("a").is_none());
}
