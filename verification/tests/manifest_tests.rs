use rust_macros::{bytes_eq_at, find_field, find_line, line_of_offset};

const PREFIX: &str = "[package.metadata.exocrate.";

const MANIFEST: &str = "[package]\n\
name = \"demo\"\n\
\n\
[package.metadata.exocrate.linux.x86_64]\n\
url = \"https://example.com/linux-x86_64.tar.gz\"\n\
sha256 = \"00112233445566778899aabbccddeeff00112233445566778899aabbccddeeff\"\n\
\n\
[package.metadata.exocrate.linux.aarch64]\n\
url = \"https://example.com/linux-aarch64.tar.gz\"\n\
\n\
[package.metadata.exocrate.macos.aarch64]\n\
sha256 = \"abc\"\n";

#[test]
fn bytes_eq_at_matches() {
    assert!(bytes_eq_at(b"hello world", 6, b"world"));
    assert!(bytes_eq_at(b"hello", 0, b"hello"));
    assert!(bytes_eq_at(b"hello", 5, b""));
}

#[test]
fn bytes_eq_at_mismatch() {
    assert!(!bytes_eq_at(b"hello world", 6, b"worle"));
    assert!(!bytes_eq_at(b"hello", 1, b"hello"));
}

#[test]
fn bytes_eq_at_past_end() {
    assert!(!bytes_eq_at(b"hello", 3, b"lol"));
    assert!(!bytes_eq_at(b"hello", 6, b""));
    assert!(!bytes_eq_at(b"", 0, b"a"));
}

#[test]
fn find_line_finds_section() {
    let expected = MANIFEST.find("[package.metadata.exocrate.linux.x86_64]").unwrap();
    assert_eq!(find_line(MANIFEST, "linux", "x86_64", PREFIX), Some(expected));
    let expected = MANIFEST.find("[package.metadata.exocrate.macos.aarch64]").unwrap();
    assert_eq!(find_line(MANIFEST, "macos", "aarch64", PREFIX), Some(expected));
}

#[test]
fn find_line_unknown_platform() {
    assert_eq!(find_line(MANIFEST, "windows", "x86_64", PREFIX), None);
    assert_eq!(find_line(MANIFEST, "linux", "riscv64", PREFIX), None);
    assert_eq!(find_line("", "linux", "x86_64", PREFIX), None);
}

#[test]
fn find_line_only_at_line_start() {
    let m = "x [package.metadata.exocrate.linux.x86_64]\n";
    assert_eq!(find_line(m, "linux", "x86_64", PREFIX), None);
    let m = "x [p.linux.x86_64]\n[p.linux.x86_64]\n";
    assert_eq!(find_line(m, "linux", "x86_64", "[p."), Some(19));
}

#[test]
fn find_line_needs_closing_bracket_right_after_arch() {
    let m = "[p.linux.x86_64 ]\n[p.linux.x86_64\n[p.linux.x86]\n";
    assert_eq!(find_line(m, "linux", "x86_64", "[p."), None);
    assert_eq!(find_line(m, "linux", "x86", "[p."), Some(34));
}

#[test]
fn find_line_first_of_duplicates() {
    let m = "[p.a.b]\n[p.a.b]\n";
    assert_eq!(find_line(m, "a", "b", "[p."), Some(0));
}

#[test]
fn find_line_header_without_trailing_newline() {
    let m = "\n[p.a.b]";
    assert_eq!(find_line(m, "a", "b", "[p."), Some(1));
}

#[test]
fn find_field_reads_value() {
    let start = MANIFEST.find("url = \"https://example.com/linux-x86_64").unwrap();
    assert_eq!(
        find_field(MANIFEST, start, "url"),
        Some("https://example.com/linux-x86_64.tar.gz")
    );
    assert_eq!(
        find_field(MANIFEST, start, "sha256"),
        Some("00112233445566778899aabbccddeeff00112233445566778899aabbccddeeff")
    );
}

#[test]
fn find_field_stops_at_next_section() {
    let start = MANIFEST.find("url = \"https://example.com/linux-aarch64").unwrap();
    assert_eq!(find_field(MANIFEST, start, "sha256"), None);
}

#[test]
fn find_field_needs_exact_spacing() {
    assert_eq!(find_field("url=\"x\"\n", 0, "url"), None);
    assert_eq!(find_field("url = 'x'\n", 0, "url"), None);
    assert_eq!(find_field("url  = \"x\"\n", 0, "url"), None);
    assert_eq!(find_field("url = \"x\"\n", 0, "url"), Some("x"));
}

#[test]
fn find_field_empty_value() {
    assert_eq!(find_field("url = \"\"\n", 0, "url"), Some(""));
}

#[test]
fn find_field_unclosed_value() {
    assert_eq!(find_field("url = \"abc\nname = \"d\"\n", 0, "url"), Some("abc\nname = "));
    assert_eq!(find_field("url = \"abc", 0, "url"), None);
}

#[test]
fn find_field_start_past_end() {
    assert_eq!(find_field("url = \"x\"", 100, "url"), None);
}

#[test]
fn find_field_key_is_a_prefix_match() {
    assert_eq!(find_field("urls = \"a\"\nurl = \"b\"\n", 0, "url"), Some("b"));
}

#[test]
fn find_field_multibyte_value() {
    assert_eq!(find_field("name = \"héllo\"\n", 0, "name"), Some("héllo"));
}

#[test]
fn line_of_offset_counts_newlines() {
    assert_eq!(line_of_offset(MANIFEST, 0), 1);
    let header = find_line(MANIFEST, "linux", "x86_64", PREFIX).unwrap();
    assert_eq!(line_of_offset(MANIFEST, header), 4);
    let header = find_line(MANIFEST, "macos", "aarch64", PREFIX).unwrap();
    assert_eq!(line_of_offset(MANIFEST, header), 11);
    assert_eq!(line_of_offset("a\n\nb", 4), 3);
}

#[test]
fn bytes_eq_at_offset_overflow_is_false() {
    assert!(!bytes_eq_at(b"abc", usize::MAX, b"a"));
    assert!(!bytes_eq_at(b"abc", usize::MAX, b""));
    assert!(!bytes_eq_at(b"abc", 4, b""));
}

#[test]
fn find_line_kept_after_appending() {
    let m = "x\n[p.a.b]\n";
    let longer = format!("{}[p.a.b]\nmore text", m);
    assert_eq!(find_line(m, "a", "b", "[p."), Some(2));
    assert_eq!(find_line(&longer, "a", "b", "[p."), Some(2));
}

#[test]
fn find_line_shifted_by_head_lines() {
    let head = "[q.a.b]\nname = \"x\"\n";
    let m = "y\n[p.a.b]\n";
    let whole = format!("{}{}", head, m);
    assert_eq!(find_line(head, "a", "b", "[p."), None);
    assert_eq!(find_line(m, "a", "b", "[p."), Some(2));
    assert_eq!(find_line(&whole, "a", "b", "[p."), Some(2 + head.len()));
}
