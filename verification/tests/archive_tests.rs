use rust_macros::{read_section, remote_archive, ArchiveError};

const MANIFEST: &str = "[package]\n\
name = \"demo\"\n\
\n\
[package.metadata.exocrate.linux.x86_64]\n\
url = \"https://example.com/linux-x86_64.tar.gz\"\n\
sha256 = \"00112233445566778899aabbccddeeff00112233445566778899AABBCCDDEEFF\"\n\
\n\
[package.metadata.exocrate.linux.aarch64]\n\
url = \"https://example.com/linux-aarch64.tar.gz\"\n\
\n\
[package.metadata.exocrate.macos.aarch64]\n\
sha256 = \"abc\"\n\
\n\
[package.metadata.exocrate.macos.x86_64]\n\
url = \"https://example.com/macos-x86_64.tar.gz\"\n\
sha256 = \"abc\"\n";

#[test]
fn remote_archive_ok() {
    let a = remote_archive(MANIFEST, "linux", "x86_64").unwrap();
    assert_eq!(a.url, "https://example.com/linux-x86_64.tar.gz");
    let expected: [u8; 32] = [
        0x00, 0x11, 0x22, 0x33, 0x44, 0x55, 0x66, 0x77, 0x88, 0x99, 0xaa, 0xbb, 0xcc, 0xdd, 0xee,
        0xff, 0x00, 0x11, 0x22, 0x33, 0x44, 0x55, 0x66, 0x77, 0x88, 0x99, 0xaa, 0xbb, 0xcc, 0xdd,
        0xee, 0xff,
    ];
    assert_eq!(a.sha256, expected);
}

#[test]
fn remote_archive_unsupported_platform() {
    assert_eq!(
        remote_archive(MANIFEST, "windows", "x86_64").unwrap_err(),
        ArchiveError::UnsupportedPlatform
    );
}

#[test]
fn remote_archive_missing_sha256() {
    assert_eq!(
        remote_archive(MANIFEST, "linux", "aarch64").unwrap_err(),
        ArchiveError::MissingSha256
    );
}

#[test]
fn remote_archive_missing_url() {
    assert_eq!(
        remote_archive(MANIFEST, "macos", "aarch64").unwrap_err(),
        ArchiveError::MissingUrl
    );
}

#[test]
fn remote_archive_invalid_sha256() {
    assert_eq!(
        remote_archive(MANIFEST, "macos", "x86_64").unwrap_err(),
        ArchiveError::InvalidSha256
    );
}

#[test]
fn read_section_fields() {
    let header = MANIFEST.find("[package.metadata.exocrate.linux.x86_64]").unwrap();
    let fields = read_section(MANIFEST, header).unwrap();
    assert_eq!(fields.url, "https://example.com/linux-x86_64.tar.gz");
    assert_eq!(
        fields.sha256,
        "00112233445566778899aabbccddeeff00112233445566778899AABBCCDDEEFF"
    );
}

#[test]
fn read_section_header_past_end() {
    assert_eq!(read_section("url = \"x\"", 50).unwrap_err(), ArchiveError::MissingUrl);
}

#[test]
fn read_section_header_on_last_line() {
    assert_eq!(read_section("[h]", 0).unwrap_err(), ArchiveError::MissingUrl);
}
