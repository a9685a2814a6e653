//! Reading the download location and digest of the archive for one
//! platform out of a manifest.
use vstd::prelude::*;
use vstd::string::StringSliceAdditionalSpecFns;
use crate::hex::{decode_hex, hex_decode};
use crate::manifest::{
    NEWLINE, find_field, find_line, field_search, first_header_line, is_header_line,
    lemma_field_search_after, lemma_first_header_line, lemma_first_header_line_found,
    lemma_next_line_start_of_line,
    lemma_next_line_start_shift,
    section_header, shift_bounds, next_line_start,
};

verus! {

/// The archive for one platform: where to download it from and the
/// SHA-256 digest of the file at `url`.
#[derive(Debug)]
pub struct RemoteArchive {
    pub url: &'static str,
    /// The SHA-256 hash of the file at `url`.
    pub sha256: [u8; 32],
}

/// The two fields of a platform section, as they are written in the manifest.
#[derive(Debug)]
pub struct ParsedRemoteArchive<'a> {
    pub url: &'a str,
    pub sha256: &'a str,
}

/// Why no archive could be read for a platform.
#[derive(Debug, Clone, Copy, PartialEq, Eq)]
pub enum ArchiveError {
    /// The manifest has no section for the platform.
    UnsupportedPlatform,
    /// The platform section has no `url` field.
    MissingUrl,
    /// The platform section has no `sha256` field.
    MissingSha256,
    /// The `sha256` field is not 64 hexadecimal digits.
    InvalidSha256,
}

/// The header prefix of the per-platform sections.
pub open spec fn section_prefix() -> Seq<u8> {
    "[package.metadata.exocrate.".spec_bytes()
}

/// The key of the download location.
pub open spec fn url_key() -> Seq<u8> {
    "url".spec_bytes()
}

/// The key of the digest.
pub open spec fn sha256_key() -> Seq<u8> {
    "sha256".spec_bytes()
}

/// Where the section whose header line begins at `header` holds its `url`
/// and `sha256` fields (the bounds of each value), read from the line after
/// the header.
pub open spec fn section_fields(data: Seq<u8>, header: int) -> Result<
    ((int, int), (int, int)),
    ArchiveError,
> {
    let body = next_line_start(data, header);
    match field_search(data, body, url_key()) {
        None => Err(ArchiveError::MissingUrl),
        Some(url) => match field_search(data, body, sha256_key()) {
            None => Err(ArchiveError::MissingSha256),
            Some(sha256) => Ok((url, sha256)),
        },
    }
}

/// Reads the `url` and `sha256` fields of the section whose header line
/// begins at `header`, starting on the line after the header.
pub fn read_section<'a>(manifest: &'a str, header: usize) -> (res: Result<
    ParsedRemoteArchive<'a>,
    ArchiveError,
>)
    ensures
        ({
            let b = manifest.spec_bytes();
            match section_fields(b, header as int) {
                Ok(((us, ue), (ss, se))) => res matches Ok(fields) && fields.url.spec_bytes()
                    == b.subrange(us, ue) && fields.sha256.spec_bytes() == b.subrange(ss, se),
                Err(e) => res == Err::<ParsedRemoteArchive<'a>, ArchiveError>(e),
            }
        }),
{
    // Advance past the header line to the first field line.
    let bytes = manifest.as_bytes();
    let mut body_start = header;
    while body_start < bytes.len() && bytes[body_start] != NEWLINE
        invariant
            header <= body_start,
            body_start <= bytes@.len() || body_start == header,
            next_line_start(bytes@, header as int) == next_line_start(bytes@, body_start as int),
        decreases bytes@.len() - body_start,
    {
        body_start += 1;
    }
    if body_start < bytes.len() {
        body_start += 1;
    }
    proof {
        if header < bytes@.len() {
            assert(body_start == next_line_start(bytes@, header as int));
        } else {
            assert(field_search(bytes@, body_start as int, url_key()) is None);
            assert(field_search(bytes@, next_line_start(bytes@, header as int), url_key()) is None);
        }
    }
    let url = match find_field(manifest, body_start, "url") {
        Some(url) => url,
        None => return Err(ArchiveError::MissingUrl),
    };
    let sha256 = match find_field(manifest, body_start, "sha256") {
        Some(sha256) => sha256,
        None => return Err(ArchiveError::MissingSha256),
    };
    Ok(ParsedRemoteArchive { url, sha256 })
}

/// The URL bytes and the digest of the archive that the manifest `data`
/// names for `os` and `arch`: the first line that starts with the section
/// header for the platform, then the `url` and `sha256` fields of that
/// section, the digest written as 64 hexadecimal digits.
pub open spec fn archive_spec(data: Seq<u8>, os: Seq<u8>, arch: Seq<u8>) -> Result<
    (Seq<u8>, Seq<u8>),
    ArchiveError,
> {
    match first_header_line(data, 0, section_prefix(), os, arch) {
        None => Err(ArchiveError::UnsupportedPlatform),
        Some(header) => match section_fields(data, header) {
            Err(e) => Err(e),
            Ok(((us, ue), (ss, se))) => {
                let digest = data.subrange(ss, se);
                if digest.len() == 64 && hex_decode(digest) is Some {
                    Ok((data.subrange(us, ue), hex_decode(digest).unwrap()))
                } else {
                    Err(ArchiveError::InvalidSha256)
                }
            },
        },
    }
}

/// Reads the archive that `manifest` names for the platform `os`/`arch`
/// from its `[package.metadata.exocrate.{os}.{arch}]` section.
pub fn remote_archive(manifest: &'static str, os: &str, arch: &str) -> (res: Result<
    RemoteArchive,
    ArchiveError,
>)
    ensures
        match archive_spec(manifest.spec_bytes(), os.spec_bytes(), arch.spec_bytes()) {
            Ok((url, digest)) => res matches Ok(archive) && archive.url.spec_bytes() == url
                && archive.sha256@ == digest,
            Err(e) => res matches Err(err) && err == e,
        },
{
    let header = match find_line(manifest, os, arch, "[package.metadata.exocrate.") {
        Some(header) => header,
        None => return Err(ArchiveError::UnsupportedPlatform),
    };
    let fields = match read_section(manifest, header) {
        Ok(fields) => fields,
        Err(e) => return Err(e),
    };
    let sha256 = match decode_hex(fields.sha256) {
        Some(sha256) => sha256,
        None => return Err(ArchiveError::InvalidSha256),
    };
    Ok(RemoteArchive { sha256, url: fields.url })
}


/// Both fields of a section are read from the line right after its header
/// line, each on its own: the `sha256` field is looked for from that line
/// whatever line the `url` field stands on, and the other way round.
pub proof fn lemma_section_fields_from_body(pre: Seq<u8>, header: Seq<u8>, body: Seq<u8>)
    requires
        !header.contains(NEWLINE),
    ensures
        ({
            let data = pre + header + seq![NEWLINE] + body;
            let n = pre.len() + header.len() + 1int;
            section_fields(data, pre.len() as int) == match (
                shift_bounds(field_search(body, 0, url_key()), n),
                shift_bounds(field_search(body, 0, sha256_key()), n),
            ) {
                (None, _) => Err(ArchiveError::MissingUrl),
                (Some(_), None) => Err(ArchiveError::MissingSha256),
                (Some(url), Some(sha256)) => Ok((url, sha256)),
            }
        }),
{
    let line = header + seq![NEWLINE] + body;
    let data = pre + header + seq![NEWLINE] + body;
    let head = pre + header + seq![NEWLINE];
    assert(data =~= pre + line);
    assert(data =~= head + body);
    lemma_next_line_start_of_line(header, body, 0);
    lemma_next_line_start_shift(pre, line, 0);
    lemma_field_search_after(head, body, url_key());
    lemma_field_search_after(head, body, sha256_key());
}

/// The archive is refused as unsupported exactly when no line starts with
/// the header `[package.metadata.exocrate.{os}.{arch}]` for the given `os`
/// and `arch`; an archive that is read comes from the first line that
/// starts with that very header.
pub proof fn lemma_archive_platform(data: Seq<u8>, os: Seq<u8>, arch: Seq<u8>)
    ensures
        (archive_spec(data, os, arch) == Err::<(Seq<u8>, Seq<u8>), ArchiveError>(
            ArchiveError::UnsupportedPlatform,
        )) <==> (forall|h: int| !#[trigger] is_header_line(data, h, section_prefix(), os, arch)),
        archive_spec(data, os, arch) matches Ok((url, digest)) ==> exists|h: int|
            {
                &&& #[trigger] is_header_line(data, h, section_prefix(), os, arch)
                &&& forall|j: int|
                    0 <= j < h ==> !#[trigger] is_header_line(
                        data,
                        j,
                        section_prefix(),
                        os,
                        arch,
                    )
                &&& section_fields(data, h) matches Ok(((us, ue), (ss, se)))
                &&& url == data.subrange(us, ue)
                &&& hex_decode(data.subrange(ss, se)) == Some(digest)
            },
        forall|h: int|
            #![trigger is_header_line(data, h, section_prefix(), os, arch)]
            is_header_line(data, h, section_prefix(), os, arch) && (forall|j: int|
                0 <= j < h ==> !#[trigger] is_header_line(data, j, section_prefix(), os, arch))
                ==> archive_spec(data, os, arch) == match section_fields(data, h) {
                Err(e) => Err(e),
                Ok(((us, ue), (ss, se))) => match hex_decode(data.subrange(ss, se)) {
                    Some(digest) => if digest.len() == 32 {
                        Ok((data.subrange(us, ue), digest))
                    } else {
                        Err(ArchiveError::InvalidSha256)
                    },
                    None => Err(ArchiveError::InvalidSha256),
                },
            },
{
    let p = section_prefix();
    lemma_first_header_line_found(data, 0, p, os, arch);
    assert forall|h: int|
        #![trigger is_header_line(data, h, section_prefix(), os, arch)]
        is_header_line(data, h, p, os, arch) && (forall|j: int|
            0 <= j < h ==> !#[trigger] is_header_line(data, j, p, os, arch))
            implies first_header_line(data, 0, p, os, arch) == Some(h) by {
        lemma_first_header_line(data, 0, p, os, arch, Some(h));
    }
    match first_header_line(data, 0, p, os, arch) {
        Some(h) => {
            assert(is_header_line(data, h, p, os, arch));
        },
        None => {
            assert forall|h: int| !#[trigger] is_header_line(data, h, p, os, arch) by {
                if is_header_line(data, h, p, os, arch) && h >= data.len() {
                    assert(section_header(p, os, arch).len() >= 2);
                }
            }
        },
    }
}

} // verus!
