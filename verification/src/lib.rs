//! Helpers for reading per-platform archive metadata out of a manifest:
//! locating a `[prefix{os}.{arch}]` section, reading `key = "value"` fields,
//! hex decoding of digests and packing short names into integers.
use vstd::prelude::*;

pub mod archive;
pub mod hex;
pub mod manifest;
pub mod pack;

pub use archive::{remote_archive, read_section, ArchiveError, ParsedRemoteArchive, RemoteArchive};
pub use hex::{decode_hex, encode_hex};
pub use manifest::{bytes_eq_at, find_field, find_line, line_of_offset};
pub use pack::pack;

verus! {

/// Adds two numbers.
pub fn add(left: u64, right: u64) -> (sum: u64)
    requires
        left + right <= u64::MAX,
    ensures
        sum == left + right,
{
    left + right
}

} // verus!
