# rust_macros

A verified library for reading per-platform archive metadata out of a
manifest text such as a `Cargo.toml`:

- `manifest`: `bytes_eq_at`, `find_line` (the first line that starts with
  `{prefix}{os}.{arch}]`), `find_field` (the value of `key = "value"` in a
  section) and `line_of_offset`;
- `hex`: `decode_hex` (64 hexadecimal digits to 32 bytes) and `encode_hex`,
  with the round-trip laws between them;
- `pack`: `pack`, which turns a short name into a `u128`, with the law that
  two names pack alike exactly when they agree up to trailing zero bytes;
- `archive`: `read_section` and `remote_archive`, which read the `url` and
  `sha256` of the `[package.metadata.exocrate.{os}.{arch}]` section.

Every function is verified with Verus against its contract; `src/` uses no
trusted code. `app/main.rs` is the program around the library: it prints a
few values and, given the path of a manifest, the archive for the platform it
runs on. `tests/` holds the tests.
