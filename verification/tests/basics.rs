use rust_macros::add;
use rust_macros::pack;

#[test]
fn it_works() {
    let result = add(2, 2);
    assert_eq!(result, 4);
}

#[test]
fn add_large_values() {
    assert_eq!(add(u64::MAX - 1, 1), u64::MAX);
    assert_eq!(add(0, 0), 0);
}

#[test]
fn pack_empty_is_zero() {
    assert_eq!(pack(""), 0);
}

#[test]
fn pack_puts_first_byte_lowest() {
    assert_eq!(pack("a"), 0x61);
    assert_eq!(pack("ab"), 0x6261);
    assert_eq!(pack("linux"), 0x78756e696c);
}

#[test]
fn pack_sixteen_bytes() {
    let v = pack("0123456789abcdef");
    assert_eq!(v & 0xff, 0x30);
    assert_eq!(v >> 120, 0x66);
}

#[test]
fn pack_distinguishes_names() {
    assert_ne!(pack("linux"), pack("macos"));
    assert_ne!(pack("x86_64"), pack("aarch64"));
    assert_eq!(pack("x86_64"), pack("x86_64"));
    assert_ne!(pack("ab"), pack("ba"));
}

#[test]
fn pack_ignores_trailing_zero_bytes() {
    assert_eq!(pack("a"), pack("a\0"));
    assert_ne!(pack("a"), pack("\0a"));
}
