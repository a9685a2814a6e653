use rust_macros::{decode_hex, encode_hex};

const DIGEST: &str = "00112233445566778899aabbccddeeff0123456789abcdefFEDCBA9876543210";

#[test]
fn decode_hex_valid() {
    let d = decode_hex(DIGEST).unwrap();
    assert_eq!(d[0], 0x00);
    assert_eq!(d[1], 0x11);
    assert_eq!(d[10], 0xaa);
    assert_eq!(d[15], 0xff);
    assert_eq!(d[16], 0x01);
    assert_eq!(d[24], 0xfe);
    assert_eq!(d[31], 0x10);
}

#[test]
fn decode_hex_wrong_length() {
    assert!(decode_hex("").is_none());
    assert!(decode_hex("00").is_none());
    assert!(decode_hex(&DIGEST[..63]).is_none());
    let long = format!("{}00", DIGEST);
    assert!(decode_hex(&long).is_none());
}

#[test]
fn decode_hex_invalid_digit() {
    let bad_high = format!("g{}", &DIGEST[1..]);
    assert!(decode_hex(&bad_high).is_none());
    let bad_low = format!("{}z", &DIGEST[..63]);
    assert!(decode_hex(&bad_low).is_none());
}

#[test]
fn decode_hex_multibyte_utf8_is_rejected() {
    // 62 ASCII bytes and one two-byte character: 64 bytes, not all digits.
    let s = format!("{}é", &DIGEST[..62]);
    assert_eq!(s.len(), 64);
    assert!(decode_hex(&s).is_none());
}

#[test]
fn encode_hex_beef() {
    let out: [u8; 4] = encode_hex::<2, 4>(&[0xbe, 0xef]);
    assert_eq!(&out, b"beef");
}

#[test]
fn encode_hex_empty() {
    let out: [u8; 0] = encode_hex::<0, 0>(&[]);
    assert_eq!(out.len(), 0);
}

#[test]
fn encode_hex_all_nibbles() {
    let out: [u8; 16] = encode_hex::<8, 16>(&[0x01, 0x23, 0x45, 0x67, 0x89, 0xab, 0xcd, 0xef]);
    assert_eq!(&out, b"0123456789abcdef");
}

#[test]
fn hex_round_trip() {
    let mut bytes = [0u8; 32];
    for i in 0..32 {
        bytes[i] = (i as u8).wrapping_mul(37).wrapping_add(5);
    }
    let text: [u8; 64] = encode_hex::<32, 64>(&bytes);
    let s = std::str::from_utf8(&text).unwrap();
    assert_eq!(decode_hex(s), Some(bytes));
}

#[test]
fn hex_decode_then_encode_lowercases() {
    let d = decode_hex(DIGEST).unwrap();
    let text: [u8; 64] = encode_hex::<32, 64>(&d);
    assert_eq!(std::str::from_utf8(&text).unwrap(), DIGEST.to_ascii_lowercase());
}

#[test]
fn nibble_table_decodes_every_digit() {
    let lower = b"0123456789abcdef";
    let upper = b"0123456789ABCDEF";
    for n in 0..16u8 {
        let mut text = [b'0'; 64];
        text[1] = lower[n as usize];
        text[3] = upper[n as usize];
        let d = decode_hex(std::str::from_utf8(&text).unwrap()).unwrap();
        assert_eq!(d[0], n);
        assert_eq!(d[1], n);
    }
}
