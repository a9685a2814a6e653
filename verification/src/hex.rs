//! Hexadecimal encoding and decoding of byte strings.
use vstd::prelude::*;
use vstd::string::StringSliceAdditionalSpecFns;

verus! {

/// The value of one hexadecimal digit (`0-9`, `a-f`, `A-F`), if `c` is one.
pub open spec fn hex_value(c: u8) -> Option<u8> {
    if 48 <= c <= 57 {
        Some((c - 48) as u8)
    } else if 97 <= c <= 102 {
        Some((c - 87) as u8)
    } else if 65 <= c <= 70 {
        Some((c - 55) as u8)
    } else {
        None
    }
}

/// The lower-case hexadecimal digit for `n < 16`.
pub open spec fn hex_digit(n: int) -> u8 {
    if n < 10 {
        (48 + n) as u8
    } else {
        (87 + n) as u8
    }
}

/// The bytes that an even-length string of hexadecimal digits stands for,
/// two digits per byte, high half first; `None` for any other string.
pub open spec fn hex_decode(s: Seq<u8>) -> Option<Seq<u8>> {
    if s.len() % 2 == 0 && forall|k: int| 0 <= k < s.len() ==> #[trigger] hex_value(s[k]) is Some {
        Some(
            Seq::new(
                (s.len() / 2) as nat,
                |i: int| (16 * hex_value(s[2 * i]).unwrap() + hex_value(s[2 * i + 1]).unwrap()) as u8,
            ),
        )
    } else {
        None
    }
}

/// Lower-case hexadecimal text of `b`, two digits per byte, high half first.
pub open spec fn hex_encode(b: Seq<u8>) -> Seq<u8> {
    Seq::new(
        2 * b.len(),
        |k: int|
            if k % 2 == 0 {
                hex_digit(b[k / 2] as int / 16)
            } else {
                hex_digit(b[k / 2] as int % 16)
            },
    )
}

/// ASCII upper-case letters turned to lower case; other bytes unchanged.
pub open spec fn ascii_lowercase(s: Seq<u8>) -> Seq<u8> {
    Seq::new(s.len(), |k: int| if 65 <= s[k] <= 90 { (s[k] + 32) as u8 } else { s[k] })
}

/// Decodes a single hexadecimal digit.
fn decode_nibble(c: u8) -> (res: Option<u8>)
    ensures
        res == hex_value(c),
{
    if 48 <= c && c <= 57 {
        Some(c - 48)
    } else if 97 <= c && c <= 102 {
        Some(c - 97 + 10)
    } else if 65 <= c && c <= 70 {
        Some(c - 65 + 10)
    } else {
        None
    }
}

/// Decodes a hexadecimal string of exactly 64 digits into its 32 bytes.
/// Returns `None` for any other length or for a character that is not a
/// hexadecimal digit.
pub fn decode_hex(s: &str) -> (res: Option<[u8; 32]>)
    ensures
        match res {
            Some(digest) => s.spec_bytes().len() == 64 && hex_decode(s.spec_bytes()) == Some(digest@),
            None => s.spec_bytes().len() != 64 || hex_decode(s.spec_bytes()) is None,
        },
{
    let bytes = s.as_bytes();
    if bytes.len() != 64 {
        return None;
    }
    let ghost b = bytes@;
    let mut res = [0u8; 32];
    let mut i: usize = 0;
    while i < 32
        invariant
            b == bytes@,
            b == s.spec_bytes(),
            b.len() == 64,
            i <= 32,
            forall|k: int| 0 <= k < 2 * i ==> #[trigger] hex_value(b[k]) is Some,
            forall|j: int|
                0 <= j < i ==> #[trigger] res@[j] == (16 * hex_value(b[2 * j]).unwrap()
                    + hex_value(b[2 * j + 1]).unwrap()) as u8,
        decreases 32 - i,
    {
        let (h, l) = (bytes[i * 2], bytes[i * 2 + 1]);
        let h_nib = match decode_nibble(h) {
            Some(n) => n,
            None => {
                assert(hex_value(b[2 * i as int]) is None);
                return None;
            },
        };
        let l_nib = match decode_nibble(l) {
            Some(n) => n,
            None => {
                assert(hex_value(b[2 * i + 1]) is None);
                return None;
            },
        };
        assert((h_nib << 4u8) | l_nib == 16 * h_nib + l_nib) by (bit_vector)
            requires
                h_nib < 16,
                l_nib < 16,
        ;
        res[i] = (h_nib << 4) | l_nib;
        i += 1;
    }
    assert(res@ =~= hex_decode(b).unwrap());
    Some(res)
}

/// The lower-case hexadecimal digit for `n`.
fn hex_digit_of(n: u8) -> (c: u8)
    requires
        n < 16,
    ensures
        c == hex_digit(n as int),
{
    if n < 10 {
        48 + n
    } else {
        87 + n
    }
}

/// Encodes `N` bytes as `M == 2 * N` lower-case hexadecimal digits.
pub fn encode_hex<const N: usize, const M: usize>(bytes: &[u8; N]) -> (res: [u8; M])
    requires
        M == N * 2,
    ensures
        res@ == hex_encode(bytes@),
{
    let mut res = [0u8; M];
    let mut i: usize = 0;
    while i < N
        invariant
            M == N * 2,
            i <= N,
            bytes@.len() == N,
            res@.len() == M,
            forall|k: int| 0 <= k < 2 * i ==> #[trigger] res@[k] == hex_encode(bytes@)[k],
        decreases N - i,
    {
        let x = bytes[i];
        assert(x >> 4u8 == x / 16 && x & 0x0fu8 == x % 16) by (bit_vector);
        res[i * 2] = hex_digit_of(x >> 4);
        res[i * 2 + 1] = hex_digit_of(x & 0x0f);
        i += 1;
    }
    assert(res@ =~= hex_encode(bytes@));
    res
}

/// The upper-case hexadecimal digit for `n < 16`.
pub open spec fn hex_digit_upper(n: int) -> u8 {
    if n < 10 {
        (48 + n) as u8
    } else {
        (55 + n) as u8
    }
}

/// Each of the sixteen digits `0123456789abcdef`, and each of
/// `0123456789ABCDEF`, decodes to its position in that table.
pub proof fn lemma_nibble_table(n: int)
    requires
        0 <= n < 16,
    ensures
        hex_value(hex_digit(n)) == Some(n as u8),
        hex_value(hex_digit_upper(n)) == Some(n as u8),
{
}

/// A digit written back from its value is the same digit in lower case.
proof fn lemma_value_digit(c: u8)
    requires
        hex_value(c) is Some,
    ensures
        hex_digit(hex_value(c).unwrap() as int) == (if 65 <= c <= 90 {
            (c + 32) as u8
        } else {
            c
        }),
{
}

/// Decoding the hexadecimal text of any bytes gives those bytes back.
pub proof fn lemma_hex_encode_decode(b: Seq<u8>)
    ensures
        hex_decode(hex_encode(b)) == Some(b),
{
    let s = hex_encode(b);
    assert forall|k: int| 0 <= k < s.len() implies #[trigger] hex_value(s[k]) is Some by {
        if k % 2 == 0 {
            lemma_nibble_table(b[k / 2] as int / 16);
        } else {
            lemma_nibble_table(b[k / 2] as int % 16);
        }
    }
    assert forall|i: int| 0 <= i < b.len() implies (16 * hex_value(s[2 * i]).unwrap() + hex_value(
        s[2 * i + 1],
    ).unwrap()) as u8 == b[i] by {
        assert((2 * i) % 2 == 0 && (2 * i) / 2 == i);
        assert((2 * i + 1) % 2 == 1 && (2 * i + 1) / 2 == i);
        lemma_nibble_table(b[i] as int / 16);
        lemma_nibble_table(b[i] as int % 16);
    }
    assert(hex_decode(s).unwrap() =~= b);
}

/// Encoding the bytes that a hexadecimal text stands for gives that text
/// back, with upper-case digits in lower case.
pub proof fn lemma_hex_decode_encode(s: Seq<u8>)
    requires
        hex_decode(s) is Some,
    ensures
        hex_encode(hex_decode(s).unwrap()) == ascii_lowercase(s),
{
    let b = hex_decode(s).unwrap();
    assert forall|k: int| 0 <= k < s.len() implies #[trigger] hex_encode(b)[k] == ascii_lowercase(
        s,
    )[k] by {
        let i = k / 2;
        let h = hex_value(s[2 * i]).unwrap();
        let l = hex_value(s[2 * i + 1]).unwrap();
        assert(hex_value(s[2 * i]) is Some);
        assert(hex_value(s[2 * i + 1]) is Some);
        assert(b[i] == (16 * h + l) as u8);
        assert(b[i] as int / 16 == h && b[i] as int % 16 == l);
        lemma_value_digit(s[k]);
    }
    assert(hex_encode(b) =~= ascii_lowercase(s));
}


/// A byte is written as two digits, the high half first.
pub proof fn lemma_hex_encode_byte(b: u8)
    ensures
        hex_encode(seq![b]) == seq![hex_digit(b as int / 16), hex_digit(b as int % 16)],
{
    assert(hex_encode(seq![b]) =~= seq![hex_digit(b as int / 16), hex_digit(b as int % 16)]);
}

/// The text of a concatenation is the concatenation of the texts.
pub proof fn lemma_hex_encode_concat(a: Seq<u8>, b: Seq<u8>)
    ensures
        hex_encode(a + b) == hex_encode(a) + hex_encode(b),
{
    let (l, r) = (hex_encode(a + b), hex_encode(a) + hex_encode(b));
    assert forall|k: int| 0 <= k < l.len() implies l[k] == r[k] by {
        if k < 2 * a.len() {
            assert((a + b)[k / 2] == a[k / 2]);
        } else {
            assert((k - 2 * a.len()) / 2 == k / 2 - a.len());
            assert((k - 2 * a.len()) % 2 == k % 2);
            assert((a + b)[k / 2] == b[k / 2 - a.len()]);
        }
    }
    assert(l =~= r);
}

/// Two digits decode to one byte, the first digit giving the high half.
pub proof fn lemma_hex_decode_pair(h: u8, l: u8)
    requires
        hex_value(h) is Some,
        hex_value(l) is Some,
    ensures
        hex_decode(seq![h, l]) == Some(
            seq![(16 * hex_value(h).unwrap() + hex_value(l).unwrap()) as u8],
        ),
{
    let s = seq![h, l];
    assert forall|k: int| 0 <= k < s.len() implies #[trigger] hex_value(s[k]) is Some by {}
    assert(hex_decode(s).unwrap() =~= seq![(16 * hex_value(h).unwrap() + hex_value(l).unwrap()) as u8]);
}

/// Text decodes exactly when it has an even number of bytes, all of them
/// hexadecimal digits.
pub proof fn lemma_hex_decode_accepts(s: Seq<u8>)
    ensures
        (hex_decode(s) is Some) == (s.len() % 2 == 0 && forall|k: int|
            0 <= k < s.len() ==> #[trigger] hex_value(s[k]) is Some),
{
}

} // verus!
