//! Packing short byte strings into a single integer so that they can be
//! compared with `==` where strings cannot.
use vstd::prelude::*;
use vstd::string::StringSliceAdditionalSpecFns;

verus! {

/// `256` to the power `n`.
pub open spec fn pow256(n: nat) -> nat
    decreases n,
{
    if n == 0 {
        1
    } else {
        256 * pow256((n - 1) as nat)
    }
}

/// The little-endian value of `b`: `b[0] + 256 * b[1] + 256^2 * b[2] + ...`.
pub open spec fn packed(b: Seq<u8>) -> nat
    decreases b.len(),
{
    if b.len() == 0 {
        0
    } else {
        packed(b.drop_last()) + (b.last() as nat) * pow256((b.len() - 1) as nat)
    }
}

/// One step of the packing loop: the byte lands above the bits already set.
proof fn lemma_pack_step(res: u128, x: u128, s: u32)
    requires
        s <= 120,
        x < 256,
        res < (1u128 << s),
    ensures
        res | (x << s) == res + x * (1u128 << s),
{
    assert(res | (x << s) == res + x * (1u128 << s)) by (bit_vector)
        requires
            s <= 120,
            x < 256,
            res < (1u128 << s),
    ;
}

/// Shifting eight places further multiplies by 256.
proof fn lemma_shift_step(s: u32, t: u32)
    requires
        s <= 112,
        t == s + 8,
    ensures
        (1u128 << t) == (1u128 << s) * 256,
{
    assert((1u128 << t) == (1u128 << s) * 256) by (bit_vector)
        requires
            s <= 112,
            t == s + 8,
    ;
}

/// Packs the bytes of `s` into a `u128`, the first byte lowest.
pub fn pack(s: &str) -> (res: u128)
    requires
        s.spec_bytes().len() <= 16,
    ensures
        res == packed(s.spec_bytes()),
{
    let b = s.as_bytes();
    let mut res = 0u128;
    let mut i: usize = 0;
    let ghost mut scale: nat = 1;
    assert(1u128 << 0u32 == 1) by (bit_vector);
    assert(b@.take(0) =~= Seq::<u8>::empty());
    while i < b.len()
        invariant
            b@.len() <= 16,
            i <= b@.len(),
            res == packed(b@.take(i as int)),
            scale == pow256(i as nat),
            i < 16 ==> scale == (1u128 << (i * 8) as u32),
            res < scale,
        decreases b@.len() - i,
    {
        let x = b[i] as u128;
        proof {
            lemma_pack_step(res, x, (i * 8) as u32);
            if i + 1 < 16 {
                lemma_shift_step((i * 8) as u32, ((i + 1) * 8) as u32);
            }
            assert(b@.take(i + 1).drop_last() =~= b@.take(i as int));
            assert(res + x * scale < 256 * scale) by (nonlinear_arith)
                requires
                    res < scale,
                    x < 256,
            ;
            scale = 256 * scale;
        }
        res |= x << ((i * 8) as u32);
        i += 1;
    }
    assert(b@.take(i as int) =~= b@);
    res
}

/// `b` without the zero bytes at its end.
pub open spec fn trim_trailing_zeros(b: Seq<u8>) -> Seq<u8>
    decreases b.len(),
{
    if b.len() > 0 && b.last() == 0 {
        trim_trailing_zeros(b.drop_last())
    } else {
        b
    }
}

/// Zero bytes at the end add nothing to the packed value, and what is
/// left after trimming does not end in a zero byte.
proof fn lemma_trim(b: Seq<u8>)
    ensures
        packed(trim_trailing_zeros(b)) == packed(b),
        trim_trailing_zeros(b).len() == 0 || trim_trailing_zeros(b).last() != 0,
    decreases b.len(),
{
    if b.len() > 0 && b.last() == 0 {
        lemma_trim(b.drop_last());
    }
}

/// `256^n` is positive.
proof fn lemma_pow256_pos(n: nat)
    ensures
        pow256(n) >= 1,
    decreases n,
{
    if n > 0 {
        lemma_pow256_pos((n - 1) as nat);
    }
}

/// The packed value read from the front: the first byte, then the rest
/// shifted up by one byte.
proof fn lemma_packed_front(b: Seq<u8>)
    requires
        b.len() > 0,
    ensures
        packed(b) == b[0] + 256 * packed(b.drop_first()),
    decreases b.len(),
{
    if b.len() == 1 {
        assert(b.drop_last().len() == 0);
        assert(b.drop_first().len() == 0);
        assert(pow256(0) == 1);
        assert(b.last() == b[0]);
        assert(packed(b.drop_last()) == 0);
        assert(packed(b.drop_first()) == 0);
        assert(packed(b) == b[0] + 256 * packed(b.drop_first()));
    } else {
        let front = b.drop_last();
        lemma_packed_front(front);
        assert(b.drop_first().drop_last() =~= front.drop_first());
        assert(b.drop_first().last() == b.last());
        let n = (b.len() - 2) as nat;
        assert(pow256((n + 1) as nat) == 256 * pow256(n));
        let l = b.last() as nat;
        assert(256 * (packed(front.drop_first()) + l * pow256(n)) == 256 * packed(front.drop_first())
            + l * (256 * pow256(n))) by (nonlinear_arith);
        assert(front[0] == b[0]);
        assert(b.drop_first().len() == n + 1);
        assert(packed(b.drop_first()) == packed(front.drop_first()) + l * pow256(n));
        assert(packed(b) == packed(front) + l * pow256((n + 1) as nat));
        assert(packed(b) == b[0] + 256 * packed(b.drop_first()));
    }
}

/// A byte string that does not end in a zero byte packs to a non-zero value.
proof fn lemma_packed_nonzero(b: Seq<u8>)
    requires
        b.len() > 0,
        b.last() != 0,
    ensures
        packed(b) > 0,
{
    let n = (b.len() - 1) as nat;
    lemma_pow256_pos(n);
    let l = b.last() as nat;
    assert(l * pow256(n) >= 1) by (nonlinear_arith)
        requires
            l >= 1,
            pow256(n) >= 1,
    ;
}

/// Byte strings that do not end in a zero byte pack to different values.
proof fn lemma_packed_injective_untrimmed(a: Seq<u8>, b: Seq<u8>)
    requires
        a.len() == 0 || a.last() != 0,
        b.len() == 0 || b.last() != 0,
        packed(a) == packed(b),
    ensures
        a == b,
    decreases a.len(),
{
    if a.len() == 0 && b.len() == 0 {
        assert(a =~= b);
    } else if a.len() == 0 {
        lemma_packed_nonzero(b);
    } else if b.len() == 0 {
        lemma_packed_nonzero(a);
    } else {
        lemma_packed_front(a);
        lemma_packed_front(b);
        let (x, y) = (a[0] as int, b[0] as int);
        let (p, q) = (packed(a.drop_first()) as int, packed(b.drop_first()) as int);
        assert(x == y && p == q) by (nonlinear_arith)
            requires
                0 <= x < 256,
                0 <= y < 256,
                0 <= p,
                0 <= q,
                x + 256 * p == y + 256 * q,
        ;
        if a.len() > 1 {
            assert(a.drop_first().last() == a.last());
        }
        if b.len() > 1 {
            assert(b.drop_first().last() == b.last());
        }
        lemma_packed_injective_untrimmed(a.drop_first(), b.drop_first());
        assert(a =~= seq![a[0]] + a.drop_first());
        assert(b =~= seq![b[0]] + b.drop_first());
    }
}

/// Two byte strings pack to the same value exactly when they are equal
/// once zero bytes at their ends are removed; in particular, strings of
/// the same length, or strings without zero bytes, pack to the same value
/// only when they are equal.
pub proof fn lemma_packed_eq(a: Seq<u8>, b: Seq<u8>)
    ensures
        (packed(a) == packed(b)) == (trim_trailing_zeros(a) == trim_trailing_zeros(b)),
{
    lemma_trim(a);
    lemma_trim(b);
    if packed(a) == packed(b) {
        lemma_packed_injective_untrimmed(trim_trailing_zeros(a), trim_trailing_zeros(b));
    }
}


/// A single byte packs to its own value.
pub proof fn lemma_packed_single(c: u8)
    ensures
        packed(seq![c]) == c,
{
    assert(seq![c].drop_last() =~= Seq::<u8>::empty());
    assert(packed(Seq::<u8>::empty()) == 0);
    assert(pow256(0) == 1);
    assert(seq![c].last() == c);
    assert(packed(seq![c]) == packed(seq![c].drop_last()) + (c as nat) * pow256(0));
}

/// The bytes of `b` placed after those of `a` land `a.len()` bytes higher.
pub proof fn lemma_packed_concat(a: Seq<u8>, b: Seq<u8>)
    ensures
        packed(a + b) == packed(a) + pow256(a.len()) * packed(b),
    decreases b.len(),
{
    if b.len() == 0 {
        assert(a + b =~= a);
        assert(pow256(a.len()) * 0 == 0) by (nonlinear_arith);
    } else {
        let b0 = b.drop_last();
        lemma_packed_concat(a, b0);
        assert((a + b).drop_last() =~= a + b0);
        assert((a + b).last() == b.last());
        lemma_pow256_add(a.len(), b0.len());
        let (x, y, z) = (pow256(a.len()), packed(b0), b.last() as nat);
        assert(x * (y + z * pow256(b0.len())) == x * y + z * (x * pow256(b0.len()))) by (nonlinear_arith);
    }
}

/// `256^(m + n) == 256^m * 256^n`.
proof fn lemma_pow256_add(m: nat, n: nat)
    ensures
        pow256(m + n) == pow256(m) * pow256(n),
    decreases n,
{
    if n == 0 {
        assert(pow256(m) * 1 == pow256(m));
    } else {
        lemma_pow256_add(m, (n - 1) as nat);
        assert(pow256((m + n) as nat) == 256 * pow256((m + n - 1) as nat));
        let (x, y) = (pow256(m), pow256((n - 1) as nat));
        assert(256 * (x * y) == x * (256 * y)) by (nonlinear_arith);
    }
}

} // verus!
