//! Byte-level helpers: numbers read from and written to byte strings, and
//! bit rotation of a byte.
use vstd::prelude::*;

verus! {

/// 256 to the power `k`.
pub open spec fn pow256(k: nat) -> nat
    decreases k,
{
    if k == 0 {
        1
    } else {
        256 * pow256((k - 1) as nat)
    }
}

/// The number whose little-endian base-256 digits are `s` (`s[0]` lowest).
pub open spec fn le_value(s: Seq<u8>) -> nat
    decreases s.len(),
{
    if s.len() == 0 {
        0
    } else {
        s[0] as nat + 256 * le_value(s.drop_first())
    }
}

/// The lowest `n` little-endian base-256 digits of `v`.
pub open spec fn le_bytes(v: nat, n: nat) -> Seq<u8>
    decreases n,
{
    if n == 0 {
        Seq::empty()
    } else {
        seq![(v % 256) as u8] + le_bytes(v / 256, (n - 1) as nat)
    }
}

/// Powers of 256 are positive.
pub proof fn lemma_pow256_pos(k: nat)
    ensures
        pow256(k) >= 1,
    decreases k,
{
    if k > 0 {
        lemma_pow256_pos((k - 1) as nat);
    }
}

/// Powers of 256 grow with the exponent.
pub proof fn lemma_pow256_mono(j: nat, k: nat)
    requires
        j <= k,
    ensures
        pow256(j) <= pow256(k),
    decreases k,
{
    if j < k {
        lemma_pow256_mono(j, (k - 1) as nat);
        lemma_pow256_pos((k - 1) as nat);
    }
}

/// The powers of 256 for two, eight and sixteen bytes.
pub proof fn lemma_pow256_values()
    ensures
        pow256(2) == 0x1_0000,
        pow256(8) == 0x1_0000_0000_0000_0000,
        pow256(16) == 0x1_0000_0000_0000_0000_0000_0000_0000_0000,
{
    reveal_with_fuel(pow256, 17);
}

/// `256^(m + n) = 256^m * 256^n`.
pub proof fn lemma_pow256_add(m: nat, n: nat)
    ensures
        pow256(m + n) == pow256(m) * pow256(n),
    decreases m,
{
    if m > 0 {
        lemma_pow256_add((m - 1) as nat, n);
        assert((m + n - 1) as nat == (m - 1) as nat + n);
        assert(pow256(m + n) == 256 * pow256((m + n - 1) as nat));
        assert(pow256(m) == 256 * pow256((m - 1) as nat));
        let a = pow256((m - 1) as nat);
        let b = pow256(n);
        assert(256 * (a * b) == (256 * a) * b) by (nonlinear_arith);
    } else {
        assert(pow256(0) == 1);
        assert(m + n == n);
    }
}

/// A number read from `n` digits is below `256^n`.
pub proof fn lemma_le_value_bound(s: Seq<u8>)
    ensures
        le_value(s) < pow256(s.len()),
    decreases s.len(),
{
    if s.len() > 0 {
        lemma_le_value_bound(s.drop_first());
        let r = le_value(s.drop_first());
        let p = pow256((s.len() - 1) as nat);
        assert(s[0] as nat + 256 * r < 256 * p) by (nonlinear_arith)
            requires
                r < p,
                s[0] < 256,
        ;
    }
}

/// `le_bytes(v, n)` has `n` bytes.
pub proof fn lemma_le_bytes_len(v: nat, n: nat)
    ensures
        le_bytes(v, n).len() == n,
    decreases n,
{
    if n > 0 {
        lemma_le_bytes_len(v / 256, (n - 1) as nat);
    }
}

/// Reading back the lowest `n` digits of `v` gives `v mod 256^n`.
pub proof fn lemma_le_value_of_bytes(v: nat, n: nat)
    ensures
        le_value(le_bytes(v, n)) == v % pow256(n),
    decreases n,
{
    if n == 0 {
    } else {
        lemma_le_value_of_bytes(v / 256, (n - 1) as nat);
        lemma_le_bytes_len(v / 256, (n - 1) as nat);
        let s = le_bytes(v, n);
        assert(s.drop_first() =~= le_bytes(v / 256, (n - 1) as nat));
        let p = pow256((n - 1) as nat);
        lemma_pow256_pos((n - 1) as nat);
        assert(v % 256 + 256 * ((v / 256) % p) == v % (256 * p)) by (nonlinear_arith)
            requires
                p >= 1,
        {
            vstd::arithmetic::div_mod::lemma_breakdown(v as int, 256, p as int);
        }
    }
}

/// Digits of `v` split: the lowest `m + n` digits are the lowest `m` ones
/// followed by the lowest `n` digits of `v / 256^m`.
pub proof fn lemma_le_bytes_split(v: nat, m: nat, n: nat)
    ensures
        le_bytes(v, m + n) == le_bytes(v, m) + le_bytes(v / pow256(m), n),
    decreases m,
{
    if m == 0 {
        assert(pow256(0) == 1);
        assert(v / 1 == v);
        assert(le_bytes(v, 0) + le_bytes(v, n) =~= le_bytes(v, n));
    } else {
        lemma_le_bytes_split(v / 256, (m - 1) as nat, n);
        assert((m + n - 1) as nat == (m - 1) as nat + n);
        assert(pow256(m) == 256 * pow256((m - 1) as nat));
        assert(le_bytes(v, m + n) == seq![(v % 256) as u8] + le_bytes(v / 256, (m + n - 1) as nat));
        assert(le_bytes(v, m) == seq![(v % 256) as u8] + le_bytes(v / 256, (m - 1) as nat));
        lemma_pow256_pos((m - 1) as nat);
        assert((v / 256) / pow256((m - 1) as nat) == v / pow256(m)) by {
            vstd::arithmetic::div_mod::lemma_div_denominator(
                v as int,
                256,
                pow256((m - 1) as nat) as int,
            );
        }
        assert(le_bytes(v, m + n) =~= le_bytes(v, m) + le_bytes(v / pow256(m), n));
    }
}

/// The number read from the little-endian digits `bytes` (at most sixteen).
pub fn arr2u128(bytes: &[u8]) -> (r: u128)
    requires
        bytes@.len() <= 16,
    ensures
        r == le_value(bytes@),
{
    let n = bytes.len();
    let mut acc: u128 = 0;
    let mut i = n;
    proof {
        assert(bytes@.subrange(n as int, n as int) =~= Seq::<u8>::empty());
        lemma_pow256_values();
    }
    while i > 0
        invariant
            0 <= i <= n,
            n == bytes@.len(),
            n <= 16,
            acc == le_value(bytes@.subrange(i as int, n as int)),
            pow256(16) == 0x1_0000_0000_0000_0000_0000_0000_0000_0000,
        decreases i,
    {
        i = i - 1;
        let ghost rest = bytes@.subrange((i + 1) as int, n as int);
        let ghost cur = bytes@.subrange(i as int, n as int);
        proof {
            assert(cur.drop_first() =~= rest);
            lemma_le_value_bound(cur);
            lemma_pow256_mono(cur.len(), 16);
        }
        acc = acc * 256 + bytes[i] as u128;
    }
    proof {
        assert(bytes@.subrange(0, n as int) =~= bytes@);
    }
    acc
}

/// The number read from the little-endian digits `bytes` (at most eight).
pub fn arr2u64(bytes: &[u8]) -> (r: u64)
    requires
        bytes@.len() <= 8,
    ensures
        r == le_value(bytes@),
{
    proof {
        lemma_le_value_bound(bytes@);
        lemma_pow256_mono(bytes@.len(), 8);
        lemma_pow256_values();
    }
    arr2u128(bytes) as u64
}

/// The number made of four 16-bit limbs, `limbs[0]` lowest.
pub open spec fn limbs16_value(limbs: Seq<u16>) -> nat
    recommends
        limbs.len() == 4,
{
    limbs[0] as nat + 0x1_0000 * (limbs[1] as nat + 0x1_0000 * (limbs[2] as nat + 0x1_0000
        * limbs[3] as nat))
}

/// The number made of four 16-bit limbs, `limbs[0]` lowest.
pub fn limbs2u64(limbs: &[u16]) -> (r: u64)
    requires
        limbs@.len() == 4,
    ensures
        r == limbs16_value(limbs@),
{
    let l0 = limbs[0] as u64;
    let l1 = limbs[1] as u64;
    let l2 = limbs[2] as u64;
    let l3 = limbs[3] as u64;
    l0 + 0x1_0000 * (l1 + 0x1_0000 * (l2 + 0x1_0000 * l3))
}

/// The bytes in the opposite order.
pub fn low_to_high(bytes: &[u8]) -> (r: Vec<u8>)
    ensures
        r@ == bytes@.reverse(),
{
    let n = bytes.len();
    let mut r: Vec<u8> = Vec::new();
    let mut i = n;
    while i > 0
        invariant
            0 <= i <= n,
            n == bytes@.len(),
            r@ =~= bytes@.subrange(i as int, n as int).reverse(),
        decreases i,
    {
        i = i - 1;
        r.push(bytes[i]);
        proof {
            assert(r@ =~= bytes@.subrange(i as int, n as int).reverse());
        }
    }
    proof {
        assert(bytes@.subrange(0, n as int) =~= bytes@);
    }
    r
}

/// The sixteen big-endian bytes of `x` (highest first).
pub fn u128_to_be_bytes(x: u128) -> (r: Vec<u8>)
    ensures
        r@ == le_bytes(x as nat, 16).reverse(),
        r@.len() == 16,
{
    let mut r: Vec<u8> = vec![0u8; 16];
    let mut v = x;
    let mut i: usize = 0;
    proof {
        lemma_le_bytes_len(x as nat, 16);
        assert(pow256(0) == 1);
        assert(le_bytes(x as nat, 0) + le_bytes(x as nat, 16) =~= le_bytes(x as nat, 16));
    }
    while i < 16
        invariant
            0 <= i <= 16,
            r@.len() == 16,
            v as nat == (x as nat) / pow256(i as nat),
            forall|j: int| 0 <= j < i ==> r@[15 - j] == #[trigger] le_bytes(x as nat, 16)[j],
            le_bytes(x as nat, 16) == le_bytes(x as nat, i as nat) + le_bytes(v as nat, (16 - i) as nat),
        decreases 16 - i,
    {
        proof {
            lemma_le_bytes_len(x as nat, i as nat);
            lemma_le_bytes_split(v as nat, 1, (16 - i - 1) as nat);
            reveal_with_fuel(pow256, 2);
            reveal_with_fuel(le_bytes, 2);
            assert(le_bytes(v as nat, (16 - i) as nat)[0] == (v % 256) as u8);
            lemma_le_bytes_split(x as nat, i as nat, 1);
            lemma_le_bytes_split(x as nat, (i + 1) as nat, (16 - i - 1) as nat);
            lemma_pow256_pos(i as nat);
            vstd::arithmetic::div_mod::lemma_div_denominator(x as int, pow256(i as nat) as int, 256);
            assert(pow256((i + 1) as nat) == pow256(i as nat) * 256) by {
                lemma_pow256_add(i as nat, 1);
            }
        }
        r.set(15 - i, (v % 256) as u8);
        v = v / 256;
        i = i + 1;
    }
    proof {
        lemma_le_bytes_len(x as nat, 16);
        assert(r@ =~= le_bytes(x as nat, 16).reverse());
    }
    r
}

/// `2^r` for `r < 32`.
pub open spec fn p2(r: nat) -> nat
    decreases r,
{
    if r == 0 {
        1
    } else {
        2 * p2((r - 1) as nat)
    }
}

/// Rotation of the bits of `x` to the left by `n` places: the low `8 - r`
/// bits move up by `r = n mod 8` and the high `r` bits wrap around to the
/// bottom.
pub open spec fn rotl8_spec(x: u8, n: u32) -> u8 {
    let r = (n % 8) as nat;
    (((x as nat * p2(r)) % 256) + (x as nat / p2((8 - r) as nat))) as u8
}

fn p2_exec(r: u32) -> (f: u32)
    requires
        r <= 8,
    ensures
        f == p2(r as nat),
        1 <= f <= 256,
{
    reveal_with_fuel(p2, 9);
    if r == 0 {
        1
    } else if r == 1 {
        2
    } else if r == 2 {
        4
    } else if r == 3 {
        8
    } else if r == 4 {
        16
    } else if r == 5 {
        32
    } else if r == 6 {
        64
    } else if r == 7 {
        128
    } else {
        256
    }
}

/// `x.rotate_left(n)` for a byte.
pub fn rotl8(x: u8, n: u32) -> (r: u8)
    ensures
        r == rotl8_spec(x, n),
{
    let r = n % 8;
    let up = p2_exec(r);
    let down = p2_exec(8 - r);
    proof {
        reveal_with_fuel(p2, 9);
        assert(x as nat / p2((8 - r) as nat) < 256) by {
            assert(p2((8 - r) as nat) >= 1);
        }
    }
    assert((x as u32) * up <= 255 * 256) by (nonlinear_arith)
        requires
            x <= 255,
            up <= 256,
    ;
    let lo = ((x as u32) * up) % 256;
    let hi = (x as u32) / down;
    proof {
        assert(((x as u32) * up) % 256 < 256);
        assert(hi <= x);
        assert(lo + hi < 256 + 256);
    }
    (lo + hi) as u8
}

/// Bit `j` of a byte (bit 0 lowest).
pub open spec fn bit8(x: u8, j: u32) -> bool {
    (x >> j) & 1u8 == 1u8
}

/// The rotation in terms of shifts: the byte shifted left by `r = n mod 8`
/// joined with the byte shifted right by `8 - r`.
proof fn lemma_rotl8_shifts(x: u8, n: u32)
    ensures
        rotl8_spec(x, n) == ((x << ((n % 8) as u8)) | (x >> ((8 - n % 8) as u8))),
{
    reveal_with_fuel(p2, 9);
    let r = n % 8;
    let xx = x as u32;
    if r == 0 {
        assert(((xx * 1) % 256 + xx / 256) as u8 == ((x << 0u8) | (x >> 8u8))) by (bit_vector)
            requires
                xx == x as u32,
        ;
    } else if r == 1 {
        assert(((xx * 2) % 256 + xx / 128) as u8 == ((x << 1u8) | (x >> 7u8))) by (bit_vector)
            requires
                xx == x as u32,
        ;
    } else if r == 2 {
        assert(((xx * 4) % 256 + xx / 64) as u8 == ((x << 2u8) | (x >> 6u8))) by (bit_vector)
            requires
                xx == x as u32,
        ;
    } else if r == 3 {
        assert(((xx * 8) % 256 + xx / 32) as u8 == ((x << 3u8) | (x >> 5u8))) by (bit_vector)
            requires
                xx == x as u32,
        ;
    } else if r == 4 {
        assert(((xx * 16) % 256 + xx / 16) as u8 == ((x << 4u8) | (x >> 4u8))) by (bit_vector)
            requires
                xx == x as u32,
        ;
    } else if r == 5 {
        assert(((xx * 32) % 256 + xx / 8) as u8 == ((x << 5u8) | (x >> 3u8))) by (bit_vector)
            requires
                xx == x as u32,
        ;
    } else if r == 6 {
        assert(((xx * 64) % 256 + xx / 4) as u8 == ((x << 6u8) | (x >> 2u8))) by (bit_vector)
            requires
                xx == x as u32,
        ;
    } else {
        assert(((xx * 128) % 256 + xx / 2) as u8 == ((x << 7u8) | (x >> 1u8))) by (bit_vector)
            requires
                xx == x as u32,
        ;
    }
}

/// Rotation moves bits around the byte: for every amount `n`, bit `j` of
/// the byte rotated left by `n` is bit `(j - n) mod 8` of the byte.
pub proof fn lemma_rotl8_bits(x: u8, n: u32)
    ensures
        forall|j: u32|
            j < 8 ==> #[trigger] bit8(rotl8_spec(x, n), j) == bit8(x, ((j + 8 - n % 8) % 8) as u32),
{
    lemma_rotl8_shifts(x, n);
    let r: u8 = (n % 8) as u8;
    let r2: u8 = (8 - n % 8) as u8;
    assert forall|j: u32| j < 8 implies #[trigger] bit8(rotl8_spec(x, n), j) == bit8(
        x,
        ((j + 8 - n % 8) % 8) as u32,
    ) by {
        let k: u32 = ((j + 8 - n % 8) % 8) as u32;
        let y: u8 = (x << r) | (x >> r2);
        assert(bit8(y, j) == bit8(x, k)) by (bit_vector)
            requires
                r < 8,
                r2 == 8 - r,
                j < 8,
                y == (x << r) | (x >> r2),
                k == (j + 8 - r as u32) % 8,
        ;
    }
}

} // verus!
