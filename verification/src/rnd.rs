//! The decisions of the random generators. The byte generator is a state
//! machine over one byte; the threads that drive it, and the global state
//! they share, stay with the caller, which hands the drawn bytes in.
use vstd::prelude::*;
use crate::bytes::{bit8, lemma_rotl8_bits, p2, rotl8, rotl8_spec};
use crate::keystream::add8;

verus! {

/// The operations of the byte generator.
#[derive(PartialEq, Eq, Structural, Debug, Clone, Copy)]
pub enum rnd_key {
    xor,
    add_byte,
    rotate_Left,
    mul_byte,
    ret,
}

/// The status signal shared by the program.
#[derive(PartialEq, Eq, Structural, Debug, Clone, Copy)]
pub enum director {
    warn,
    stop,
    ok,
}

/// Multiplication of two bytes modulo 256.
pub open spec fn mul8(a: u8, b: u8) -> u8 {
    ((a as int * b as int) % 256) as u8
}

/// The next state of the byte generator (which is also the byte it
/// returns). A zero state is first replaced by 23. `ret` returns the state;
/// `xor` XORs in the state rotated left by the seed (7 without one);
/// `add_byte` adds the seed (without one, the state rotated right by 5, that is left
/// by 3); `rotate_Left` leaves the state alone with a seed (the rotated
/// value is dropped) and XORs in the state rotated left by 3 without one;
/// `mul_byte` multiplies by the seed (without one, by the state rotated left by
/// 3). Additions and multiplications are modulo 256.
pub open spec fn rnd_next(state: u8, seed: Option<u8>, op: rnd_key) -> u8 {
    let s: u8 = if state == 0 { 23 } else { state };
    match op {
        rnd_key::ret => s,
        rnd_key::xor => match seed {
            Some(x) => s ^ rotl8_spec(s, x as u32),
            None => s ^ rotl8_spec(s, 7),
        },
        rnd_key::rotate_Left => match seed {
            Some(x) => s,
            None => s ^ rotl8_spec(s, 3),
        },
        rnd_key::mul_byte => match seed {
            Some(x) => mul8(s, x),
            None => mul8(s, rotl8_spec(s, 3)),
        },
        rnd_key::add_byte => match seed {
            Some(x) => add8(s, x),
            None => add8(s, rotl8_spec(s, 3)),
        },
    }
}

/// The `xor` step, bit by bit: with `s` the state (23 in place of 0) and
/// `m` the rotation (the seed modulo 8, or 7 without a seed), bit `j` of the
/// next state is bit `j` of `s` XOR bit `(j - m) mod 8` of `s`, for all
/// eight rotation amounts.
pub proof fn lemma_rnd_xor_bits(state: u8, seed: Option<u8>)
    ensures
        ({
            let s: u8 = if state == 0 { 23 } else { state };
            let m: u32 = match seed {
                Some(x) => (x % 8) as u32,
                None => 7u32,
            };
            forall|j: u32|
                j < 8 ==> #[trigger] bit8(rnd_next(state, seed, rnd_key::xor), j) == (bit8(s, j)
                    != bit8(s, ((j + 8 - m) % 8) as u32))
        }),
{
    let s: u8 = if state == 0 { 23 } else { state };
    let n: u32 = match seed {
        Some(x) => x as u32,
        None => 7u32,
    };
    let v = rotl8_spec(s, n);
    lemma_rotl8_bits(s, n);
    assert(rnd_next(state, seed, rnd_key::xor) == s ^ v);
    assert forall|j: u32| j < 8 implies #[trigger] bit8(s ^ v, j) == (bit8(s, j) != bit8(v, j)) by {
        assert(bit8(s ^ v, j) == (bit8(s, j) != bit8(v, j))) by (bit_vector)
            requires
                j < 8,
        ;
    }
}

/// One step of the byte generator from `state`.
pub fn rnd_byte_step(state: u8, seed: Option<u8>, op: rnd_key) -> (r: u8)
    ensures
        r == rnd_next(state, seed, op),
{
    let s: u8 = if state == 0 { 23 } else { state };
    match op {
        rnd_key::ret => s,
        rnd_key::xor => match seed {
            Some(x) => s ^ rotl8(s, x as u32),
            None => s ^ rotl8(s, 7),
        },
        rnd_key::rotate_Left => match seed {
            Some(_) => s,
            None => s ^ rotl8(s, 3),
        },
        rnd_key::mul_byte => match seed {
            Some(x) => s.wrapping_mul(x),
            None => s.wrapping_mul(rotl8(s, 3)),
        },
        rnd_key::add_byte => match seed {
            Some(x) => s.wrapping_add(x),
            None => s.wrapping_add(rotl8(s, 3)),
        },
    }
}

/// XORs every byte of `arr` with the byte drawn for it (`noise[j]` is the
/// byte drawn with `arr[j]` as seed).
pub fn rndomize_u8_arr(arr: &mut Vec<u8>, noise: &Vec<u8>)
    requires
        noise@.len() == old(arr)@.len(),
    ensures
        final(arr)@.len() == old(arr)@.len(),
        forall|j: int| 0 <= j < old(arr)@.len() ==> #[trigger] final(arr)@[j] == old(arr)@[j] ^ noise@[j],
{
    let n = arr.len();
    let mut j: usize = 0;
    while j < n
        invariant
            0 <= j <= n,
            n == arr@.len(),
            noise@.len() == n,
            forall|k: int| 0 <= k < j ==> #[trigger] arr@[k] == old(arr)@[k] ^ noise@[k],
            forall|k: int| j <= k < n ==> #[trigger] arr@[k] == old(arr)@[k],
        decreases n - j,
    {
        let x = arr[j];
        arr.set(j, x ^ noise[j]);
        j = j + 1;
    }
}

/// The array of `size` bytes: `size` zero bytes followed by the `size`
/// drawn bytes (the zeros the array starts with are kept and the draws are
/// appended after them).
pub fn rnd_u8_arr(size: usize, draws: &Vec<u8>) -> (r: Vec<u8>)
    requires
        draws@.len() == size,
        2 * size <= usize::MAX,
    ensures
        r@ == Seq::new(size as nat, |i: int| 0u8) + draws@,
{
    let mut r: Vec<u8> = Vec::new();
    let mut i: usize = 0;
    while i < size
        invariant
            0 <= i <= size,
            r@ =~= Seq::new(i as nat, |k: int| 0u8),
        decreases size - i,
    {
        r.push(0u8);
        i = i + 1;
    }
    let mut j: usize = 0;
    while j < size
        invariant
            0 <= j <= size,
            draws@.len() == size,
            r@ =~= Seq::new(size as nat, |k: int| 0u8) + draws@.subrange(0, j as int),
        decreases size - j,
    {
        r.push(draws[j]);
        j = j + 1;
    }
    proof {
        assert(draws@.subrange(0, size as int) =~= draws@);
    }
    r
}

/// The sum of `d[i] * 2^i` over the first `k` bytes.
pub open spec fn weighted_sum(d: Seq<u8>, k: nat) -> nat
    decreases k,
{
    if k == 0 {
        0
    } else {
        weighted_sum(d, (k - 1) as nat) + d[k - 1] as nat * p2((k - 1) as nat)
    }
}

/// The weighted sum of eight bytes written out: byte `i` counts `2^i` times.
pub proof fn lemma_weighted_sum_8(d: Seq<u8>)
    requires
        d.len() == 8,
    ensures
        weighted_sum(d, 8) == d[0] as nat + 2 * d[1] as nat + 4 * d[2] as nat + 8 * d[3] as nat
            + 16 * d[4] as nat + 32 * d[5] as nat + 64 * d[6] as nat + 128 * d[7] as nat,
{
    reveal_with_fuel(p2, 9);
    assert(p2(0) == 1 && p2(1) == 2 && p2(2) == 4 && p2(3) == 8);
    assert(p2(4) == 16 && p2(5) == 32 && p2(6) == 64 && p2(7) == 128);
    let w = |k: nat| weighted_sum(d, k);
    assert(w(0) == 0);
    assert forall|k: nat| 1 <= k <= 8 implies #[trigger] w(k) == w((k - 1) as nat) + d[k - 1] as nat
        * p2((k - 1) as nat) by {}
    let (x0, x1, x2, x3) = (d[0] as nat, d[1] as nat, d[2] as nat, d[3] as nat);
    let (x4, x5, x6, x7) = (d[4] as nat, d[5] as nat, d[6] as nat, d[7] as nat);
    assert(x0 * p2(0) == x0 && x1 * p2(1) == 2 * x1 && x2 * p2(2) == 4 * x2 && x3 * p2(3) == 8 * x3
        && x4 * p2(4) == 16 * x4 && x5 * p2(5) == 32 * x5 && x6 * p2(6) == 64 * x6 && x7 * p2(7)
        == 128 * x7) by (nonlinear_arith)
        requires
            p2(0) == 1 && p2(1) == 2 && p2(2) == 4 && p2(3) == 8,
            p2(4) == 16 && p2(5) == 32 && p2(6) == 64 && p2(7) == 128,
    ;
    assert(w(1) == w(0) + x0 * p2(0));
    assert(w(2) == w(1) + x1 * p2(1));
    assert(w(3) == w(2) + x2 * p2(2));
    assert(w(4) == w(3) + x3 * p2(3));
    assert(w(5) == w(4) + x4 * p2(4));
    assert(w(6) == w(5) + x5 * p2(5));
    assert(w(7) == w(6) + x6 * p2(6));
    assert(w(8) == w(7) + x7 * p2(7));
}

/// The 64-bit number made from eight drawn bytes: byte `i` shifted left
/// by `i` places, all added up.
pub fn get_true_rnd_u64(draws: &[u8]) -> (r: u64)
    requires
        draws@.len() == 8,
    ensures
        r == weighted_sum(draws@, 8),
{
    let mut acc: u64 = 0;
    let mut i: usize = 0;
    while i < 8
        invariant
            0 <= i <= 8,
            draws@.len() == 8,
            acc == weighted_sum(draws@, i as nat),
            acc < 256 * p2(i as nat),
        decreases 8 - i,
    {
        proof {
            reveal_with_fuel(p2, 9);
            assert(p2(i as nat) <= 128);
        }
        let b = draws[i] as u64;
        proof {
            vstd::arithmetic::power2::lemma2_to64();
            reveal_with_fuel(p2, 9);
            assert(vstd::arithmetic::power2::pow2(i as nat) == p2(i as nat));
            assert(b * p2(i as nat) <= 255 * p2(i as nat)) by (nonlinear_arith)
                requires
                    b <= 255,
            ;
            vstd::bits::lemma_u64_shl_is_mul(b, i as u64);
        }
        let sh = b << (i as u64);
        acc = acc + sh;
        i = i + 1;
    }
    acc
}

/// The candidate character of a round of `UID_UTF8`, from the first three
/// of its four drawn bytes: `b0 + 4 * b1 + 4 * b2` (the second byte enters
/// twice, shifted left by one each time; the fourth is not used).
pub open spec fn uid_candidate(draws: Seq<u8>) -> u32 {
    (draws[0] as nat + 4 * draws[1] as nat + 4 * draws[2] as nat) as u32
}

/// The seed for the next draw of `UID_UTF8`: the drawn byte is added to the
/// seed and the sum rotated left by the drawn byte.
pub open spec fn uid_seed_next(seed: u8, drawn: u8) -> u8 {
    rotl8_spec(add8(seed, drawn), drawn as u32)
}

/// The seed for the next draw of `UID_UTF8`.
pub fn uid_next_seed(seed: u8, drawn: u8) -> (r: u8)
    ensures
        r == uid_seed_next(seed, drawn),
{
    rotl8(seed.wrapping_add(drawn), drawn as u32)
}

/// The next seed, bit by bit: bit `j` of the next seed is bit
/// `(j - drawn) mod 8` of the sum `seed + drawn` (modulo 256).
pub proof fn lemma_uid_seed_bits(seed: u8, drawn: u8)
    ensures
        forall|j: u32|
            j < 8 ==> #[trigger] bit8(uid_seed_next(seed, drawn), j) == bit8(
                ((seed as int + drawn as int) % 256) as u8,
                ((j + 8 - drawn % 8) % 8) as u32,
            ),
{
    lemma_rotl8_bits(add8(seed, drawn), drawn as u32);
}

/// Whether `c` is alphanumeric in the Unicode Character Database.
pub uninterp spec fn ucd_alphanumeric(c: char) -> bool;

/// Asks `unic_ucd::common::is_alphanumeric` whether `c` is alphanumeric
/// (alphabetic, or of a numeric general category); the answer is the
/// Unicode table's, named here and not stated.
#[verifier::external_body]
fn is_alphanumeric(c: char) -> (r: bool)
    ensures
        r == ucd_alphanumeric(c),
{
    unic_ucd::common::is_alphanumeric(c)
}

/// The end of a round of `UID_UTF8`, given whether the candidate is
/// alphanumeric: an alphanumeric candidate is appended and the count of
/// characters still wanted goes down by one; otherwise nothing changes.
pub fn uid_accept(uid: &mut Vec<char>, count_down: usize, candidate: char, alphanumeric: bool) -> (r: usize)
    requires
        count_down > 0,
    ensures
        alphanumeric ==> final(uid)@ == old(uid)@.push(candidate) && r == count_down - 1,
        !alphanumeric ==> final(uid)@ == old(uid)@ && r == count_down,
{
    if alphanumeric {
        uid.push(candidate);
        count_down - 1
    } else {
        count_down
    }
}

/// One round of `UID_UTF8` on the four drawn bytes: the candidate character
/// is formed and, when the Unicode tables call it alphanumeric, appended.
pub fn uid_round(uid: &mut Vec<char>, count_down: usize, draws: &[u8]) -> (r: usize)
    requires
        count_down > 0,
        draws@.len() == 4,
    ensures
        ({
            let c = uid_candidate(draws@) as char;
            &&& ucd_alphanumeric(c) ==> final(uid)@ == old(uid)@.push(c) && r == count_down - 1
            &&& !ucd_alphanumeric(c) ==> final(uid)@ == old(uid)@ && r == count_down
        }),
{
    let v: u32 = draws[0] as u32 + 4 * (draws[1] as u32) + 4 * (draws[2] as u32);
    let c = char_of(v);
    let a = is_alphanumeric(c);
    uid_accept(uid, count_down, c, a)
}

/// `char::from_u32`: the character with code point `v` when `v` is a
/// Unicode scalar value, `None` otherwise, as std documents.
#[verifier::external_body]
fn char_from_u32(v: u32) -> (r: Option<char>)
    ensures
        vstd::utf8::is_scalar(v) ==> r == Some(v as char),
        !vstd::utf8::is_scalar(v) ==> r is None,
{
    char::from_u32(v)
}

/// The character with a code point below the surrogates.
fn char_of(v: u32) -> (c: char)
    requires
        v < 0xD800,
    ensures
        c == v as char,
{
    match char_from_u32(v) {
        Some(c) => c,
        None => {
            proof {
                assert(false);
            }
            '\0'
        },
    }
}

} // verus!
