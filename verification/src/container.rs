//! The sealed file. Encryption XORs the contents with the keystream of the
//! included key (IK), writes the encrypted IK at the injection point, puts
//! the bytes it covered after it, and appends a 16-byte trailer holding the
//! original length and the injection point, encrypted with the mask of the
//! prime key (PK). Decryption undoes these steps.
use vstd::prelude::*;
use crate::bytes::{
    arr2u128, arr2u64, le_bytes, le_value, limbs16_value, limbs2u64, low_to_high, pow256,
    u128_to_be_bytes, lemma_pow256_values,
};
use crate::ik::{cipher_vec, copy_bytes, ik_decrypted, ik_encrypted, ik_fits, ik_ok, pk_fits};
use crate::key::{cipher_u128, mask_fits, mask_of, mask_ok};
use crate::keystream::{ks_bytes, xor_prefix, KeyStream};
use crate::layout::{
    read_at, read_at_exec, write_at, write_at_exec,
};

verus! {

/// Addition of two 16-bit numbers modulo 2^16.
pub open spec fn add16(a: u16, b: u16) -> u16 {
    ((a as int + b as int) % 0x1_0000) as u16
}

/// The four 16-bit cells of the injection seed: every character `c` of the
/// password adds `c mod 2^16` into cell `c mod 4`.
pub open spec fn seed_cells(pk: Seq<char>) -> Seq<u16>
    decreases pk.len(),
{
    if pk.len() == 0 {
        Seq::new(4, |i: int| 0u16)
    } else {
        let a = seed_cells(pk.drop_last());
        let c = pk.last() as u32;
        let i = (c % 4) as int;
        a.update(i, add16(a[i], (c % 0x1_0000) as u16))
    }
}

/// The injection seed: the four cells read as one number, lowest first.
pub open spec fn inject_seed(pk: Seq<char>) -> nat {
    limbs16_value(seed_cells(pk))
}

/// The plain (unwrapped) sum that cell `t` of the seed collects: the
/// 16-bit value `c mod 2^16` of every character `c` of the password with
/// `c mod 4 == t`.
pub open spec fn cell_sum(pk: Seq<char>, t: int) -> nat
    decreases pk.len(),
{
    if pk.len() == 0 {
        0
    } else {
        let c = pk.last() as u32;
        cell_sum(pk.drop_last(), t) + (if (c % 4) as int == t { (c % 0x1_0000) as nat } else { 0 })
    }
}

/// Each cell of the seed is its plain sum modulo 2^16: every character of
/// the password contributes its whole 16-bit value to its cell.
pub proof fn lemma_seed_cells_sum(pk: Seq<char>)
    ensures
        seed_cells(pk).len() == 4,
        forall|t: int| 0 <= t < 4 ==> #[trigger] seed_cells(pk)[t] == cell_sum(pk, t) % 0x1_0000,
    decreases pk.len(),
{
    if pk.len() > 0 {
        let q = pk.drop_last();
        lemma_seed_cells_sum(q);
        let c = pk.last() as u32;
        let v = (c % 0x1_0000) as int;
        assert forall|t: int| 0 <= t < 4 implies #[trigger] seed_cells(pk)[t] == cell_sum(pk, t)
            % 0x1_0000 by {
            if (c % 4) as int == t {
                vstd::arithmetic::div_mod::lemma_add_mod_noop(cell_sum(q, t) as int, v, 0x1_0000);
                vstd::arithmetic::div_mod::lemma_small_mod(v as nat, 0x1_0000);
            }
        }
    }
}

/// The injection seed in terms of the plain cell sums: the four sums, each
/// taken modulo 2^16, are the 16-bit limbs of the seed, lowest first.
pub proof fn lemma_inject_seed_sums(pk: Seq<char>)
    ensures
        inject_seed(pk) == cell_sum(pk, 0) % 0x1_0000 + 0x1_0000 * (cell_sum(pk, 1) % 0x1_0000)
            + 0x1_0000_0000 * (cell_sum(pk, 2) % 0x1_0000) + 0x1_0000_0000_0000 * (cell_sum(pk, 3)
            % 0x1_0000),
{
    lemma_seed_cells_sum(pk);
    let a = seed_cells(pk);
    assert(a[0] == cell_sum(pk, 0) % 0x1_0000);
    assert(a[1] == cell_sum(pk, 1) % 0x1_0000);
    assert(a[2] == cell_sum(pk, 2) % 0x1_0000);
    assert(a[3] == cell_sum(pk, 3) % 0x1_0000);
    let (x0, x1, x2, x3) = (a[0] as int, a[1] as int, a[2] as int, a[3] as int);
    assert(x0 + 0x1_0000 * (x1 + 0x1_0000 * (x2 + 0x1_0000 * x3)) == x0 + 0x1_0000 * x1
        + 0x1_0000_0000 * x2 + 0x1_0000_0000_0000 * x3) by (nonlinear_arith);
}

/// The seed of a one-character password: the character's whole 16-bit
/// value `c mod 2^16`, placed in the 16-bit limb number `c mod 4`.
pub proof fn lemma_inject_seed_one_char(c: char)
    ensures
        inject_seed(seq![c]) == ((c as u32) % 0x1_0000) as nat * (if (c as u32) % 4 == 0 {
            1nat
        } else if (c as u32) % 4 == 1 {
            0x1_0000nat
        } else if (c as u32) % 4 == 2 {
            0x1_0000_0000nat
        } else {
            0x1_0000_0000_0000nat
        }),
{
    let pk = seq![c];
    assert(pk.drop_last() =~= Seq::<char>::empty());
    assert(pk.last() == c);
    lemma_inject_seed_sums(pk);
    let v = ((c as u32) % 0x1_0000) as nat;
    assert forall|t: int| 0 <= t < 4 implies #[trigger] cell_sum(pk, t) % 0x1_0000 == (if ((c
        as u32) % 4) as int == t { v } else { 0 }) by {
        assert(cell_sum(pk.drop_last(), t) == 0);
        vstd::arithmetic::div_mod::lemma_small_mod(v, 0x1_0000);
    }
    assert(cell_sum(pk, 0) % 0x1_0000 == (if ((c as u32) % 4) as int == 0 { v } else { 0 }));
    assert(cell_sum(pk, 1) % 0x1_0000 == (if ((c as u32) % 4) as int == 1 { v } else { 0 }));
    assert(cell_sum(pk, 2) % 0x1_0000 == (if ((c as u32) % 4) as int == 2 { v } else { 0 }));
    assert(cell_sum(pk, 3) % 0x1_0000 == (if ((c as u32) % 4) as int == 3 { v } else { 0 }));
}

/// Where the encrypted IK goes in contents of length `len`.
pub open spec fn inject_point(pk: Seq<char>, len: nat) -> nat {
    inject_seed(pk) % len
}

/// The injection seed of the password `PK`.
pub fn inject_seed_of(PK: &String) -> (r: u64)
    ensures
        r == inject_seed(PK@),
{
    let s = PK.as_str();
    let n = s.unicode_len();
    let mut cells: Vec<u16> = vec![0u16; 4];
    let mut i: usize = 0;
    proof {
        assert(cells@ =~= seed_cells(PK@.subrange(0, 0)));
    }
    while i < n
        invariant
            0 <= i <= n,
            n == PK@.len(),
            s@ == PK@,
            cells@ == seed_cells(PK@.subrange(0, i as int)),
            cells@.len() == 4,
        decreases n - i,
    {
        let c = s.get_char(i);
        let v = c as u32;
        let k = (v % 4) as usize;
        let old_cell = cells[k];
        cells.set(k, old_cell.wrapping_add((v % 0x1_0000) as u16));
        proof {
            assert(PK@.subrange(0, i + 1).drop_last() =~= PK@.subrange(0, i as int));
        }
        i = i + 1;
    }
    proof {
        assert(PK@.subrange(0, n as int) =~= PK@);
    }
    limbs2u64(cells.as_slice())
}

/// The trailer before encryption: the length in the high 64 bits and the
/// injection point in the low 64 bits.
pub open spec fn tail_value(len: nat, point: nat) -> nat {
    len * pow256(8) + point
}

/// The sixteen trailer bytes, big-endian, of the encrypted trailer.
pub open spec fn tail_bytes(len: nat, point: nat, pk: Seq<char>) -> Seq<u8> {
    le_bytes(
        vstd::wrapping::u128_specs::wrapping_add(tail_value(len, point) as u128, mask_of(pk))
            as nat,
        16,
    ).reverse()
}

/// The bytes of `x` that `k` bytes written at position `p` cover: from `p`
/// to `p + k`, or to the end of `x` when that comes first.
pub open spec fn displaced(x: Seq<u8>, p: nat, k: nat) -> Seq<u8> {
    x.subrange(p as int, if p + k < x.len() { (p + k) as int } else { x.len() as int })
}

/// The contents after the IK is injected into `x`: the encrypted IK is
/// written at the injection point (extending the contents when it runs
/// past their end), the bytes it covers follow, and the trailer closes.
pub open spec fn injected(x: Seq<u8>, pk: Seq<char>, ik: Seq<u8>) -> Seq<u8> {
    let p = inject_point(pk, x.len());
    write_at(x, p, ik_encrypted(ik, pk)) + displaced(x, p, ik.len()) + tail_bytes(x.len(), p, pk)
}

/// What injecting needs: non-empty contents, a password that makes a mask
/// and that can encrypt the IK, and a result that a byte vector can hold
/// (at most `isize::MAX` bytes).
pub open spec fn inject_ok(x: Seq<u8>, pk: Seq<char>, ik: Seq<u8>) -> bool {
    &&& x.len() > 0
    &&& mask_ok(pk)
    &&& ik_ok(ik.len(), pk)
    &&& pk_fits(pk)
    &&& x.len() + ik.len() + 16 <= isize::MAX
}

/// The trailer of sealed contents, decrypted.
pub open spec fn stored_tail(s: Seq<u8>, pk: Seq<char>) -> u128 {
    vstd::wrapping::u128_specs::wrapping_sub(
        le_value(s.subrange(s.len() - 16, s.len() as int).reverse()) as u128,
        mask_of(pk),
    )
}

/// The original length recorded in the trailer.
pub open spec fn stored_len(s: Seq<u8>, pk: Seq<char>) -> nat {
    stored_tail(s, pk) as nat / pow256(8)
}

/// The injection point recorded in the trailer.
pub open spec fn stored_point(s: Seq<u8>, pk: Seq<char>) -> nat {
    stored_tail(s, pk) as nat % pow256(8)
}

/// The length of the IK of sealed contents: what lies between the
/// recorded length and the trailer, counted modulo 2^64 (a recorded length
/// past the contents wraps around).
pub open spec fn stored_ik_len(s: Seq<u8>, pk: Seq<char>) -> nat {
    ((s.len() - 16 - stored_len(s, pk)) % (pow256(8) as int)) as nat
}

/// Whether the recorded length lies within the contents before the
/// trailer.
pub open spec fn tail_in_range(s: Seq<u8>, pk: Seq<char>) -> bool {
    stored_len(s, pk) <= s.len() - 16
}

/// What extracting needs from contents of at least sixteen bytes: a
/// password that makes a mask, an IK length that a byte vector can hold
/// (at most `isize::MAX`), and that the password can decrypt.
pub open spec fn extract_ok(s: Seq<u8>, pk: Seq<char>) -> bool {
    s.len() >= 16 ==> {
        &&& mask_ok(pk)
        &&& pk_fits(pk)
        &&& stored_ik_len(s, pk) <= isize::MAX
        &&& ik_ok(stored_ik_len(s, pk), pk)
    }
}

/// The decrypted IK and the injection point; for contents shorter than the
/// trailer, an empty IK and point 0.
pub open spec fn extracted(s: Seq<u8>, pk: Seq<char>) -> (Seq<u8>, nat) {
    if s.len() < 16 {
        (Seq::empty(), 0)
    } else {
        (
            ik_decrypted(read_at(s, stored_point(s, pk), stored_ik_len(s, pk)), pk),
            stored_point(s, pk),
        )
    }
}

/// The sealed contents: nothing changes for buffer size 0 or empty
/// contents; otherwise the contents are XORed with the keystream of the IK
/// and the IK is injected.
pub open spec fn sealed(c: Seq<u8>, pk: Seq<char>, ik: Seq<u8>, buf_size: nat) -> Seq<u8> {
    if buf_size == 0 || c.len() == 0 {
        c
    } else {
        injected(xor_prefix(c, ks_bytes(ik, 0, c.len())), pk, ik)
    }
}

/// What sealing needs when there is something to encrypt: a non-empty IK
/// and what injecting needs.
pub open spec fn seal_ok(c: Seq<u8>, pk: Seq<char>, ik: Seq<u8>, buf_size: nat) -> bool {
    buf_size > 0 && c.len() > 0 ==> ik.len() > 0 && inject_ok(c, pk, ik)
}

/// How many saved bytes precede the trailer: as many as the IK covered of
/// the original contents.
pub open spec fn stored_saved_len(s: Seq<u8>, pk: Seq<char>) -> nat {
    let len = stored_len(s, pk);
    let p = stored_point(s, pk);
    let ikl = stored_ik_len(s, pk);
    if ikl < len - p {
        ikl
    } else {
        (len - p) as nat
    }
}

/// The contents with saved bytes written back at the recorded point: when
/// the point lies inside the recorded length, the saved bytes that end just
/// before the trailer; otherwise all IK-length bytes between the recorded
/// length and the trailer (the contents grow when they reach past the end).
pub open spec fn restored(s: Seq<u8>, pk: Seq<char>) -> Seq<u8> {
    let len = stored_len(s, pk);
    let ikl = stored_ik_len(s, pk);
    if stored_point(s, pk) < len {
        let m = stored_saved_len(s, pk);
        write_at(s, stored_point(s, pk), s.subrange(len + ikl - m, (len + ikl) as int))
    } else {
        write_at(s, stored_point(s, pk), s.subrange(len as int, (len + ikl) as int))
    }
}

/// The restored contents cut down: to the recorded length when the point
/// lies inside it, otherwise to the restored length less the IK and the
/// trailer.
pub open spec fn body_of(s: Seq<u8>, pk: Seq<char>) -> Seq<u8> {
    let r = restored(s, pk);
    if stored_point(s, pk) < stored_len(s, pk) {
        r.subrange(0, stored_len(s, pk) as int)
    } else {
        r.subrange(0, r.len() - stored_ik_len(s, pk) - 16)
    }
}

/// The unsealed contents: nothing changes for buffer size 0, contents
/// shorter than the trailer, or a recorded length past the contents (the
/// IK is extracted, but the saved bytes cannot be found); otherwise the
/// saved bytes are written back, the contents are cut down and XORed with
/// the keystream of the IK.
pub open spec fn unsealed(s: Seq<u8>, pk: Seq<char>, buf_size: nat) -> Seq<u8> {
    if buf_size == 0 || s.len() < 16 || !tail_in_range(s, pk) {
        s
    } else {
        let d = body_of(s, pk);
        xor_prefix(d, ks_bytes(extracted(s, pk).0, 0, d.len()))
    }
}

/// What unsealing needs: what extracting needs, an IK length whose
/// negation less 16 is a 64-bit offset, and, when the recorded length lies
/// within the contents, room in memory for writing back at a point past
/// the recorded length and an IK that is not empty when there is a body.
pub open spec fn unseal_ok(s: Seq<u8>, pk: Seq<char>, buf_size: nat) -> bool {
    buf_size > 0 && s.len() >= 16 ==> {
        &&& extract_ok(s, pk)
        &&& stored_ik_len(s, pk) + 16 <= 0x8000_0000_0000_0000
        &&& tail_in_range(s, pk) ==> {
            &&& stored_point(s, pk) >= stored_len(s, pk) ==> stored_point(s, pk) + stored_ik_len(
                s,
                pk,
            ) <= usize::MAX
            &&& (stored_ik_len(s, pk) > 0 || body_of(s, pk).len() == 0)
        }
    }
}

/// The bytes of `x` from `from` to `to`.
fn take_range(x: &Vec<u8>, from: usize, to: usize) -> (r: Vec<u8>)
    requires
        from <= to <= x@.len(),
    ensures
        r@ == x@.subrange(from as int, to as int),
{
    let mut r: Vec<u8> = Vec::new();
    let mut i = from;
    while i < to
        invariant
            from <= i <= to <= x@.len(),
            r@ =~= x@.subrange(from as int, i as int),
        decreases to - i,
    {
        r.push(x[i]);
        i = i + 1;
    }
    r
}

/// Reading the trailer: the decrypted trailer, split into the recorded
/// length and injection point as the high and low eight bytes.
fn read_tail(s: &Vec<u8>, PK: &String) -> (r: (u64, u64))
    requires
        s@.len() >= 16,
        mask_ok(PK@),
    ensures
        r.0 == stored_len(s@, PK@),
        r.1 == stored_point(s@, PK@),
{
    let n = s.len();
    let raw = take_range(s, n - 16, n);
    let be = low_to_high(raw.as_slice());
    let mut tail = arr2u128(be.as_slice());
    let tail = tail.decrypt(PK);
    let tail_b = u128_to_be_bytes(tail);
    let lo_part = take_range(&tail_b, 8, 16);
    let point = arr2u64(low_to_high(lo_part.as_slice()).as_slice());
    let hi_part = take_range(&tail_b, 0, 8);
    let len = arr2u64(low_to_high(hi_part.as_slice()).as_slice());
    proof {
        lemma_pow256_values();
        lemma_tail_halves(tail as nat);
    }
    (len, point)
}

/// The high and low halves of a 128-bit number read back from its
/// big-endian bytes.
proof fn lemma_tail_halves(t: nat)
    requires
        t < pow256(16),
    ensures
        le_value(le_bytes(t, 16).reverse().subrange(8, 16).reverse()) == t % pow256(8),
        le_value(le_bytes(t, 16).reverse().subrange(0, 8).reverse()) == t / pow256(8),
{
    crate::bytes::lemma_le_bytes_split(t, 8, 8);
    crate::bytes::lemma_le_bytes_len(t, 8);
    crate::bytes::lemma_le_bytes_len(t / pow256(8), 8);
    crate::bytes::lemma_le_bytes_len(t, 16);
    let b = le_bytes(t, 16);
    assert(b.reverse().subrange(8, 16).reverse() =~= le_bytes(t, 8));
    assert(b.reverse().subrange(0, 8).reverse() =~= le_bytes(t / pow256(8), 8));
    crate::bytes::lemma_le_value_of_bytes(t, 8);
    crate::bytes::lemma_le_value_of_bytes(t / pow256(8), 8);
    lemma_pow256_values();
    assert(t / pow256(8) < pow256(8)) by {
        crate::bytes::lemma_pow256_add(8, 8);
        vstd::arithmetic::div_mod::lemma_multiply_divide_lt(t as int, pow256(8) as int, pow256(8) as int);
    }
    vstd::arithmetic::div_mod::lemma_small_mod(t / pow256(8), pow256(8));
}

/// Whether the IK can be injected into `x` under `PK`.
pub fn inject_fits(x: &Vec<u8>, PK: &String, IK: &Vec<u8>) -> (r: bool)
    requires
        pk_fits(PK@),
    ensures
        r == inject_ok(x@, PK@, IK@),
{
    x.len() > 0 && mask_fits(PK) && ik_fits(IK.len(), PK) && IK.len() as u128 + x.len() as u128 + 16
        <= isize::MAX as u128
}

/// Whether `c` can be sealed under `PK` with `IK` and buffer size `buf_size`.
pub fn seal_fits(c: &Vec<u8>, PK: &String, IK: &Vec<u8>, buf_size: usize) -> (r: bool)
    requires
        pk_fits(PK@),
    ensures
        r == seal_ok(c@, PK@, IK@, buf_size as nat),
{
    if buf_size == 0 || c.len() == 0 {
        return true;
    }
    IK.len() > 0 && inject_fits(c, PK, IK)
}

/// Whether the IK can be extracted from `s` under `PK`.
pub fn extract_fits(s: &Vec<u8>, PK: &String) -> (r: bool)
    requires
        pk_fits(PK@),
    ensures
        r == extract_ok(s@, PK@),
{
    let n = s.len();
    if n < 16 {
        return true;
    }
    if !mask_fits(PK) {
        return false;
    }
    let ikl = stored_ik_len_of(s, PK);
    if ikl > isize::MAX as u64 {
        return false;
    }
    ik_fits(ikl as usize, PK)
}

/// The IK length of the contents `s`, modulo 2^64.
fn stored_ik_len_of(s: &Vec<u8>, PK: &String) -> (r: u64)
    requires
        s@.len() >= 16,
        mask_ok(PK@),
    ensures
        r == stored_ik_len(s@, PK@),
        r <= s@.len() - 16 <==> tail_in_range(s@, PK@),
{
    let n = s.len();
    let (len, _point) = read_tail(s, PK);
    proof {
        lemma_pow256_values();
        lemma_wrapped_len((n - 16) as nat, len as nat);
    }
    ((n - 16) as u64).wrapping_sub(len)
}

/// The 64-bit wrapped difference `a - b` for `a, b < 2^64`, and when it is
/// at most `a`.
proof fn lemma_wrapped_len(a: nat, b: nat)
    requires
        a < pow256(8),
        b < pow256(8),
        pow256(8) == 0x1_0000_0000_0000_0000,
    ensures
        vstd::wrapping::u64_specs::wrapping_sub(a as u64, b as u64) == ((a - b) % (pow256(
            8,
        ) as int)),
        (((a - b) % (pow256(8) as int)) <= a) <==> b <= a,
{
    let m = pow256(8) as int;
    if b <= a {
        vstd::arithmetic::div_mod::lemma_small_mod((a - b) as nat, m as nat);
    } else {
        vstd::arithmetic::div_mod::lemma_fundamental_div_mod_converse(
            a - b,
            m,
            -1,
            a - b + m,
        );
    }
}

/// Whether `s` can be unsealed under `PK` with buffer size `buf_size`.
pub fn unseal_fits(s: &Vec<u8>, PK: &String, buf_size: usize) -> (r: bool)
    requires
        pk_fits(PK@),
    ensures
        r == unseal_ok(s@, PK@, buf_size as nat),
{
    let n = s.len();
    if buf_size == 0 || n < 16 {
        return true;
    }
    if !extract_fits(s, PK) {
        return false;
    }
    let ikl = stored_ik_len_of(s, PK);
    if ikl > 0x8000_0000_0000_0000 - 16 {
        return false;
    }
    if ikl > (n - 16) as u64 {
        return true;
    }
    let (len, point) = read_tail(s, PK);
    if point >= len {
        if point as u128 + ikl as u128 > usize::MAX as u128 {
            return false;
        }
        let end: u128 = if point as u128 + ikl as u128 > n as u128 {
            point as u128 + ikl as u128
        } else {
            n as u128
        };
        ikl > 0 || end - ikl as u128 - 16 == 0
    } else {
        ikl > 0 || len == 0
    }
}

/// Encryption of a file's contents under a password.
pub trait cipher: View<V = Seq<u8>> + Sized {
    /// Seals the contents with the included key `IK`, reading in steps of
    /// `buf_size` bytes.
    fn encrypt(&mut self, PK: &String, IK: Vec<u8>, buf_size: usize)
        requires
            seal_ok(old(self)@, PK@, IK@, buf_size as nat),
        ensures
            final(self)@ == sealed(old(self)@, PK@, IK@, buf_size as nat),
    ;

    /// Unseals the contents, reading in steps of `buf_size` bytes.
    fn decrypt(&mut self, PK: &String, buf_size: usize)
        requires
            unseal_ok(old(self)@, PK@, buf_size as nat),
        ensures
            final(self)@ == unsealed(old(self)@, PK@, buf_size as nat),
    ;

    /// Injects the included key `IK`, which is encrypted in place.
    fn inject_IK(&mut self, PK: &String, IK: &mut Vec<u8>)
        requires
            inject_ok(old(self)@, PK@, old(IK)@),
        ensures
            final(IK)@ == ik_encrypted(old(IK)@, PK@),
            final(self)@ == injected(old(self)@, PK@, old(IK)@),
    ;

    /// Extracts the decrypted included key and the injection point.
    fn extract_IK(&mut self, PK: &String) -> (r: (Vec<u8>, u64))
        requires
            extract_ok(old(self)@, PK@),
        ensures
            final(self)@ == old(self)@,
            r.0@ == extracted(old(self)@, PK@).0,
            r.1 == extracted(old(self)@, PK@).1,
    ;
}

impl cipher for Vec<u8> {
    fn encrypt(&mut self, PK: &String, IK: Vec<u8>, buf_size: usize) {
        let n = self.len();
        if buf_size == 0 || n == 0 {
            return;
        }
        let mut ik0 = copy_bytes(&IK);
        let mut ks = KeyStream::new(IK);
        ks.apply(self, n);
        self.inject_IK(PK, &mut ik0);
    }

    fn decrypt(&mut self, PK: &String, buf_size: usize) {
        if buf_size == 0 {
            return;
        }
        let n = self.len();
        if n < 16 {
            return;
        }
        let (ik, point) = self.extract_IK(PK);
        let ikl = ik.len();
        proof {
            lemma_pow256_values();
            lemma_wrapped_len((n - 16) as nat, stored_len(old(self)@, PK@));
        }
        if ikl > n - 16 {
            return;
        }
        let len = n - 16 - ikl;
        proof {
            assert(len == stored_len(old(self)@, PK@));
            assert(point == stored_point(old(self)@, PK@));
        }
        let cut = if point < len as u64 {
            let p = point as usize;
            let m = if ikl < len - p { ikl } else { len - p };
            let saved = take_range(self, len + ikl - m, len + ikl);
            write_at_exec(self, p, &saved);
            len
        } else {
            let saved = take_range(self, len, len + ikl);
            write_at_exec(self, point as usize, &saved);
            self.len() - ikl - 16
        };
        self.truncate(cut);
        if cut > 0 {
            let mut ks = KeyStream::new(ik);
            ks.apply(self, cut);
        } else {
            proof {
                assert(xor_prefix(self@, ks_bytes(ik@, 0, 0)) =~= self@);
            }
        }
    }

    fn inject_IK(&mut self, PK: &String, IK: &mut Vec<u8>) {
        let n = self.len();
        let file_len = n as u64;
        let point = inject_seed_of(PK) % file_len;
        let p = point as usize;
        let ikl = IK.len();
        let end = if p + ikl < n { p + ikl } else { n };
        let saved = take_range(self, p, end);
        let enc = IK.encrypt_IK(PK);
        write_at_exec(self, p, &enc);
        let at = self.len();
        write_at_exec(self, at, &saved);
        let mut tail: u128 = (file_len as u128) * 0x1_0000_0000_0000_0000u128 + (point as u128);
        let tail = tail.encrypt(PK);
        let tb = u128_to_be_bytes(tail);
        let at = self.len();
        write_at_exec(self, at, &tb);
        proof {
            lemma_pow256_values();
            assert(self@ =~= injected(old(self)@, PK@, old(IK)@));
        }
    }

    fn extract_IK(&mut self, PK: &String) -> (r: (Vec<u8>, u64)) {
        let n = self.len();
        if n < 16 {
            return (Vec::new(), 0);
        }
        let (_len, point) = read_tail(self, PK);
        let ikl = stored_ik_len_of(self, PK) as usize;
        let mut ik = read_at_exec(self, point, ikl);
        let ik = ik.decrypt_IK(PK);
        (ik, point)
    }
}


proof fn lemma_tail_bytes_len(len: nat, point: nat, pk: Seq<char>)
    ensures
        tail_bytes(len, point, pk).len() == 16,
{
    let v = vstd::wrapping::u128_specs::wrapping_add(tail_value(len, point) as u128, mask_of(pk));
    crate::bytes::lemma_le_bytes_len(v as nat, 16);
}

/// The trailer round trip: for a length and an injection point below 2^64
/// and a password that makes a mask, the trailer read back from the end of
/// any contents that end with the trailer bytes records exactly that
/// length and that point.
pub proof fn lemma_tail_roundtrip(y: Seq<u8>, len: nat, point: nat, pk: Seq<char>)
    requires
        len < pow256(8),
        point < pow256(8),
        mask_ok(pk),
    ensures
        stored_len(y + tail_bytes(len, point, pk), pk) == len,
        stored_point(y + tail_bytes(len, point, pk), pk) == point,
{
    lemma_pow256_values();
    let s = y + tail_bytes(len, point, pk);
    let tv = tail_value(len, point);
    assert(tv < pow256(16)) by {
        assert(len * pow256(8) + point < pow256(8) * pow256(8)) by (nonlinear_arith)
            requires
                len < pow256(8),
                point < pow256(8),
        ;
        crate::bytes::lemma_pow256_add(8, 8);
    }
    let v = vstd::wrapping::u128_specs::wrapping_add(tv as u128, mask_of(pk));
    crate::bytes::lemma_le_bytes_len(v as nat, 16);
    assert(s.subrange(s.len() - 16, s.len() as int).reverse() =~= le_bytes(v as nat, 16));
    crate::bytes::lemma_le_value_of_bytes(v as nat, 16);
    vstd::arithmetic::div_mod::lemma_small_mod(v as nat, pow256(16));
    assert(stored_tail(s, pk) == tv as u128);
    assert(tv / pow256(8) == len && tv % pow256(8) == point) by {
        vstd::arithmetic::div_mod::lemma_fundamental_div_mod_converse(
            tv as int,
            pow256(8) as int,
            len as int,
            point as int,
        );
    }
}

/// Extraction undoes injection: after the IK is injected into non-empty
/// contents, extraction is possible and gives back the IK and the
/// injection point, wherever the IK ends.
pub proof fn lemma_extract_injected(x: Seq<u8>, pk: Seq<char>, ik: Seq<u8>)
    requires
        inject_ok(x, pk, ik),
    ensures
        extract_ok(injected(x, pk, ik), pk),
        extracted(injected(x, pk, ik), pk).0 == ik,
        extracted(injected(x, pk, ik), pk).1 == inject_point(pk, x.len()),
        stored_len(injected(x, pk, ik), pk) == x.len(),
        stored_point(injected(x, pk, ik), pk) == inject_point(pk, x.len()),
        stored_ik_len(injected(x, pk, ik), pk) == ik.len(),
        injected(x, pk, ik).len() == x.len() + ik.len() + 16,
{
    lemma_pow256_values();
    let n = x.len();
    let m = ik.len();
    let p = inject_point(pk, n);
    let e = ik_encrypted(ik, pk);
    let w = write_at(x, p, e);
    let d = displaced(x, p, m);
    let s = injected(x, pk, ik);
    assert(p < n);
    assert(w.len() + d.len() == n + m);
    lemma_tail_roundtrip(w + d, n, p, pk);
    lemma_tail_bytes_len(n, p, pk);
    assert(s == (w + d) + tail_bytes(n, p, pk));
    assert(stored_len(s, pk) == n);
    assert(stored_point(s, pk) == p);
    vstd::arithmetic::div_mod::lemma_small_mod(m, pow256(8));
    assert(stored_ik_len(s, pk) == m);
    assert(read_at(s, p, m) =~= e);
    crate::ik::lemma_ik_decrypt_encrypt(ik, pk);
}

/// The round trip of a file: non-empty contents sealed with a non-empty IK
/// and any buffer size above zero can be unsealed with any buffer size
/// above zero, and unsealing gives the contents back.
pub proof fn lemma_unseal_sealed(
    c: Seq<u8>,
    pk: Seq<char>,
    ik: Seq<u8>,
    buf_size: nat,
    buf_size2: nat,
)
    requires
        buf_size > 0,
        buf_size2 > 0,
        c.len() > 0,
        ik.len() > 0,
        inject_ok(c, pk, ik),
    ensures
        unseal_ok(sealed(c, pk, ik, buf_size), pk, buf_size2),
        unsealed(sealed(c, pk, ik, buf_size), pk, buf_size2) == c,
{
    let n = c.len();
    let m = ik.len();
    let p = inject_point(pk, n);
    let ks = ks_bytes(ik, 0, n);
    crate::keystream::lemma_ks_bytes_len(ik, 0, n);
    let x = xor_prefix(c, ks);
    assert(inject_ok(x, pk, ik));
    let s = sealed(c, pk, ik, buf_size);
    assert(s == injected(x, pk, ik));
    lemma_extract_injected(x, pk, ik);
    let e = ik_encrypted(ik, pk);
    let w = write_at(x, p, e);
    let d = displaced(x, p, m);
    assert(p < n);
    assert(stored_saved_len(s, pk) == d.len());
    assert(s.subrange(s.len() - 16 - d.len(), s.len() - 16) =~= d);
    let rs = restored(s, pk);
    assert(rs == write_at(s, p, d));
    assert forall|j: int| 0 <= j < n implies #[trigger] body_of(s, pk)[j] == x[j] by {
        if p <= j < p + d.len() {
            assert(rs[j] == d[j - p]);
        } else {
            assert(rs[j] == s[j]);
            assert(s[j] == w[j]);
        }
    }
    assert(body_of(s, pk) =~= x);
    crate::keystream::lemma_xor_prefix_twice(c, ks);
}

} // verus!
