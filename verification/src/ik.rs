//! Encryption of the included key (IK) under the prime key (PK). The key
//! bytes of the password evolve step by step; step `i` XORs one key byte
//! into byte `i - 1` of the IK and another into byte `i`.
use vstd::prelude::*;
use crate::key::{key_bytes, key_bytes_of, lemma_key_bytes_le_utf8, utf8_len};
use crate::keystream::add8;

verus! {

/// One step of the key schedule (step `i`, key length `kl`, password length
/// in UTF-8 bytes `pl`). Encryption stores `a + b` at position
/// `(i - 1) mod pl`; decryption adds `b` to the byte already there. Both
/// then XOR `a` into position `i mod pl`.
pub open spec fn ik_key_step(k: Seq<u8>, kl: nat, pl: nat, i: nat, dec: bool) -> Seq<u8> {
    let a = k[((i - 1) % (kl as int))];
    let b = k[(i % kl) as int];
    let j = (i - 1) % (pl as int);
    let k1 = k.update(j, if dec { add8(k[j], b) } else { add8(a, b) });
    let j2 = (i % pl) as int;
    k1.update(j2, k1[j2] ^ a)
}

/// The key schedule before step `i` (steps start at 1).
pub open spec fn ik_key(k0: Seq<u8>, pl: nat, i: nat, dec: bool) -> Seq<u8>
    decreases i,
{
    if i <= 1 {
        k0
    } else {
        ik_key_step(ik_key(k0, pl, (i - 1) as nat, dec), k0.len(), pl, (i - 1) as nat, dec)
    }
}

/// The byte XORed into IK byte `i - 1` at step `i`.
pub open spec fn ik_a(k0: Seq<u8>, pl: nat, i: nat, dec: bool) -> u8 {
    ik_key(k0, pl, i, dec)[((i - 1) % (k0.len() as int))]
}

/// The byte XORed into IK byte `i` at step `i`.
pub open spec fn ik_b(k0: Seq<u8>, pl: nat, i: nat, dec: bool) -> u8 {
    ik_key(k0, pl, i, dec)[(i % k0.len()) as int]
}

/// Everything XORed into byte `j` of an IK of length `n`: the `b` of step
/// `j` and the `a` of step `j + 1`, where those steps exist.
pub open spec fn ik_pad(k0: Seq<u8>, pl: nat, n: nat, j: nat, dec: bool) -> u8 {
    (if 1 <= j < n { ik_b(k0, pl, j, dec) } else { 0u8 }) ^ (if j + 1 < n {
        ik_a(k0, pl, j + 1, dec)
    } else {
        0u8
    })
}

/// The IK after all steps, under the password `pk`.
pub open spec fn ik_apply(data: Seq<u8>, pk: Seq<char>, dec: bool) -> Seq<u8> {
    Seq::new(
        data.len(),
        |j: int| data[j] ^ ik_pad(key_bytes(pk), utf8_len(pk), data.len(), j as nat, dec),
    )
}

/// The encrypted IK.
pub open spec fn ik_encrypted(data: Seq<u8>, pk: Seq<char>) -> Seq<u8> {
    ik_apply(data, pk, false)
}

/// The decrypted IK.
pub open spec fn ik_decrypted(data: Seq<u8>, pk: Seq<char>) -> Seq<u8> {
    ik_apply(data, pk, true)
}

/// An IK of length `n` can be processed under `pk` without a step reading
/// or writing outside the key bytes: it has at most one byte, or the
/// password has key bytes and either as many key bytes as UTF-8 bytes or
/// at least `n` key bytes.
pub open spec fn ik_ok(n: nat, pk: Seq<char>) -> bool {
    n <= 1 || (key_bytes(pk).len() > 0 && (utf8_len(pk) == key_bytes(pk).len() || n
        <= key_bytes(pk).len()))
}

/// The UTF-8 length of the password fits in a `usize` (as that of every
/// string held in memory does).
pub open spec fn pk_fits(pk: Seq<char>) -> bool {
    utf8_len(pk) <= usize::MAX
}

/// Under `ik_ok`, every position that a step reads or writes lies inside
/// the key bytes.
proof fn lemma_ik_indices(n: nat, pk: Seq<char>, i: nat)
    requires
        ik_ok(n, pk),
        1 <= i < n,
    ensures
        key_bytes(pk).len() > 0,
        utf8_len(pk) >= key_bytes(pk).len(),
        (i - 1) % (utf8_len(pk) as int) < key_bytes(pk).len(),
        (i % utf8_len(pk)) < key_bytes(pk).len(),
        (i - 1) % (utf8_len(pk) as int) == (i - 1) % (key_bytes(pk).len() as int),
{
    lemma_key_bytes_le_utf8(pk);
    let kl = key_bytes(pk).len();
    let pl = utf8_len(pk);
    if pl != kl {
        assert(i < kl);
        vstd::arithmetic::div_mod::lemma_small_mod(i, pl);
        vstd::arithmetic::div_mod::lemma_small_mod((i - 1) as nat, pl);
        vstd::arithmetic::div_mod::lemma_small_mod((i - 1) as nat, kl);
    }
}

/// Under `ik_ok`, encryption and decryption run the same key schedule.
proof fn lemma_ik_key_same(pk: Seq<char>, n: nat, i: nat)
    requires
        ik_ok(n, pk),
        1 <= i <= n,
    ensures
        ik_key(key_bytes(pk), utf8_len(pk), i, false) == ik_key(key_bytes(pk), utf8_len(pk), i, true),
    decreases i,
{
    if i > 1 {
        lemma_ik_key_same(pk, n, (i - 1) as nat);
        lemma_ik_indices(n, pk, (i - 1) as nat);
    }
}

proof fn lemma_xor_zero(x: u8)
    ensures
        x ^ 0u8 == x,
        0u8 ^ x == x,
{
    assert(x ^ 0u8 == x) by (bit_vector);
    assert(0u8 ^ x == x) by (bit_vector);
}

proof fn lemma_xor_assoc(x: u8, y: u8, z: u8)
    ensures
        (x ^ y) ^ z == x ^ (y ^ z),
        (x ^ y) ^ y == x,
{
    assert((x ^ y) ^ z == x ^ (y ^ z)) by (bit_vector);
    assert((x ^ y) ^ y == x) by (bit_vector);
}

/// Under `ik_ok`, the key schedule keeps the length of the key bytes.
proof fn lemma_ik_key_len(pk: Seq<char>, n: nat, i: nat, dec: bool)
    requires
        ik_ok(n, pk),
        1 <= i <= n,
    ensures
        ik_key(key_bytes(pk), utf8_len(pk), i, dec).len() == key_bytes(pk).len(),
    decreases i,
{
    if i > 1 {
        lemma_ik_key_len(pk, n, (i - 1) as nat, dec);
        lemma_ik_indices(n, pk, (i - 1) as nat);
    }
}

/// The key schedule evolves at every step, however far the IK goes: at
/// step `i` (for every `1 <= i < n` of an IK of `n` bytes), with `a` the
/// key byte at `(i - 1) mod kl` and `b` the one at `i mod kl`, the byte at
/// `(i - 1) mod pl` becomes `a + b` (encryption) or its old value plus `b`
/// (decryption), modulo 256; then `a` is XORed into the byte at
/// `i mod pl`; every other byte stays.
pub proof fn lemma_ik_key_schedule(pk: Seq<char>, n: nat, i: nat, dec: bool)
    requires
        ik_ok(n, pk),
        1 <= i < n,
    ensures
        ({
            let k0 = key_bytes(pk);
            let pl = utf8_len(pk);
            let kl = k0.len();
            let k = ik_key(k0, pl, i, dec);
            let k2 = ik_key(k0, pl, i + 1, dec);
            let a = k[(i - 1) % (kl as int)];
            let b = k[(i % kl) as int];
            let j = (i - 1) % (pl as int);
            let j2 = (i % pl) as int;
            let stored: u8 = if dec { ((k[j] + b) % 256) as u8 } else { ((a + b) % 256) as u8 };
            &&& k.len() == kl
            &&& k2.len() == kl
            &&& 0 <= j < kl
            &&& 0 <= j2 < kl
            &&& forall|t: int|
                0 <= t < kl ==> #[trigger] k2[t] == (if t == j2 {
                    (if t == j { stored } else { k[t] }) ^ a
                } else if t == j {
                    stored
                } else {
                    k[t]
                })
        }),
{
    lemma_ik_key_len(pk, n, i, dec);
    lemma_ik_indices(n, pk, i);
}

/// Runs all steps of the IK cipher over `data` in place.
fn ik_run(data: &mut Vec<u8>, PK: &String, dec: bool)
    requires
        ik_ok(old(data)@.len(), PK@),
        pk_fits(PK@),
    ensures
        final(data)@ == ik_apply(old(data)@, PK@, dec),
{
    let ghost d0 = data@;
    let n = data.len();
    let mut key = key_bytes_of(PK);
    let kl = key.len();
    let pl = PK.as_str().len();
    let ghost k0 = key@;
    if n <= 1 {
        proof {
            if n == 1 {
                lemma_xor_zero(d0[0]);
                lemma_xor_zero(0u8);
            }
            assert(data@ =~= ik_apply(d0, PK@, dec));
        }
        return;
    }
    proof {
        lemma_key_bytes_le_utf8(PK@);
        lemma_xor_zero(d0[0]);
    }
    let mut i: usize = 1;
    while i < n
        invariant
            1 <= i <= n,
            n == data@.len(),
            n == d0.len(),
            n >= 2,
            kl == k0.len(),
            k0 == key_bytes(PK@),
            pl == utf8_len(PK@),
            ik_ok(n as nat, PK@),
            key@ == ik_key(k0, pl as nat, i as nat, dec),
            key@.len() == kl,
            forall|j: int| 0 <= j < i - 1 ==> #[trigger] data@[j] == d0[j] ^ ik_pad(k0, pl as nat, n as nat, j as nat, dec),
            data@[i - 1] == d0[i - 1] ^ (if i - 1 >= 1 { ik_b(k0, pl as nat, (i - 1) as nat, dec) } else { 0u8 }),
            forall|j: int| i <= j < n ==> #[trigger] data@[j] == d0[j],
        decreases n - i,
    {
        proof {
            lemma_ik_indices(n as nat, PK@, i as nat);
        }
        let ia = (i - 1) % kl;
        let ib = i % kl;
        let a = key[ia];
        let b = key[ib];
        let x = data[i - 1];
        data.set(i - 1, x ^ a);
        let y = data[i];
        data.set(i, y ^ b);
        let j = (i - 1) % pl;
        if dec {
            let kj = key[j];
            key.set(j, kj.wrapping_add(b));
        } else {
            key.set(j, a.wrapping_add(b));
        }
        let j2 = i % pl;
        let kj2 = key[j2];
        key.set(j2, kj2 ^ a);
        proof {
            let bb = if i - 1 >= 1 { ik_b(k0, pl as nat, (i - 1) as nat, dec) } else { 0u8 };
            lemma_xor_assoc(d0[i - 1], bb, a);
            lemma_xor_zero(y ^ b);
            lemma_xor_zero(b);
            assert(a == ik_a(k0, pl as nat, i as nat, dec));
            assert(b == ik_b(k0, pl as nat, i as nat, dec));
            assert(data@[i - 1] == d0[i - 1] ^ ik_pad(k0, pl as nat, n as nat, (i - 1) as nat, dec));
            assert(key@ =~= ik_key(k0, pl as nat, (i + 1) as nat, dec));
        }
        i = i + 1;
    }
    proof {
        let bb = ik_b(k0, pl as nat, (n - 1) as nat, dec);
        lemma_xor_zero(bb);
        assert(data@ =~= ik_apply(d0, PK@, dec));
    }
}

/// Whether an IK of length `n` can be processed under the password `PK`.
pub fn ik_fits(n: usize, PK: &String) -> (r: bool)
    requires
        pk_fits(PK@),
    ensures
        r == ik_ok(n as nat, PK@),
{
    if n <= 1 {
        return true;
    }
    let kl = key_bytes_of(PK).len();
    let pl = PK.as_str().len();
    kl > 0 && (pl == kl || n <= kl)
}

/// Encryption and decryption of an included key under a password.
pub trait cipher_vec: View<V = Seq<u8>> + Sized {
    /// Encrypts in place and returns a copy of the result.
    fn encrypt_IK(&mut self, PK: &String) -> (r: Self)
        requires
            ik_ok(old(self)@.len(), PK@),
            pk_fits(PK@),
        ensures
            final(self)@ == ik_encrypted(old(self)@, PK@),
            r@ == final(self)@,
    ;

    /// Decrypts in place and returns a copy of the result.
    fn decrypt_IK(&mut self, PK: &String) -> (r: Self)
        requires
            ik_ok(old(self)@.len(), PK@),
            pk_fits(PK@),
        ensures
            final(self)@ == ik_decrypted(old(self)@, PK@),
            r@ == final(self)@,
    ;
}

/// A copy of a byte vector.
pub fn copy_bytes(v: &Vec<u8>) -> (r: Vec<u8>)
    ensures
        r@ == v@,
{
    let mut r: Vec<u8> = Vec::new();
    let mut i: usize = 0;
    while i < v.len()
        invariant
            0 <= i <= v.len(),
            r@ =~= v@.subrange(0, i as int),
        decreases v.len() - i,
    {
        r.push(v[i]);
        i = i + 1;
    }
    proof {
        assert(v@.subrange(0, v.len() as int) =~= v@);
    }
    r
}

impl cipher_vec for Vec<u8> {
    fn encrypt_IK(&mut self, PK: &String) -> (r: Self) {
        ik_run(self, PK, false);
        copy_bytes(self)
    }

    fn decrypt_IK(&mut self, PK: &String) -> (r: Self) {
        ik_run(self, PK, true);
        copy_bytes(self)
    }
}

/// Decryption undoes encryption: for every IK and password that satisfy
/// `ik_ok`, decrypting the encrypted IK gives the IK back.
pub proof fn lemma_ik_decrypt_encrypt(data: Seq<u8>, pk: Seq<char>)
    requires
        ik_ok(data.len(), pk),
    ensures
        ik_decrypted(ik_encrypted(data, pk), pk) == data,
{
    let n = data.len();
    let k0 = key_bytes(pk);
    let pl = utf8_len(pk);
    let e = ik_encrypted(data, pk);
    assert forall|j: int| 0 <= j < n implies #[trigger] ik_decrypted(e, pk)[j] == data[j] by {
        if 1 <= j < n {
            lemma_ik_key_same(pk, n, j as nat);
        }
        if j + 1 < n {
            lemma_ik_key_same(pk, n, (j + 1) as nat);
        }
        assert(ik_pad(k0, pl, n, j as nat, false) == ik_pad(k0, pl, n, j as nat, true));
        lemma_xor_assoc(data[j], ik_pad(k0, pl, n, j as nat, false), 0);
    }
    assert(ik_decrypted(e, pk) =~= data);
}

} // verus!
