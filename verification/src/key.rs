//! The prime key (the password): its key bytes, and the 128-bit mask that
//! encrypts the trailer of a sealed file.
use vstd::prelude::*;
use vstd::string::*;
use vstd::utf8::*;
use crate::bytes::{arr2u128, le_value, lemma_pow256_values, pow256};
use crate::keystream::add8;

verus! {

/// The significant little-endian bytes of a code point: none for 0, one for
/// values below 256, two below 65536, three above.
pub open spec fn char_bytes(v: nat) -> Seq<u8>
    decreases v,
{
    if v == 0 {
        Seq::empty()
    } else {
        seq![(v % 256) as u8] + char_bytes(v / 256)
    }
}

/// The key bytes of a password: the significant bytes of every character,
/// character after character.
pub open spec fn key_bytes(pk: Seq<char>) -> Seq<u8>
    decreases pk.len(),
{
    if pk.len() == 0 {
        Seq::empty()
    } else {
        key_bytes(pk.drop_last()) + char_bytes(pk.last() as u32 as nat)
    }
}

/// The length in bytes of the UTF-8 form of a password.
pub open spec fn utf8_len(pk: Seq<char>) -> nat {
    encode_utf8(pk).len()
}

/// A code point below `256^k` has at most `k` significant bytes.
pub proof fn lemma_char_bytes_len(v: nat, k: nat)
    requires
        v < pow256(k),
    ensures
        char_bytes(v).len() <= k,
    decreases v,
{
    if v > 0 {
        if k == 0 {
            assert(pow256(0) == 1);
        } else {
            assert(pow256(k) == 256 * pow256((k - 1) as nat));
            assert(v / 256 < pow256((k - 1) as nat));
            lemma_char_bytes_len(v / 256, (k - 1) as nat);
        }
    }
}

proof fn lemma_encode_utf8_len_last(s: Seq<char>)
    requires
        s.len() > 0,
    ensures
        encode_utf8(s).len() == encode_utf8(s.drop_last()).len() + encode_scalar(
            s.last() as u32,
        ).len(),
    decreases s.len(),
{
    if s.len() > 1 {
        lemma_encode_utf8_len_last(s.drop_first());
        assert(s.drop_first().drop_last() =~= s.drop_last().drop_first());
        assert(s.drop_last()[0] == s[0]);
        assert(s.drop_first().last() == s.last());
        assert(encode_utf8(s) == encode_scalar(s[0] as u32) + encode_utf8(s.drop_first()));
        assert(encode_utf8(s.drop_last()) == encode_scalar(s.drop_last()[0] as u32) + encode_utf8(
            s.drop_last().drop_first(),
        ));
    } else {
        assert(s.last() == s[0]);
        assert(encode_utf8(s) == encode_scalar(s[0] as u32) + encode_utf8(s.drop_first()));
        assert(s.drop_first().len() == 0);
        assert(s.drop_last().len() == 0);
    }
}

/// A password never has more key bytes than UTF-8 bytes.
pub proof fn lemma_key_bytes_le_utf8(pk: Seq<char>)
    ensures
        key_bytes(pk).len() <= utf8_len(pk),
    decreases pk.len(),
{
    if pk.len() > 0 {
        lemma_key_bytes_le_utf8(pk.drop_last());
        lemma_encode_utf8_len_last(pk);
        let v = pk.last() as u32;
        lemma_pow256_values();
        reveal_with_fuel(pow256, 4);
        assert(pow256(3) == 0x100_0000);
        char_is_scalar(pk.last());
        assert(v <= 0x10FFFF);
        if v <= 0x7F {
            lemma_char_bytes_len(v as nat, 1);
        } else if v <= 0x7FF {
            lemma_char_bytes_len(v as nat, 2);
        } else if v <= 0xFFFF {
            lemma_char_bytes_len(v as nat, 2);
        } else {
            lemma_char_bytes_len(v as nat, 3);
        }
    }
}

/// The key bytes of the password `PK`.
pub fn key_bytes_of(PK: &String) -> (r: Vec<u8>)
    ensures
        r@ == key_bytes(PK@),
{
    let s = PK.as_str();
    let n = s.unicode_len();
    let mut r: Vec<u8> = Vec::new();
    let mut i: usize = 0;
    proof {
        assert(PK@.subrange(0, 0) =~= Seq::<char>::empty());
    }
    while i < n
        invariant
            0 <= i <= n,
            n == PK@.len(),
            s@ == PK@,
            r@ == key_bytes(PK@.subrange(0, i as int)),
        decreases n - i,
    {
        let c = s.get_char(i);
        let mut u: u32 = c as u32;
        let ghost before = r@;
        proof {
            assert(before + char_bytes(u as nat) =~= before + char_bytes(c as u32 as nat));
        }
        while u > 0
            invariant
                r@ + char_bytes(u as nat) == before + char_bytes(c as u32 as nat),
            decreases u,
        {
            proof {
                assert(r@.push((u % 256) as u8) + char_bytes((u / 256) as nat) =~= r@
                    + char_bytes(u as nat));
            }
            r.push((u % 256) as u8);
            u = u / 256;
        }
        proof {
            assert(r@ =~= before + char_bytes(c as u32 as nat));
            let t = PK@.subrange(0, i + 1);
            assert(t.drop_last() =~= PK@.subrange(0, i as int));
        }
        i = i + 1;
    }
    proof {
        assert(PK@.subrange(0, n as int) =~= PK@);
    }
    r
}

/// The sixteen cells after the first pass: every key byte `b` is added,
/// modulo 256, into cell `b mod 16`.
pub open spec fn mask_cells_first(kb: Seq<u8>) -> Seq<u8>
    decreases kb.len(),
{
    if kb.len() == 0 {
        Seq::new(16, |i: int| 0u8)
    } else {
        let a = mask_cells_first(kb.drop_last());
        let b = kb.last();
        a.update((b % 16) as int, add8(a[(b % 16) as int], b))
    }
}

/// The low byte of a character.
pub open spec fn char_lo(c: char) -> u8 {
    ((c as u32) % 256) as u8
}

/// The second byte of a character.
pub open spec fn char_hi(c: char) -> u8 {
    (((c as u32) / 256) % 256) as u8
}

/// The cell that the second pass visits at step `k`: the `k`-th cell of
/// the first pass, modulo the number of key bytes.
pub open spec fn mask_cursor(pk: Seq<char>, k: int) -> int {
    mask_cells_first(key_bytes(pk))[k] as int % key_bytes(pk).len() as int
}

/// The cells after `k` steps of the second pass: step `j` adds both bytes
/// of character `c = mask_cursor(j)` of the password into cell `c`.
pub open spec fn mask_cells_second(pk: Seq<char>, k: nat) -> Seq<u8>
    decreases k,
{
    if k == 0 {
        mask_cells_first(key_bytes(pk))
    } else {
        let a = mask_cells_second(pk, (k - 1) as nat);
        let c = mask_cursor(pk, k - 1);
        a.update(c, add8(add8(a[c], char_lo(pk[c])), char_hi(pk[c])))
    }
}

/// The password can make a mask: it has key bytes, and each cursor of the
/// second pass names both a cell and a character of the password.
pub open spec fn mask_ok(pk: Seq<char>) -> bool {
    &&& key_bytes(pk).len() > 0
    &&& forall|k: int|
        0 <= k < 16 ==> #[trigger] mask_cursor(pk, k) < 16 && mask_cursor(pk, k) < pk.len()
}

/// The cells read as a little-endian number.
pub open spec fn mask_base(pk: Seq<char>) -> u128 {
    le_value(mask_cells_second(pk, 16)) as u128
}

/// The mask: the base times its bitwise complement, modulo 2^128.
pub open spec fn mask_of(pk: Seq<char>) -> u128 {
    let v = mask_base(pk);
    vstd::wrapping::u128_specs::wrapping_mul(v, !v)
}

proof fn lemma_mask_cells_first_len(kb: Seq<u8>)
    ensures
        mask_cells_first(kb).len() == 16,
    decreases kb.len(),
{
    if kb.len() > 0 {
        lemma_mask_cells_first_len(kb.drop_last());
    }
}

/// The plain (unwrapped) sum that cell `t` collects in the first pass: every
/// key byte `b` with `b mod 16 == t`.
pub open spec fn mask_byte_sum(kb: Seq<u8>, t: int) -> nat
    decreases kb.len(),
{
    if kb.len() == 0 {
        0
    } else {
        mask_byte_sum(kb.drop_last(), t) + (if (kb.last() % 16) as int == t {
            kb.last() as nat
        } else {
            0
        })
    }
}

/// After the first pass each of the sixteen cells holds its plain sum
/// modulo 256: every key byte lands whole in the cell named by its low four
/// bits.
pub proof fn lemma_mask_cells_first_sum(kb: Seq<u8>)
    ensures
        mask_cells_first(kb).len() == 16,
        forall|t: int| 0 <= t < 16 ==> #[trigger] mask_cells_first(kb)[t] == mask_byte_sum(kb, t) % 256,
    decreases kb.len(),
{
    if kb.len() > 0 {
        let q = kb.drop_last();
        lemma_mask_cells_first_sum(q);
        let b = kb.last();
        assert forall|t: int| 0 <= t < 16 implies #[trigger] mask_cells_first(kb)[t]
            == mask_byte_sum(kb, t) % 256 by {
            if (b % 16) as int == t {
                vstd::arithmetic::div_mod::lemma_add_mod_noop(mask_byte_sum(q, t) as int, b as int, 256);
                vstd::arithmetic::div_mod::lemma_small_mod(b as nat, 256);
            }
        }
    }
}

proof fn lemma_mask_cells_second_step(pk: Seq<char>, k: nat)
    ensures
        mask_cells_second(pk, k + 1) == ({
            let a = mask_cells_second(pk, k);
            let c = mask_cursor(pk, k as int);
            a.update(c, add8(add8(a[c], char_lo(pk[c])), char_hi(pk[c])))
        }),
{
}

/// The cells after the first pass over the key bytes `kb`.
fn mask_cells_first_of(kb: &Vec<u8>) -> (cells: Vec<u8>)
    ensures
        cells@ == mask_cells_first(kb@),
        cells@.len() == 16,
{
    let kl = kb.len();
    let mut cells: Vec<u8> = vec![0u8; 16];
    let mut i: usize = 0;
    proof {
        assert(cells@ =~= mask_cells_first(kb@.subrange(0, 0)));
    }
    while i < kl
        invariant
            0 <= i <= kl,
            kl == kb@.len(),
            cells@ == mask_cells_first(kb@.subrange(0, i as int)),
        decreases kl - i,
    {
        proof {
            lemma_mask_cells_first_len(kb@.subrange(0, i as int));
            assert(kb@.subrange(0, i + 1).drop_last() =~= kb@.subrange(0, i as int));
        }
        let b = kb[i];
        let cur = (b % 16) as usize;
        let old_cell = cells[cur];
        cells.set(cur, old_cell.wrapping_add(b));
        i = i + 1;
    }
    proof {
        assert(kb@.subrange(0, kl as int) =~= kb@);
        lemma_mask_cells_first_len(kb@);
    }
    cells
}

/// Computes the mask of a password.
pub fn mask_from_pk(PK: &String) -> (m: u128)
    requires
        mask_ok(PK@),
    ensures
        m == mask_of(PK@),
{
    let kb = key_bytes_of(PK);
    let s = PK.as_str();
    let kl = kb.len();
    let mut cells = mask_cells_first_of(&kb);
    let first = cells.clone();
    let mut k: usize = 0;
    while k < 16
        invariant
            0 <= k <= 16,
            kl == kb@.len(),
            kb@ == key_bytes(PK@),
            s@ == PK@,
            first@ == mask_cells_first(key_bytes(PK@)),
            first@.len() == 16,
            cells@ == mask_cells_second(PK@, k as nat),
            cells@.len() == 16,
            mask_ok(PK@),
        decreases 16 - k,
    {
        let cur = (first[k] as usize) % kl;
        proof {
            assert(cur == mask_cursor(PK@, k as int));
            assert(cur < 16 && cur < PK@.len());
        }
        let c = s.get_char(cur);
        let lo = ((c as u32) % 256) as u8;
        let hi = (((c as u32) / 256) % 256) as u8;
        let v1 = cells[cur].wrapping_add(lo);
        cells.set(cur, v1);
        let v2 = cells[cur].wrapping_add(hi);
        cells.set(cur, v2);
        proof {
            lemma_mask_cells_second_step(PK@, k as nat);
            assert(cells@ =~= mask_cells_second(PK@, (k + 1) as nat));
        }
        k = k + 1;
    }
    let base = arr2u128(cells.as_slice());
    base.wrapping_mul(!base)
}

/// Whether the password `PK` can make a mask.
pub fn mask_fits(PK: &String) -> (r: bool)
    ensures
        r == mask_ok(PK@),
{
    let kb = key_bytes_of(PK);
    let kl = kb.len();
    if kl == 0 {
        return false;
    }
    let n = PK.as_str().unicode_len();
    let cells = mask_cells_first_of(&kb);
    let mut k: usize = 0;
    while k < 16
        invariant
            0 <= k <= 16,
            kl == kb@.len(),
            kl > 0,
            kb@ == key_bytes(PK@),
            n == PK@.len(),
            cells@ == mask_cells_first(key_bytes(PK@)),
            cells@.len() == 16,
            forall|j: int| 0 <= j < k ==> #[trigger] mask_cursor(PK@, j) < 16 && mask_cursor(PK@, j) < PK@.len(),
        decreases 16 - k,
    {
        let cur = (cells[k] as usize) % kl;
        if cur >= 16 || cur >= n {
            proof {
                assert(cur as int == mask_cursor(PK@, k as int));
            }
            return false;
        }
        k = k + 1;
    }
    true
}

/// Encryption and decryption of a 128-bit number under a password: the
/// mask of the password is added, or subtracted, modulo 2^128.
pub trait cipher_u128: View<V = u128> + Sized {
    /// Adds the mask of `PK`; returns the new value.
    fn encrypt(&mut self, PK: &String) -> (r: u128)
        requires
            mask_ok(PK@),
        ensures
            final(self)@ == vstd::wrapping::u128_specs::wrapping_add(old(self)@, mask_of(PK@)),
            r == final(self)@,
    ;

    /// Subtracts the mask of `PK`; returns the new value.
    fn decrypt(&mut self, PK: &String) -> (r: u128)
        requires
            mask_ok(PK@),
        ensures
            final(self)@ == vstd::wrapping::u128_specs::wrapping_sub(old(self)@, mask_of(PK@)),
            r == final(self)@,
    ;
}

impl cipher_u128 for u128 {
    fn encrypt(&mut self, PK: &String) -> (r: u128) {
        let m = mask_from_pk(PK);
        *self = self.wrapping_add(m);
        *self
    }

    fn decrypt(&mut self, PK: &String) -> (r: u128) {
        let m = mask_from_pk(PK);
        *self = self.wrapping_sub(m);
        *self
    }
}

/// Decryption undoes encryption: for every value `x` and every password
/// that can make a mask, subtracting the mask after adding it gives `x`.
pub proof fn lemma_u128_decrypt_encrypt(x: u128, pk: Seq<char>)
    requires
        mask_ok(pk),
    ensures
        vstd::wrapping::u128_specs::wrapping_sub(
            vstd::wrapping::u128_specs::wrapping_add(x, mask_of(pk)),
            mask_of(pk),
        ) == x,
{
}

} // verus!
