//! The self-test of the cipher: a file of 41219 bytes `a` is sealed under
//! the password "pswd" with a 30000-byte included key and unsealed again,
//! all with 40 KiB buffers; the file comes back unchanged.
use vstd::prelude::*;
use vstd::string::*;
use vstd::utf8::encode_utf8;
use crate::container::{cipher, lemma_unseal_sealed, inject_ok};
use crate::fill::{dummy_file, filled, lemma_repeat_len, repeat, fill_count};
use crate::ik::{ik_ok, pk_fits};
use crate::key::{char_bytes, key_bytes, mask_cells_first, mask_cursor, mask_ok, utf8_len};

verus! {

/// The password of the self-test.
pub open spec fn tst_password() -> Seq<char> {
    seq!['p', 's', 'w', 'd']
}

/// The contents that the self-test seals: 41219 bytes `a`, written in
/// chunks of at most 40960 bytes.
pub open spec fn tst_plain() -> Seq<u8> {
    filled(seq![97u8], 41219, 40960)
}

proof fn lemma_tst_plain()
    ensures
        tst_plain().len() == 41219,
{
    let s = seq![97u8];
    assert(fill_count(1, 41219, 40960) == 40960);
    assert(fill_count(1, 259, 40960) == 259);
    lemma_repeat_len(s, 40960);
    lemma_repeat_len(s, 259);
    assert(filled(s, 259, 40960) == repeat(s, 259));
    assert(filled(s, 41219, 40960) == repeat(s, 40960) + filled(s, 259, 40960));
}

proof fn lemma_tst_password()
    ensures
        mask_ok(tst_password()),
        ik_ok(30000, tst_password()),
        pk_fits(tst_password()),
{
    let pw = tst_password();
    let p1 = seq!['p'];
    let p2 = seq!['p', 's'];
    let p3 = seq!['p', 's', 'w'];
    assert(pw.drop_last() =~= p3);
    assert(p3.drop_last() =~= p2);
    assert(p2.drop_last() =~= p1);
    assert(p1.drop_last() =~= Seq::<char>::empty());
    reveal_with_fuel(char_bytes, 2);
    assert(char_bytes(112) =~= seq![112u8]);
    assert(char_bytes(115) =~= seq![115u8]);
    assert(char_bytes(119) =~= seq![119u8]);
    assert(char_bytes(100) =~= seq![100u8]);
    assert('p' as u32 == 112 && 's' as u32 == 115 && 'w' as u32 == 119 && 'd' as u32 == 100);
    assert(p1.last() == 'p' && p2.last() == 's' && p3.last() == 'w' && pw.last() == 'd');
    assert(key_bytes(Seq::<char>::empty()) =~= Seq::<u8>::empty());
    assert(key_bytes(p1) =~= seq![112u8]);
    assert(key_bytes(p2) =~= seq![112u8, 115u8]);
    assert(key_bytes(p3) =~= seq![112u8, 115u8, 119u8]);
    let kb = seq![112u8, 115u8, 119u8, 100u8];
    assert(key_bytes(pw) =~= kb);
    let q3 = seq!['s', 'w', 'd'];
    let q2 = seq!['w', 'd'];
    let q1 = seq!['d'];
    assert(pw.drop_first() =~= q3);
    assert(q3.drop_first() =~= q2);
    assert(q2.drop_first() =~= q1);
    assert(q1.drop_first() =~= Seq::<char>::empty());
    assert(q1[0] == 'd' && q2[0] == 'w' && q3[0] == 's' && pw[0] == 'p');
    assert(vstd::utf8::encode_scalar(100).len() == 1);
    assert(vstd::utf8::encode_scalar(119).len() == 1);
    assert(vstd::utf8::encode_scalar(115).len() == 1);
    assert(vstd::utf8::encode_scalar(112).len() == 1);
    assert(encode_utf8(Seq::<char>::empty()).len() == 0);
    assert(encode_utf8(q1).len() == 1);
    assert(encode_utf8(q2).len() == 2);
    assert(encode_utf8(q3).len() == 3);
    assert(utf8_len(pw) == 4);
    let z = Seq::new(16, |i: int| 0u8);
    let c1 = z.update(0, 112u8);
    let c2 = c1.update(3, 115u8);
    let c3 = c2.update(7, 119u8);
    let c4 = c3.update(4, 100u8);
    assert(kb.drop_last() =~= seq![112u8, 115u8, 119u8]);
    assert(seq![112u8, 115u8, 119u8].drop_last() =~= seq![112u8, 115u8]);
    assert(seq![112u8, 115u8].drop_last() =~= seq![112u8]);
    assert(seq![112u8].drop_last() =~= Seq::<u8>::empty());
    assert(mask_cells_first(Seq::<u8>::empty()) =~= z);
    assert(mask_cells_first(seq![112u8]) =~= c1);
    assert(mask_cells_first(seq![112u8, 115u8]) =~= c2);
    assert(mask_cells_first(seq![112u8, 115u8, 119u8]) =~= c3);
    assert(mask_cells_first(kb) =~= c4);
    assert forall|k: int| 0 <= k < 16 implies #[trigger] mask_cursor(pw, k) < 16 && mask_cursor(
        pw,
        k,
    ) < pw.len() by {
        assert(mask_cursor(pw, k) == c4[k] as int % 4);
    }
}

/// Runs the self-test with the included key `IK` (30000 random bytes):
/// fills a file, seals it and unseals it; returns the final contents,
/// which are the filled contents again.
pub fn tst(IK: Vec<u8>) -> (file: Vec<u8>)
    requires
        IK@.len() == 30000,
    ensures
        file@ == tst_plain(),
{
    let mut f: Vec<u8> = Vec::new();
    proof {
        reveal_strlit("a");
        reveal_strlit("pswd");
        assert("a"@ =~= seq!['a']);
        assert(seq!['a'].drop_first() =~= Seq::<char>::empty());
        assert('a' as u32 == 97);
        assert(encode_utf8(Seq::<char>::empty()) =~= Seq::<u8>::empty());
        assert(vstd::utf8::encode_scalar(97) =~= seq![97u8]) by {
            assert((97u32 & 0x7F) as u8 == 97u8) by (bit_vector);
        }
        assert(encode_utf8("a"@) =~= seq![97u8]);
    }
    f.populate_w_strn("a", 41219, 40 * 1024);
    let pk = String::from_str("pswd");
    proof {
        assert(f@ =~= tst_plain());
        assert(pk@ =~= tst_password());
        lemma_tst_plain();
        lemma_tst_password();
        assert(inject_ok(f@, pk@, IK@));
        lemma_unseal_sealed(f@, pk@, IK@, 40960, 40960);
    }
    f.encrypt(&pk, IK, 40 * 1024);
    f.decrypt(&pk, 40 * 1024);
    f
}

} // verus!
