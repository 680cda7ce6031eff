//! Decoding what a raw read of the terminal gave: the key typed, or the
//! first character.
use vstd::prelude::*;
use vstd::string::*;
use vstd::utf8::{decode_utf8, valid_utf8};

verus! {

/// `std::str::from_utf8`: the text that the bytes encode when they are
/// valid UTF-8, `None` otherwise.
#[verifier::external_body]
fn str_from_utf8(b: &[u8]) -> (r: Option<&str>)
    ensures
        r is Some <==> valid_utf8(b@),
        r matches Some(s) ==> s@ == decode_utf8(b@),
{
    std::str::from_utf8(b).ok()
}

/// The characters before the first NUL character (all of them when there
/// is none).
pub open spec fn take_until_nul(t: Seq<char>) -> Seq<char>
    decreases t.len(),
{
    if t.len() == 0 || t[0] == '\0' {
        Seq::empty()
    } else {
        seq![t[0]] + take_until_nul(t.drop_first())
    }
}

proof fn lemma_take_until_nul(t: Seq<char>, i: nat)
    requires
        i <= t.len(),
        forall|k: int| 0 <= k < i ==> t[k] != '\0',
        i == t.len() || t[i as int] == '\0',
    ensures
        take_until_nul(t) == t.subrange(0, i as int),
    decreases i,
{
    if i == 0 {
        assert(t.subrange(0, 0) =~= Seq::<char>::empty());
    } else {
        lemma_take_until_nul(t.drop_first(), (i - 1) as nat);
        assert(t.subrange(0, i as int) =~= seq![t[0]] + t.drop_first().subrange(0, i - 1));
    }
}

/// The key typed: the text of `buf` up to its first NUL character, or
/// nothing when `buf` is not valid UTF-8.
pub fn key_from_input(buf: &[u8]) -> (r: String)
    ensures
        r@ == (if valid_utf8(buf@) { take_until_nul(decode_utf8(buf@)) } else { Seq::empty() }),
{
    match str_from_utf8(buf) {
        None => String::new(),
        Some(s) => {
            let n = s.unicode_len();
            let mut i: usize = 0;
            while i < n
                invariant
                    0 <= i <= n,
                    n == s@.len(),
                    forall|k: int| 0 <= k < i ==> s@[k] != '\0',
                ensures
                    0 <= i <= n,
                    forall|k: int| 0 <= k < i ==> s@[k] != '\0',
                    i == n || s@[i as int] == '\0',
                decreases n - i,
            {
                let c = s.get_char(i);
                if c == '\0' {
                    break;
                }
                i = i + 1;
            }
            proof {
                lemma_take_until_nul(s@, i as nat);
            }
            let t = s.substring_char(0, i);
            String::from_str(t)
        },
    }
}

/// Whether every byte is zero.
pub open spec fn all_zero(b: Seq<u8>) -> bool {
    forall|k: int| 0 <= k < b.len() ==> b[k] == 0
}

/// The first character typed: none while `buf` holds only zero bytes,
/// otherwise the first character that `buf` encodes.
pub fn first_char(buf: &[u8]) -> (r: Option<char>)
    requires
        !all_zero(buf@) ==> valid_utf8(buf@),
    ensures
        r == (if all_zero(buf@) { None } else { Some(decode_utf8(buf@)[0]) }),
{
    let n = buf.len();
    let mut i: usize = 0;
    while i < n
        invariant
            0 <= i <= n,
            n == buf@.len(),
            forall|k: int| 0 <= k < i ==> buf@[k] == 0,
        ensures
            0 <= i <= n,
            forall|k: int| 0 <= k < i ==> buf@[k] == 0,
            i == n || buf@[i as int] != 0,
        decreases n - i,
    {
        if buf[i] != 0 {
            break;
        }
        i = i + 1;
    }
    if i == n {
        return None;
    }
    proof {
        assert(!all_zero(buf@));
    }
    match str_from_utf8(buf) {
        Some(s) => {
            proof {
                assert(decode_utf8(buf@).len() > 0);
            }
            Some(s.get_char(0))
        },
        None => {
            proof {
                assert(false);
            }
            None
        },
    }
}

} // verus!
