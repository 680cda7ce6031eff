//! Filling a file with copies of a string, written in chunks of at most
//! one buffer.
use vstd::prelude::*;
use vstd::utf8::encode_utf8;

verus! {

/// `k` copies of `s`.
pub open spec fn repeat(s: Seq<u8>, k: nat) -> Seq<u8>
    decreases k,
{
    if k == 0 {
        Seq::empty()
    } else {
        repeat(s, (k - 1) as nat) + s
    }
}

/// The number of copies in a chunk when `rest` bytes are still wanted: as
/// many whole copies of an `m`-byte string as fit in both the buffer and
/// the rest, and at least one.
pub open spec fn fill_count(m: nat, rest: nat, buf_size: nat) -> nat {
    let cap: nat = if buf_size < rest { buf_size } else { rest };
    if cap / m >= 1 { cap / m } else { 1 }
}

/// All the chunks written while `rest` bytes are wanted: a chunk of
/// `fill_count` copies, then, if it fell short of `rest`, the chunks for
/// what is left. Writing stops as soon as a chunk reaches or passes `rest`.
pub open spec fn filled(s: Seq<u8>, rest: nat, buf_size: nat) -> Seq<u8>
    decreases rest,
{
    if rest == 0 || s.len() == 0 || buf_size == 0 {
        Seq::empty()
    } else {
        let k = fill_count(s.len(), rest, buf_size);
        if k * s.len() >= rest {
            repeat(s, k)
        } else {
            proof {
                assert(k * s.len() >= 1) by (nonlinear_arith)
                    requires
                        k >= 1,
                        s.len() >= 1,
                ;
            }
            repeat(s, k) + filled(s, (rest - k * s.len()) as nat, buf_size)
        }
    }
}

/// The written total never passes `rest` by a whole copy.
pub proof fn lemma_filled_len(s: Seq<u8>, rest: nat, buf_size: nat)
    ensures
        filled(s, rest, buf_size).len() <= rest + s.len(),
    decreases rest,
{
    if rest == 0 || s.len() == 0 || buf_size == 0 {
    } else {
        let m = s.len();
        let k = fill_count(m, rest, buf_size);
        lemma_repeat_len(s, k);
        let cap: nat = if buf_size < rest { buf_size } else { rest };
        if cap / m >= 1 {
            assert(k * m <= cap) by (nonlinear_arith)
                requires
                    k == cap / m,
                    m > 0,
            ;
        } else {
            assert(k == 1);
            assert(k * m == m) by (nonlinear_arith)
                requires
                    k == 1,
            ;
        }
        if k * m < rest {
            let r2 = (rest - k * m) as nat;
            lemma_filled_len(s, r2, buf_size);
            assert(filled(s, rest, buf_size) == repeat(s, k) + filled(s, r2, buf_size));
        } else {
            assert(filled(s, rest, buf_size) == repeat(s, k));
        }
    }
}

/// `k` copies of `s` have `k * |s|` bytes.
pub proof fn lemma_repeat_len(s: Seq<u8>, k: nat)
    ensures
        repeat(s, k).len() == k * s.len(),
    decreases k,
{
    if k > 0 {
        let j = (k - 1) as nat;
        lemma_repeat_len(s, j);
        let a = repeat(s, j).len();
        assert(repeat(s, k).len() == a + s.len());
        let l = s.len();
        assert(k * l == j * l + l) by (nonlinear_arith)
            requires
                j + 1 == k,
        ;
    } else {
        let l = s.len();
        assert(k * l == 0) by (nonlinear_arith)
            requires
                k == 0,
        ;
    }
}

/// Byte `i` of `k` copies of `s` is byte `i mod |s|` of `s`.
proof fn lemma_repeat_index(s: Seq<u8>, k: nat)
    requires
        s.len() > 0,
    ensures
        repeat(s, k).len() == k * s.len(),
        forall|i: int| 0 <= i < k * s.len() ==> #[trigger] repeat(s, k)[i] == s[i % (s.len() as int)],
    decreases k,
{
    lemma_repeat_len(s, k);
    if k > 0 {
        let j = (k - 1) as nat;
        let m = s.len() as int;
        lemma_repeat_index(s, j);
        assert forall|i: int| 0 <= i < k * s.len() implies #[trigger] repeat(s, k)[i] == s[i % m] by {
            if i >= j * m {
                assert(k * m == j * m + m) by (nonlinear_arith)
                    requires
                        j + 1 == k,
                ;
                vstd::arithmetic::div_mod::lemma_fundamental_div_mod_converse(i, m, j as int, i - j * m);
            }
        }
    }
}

/// What the filling writes is whole copies of the string, one after the
/// other, and at least what was wanted: for a non-empty string and a
/// non-empty buffer, the length is a multiple of `|s|` and is at least
/// `rest`, and byte `i` is byte `i mod |s|` of the string.
pub proof fn lemma_filled_copies(s: Seq<u8>, rest: nat, buf_size: nat)
    requires
        s.len() > 0,
        buf_size > 0,
    ensures
        filled(s, rest, buf_size).len() % s.len() == 0,
        rest <= filled(s, rest, buf_size).len(),
        forall|i: int|
            0 <= i < filled(s, rest, buf_size).len() ==> #[trigger] filled(s, rest, buf_size)[i]
                == s[i % (s.len() as int)],
    decreases rest,
{
    let m = s.len() as int;
    lemma_filled_len(s, rest, buf_size);
    if rest == 0 {
        assert(filled(s, rest, buf_size).len() == 0);
    } else {
        let k = fill_count(s.len(), rest, buf_size);
        lemma_repeat_index(s, k);
        vstd::arithmetic::div_mod::lemma_fundamental_div_mod_converse(k * m, m, k as int, 0);
        if k * s.len() < rest {
            let r2 = (rest - k * s.len()) as nat;
            lemma_filled_copies(s, r2, buf_size);
            let f2 = filled(s, r2, buf_size);
            assert(filled(s, rest, buf_size) == repeat(s, k) + f2);
            let q2 = f2.len() as int / m;
            vstd::arithmetic::div_mod::lemma_fundamental_div_mod(f2.len() as int, m);
            assert(k * m + f2.len() == (k + q2) * m) by (nonlinear_arith)
                requires
                    f2.len() == m * q2 + 0,
            ;
            vstd::arithmetic::div_mod::lemma_fundamental_div_mod_converse(
                k * m + f2.len(),
                m,
                k + q2,
                0,
            );
            assert forall|i: int| 0 <= i < filled(s, rest, buf_size).len() implies #[trigger] filled(
                s,
                rest,
                buf_size,
            )[i] == s[i % m] by {
                if i >= k * m {
                    let i2 = i - k * m;
                    vstd::arithmetic::div_mod::lemma_fundamental_div_mod(i2, m);
                    let q = i2 / m;
                    assert(i == (k + q) * m + i2 % m) by (nonlinear_arith)
                        requires
                            i2 == m * q + i2 % m,
                            i == i2 + k * m,
                    ;
                    vstd::arithmetic::div_mod::lemma_fundamental_div_mod_converse(i, m, k + q, i2 % m);
                }
            }
        } else {
            assert(filled(s, rest, buf_size) == repeat(s, k));
        }
    }
}

/// Writing a string repeatedly into a file.
pub trait dummy_file: View<V = Seq<u8>> + Sized {
    /// Appends copies of `strn` (its UTF-8 bytes) in chunks: each chunk
    /// holds as many copies as fit in `buf_size` bytes and in the
    /// `file_size` bytes still wanted, at least one; writing stops once a
    /// chunk reaches or passes what is wanted.
    fn populate_w_strn(&mut self, strn: &str, file_size: usize, buf_size: usize)
        requires
            file_size == 0 || (buf_size > 0 && strn@.len() > 0),
            old(self)@.len() + file_size + encode_utf8(strn@).len() <= usize::MAX,
        ensures
            final(self)@ == old(self)@ + filled(encode_utf8(strn@), file_size as nat, buf_size as nat),
    ;
}

impl dummy_file for Vec<u8> {
    fn populate_w_strn(&mut self, strn: &str, file_size: usize, buf_size: usize) {
        let bytes = strn.as_bytes();
        let m = bytes.len();
        let ghost s = encode_utf8(strn@);
        let ghost start = self@;
        if file_size == 0 {
            proof {
                assert(start + filled(s, 0, buf_size as nat) =~= start);
            }
            return;
        }
        proof {
            assert(s.len() > 0) by {
                assert(strn@.len() > 0);
                assert(s == vstd::utf8::encode_utf8(strn@));
                assert(vstd::utf8::encode_utf8(strn@) == vstd::utf8::encode_scalar(strn@[0] as u32)
                    + vstd::utf8::encode_utf8(strn@.drop_first()));
            }
            lemma_filled_len(s, file_size as nat, buf_size as nat);
        }
        let mut rest = file_size;
        loop
            invariant_except_break
                self@ + filled(s, rest as nat, buf_size as nat) == start + filled(s, file_size as nat, buf_size as nat),
                self@.len() + filled(s, rest as nat, buf_size as nat).len() <= usize::MAX,
            invariant
                bytes@ == s,
                m == s.len(),
                m > 0,
                buf_size > 0,
                rest > 0,
                rest <= file_size,
            ensures
                self@ == start + filled(s, file_size as nat, buf_size as nat),
            decreases rest,
        {
            let cap = if buf_size < rest { buf_size } else { rest };
            let k = if cap / m >= 1 { cap / m } else { 1 };
            let ghost before = self@;
            proof {
                lemma_repeat_len(s, k as nat);
                if cap / m >= 1 {
                    assert(k * m <= cap) by (nonlinear_arith)
                        requires
                            k == cap / m,
                            m > 0,
                    ;
                }
                assert(filled(s, rest as nat, buf_size as nat).len() >= k * m);
            }
            let mut c: usize = 0;
            while c < k
                invariant
                    0 <= c <= k,
                    bytes@ == s,
                    m == s.len(),
                    self@ == before + repeat(s, c as nat),
                    self@.len() + (k - c) * m <= usize::MAX,
                decreases k - c,
            {
                let mut t: usize = 0;
                let ghost mid = self@;
                proof {
                    assert((k - c) * m == (k - c - 1) * m + m) by (nonlinear_arith);
                }
                while t < m
                    invariant
                        0 <= t <= m,
                        bytes@ == s,
                        m == s.len(),
                        self@ == mid + s.subrange(0, t as int),
                        mid.len() + m <= usize::MAX,
                    decreases m - t,
                {
                    self.push(bytes[t]);
                    proof {
                        assert(s.subrange(0, t + 1) =~= s.subrange(0, t as int).push(s[t as int]));
                    }
                    t = t + 1;
                }
                proof {
                    assert(s.subrange(0, m as int) =~= s);
                }
                c = c + 1;
            }
            if k * m >= rest {
                proof {
                    assert(filled(s, rest as nat, buf_size as nat) == repeat(s, k as nat));
                }
                break;
            }
            proof {
                assert(filled(s, rest as nat, buf_size as nat) == repeat(s, k as nat) + filled(
                    s,
                    (rest - k * m) as nat,
                    buf_size as nat,
                ));
                assert(self@ + filled(s, (rest - k * m) as nat, buf_size as nat) =~= before + filled(
                    s,
                    rest as nat,
                    buf_size as nat,
                ));
            }
            rest = rest - k * m;
        }
    }
}

} // verus!
