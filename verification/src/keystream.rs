//! The keystream that encrypts the body of a file: the included key is used
//! byte after byte and is stirred by `mutate` each time it has been used up.
use vstd::prelude::*;

verus! {

/// Addition of two bytes modulo 256.
pub open spec fn add8(a: u8, b: u8) -> u8 {
    ((a as int + b as int) % 256) as u8
}

/// `mutate` from position `i` on: each step adds the next byte into the
/// current one and XORs the old current byte into the next one.
pub open spec fn mutate_from(s: Seq<u8>, i: nat) -> Seq<u8>
    decreases s.len() - i,
{
    if i == 0 || i >= s.len() {
        s
    } else {
        let a = s[i - 1];
        let b = s[i as int];
        mutate_from(s.update(i - 1, add8(a, b)).update(i as int, b ^ a), i + 1)
    }
}

/// The stirred key: all steps from position 1 to the end.
pub open spec fn mutated(s: Seq<u8>) -> Seq<u8> {
    mutate_from(s, 1)
}

/// Stirring keeps the length of the key.
pub proof fn lemma_mutate_from_len(s: Seq<u8>, i: nat)
    ensures
        mutate_from(s, i).len() == s.len(),
    decreases s.len() - i,
{
    if i == 0 || i >= s.len() {
    } else {
        let a = s[i - 1];
        let b = s[i as int];
        lemma_mutate_from_len(s.update(i - 1, add8(a, b)).update(i as int, b ^ a), i + 1);
    }
}

/// The XOR of bytes `0..=j` of `s`.
pub open spec fn xor_upto(s: Seq<u8>, j: nat) -> u8
    decreases j,
{
    if j == 0 {
        s[0]
    } else {
        xor_upto(s, (j - 1) as nat) ^ s[j as int]
    }
}

/// Byte `j` of the stirred key in closed form: the XOR of the old bytes up
/// to `j`, plus (modulo 256) the old byte `j + 1`; the last byte is the XOR
/// of all old bytes.
pub open spec fn mutated_byte(s: Seq<u8>, j: nat) -> u8 {
    if j + 1 < s.len() {
        add8(xor_upto(s, j), s[(j + 1) as int])
    } else {
        xor_upto(s, j)
    }
}

proof fn lemma_mutate_from_closed(s: Seq<u8>, t: Seq<u8>, i: nat)
    requires
        1 <= i <= s.len(),
        t.len() == s.len(),
        forall|j: int| 0 <= j < i - 1 ==> #[trigger] t[j] == mutated_byte(s, j as nat),
        t[i - 1] == xor_upto(s, (i - 1) as nat),
        forall|j: int| i <= j < s.len() ==> #[trigger] t[j] == s[j],
    ensures
        forall|j: int| 0 <= j < s.len() ==> #[trigger] mutate_from(t, i)[j] == mutated_byte(s, j as nat),
    decreases s.len() - i,
{
    if i >= s.len() {
        assert forall|j: int| 0 <= j < s.len() implies #[trigger] mutate_from(t, i)[j] == mutated_byte(s, j as nat) by {
            assert(mutate_from(t, i) == t);
            if j == i - 1 {
                assert(mutated_byte(s, j as nat) == xor_upto(s, j as nat));
            }
        }
    } else {
        let a = t[i - 1];
        let b = t[i as int];
        let t2 = t.update(i - 1, add8(a, b)).update(i as int, b ^ a);
        assert(xor_upto(s, i) == xor_upto(s, (i - 1) as nat) ^ s[i as int]);
        assert(b ^ a == a ^ b) by (bit_vector);
        assert(mutate_from(t, i) == mutate_from(t2, i + 1));
        assert(t2[i as int] == xor_upto(s, i));
        assert(t2[i - 1] == mutated_byte(s, (i - 1) as nat));
        lemma_mutate_from_closed(s, t2, i + 1);
    }
}

/// The stirred key in closed form: every byte is `mutated_byte`.
pub proof fn lemma_mutated_closed_form(s: Seq<u8>)
    ensures
        mutated(s).len() == s.len(),
        forall|j: int| 0 <= j < s.len() ==> #[trigger] mutated(s)[j] == mutated_byte(s, j as nat),
{
    lemma_mutate_from_len(s, 1);
    if s.len() > 0 {
        lemma_mutate_from_closed(s, s, 1);
    }
}

/// Stirs the key in place.
pub fn mutate(data: &mut Vec<u8>)
    ensures
        final(data)@ == mutated(old(data)@),
{
    let n = data.len();
    if n == 0 {
        return;
    }
    let mut i: usize = 1;
    while i < n
        invariant
            1 <= i <= n,
            n == data.len(),
            mutate_from(data@, i as nat) == mutated(old(data)@),
        decreases n - i,
    {
        let a = data[i - 1];
        let b = data[i];
        data.set(i - 1, a.wrapping_add(b));
        data.set(i, b ^ a);
        i = i + 1;
    }
}


/// One keystream byte from the state `(key, pos)`: when the key is used up
/// it is stirred and the position restarts at 0. Returns the next key, the
/// next position and the byte.
pub open spec fn ks_next(key: Seq<u8>, pos: nat) -> (Seq<u8>, nat, u8) {
    let k = if pos == key.len() { mutated(key) } else { key };
    let p: nat = if pos == key.len() { 0 } else { pos };
    (k, p + 1, k[p as int])
}

/// The state after `n` keystream bytes.
pub open spec fn ks_state(key: Seq<u8>, pos: nat, n: nat) -> (Seq<u8>, nat)
    decreases n,
{
    if n == 0 {
        (key, pos)
    } else {
        let st = ks_state(key, pos, (n - 1) as nat);
        let nx = ks_next(st.0, st.1);
        (nx.0, nx.1)
    }
}

/// The first `n` keystream bytes.
pub open spec fn ks_bytes(key: Seq<u8>, pos: nat, n: nat) -> Seq<u8>
    decreases n,
{
    if n == 0 {
        Seq::empty()
    } else {
        let st = ks_state(key, pos, (n - 1) as nat);
        ks_bytes(key, pos, (n - 1) as nat).push(ks_next(st.0, st.1).2)
    }
}

/// `data` with its first `pad.len()` bytes XORed with `pad`.
pub open spec fn xor_prefix(data: Seq<u8>, pad: Seq<u8>) -> Seq<u8> {
    Seq::new(data.len(), |j: int| if j < pad.len() { data[j] ^ pad[j] } else { data[j] })
}

/// A state from which the keystream can go on: a non-empty key and a
/// position inside it or just past its end.
pub open spec fn ks_ok(key: Seq<u8>, pos: nat) -> bool {
    0 < key.len() && pos <= key.len()
}

/// The keystream can always go on: from a valid state, the state after
/// any number of bytes is valid and the key keeps its length.
pub proof fn lemma_ks_state_ok(key: Seq<u8>, pos: nat, n: nat)
    requires
        ks_ok(key, pos),
    ensures
        ks_ok(ks_state(key, pos, n).0, ks_state(key, pos, n).1),
        ks_state(key, pos, n).0.len() == key.len(),
    decreases n,
{
    if n > 0 {
        lemma_ks_state_ok(key, pos, (n - 1) as nat);
        let st = ks_state(key, pos, (n - 1) as nat);
        lemma_mutate_from_len(st.0, 1);
    }
}

/// `n` keystream bytes are `n` bytes.
pub proof fn lemma_ks_bytes_len(key: Seq<u8>, pos: nat, n: nat)
    ensures
        ks_bytes(key, pos, n).len() == n,
    decreases n,
{
    if n > 0 {
        lemma_ks_bytes_len(key, pos, (n - 1) as nat);
    }
}

/// Chunking law: the keystream of `m + n` bytes is that of the first `m`
/// bytes followed by that of the next `n` bytes, taken from the state
/// reached after `m` bytes; the final states agree too.
pub proof fn lemma_ks_chunks(key: Seq<u8>, pos: nat, m: nat, n: nat)
    ensures
        ks_state(key, pos, m + n) == ({
            let st = ks_state(key, pos, m);
            ks_state(st.0, st.1, n)
        }),
        ks_bytes(key, pos, m + n) == ks_bytes(key, pos, m) + ({
            let st = ks_state(key, pos, m);
            ks_bytes(st.0, st.1, n)
        }),
    decreases n,
{
    let st = ks_state(key, pos, m);
    if n == 0 {
        assert(ks_bytes(key, pos, m) + ks_bytes(st.0, st.1, 0) =~= ks_bytes(key, pos, m));
    } else {
        lemma_ks_chunks(key, pos, m, (n - 1) as nat);
        assert((m + n - 1) as nat == m + (n - 1) as nat);
        assert(ks_bytes(key, pos, m + n) =~= ks_bytes(key, pos, m) + ks_bytes(st.0, st.1, n));
    }
}

/// XORing twice with the same pad gives the data back.
pub proof fn lemma_xor_prefix_twice(data: Seq<u8>, pad: Seq<u8>)
    ensures
        xor_prefix(xor_prefix(data, pad), pad) == data,
{
    assert forall|j: int| 0 <= j < data.len() implies #[trigger] xor_prefix(
        xor_prefix(data, pad),
        pad,
    )[j] == data[j] by {
        if j < pad.len() {
            let (x, y) = (data[j], pad[j]);
            assert((x ^ y) ^ y == x) by (bit_vector);
        }
    }
    assert(xor_prefix(xor_prefix(data, pad), pad) =~= data);
}

/// The key stirred `r` times.
pub open spec fn mutate_pow(k: Seq<u8>, r: nat) -> Seq<u8>
    decreases r,
{
    if r == 0 {
        k
    } else {
        mutated(mutate_pow(k, (r - 1) as nat))
    }
}

/// Stirring any number of times keeps the length of the key.
pub proof fn lemma_mutate_pow_len(k: Seq<u8>, r: nat)
    ensures
        mutate_pow(k, r).len() == k.len(),
    decreases r,
{
    if r > 0 {
        lemma_mutate_pow_len(k, (r - 1) as nat);
        lemma_mutate_from_len(mutate_pow(k, (r - 1) as nat), 1);
    }
}

/// Inside the key the keystream just reads it: from position `p`, the next
/// `i` bytes (while they stay inside the key) are the key's bytes `p..p+i`.
pub proof fn lemma_ks_within(k: Seq<u8>, p: nat, i: nat)
    requires
        p + i <= k.len(),
    ensures
        ks_state(k, p, i) == (k, p + i),
        ks_bytes(k, p, i) == k.subrange(p as int, (p + i) as int),
    decreases i,
{
    if i == 0 {
        assert(k.subrange(p as int, p as int) =~= Seq::<u8>::empty());
    } else {
        lemma_ks_within(k, p, (i - 1) as nat);
        assert(k.subrange(p as int, (p + i) as int) =~= k.subrange(p as int, (p + i - 1) as int).push(
            k[(p + i - 1) as int],
        ));
    }
}

/// A used-up key gives a whole round of the stirred key: from the end of
/// `k`, the next `|k|` bytes are `mutated(k)`, after which the stirred key
/// is used up.
pub proof fn lemma_ks_round(k: Seq<u8>)
    requires
        k.len() > 0,
    ensures
        ks_state(k, k.len(), k.len()) == (mutated(k), k.len()),
        ks_bytes(k, k.len(), k.len()) == mutated(k),
{
    let l = k.len();
    let m = mutated(k);
    lemma_mutate_from_len(k, 1);
    assert(ks_state(k, l, 0) == (k, l));
    assert(ks_state(k, l, 1) == (m, 1nat));
    assert(ks_bytes(k, l, 0) =~= Seq::<u8>::empty());
    assert(ks_bytes(k, l, 1) =~= seq![m[0]]);
    lemma_ks_chunks(k, l, 1, (l - 1) as nat);
    lemma_ks_within(m, 1, (l - 1) as nat);
    assert(1 + (l - 1) as nat == l);
    assert(seq![m[0]] + m.subrange(1, l as int) =~= m);
}

/// The keystream of an IK `k` is `k`, then `k` stirred once, then stirred
/// twice, and so on: for every non-empty key, every round `r` and every
/// position `i < |k|`, keystream byte `r * |k| + i` is byte `i` of the key
/// stirred `r` times; after `r + 1` rounds the key stirred `r` times is
/// used up.
pub proof fn lemma_ks_rounds(k: Seq<u8>, r: nat)
    requires
        k.len() > 0,
    ensures
        ks_state(k, 0, (r + 1) * k.len()) == (mutate_pow(k, r), k.len()),
        ks_bytes(k, 0, (r + 1) * k.len()).len() == (r + 1) * k.len(),
        forall|i: int|
            0 <= i < k.len() ==> #[trigger] ks_bytes(k, 0, (r + 1) * k.len())[r * k.len() + i]
                == mutate_pow(k, r)[i],
    decreases r,
{
    let l = k.len();
    lemma_ks_bytes_len(k, 0, (r + 1) * l);
    lemma_mutate_pow_len(k, r);
    if r == 0 {
        assert((r + 1) * l == l && r * l == 0) by (nonlinear_arith)
            requires
                r == 0,
        ;
        lemma_ks_within(k, 0, l);
        assert(k.subrange(0, l as int) =~= k);
    } else {
        let q = (r - 1) as nat;
        lemma_ks_rounds(k, q);
        let mq = mutate_pow(k, q);
        lemma_mutate_pow_len(k, q);
        assert((q + 1) * l + l == (r + 1) * l) by (nonlinear_arith)
            requires
                q + 1 == r,
        ;
        assert(r * l == (q + 1) * l) by (nonlinear_arith)
            requires
                q + 1 == r,
        ;
        lemma_ks_chunks(k, 0, (q + 1) * l, l);
        lemma_ks_round(mq);
        lemma_ks_bytes_len(k, 0, (q + 1) * l);
        assert forall|i: int| 0 <= i < l implies #[trigger] ks_bytes(k, 0, (r + 1) * l)[r * l + i]
            == mutate_pow(k, r)[i] by {
            assert(ks_bytes(k, 0, (r + 1) * l) == ks_bytes(k, 0, (q + 1) * l) + mutated(mq));
        }
    }
}

/// The running keystream over an included key.
pub struct KeyStream {
    key: Vec<u8>,
    pos: usize,
}

impl View for KeyStream {
    type V = (Seq<u8>, nat);

    closed spec fn view(&self) -> (Seq<u8>, nat) {
        (self.key@, self.pos as nat)
    }
}

impl KeyStream {
    /// Starts the keystream at the beginning of a non-empty key.
    pub fn new(key: Vec<u8>) -> (ks: KeyStream)
        requires
            key.len() > 0,
        ensures
            ks@ == (key@, 0nat),
            ks_ok(ks@.0, ks@.1),
    {
        KeyStream { key, pos: 0 }
    }

    /// XORs the first `len` bytes of `buf` with the next `len` keystream
    /// bytes and advances the keystream by `len`.
    pub fn apply(&mut self, buf: &mut Vec<u8>, len: usize)
        requires
            len <= old(buf).len(),
            ks_ok(old(self)@.0, old(self)@.1),
        ensures
            final(buf)@ == xor_prefix(old(buf)@, ks_bytes(old(self)@.0, old(self)@.1, len as nat)),
            final(self)@ == ks_state(old(self)@.0, old(self)@.1, len as nat),
            ks_ok(final(self)@.0, final(self)@.1),
    {
        let ghost k0 = self.key@;
        let ghost p0 = self.pos as nat;
        let ghost b0 = buf@;
        let mut i: usize = 0;
        proof {
            lemma_ks_bytes_len(k0, p0, 0);
        }
        while i < len
            invariant
                0 <= i <= len <= buf.len(),
                buf.len() == b0.len(),
                (self.key@, self.pos as nat) == ks_state(k0, p0, i as nat),
                ks_ok(self.key@, self.pos as nat),
                buf@ == xor_prefix(b0, ks_bytes(k0, p0, i as nat)),
                ks_bytes(k0, p0, i as nat).len() == i,
            decreases len - i,
        {
            if self.pos == self.key.len() {
                mutate(&mut self.key);
                self.pos = 0;
                proof {
                    lemma_mutate_from_len(ks_state(k0, p0, i as nat).0, 1);
                }
            }
            let kb = self.key[self.pos];
            let db = buf[i];
            buf.set(i, db ^ kb);
            self.pos = self.pos + 1;
            proof {
                lemma_ks_bytes_len(k0, p0, (i + 1) as nat);
                assert(buf@ =~= xor_prefix(b0, ks_bytes(k0, p0, (i + 1) as nat)));
            }
            i = i + 1;
        }
    }
}

} // verus!
