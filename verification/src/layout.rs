//! The contents of a file as a byte string, and the positioned reads and
//! writes that the cipher performs on it. Reading past the end gives zero
//! bytes; writing past the end extends the contents, with zero bytes in any
//! gap.
use vstd::prelude::*;

verus! {

/// The `n` bytes from position `at`, zero where they lie past the end.
pub open spec fn read_at(x: Seq<u8>, at: nat, n: nat) -> Seq<u8> {
    Seq::new(n, |j: int| if at + j < x.len() { x[at + j] } else { 0u8 })
}

/// `x` with `p` written at position `at`.
pub open spec fn write_at(x: Seq<u8>, at: nat, p: Seq<u8>) -> Seq<u8> {
    let end: nat = if at + p.len() > x.len() { at + p.len() } else { x.len() };
    Seq::new(
        end,
        |j: int|
            if at <= j < at + p.len() {
                p[j - at]
            } else if j < x.len() {
                x[j]
            } else {
                0u8
            },
    )
}

/// Moving `n` bytes from position `from` to the end of the contents; the
/// contents are left alone when `from` lies past the end.
pub open spec fn relocated_to_tail(x: Seq<u8>, from: nat, n: nat) -> Seq<u8> {
    if x.len() < from {
        x
    } else {
        x + read_at(x, from, n)
    }
}

/// Copying `n` bytes from position `from` to position `to`; the contents are
/// left alone when either position lies past the end.
pub open spec fn relocated(x: Seq<u8>, from: nat, to: nat, n: nat) -> Seq<u8> {
    if x.len() < to || x.len() < from {
        x
    } else {
        write_at(x, to, read_at(x, from, n))
    }
}

/// Writing `p` at position `from`; the contents are left alone when `from`
/// lies past the end.
pub open spec fn patched(x: Seq<u8>, from: nat, p: Seq<u8>) -> Seq<u8> {
    if x.len() < from {
        x
    } else {
        write_at(x, from, p)
    }
}

/// The `n` bytes of `x` from position `at` (zero past the end).
pub fn read_at_exec(x: &Vec<u8>, at: u64, n: usize) -> (r: Vec<u8>)
    ensures
        r@ == read_at(x@, at as nat, n as nat),
{
    let mut r: Vec<u8> = Vec::new();
    let mut j: usize = 0;
    while j < n
        invariant
            0 <= j <= n,
            r@.len() == j,
            forall|k: int| 0 <= k < j ==> #[trigger] r@[k] == read_at(x@, at as nat, n as nat)[k],
        decreases n - j,
    {
        let b: u8 = if at < x.len() as u64 && (j as u64) < (x.len() as u64) - at {
            x[(at + j as u64) as usize]
        } else {
            0u8
        };
        r.push(b);
        j = j + 1;
    }
    proof {
        assert(r@ =~= read_at(x@, at as nat, n as nat));
    }
    r
}

/// Writes `p` into `x` at position `at`, extending `x` as needed.
pub fn write_at_exec(x: &mut Vec<u8>, at: usize, p: &Vec<u8>)
    requires
        at + p@.len() <= usize::MAX,
    ensures
        final(x)@ == write_at(old(x)@, at as nat, p@),
{
    let ghost x0 = x@;
    while x.len() < at
        invariant
            x@.len() <= at || x@.len() == x0.len(),
            x0.len() <= x@.len(),
            forall|k: int| 0 <= k < x@.len() ==> #[trigger] x@[k] == if k < x0.len() { x0[k] } else { 0u8 },
        decreases at - x.len(),
    {
        x.push(0u8);
    }
    let mut j: usize = 0;
    while j < p.len()
        invariant
            0 <= j <= p@.len(),
            at + p@.len() <= usize::MAX,
            x@.len() as int == (if (at + j) as int > x0.len() as int { (at + j) as int } else if at as int > x0.len() as int { at as int } else { x0.len() as int }),
            x@.len() >= at,
            forall|k: int|
                0 <= k < x@.len() ==> #[trigger] x@[k] == if at <= k < at + j {
                    p@[k - at]
                } else if k < x0.len() {
                    x0[k]
                } else {
                    0u8
                },
        decreases p@.len() - j,
    {
        if at + j < x.len() {
            x.set(at + j, p[j]);
        } else {
            x.push(p[j]);
        }
        j = j + 1;
    }
    proof {
        assert(x@ =~= write_at(x0, at as nat, p@));
    }
}

/// Editing operations on the contents of a file.
pub trait file_exts: View<V = Seq<u8>> + Sized {
    /// Appends a copy of the `seg_size` bytes at position `from` to the end
    /// (bytes past the old end read as zero); does nothing when `from`
    /// lies past the end.
    fn relocate_seg_from_to_tail(&mut self, from: u64, seg_size: u64)
        requires
            old(self)@.len() + seg_size <= usize::MAX,
        ensures
            final(self)@ == relocated_to_tail(old(self)@, from as nat, seg_size as nat),
    ;

    /// Writes a copy of the `seg_size` bytes at position `from` at position
    /// `to`; does nothing when either position lies past the end.
    fn relocate_seg_from_to(&mut self, from: u64, to: u64, seg_size: u64)
        requires
            to + seg_size <= usize::MAX,
        ensures
            final(self)@ == relocated(old(self)@, from as nat, to as nat, seg_size as nat),
    ;

    /// Writes `patch` at position `from`; does nothing when `from` lies
    /// past the end.
    fn patch(&mut self, from: u64, patch: &Vec<u8>)
        requires
            from + patch@.len() <= usize::MAX,
        ensures
            final(self)@ == patched(old(self)@, from as nat, patch@),
    ;
}

impl file_exts for Vec<u8> {
    fn relocate_seg_from_to_tail(&mut self, from: u64, seg_size: u64) {
        let file_len = self.len() as u64;
        if file_len < from {
            return;
        }
        let seg = read_at_exec(self, from, seg_size as usize);
        let at = self.len();
        write_at_exec(self, at, &seg);
        proof {
            assert(self@ =~= relocated_to_tail(old(self)@, from as nat, seg_size as nat));
        }
    }

    fn relocate_seg_from_to(&mut self, from: u64, to: u64, seg_size: u64) {
        let file_len = self.len() as u64;
        if file_len < to || file_len < from {
            return;
        }
        let seg = read_at_exec(self, from, seg_size as usize);
        write_at_exec(self, to as usize, &seg);
    }

    fn patch(&mut self, from: u64, patch: &Vec<u8>) {
        let file_len = self.len() as u64;
        if file_len < from {
            return;
        }
        write_at_exec(self, from as usize, patch);
    }
}

} // verus!
