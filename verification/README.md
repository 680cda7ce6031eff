# entropia

A symmetric file cipher with two keys. A random included key (IK) encrypts
the contents as a keystream; the prime key (PK, a password) encrypts the IK,
which is stored at a point of the file chosen by the password (the bytes it
covers follow it), and a 16-byte trailer that records the original length and
that point. Decryption gives the contents back for every non-empty file
sealed with a non-empty IK and a buffer size above zero, provided the
password can make a mask and can encrypt an IK of that length, and the
sealed result (contents, IK and trailer) fits in a byte vector.

Layout:

- `src/` — the verified library (Verus):
  - `keystream.rs`: `mutate` and the keystream of the IK;
  - `key.rs`: key bytes of a password, the 128-bit mask, `cipher_u128`;
  - `ik.rs`: encryption of the IK under the password, `cipher_vec`;
  - `bytes.rs`: numbers to and from byte strings, byte rotation;
  - `layout.rs`: positioned reads and writes on file contents, `file_exts`;
  - `container.rs`: sealing and unsealing file contents, `cipher`;
  - `fill.rs`: filling a file with copies of a string, `dummy_file`;
  - `rnd.rs`: the decisions of the random generators;
  - `input.rs`: decoding raw terminal input (the key typed, the first character);
  - `selftest.rs`: the self-test `tst`.
- `app/` — files, terminal, threads and the system random source, around the
  library.
- `tests/` — concrete values, and the library checked against the file
  algorithm run on an in-memory file.
