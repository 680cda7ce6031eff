// Differential tests: the library against the cipher's file algorithm run
// on an in-memory file (a `Cursor` over a byte vector).
use entropia::container::{cipher, extract_fits, inject_fits, seal_fits, unseal_fits};
use entropia::fill::dummy_file;
use entropia::ik::{cipher_vec, ik_fits};
use entropia::key::{cipher_u128, key_bytes_of, mask_fits};
use entropia::keystream::mutate;
use entropia::layout::file_exts;
use std::io::{Cursor, Read, Seek, SeekFrom, Write};

type MemFile = Cursor<Vec<u8>>;

fn set_len(f: &mut MemFile, n: u64) {
    f.get_mut().resize(n as usize, 0);
}

fn le_read(a: &[u8]) -> u128 {
    let mut v = 0u128;
    for i in (0..a.len()).rev() {
        v = v * 256 + a[i] as u128;
    }
    v
}

fn reversed(a: &[u8]) -> Vec<u8> {
    a.iter().rev().cloned().collect()
}

fn ref_mutate(data: &mut Vec<u8>) {
    for i in 1..data.len() {
        let a = data[i - 1];
        let b = data[i];
        data[i - 1] = data[i - 1].overflowing_add(b).0;
        data[i] ^= a;
    }
}

fn ref_pk_vec(pk: &String) -> Vec<u8> {
    let mut v = Vec::new();
    for j in pk.chars() {
        let mut u = j as u32;
        while u > 0 {
            v.push((u & 255) as u8);
            u = u >> 8;
        }
    }
    v
}

fn ref_mask(pk: &String) -> u128 {
    let mut u128_ = [0u8; 16];
    let pk_as_vec = ref_pk_vec(pk);
    for ch in pk_as_vec.iter() {
        let ch0 = *ch as usize;
        let cursor = ch0 % 16;
        u128_[cursor] = u128_[cursor].overflowing_add(ch0 as u8).0;
        u128_[cursor] = u128_[cursor].overflowing_add(ch0.rotate_left(8) as u8).0;
    }
    let pk_len = pk_as_vec.len();
    for ch in u128_ {
        let ch0 = ch as usize;
        let cursor = ch0 % pk_len;
        u128_[cursor % 16] = u128_[cursor].overflowing_add(pk.chars().nth(cursor).unwrap() as u8).0;
        u128_[cursor % 16] = u128_[cursor]
            .overflowing_add((pk.chars().nth(cursor).unwrap() as u16).rotate_left(8) as u8)
            .0;
    }
    let v = le_read(&u128_);
    v.overflowing_mul(!v).0
}

fn ref_ik(v: &mut Vec<u8>, pk: &String, dec: bool) {
    let mut k = ref_pk_vec(pk);
    for i in 1..v.len() {
        let a = k[(i - 1) % k.len()];
        let b = k[i % k.len()];
        v[i - 1] ^= a;
        v[i] ^= b;
        if dec {
            k[(i - 1) % pk.len()] = k[(i - 1) % pk.len()].overflowing_add(b).0;
        } else {
            k[(i - 1) % pk.len()] = a.overflowing_add(b).0;
        }
        k[i % pk.len()] ^= a;
    }
}

fn ref_seed(pk: &String) -> u64 {
    let mut p = [0u16; 4];
    for ch in pk.chars() {
        let ch0 = ch as usize;
        p[ch0 % 4] = p[ch0 % 4].overflowing_add(ch as u16).0;
    }
    p[0] as u64 | (p[1] as u64) << 16 | (p[2] as u64) << 32 | (p[3] as u64) << 48
}

fn ref_relocate_tail(f: &mut MemFile, from: u64, seg_size: u64) {
    let mut seg = vec![0; seg_size as usize];
    let file_len = f.seek(SeekFrom::End(0)).unwrap();
    let new_len = file_len + seg_size;
    if file_len < from {
        return;
    }
    set_len(f, new_len);
    f.seek(SeekFrom::Start(from)).unwrap();
    f.read(&mut seg).unwrap();
    f.seek(SeekFrom::Start(file_len)).unwrap();
    f.write(&seg).unwrap();
}

fn ref_relocate(f: &mut MemFile, from: u64, to: u64, seg_size: u64) {
    let mut seg = vec![0; seg_size as usize];
    let file_len = f.seek(SeekFrom::End(0)).unwrap();
    if file_len < to || file_len < from {
        return;
    }
    f.seek(SeekFrom::Start(from)).unwrap();
    f.read(&mut seg).unwrap();
    f.seek(SeekFrom::Start(to)).unwrap();
    f.write(&seg).unwrap();
}

fn ref_patch(f: &mut MemFile, from: u64, patch: &Vec<u8>) {
    let file_len = f.seek(SeekFrom::End(0)).unwrap();
    if file_len < from {
        return;
    }
    f.seek(SeekFrom::Start(from)).unwrap();
    f.write(patch).unwrap();
}

/// The sealed layout: the encrypted IK written at the injection point, the
/// bytes it covers, then the encrypted trailer.
fn expected_injected(x: &Vec<u8>, pk: &String, ik: &Vec<u8>) -> Vec<u8> {
    let n = x.len();
    let p = (ref_seed(pk) % n as u64) as usize;
    let mut e = ik.clone();
    ref_ik(&mut e, pk, false);
    let mut w = x.clone();
    if w.len() < p + e.len() {
        w.resize(p + e.len(), 0);
    }
    w[p..p + e.len()].copy_from_slice(&e);
    let end = std::cmp::min(p + ik.len(), n);
    w.extend_from_slice(&x[p..end]);
    let tail = ((n as u128) << 64) + p as u128;
    let tail = tail.overflowing_add(ref_mask(pk)).0;
    w.extend_from_slice(&tail.to_be_bytes());
    w
}

fn ref_extract(f: &mut MemFile, pk: &String) -> (Vec<u8>, u64) {
    let mut tail = [0u8; 16];
    let ct_len = match f.seek(SeekFrom::End(-16)) {
        Ok(s) => s,
        Err(_) => return (vec![], 0),
    };
    f.read(&mut tail).unwrap();
    let tail = le_read(&reversed(&tail));
    let tail = tail.overflowing_sub(ref_mask(pk)).0;
    let tb = tail.to_be_bytes();
    let point = le_read(&reversed(&tb[8..16])) as u64;
    let len = le_read(&reversed(&tb[0..8])) as u64;
    let ik_len = ct_len.overflowing_sub(len).0;
    let mut ik = vec![0u8; ik_len as usize];
    f.seek(SeekFrom::Start(point)).unwrap();
    f.read(&mut ik).unwrap();
    ref_ik(&mut ik, pk, true);
    (ik, point)
}

fn ref_stream(f: &mut MemFile, ik: &mut Vec<u8>, buf_size: usize) {
    let mut buf = vec![0u8; buf_size];
    let mut cursor = f.seek(SeekFrom::Start(0)).unwrap();
    let mut iter_ik = 0usize;
    loop {
        let n = f.read(&mut buf).unwrap();
        if n == 0 {
            return;
        }
        for i in 0..n {
            if iter_ik == ik.len() {
                ref_mutate(ik);
                iter_ik = 0;
            }
            buf[i] ^= ik[iter_ik];
            iter_ik += 1;
        }
        if n < buf_size {
            f.seek(SeekFrom::Start(cursor)).unwrap();
            f.write(&buf[0..n]).unwrap();
            return;
        }
        let prev = cursor;
        cursor = f.seek(SeekFrom::Current(0)).unwrap();
        f.seek(SeekFrom::Start(prev)).unwrap();
        f.write(&buf).unwrap();
        f.seek(SeekFrom::Start(cursor)).unwrap();
    }
}

fn ref_decrypt(f: &mut MemFile, pk: &String, buf_size: usize) {
    if buf_size == 0 {
        return;
    }
    let (mut ik, point) = ref_extract(f, pk);
    match f.seek(SeekFrom::End((ik.len() as i64) * -1 - 16)) {
        Ok(_) => {}
        Err(_) => return,
    };
    let mut patch = vec![0u8; ik.len()];
    f.read(&mut patch).unwrap();
    f.seek(SeekFrom::Start(point)).unwrap();
    f.write(&patch).unwrap();
    let file_len = f.seek(SeekFrom::End(0)).unwrap();
    let size = file_len - ik.len() as u64 - 16;
    set_len(f, size);
    ref_stream(f, &mut ik, buf_size);
}

fn ref_populate(f: &mut Vec<u8>, strn: &str, file_size: usize, buf_size: usize) {
    let mut buf = String::with_capacity(buf_size);
    let mut file_size = file_size;
    while file_size > 0 {
        buf.clear();
        for _i in 0..buf_size {
            buf.push_str(strn);
            if buf.len() + strn.len() > buf_size {
                break;
            }
            if buf.len() + strn.len() > file_size {
                break;
            }
        }
        f.extend_from_slice(buf.as_bytes());
        let ret = file_size.overflowing_sub(buf.len());
        file_size = ret.0;
        if ret.1 || file_size == 0 {
            return;
        }
    }
}

struct Lcg(u64);

impl Lcg {
    fn next(&mut self) -> u64 {
        self.0 = self.0.wrapping_mul(6364136223846793005).wrapping_add(1442695040888963407);
        self.0 >> 33
    }
    fn bytes(&mut self, n: usize) -> Vec<u8> {
        (0..n).map(|_| self.next() as u8).collect()
    }
}

fn passwords() -> Vec<String> {
    vec![
        "pswd".to_string(),
        "key".to_string(),
        "a longer password!".to_string(),
        "Ärger".to_string(),
        "Āb".to_string(),
        "日本".to_string(),
        "q\u{0}z".to_string(),
        "".to_string(),
    ]
}

#[test]
fn mutate_matches_reference() {
    let mut r = Lcg(1);
    for n in 0..20 {
        let v = r.bytes(n);
        let mut a = v.clone();
        let mut b = v.clone();
        mutate(&mut a);
        ref_mutate(&mut b);
        assert_eq!(a, b);
    }
}

#[test]
fn key_bytes_match_reference() {
    for pk in passwords() {
        assert_eq!(key_bytes_of(&pk), ref_pk_vec(&pk));
    }
}

#[test]
fn u128_cipher_matches_reference() {
    let mut r = Lcg(2);
    for pk in passwords() {
        if !mask_fits(&pk) {
            continue;
        }
        for _ in 0..5 {
            let x = (r.next() as u128) << 70 | r.next() as u128;
            let mut y = x;
            let e = y.encrypt(&pk);
            assert_eq!(e, x.overflowing_add(ref_mask(&pk)).0);
            assert_eq!(y, e);
            let d = y.decrypt(&pk);
            assert_eq!(d, x);
        }
    }
}

#[test]
fn ik_cipher_matches_reference() {
    let mut r = Lcg(3);
    for pk in passwords() {
        for n in 0..40 {
            if !ik_fits(n, &pk) {
                continue;
            }
            let v = r.bytes(n);
            let mut a = v.clone();
            let ret = a.encrypt_IK(&pk);
            let mut b = v.clone();
            ref_ik(&mut b, &pk, false);
            assert_eq!(a, b);
            assert_eq!(ret, a);
            let back = a.decrypt_IK(&pk);
            assert_eq!(back, v);
            assert_eq!(a, v);
        }
    }
}

#[test]
fn file_edits_match_reference() {
    let mut r = Lcg(4);
    for len in [0usize, 1, 5, 17] {
        for from in [0u64, 2, 5, 20] {
            for seg in [0u64, 3, 9] {
                let v = r.bytes(len);
                let mut a = v.clone();
                a.relocate_seg_from_to_tail(from, seg);
                let mut f = Cursor::new(v.clone());
                ref_relocate_tail(&mut f, from, seg);
                assert_eq!(a, f.into_inner());
                for to in [0u64, 4, 16] {
                    let mut a = v.clone();
                    a.relocate_seg_from_to(from, to, seg);
                    let mut f = Cursor::new(v.clone());
                    ref_relocate(&mut f, from, to, seg);
                    assert_eq!(a, f.into_inner());
                }
                let p = r.bytes(seg as usize);
                let mut a = v.clone();
                a.patch(from, &p);
                let mut f = Cursor::new(v.clone());
                ref_patch(&mut f, from, &p);
                assert_eq!(a, f.into_inner());
            }
        }
    }
}

#[test]
fn inject_and_extract_match_reference() {
    let mut r = Lcg(5);
    let mut count = 0;
    let mut overruns = 0;
    for pk in passwords() {
        for len in [1usize, 3, 40, 100] {
            for ikl in [0usize, 1, 2, 4, 7, 60, 150] {
                let x = r.bytes(len);
                let ik = r.bytes(ikl);
                if !inject_fits(&x, &pk, &ik) {
                    continue;
                }
                let mut a = x.clone();
                let mut ik_a = ik.clone();
                a.inject_IK(&pk, &mut ik_a);
                let mut e = ik.clone();
                ref_ik(&mut e, &pk, false);
                assert_eq!(ik_a, e);
                assert_eq!(a, expected_injected(&x, &pk, &ik));
                assert_eq!(a.len(), len + ikl + 16);
                assert!(extract_fits(&a, &pk));
                let (got, point) = a.extract_IK(&pk);
                let mut f = Cursor::new(a.clone());
                let (want, want_point) = ref_extract(&mut f, &pk);
                assert_eq!(got, want);
                assert_eq!(point, want_point);
                assert_eq!(got, ik);
                assert_eq!(point, ref_seed(&pk) % len as u64);
                if point as usize + ikl > len {
                    overruns += 1;
                }
                count += 1;
            }
        }
    }
    assert!(count > 40);
    assert!(overruns > 10);
}

#[test]
fn seal_and_unseal_round_trip() {
    let mut r = Lcg(6);
    let mut count = 0;
    for pk in passwords() {
        for len in [1usize, 8, 16, 33, 64, 100] {
            for bs in [1usize, 4, 16, 7, 64] {
                for ikl in [1usize, 3, 8, 90] {
                    let c = r.bytes(len);
                    let ik = r.bytes(ikl);
                    if !seal_fits(&c, &pk, &ik, bs) {
                        continue;
                    }
                    let mut a = c.clone();
                    a.encrypt(&pk, ik.clone(), bs);
                    let mut stream = Cursor::new(c.clone());
                    ref_stream(&mut stream, &mut ik.clone(), bs);
                    assert_eq!(a, expected_injected(&stream.into_inner(), &pk, &ik));
                    for bs2 in [1usize, 5, 16, 1000] {
                        assert!(unseal_fits(&a, &pk, bs2));
                        let mut b = a.clone();
                        b.decrypt(&pk, bs2);
                        assert_eq!(b, c);
                        count += 1;
                    }
                }
            }
        }
    }
    assert!(count > 100);
}

#[test]
fn seal_and_unseal_without_buffer_or_contents() {
    let pk = "pswd".to_string();
    let mut a = vec![1u8, 2, 3];
    a.encrypt(&pk, vec![4], 0);
    assert_eq!(a, vec![1, 2, 3]);
    a.decrypt(&pk, 0);
    assert_eq!(a, vec![1, 2, 3]);
    let mut e: Vec<u8> = vec![];
    e.encrypt(&pk, vec![], 8);
    assert!(e.is_empty());
}

#[test]
fn populate_matches_reference() {
    for strn in ["a", "xyz", "é", "日本"] {
        for fs in [0usize, 1, 5, 17, 100] {
            for bs in [1usize, 2, 7, 64] {
                let mut a: Vec<u8> = vec![9, 9];
                a.populate_w_strn(strn, fs, bs);
                let mut b: Vec<u8> = vec![9, 9];
                ref_populate(&mut b, strn, fs, bs);
                assert_eq!(a, b);
            }
        }
    }
}


/// Contents with a chosen trailer: `body` followed by the encrypted
/// trailer that records `len` and `point`.
fn with_trailer(body: &Vec<u8>, pk: &String, len: u64, point: u64) -> Vec<u8> {
    let tail = ((len as u128) << 64) + point as u128;
    let tail = tail.overflowing_add(ref_mask(pk)).0;
    let mut v = body.clone();
    v.extend_from_slice(&tail.to_be_bytes());
    v
}

#[test]
fn unsealing_chosen_trailers_matches_reference() {
    let mut r = Lcg(7);
    let mut count = 0;
    for pk in ["pswd".to_string(), "key".to_string(), "a longer password!".to_string()] {
        for body_len in [0usize, 1, 5, 20, 40] {
            for len in [0u64, 1, 3, 10, 20, 39, 40, u64::MAX, u64::MAX - 3] {
                for point in [0u64, 2, 9, 25, 50, 1000] {
                    let body = r.bytes(body_len);
                    let s = with_trailer(&body, &pk, len, point);
                    for bs in [1usize, 8] {
                        if !unseal_fits(&s, &pk, bs) {
                            continue;
                        }
                        let in_range = len <= body_len as u64;
                        let ikl = (body_len as u64).wrapping_sub(len);
                        // Where the saved bytes differ in number from the IK,
                        // the layout of this library decides.
                        if in_range && point < len && point + ikl > len {
                            continue;
                        }
                        let mut a = s.clone();
                        let (ik_a, p_a) = a.clone().extract_IK(&pk);
                        let mut f = Cursor::new(s.clone());
                        let (ik_b, p_b) = ref_extract(&mut f, &pk);
                        assert_eq!(ik_a, ik_b);
                        assert_eq!(p_a, p_b);
                        a.decrypt(&pk, bs);
                        let mut g = Cursor::new(s.clone());
                        ref_decrypt(&mut g, &pk, bs);
                        assert_eq!(a, g.into_inner());
                        if !in_range {
                            assert_eq!(a, s);
                        }
                        count += 1;
                    }
                }
            }
        }
    }
    assert!(count > 100);
}

#[test]
fn recorded_length_past_the_contents() {
    // "\u{80}\u{80}" has the mask 0, so the trailer below records the
    // length 2^64 - 1 and point 0: the IK length wraps round to 1.
    let pk = "\u{80}\u{80}".to_string();
    assert_eq!(ref_mask(&pk), 0);
    let s: Vec<u8> = vec![0xff, 0xff, 0xff, 0xff, 0xff, 0xff, 0xff, 0xff, 0, 0, 0, 0, 0, 0, 0, 0];
    assert!(extract_fits(&s, &pk));
    let mut a = s.clone();
    let (ik, point) = a.extract_IK(&pk);
    assert_eq!(ik, vec![0xff]);
    assert_eq!(point, 0);
    assert_eq!(a, s);
    assert!(unseal_fits(&s, &pk, 4));
    a.decrypt(&pk, 4);
    assert_eq!(a, s);
}
