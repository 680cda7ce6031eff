// Concrete values for the functions of the library and its laws.
use entropia::bytes::{arr2u128, arr2u64, limbs2u64, low_to_high, rotl8, u128_to_be_bytes};
use entropia::container::{cipher, inject_seed_of, seal_fits, unseal_fits};
use entropia::ik::{cipher_vec, ik_fits};
use entropia::key::{cipher_u128, key_bytes_of, mask_fits, mask_from_pk};
use entropia::input::{first_char, key_from_input};
use entropia::keystream::{mutate, KeyStream};
use entropia::rnd::{
    director, get_true_rnd_u64, rnd_byte_step, rnd_key, rnd_u8_arr, rndomize_u8_arr, uid_accept,
    uid_next_seed, uid_round,
};
use entropia::selftest::tst;

#[test]
fn mutate_small() {
    let mut v = vec![1u8, 2, 3];
    mutate(&mut v);
    assert_eq!(v, vec![3, 6, 0]);
    let mut e: Vec<u8> = vec![];
    mutate(&mut e);
    assert!(e.is_empty());
    let mut one = vec![7u8];
    mutate(&mut one);
    assert_eq!(one, vec![7]);
}

#[test]
fn keystream_stirs_the_key_when_used_up() {
    let mut ks = KeyStream::new(vec![1u8, 2]);
    let mut buf = vec![0u8; 5];
    ks.apply(&mut buf, 5);
    assert_eq!(buf, vec![1, 2, 3, 3, 6]);
}

#[test]
fn keystream_chunks_give_the_same_stream() {
    let data: Vec<u8> = (0..50u8).map(|x| x.wrapping_mul(37)).collect();
    let mut whole = data.clone();
    let mut ks = KeyStream::new(vec![9u8, 200, 17]);
    ks.apply(&mut whole, 50);
    let mut ks2 = KeyStream::new(vec![9u8, 200, 17]);
    let mut a = data[0..13].to_vec();
    ks2.apply(&mut a, 13);
    let mut b = data[13..50].to_vec();
    ks2.apply(&mut b, 37);
    a.extend_from_slice(&b);
    assert_eq!(whole, a);
}

#[test]
fn keystream_twice_gives_the_data_back() {
    let data: Vec<u8> = (0..40u8).collect();
    let mut buf = data.clone();
    KeyStream::new(vec![5u8, 6, 7]).apply(&mut buf, 40);
    assert_ne!(buf, data);
    KeyStream::new(vec![5u8, 6, 7]).apply(&mut buf, 40);
    assert_eq!(buf, data);
}

#[test]
fn keystream_leaves_the_rest_of_the_buffer() {
    let mut buf = vec![1u8, 1, 1, 1];
    KeyStream::new(vec![255u8]).apply(&mut buf, 2);
    assert_eq!(buf, vec![254, 254, 1, 1]);
}

#[test]
fn numbers_from_bytes() {
    let b: Vec<u8> = (1..=16).collect();
    assert_eq!(arr2u128(&b), u128::from_le_bytes(b.clone().try_into().unwrap()));
    assert_eq!(arr2u64(&b[0..8]), u64::from_le_bytes(b[0..8].try_into().unwrap()));
    assert_eq!(arr2u128(&[]), 0);
    assert_eq!(low_to_high(&[1, 2, 3]), vec![3, 2, 1]);
    assert_eq!(limbs2u64(&[1, 2, 3, 4]), 1 | 2 << 16 | 3 << 32 | 4 << 48);
    let x = 0x0102_0304_0506_0708_090a_0b0c_0d0e_0f10u128;
    assert_eq!(u128_to_be_bytes(x), x.to_be_bytes().to_vec());
}

#[test]
fn rotation_matches_rotate_left() {
    for x in 0..=255u8 {
        for n in 0..20u32 {
            assert_eq!(rotl8(x, n), x.rotate_left(n));
        }
    }
}

#[test]
fn key_bytes_of_characters() {
    assert_eq!(key_bytes_of(&"pswd".to_string()), vec![112, 115, 119, 100]);
    assert_eq!(key_bytes_of(&"é".to_string()), vec![0xE9]);
    assert_eq!(key_bytes_of(&"\u{100}".to_string()), vec![0x00, 0x01]);
    assert_eq!(key_bytes_of(&"\u{0}".to_string()), Vec::<u8>::new());
    assert_eq!(key_bytes_of(&"\u{10348}".to_string()), vec![0x48, 0x03, 0x01]);
}

#[test]
fn mask_of_pswd() {
    let pk = "pswd".to_string();
    assert!(mask_fits(&pk));
    assert_eq!(mask_from_pk(&pk), 0xc8aeffa2d125d83b83668ed964ffae70u128);
}

#[test]
fn mask_needs_a_fitting_password() {
    assert!(!mask_fits(&"".to_string()));
    assert!(!mask_fits(&"\u{0}".to_string()));
    // 17 key bytes: the cursor of the first cell can reach past the cells.
    assert!(!mask_fits(&"abcdefghijklmnopq".to_string()));
}

#[test]
fn u128_encrypt_then_decrypt() {
    let pk = "pswd".to_string();
    let mut x = 12345u128;
    let e = x.encrypt(&pk);
    assert_eq!(e, 12345u128.wrapping_add(0xc8aeffa2d125d83b83668ed964ffae70u128));
    assert_eq!(x, e);
    let d = x.decrypt(&pk);
    assert_eq!(d, 12345);
    let mut m = u128::MAX;
    m.encrypt(&pk);
    m.decrypt(&pk);
    assert_eq!(m, u128::MAX);
}

#[test]
fn ik_encrypt_values() {
    let pk = "pswd".to_string();
    let mut v = vec![0u8; 6];
    let r = v.encrypt_IK(&pk);
    assert_eq!(v, vec![112, 112, 3, 116, 16, 122]);
    assert_eq!(r, v);
    let mut w = vec![10u8, 20, 30];
    w.encrypt_IK(&"key".to_string());
    assert_eq!(w, vec![97, 127, 103]);
}

#[test]
fn ik_decrypt_undoes_encrypt() {
    let pk = "a longer password!".to_string();
    let data: Vec<u8> = (0..200u8).collect();
    let mut v = data.clone();
    v.encrypt_IK(&pk);
    assert_ne!(v, data);
    v.decrypt_IK(&pk);
    assert_eq!(v, data);
}

#[test]
fn ik_short_or_unfitting() {
    let mut one = vec![42u8];
    one.encrypt_IK(&"".to_string());
    assert_eq!(one, vec![42]);
    // "é" has one key byte but two UTF-8 bytes: at most one IK byte fits.
    assert!(ik_fits(1, &"é".to_string()));
    assert!(!ik_fits(2, &"é".to_string()));
    assert!(ik_fits(2, &"éé".to_string()));
    assert!(!ik_fits(3, &"éé".to_string()));
    assert!(ik_fits(1000, &"pswd".to_string()));
    assert!(!ik_fits(2, &"".to_string()));
}

#[test]
fn injection_seed_of_pswd() {
    assert_eq!(inject_seed_of(&"pswd".to_string()), 212 + (234u64 << 48));
    assert_eq!(inject_seed_of(&"".to_string()), 0);
}

#[test]
fn seal_unseal_round_trip() {
    let pk = "pswd".to_string();
    let plain: Vec<u8> = (0..1000u32).map(|i| (i * 7 % 251) as u8).collect();
    let ik: Vec<u8> = (0..10u8).map(|i| i * 13 + 1).collect();
    let point = (inject_seed_of(&pk) % 1000) as usize;
    assert!(point + ik.len() <= plain.len());
    assert!(seal_fits(&plain, &pk, &ik, 64));
    let mut f = plain.clone();
    f.encrypt(&pk, ik.clone(), 64);
    assert_eq!(f.len(), 1000 + 10 + 16);
    assert_ne!(&f[0..1000], &plain[..]);
    let (got, p) = f.clone().extract_IK(&pk);
    assert_eq!(got, ik);
    assert_eq!(p as usize, point);
    assert!(unseal_fits(&f, &pk, 100));
    f.decrypt(&pk, 100);
    assert_eq!(f, plain);
}

#[test]
fn seal_with_length_a_multiple_of_the_buffer_still_injects() {
    let pk = "pswd".to_string();
    let plain = vec![5u8; 64];
    let mut f = plain.clone();
    f.encrypt(&pk, vec![1, 2, 3], 16);
    assert_eq!(f.len(), 64 + 3 + 16);
    let (ik, _) = f.clone().extract_IK(&pk);
    assert_eq!(ik, vec![1, 2, 3]);
    f.decrypt(&pk, 16);
    assert_eq!(f, plain);
    let mut one = vec![7u8];
    one.encrypt(&"a".to_string(), vec![5], 1);
    assert_eq!(one.len(), 1 + 1 + 16);
    one.decrypt(&"a".to_string(), 1);
    assert_eq!(one, vec![7]);
}

#[test]
fn seal_and_unseal_with_zero_buffer_change_nothing() {
    let pk = "pswd".to_string();
    let mut f = vec![1u8, 2, 3];
    f.encrypt(&pk, vec![9], 0);
    assert_eq!(f, vec![1, 2, 3]);
    f.decrypt(&pk, 0);
    assert_eq!(f, vec![1, 2, 3]);
    let mut short = vec![1u8; 15];
    short.decrypt(&pk, 16);
    assert_eq!(short, vec![1u8; 15]);
    let (ik, p) = short.extract_IK(&pk);
    assert!(ik.is_empty());
    assert_eq!(p, 0);
}

#[test]
fn seal_of_empty_contents_changes_nothing() {
    let mut f: Vec<u8> = vec![];
    f.encrypt(&"pswd".to_string(), vec![], 16);
    assert!(f.is_empty());
}

#[test]
fn injection_running_past_the_end_round_trips() {
    // The IK is longer than what follows the injection point.
    let pk = "pswd".to_string();
    let plain: Vec<u8> = (0..100u8).collect();
    let point = (inject_seed_of(&pk) % 100) as usize;
    let ik = vec![3u8; 100 - point + 5];
    let mut f = plain.clone();
    f.encrypt(&pk, ik.clone(), 64);
    assert_eq!(f.len(), 100 + ik.len() + 16);
    let (got, p) = f.clone().extract_IK(&pk);
    assert_eq!(got, ik);
    assert_eq!(p as usize, point);
    f.decrypt(&pk, 64);
    assert_eq!(f, plain);
}

#[test]
fn self_test_result() {
    let ik: Vec<u8> = (0..30000u32).map(|i| (i % 253) as u8).collect();
    let out = tst(ik);
    assert_eq!(out, vec![b'a'; 41219]);
}

fn ref_true_rnd_byte(state: u8, seed: Option<u8>, op: rnd_key) -> u8 {
    let mut b = state;
    if b == 0 {
        b = 23;
    }
    match op {
        rnd_key::ret => b,
        rnd_key::xor => b ^ b.rotate_left(seed.unwrap_or(7) as u32),
        rnd_key::add_byte => match seed {
            Some(x) => b.overflowing_add(x).0,
            None => b.overflowing_add(b.rotate_right(5)).0,
        },
        rnd_key::rotate_Left => match seed {
            Some(_) => b,
            None => b ^ b.rotate_left(3),
        },
        rnd_key::mul_byte => match seed {
            Some(x) => b.overflowing_mul(x).0,
            None => b.overflowing_mul(b.rotate_left(3)).0,
        },
    }
}

#[test]
fn rnd_step_matches_the_generator() {
    let ops = [rnd_key::xor, rnd_key::add_byte, rnd_key::rotate_Left, rnd_key::mul_byte, rnd_key::ret];
    for state in 0..=255u8 {
        for op in ops {
            for seed in [None, Some(0u8), Some(3), Some(200)] {
                assert_eq!(rnd_byte_step(state, seed, op), ref_true_rnd_byte(state, seed, op));
            }
        }
    }
    assert_eq!(rnd_byte_step(0, None, rnd_key::ret), 23);
}

#[test]
fn rnd_u64_from_draws() {
    assert_eq!(get_true_rnd_u64(&[1, 1, 1, 1, 1, 1, 1, 1]), 255);
    assert_eq!(get_true_rnd_u64(&[255; 8]), 255 * 255);
    assert_eq!(get_true_rnd_u64(&[0, 0, 0, 0, 0, 0, 0, 2]), 256);
}

#[test]
fn rnd_array_and_randomizing() {
    assert_eq!(rnd_u8_arr(3, &vec![5, 6, 7]), vec![0, 0, 0, 5, 6, 7]);
    let mut a = vec![1u8, 2, 3];
    rndomize_u8_arr(&mut a, &vec![1, 1, 255]);
    assert_eq!(a, vec![0, 3, 252]);
}

#[test]
fn uid_rounds() {
    let mut uid: Vec<char> = vec![];
    let left = uid_round(&mut uid, 2, &[65, 0, 0, 99]);
    assert_eq!(left, 1);
    assert_eq!(uid, vec!['A']);
    let left = uid_round(&mut uid, left, &[32, 0, 0, 0]);
    assert_eq!(left, 1);
    assert_eq!(uid, vec!['A']);
    // 1 + 4 * 12 + 4 * 0 = 49 = '1'
    let left = uid_round(&mut uid, left, &[1, 12, 0, 0]);
    assert_eq!(left, 0);
    assert_eq!(uid, vec!['A', '1']);
    // 0 + 4 * 200 + 4 * 53 = 1012 = 0x3F4 (Greek capital theta symbol, alphabetic)
    let mut u2: Vec<char> = vec![];
    assert_eq!(uid_round(&mut u2, 1, &[0, 200, 53, 0]), 0);
    assert_eq!(u2, vec!['\u{3F4}']);
    let mut u3: Vec<char> = vec![];
    assert_eq!(uid_accept(&mut u3, 5, 'x', false), 5);
    assert!(u3.is_empty());
}

#[test]
fn uid_seed_steps() {
    assert_eq!(uid_next_seed(1, 2), 3u8.rotate_left(2));
    assert_eq!(uid_next_seed(250, 10), 4u8.rotate_left(10));
}

#[test]
fn director_values() {
    let d = director::stop;
    assert_eq!(d, director::stop);
    assert_ne!(director::ok, director::warn);
}

#[test]
fn mutate_closed_form_value() {
    // byte j = (xor of bytes 0..=j) + byte j+1; last byte = xor of all
    let v = vec![10u8, 200, 7, 99];
    let mut m = v.clone();
    mutate(&mut m);
    let x0 = 10u8;
    let x1 = x0 ^ 200;
    let x2 = x1 ^ 7;
    let x3 = x2 ^ 99;
    assert_eq!(m, vec![x0.wrapping_add(200), x1.wrapping_add(7), x2.wrapping_add(99), x3]);
}

#[test]
fn key_from_terminal_input() {
    let mut buf = [0u8; 16];
    buf[..3].copy_from_slice(b"abc");
    assert_eq!(key_from_input(&buf), "abc".to_string());
    assert_eq!(key_from_input(&[0u8; 16]), "".to_string());
    let mut buf2 = [0u8; 16];
    buf2[..2].copy_from_slice("é".as_bytes());
    buf2[3] = b'x';
    assert_eq!(key_from_input(&buf2), "é".to_string());
    let bad = [0xffu8, b'a', 0, 0];
    assert_eq!(key_from_input(&bad), "".to_string());
    assert_eq!(key_from_input(b"xyz"), "xyz".to_string());
}

#[test]
fn first_character_typed() {
    assert_eq!(first_char(&[0u8; 6]), None);
    assert_eq!(first_char(&[b'q', 0, 0, 0, 0, 0]), Some('q'));
    let mut buf = [0u8; 6];
    buf[..3].copy_from_slice("日".as_bytes());
    assert_eq!(first_char(&buf), Some('日'));
    assert_eq!(first_char(&[0, b'z', 0, 0, 0, 0]), Some('\0'));
}
