//! A symmetric file cipher: a random included key (IK) encrypts the data as a
//! keystream, the prime key (PK, a password) encrypts the IK and the trailer
//! that locates it, and both are stored inside the ciphertext.
#![allow(non_camel_case_types)]
#![allow(non_snake_case)]

pub mod bytes;
pub mod container;
pub mod fill;
pub mod ik;
pub mod input;
pub mod key;
pub mod keystream;
pub mod layout;
pub mod rnd;
pub mod selftest;
