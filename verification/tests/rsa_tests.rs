use aes::cipher::generic_array::GenericArray;
use aes::cipher::{BlockDecrypt, KeyInit};
use ring_signature::rsa::{check_hash_rsa, check_hash_rsa_checked};
use ring_signature::rsa2::{check_hash_rsa2, check_hash_rsa2_checked};
use sha2::{Digest, Sha256};

/// A one-member RSA ring (exponent 1, modulus 2^2048 - 1, response 0): the member's value is
/// 0, so the ring closes when the first challenge is the hash of the message, the modulus
/// and 256 zero bytes.
fn closing_rsa2_signature(message: &[u8]) -> Vec<u8> {
    let mut hashed = message.to_vec();
    hashed.extend_from_slice(&[0xFFu8; 256]);
    hashed.extend_from_slice(&[0u8; 256]);
    let c0 = Sha256::digest(&hashed);
    let mut sig = vec![1u8, 0, 0, 0];
    sig.extend_from_slice(&c0);
    sig.extend_from_slice(&[0u8; 224]);
    sig.extend_from_slice(&[0u8; 256]);
    sig.extend_from_slice(&[1u8, 0, 0, 0]);
    sig.extend_from_slice(&[0xFFu8; 256]);
    sig
}

#[test]
fn check_hash_rsa2_empty_ring_closes() {
    let sig = vec![0u8; 260];
    assert_eq!(check_hash_rsa2(b"hello, world!", &sig), Ok(()));
}

#[test]
fn check_hash_rsa2_accepts_closing_ring() {
    let sig = closing_rsa2_signature(b"hello, world!");
    assert_eq!(check_hash_rsa2(b"hello, world!", &sig), Ok(()));
}

#[test]
fn check_hash_rsa2_rejects_broken_ring() {
    let mut sig = closing_rsa2_signature(b"hello, world!");
    sig[5] ^= 0x10;
    assert_eq!(check_hash_rsa2(b"hello, world!", &sig), Err("Bad signature"));
    let sig = closing_rsa2_signature(b"other message");
    assert_eq!(check_hash_rsa2(b"hello, world!", &sig), Err("Bad signature"));
}

/// A one-member ring (exponent 1, modulus 2^2048 - 1) whose input is the starting value
/// xor its AES-256 decryption, so that xor and encryption bring the value back.
fn closing_rsa_signature(message: &[u8]) -> Vec<u8> {
    let key = lhash::sha256(message);
    let cipher = aes::Aes256::new(GenericArray::from_slice(&key));
    let mut v = [0u8; 256];
    for (i, b) in v.iter_mut().enumerate() {
        *b = (i as u8).wrapping_mul(37).wrapping_add(11);
    }
    let mut x = v;
    for chunk in x.chunks_mut(16) {
        cipher.decrypt_block(GenericArray::from_mut_slice(chunk));
    }
    for i in 0..256 {
        x[i] ^= v[i];
    }
    let mut sig = v.to_vec();
    sig.extend_from_slice(&[1u8, 0, 0, 0]);
    sig.extend_from_slice(&[1u8, 0, 0, 0]);
    sig.extend_from_slice(&[0xFFu8; 256]);
    sig.extend_from_slice(&x);
    sig
}

#[test]
fn check_hash_rsa_empty_ring_closes() {
    let mut sig = vec![7u8; 256];
    sig.extend_from_slice(&[0u8; 4]);
    assert_eq!(check_hash_rsa(b"hello, world!", &sig), Ok(()));
}

#[test]
fn check_hash_rsa_accepts_closing_ring() {
    let sig = closing_rsa_signature(b"hello, world!");
    assert_eq!(check_hash_rsa(b"hello, world!", &sig), Ok(()));
}

#[test]
fn check_hash_rsa_rejects_broken_ring() {
    let mut sig = closing_rsa_signature(b"hello, world!");
    sig[600] ^= 1;
    assert_eq!(check_hash_rsa(b"hello, world!", &sig), Err("Bad signature"));
    let sig = closing_rsa_signature(b"hello, world!");
    assert_eq!(check_hash_rsa(b"a different message", &sig), Err("Bad signature"));
}

#[test]
fn check_hash_rsa_zero_exponent_allows_zero_modulus() {
    // A member with exponent 0 contributes 1, so its modulus of 0 is never divided by.
    let mut sig = vec![5u8; 256];
    sig.extend_from_slice(&[1u8, 0, 0, 0]);
    sig.extend_from_slice(&[0u8; 4]);
    sig.extend_from_slice(&[0u8; 256]);
    sig.extend_from_slice(&[9u8; 256]);
    assert_eq!(check_hash_rsa(b"hello, world!", &sig), Err("Bad signature"));
}

#[test]
fn check_hash_rsa_ignores_trailing_bytes() {
    let mut sig = closing_rsa_signature(b"hello, world!");
    sig.extend_from_slice(&[0xA5u8; 40]);
    assert_eq!(check_hash_rsa(b"hello, world!", &sig), Ok(()));
}

#[test]
fn check_hash_rsa2_rejects_a_first_challenge_above_the_digest_width() {
    let mut buf = [0u8; 776];
    buf[0] = 1;
    buf[36] = 1;
    buf[520] = 2;
    assert_eq!(check_hash_rsa2(b"hello, world!", &buf), Err("Bad signature"));
}

#[test]
fn check_hash_rsa2_checked_tests_the_signature_first() {
    let sig = closing_rsa2_signature(b"hello, world!");
    assert_eq!(check_hash_rsa2_checked(b"hello, world!", &sig), Some(Ok(())));
    assert_eq!(check_hash_rsa2_checked(b"hello, world!", &sig[..259]), None);
    assert_eq!(check_hash_rsa2_checked(b"hello, world!", &sig[..sig.len() - 1]), None);
    let mut zero_modulus = sig.clone();
    for b in zero_modulus[260 + 260..].iter_mut() {
        *b = 0;
    }
    assert_eq!(check_hash_rsa2_checked(b"hello, world!", &zero_modulus), None);
}

#[test]
fn check_hash_rsa_checked_tests_the_signature_first() {
    let sig = closing_rsa_signature(b"hello, world!");
    assert_eq!(check_hash_rsa_checked(b"hello, world!", &sig), Some(Ok(())));
    assert_eq!(check_hash_rsa_checked(b"hello, world!", &sig[..259]), None);
    assert_eq!(check_hash_rsa_checked(b"hello, world!", &sig[..sig.len() - 1]), None);
    let mut zero_modulus = sig.clone();
    for b in zero_modulus[264..520].iter_mut() {
        *b = 0;
    }
    assert_eq!(check_hash_rsa_checked(b"hello, world!", &zero_modulus), None);
    // with exponent 0 the zero modulus is allowed
    zero_modulus[260] = 0;
    assert_eq!(check_hash_rsa_checked(b"hello, world!", &zero_modulus), Some(Err("Bad signature")));
}
