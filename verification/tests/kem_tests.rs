use kyber::config::Dim;
use kyber::kem::{decapsulate, encapsulate, key_pair, load_key_pair, CipherText, KeySeed};

fn seed(b: u8) -> Vec<u8> {
    (0..32).map(|i| (i as u8).wrapping_mul(31).wrapping_add(b)).collect()
}

fn make_pair(dim: Dim, tag: u8) -> (kyber::kem::SecretKey, kyber::kem::PublicKey) {
    key_pair(KeySeed { main: seed(tag), reject: seed(tag.wrapping_add(1)) }, dim)
}

/// Correctness: decapsulation of a fresh encapsulation recovers the same
/// shared secret, for every parameter set.
#[test]
fn kem_correctness_all_ranks() {
    for k in [2usize, 3, 4] {
        let dim = Dim { k };
        let (sk, pk) = make_pair(dim, 7);
        let (ct, ss) = encapsulate(seed(99), &pk, dim);
        assert_eq!(ss.len(), 32);
        let ss2 = decapsulate(&sk, &pk, &ct, dim);
        assert_eq!(ss, ss2, "rank {}", k);
    }
}

/// Implicit rejection: a ciphertext with any flipped bit decapsulates to
/// a secret that differs from the real one but is the same on repeated
/// calls.
#[test]
fn kem_implicit_rejection() {
    let dim = Dim { k: 3 };
    let (sk, pk) = make_pair(dim, 20);
    let (ct, ss) = encapsulate(seed(50), &pk, dim);
    let mut ctb = ct.to_bytes(dim);
    assert_eq!(ctb.len(), 1088);
    ctb[17] ^= 0x40;
    let forged = CipherText::from_bytes(&ctb, dim);
    let r1 = decapsulate(&sk, &pk, &forged, dim);
    let r2 = decapsulate(&sk, &pk, &forged, dim);
    assert_eq!(r1, r2);
    assert_ne!(r1, ss);
}

/// Ciphertext serialization round-trips through from_bytes/to_bytes, and
/// a deserialized ciphertext decapsulates identically.
#[test]
fn ciphertext_round_trip() {
    for k in [2usize, 4] {
        let dim = Dim { k };
        let (sk, pk) = make_pair(dim, 3);
        let (ct, ss) = encapsulate(seed(77), &pk, dim);
        let ctb = ct.to_bytes(dim);
        assert_eq!(ctb.len(), if k == 2 { 768 } else { 1568 });
        let ct2 = CipherText::from_bytes(&ctb, dim);
        assert_eq!(ct2.to_bytes(dim), ctb);
        assert_eq!(decapsulate(&sk, &pk, &ct2, dim), ss);
    }
}

/// Public-key serialization: from_bytes recomputes the stored hash and
/// the key encapsulates identically.
#[test]
fn public_key_round_trip() {
    let dim = Dim { k: 2 };
    let (_, pk) = make_pair(dim, 13);
    let pkb = pk.to_bytes();
    assert_eq!(pkb.len(), 800);
    let pk2 = kyber::kem::PublicKey::from_bytes(&pkb, 2);
    assert_eq!(pk2.to_bytes(), pkb);
    assert_eq!(pk2.hash(), pk.hash());
    let (ct_a, ss_a) = encapsulate(seed(88), &pk, dim);
    let (ct_b, ss_b) = encapsulate(seed(88), &pk2, dim);
    assert_eq!(ss_a, ss_b);
    assert_eq!(ct_a.to_bytes(dim), ct_b.to_bytes(dim));
}

/// Public-key equality is hash equality; ordering is lexicographic on the
/// hash.
#[test]
fn public_key_eq_and_order() {
    let dim = Dim { k: 2 };
    let (_, pk_a) = make_pair(dim, 3);
    let pk_same = kyber::kem::PublicKey::from_bytes(&pk_a.to_bytes(), 2);
    let (_, pk_b) = make_pair(dim, 60);
    assert!(pk_a == pk_same);
    assert!(pk_a != pk_b);
    let ha = pk_a.hash();
    let hb = pk_b.hash();
    let expected = ha.cmp(&hb);
    assert_eq!(pk_a.partial_cmp(&pk_b), Some(expected));
    assert_eq!(pk_a.partial_cmp(&pk_same), Some(std::cmp::Ordering::Equal));
}

/// Constant-time ciphertext equality: 1 for equal ciphertexts, 0 for any
/// single flipped bit.
#[test]
fn ciphertext_constant_time_equality() {
    let dim = Dim { k: 2 };
    let (_, pk) = make_pair(dim, 30);
    let (ct, _) = encapsulate(seed(61), &pk, dim);
    let ctb = ct.to_bytes(dim);
    let same = CipherText::from_bytes(&ctb, dim);
    assert_eq!(ct.inner.ct_eq(&same.inner, dim), 1);
    for pos in [0usize, 100, 767] {
        let mut flipped = ctb.clone();
        flipped[pos] ^= 1;
        let other = CipherText::from_bytes(&flipped, dim);
        assert_eq!(ct.inner.ct_eq(&other.inner, dim), 0, "byte {}", pos);
    }
}

/// A key pair serialized as sk || pk || H(pk) || z loads back and
/// decapsulates identically.
#[test]
fn load_key_pair_round_trip() {
    let dim = Dim { k: 3 };
    let (sk, pk) = make_pair(dim, 41);
    let (ct, ss) = encapsulate(seed(42), &pk, dim);
    let mut blob: Vec<u8> = Vec::new();
    for p in &sk.inner.poly_vector {
        blob.extend_from_slice(&p.to_bytes());
    }
    blob.extend_from_slice(&pk.to_bytes());
    blob.extend_from_slice(&pk.hash());
    blob.extend_from_slice(&sk.reject);
    assert_eq!(blob.len(), 768 * 3 + 96);
    let (sk2, pk2) = load_key_pair(&blob, 3);
    assert_eq!(pk2.hash(), pk.hash());
    assert_eq!(decapsulate(&sk2, &pk2, &ct, dim), ss);
}

/// Zeroization wipes the secret material.
#[test]
fn zeroize_clears_secrets() {
    let dim = Dim { k: 2 };
    let (mut sk, mut pk) = make_pair(dim, 90);
    sk.zeroize();
    assert!(sk.reject.iter().all(|&b| b == 0));
    assert!(sk.inner.poly_vector.iter().all(|p| p.c.iter().all(|&c| c == 0)));
    pk.zeroize();
    assert!(pk.hash.iter().all(|&b| b == 0));
    assert!(pk.inner.seed.iter().all(|&b| b == 0));
}
