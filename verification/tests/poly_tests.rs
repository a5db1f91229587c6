use kyber::poly::Poly;

fn poly_from_fn(f: impl Fn(usize) -> i16, ntt_form: bool) -> Poly {
    Poly { c: (0..256).map(f).collect(), ntt_form }
}

fn assert_congruent(a: &Poly, b: &Poly, factor: i64) {
    for i in 0..256 {
        let lhs = a.c[i] as i64;
        let rhs = (b.c[i] as i64) * factor;
        assert_eq!((lhs - rhs).rem_euclid(3329), 0, "coefficient {}", i);
    }
}

/// The transforms invert each other: applying the forward and then the
/// inverse transform returns the polynomial up to the Montgomery factor
/// 2^16 that NTT-domain values carry.
#[test]
fn ntt_round_trip() {
    let p = poly_from_fn(|i| ((i as i16) * 17 % 3329) - 1664, false);
    let orig = p.duplicate();
    let fwd = p.ntt();
    assert!(fwd.ntt_form);
    let back = fwd.ntt();
    assert!(!back.ntt_form);
    assert_congruent(&back, &orig, 65536);
}

/// Pointwise multiplication composed with the inverse transform equals
/// schoolbook multiplication in R_q: (x + 2x^2) * (3 + x) has exactly the
/// coefficients 3x + 7x^2 + 2x^3.
#[test]
fn pointwise_mul_matches_schoolbook() {
    let mut ac = vec![0i16; 256];
    ac[1] = 1;
    ac[2] = 2;
    let mut bc = vec![0i16; 256];
    bc[0] = 3;
    bc[1] = 1;
    let a = Poly { c: ac, ntt_form: false };
    let b = Poly { c: bc, ntt_form: false };
    let a_hat = a.ntt();
    let b_hat = b.ntt();
    let prod = Poly::mul_fold_montgomery(
        std::slice::from_ref(&a_hat),
        std::slice::from_ref(&b_hat),
    );
    let c = prod.ntt();
    let mut expected = vec![0i64; 256];
    expected[1] = 3;
    expected[2] = 7;
    expected[3] = 2;
    for i in 0..256 {
        assert_eq!((c.c[i] as i64 - expected[i]).rem_euclid(3329), 0, "coefficient {}", i);
    }
}

/// The negacyclic wrap: x^255 * x equals -1 in R_q.
#[test]
fn pointwise_mul_wraps_negacyclically() {
    let mut ac = vec![0i16; 256];
    ac[255] = 1;
    let mut bc = vec![0i16; 256];
    bc[1] = 1;
    let a = Poly { c: ac, ntt_form: false };
    let b = Poly { c: bc, ntt_form: false };
    let prod = Poly::mul_fold_montgomery(
        std::slice::from_ref(&a.ntt()),
        std::slice::from_ref(&b.ntt()),
    );
    let c = prod.ntt();
    assert_eq!((c.c[0] as i64 + 1).rem_euclid(3329), 0);
    for i in 1..256 {
        assert_eq!((c.c[i] as i64).rem_euclid(3329), 0, "coefficient {}", i);
    }
}

/// Polynomial 12-bit round trip: from_bytes(to_bytes(p)) == p for
/// canonical coefficients.
#[test]
fn poly_twelve_bit_round_trip() {
    let p = poly_from_fn(|i| ((i as i16) * 131 % 3329 + 3329) % 3329, true);
    let bytes = p.to_bytes();
    assert_eq!(bytes.len(), 384);
    let back = Poly::from_bytes(&bytes, true);
    assert_eq!(back.c, p.c);
    assert_eq!(back.to_bytes(), bytes);
}

/// Message encoding round trip: to_msg(from_msg(m)) == m.
#[test]
fn message_round_trip() {
    let msg: Vec<u8> = (0..32).map(|i| (i as u8).wrapping_mul(0x9d).wrapping_add(7)).collect();
    let p = Poly::from_msg(&msg);
    assert!(!p.ntt_form);
    let back = p.to_msg();
    assert_eq!(back, msg);
}

/// Compressed serialization round trip: decompressing compressed bytes
/// and recompressing reproduces the bytes.
#[test]
fn poly_compressed_round_trips() {
    let bytes4: Vec<u8> = (0..128).map(|i| (i as u8).wrapping_mul(53).wrapping_add(3)).collect();
    let p4 = Poly::decompress::<4>(&bytes4);
    assert_eq!(p4.compress::<4>(), bytes4);
    let bytes10: Vec<u8> = (0..320).map(|i| (i as u8).wrapping_mul(29).wrapping_add(1)).collect();
    let p10 = Poly::decompress::<10>(&bytes10);
    assert_eq!(p10.compress::<10>(), bytes10);
    let bytes11: Vec<u8> = (0..352).map(|i| (i as u8).wrapping_mul(71).wrapping_add(9)).collect();
    let p11 = Poly::decompress::<11>(&bytes11);
    assert_eq!(p11.compress::<11>(), bytes11);
    let bytes5: Vec<u8> = (0..160).map(|i| (i as u8).wrapping_mul(13).wrapping_add(5)).collect();
    let p5 = Poly::decompress::<5>(&bytes5);
    assert_eq!(p5.compress::<5>(), bytes5);
}

/// Uniform sampling is deterministic in (seed, i, j) and stays below q.
#[test]
fn uniform_sampling_deterministic() {
    let seed = [42u8; 32];
    let a = Poly::get_uniform(&seed, 1, 2);
    let b = Poly::get_uniform(&seed, 1, 2);
    assert_eq!(a.c, b.c);
    assert!(a.ntt_form);
    let c = Poly::get_uniform(&seed, 2, 1);
    assert_ne!(a.c, c.c);
    for i in 0..256 {
        assert!(0 <= a.c[i] && a.c[i] < 3329);
    }
}

/// Noise sampling is deterministic in (seed, nonce) and small.
#[test]
fn noise_sampling_deterministic() {
    let seed = [9u8; 32];
    let a = Poly::get_noise(&seed, 3, 4);
    let b = Poly::get_noise(&seed, 3, 4);
    assert_eq!(a.c, b.c);
    let c = Poly::get_noise(&seed, 4, 4);
    assert_ne!(a.c, c.c);
    for i in 0..256 {
        assert!(a.c[i].abs() <= 2);
    }
    let e3 = Poly::get_noise(&seed, 0, 6);
    for i in 0..256 {
        assert!(e3.c[i].abs() <= 3);
    }
}
