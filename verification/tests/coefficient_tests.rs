use kyber::coefficient::Coefficient;

/// The twiddle generator reproduces the reference table for 7-bit
/// bit-reversed indices.
#[test]
fn zetas() {
    let zetas = [
        -1044, -758, -359, -1517, 1493, 1422, 287, 202, -171, 622, 1577, 182, 962, -1202, -1474,
        1468, 573, -1325, 264, 383, -829, 1458, -1602, -130, -681, 1017, 732, 608, -1542, 411,
        -205, -1571, 1223, 652, -552, 1015, -1293, 1491, -282, -1544, 516, -8, -320, -666, -1618,
        -1162, 126, 1469, -853, -90, -271, 830, 107, -1421, -247, -951, -398, 961, -1508, -725,
        448, -1065, 677, -1275, -1103, 430, 555, 843, -1251, 871, 1550, 105, 422, 587, 177, -235,
        -291, -460, 1574, 1653, -246, 778, 1159, -147, -777, 1483, -602, 1119, -1590, 644, -872,
        349, 418, 329, -156, -75, 817, 1097, 603, 610, 1322, -1285, -1465, 384, -1215, -136, 1218,
        -1335, -874, 220, -1187, -1659, -1185, -1530, -1278, 794, -1510, -854, -870, 478, -108,
        -308, 996, 991, 958, -1460, 1522, 1628,
    ];
    for (i, x) in zetas.into_iter().enumerate() {
        assert_eq!(Coefficient::zeta(i, 7).0, x);
    }
}

#[test]
fn barrett_reduce_is_reduction() {
    for a in [-32768i16, -3329, -1665, -1, 0, 1, 1664, 1665, 3328, 3329, 17171, 32767] {
        let r = Coefficient::barrett_reduce(a);
        assert_eq!((a as i32 - r.0 as i32).rem_euclid(3329), 0);
        assert!(-1664 <= r.0 && r.0 <= 1665);
    }
}

#[test]
fn montgomery_mul_congruence() {
    for (a, b) in [(1i16, 1i16), (-1044, 1), (17, 1234), (-3328, 3328), (1665, -1665)] {
        let r = Coefficient(a).mul(Coefficient(b));
        // r * 2^16 is congruent to a * b mod q.
        let lhs = (r.0 as i64) * 65536;
        let rhs = (a as i64) * (b as i64);
        assert_eq!((lhs - rhs).rem_euclid(3329), 0);
        assert!(-3328 <= r.0 && r.0 <= 3328);
    }
}

#[test]
fn pack_adds_q_for_negatives() {
    assert_eq!(Coefficient(-1).pack(), 3328);
    assert_eq!(Coefficient(0).pack(), 0);
    assert_eq!(Coefficient(1664).pack(), 1664);
    assert_eq!(Coefficient(-3329).pack(), 0);
    assert_eq!(Coefficient::unpack(4095).0, 4095);
}

fn centered_distance(d: i32, v: i32) -> i32 {
    let e = (d - v).rem_euclid(3329);
    if e > 1664 { e - 3329 } else { e }
}

/// Round-trip error bound: decompress(compress(x)) lands within
/// ceil(q / 2^(X+1)) of x mod q.
#[test]
fn compress_round_trip_error_bound() {
    for v in [0i16, 1, 17, 833, 1664, 1665, 2500, 3328] {
        let c = Coefficient(v);
        let d4 = Coefficient::decompress::<4>(c.compress::<4>());
        assert!(centered_distance(d4.0 as i32, v as i32).abs() <= 105);
        let d5 = Coefficient::decompress::<5>(c.compress::<5>());
        assert!(centered_distance(d5.0 as i32, v as i32).abs() <= 53);
        let d10 = Coefficient::decompress::<10>(c.compress::<10>());
        assert!(centered_distance(d10.0 as i32, v as i32).abs() <= 2);
        let d11 = Coefficient::decompress::<11>(c.compress::<11>());
        assert!(centered_distance(d11.0 as i32, v as i32).abs() <= 1);
        let d1 = Coefficient::decompress_1(c.compress_1());
        assert!(centered_distance(d1.0 as i32, v as i32).abs() <= 833);
    }
}

/// Compression is exact on the image of decompression.
#[test]
fn compress_inverts_decompress() {
    for w in 0u16..16 {
        assert_eq!(Coefficient::decompress::<4>(w).compress::<4>(), w);
    }
    for w in 0u16..32 {
        assert_eq!(Coefficient::decompress::<5>(w).compress::<5>(), w);
    }
    for w in (0u16..1024).step_by(37) {
        assert_eq!(Coefficient::decompress::<10>(w).compress::<10>(), w);
    }
    for w in (0u16..2048).step_by(41) {
        assert_eq!(Coefficient::decompress::<11>(w).compress::<11>(), w);
    }
    assert_eq!(Coefficient::decompress_1(0).compress_1(), 0);
    assert_eq!(Coefficient::decompress_1(1).compress_1(), 1);
}
