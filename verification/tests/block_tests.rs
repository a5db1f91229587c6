use kyber::block::PolyBlock;
use kyber::coefficient::Coefficient;

fn sample_bytes(n: usize, salt: u8) -> Vec<u8> {
    (0..n).map(|i| (i as u8).wrapping_mul(97).wrapping_add(salt)).collect()
}

/// Block (de)serialization round-trips at every compressed width: bytes
/// decode to a block that re-encodes to the same bytes.
#[test]
fn block_compressed_round_trips() {
    let b4 = sample_bytes(4, 11);
    assert_eq!(PolyBlock::decompress_4(&b4).compress_4().to_vec(), b4);
    let b5 = sample_bytes(5, 23);
    assert_eq!(PolyBlock::decompress_5(&b5).compress_5().to_vec(), b5);
    let b10 = sample_bytes(10, 35);
    assert_eq!(PolyBlock::decompress_10(&b10).compress_10().to_vec(), b10);
    let b11 = sample_bytes(11, 47);
    assert_eq!(PolyBlock::decompress_11(&b11).compress_11().to_vec(), b11);
    let b1: u8 = 0b1011_0010;
    assert_eq!(PolyBlock::decompress_1(b1).compress_1(), b1);
}

/// The 12-bit layout stores 12-bit words unchanged.
#[test]
fn block_twelve_bit_round_trip() {
    let c = [
        Coefficient(0),
        Coefficient(1),
        Coefficient(3328),
        Coefficient(4095),
        Coefficient(2048),
        Coefficient(17),
        Coefficient(1665),
        Coefficient(3000),
    ];
    let blk = PolyBlock::new(c);
    let bytes = blk.to_bytes();
    let back = PolyBlock::from_bytes(&bytes);
    for j in 0..8 {
        assert_eq!(back.0[j].0, c[j].0);
    }
}

/// Centered binomial sampling: all-zero bytes and all-one bytes both give
/// zero coefficients (paired bits cancel), one low bit gives one +1.
#[test]
fn cbd_known_values() {
    let z = PolyBlock::cbd(&[0u8; 4]);
    for j in 0..8 {
        assert_eq!(z.0[j].0, 0);
    }
    let ones = PolyBlock::cbd(&[0xFFu8; 4]);
    for j in 0..8 {
        assert_eq!(ones.0[j].0, 0);
    }
    let one = PolyBlock::cbd(&[1u8, 0, 0, 0]);
    assert_eq!(one.0[0].0, 1);
    for j in 1..8 {
        assert_eq!(one.0[j].0, 0);
    }
    let z3 = PolyBlock::cbd(&[0u8; 6]);
    for j in 0..8 {
        assert_eq!(z3.0[j].0, 0);
    }
    let one3 = PolyBlock::cbd(&[1u8, 0, 0, 0, 0, 0]);
    assert_eq!(one3.0[0].0, 1);
    for j in 1..8 {
        assert_eq!(one3.0[j].0, 0);
    }
    // eta = 3 coefficients stay within [-3, 3].
    let r3 = PolyBlock::cbd(&sample_bytes(6, 5));
    for j in 0..8 {
        assert!(r3.0[j].0.abs() <= 3);
    }
    let r2 = PolyBlock::cbd(&sample_bytes(4, 5));
    for j in 0..8 {
        assert!(r2.0[j].0.abs() <= 2);
    }
}

/// The base-case product of the zero block with anything is zero.
#[test]
fn block_mul_zero() {
    let zero = PolyBlock::new([Coefficient(0); 8]);
    let other = PolyBlock::new(
        [
            Coefficient(1),
            Coefficient(-2),
            Coefficient(3),
            Coefficient(-4),
            Coefficient(1000),
            Coefficient(-1000),
            Coefficient(3328),
            Coefficient(-3328),
        ],
    );
    let z = Coefficient::zeta(64, 7);
    let z2 = Coefficient::zeta(65, 7);
    let p = zero.mul(&other, [z, z2]);
    for j in 0..8 {
        assert_eq!(p.0[j].0.rem_euclid(3329), 0);
    }
}
