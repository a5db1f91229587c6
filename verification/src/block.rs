//! A coefficient block: eight field elements, the unit of the bit-packed
//! byte layouts at 1/4/5/10/11/12 bits per coefficient, of centered
//! binomial sampling, and of the NTT base-case products.

use vstd::prelude::*;
use crate::coefficient::{
    Coefficient, spec_compress, spec_decompress, spec_pack, spec_montgomery_reduce,
    spec_barrett_reduce,
};

verus! {

/// An ordered tuple of 8 field elements.
#[derive(Clone, Copy, PartialEq, Eq)]
pub struct PolyBlock(pub [Coefficient; 8]);

impl PolyBlock {
    /// Coefficient j as a plain integer.
    pub open spec fn c(&self, j: int) -> int {
        self.0[j].0 as int
    }

    /// All eight coefficients lie in [lo, hi].
    pub open spec fn bounded(&self, lo: int, hi: int) -> bool {
        forall|j: int| 0 <= j < 8 ==> lo <= #[trigger] self.c(j) <= hi
    }

    /// The X-bit compressed value of coefficient j.
    pub open spec fn cv(&self, x: u32, j: int) -> int {
        spec_compress(x, spec_pack(self.c(j)))
    }

    pub fn new(c: [Coefficient; 8]) -> (r: Self)
        ensures
            r.0 == c,
    {
        PolyBlock(c)
    }
}

/// Ties the quantified bound to each concrete coefficient of a block.
pub proof fn lemma_block_bounds(b: PolyBlock, lo: int, hi: int)
    requires
        b.bounded(lo, hi),
    ensures
        lo <= b.0[0].0 <= hi,
        lo <= b.0[1].0 <= hi,
        lo <= b.0[2].0 <= hi,
        lo <= b.0[3].0 <= hi,
        lo <= b.0[4].0 <= hi,
        lo <= b.0[5].0 <= hi,
        lo <= b.0[6].0 <= hi,
        lo <= b.0[7].0 <= hi,
{
    assert(b.c(0) == b.0[0].0 as int);
    assert(b.c(1) == b.0[1].0 as int);
    assert(b.c(2) == b.0[2].0 as int);
    assert(b.c(3) == b.0[3].0 as int);
    assert(b.c(4) == b.0[4].0 as int);
    assert(b.c(5) == b.0[5].0 as int);
    assert(b.c(6) == b.0[6].0 as int);
    assert(b.c(7) == b.0[7].0 as int);
}

/// Byte k of the 4-bit layout: two nibbles per byte.
pub open spec fn spec_cbyte4(t: Seq<int>, k: int) -> int {
    t[2 * k] + t[2 * k + 1] * 16
}

/// The word coefficient j of the 4-bit layout is decompressed from.
pub open spec fn spec_dword4(b: Seq<u8>, j: int) -> int {
    if j % 2 == 0 {
        b[j / 2] as int
    } else {
        b[j / 2] as int / 16
    }
}

/// Byte k of the 5-bit layout: 8 coefficients over 40 bits.
pub open spec fn spec_cbyte5(t: Seq<int>, k: int) -> int {
    if k == 0 {
        (t[0] + t[1] * 32) % 256
    } else if k == 1 {
        (t[1] / 8 + t[2] * 4 + t[3] * 128) % 256
    } else if k == 2 {
        (t[3] / 2 + t[4] * 16) % 256
    } else if k == 3 {
        (t[4] / 16 + t[5] * 2 + t[6] * 64) % 256
    } else {
        (t[6] / 4 + t[7] * 8) % 256
    }
}

/// The word coefficient j of the 5-bit layout is decompressed from.
pub open spec fn spec_dword5(b: Seq<u8>, j: int) -> int {
    if j == 0 {
        b[0] as int
    } else if j == 1 {
        b[0] as int / 32 + b[1] as int * 8
    } else if j == 2 {
        b[1] as int / 4
    } else if j == 3 {
        b[1] as int / 128 + b[2] as int * 2
    } else if j == 4 {
        b[2] as int / 16 + b[3] as int * 16
    } else if j == 5 {
        b[3] as int / 2
    } else if j == 6 {
        b[3] as int / 64 + b[4] as int * 4
    } else {
        b[4] as int / 8
    }
}

/// Byte k of the 10-bit layout: 4 coefficients per 5 bytes, twice.
pub open spec fn spec_cbyte10(t: Seq<int>, k: int) -> int {
    let s = 4 * (k / 5);
    let r = k % 5;
    if r == 0 {
        t[s] % 256
    } else if r == 1 {
        (t[s] / 256 + t[s + 1] * 4) % 256
    } else if r == 2 {
        (t[s + 1] / 64 + t[s + 2] * 16) % 256
    } else if r == 3 {
        (t[s + 2] / 16 + t[s + 3] * 64) % 256
    } else {
        t[s + 3] / 4
    }
}

/// The word coefficient j of the 10-bit layout is decompressed from.
pub open spec fn spec_dword10(b: Seq<u8>, j: int) -> int {
    let s = 5 * (j / 4);
    let r = j % 4;
    if r == 0 {
        b[s] as int + b[s + 1] as int * 256
    } else if r == 1 {
        b[s + 1] as int / 4 + b[s + 2] as int * 64
    } else if r == 2 {
        b[s + 2] as int / 16 + b[s + 3] as int * 16
    } else {
        b[s + 3] as int / 64 + b[s + 4] as int * 4
    }
}

/// Byte k of the 11-bit layout: 8 coefficients over 88 bits.
pub open spec fn spec_cbyte11(t: Seq<int>, k: int) -> int {
    if k == 0 {
        t[0] % 256
    } else if k == 1 {
        (t[0] / 256 + t[1] * 8) % 256
    } else if k == 2 {
        (t[1] / 32 + t[2] * 64) % 256
    } else if k == 3 {
        (t[2] / 4) % 256
    } else if k == 4 {
        (t[2] / 1024 + t[3] * 2) % 256
    } else if k == 5 {
        (t[3] / 128 + t[4] * 16) % 256
    } else if k == 6 {
        (t[4] / 16 + t[5] * 128) % 256
    } else if k == 7 {
        (t[5] / 2) % 256
    } else if k == 8 {
        (t[5] / 512 + t[6] * 4) % 256
    } else if k == 9 {
        (t[6] / 64 + t[7] * 32) % 256
    } else {
        t[7] / 8
    }
}

/// The word coefficient j of the 11-bit layout is decompressed from.
pub open spec fn spec_dword11(b: Seq<u8>, j: int) -> int {
    if j == 0 {
        b[0] as int + b[1] as int * 256
    } else if j == 1 {
        b[1] as int / 8 + b[2] as int * 32
    } else if j == 2 {
        b[2] as int / 64 + b[3] as int * 4 + (b[4] as int % 64) * 1024
    } else if j == 3 {
        b[4] as int / 2 + b[5] as int * 128
    } else if j == 4 {
        b[5] as int / 16 + b[6] as int * 16
    } else if j == 5 {
        b[6] as int / 128 + b[7] as int * 2 + (b[8] as int % 128) * 512
    } else if j == 6 {
        b[8] as int / 4 + b[9] as int * 64
    } else {
        b[9] as int / 32 + b[10] as int * 8
    }
}

/// The word coefficient j is decompressed from, for each supported width.
pub open spec fn spec_dword(x: u32, b: Seq<u8>, j: int) -> int {
    if x == 4 {
        spec_dword4(b, j)
    } else if x == 5 {
        spec_dword5(b, j)
    } else if x == 10 {
        spec_dword10(b, j)
    } else {
        spec_dword11(b, j)
    }
}

impl PolyBlock {
    /// Packs the eight 4-bit compressed values into 4 bytes.
    pub fn compress_4(&self) -> (r: [u8; 4])
        requires
            self.bounded(-3329, 3328),
        ensures
            forall|k: int| 0 <= k < 4 ==> #[trigger] (r[k] as int) == spec_cbyte4(
                Seq::new(8, |j: int| self.cv(4, j)),
                k,
            ),
    {
        proof {
            lemma_block_bounds(*self, -3329, 3328);
        }
        let t0: u32 = self.0[0].compress::<4>() as u32;
        let t1: u32 = self.0[1].compress::<4>() as u32;
        let t2: u32 = self.0[2].compress::<4>() as u32;
        let t3: u32 = self.0[3].compress::<4>() as u32;
        let t4: u32 = self.0[4].compress::<4>() as u32;
        let t5: u32 = self.0[5].compress::<4>() as u32;
        let t6: u32 = self.0[6].compress::<4>() as u32;
        let t7: u32 = self.0[7].compress::<4>() as u32;
        proof {
            vstd::arithmetic::power2::lemma2_to64();
        }
        [
            (t0 + t1 * 16) as u8,
            (t2 + t3 * 16) as u8,
            (t4 + t5 * 16) as u8,
            (t6 + t7 * 16) as u8,
        ]
    }

    /// Unpacks 4 bytes into eight coefficients via 4-bit decompress.
    pub fn decompress_4(b: &[u8]) -> (r: Self)
        requires
            b@.len() == 4,
        ensures
            forall|j: int| 0 <= j < 8 ==> #[trigger] r.c(j) == spec_decompress(
                4,
                spec_dword4(b@, j),
            ),
            r.bounded(0, 3328),
    {
        let r = PolyBlock(
            [
                Coefficient::decompress::<4>(b[0] as u16),
                Coefficient::decompress::<4>((b[0] / 16) as u16),
                Coefficient::decompress::<4>(b[1] as u16),
                Coefficient::decompress::<4>((b[1] / 16) as u16),
                Coefficient::decompress::<4>(b[2] as u16),
                Coefficient::decompress::<4>((b[2] / 16) as u16),
                Coefficient::decompress::<4>(b[3] as u16),
                Coefficient::decompress::<4>((b[3] / 16) as u16),
            ],
        );
        r
    }

    /// Packs the eight 5-bit compressed values into 5 bytes.
    pub fn compress_5(&self) -> (r: [u8; 5])
        requires
            self.bounded(-3329, 3328),
        ensures
            forall|k: int| 0 <= k < 5 ==> #[trigger] (r[k] as int) == spec_cbyte5(
                Seq::new(8, |j: int| self.cv(5, j)),
                k,
            ),
    {
        proof {
            lemma_block_bounds(*self, -3329, 3328);
        }
        let t0: u32 = self.0[0].compress::<5>() as u32;
        let t1: u32 = self.0[1].compress::<5>() as u32;
        let t2: u32 = self.0[2].compress::<5>() as u32;
        let t3: u32 = self.0[3].compress::<5>() as u32;
        let t4: u32 = self.0[4].compress::<5>() as u32;
        let t5: u32 = self.0[5].compress::<5>() as u32;
        let t6: u32 = self.0[6].compress::<5>() as u32;
        let t7: u32 = self.0[7].compress::<5>() as u32;
        proof {
            vstd::arithmetic::power2::lemma2_to64();
        }
        [
            ((t0 + t1 * 32) % 256) as u8,
            ((t1 / 8 + t2 * 4 + t3 * 128) % 256) as u8,
            ((t3 / 2 + t4 * 16) % 256) as u8,
            ((t4 / 16 + t5 * 2 + t6 * 64) % 256) as u8,
            ((t6 / 4 + t7 * 8) % 256) as u8,
        ]
    }

    /// Unpacks 5 bytes into eight coefficients via 5-bit decompress.
    pub fn decompress_5(b: &[u8]) -> (r: Self)
        requires
            b@.len() == 5,
        ensures
            forall|j: int| 0 <= j < 8 ==> #[trigger] r.c(j) == spec_decompress(
                5,
                spec_dword5(b@, j),
            ),
            r.bounded(0, 3328),
    {
        let r = PolyBlock(
            [
                Coefficient::decompress::<5>(b[0] as u16),
                Coefficient::decompress::<5>(b[0] as u16 / 32 + b[1] as u16 * 8),
                Coefficient::decompress::<5>(b[1] as u16 / 4),
                Coefficient::decompress::<5>(b[1] as u16 / 128 + b[2] as u16 * 2),
                Coefficient::decompress::<5>(b[2] as u16 / 16 + b[3] as u16 * 16),
                Coefficient::decompress::<5>(b[3] as u16 / 2),
                Coefficient::decompress::<5>(b[3] as u16 / 64 + b[4] as u16 * 4),
                Coefficient::decompress::<5>(b[4] as u16 / 8),
            ],
        );
        r
    }

    /// Packs the eight 10-bit compressed values into 10 bytes.
    pub fn compress_10(&self) -> (r: [u8; 10])
        requires
            self.bounded(-3329, 3328),
        ensures
            forall|k: int| 0 <= k < 10 ==> #[trigger] (r[k] as int) == spec_cbyte10(
                Seq::new(8, |j: int| self.cv(10, j)),
                k,
            ),
    {
        proof {
            lemma_block_bounds(*self, -3329, 3328);
        }
        let t0: u32 = self.0[0].compress::<10>() as u32;
        let t1: u32 = self.0[1].compress::<10>() as u32;
        let t2: u32 = self.0[2].compress::<10>() as u32;
        let t3: u32 = self.0[3].compress::<10>() as u32;
        let t4: u32 = self.0[4].compress::<10>() as u32;
        let t5: u32 = self.0[5].compress::<10>() as u32;
        let t6: u32 = self.0[6].compress::<10>() as u32;
        let t7: u32 = self.0[7].compress::<10>() as u32;
        proof {
            vstd::arithmetic::power2::lemma2_to64();
        }
        [
            (t0 % 256) as u8,
            ((t0 / 256 + t1 * 4) % 256) as u8,
            ((t1 / 64 + t2 * 16) % 256) as u8,
            ((t2 / 16 + t3 * 64) % 256) as u8,
            (t3 / 4) as u8,
            (t4 % 256) as u8,
            ((t4 / 256 + t5 * 4) % 256) as u8,
            ((t5 / 64 + t6 * 16) % 256) as u8,
            ((t6 / 16 + t7 * 64) % 256) as u8,
            (t7 / 4) as u8,
        ]
    }

    /// Unpacks 10 bytes into eight coefficients via 10-bit decompress.
    pub fn decompress_10(b: &[u8]) -> (r: Self)
        requires
            b@.len() == 10,
        ensures
            forall|j: int| 0 <= j < 8 ==> #[trigger] r.c(j) == spec_decompress(
                10,
                spec_dword10(b@, j),
            ),
            r.bounded(0, 3328),
    {
        let r = PolyBlock(
            [
                Coefficient::decompress::<10>(b[0] as u16 + b[1] as u16 * 256),
                Coefficient::decompress::<10>(b[1] as u16 / 4 + b[2] as u16 * 64),
                Coefficient::decompress::<10>(b[2] as u16 / 16 + b[3] as u16 * 16),
                Coefficient::decompress::<10>(b[3] as u16 / 64 + b[4] as u16 * 4),
                Coefficient::decompress::<10>(b[5] as u16 + b[6] as u16 * 256),
                Coefficient::decompress::<10>(b[6] as u16 / 4 + b[7] as u16 * 64),
                Coefficient::decompress::<10>(b[7] as u16 / 16 + b[8] as u16 * 16),
                Coefficient::decompress::<10>(b[8] as u16 / 64 + b[9] as u16 * 4),
            ],
        );
        r
    }

    /// Packs the eight 11-bit compressed values into 11 bytes.
    pub fn compress_11(&self) -> (r: [u8; 11])
        requires
            self.bounded(-3329, 3328),
        ensures
            forall|k: int| 0 <= k < 11 ==> #[trigger] (r[k] as int) == spec_cbyte11(
                Seq::new(8, |j: int| self.cv(11, j)),
                k,
            ),
    {
        proof {
            lemma_block_bounds(*self, -3329, 3328);
        }
        let t0: u32 = self.0[0].compress::<11>() as u32;
        let t1: u32 = self.0[1].compress::<11>() as u32;
        let t2: u32 = self.0[2].compress::<11>() as u32;
        let t3: u32 = self.0[3].compress::<11>() as u32;
        let t4: u32 = self.0[4].compress::<11>() as u32;
        let t5: u32 = self.0[5].compress::<11>() as u32;
        let t6: u32 = self.0[6].compress::<11>() as u32;
        let t7: u32 = self.0[7].compress::<11>() as u32;
        proof {
            vstd::arithmetic::power2::lemma2_to64();
        }
        [
            (t0 % 256) as u8,
            ((t0 / 256 + t1 * 8) % 256) as u8,
            ((t1 / 32 + t2 * 64) % 256) as u8,
            ((t2 / 4) % 256) as u8,
            ((t2 / 1024 + t3 * 2) % 256) as u8,
            ((t3 / 128 + t4 * 16) % 256) as u8,
            ((t4 / 16 + t5 * 128) % 256) as u8,
            ((t5 / 2) % 256) as u8,
            ((t5 / 512 + t6 * 4) % 256) as u8,
            ((t6 / 64 + t7 * 32) % 256) as u8,
            (t7 / 8) as u8,
        ]
    }

    /// Unpacks 11 bytes into eight coefficients via 11-bit decompress.
    pub fn decompress_11(b: &[u8]) -> (r: Self)
        requires
            b@.len() == 11,
        ensures
            forall|j: int| 0 <= j < 8 ==> #[trigger] r.c(j) == spec_decompress(
                11,
                spec_dword11(b@, j),
            ),
            r.bounded(0, 3328),
    {
        let r = PolyBlock(
            [
                Coefficient::decompress::<11>(b[0] as u16 + b[1] as u16 * 256),
                Coefficient::decompress::<11>(b[1] as u16 / 8 + b[2] as u16 * 32),
                Coefficient::decompress::<11>(
                    b[2] as u16 / 64 + b[3] as u16 * 4 + (b[4] as u16 % 64) * 1024,
                ),
                Coefficient::decompress::<11>(b[4] as u16 / 2 + b[5] as u16 * 128),
                Coefficient::decompress::<11>(b[5] as u16 / 16 + b[6] as u16 * 16),
                Coefficient::decompress::<11>(
                    b[6] as u16 / 128 + b[7] as u16 * 2 + (b[8] as u16 % 128) * 512,
                ),
                Coefficient::decompress::<11>(b[8] as u16 / 4 + b[9] as u16 * 64),
                Coefficient::decompress::<11>(b[9] as u16 / 32 + b[10] as u16 * 8),
            ],
        );
        r
    }

    /// Width dispatch for decompression; only 4, 5, 10 and 11 bits occur.
    pub fn decompress<const X: u32>(b: &[u8]) -> (r: Self)
        requires
            X == 4 || X == 5 || X == 10 || X == 11,
            b@.len() == X,
        ensures
            forall|j: int| 0 <= j < 8 ==> #[trigger] r.c(j) == spec_decompress(
                X,
                spec_dword(X, b@, j),
            ),
            r.bounded(0, 3328),
    {
        if X == 4 {
            Self::decompress_4(b)
        } else if X == 5 {
            Self::decompress_5(b)
        } else if X == 10 {
            Self::decompress_10(b)
        } else {
            Self::decompress_11(b)
        }
    }
}

/// Byte k of the 12-bit serialization of the coefficients `t`: pairs of
/// canonical representatives in 3-byte groups.
pub open spec fn spec_byte12(t: Seq<int>, k: int) -> int {
    let i = k / 3;
    let r = k % 3;
    if r == 0 {
        spec_pack(t[2 * i]) % 256
    } else if r == 1 {
        (spec_pack(t[2 * i]) / 256 + spec_pack(t[2 * i + 1]) * 16) % 256
    } else {
        spec_pack(t[2 * i + 1]) / 16
    }
}

/// Byte k of the X-bit compressed layout, for each supported width; `t`
/// holds the eight compressed values.
pub open spec fn spec_cbyte(x: u32, t: Seq<int>, k: int) -> int {
    if x == 4 {
        spec_cbyte4(t, k)
    } else if x == 5 {
        spec_cbyte5(t, k)
    } else if x == 10 {
        spec_cbyte10(t, k)
    } else {
        spec_cbyte11(t, k)
    }
}

/// Coefficient j of the NTT base-case product of blocks `a` and `b` with
/// twiddles z0 (first half) and z1 (second half).
#[verifier::opaque]
pub open spec fn spec_block_mul(a: Seq<int>, b: Seq<int>, z0: int, z1: int, j: int) -> int {
    if j == 0 {
        spec_bsum(spec_mont_mul(a[0], b[0]), spec_mont_mul(spec_mont_mul(a[1], b[1]), z0))
    } else if j == 1 {
        spec_bsum(spec_mont_mul(a[0], b[1]), spec_mont_mul(a[1], b[0]))
    } else if j == 2 {
        spec_mont_mul(a[2], b[2]) - spec_mont_mul(spec_mont_mul(a[3], b[3]), z0)
    } else if j == 3 {
        spec_bsum(spec_mont_mul(a[2], b[3]), spec_mont_mul(a[3], b[2]))
    } else if j == 4 {
        spec_bsum(spec_mont_mul(a[4], b[4]), spec_mont_mul(spec_mont_mul(a[5], b[5]), z1))
    } else if j == 5 {
        spec_bsum(spec_mont_mul(a[4], b[5]), spec_mont_mul(a[5], b[4]))
    } else if j == 6 {
        spec_mont_mul(a[6], b[6]) - spec_mont_mul(spec_mont_mul(a[7], b[7]), z1)
    } else {
        spec_bsum(spec_mont_mul(a[6], b[7]), spec_mont_mul(a[7], b[6]))
    }
}

/// The 12-bit word coefficient j of a serialized block holds.
pub open spec fn spec_word12(b: Seq<u8>, j: int) -> int {
    let i = j / 2;
    if j % 2 == 0 {
        b[3 * i] as int + (b[3 * i + 1] as int % 16) * 256
    } else {
        b[3 * i + 1] as int / 16 + b[3 * i + 2] as int * 16
    }
}

/// Montgomery-domain product of two representatives.
pub open spec fn spec_mont_mul(a: int, b: int) -> int {
    spec_montgomery_reduce(a * b)
}

/// Barrett-reduced sum of two representatives whose sum fits 16 bits.
pub open spec fn spec_bsum(a: int, b: int) -> int {
    spec_barrett_reduce(a + b)
}

/// Products of values below q stay well below the Montgomery input bound.
proof fn lemma_prod_bound(a: i16, b: i16)
    requires
        -4095 <= a <= 4095,
        -4095 <= b <= 4095,
    ensures
        -16769025 <= a * b <= 16769025,
{
    assert(-16769025 <= a * b <= 16769025) by (nonlinear_arith)
        requires
            -4095 <= a <= 4095,
            -4095 <= b <= 4095,
    ;
}

impl PolyBlock {
    /// Serializes the block at 12 bits per coefficient (unreduced storage):
    /// canonical representatives packed in pairs into 3-byte groups.
    pub fn to_bytes(self) -> (r: [u8; 12])
        requires
            self.bounded(-3329, 4095),
        ensures
            forall|k: int| 0 <= k < 12 ==> #[trigger] (r[k] as int) == spec_byte12(
                Seq::new(8, |j: int| self.c(j)),
                k,
            ),
    {
        proof {
            lemma_block_bounds(self, -3329, 4095);
        }
        let t0: u32 = self.0[0].pack() as u32;
        let t1: u32 = self.0[1].pack() as u32;
        let t2: u32 = self.0[2].pack() as u32;
        let t3: u32 = self.0[3].pack() as u32;
        let t4: u32 = self.0[4].pack() as u32;
        let t5: u32 = self.0[5].pack() as u32;
        let t6: u32 = self.0[6].pack() as u32;
        let t7: u32 = self.0[7].pack() as u32;
        [
            (t0 % 256) as u8,
            ((t0 / 256 + t1 * 16) % 256) as u8,
            (t1 / 16) as u8,
            (t2 % 256) as u8,
            ((t2 / 256 + t3 * 16) % 256) as u8,
            (t3 / 16) as u8,
            (t4 % 256) as u8,
            ((t4 / 256 + t5 * 16) % 256) as u8,
            (t5 / 16) as u8,
            (t6 % 256) as u8,
            ((t6 / 256 + t7 * 16) % 256) as u8,
            (t7 / 16) as u8,
        ]
    }

    /// Reads back a 12-bit serialized block; each coefficient is the raw
    /// 12-bit word, not reduced mod q.
    pub fn from_bytes(b: &[u8]) -> (r: Self)
        requires
            b@.len() == 12,
        ensures
            forall|j: int| 0 <= j < 8 ==> #[trigger] r.c(j) == spec_word12(b@, j),
            r.bounded(0, 4095),
    {
        let r = PolyBlock(
            [
                Coefficient::unpack(b[0] as u16 + (b[1] as u16 % 16) * 256),
                Coefficient::unpack(b[1] as u16 / 16 + b[2] as u16 * 16),
                Coefficient::unpack(b[3] as u16 + (b[4] as u16 % 16) * 256),
                Coefficient::unpack(b[4] as u16 / 16 + b[5] as u16 * 16),
                Coefficient::unpack(b[6] as u16 + (b[7] as u16 % 16) * 256),
                Coefficient::unpack(b[7] as u16 / 16 + b[8] as u16 * 16),
                Coefficient::unpack(b[9] as u16 + (b[10] as u16 % 16) * 256),
                Coefficient::unpack(b[10] as u16 / 16 + b[11] as u16 * 16),
            ],
        );
        r
    }

    /// Rounds each coefficient to one bit and packs the eight bits into a
    /// byte, least significant coefficient first.
    pub fn compress_1(&self) -> (r: u8)
        requires
            self.bounded(-3329, 3328),
        ensures
            r as int == self.cv(1, 0) + self.cv(1, 1) * 2 + self.cv(1, 2) * 4 + self.cv(1, 3) * 8
                + self.cv(1, 4) * 16 + self.cv(1, 5) * 32 + self.cv(1, 6) * 64 + self.cv(1, 7)
                * 128,
    {
        proof {
            lemma_block_bounds(*self, -3329, 3328);
        }
        let b0: u8 = self.0[0].compress_1();
        let b1: u8 = self.0[1].compress_1();
        let b2: u8 = self.0[2].compress_1();
        let b3: u8 = self.0[3].compress_1();
        let b4: u8 = self.0[4].compress_1();
        let b5: u8 = self.0[5].compress_1();
        let b6: u8 = self.0[6].compress_1();
        let b7: u8 = self.0[7].compress_1();
        proof {
            vstd::arithmetic::power2::lemma2_to64();
        }
        b0 + b1 * 2 + b2 * 4 + b3 * 8 + b4 * 16 + b5 * 32 + b6 * 64 + b7 * 128
    }

    /// Expands the eight bits of a byte into coefficients 0 or (q+1)/2.
    pub fn decompress_1(b: u8) -> (r: Self)
        ensures
            r.c(0) == if b as int % 2 == 1 { 1665int } else { 0int },
            r.c(1) == if b as int / 2 % 2 == 1 { 1665int } else { 0int },
            r.c(2) == if b as int / 4 % 2 == 1 { 1665int } else { 0int },
            r.c(3) == if b as int / 8 % 2 == 1 { 1665int } else { 0int },
            r.c(4) == if b as int / 16 % 2 == 1 { 1665int } else { 0int },
            r.c(5) == if b as int / 32 % 2 == 1 { 1665int } else { 0int },
            r.c(6) == if b as int / 64 % 2 == 1 { 1665int } else { 0int },
            r.c(7) == if b as int / 128 % 2 == 1 { 1665int } else { 0int },
            r.bounded(0, 1665),
    {
        let r = PolyBlock(
            [
                Coefficient::decompress_1(b),
                Coefficient::decompress_1(b / 2),
                Coefficient::decompress_1(b / 4),
                Coefficient::decompress_1(b / 8),
                Coefficient::decompress_1(b / 16),
                Coefficient::decompress_1(b / 32),
                Coefficient::decompress_1(b / 64),
                Coefficient::decompress_1(b / 128),
            ],
        );
        r
    }

    /// The NTT base case: four size-2 polynomial products modulo
    /// (X^2 - zeta), with the two twiddles alternating in sign.
    #[verifier::rlimit(100)]
    #[verifier::spinoff_prover]
    pub fn mul(&self, rhs: &Self, zetas: [Coefficient; 2]) -> (r: Self)
        requires
            self.bounded(-4095, 4095),
            rhs.bounded(-4095, 4095),
            -1664 <= zetas[0].0 <= 1664,
            -1664 <= zetas[1].0 <= 1664,
        ensures
            forall|j: int| 0 <= j < 8 ==> #[trigger] r.c(j) == spec_block_mul(
                Seq::new(8, |i: int| self.c(i)),
                Seq::new(8, |i: int| rhs.c(i)),
                zetas[0].0 as int,
                zetas[1].0 as int,
                j,
            ),
            r.bounded(-6656, 6656),
    {
        proof {
            reveal(spec_block_mul);
            lemma_block_bounds(*self, -4095, 4095);
            lemma_block_bounds(*rhs, -4095, 4095);
            lemma_prod_bound(self.0[0].0, rhs.0[0].0);
            lemma_prod_bound(self.0[0].0, rhs.0[1].0);
            lemma_prod_bound(self.0[1].0, rhs.0[0].0);
            lemma_prod_bound(self.0[1].0, rhs.0[1].0);
            lemma_prod_bound(self.0[2].0, rhs.0[2].0);
            lemma_prod_bound(self.0[2].0, rhs.0[3].0);
            lemma_prod_bound(self.0[3].0, rhs.0[2].0);
            lemma_prod_bound(self.0[3].0, rhs.0[3].0);
            lemma_prod_bound(self.0[4].0, rhs.0[4].0);
            lemma_prod_bound(self.0[4].0, rhs.0[5].0);
            lemma_prod_bound(self.0[5].0, rhs.0[4].0);
            lemma_prod_bound(self.0[5].0, rhs.0[5].0);
            lemma_prod_bound(self.0[6].0, rhs.0[6].0);
            lemma_prod_bound(self.0[6].0, rhs.0[7].0);
            lemma_prod_bound(self.0[7].0, rhs.0[6].0);
            lemma_prod_bound(self.0[7].0, rhs.0[7].0);
        }
        let m00 = self.0[0].mul(rhs.0[0]);
        let m11 = self.0[1].mul(rhs.0[1]);
        proof {
            lemma_prod_bound(m11.0, zetas[0].0);
        }
        let m11z = m11.mul(zetas[0]);
        let m01 = self.0[0].mul(rhs.0[1]);
        let m10 = self.0[1].mul(rhs.0[0]);
        let m22 = self.0[2].mul(rhs.0[2]);
        let m33 = self.0[3].mul(rhs.0[3]);
        proof {
            lemma_prod_bound(m33.0, zetas[0].0);
        }
        let m33z = m33.mul(zetas[0]);
        let m23 = self.0[2].mul(rhs.0[3]);
        let m32 = self.0[3].mul(rhs.0[2]);
        let m44 = self.0[4].mul(rhs.0[4]);
        let m55 = self.0[5].mul(rhs.0[5]);
        proof {
            lemma_prod_bound(m55.0, zetas[1].0);
        }
        let m55z = m55.mul(zetas[1]);
        let m45 = self.0[4].mul(rhs.0[5]);
        let m54 = self.0[5].mul(rhs.0[4]);
        let m66 = self.0[6].mul(rhs.0[6]);
        let m77 = self.0[7].mul(rhs.0[7]);
        proof {
            lemma_prod_bound(m77.0, zetas[1].0);
        }
        let m77z = m77.mul(zetas[1]);
        let m67 = self.0[6].mul(rhs.0[7]);
        let m76 = self.0[7].mul(rhs.0[6]);
        let r = PolyBlock(
            [
                m00.add(m11z),
                m01.add(m10),
                m22.sub(m33z),
                m23.add(m32),
                m44.add(m55z),
                m45.add(m54),
                m66.sub(m77z),
                m67.add(m76),
            ],
        );
        r
    }
}


/// The 4 sample bytes as one little-endian 32-bit value.
pub open spec fn spec_le4(b: Seq<u8>) -> u32 {
    (b[0] as int + b[1] as int * 256 + b[2] as int * 65536 + b[3] as int * 16777216) as u32
}

/// The 3 sample bytes at `off` as one little-endian value.
pub open spec fn spec_le3(b: Seq<u8>, off: int) -> u32 {
    (b[off] as int + b[off + 1] as int * 256 + b[off + 2] as int * 65536) as u32
}

/// The paired bit counts for eta = 2: every second bit added to its
/// neighbour, leaving sixteen 2-bit field sums.
pub open spec fn spec_cbd2_d(t: u32) -> int {
    (t & 0x55555555) + ((t >> 1u32) & 0x55555555)
}

/// The tripled bit counts for eta = 3: three interleaved bit layers added,
/// leaving eight 3-bit field sums per 24-bit group.
pub open spec fn spec_cbd3_d(t: u32) -> int {
    (t & 0x249249) + ((t >> 1u32) & 0x249249) + ((t >> 2u32) & 0x249249)
}

/// Coefficient k of a centered binomial sample with eta = 2 from 4 bytes.
pub open spec fn spec_cbd2(b: Seq<u8>, k: int) -> int {
    let d = spec_cbd2_d(spec_le4(b));
    if k == 0 {
        d % 4 - d / 4 % 4
    } else if k == 1 {
        d / 16 % 4 - d / 64 % 4
    } else if k == 2 {
        d / 256 % 4 - d / 1024 % 4
    } else if k == 3 {
        d / 4096 % 4 - d / 16384 % 4
    } else if k == 4 {
        d / 65536 % 4 - d / 262144 % 4
    } else if k == 5 {
        d / 1048576 % 4 - d / 4194304 % 4
    } else if k == 6 {
        d / 16777216 % 4 - d / 67108864 % 4
    } else {
        d / 268435456 % 4 - d / 1073741824 % 4
    }
}

/// Coefficient k of a centered binomial sample with eta = 3 from 6 bytes,
/// four coefficients per 3-byte group.
pub open spec fn spec_cbd3(b: Seq<u8>, k: int) -> int {
    let d = spec_cbd3_d(spec_le3(b, 3 * (k / 4)));
    let kk = k % 4;
    if kk == 0 {
        d % 8 - d / 8 % 8
    } else if kk == 1 {
        d / 64 % 8 - d / 512 % 8
    } else if kk == 2 {
        d / 4096 % 8 - d / 32768 % 8
    } else {
        d / 262144 % 8 - d / 2097152 % 8
    }
}

proof fn lemma_cbd2_masks(t: u32)
    by (bit_vector)
    ensures
        (t & 0x55555555) <= 0x55555555,
        ((t >> 1u32) & 0x55555555) <= 0x55555555,
{
}

proof fn lemma_cbd3_masks(t: u32)
    by (bit_vector)
    ensures
        (t & 0x249249) <= 0x249249,
        ((t >> 1u32) & 0x249249) <= 0x249249,
        ((t >> 2u32) & 0x249249) <= 0x249249,
{
}

impl PolyBlock {
    /// One block of the centered binomial distribution B_eta: 4 bytes give
    /// eight coefficients at eta = 2, 6 bytes give them at eta = 3.
    pub fn cbd(v: &[u8]) -> (r: Self)
        requires
            v@.len() == 4 || v@.len() == 6,
        ensures
            v@.len() == 4 ==> forall|k: int| 0 <= k < 8 ==> #[trigger] r.c(k) == spec_cbd2(v@, k),
            v@.len() == 6 ==> forall|k: int| 0 <= k < 8 ==> #[trigger] r.c(k) == spec_cbd3(v@, k),
            r.bounded(-7, 7),
    {
        if v.len() == 4 {
            let t: u32 = v[0] as u32 + v[1] as u32 * 256 + v[2] as u32 * 65536 + v[3] as u32
                * 16777216;
            proof {
                lemma_cbd2_masks(t);
            }
            let d: u32 = (t & 0x55555555) + ((t >> 1u32) & 0x55555555);
            let r = PolyBlock(
                [
                    Coefficient((d % 4) as i16 - (d / 4 % 4) as i16),
                    Coefficient((d / 16 % 4) as i16 - (d / 64 % 4) as i16),
                    Coefficient((d / 256 % 4) as i16 - (d / 1024 % 4) as i16),
                    Coefficient((d / 4096 % 4) as i16 - (d / 16384 % 4) as i16),
                    Coefficient((d / 65536 % 4) as i16 - (d / 262144 % 4) as i16),
                    Coefficient((d / 1048576 % 4) as i16 - (d / 4194304 % 4) as i16),
                    Coefficient((d / 16777216 % 4) as i16 - (d / 67108864 % 4) as i16),
                    Coefficient((d / 268435456 % 4) as i16 - (d / 1073741824 % 4) as i16),
                ],
            );
            proof {
                assert(r.c(0) == spec_cbd2(v@, 0));
                assert(r.c(1) == spec_cbd2(v@, 1));
                assert(r.c(2) == spec_cbd2(v@, 2));
                assert(r.c(3) == spec_cbd2(v@, 3));
                assert(r.c(4) == spec_cbd2(v@, 4));
                assert(r.c(5) == spec_cbd2(v@, 5));
                assert(r.c(6) == spec_cbd2(v@, 6));
                assert(r.c(7) == spec_cbd2(v@, 7));
            }
            r
        } else {
            let ta: u32 = v[0] as u32 + v[1] as u32 * 256 + v[2] as u32 * 65536;
            let tb: u32 = v[3] as u32 + v[4] as u32 * 256 + v[5] as u32 * 65536;
            proof {
                lemma_cbd3_masks(ta);
                lemma_cbd3_masks(tb);
            }
            let da: u32 = (ta & 0x249249) + ((ta >> 1u32) & 0x249249) + ((ta >> 2u32) & 0x249249);
            let db: u32 = (tb & 0x249249) + ((tb >> 1u32) & 0x249249) + ((tb >> 2u32) & 0x249249);
            let r = PolyBlock(
                [
                    Coefficient((da % 8) as i16 - (da / 8 % 8) as i16),
                    Coefficient((da / 64 % 8) as i16 - (da / 512 % 8) as i16),
                    Coefficient((da / 4096 % 8) as i16 - (da / 32768 % 8) as i16),
                    Coefficient((da / 262144 % 8) as i16 - (da / 2097152 % 8) as i16),
                    Coefficient((db % 8) as i16 - (db / 8 % 8) as i16),
                    Coefficient((db / 64 % 8) as i16 - (db / 512 % 8) as i16),
                    Coefficient((db / 4096 % 8) as i16 - (db / 32768 % 8) as i16),
                    Coefficient((db / 262144 % 8) as i16 - (db / 2097152 % 8) as i16),
                ],
            );
            proof {
                assert(r.c(0) == spec_cbd3(v@, 0));
                assert(r.c(1) == spec_cbd3(v@, 1));
                assert(r.c(2) == spec_cbd3(v@, 2));
                assert(r.c(3) == spec_cbd3(v@, 3));
                assert(r.c(4) == spec_cbd3(v@, 4));
                assert(r.c(5) == spec_cbd3(v@, 5));
                assert(r.c(6) == spec_cbd3(v@, 6));
                assert(r.c(7) == spec_cbd3(v@, 7));
            }
            r
        }
    }
}

} // verus!
