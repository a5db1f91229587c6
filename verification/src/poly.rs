//! Ring elements of R_q = F_q[X]/(X^256 + 1): 256 coefficients tagged with
//! their domain (coefficient domain or NTT domain), with pointwise
//! arithmetic, the number-theoretic transform, serialization and sampling.

use vstd::prelude::*;
use vstd::slice::slice_subrange;
use vstd::arithmetic::power2::pow2;
use crate::coefficient::{
    Coefficient, spec_barrett_reduce, spec_compress, spec_decompress, spec_pack, spec_zeta,
};
use crate::generator::{Buf, spec_accepted, spec_xof_word, lemma_accepted_prefix, XOF_WORDS};
use crate::hashes::shake256_of;
use crate::hashes::shake256;
use crate::block::{
    PolyBlock, spec_block_mul, spec_bsum, spec_byte12, spec_cbyte, spec_dword, spec_mont_mul,
    spec_word12, spec_cbd2, spec_cbd3,
};

verus! {

/// A sequence of 16-bit words as plain integers.
pub open spec fn spec_vals16(c: Seq<i16>) -> Seq<int> {
    Seq::new(c.len(), |i: int| c[i] as int)
}

/// Pointwise Barrett-reduced sum of two coefficient sequences.
pub open spec fn spec_bsum_vals(a: Seq<int>, b: Seq<int>) -> Seq<int> {
    Seq::new(256, |i: int| spec_bsum(a[i], b[i]))
}

/// Pointwise difference of two coefficient sequences.
pub open spec fn spec_sub_vals(a: Seq<int>, b: Seq<int>) -> Seq<int> {
    Seq::new(256, |i: int| a[i] - b[i])
}

/// Pointwise Barrett reduction of a coefficient sequence.
pub open spec fn spec_bar_vals(a: Seq<int>) -> Seq<int> {
    Seq::new(256, |i: int| spec_barrett_reduce(a[i]))
}

/// Pointwise Montgomery multiplication by 2^32 mod q.
pub open spec fn spec_mont_vals(a: Seq<int>) -> Seq<int> {
    Seq::new(256, |i: int| spec_mont_mul(a[i], 1353))
}

/// A polynomial of R_q: 256 signed coefficient representatives, plus the
/// domain it currently lives in. No operation mixes domains except the
/// transform itself.
#[derive(Clone)]
pub struct Poly {
    pub c: Vec<i16>,
    /// True after the forward transform: the coefficients are the NTT image
    /// (and carry the Montgomery factor 2^16).
    pub ntt_form: bool,
}

impl Poly {
    /// Coefficient i as a plain integer.
    pub open spec fn at(&self, i: int) -> int {
        self.c@[i] as int
    }

    /// The coefficients as a sequence of plain integers.
    pub open spec fn vals(&self) -> Seq<int> {
        spec_vals16(self.c@)
    }

    /// A polynomial holds exactly 256 coefficients.
    pub open spec fn wf(&self) -> bool {
        self.c@.len() == 256
    }

    /// Every coefficient lies in [lo, hi].
    pub open spec fn bounded(&self, lo: int, hi: int) -> bool {
        forall|i: int| 0 <= i < 256 ==> lo <= #[trigger] self.at(i) <= hi
    }

    /// The eight coefficients of block `blk` as a sequence.
    pub open spec fn blk(&self, blk: int) -> Seq<int> {
        Seq::new(8, |j: int| self.at(blk * 8 + j))
    }

    /// The eight X-bit compressed values of block `blk`.
    pub open spec fn cvblk(&self, x: u32, blk: int) -> Seq<int> {
        Seq::new(8, |j: int| spec_compress(x, spec_pack(self.at(blk * 8 + j))))
    }

    /// Coefficient-wise sum, each Barrett-reduced.
    pub fn add_assign(&mut self, rhs: &Poly)
        requires
            old(self).wf(),
            rhs.wf(),
            old(self).bounded(-16383, 16383),
            rhs.bounded(-16383, 16383),
        ensures
            final(self).wf(),
            final(self).ntt_form == old(self).ntt_form,
            forall|i: int| 0 <= i < 256 ==> #[trigger] final(self).at(i) == spec_bsum(
                old(self).at(i),
                rhs.at(i),
            ),
            final(self).vals() == spec_bsum_vals(old(self).vals(), rhs.vals()),
            final(self).bounded(-1664, 1665),
    {
        let mut i: usize = 0;
        while i < 256
            invariant
                i <= 256,
                self.wf(),
                rhs.wf(),
                self.ntt_form == old(self).ntt_form,
                rhs.bounded(-16383, 16383),
                forall|j: int| i <= j < 256 ==> #[trigger] (self.c@[j]) == old(self).c@[j],
                old(self).bounded(-16383, 16383),
                forall|j: int| 0 <= j < i ==> #[trigger] (self.c@[j]) as int == spec_bsum(
                    old(self).at(j),
                    rhs.at(j),
                ),
                forall|j: int| 0 <= j < i ==> -1664 <= #[trigger] (self.c@[j]) <= 1665,
            decreases 256 - i,
        {
            proof {
                assert(self.at(i as int) == old(self).at(i as int));
                assert(-16383 <= old(self).at(i as int) <= 16383);
                assert(-16383 <= rhs.at(i as int) <= 16383);
            }
            let a = Coefficient(self.c[i]);
            let b = Coefficient(rhs.c[i]);
            self.c[i] = a.add(b).0;
            proof {
                assert(self.at(i as int) == spec_bsum(old(self).at(i as int), rhs.at(i as int)));
            }
            i += 1;
        }
        proof {
            assert forall|t: int| 0 <= t < 256 implies self.vals()[t] == spec_bsum_vals(
                old(self).vals(),
                rhs.vals(),
            )[t] by {
                assert(self.vals()[t] == self.at(t));
                assert(old(self).vals()[t] == old(self).at(t));
                assert(rhs.vals()[t] == rhs.at(t));
            }
            assert(self.vals() =~= spec_bsum_vals(old(self).vals(), rhs.vals()));
        }
    }

    /// Coefficient-wise difference, unreduced; the caller keeps both sides
    /// small enough that no 16-bit difference overflows.
    pub fn sub_assign(&mut self, rhs: &Poly)
        requires
            old(self).wf(),
            rhs.wf(),
            old(self).bounded(-8192, 8192),
            rhs.bounded(-8192, 8192),
        ensures
            final(self).wf(),
            final(self).ntt_form == old(self).ntt_form,
            forall|i: int| 0 <= i < 256 ==> #[trigger] final(self).at(i) == old(self).at(i)
                - rhs.at(i),
            final(self).vals() == spec_sub_vals(old(self).vals(), rhs.vals()),
            final(self).bounded(-16384, 16384),
    {
        let mut i: usize = 0;
        while i < 256
            invariant
                i <= 256,
                self.wf(),
                rhs.wf(),
                self.ntt_form == old(self).ntt_form,
                rhs.bounded(-8192, 8192),
                forall|j: int| i <= j < 256 ==> #[trigger] (self.c@[j]) == old(self).c@[j],
                old(self).bounded(-8192, 8192),
                forall|j: int| 0 <= j < i ==> #[trigger] (self.c@[j]) as int == old(self).at(j)
                    - rhs.at(j),
                forall|j: int| 0 <= j < i ==> -16384 <= #[trigger] (self.c@[j]) <= 16384,
            decreases 256 - i,
        {
            proof {
                assert(self.at(i as int) == old(self).at(i as int));
                assert(-8192 <= old(self).at(i as int) <= 8192);
                assert(-8192 <= rhs.at(i as int) <= 8192);
            }
            let a = Coefficient(self.c[i]);
            let b = Coefficient(rhs.c[i]);
            self.c[i] = a.sub(b).0;
            proof {
                assert(self.at(i as int) == old(self).at(i as int) - rhs.at(i as int));
            }
            i += 1;
        }
        proof {
            assert forall|t: int| 0 <= t < 256 implies self.vals()[t] == spec_sub_vals(
                old(self).vals(),
                rhs.vals(),
            )[t] by {
                assert(self.vals()[t] == self.at(t));
                assert(old(self).vals()[t] == old(self).at(t));
                assert(rhs.vals()[t] == rhs.at(t));
            }
            assert(self.vals() =~= spec_sub_vals(old(self).vals(), rhs.vals()));
        }
    }

    /// Barrett-reduces every coefficient into [-(q-1)/2, (q+1)/2].
    pub fn barrett_reduce(self) -> (r: Poly)
        requires
            self.wf(),
        ensures
            r.wf(),
            r.ntt_form == self.ntt_form,
            forall|i: int| 0 <= i < 256 ==> #[trigger] r.at(i) == spec_barrett_reduce(
                self.at(i),
            ),
            r.vals() == spec_bar_vals(self.vals()),
            r.bounded(-1664, 1665),
    {
        let mut p = self;
        let mut i: usize = 0;
        while i < 256
            invariant
                i <= 256,
                p.wf(),
                p.ntt_form == self.ntt_form,
                forall|j: int| i <= j < 256 ==> #[trigger] (p.c@[j]) == self.c@[j],
                forall|j: int| 0 <= j < i ==> #[trigger] (p.c@[j]) as int == spec_barrett_reduce(
                    self.at(j),
                ),
                forall|j: int| 0 <= j < i ==> -1664 <= #[trigger] (p.c@[j]) <= 1665,
            decreases 256 - i,
        {
            proof {
                assert(p.at(i as int) == self.at(i as int));
            }
            p.c[i] = Coefficient::barrett_reduce(p.c[i]).0;
            proof {
                assert(p.at(i as int) == spec_barrett_reduce(self.at(i as int)));
            }
            i += 1;
        }
        proof {
            assert forall|t: int| 0 <= t < 256 implies p.vals()[t] == spec_bar_vals(
                self.vals(),
            )[t] by {
                assert(p.vals()[t] == p.at(t));
                assert(self.vals()[t] == self.at(t));
            }
            assert(p.vals() =~= spec_bar_vals(self.vals()));
        }
        p
    }

    /// Multiplies every coefficient by 2^32 mod q under Montgomery
    /// reduction: restores the factor the pointwise fold stripped.
    pub fn montgomery_reduce(self) -> (r: Poly)
        requires
            self.wf(),
            self.ntt_form,
        ensures
            r.wf(),
            r.ntt_form,
            forall|i: int| 0 <= i < 256 ==> #[trigger] r.at(i) == spec_mont_mul(
                self.at(i),
                1353,
            ),
            r.vals() == spec_mont_vals(self.vals()),
            r.bounded(-3328, 3328),
    {
        let mut p = self;
        let mut i: usize = 0;
        while i < 256
            invariant
                i <= 256,
                p.wf(),
                p.ntt_form == self.ntt_form,
                forall|j: int| i <= j < 256 ==> #[trigger] (p.c@[j]) == self.c@[j],
                forall|j: int| 0 <= j < i ==> #[trigger] (p.c@[j]) as int == spec_mont_mul(
                    self.at(j),
                    1353,
                ),
                forall|j: int| 0 <= j < i ==> -3328 <= #[trigger] (p.c@[j]) <= 3328,
            decreases 256 - i,
        {
            proof {
                assert(p.at(i as int) == self.at(i as int));
            }
            let v = Coefficient(p.c[i]);
            p.c[i] = v.mul(Coefficient(1353)).0;
            proof {
                assert(p.at(i as int) == spec_mont_mul(self.at(i as int), 1353));
            }
            i += 1;
        }
        proof {
            assert forall|t: int| 0 <= t < 256 implies p.vals()[t] == spec_mont_vals(
                self.vals(),
            )[t] by {
                assert(p.vals()[t] == p.at(t));
                assert(self.vals()[t] == self.at(t));
            }
            assert(p.vals() =~= spec_mont_vals(self.vals()));
        }
        p
    }

    /// Reads a 384-byte 12-bit serialization; coefficients come back as the
    /// raw 12-bit words.
    pub fn from_bytes(bytes: &[u8], ntt_form: bool) -> (r: Poly)
        requires
            bytes@.len() == 384,
        ensures
            r.wf(),
            r.ntt_form == ntt_form,
            forall|i: int| 0 <= i < 256 ==> #[trigger] r.at(i) == spec_word12(
                bytes@.subrange(12 * (i / 8), 12 * (i / 8) + 12),
                i % 8,
            ),
            r.bounded(0, 4095),
    {
        let mut c: Vec<i16> = Vec::new();
        let mut b: usize = 0;
        while b < 32
            invariant
                b <= 32,
                bytes@.len() == 384,
                c@.len() == 8 * b,
                forall|i: int| 0 <= i < 8 * b ==> #[trigger] (c@[i] as int) == spec_word12(
                    bytes@.subrange(12 * (i / 8), 12 * (i / 8) + 12),
                    i % 8,
                ),
                forall|i: int| 0 <= i < 8 * b ==> 0 <= #[trigger] (c@[i] as int) <= 4095,
            decreases 32 - b,
        {
            let chunk = slice_subrange(bytes, 12 * b, 12 * b + 12);
            let blk = PolyBlock::from_bytes(chunk);
            let ghost c0 = c@;
            let mut j: usize = 0;
            while j < 8
                invariant
                    j <= 8,
                    b < 32,
                    c@.len() == 8 * b + j,
                    c@.subrange(0, 8 * (b as int)) == c0,
                    c0.len() == 8 * b,
                    chunk@ == bytes@.subrange(12 * (b as int), 12 * (b as int) + 12),
                    forall|jj: int| 0 <= jj < 8 ==> #[trigger] blk.c(jj) == spec_word12(
                        chunk@,
                        jj,
                    ),
                    blk.bounded(0, 4095),
                    forall|jj: int| 0 <= jj < j ==> #[trigger] (c@[8 * b + jj] as int) == blk.c(
                        jj,
                    ),
                decreases 8 - j,
            {
                c.push(blk.0[j].0);
                j += 1;
            }
            proof {
                assert forall|i: int| 0 <= i < 8 * (b + 1) implies 0 <= (#[trigger] c@[i]) as int
                    <= 4095 && (c@[i] as int) == spec_word12(
                    bytes@.subrange(12 * (i / 8), 12 * (i / 8) + 12),
                    i % 8,
                ) by {
                    if i < 8 * b {
                        assert(c@.subrange(0, 8 * (b as int))[i] == c@[i]);
                        assert(c0[i] == c@[i]);
                    } else {
                        let jj = i - 8 * b;
                        assert(c@[8 * b + jj] as int == blk.c(jj));
                        assert(i / 8 == b as int && i % 8 == jj);
                        assert(blk.c(jj) == spec_word12(chunk@, jj));
                    }
                }
            }
            b += 1;
        }
        let r = Poly { c, ntt_form };
        proof {
            assert forall|i: int| 0 <= i < 256 implies #[trigger] r.at(i) == spec_word12(
                bytes@.subrange(12 * (i / 8), 12 * (i / 8) + 12),
                i % 8,
            ) by {
                assert(r.at(i) == r.c@[i]);
            }
        }
        r
    }

    /// Serializes at 12 bits per coefficient: 384 bytes of packed canonical
    /// representatives.
    pub fn to_bytes(&self) -> (r: Vec<u8>)
        requires
            self.wf(),
            self.bounded(-3329, 4095),
        ensures
            r@.len() == 384,
            forall|k: int| 0 <= k < 384 ==> #[trigger] (r@[k] as int) == spec_byte12(
                self.blk(k / 12),
                k % 12,
            ),
    {
        let mut out: Vec<u8> = Vec::new();
        let mut b: usize = 0;
        while b < 32
            invariant
                b <= 32,
                self.wf(),
                self.bounded(-3329, 4095),
                out@.len() == 12 * b,
                forall|k: int| 0 <= k < 12 * b ==> #[trigger] (out@[k] as int) == spec_byte12(
                    self.blk(k / 12),
                    k % 12,
                ),
            decreases 32 - b,
        {
            let blk = PolyBlock(
                [
                    Coefficient(self.c[8 * b]),
                    Coefficient(self.c[8 * b + 1]),
                    Coefficient(self.c[8 * b + 2]),
                    Coefficient(self.c[8 * b + 3]),
                    Coefficient(self.c[8 * b + 4]),
                    Coefficient(self.c[8 * b + 5]),
                    Coefficient(self.c[8 * b + 6]),
                    Coefficient(self.c[8 * b + 7]),
                ],
            );
            proof {
                assert forall|j: int| 0 <= j < 8 implies -3329 <= #[trigger] blk.c(j) <= 4095 by {
                    assert(blk.c(j) == self.at(8 * b + j));
                }
                assert(Seq::new(8, |j: int| blk.c(j)) =~= self.blk(b as int));
            }
            let bytes = blk.to_bytes();
            let ghost out0 = out@;
            out.push(bytes[0]);
            out.push(bytes[1]);
            out.push(bytes[2]);
            out.push(bytes[3]);
            out.push(bytes[4]);
            out.push(bytes[5]);
            out.push(bytes[6]);
            out.push(bytes[7]);
            out.push(bytes[8]);
            out.push(bytes[9]);
            out.push(bytes[10]);
            out.push(bytes[11]);
            proof {
                assert forall|k: int| 0 <= k < 12 * (b + 1) implies #[trigger] (out@[k] as int)
                    == spec_byte12(self.blk(k / 12), k % 12) by {
                    if k < 12 * b {
                        assert(out@[k] == out0[k]);
                    } else {
                        let kk = k - 12 * b;
                        assert(out@[k] as int == bytes[kk] as int);
                        assert(bytes[kk] as int == spec_byte12(Seq::new(8, |j: int| blk.c(j)), kk));
                        assert(k / 12 == b as int && k % 12 == kk);
                    }
                }
            }
            b += 1;
        }
        out
    }
}


/// Bit j of a byte.
pub open spec fn spec_bit(b: u8, j: int) -> int {
    if j == 0 {
        b as int % 2
    } else if j == 1 {
        b as int / 2 % 2
    } else if j == 2 {
        b as int / 4 % 2
    } else if j == 3 {
        b as int / 8 % 2
    } else if j == 4 {
        b as int / 16 % 2
    } else if j == 5 {
        b as int / 32 % 2
    } else if j == 6 {
        b as int / 64 % 2
    } else {
        b as int / 128 % 2
    }
}

/// Coefficient i of a message polynomial: bit i of the 32-byte message,
/// scaled to (q+1)/2.
pub open spec fn spec_msg_coeff(m: Seq<u8>, i: int) -> int {
    if spec_bit(m[i / 8], i % 8) == 1 {
        1665
    } else {
        0
    }
}

/// The whole message polynomial as coefficient values.
pub open spec fn spec_msg_vals(m: Seq<u8>) -> Seq<int> {
    Seq::new(256, |i: int| spec_msg_coeff(m, i))
}

/// The noise polynomial sampled from SHAKE-256(seed || nonce): centered
/// binomial coefficients over 4 bytes per block at eta = 2, 6 at eta = 3.
pub open spec fn spec_noise_vals(seed: Seq<u8>, nonce: u8, per_block: int) -> Seq<int> {
    let stream = shake256_of(seed.push(nonce), 32 * per_block);
    Seq::new(
        256,
        |t: int|
            if per_block == 4 {
                spec_cbd2(stream.subrange(4 * (t / 8), 4 * (t / 8) + 4), t % 8)
            } else {
                spec_cbd3(stream.subrange(6 * (t / 8), 6 * (t / 8) + 6), t % 8)
            },
    )
}

/// The 32 bytes a polynomial's coefficients round to, one bit each.
pub open spec fn spec_to_msg(v: Seq<int>) -> Seq<u8> {
    Seq::new(
        32,
        |k: int|
            (spec_compress(1, spec_pack(v[8 * k])) + spec_compress(1, spec_pack(v[8 * k + 1])) * 2
                + spec_compress(1, spec_pack(v[8 * k + 2])) * 4 + spec_compress(
                1,
                spec_pack(v[8 * k + 3]),
            ) * 8 + spec_compress(1, spec_pack(v[8 * k + 4])) * 16 + spec_compress(
                1,
                spec_pack(v[8 * k + 5]),
            ) * 32 + spec_compress(1, spec_pack(v[8 * k + 6])) * 64 + spec_compress(
                1,
                spec_pack(v[8 * k + 7]),
            ) * 128) as u8,
    )
}

impl Poly {
    /// Byte k of the 1-bit compression of this polynomial.
    pub open spec fn msg_byte(&self, k: int) -> int {
        spec_compress(1, spec_pack(self.at(8 * k))) + spec_compress(1, spec_pack(self.at(8 * k + 1)))
            * 2 + spec_compress(1, spec_pack(self.at(8 * k + 2))) * 4 + spec_compress(
            1,
            spec_pack(self.at(8 * k + 3)),
        ) * 8 + spec_compress(1, spec_pack(self.at(8 * k + 4))) * 16 + spec_compress(
            1,
            spec_pack(self.at(8 * k + 5)),
        ) * 32 + spec_compress(1, spec_pack(self.at(8 * k + 6))) * 64 + spec_compress(
            1,
            spec_pack(self.at(8 * k + 7)),
        ) * 128
    }

    fn block_at(&self, b: usize) -> (r: PolyBlock)
        requires
            self.wf(),
            b < 32,
        ensures
            forall|j: int| 0 <= j < 8 ==> #[trigger] r.c(j) == self.at(8 * b + j),
            Seq::new(8, |j: int| r.c(j)) =~= self.blk(b as int),
    {
        let r = PolyBlock(
            [
                Coefficient(self.c[8 * b]),
                Coefficient(self.c[8 * b + 1]),
                Coefficient(self.c[8 * b + 2]),
                Coefficient(self.c[8 * b + 3]),
                Coefficient(self.c[8 * b + 4]),
                Coefficient(self.c[8 * b + 5]),
                Coefficient(self.c[8 * b + 6]),
                Coefficient(self.c[8 * b + 7]),
            ],
        );
        r
    }

    /// Serializes at X bits per coefficient; 32 * X bytes.
    pub fn compress<const X: u32>(&self) -> (r: Vec<u8>)
        requires
            X == 4 || X == 5 || X == 10 || X == 11,
            self.wf(),
            self.bounded(-3329, 3328),
        ensures
            r@.len() == 32 * X,
            forall|k: int| 0 <= k < 32 * X ==> #[trigger] (r@[k] as int) == spec_cbyte(
                X,
                self.cvblk(X, k / (X as int)),
                k % (X as int),
            ),
    {
        let mut out: Vec<u8> = Vec::new();
        let x: usize = X as usize;
        let mut b: usize = 0;
        while b < 32
            invariant
                X == 4 || X == 5 || X == 10 || X == 11,
                x == X,
                b <= 32,
                self.wf(),
                self.bounded(-3329, 3328),
                out@.len() == x * b,
                forall|k: int| 0 <= k < x * b ==> #[trigger] (out@[k] as int) == spec_cbyte(
                    X,
                    self.cvblk(X, k / (X as int)),
                    k % (X as int),
                ),
            decreases 32 - b,
        {
            let blk = self.block_at(b);
            proof {
                assert forall|j: int| 0 <= j < 8 implies -3329 <= #[trigger] blk.c(j) <= 3328 by {
                    assert(blk.c(j) == self.at(8 * b + j));
                }
                assert(Seq::new(8, |j: int| blk.cv(X, j)) =~= self.cvblk(X, b as int));
            }
            let ghost out0 = out@;
            if X == 4 {
                let a = blk.compress_4();
                out.push(a[0]);
                out.push(a[1]);
                out.push(a[2]);
                out.push(a[3]);
            } else if X == 5 {
                let a = blk.compress_5();
                out.push(a[0]);
                out.push(a[1]);
                out.push(a[2]);
                out.push(a[3]);
                out.push(a[4]);
            } else if X == 10 {
                let a = blk.compress_10();
                out.push(a[0]);
                out.push(a[1]);
                out.push(a[2]);
                out.push(a[3]);
                out.push(a[4]);
                out.push(a[5]);
                out.push(a[6]);
                out.push(a[7]);
                out.push(a[8]);
                out.push(a[9]);
            } else {
                let a = blk.compress_11();
                out.push(a[0]);
                out.push(a[1]);
                out.push(a[2]);
                out.push(a[3]);
                out.push(a[4]);
                out.push(a[5]);
                out.push(a[6]);
                out.push(a[7]);
                out.push(a[8]);
                out.push(a[9]);
                out.push(a[10]);
            }
            proof {
                assert forall|k: int| 0 <= k < x * (b + 1) implies #[trigger] (out@[k] as int)
                    == spec_cbyte(X, self.cvblk(X, k / (X as int)), k % (X as int)) by {
                    if k < x * b {
                        assert(out@[k] == out0[k]);
                    } else {
                        let kk = k - x * b;
                        assert(k / (X as int) == b as int && k % (X as int) == kk);
                    }
                }
            }
            b += 1;
        }
        out
    }

    /// Reads back an X-bit serialization into a coefficient-domain
    /// polynomial.
    pub fn decompress<const X: u32>(bytes: &[u8]) -> (r: Poly)
        requires
            X == 4 || X == 5 || X == 10 || X == 11,
            bytes@.len() == 32 * X,
        ensures
            r.wf(),
            !r.ntt_form,
            forall|i: int| 0 <= i < 256 ==> #[trigger] r.at(i) == spec_decompress(
                X,
                spec_dword(
                    X,
                    bytes@.subrange((X as int) * (i / 8), (X as int) * (i / 8) + X),
                    i % 8,
                ),
            ),
            r.bounded(0, 3328),
    {
        let x: usize = X as usize;
        let mut c: Vec<i16> = Vec::new();
        let mut b: usize = 0;
        while b < 32
            invariant
                X == 4 || X == 5 || X == 10 || X == 11,
                x == X,
                bytes@.len() == 32 * x,
                b <= 32,
                c@.len() == 8 * b,
                forall|i: int| 0 <= i < 8 * b ==> #[trigger] (c@[i] as int) == spec_decompress(
                    X,
                    spec_dword(
                        X,
                        bytes@.subrange((X as int) * (i / 8), (X as int) * (i / 8) + X),
                        i % 8,
                    ),
                ),
                forall|i: int| 0 <= i < 8 * b ==> 0 <= #[trigger] (c@[i] as int) <= 3328,
            decreases 32 - b,
        {
            let chunk = slice_subrange(bytes, x * b, x * b + x);
            let blk = PolyBlock::decompress::<X>(chunk);
            let ghost c0 = c@;
            let mut j: usize = 0;
            while j < 8
                invariant
                    j <= 8,
                    b < 32,
                    c@.len() == 8 * b + j,
                    c@.subrange(0, 8 * (b as int)) == c0,
                    c0.len() == 8 * b,
                    chunk@ == bytes@.subrange((X as int) * (b as int), (X as int) * (b as int) + X),
                    forall|jj: int| 0 <= jj < 8 ==> #[trigger] blk.c(jj) == spec_decompress(
                        X,
                        spec_dword(X, chunk@, jj),
                    ),
                    blk.bounded(0, 3328),
                    forall|jj: int| 0 <= jj < j ==> #[trigger] (c@[8 * b + jj] as int) == blk.c(
                        jj,
                    ),
                decreases 8 - j,
            {
                c.push(blk.0[j].0);
                j += 1;
            }
            proof {
                assert forall|i: int| 0 <= i < 8 * (b + 1) implies 0 <= (#[trigger] c@[i]) as int
                    <= 3328 && (c@[i] as int) == spec_decompress(
                    X,
                    spec_dword(
                        X,
                        bytes@.subrange((X as int) * (i / 8), (X as int) * (i / 8) + X),
                        i % 8,
                    ),
                ) by {
                    if i < 8 * b {
                        assert(c@.subrange(0, 8 * (b as int))[i] == c@[i]);
                        assert(c0[i] == c@[i]);
                    } else {
                        let jj = i - 8 * b;
                        assert(c@[8 * b + jj] as int == blk.c(jj));
                        assert(i / 8 == b as int && i % 8 == jj);
                        assert(blk.c(jj) == spec_decompress(X, spec_dword(X, chunk@, jj)));
                    }
                }
            }
            b += 1;
        }
        let r = Poly { c, ntt_form: false };
        proof {
            assert forall|i: int| 0 <= i < 256 implies #[trigger] r.at(i) == spec_decompress(
                X,
                spec_dword(
                    X,
                    bytes@.subrange((X as int) * (i / 8), (X as int) * (i / 8) + X),
                    i % 8,
                ),
            ) by {
                assert(r.at(i) == r.c@[i]);
            }
        }
        r
    }

    /// Expands the 256 bits of a 32-byte message into a polynomial with
    /// coefficients 0 or (q+1)/2.
    pub fn from_msg(msg: &[u8]) -> (r: Poly)
        requires
            msg@.len() == 32,
        ensures
            r.wf(),
            !r.ntt_form,
            forall|i: int| 0 <= i < 256 ==> #[trigger] r.at(i) == spec_msg_coeff(msg@, i),
            r.vals() == spec_msg_vals(msg@),
            r.bounded(0, 1665),
    {
        let mut c: Vec<i16> = Vec::new();
        let mut b: usize = 0;
        while b < 32
            invariant
                msg@.len() == 32,
                b <= 32,
                c@.len() == 8 * b,
                forall|i: int| 0 <= i < 8 * b ==> #[trigger] (c@[i] as int) == spec_msg_coeff(
                    msg@,
                    i,
                ),
                forall|i: int| 0 <= i < 8 * b ==> 0 <= #[trigger] (c@[i] as int) <= 1665,
            decreases 32 - b,
        {
            let blk = PolyBlock::decompress_1(msg[b]);
            let ghost c0 = c@;
            let mut j: usize = 0;
            while j < 8
                invariant
                    j <= 8,
                    b < 32,
                    msg@.len() == 32,
                    c@.len() == 8 * b + j,
                    c@.subrange(0, 8 * (b as int)) == c0,
                    c0.len() == 8 * b,
                    forall|jj: int| 0 <= jj < 8 ==> #[trigger] blk.c(jj) == if spec_bit(
                        msg@[b as int],
                        jj,
                    ) == 1 {
                        1665int
                    } else {
                        0int
                    },
                    blk.bounded(0, 1665),
                    forall|jj: int| 0 <= jj < j ==> #[trigger] (c@[8 * b + jj] as int) == blk.c(
                        jj,
                    ),
                decreases 8 - j,
            {
                c.push(blk.0[j].0);
                j += 1;
            }
            proof {
                assert forall|i: int| 0 <= i < 8 * (b + 1) implies 0 <= (#[trigger] c@[i]) as int
                    <= 1665 && (c@[i] as int) == spec_msg_coeff(msg@, i) by {
                    if i < 8 * b {
                        assert(c@.subrange(0, 8 * (b as int))[i] == c@[i]);
                        assert(c0[i] == c@[i]);
                    } else {
                        let jj = i - 8 * b;
                        assert(c@[8 * b + jj] as int == blk.c(jj));
                        assert(i / 8 == b as int && i % 8 == jj);
                    }
                }
            }
            b += 1;
        }
        let r = Poly { c, ntt_form: false };
        proof {
            assert forall|i: int| 0 <= i < 256 implies #[trigger] r.at(i) == spec_msg_coeff(
                msg@,
                i,
            ) by {
                assert(r.at(i) == r.c@[i]);
            }
            assert(r.vals() =~= spec_msg_vals(msg@));
        }
        r
    }

    /// Rounds each coefficient to a bit and packs the 256 bits into 32
    /// bytes.
    pub fn to_msg(&self) -> (r: Vec<u8>)
        requires
            self.wf(),
            self.bounded(-3329, 3328),
        ensures
            r@.len() == 32,
            forall|k: int| 0 <= k < 32 ==> #[trigger] (r@[k] as int) == self.msg_byte(k),
            r@ == spec_to_msg(self.vals()),
    {
        let mut out: Vec<u8> = Vec::new();
        let mut b: usize = 0;
        while b < 32
            invariant
                b <= 32,
                self.wf(),
                self.bounded(-3329, 3328),
                out@.len() == b,
                forall|k: int| 0 <= k < b ==> #[trigger] (out@[k] as int) == self.msg_byte(k),
            decreases 32 - b,
        {
            let blk = self.block_at(b);
            proof {
                assert forall|j: int| 0 <= j < 8 implies -3329 <= #[trigger] blk.c(j) <= 3328 by {
                    assert(blk.c(j) == self.at(8 * b + j));
                }
            }
            let byte = blk.compress_1();
            out.push(byte);
            b += 1;
        }
        proof {
            assert forall|k: int| 0 <= k < 32 implies out@[k] == spec_to_msg(self.vals())[k] by {
                assert(out@[k] as int == self.msg_byte(k));
                assert(0 <= self.msg_byte(k) < 256);
            }
            assert(out@ =~= spec_to_msg(self.vals()));
        }
        out
    }
}


/// Coefficient i of the pointwise (NTT-domain) product of two polynomials.
pub open spec fn spec_poly_mul_at(av: Seq<int>, bv: Seq<int>, i: int) -> int {
    spec_block_mul(
        av.subrange(8 * (i / 8), 8 * (i / 8) + 8),
        bv.subrange(8 * (i / 8), 8 * (i / 8) + 8),
        spec_zeta((64 + 2 * (i / 8)) as nat, 7),
        spec_zeta((64 + 2 * (i / 8) + 1) as nat, 7),
        i % 8,
    )
}

/// The coefficient values of each polynomial of a vector.
pub open spec fn spec_vals_of(v: Seq<Poly>) -> Seq<Seq<int>> {
    v.map_values(|p: Poly| p.vals())
}

/// Coefficient i of the inner product of the first n entries of two
/// equal-length polynomial vectors: the first product taken directly,
/// later ones folded in with Barrett-reduced addition.
pub open spec fn spec_fold_at(a: Seq<Seq<int>>, b: Seq<Seq<int>>, n: int, i: int) -> int
    decreases n,
{
    if n <= 1 {
        spec_poly_mul_at(a[0], b[0], i)
    } else {
        spec_bsum(spec_fold_at(a, b, n - 1, i), spec_poly_mul_at(a[n - 1], b[n - 1], i))
    }
}

/// The whole Barrett-reduced inner product as a coefficient sequence.
pub open spec fn spec_foldred_vals(a: Seq<Seq<int>>, b: Seq<Seq<int>>, n: int) -> Seq<int> {
    Seq::new(256, |i: int| spec_barrett_reduce(spec_fold_at(a, b, n, i)))
}

impl Poly {
    /// Pointwise multiplication in the NTT domain: 64 base-case products
    /// with the upper half of the twiddle table. Montgomery reduction
    /// strips one factor of 2^16 from every product.
    pub fn mul_montgomery(&self, rhs: &Poly) -> (r: Poly)
        requires
            self.wf(),
            rhs.wf(),
            self.ntt_form,
            rhs.ntt_form,
            self.bounded(-4095, 4095),
            rhs.bounded(-4095, 4095),
        ensures
            r.wf(),
            r.ntt_form,
            forall|i: int| 0 <= i < 256 ==> #[trigger] r.at(i) == spec_poly_mul_at(
                self.vals(),
                rhs.vals(),
                i,
            ),
            r.bounded(-6656, 6656),
    {
        let mut c: Vec<i16> = Vec::new();
        let mut b: usize = 0;
        while b < 32
            invariant
                b <= 32,
                self.wf(),
                rhs.wf(),
                self.bounded(-4095, 4095),
                rhs.bounded(-4095, 4095),
                c@.len() == 8 * b,
                forall|i: int| 0 <= i < 8 * b ==> #[trigger] (c@[i] as int) == spec_poly_mul_at(
                    self.vals(),
                    rhs.vals(),
                    i,
                ),
                forall|i: int| 0 <= i < 8 * b ==> -6656 <= #[trigger] (c@[i] as int) <= 6656,
            decreases 32 - b,
        {
            let z0 = Coefficient::zeta(64 + 2 * b, 7);
            let z1 = Coefficient::zeta(64 + 2 * b + 1, 7);
            let pa = self.block_at(b);
            let pb = rhs.block_at(b);
            proof {
                assert forall|j: int| 0 <= j < 8 implies -4095 <= #[trigger] pa.c(j) <= 4095
                    && -4095 <= pb.c(j) <= 4095 by {
                    assert(pa.c(j) == self.at(8 * b + j));
                    assert(pb.c(j) == rhs.at(8 * b + j));
                }
            }
            let m = pa.mul(&pb, [z0, z1]);
            let ghost c0 = c@;
            let mut j: usize = 0;
            while j < 8
                invariant
                    j <= 8,
                    b < 32,
                    c@.len() == 8 * b + j,
                    c@.subrange(0, 8 * (b as int)) == c0,
                    c0.len() == 8 * b,
                    forall|jj: int| 0 <= jj < 8 ==> #[trigger] m.c(jj) == spec_block_mul(
                        Seq::new(8, |t: int| pa.c(t)),
                        Seq::new(8, |t: int| pb.c(t)),
                        z0.0 as int,
                        z1.0 as int,
                        jj,
                    ),
                    m.bounded(-6656, 6656),
                    forall|jj: int| 0 <= jj < j ==> #[trigger] (c@[8 * b + jj] as int) == m.c(jj),
                decreases 8 - j,
            {
                c.push(m.0[j].0);
                j += 1;
            }
            proof {
                assert(Seq::new(8, |t: int| pa.c(t)) =~= self.vals().subrange(
                    8 * (b as int),
                    8 * (b as int) + 8,
                ));
                assert(Seq::new(8, |t: int| pb.c(t)) =~= rhs.vals().subrange(
                    8 * (b as int),
                    8 * (b as int) + 8,
                ));
                assert forall|i: int| 0 <= i < 8 * (b + 1) implies -6656 <= (#[trigger] c@[i]) as int
                    <= 6656 && (c@[i] as int) == spec_poly_mul_at(self.vals(), rhs.vals(), i) by {
                    if i < 8 * b {
                        assert(c@.subrange(0, 8 * (b as int))[i] == c@[i]);
                        assert(c0[i] == c@[i]);
                    } else {
                        let jj = i - 8 * b;
                        assert(c@[8 * b + jj] as int == m.c(jj));
                        assert(i / 8 == b as int && i % 8 == jj);
                        assert(m.c(jj) == spec_block_mul(
                            self.vals().subrange(8 * (b as int), 8 * (b as int) + 8),
                            rhs.vals().subrange(8 * (b as int), 8 * (b as int) + 8),
                            z0.0 as int,
                            z1.0 as int,
                            jj,
                        ));
                    }
                }
            }
            b += 1;
        }
        let r = Poly { c, ntt_form: true };
        proof {
            assert forall|i: int| 0 <= i < 256 implies #[trigger] r.at(i) == spec_poly_mul_at(
                self.vals(),
                rhs.vals(),
                i,
            ) by {
                assert(r.at(i) == r.c@[i]);
            }
        }
        r
    }

    /// Inner product of two equal-length vectors of NTT-domain polynomials:
    /// pointwise products accumulated with reduced additions, then a final
    /// Barrett reduction.
    pub fn mul_fold_montgomery(a: &[Poly], b: &[Poly]) -> (r: Poly)
        requires
            a@.len() == b@.len(),
            1 <= a@.len(),
            forall|t: int| 0 <= t < a@.len() ==> (#[trigger] a@[t]).wf() && a@[t].ntt_form
                && a@[t].bounded(-4095, 4095),
            forall|t: int| 0 <= t < b@.len() ==> (#[trigger] b@[t]).wf() && b@[t].ntt_form
                && b@[t].bounded(-4095, 4095),
        ensures
            r.wf(),
            r.ntt_form,
            forall|i: int| 0 <= i < 256 ==> #[trigger] r.at(i) == spec_barrett_reduce(
                spec_fold_at(spec_vals_of(a@), spec_vals_of(b@), a@.len() as int, i),
            ),
            r.vals() == spec_foldred_vals(spec_vals_of(a@), spec_vals_of(b@), a@.len() as int),
            r.bounded(-1664, 1665),
    {
        let pa = vstd::slice::slice_index_get(a, 0);
        let pb = vstd::slice::slice_index_get(b, 0);
        let mut acc = pa.mul_montgomery(pb);
        proof {
            assert(spec_vals_of(a@)[0] == a@[0].vals());
            assert(spec_vals_of(b@)[0] == b@[0].vals());
        }
        let mut t: usize = 1;
        while t < a.len()
            invariant
                a@.len() == b@.len(),
                1 <= t <= a@.len(),
                forall|u: int| 0 <= u < a@.len() ==> (#[trigger] a@[u]).wf() && a@[u].ntt_form
                    && a@[u].bounded(-4095, 4095),
                forall|u: int| 0 <= u < b@.len() ==> (#[trigger] b@[u]).wf() && b@[u].ntt_form
                    && b@[u].bounded(-4095, 4095),
                acc.wf(),
                acc.ntt_form,
                acc.bounded(-6656, 6656),
                forall|i: int| 0 <= i < 256 ==> #[trigger] acc.at(i) == spec_fold_at(
                    spec_vals_of(a@),
                    spec_vals_of(b@),
                    t as int,
                    i,
                ),
            decreases a@.len() - t,
        {
            let pa = vstd::slice::slice_index_get(a, t);
            let pb = vstd::slice::slice_index_get(b, t);
            let m = pa.mul_montgomery(pb);
            let ghost acc0 = acc;
            acc.add_assign(&m);
            proof {
                assert forall|i: int| 0 <= i < 256 implies #[trigger] acc.at(i) == spec_fold_at(
                    spec_vals_of(a@),
                    spec_vals_of(b@),
                    t + 1,
                    i,
                ) by {
                    assert(acc.at(i) == spec_bsum(acc0.at(i), m.at(i)));
                    assert(m.at(i) == spec_poly_mul_at(a@[t as int].vals(), b@[t as int].vals(), i));
                    assert(spec_vals_of(a@)[t as int] == a@[t as int].vals());
                    assert(spec_vals_of(b@)[t as int] == b@[t as int].vals());
                }
            }
            t += 1;
        }
        let r = acc.barrett_reduce();
        proof {
            assert forall|i: int| 0 <= i < 256 implies r.vals()[i] == spec_foldred_vals(
                spec_vals_of(a@),
                spec_vals_of(b@),
                a@.len() as int,
            )[i] by {
                assert(r.vals()[i] == r.at(i));
            }
            assert(r.vals() =~= spec_foldred_vals(
                spec_vals_of(a@),
                spec_vals_of(b@),
                a@.len() as int,
            ));
        }
        r
    }
}


/// One forward (Cooley-Tukey) butterfly layer at half-length `len`:
/// within each aligned group of 2*len coefficients, the lower half
/// becomes the reduced sum and the upper half the difference, the upper
/// operand first multiplied by the group's twiddle.
pub open spec fn spec_fwd_layer(c: Seq<int>, len: int) -> Seq<int> {
    Seq::new(256, |i: int| {
        let z = spec_zeta((128int / len + i / (2 * len)) as nat, 7);
        if i % (2 * len) < len {
            spec_bsum(c[i], spec_mont_mul(z, c[i + len]))
        } else {
            c[i - len] - spec_mont_mul(z, c[i])
        }
    })
}

/// The forward butterfly layers from half-length `len` down to 2.
pub open spec fn spec_fwd_layers(c: Seq<int>, len: int) -> Seq<int>
    decreases len,
{
    if len < 2 || len > 128 {
        c
    } else {
        spec_fwd_layers(spec_fwd_layer(c, len), len / 2)
    }
}

/// The forward transform: all seven butterfly layers, then a Barrett
/// reduction of every coefficient.
pub open spec fn spec_ntt_fwd(c: Seq<int>) -> Seq<int> {
    let d = spec_fwd_layers(c, 128);
    Seq::new(256, |i: int| spec_barrett_reduce(d[i]))
}

/// One inverse (Gentleman-Sande) butterfly layer at half-length `len`:
/// the lower half becomes the reduced sum, the upper half the difference
/// multiplied by the group's twiddle, taken from the table backwards.
pub open spec fn spec_inv_layer(c: Seq<int>, len: int) -> Seq<int> {
    Seq::new(256, |i: int| {
        let z = spec_zeta((256int / len - 1 - i / (2 * len)) as nat, 7);
        if i % (2 * len) < len {
            spec_bsum(c[i], c[i + len])
        } else {
            spec_mont_mul(z, c[i] - c[i - len])
        }
    })
}

/// The inverse butterfly layers from half-length `len` up to 128.
pub open spec fn spec_inv_layers(c: Seq<int>, len: int) -> Seq<int>
    decreases 256 - len,
{
    if len < 2 || len > 128 {
        c
    } else {
        spec_inv_layers(spec_inv_layer(c, len), 2 * len)
    }
}

/// The inverse transform: all seven butterfly layers, then every
/// coefficient multiplied by 2^32/128 mod q under Montgomery reduction.
pub open spec fn spec_ntt_inv(c: Seq<int>) -> Seq<int> {
    let d = spec_inv_layers(c, 2);
    Seq::new(256, |i: int| spec_mont_mul(d[i], 1441))
}

/// Unfolds one forward butterfly pair at positions j and j + len of the
/// group starting at `start`.
#[verifier::rlimit(100)]
proof fn lemma_fwd_layer_at(c: Seq<int>, len: int, start: int, j: int)
    requires
        1 <= len,
        0 <= start,
        start % (2 * len) == 0,
        start <= j < start + len,
        start + 2 * len <= 256,
    ensures
        spec_fwd_layer(c, len)[j] == spec_bsum(
            c[j],
            spec_mont_mul(spec_zeta((128int / len + start / (2 * len)) as nat, 7), c[j + len]),
        ),
        spec_fwd_layer(c, len)[j + len] == c[j] - spec_mont_mul(
            spec_zeta((128int / len + start / (2 * len)) as nat, 7),
            c[j + len],
        ),
{
    let w = 2 * len;
    vstd::arithmetic::div_mod::lemma_fundamental_div_mod(start, w);
    assert(start == w * (start / w));
    assert(j == (start / w) * w + (j - start)) by (nonlinear_arith)
        requires
            start == w * (start / w),
            j == start + (j - start),
    ;
    vstd::arithmetic::div_mod::lemma_fundamental_div_mod_converse(j, w, start / w, j - start);
    assert(j + len == (start / w) * w + (j + len - start)) by (nonlinear_arith)
        requires
            start == w * (start / w),
    ;
    vstd::arithmetic::div_mod::lemma_fundamental_div_mod_converse(
        j + len,
        w,
        start / w,
        j + len - start,
    );
    assert(j / w == start / w && j % w == j - start);
    assert((j + len) / w == start / w && (j + len) % w == j + len - start);
    assert(j % (2 * len) < len && (j + len) % (2 * len) >= len);
    assert(j / (2 * len) == start / (2 * len) && (j + len) / (2 * len) == start / (2 * len));
}

/// Unfolds one inverse butterfly pair at positions j and j + len of the
/// group starting at `start`.
#[verifier::rlimit(100)]
proof fn lemma_inv_layer_at(c: Seq<int>, len: int, start: int, j: int)
    requires
        1 <= len,
        0 <= start,
        start % (2 * len) == 0,
        start <= j < start + len,
        start + 2 * len <= 256,
    ensures
        spec_inv_layer(c, len)[j] == spec_bsum(c[j], c[j + len]),
        spec_inv_layer(c, len)[j + len] == spec_mont_mul(
            spec_zeta((256int / len - 1 - start / (2 * len)) as nat, 7),
            c[j + len] - c[j],
        ),
{
    let w = 2 * len;
    vstd::arithmetic::div_mod::lemma_fundamental_div_mod(start, w);
    assert(start == w * (start / w));
    assert(j == (start / w) * w + (j - start)) by (nonlinear_arith)
        requires
            start == w * (start / w),
            j == start + (j - start),
    ;
    vstd::arithmetic::div_mod::lemma_fundamental_div_mod_converse(j, w, start / w, j - start);
    assert(j + len == (start / w) * w + (j + len - start)) by (nonlinear_arith)
        requires
            start == w * (start / w),
    ;
    vstd::arithmetic::div_mod::lemma_fundamental_div_mod_converse(
        j + len,
        w,
        start / w,
        j + len - start,
    );
    assert(j / w == start / w && j % w == j - start);
    assert((j + len) / w == start / w && (j + len) % w == j + len - start);
    assert(j % (2 * len) < len && (j + len) % (2 * len) >= len);
    assert(j / (2 * len) == start / (2 * len) && (j + len) / (2 * len) == start / (2 * len));
}

impl Poly {
    /// The transform between the two domains: Cooley-Tukey butterflies on
    /// the way in (ending in a Barrett reduction), Gentleman-Sande
    /// butterflies and the final scaling by 2^32/128 on the way out.
    pub fn ntt(self) -> (r: Poly)
        requires
            self.wf(),
            self.bounded(-3328, 3328),
        ensures
            r.wf(),
            r.ntt_form == !self.ntt_form,
            r.bounded(-3328, 3328),
            !self.ntt_form ==> r.bounded(-1664, 1665),
            !self.ntt_form ==> r.vals() == spec_ntt_fwd(self.vals()),
            self.ntt_form ==> r.vals() == spec_ntt_inv(self.vals()),
    {
        if self.ntt_form {
            self.ntt_inverse()
        } else {
            self.ntt_forward()
        }
    }

    #[verifier::loop_isolation(false)]
    #[verifier::rlimit(100)]
    fn ntt_forward(self) -> (r: Poly)
        requires
            self.wf(),
            !self.ntt_form,
            self.bounded(-3328, 3328),
        ensures
            r.wf(),
            r.ntt_form,
            r.bounded(-1664, 1665),
            r.vals() == spec_ntt_fwd(self.vals()),
    {
        let mut c: Vec<i16> = self.c;
        let ghost orig: Seq<int> = spec_vals16(c@);
        let mut len: usize = 128;
        let mut k: usize = 1;
        let ghost mut layers: int = 0;
        proof {
            vstd::arithmetic::power2::lemma2_to64();
            assert(orig =~= self.vals());
            assert forall|i: int| 0 <= i < 256 implies -3328 <= (#[trigger] c@[i]) as int
                <= 3328 by {
                assert(self.at(i) == self.c@[i] as int);
            }
        }
        while len >= 2
            invariant
                c@.len() == 256,
                0 <= layers <= 7,
                len == pow2((7 - layers) as nat),
                1 <= len <= 128,
                k * len == 128,
                k <= 128,
                forall|i: int| 0 <= i < 256 ==> -3328 - 3329 * layers <= #[trigger] (c@[i]) as int
                    <= 3328 + 3329 * layers,
                spec_fwd_layers(spec_vals16(c@), len as int) == spec_fwd_layers(orig, 128),
            decreases len,
        {
            proof {
                if 7 - layers == 0 {
                    assert(len == 1);
                }
                assert(7 - layers >= 1);
                assert(layers <= 6);
                assert(k * 2 * len == 2 * (k * len)) by (nonlinear_arith);

                vstd::arithmetic::power2::lemma_pow2_unfold((8 - layers) as nat);
                assert(2 * len == pow2((8 - layers) as nat));
                assert(pow2((8 - layers) as nat) * pow2(layers as nat) == pow2(8)) by {
                    vstd::arithmetic::power2::lemma_pow2_adds((8 - layers) as nat, layers as nat);
                }
                assert((2 * len) * pow2(layers as nat) == 256);
                vstd::arithmetic::div_mod::lemma_mod_multiples_basic(
                    pow2(layers as nat) as int,
                    (2 * len) as int,
                );
                assert((pow2(layers as nat) * (2 * len)) % (2 * len) == 0);
                assert(256int % (2 * len) == 0) by {
                    assert(pow2(layers as nat) * (2 * len) == 256) by (nonlinear_arith)
                        requires
                            (2 * len) * pow2(layers as nat) == 256,
                    ;
                }
            }
            let ghost bnd: int = 3328 + 3329 * layers;
            let ghost layer_in: Seq<int> = spec_vals16(c@);
            let ghost layer: Seq<int> = spec_fwd_layer(layer_in, len as int);
            let mut start: usize = 0;
            while start < 256
                invariant
                    c@.len() == 256,
                    0 <= layers <= 6,
                    2 <= len <= 128,
                    bnd == 3328 + 3329 * layers,
                    start <= 256,
                    start as int % (2 * len) == 0,
                    256int % (2 * len) == 0,
                    k * 2 * len == 256 + start,
                    forall|i: int| 0 <= i < start ==> -bnd - 3329 <= #[trigger] (c@[i]) as int
                        <= bnd + 3329,
                    forall|i: int| start <= i < 256 ==> -bnd <= #[trigger] (c@[i]) as int <= bnd,
                    forall|i: int| 0 <= i < start ==> (#[trigger] c@[i]) as int == layer[i],
                    forall|i: int| start <= i < 256 ==> (#[trigger] c@[i]) as int == layer_in[i],
                decreases 256 - start,
            {
                proof {
                    assert(start + 2 * len <= 256) by (nonlinear_arith)
                        requires
                            start as int % (2 * len) == 0,
                            256int % (2 * len) == 0,
                            start < 256,
                            2 * len >= 1,
                    ;
                    assert(k <= 128) by (nonlinear_arith)
                        requires
                            k * 2 * len == 256 + start,
                            start <= 256,
                            2 * len >= 4,
                    ;
                }
                let ghost old_k: int = k as int;
                let ghost zidx: int = 128int / (len as int) + (start as int) / (2 * (len as int));
                proof {
                    let ll = len as int;
                    let w = 2 * ll;
                    let p = pow2(layers as nat) as int;
                    let qs = (start as int) / w;
                    assert(w * p == 256);
                    assert(ll * p == 128) by (nonlinear_arith)
                        requires
                            w == 2 * ll,
                            w * p == 256,
                    ;
                    vstd::arithmetic::div_mod::lemma_fundamental_div_mod_converse(128, ll, p, 0);
                    vstd::arithmetic::div_mod::lemma_fundamental_div_mod(start as int, w);
                    assert(start as int == w * qs);
                    assert(256 + start as int == (p + qs) * w + 0) by (nonlinear_arith)
                        requires
                            w * p == 256,
                            start as int == w * qs,
                    ;
                    vstd::arithmetic::div_mod::lemma_fundamental_div_mod_converse(
                        256 + start as int,
                        w,
                        p + qs,
                        0,
                    );
                    assert(256 + start as int == (k as int) * w + 0) by (nonlinear_arith)
                        requires
                            k * 2 * len == 256 + start,
                            w == 2 * ll,
                            ll == len as int,
                    ;
                    vstd::arithmetic::div_mod::lemma_fundamental_div_mod_converse(
                        256 + start as int,
                        w,
                        k as int,
                        0,
                    );
                    assert(k as int == p + qs);
                    assert(zidx == old_k);
                }
                let zeta = Coefficient::zeta(k, 7);
                proof {
                    assert(zeta.0 == spec_zeta(zidx as nat, 7));
                }
                k += 1;
                let mut j: usize = start;
                while j < start + len
                    invariant
                        c@.len() == 256,
                        2 <= len <= 128,
                        0 <= layers <= 6,
                        bnd == 3328 + 3329 * layers,
                        start + 2 * len <= 256,
                        start <= j <= start + len,
                        start as int % (2 * len) == 0,
                        -1664 <= zeta.0 <= 1664,
                        zeta.0 == spec_zeta(zidx as nat, 7),
                        zidx == 128int / (len as int) + (start as int) / (2 * (len as int)),
                        forall|i: int| 0 <= i < start ==> -bnd - 3329 <= #[trigger] (c@[i]) as int
                            <= bnd + 3329,
                        forall|i: int| start <= i < j ==> -1664 <= #[trigger] (c@[i]) as int
                            <= 1665,
                        forall|i: int| j <= i < start + len ==> -bnd <= #[trigger] (c@[i]) as int
                            <= bnd,
                        forall|i: int| start + len <= i < j + len ==> -bnd - 3329 <= #[trigger] (
                        c@[i]) as int <= bnd + 3329,
                        forall|i: int| j + len <= i < 256 ==> -bnd <= #[trigger] (c@[i]) as int
                            <= bnd,
                        forall|i: int| 0 <= i < start ==> (#[trigger] c@[i]) as int == layer[i],
                        forall|i: int| start <= i < j ==> (#[trigger] c@[i]) as int == layer[i],
                        forall|i: int| j <= i < start + len ==> (#[trigger] c@[i]) as int
                            == layer_in[i],
                        forall|i: int| start + len <= i < j + len ==> (#[trigger] c@[i]) as int
                            == layer[i],
                        forall|i: int| j + len <= i < 256 ==> (#[trigger] c@[i]) as int
                            == layer_in[i],
                    decreases start + len - j,
                {
                    let v = Coefficient(c[j + len]);
                    proof {
                        assert(-26631 * 1664 <= zeta.0 * v.0 <= 26631 * 1664) by (nonlinear_arith)
                            requires
                                -1664 <= zeta.0 <= 1664,
                                -26631 <= v.0 <= 26631,
                        ;
                        lemma_fwd_layer_at(layer_in, len as int, start as int, j as int);
                    }
                    let t = zeta.mul(v);
                    let rj = Coefficient(c[j]);
                    c[j + len] = rj.sub(t).0;
                    c[j] = rj.add(t).0;
                    proof {
                        assert((c@[j as int]) as int == layer[j as int]);
                        assert((c@[j + len]) as int == layer[j + len]);
                    }
                    j += 1;
                }
                let ghost old_start: int = start as int;
                start = j + len;
                proof {
                    assert(start == old_start + 2 * len);
                    vstd::arithmetic::div_mod::lemma_mod_add_multiples_vanish(
                        old_start,
                        (2 * len) as int,
                    );
                    assert(start as int % (2 * len) == 0);
                    assert(k * 2 * len == 256 + start) by (nonlinear_arith)
                        requires
                            k == old_k + 1,
                            old_k * 2 * len == 256 + old_start,
                            start == old_start + 2 * len,
                    ;
                }
            }
            proof {
                assert(spec_vals16(c@) =~= layer);
            }
            let ghost old_len: int = len as int;
            len = len / 2;
            proof {
                vstd::arithmetic::power2::lemma_pow2_unfold((7 - layers) as nat);
                layers = layers + 1;
                assert(len == pow2((7 - layers) as nat));
                assert(old_len == 2 * len);
                assert(k * len == 128 && k <= 128) by (nonlinear_arith)
                    requires
                        k * 2 * old_len == 512,
                        old_len == 2 * len,
                        len >= 1,
                ;
                assert(spec_fwd_layers(layer_in, old_len) == spec_fwd_layers(layer, old_len / 2));
            }
        }
        proof {
            assert(len == 1);
            assert(spec_fwd_layers(spec_vals16(c@), 1) == spec_vals16(c@));
        }
        let p = Poly { c, ntt_form: true };
        let r = p.barrett_reduce();
        proof {
            assert forall|i: int| 0 <= i < 256 implies r.vals()[i] == spec_ntt_fwd(
                self.vals(),
            )[i] by {
                assert(r.at(i) == spec_barrett_reduce(p.at(i)));
                assert(p.at(i) == spec_vals16(p.c@)[i]);
            }
            assert(r.vals() =~= spec_ntt_fwd(self.vals()));
        }
        r
    }

    #[verifier::loop_isolation(false)]
    #[verifier::rlimit(100)]
    fn ntt_inverse(self) -> (r: Poly)
        requires
            self.wf(),
            self.ntt_form,
            self.bounded(-3328, 3328),
        ensures
            r.wf(),
            !r.ntt_form,
            r.bounded(-3328, 3328),
            r.vals() == spec_ntt_inv(self.vals()),
    {
        let mut c: Vec<i16> = self.c;
        let ghost orig: Seq<int> = spec_vals16(c@);
        let mut len: usize = 2;
        let mut k: usize = 127;
        let ghost mut layers: int = 0;
        proof {
            vstd::arithmetic::power2::lemma2_to64();
            assert(orig =~= self.vals());
            assert forall|i: int| 0 <= i < 256 implies -3328 <= (#[trigger] c@[i]) as int
                <= 3328 by {
                assert(self.at(i) == self.c@[i] as int);
            }
        }
        while len <= 128
            invariant
                c@.len() == 256,
                0 <= layers <= 7,
                len == pow2((layers + 1) as nat),
                2 <= len <= 256,
                (k + 1) * len == 256,
                k <= 127,
                forall|i: int| 0 <= i < 256 ==> -3328 <= #[trigger] (c@[i]) as int <= 3328,
                spec_inv_layers(spec_vals16(c@), len as int) == spec_inv_layers(orig, 2),
            decreases 256 - len,
        {
            proof {
                assert(layers <= 6) by {
                    if layers >= 7 {
                        vstd::arithmetic::power2::lemma_pow2_strictly_increases(
                            8,
                            (layers + 1) as nat,
                        );
                    }
                }
                assert((k + 1) * 2 * len == 2 * ((k + 1) * len)) by (nonlinear_arith);
                vstd::arithmetic::power2::lemma_pow2_adds((layers + 2) as nat, (6 - layers) as nat);
                vstd::arithmetic::power2::lemma_pow2_unfold((layers + 2) as nat);
                assert((2 * len) * pow2((6 - layers) as nat) == 256);
                vstd::arithmetic::div_mod::lemma_mod_multiples_basic(
                    pow2((6 - layers) as nat) as int,
                    (2 * len) as int,
                );
                assert(256int % (2 * len) == 0) by {
                    assert(pow2((6 - layers) as nat) * (2 * len) == 256) by (nonlinear_arith)
                        requires
                            (2 * len) * pow2((6 - layers) as nat) == 256,
                    ;
                }
            }
            let ghost layer_in: Seq<int> = spec_vals16(c@);
            let ghost layer: Seq<int> = spec_inv_layer(layer_in, len as int);
            let mut start: usize = 0;
            while start < 256
                invariant
                    c@.len() == 256,
                    0 <= layers <= 6,
                    2 <= len <= 128,
                    start <= 256,
                    start as int % (2 * len) == 0,
                    256int % (2 * len) == 0,
                    (k + 1) * 2 * len == 512 - start,
                    forall|i: int| 0 <= i < 256 ==> -3328 <= #[trigger] (c@[i]) as int <= 3328,
                    forall|i: int| 0 <= i < start ==> (#[trigger] c@[i]) as int == layer[i],
                    forall|i: int| start <= i < 256 ==> (#[trigger] c@[i]) as int == layer_in[i],
                decreases 256 - start,
            {
                proof {
                    assert(start + 2 * len <= 256) by (nonlinear_arith)
                        requires
                            start as int % (2 * len) == 0,
                            256int % (2 * len) == 0,
                            start < 256,
                            2 * len >= 1,
                    ;
                    assert(k >= 1 && k <= 127) by (nonlinear_arith)
                        requires
                            (k + 1) * 2 * len == 512 - start,
                            start < 256,
                            start >= 0,
                            4 <= 2 * len <= 256,
                    ;
                }
                let ghost old_k: int = k as int;
                let ghost zidx: int = 256int / (len as int) - 1 - (start as int) / (2 * (len as int));
                proof {
                    let ll = len as int;
                    let w = 2 * ll;
                    let p6 = pow2((6 - layers) as nat) as int;
                    let qs = (start as int) / w;
                    assert(w * p6 == 256);
                    assert(ll * (2 * p6) == 256) by (nonlinear_arith)
                        requires
                            w == 2 * ll,
                            w * p6 == 256,
                    ;
                    vstd::arithmetic::div_mod::lemma_fundamental_div_mod_converse(
                        256,
                        ll,
                        2 * p6,
                        0,
                    );
                    vstd::arithmetic::div_mod::lemma_fundamental_div_mod(start as int, w);
                    assert(start as int == w * qs);
                    assert(512 == ((k as int) + 1 + qs) * w + 0) by (nonlinear_arith)
                        requires
                            (k + 1) * 2 * len == 512 - start,
                            w == 2 * ll,
                            ll == len as int,
                            start as int == w * qs,
                    ;
                    vstd::arithmetic::div_mod::lemma_fundamental_div_mod_converse(
                        512,
                        w,
                        (k as int) + 1 + qs,
                        0,
                    );
                    assert(512 == (2 * p6) * w + 0) by (nonlinear_arith)
                        requires
                            w * p6 == 256,
                    ;
                    vstd::arithmetic::div_mod::lemma_fundamental_div_mod_converse(
                        512,
                        w,
                        2 * p6,
                        0,
                    );
                    assert((k as int) + 1 + qs == 2 * p6);
                    assert(zidx == old_k);
                }
                let zeta = Coefficient::zeta(k, 7);
                proof {
                    assert(zeta.0 == spec_zeta(zidx as nat, 7));
                }
                k -= 1;
                let mut j: usize = start;
                while j < start + len
                    invariant
                        c@.len() == 256,
                        2 <= len <= 128,
                        start + 2 * len <= 256,
                        start <= j <= start + len,
                        start as int % (2 * len) == 0,
                        -1664 <= zeta.0 <= 1664,
                        zeta.0 == spec_zeta(zidx as nat, 7),
                        zidx == 256int / (len as int) - 1 - (start as int) / (2 * (len as int)),
                        forall|i: int| 0 <= i < 256 ==> -3328 <= #[trigger] (c@[i]) as int <= 3328,
                        forall|i: int| 0 <= i < start ==> (#[trigger] c@[i]) as int == layer[i],
                        forall|i: int| start <= i < j ==> (#[trigger] c@[i]) as int == layer[i],
                        forall|i: int| j <= i < start + len ==> (#[trigger] c@[i]) as int
                            == layer_in[i],
                        forall|i: int| start + len <= i < j + len ==> (#[trigger] c@[i]) as int
                            == layer[i],
                        forall|i: int| j + len <= i < 256 ==> (#[trigger] c@[i]) as int
                            == layer_in[i],
                    decreases start + len - j,
                {
                    proof {
                        lemma_inv_layer_at(layer_in, len as int, start as int, j as int);
                    }
                    let t = Coefficient(c[j]);
                    let v = Coefficient(c[j + len]);
                    c[j] = t.add(v).0;
                    let d = v.sub(t);
                    proof {
                        assert(-6656 * 1664 <= zeta.0 * d.0 <= 6656 * 1664) by (nonlinear_arith)
                            requires
                                -1664 <= zeta.0 <= 1664,
                                -6656 <= d.0 <= 6656,
                        ;
                    }
                    c[j + len] = zeta.mul(d).0;
                    proof {
                        assert((c@[j as int]) as int == layer[j as int]);
                        assert((c@[j + len]) as int == layer[j + len]);
                    }
                    j += 1;
                }
                let ghost old_start: int = start as int;
                start = j + len;
                proof {
                    assert(start == old_start + 2 * len);
                    vstd::arithmetic::div_mod::lemma_mod_add_multiples_vanish(
                        old_start,
                        (2 * len) as int,
                    );
                    assert(start as int % (2 * len) == 0);
                    assert((k + 1) * 2 * len == 512 - start) by (nonlinear_arith)
                        requires
                            k == old_k - 1,
                            (old_k + 1) * 2 * len == 512 - old_start,
                            start == old_start + 2 * len,
                    ;
                }
            }
            proof {
                assert(spec_vals16(c@) =~= layer);
            }
            let ghost old_len: int = len as int;
            len = len * 2;
            proof {
                layers = layers + 1;
                vstd::arithmetic::power2::lemma_pow2_unfold((layers + 1) as nat);
                assert(len == pow2((layers + 1) as nat));
                assert((k + 1) * len == 256 && k <= 127) by (nonlinear_arith)
                    requires
                        (k + 1) * 2 * (len / 2) == 256,
                        len == 2 * (len / 2),
                        len / 2 >= 2,
                ;
                assert(spec_inv_layers(layer_in, old_len) == spec_inv_layers(layer, 2 * old_len));
            }
        }
        proof {
            assert(len == 256);
            assert(spec_inv_layers(spec_vals16(c@), 256) == spec_vals16(c@));
        }
        let ghost pre_f: Seq<int> = spec_vals16(c@);
        let mut i: usize = 0;
        while i < 256
            invariant
                c@.len() == 256,
                i <= 256,
                forall|t: int| 0 <= t < 256 ==> -3328 <= #[trigger] (c@[t]) as int <= 3328,
                forall|t: int| 0 <= t < i ==> (#[trigger] c@[t]) as int == spec_mont_mul(
                    pre_f[t],
                    1441,
                ),
                forall|t: int| i <= t < 256 ==> (#[trigger] c@[t]) as int == pre_f[t],
            decreases 256 - i,
        {
            let v = Coefficient(c[i]);
            c[i] = v.mul(Coefficient(crate::coefficient::F)).0;
            i += 1;
        }
        let r = Poly { c, ntt_form: false };
        proof {
            assert(r.vals() =~= spec_ntt_inv(self.vals()));
        }
        r
    }
}


/// What uniform rejection sampling returns for a given XOF input: the
/// first 256 accepted 12-bit candidates, zero-padded in the statistically
/// impossible case that the bounded stream prefix holds fewer.
pub open spec fn spec_uniform_vals(input: Seq<u8>) -> Seq<int> {
    let acc = spec_accepted(input, XOF_WORDS as int);
    Seq::new(
        256,
        |t: int|
            if t < acc.len() {
                acc[t] as int
            } else {
                0
            },
    )
}

/// A polynomial holds exactly the uniform sample for this XOF input.
pub open spec fn spec_uniform_sample(p: Poly, input: Seq<u8>) -> bool {
    p.vals() == spec_uniform_vals(input)
}

impl Poly {
    /// Samples an NTT-domain polynomial uniformly by rejection from the
    /// SHAKE-128 stream keyed with seed and the two matrix indices: 12-bit
    /// candidates are accepted when below q, until 256 are found. Should
    /// the bounded stream prefix run out of accepted words first (a
    /// statistical impossibility), the remaining coefficients are zero.
    pub fn get_uniform(seed: &[u8], i: usize, j: usize) -> (r: Poly)
        requires
            seed@.len() == 32,
            i < 256,
            j < 256,
        ensures
            r.wf(),
            r.ntt_form,
            r.bounded(0, 3328),
            spec_uniform_sample(r, seed@.push(i as u8).push(j as u8)),
    {
        let ghost input: Seq<u8> = seed@.push(i as u8).push(j as u8);
        let mut buf = Buf::new(seed, i as u8, j as u8);
        let mut c: Vec<i16> = Vec::new();
        while c.len() < 256 && buf.widx < XOF_WORDS
            invariant
                buf.wf(),
                buf.input@ == input,
                buf.widx <= XOF_WORDS,
                c@.len() <= 256,
                c@.len() <= spec_accepted(input, buf.widx as int).len(),
                c@.len() == 256 || c@.len() == spec_accepted(input, buf.widx as int).len(),
                forall|t: int| 0 <= t < c@.len() ==> #[trigger] (c@[t] as int) == spec_accepted(
                    input,
                    buf.widx as int,
                )[t] as int,
                forall|t: int| 0 <= t < c@.len() ==> 0 <= #[trigger] (c@[t] as int) <= 3328,
            decreases XOF_WORDS - buf.widx,
        {
            let ghost w0 = buf.widx as int;
            let w = buf.next();
            proof {
                lemma_accepted_prefix(input, w0, w0 + 1);
                assert(spec_accepted(input, w0 + 1) == if spec_xof_word(input, w0) < 3329 {
                    spec_accepted(input, w0).push(spec_xof_word(input, w0))
                } else {
                    spec_accepted(input, w0)
                });
            }
            if w < 3329 {
                c.push(w as i16);
            }
        }
        proof {
            if c@.len() == 256 {
                lemma_accepted_prefix(input, buf.widx as int, XOF_WORDS as int);
            } else {
                assert(buf.widx == XOF_WORDS);
            }
        }
        let ghost acc: Seq<u16> = spec_accepted(input, XOF_WORDS as int);
        let ghost filled: int = c@.len() as int;
        proof {
            assert(filled <= acc.len());
            assert(filled == 256 || filled == acc.len());
            assert forall|t: int| 0 <= t < filled implies (#[trigger] c@[t]) as int
                == acc[t] as int by {
                assert(c@[t] as int == spec_accepted(input, buf.widx as int)[t] as int);
            }
        }
        while c.len() < 256
            invariant
                0 <= filled <= c@.len() <= 256,
                filled <= acc.len(),
                forall|t: int| 0 <= t < filled ==> (#[trigger] c@[t]) as int == acc[t] as int,
                forall|t: int| 0 <= t < filled ==> 0 <= #[trigger] (c@[t] as int) <= 3328,
                forall|t: int| filled <= t < c@.len() ==> #[trigger] (c@[t] as int) == 0,
            decreases 256 - c@.len(),
        {
            c.push(0i16);
        }
        let r = Poly { c, ntt_form: true };
        proof {
            if acc.len() >= 256 {
                assert(filled == 256);
            } else {
                assert(filled == acc.len());
            }
            assert forall|t: int| 0 <= t < 256 implies r.vals()[t] == spec_uniform_vals(
                input,
            )[t] by {
                assert(r.at(t) == c@[t]);
                if t < acc.len() {
                    assert(t < filled);
                } else {
                    assert(filled <= t);
                }
            }
            assert(r.vals() =~= spec_uniform_vals(input));
        }
        r
    }

    /// Samples a coefficient-domain noise polynomial from the centered
    /// binomial distribution: SHAKE-256 keyed with seed and nonce supplies
    /// the bytes, 4 per block at eta = 2 and 6 per block at eta = 3.
    pub fn get_noise(seed: &[u8], nonce: u8, per_block: usize) -> (r: Poly)
        requires
            seed@.len() == 32,
            per_block == 4 || per_block == 6,
        ensures
            r.wf(),
            !r.ntt_form,
            r.bounded(-7, 7),
            r.vals() == spec_noise_vals(seed@, nonce, per_block as int),
    {
        let mut input: Vec<u8> = Vec::new();
        let mut t: usize = 0;
        while t < 32
            invariant
                seed@.len() == 32,
                t <= 32,
                input@.len() == t,
                forall|u: int| 0 <= u < t ==> #[trigger] input@[u] == seed@[u],
            decreases 32 - t,
        {
            input.push(seed[t]);
            t += 1;
        }
        input.push(nonce);
        proof {
            assert(input@ =~= seed@.push(nonce));
        }
        let bytes = shake256(input.as_slice(), 32 * per_block);
        let mut c: Vec<i16> = Vec::new();
        let mut b: usize = 0;
        while b < 32
            invariant
                per_block == 4 || per_block == 6,
                bytes@.len() == 32 * per_block,
                bytes@ == shake256_of(seed@.push(nonce), (32 * per_block) as int),
                b <= 32,
                c@.len() == 8 * b,
                per_block == 4 ==> forall|i: int| 0 <= i < 8 * b ==> #[trigger] (c@[i] as int)
                    == spec_cbd2(bytes@.subrange(4 * (i / 8), 4 * (i / 8) + 4), i % 8),
                per_block == 6 ==> forall|i: int| 0 <= i < 8 * b ==> #[trigger] (c@[i] as int)
                    == spec_cbd3(bytes@.subrange(6 * (i / 8), 6 * (i / 8) + 6), i % 8),
                forall|i: int| 0 <= i < 8 * b ==> -7 <= #[trigger] (c@[i] as int) <= 7,
            decreases 32 - b,
        {
            let chunk = slice_subrange(bytes.as_slice(), per_block * b, per_block * b + per_block);
            let blk = PolyBlock::cbd(chunk);
            let ghost c0 = c@;
            let mut j: usize = 0;
            while j < 8
                invariant
                    per_block == 4 || per_block == 6,
                    j <= 8,
                    b < 32,
                    c@.len() == 8 * b + j,
                    c@.subrange(0, 8 * (b as int)) == c0,
                    c0.len() == 8 * b,
                    chunk@ == bytes@.subrange(
                        (per_block * b) as int,
                        (per_block * b + per_block) as int,
                    ),
                    chunk@.len() == per_block,
                    per_block == 4 ==> forall|jj: int| 0 <= jj < 8 ==> #[trigger] blk.c(jj)
                        == spec_cbd2(chunk@, jj),
                    per_block == 6 ==> forall|jj: int| 0 <= jj < 8 ==> #[trigger] blk.c(jj)
                        == spec_cbd3(chunk@, jj),
                    blk.bounded(-7, 7),
                    forall|jj: int| 0 <= jj < j ==> #[trigger] (c@[8 * b + jj] as int) == blk.c(
                        jj,
                    ),
                decreases 8 - j,
            {
                c.push(blk.0[j].0);
                j += 1;
            }
            proof {
                assert forall|i: int| 0 <= i < 8 * (b + 1) implies -7 <= (#[trigger] c@[i]) as int
                    <= 7 by {
                    if i < 8 * b {
                        assert(c@.subrange(0, 8 * (b as int))[i] == c@[i]);
                        assert(c0[i] == c@[i]);
                    } else {
                        assert(c@[8 * b + (i - 8 * b)] as int == blk.c(i - 8 * b));
                    }
                }
                assert forall|i: int| 0 <= i < 8 * (b + 1) && per_block == 4 implies (
                #[trigger] c@[i]) as int == spec_cbd2(
                    bytes@.subrange(4 * (i / 8), 4 * (i / 8) + 4),
                    i % 8,
                ) by {
                    if i < 8 * b {
                        assert(c@.subrange(0, 8 * (b as int))[i] == c@[i]);
                        assert(c0[i] == c@[i]);
                    } else {
                        let jj = i - 8 * b;
                        assert(c@[8 * b + jj] as int == blk.c(jj));
                        assert(i / 8 == b as int && i % 8 == jj);
                    }
                }
                assert forall|i: int| 0 <= i < 8 * (b + 1) && per_block == 6 implies (
                #[trigger] c@[i]) as int == spec_cbd3(
                    bytes@.subrange(6 * (i / 8), 6 * (i / 8) + 6),
                    i % 8,
                ) by {
                    if i < 8 * b {
                        assert(c@.subrange(0, 8 * (b as int))[i] == c@[i]);
                        assert(c0[i] == c@[i]);
                    } else {
                        let jj = i - 8 * b;
                        assert(c@[8 * b + jj] as int == blk.c(jj));
                        assert(i / 8 == b as int && i % 8 == jj);
                    }
                }
            }
            b += 1;
        }
        let r = Poly { c, ntt_form: false };
        proof {
            assert forall|i: int| 0 <= i < 256 implies -7 <= #[trigger] r.at(i) <= 7 by {
                assert(r.at(i) == r.c@[i]);
            }
            assert forall|i: int| 0 <= i < 256 implies r.vals()[i] == spec_noise_vals(
                seed@,
                nonce,
                per_block as int,
            )[i] by {
                assert(r.at(i) == r.c@[i]);
            }
            assert(r.vals() =~= spec_noise_vals(seed@, nonce, per_block as int));
        }
        r
    }
}


impl Poly {
    /// An exact copy; coefficient vectors carry secret data, so copies are
    /// made only deliberately.
    pub fn duplicate(&self) -> (r: Poly)
        ensures
            r.c@ == self.c@,
            r.ntt_form == self.ntt_form,
    {
        let mut c: Vec<i16> = Vec::new();
        let mut i: usize = 0;
        while i < self.c.len()
            invariant
                i <= self.c@.len(),
                c@.len() == i,
                forall|j: int| 0 <= j < i ==> #[trigger] c@[j] == self.c@[j],
            decreases self.c@.len() - i,
        {
            c.push(self.c[i]);
            i += 1;
        }
        proof {
            assert(c@ =~= self.c@);
        }
        Poly { c, ntt_form: self.ntt_form }
    }
}

} // verus!
