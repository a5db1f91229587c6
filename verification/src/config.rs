//! The parameter set: the module rank k picks the noise width for the
//! key-pair secrets, and the compression rates du (vector) and dv (single
//! polynomial) for ciphertexts.

use vstd::prelude::*;
use crate::coefficient::{Coefficient, spec_compress, spec_pack};
use crate::poly::Poly;
use crate::block::{spec_cbyte, spec_dword};
use crate::poly::spec_noise_vals;
use crate::ct::ct_eq_u16;
use crate::coefficient::spec_decompress;

verus! {

/// A parameter set, indexed by the module rank k (2, 3 or 4).
#[derive(Clone, Copy, PartialEq, Eq, Structural)]
pub struct Dim {
    pub k: usize,
}

impl Dim {
    /// Only ranks 2, 3 and 4 are standardized.
    pub open spec fn wf(&self) -> bool {
        self.k == 2 || self.k == 3 || self.k == 4
    }

    /// Bytes of noise per coefficient block for the key-pair secret and
    /// error: 6 at eta = 3 (rank 2), 4 at eta = 2 (ranks 3 and 4).
    pub open spec fn spec_noise_bytes(&self) -> int {
        if self.k == 2 {
            6
        } else {
            4
        }
    }

    /// The vector compression rate du.
    pub open spec fn spec_du(&self) -> u32 {
        if self.k == 4 {
            11
        } else {
            10
        }
    }

    /// The single-polynomial compression rate dv.
    pub open spec fn spec_dv(&self) -> u32 {
        if self.k == 4 {
            5
        } else {
            4
        }
    }

    /// Serialized length of one du-compressed polynomial.
    pub fn compressed_size(&self) -> (r: usize)
        requires
            self.wf(),
        ensures
            r == 32 * self.spec_du(),
    {
        if self.k == 4 {
            352
        } else {
            320
        }
    }

    /// Serialized length of the dv-compressed polynomial.
    pub fn compressed_size_v(&self) -> (r: usize)
        requires
            self.wf(),
        ensures
            r == 32 * self.spec_dv(),
    {
        if self.k == 4 {
            160
        } else {
            128
        }
    }

    /// Noise sampling at the parameter set's eta for secrets and errors.
    pub fn get_noise(&self, seed: &[u8], nonce: u8) -> (r: Poly)
        requires
            self.wf(),
            seed@.len() == 32,
        ensures
            r.wf(),
            !r.ntt_form,
            r.bounded(-7, 7),
            r.vals() == spec_noise_vals(seed@, nonce, self.spec_noise_bytes()),
    {
        if self.k == 2 {
            Poly::get_noise(seed, nonce, 6)
        } else {
            Poly::get_noise(seed, nonce, 4)
        }
    }

    /// du-bit serialization of one ciphertext-vector polynomial.
    pub fn compress_vec(&self, p: &Poly) -> (r: Vec<u8>)
        requires
            self.wf(),
            p.wf(),
            p.bounded(-3329, 3328),
        ensures
            r@.len() == 32 * self.spec_du(),
            forall|k: int| 0 <= k < r@.len() ==> #[trigger] (r@[k] as int) == spec_cbyte(
                self.spec_du(),
                p.cvblk(self.spec_du(), k / (self.spec_du() as int)),
                k % (self.spec_du() as int),
            ),
    {
        if self.k == 4 {
            p.compress::<11>()
        } else {
            p.compress::<10>()
        }
    }

    /// Reads back a du-bit serialized polynomial.
    pub fn decompress_vec(&self, bytes: &[u8]) -> (r: Poly)
        requires
            self.wf(),
            bytes@.len() == 32 * self.spec_du(),
        ensures
            r.wf(),
            !r.ntt_form,
            r.bounded(0, 3328),
            forall|i: int| 0 <= i < 256 ==> #[trigger] r.at(i) == spec_decompress(
                self.spec_du(),
                spec_dword(
                    self.spec_du(),
                    bytes@.subrange(
                        (self.spec_du() as int) * (i / 8),
                        (self.spec_du() as int) * (i / 8) + self.spec_du(),
                    ),
                    i % 8,
                ),
            ),
    {
        if self.k == 4 {
            Poly::decompress::<11>(bytes)
        } else {
            Poly::decompress::<10>(bytes)
        }
    }

    /// dv-bit serialization of the second ciphertext polynomial.
    pub fn compress(&self, p: &Poly) -> (r: Vec<u8>)
        requires
            self.wf(),
            p.wf(),
            p.bounded(-3329, 3328),
        ensures
            r@.len() == 32 * self.spec_dv(),
            forall|k: int| 0 <= k < r@.len() ==> #[trigger] (r@[k] as int) == spec_cbyte(
                self.spec_dv(),
                p.cvblk(self.spec_dv(), k / (self.spec_dv() as int)),
                k % (self.spec_dv() as int),
            ),
    {
        if self.k == 4 {
            p.compress::<5>()
        } else {
            p.compress::<4>()
        }
    }

    /// Reads back a dv-bit serialized polynomial.
    pub fn decompress(&self, bytes: &[u8]) -> (r: Poly)
        requires
            self.wf(),
            bytes@.len() == 32 * self.spec_dv(),
        ensures
            r.wf(),
            !r.ntt_form,
            r.bounded(0, 3328),
            forall|i: int| 0 <= i < 256 ==> #[trigger] r.at(i) == spec_decompress(
                self.spec_dv(),
                spec_dword(
                    self.spec_dv(),
                    bytes@.subrange(
                        (self.spec_dv() as int) * (i / 8),
                        (self.spec_dv() as int) * (i / 8) + self.spec_dv(),
                    ),
                    i % 8,
                ),
            ),
    {
        if self.k == 4 {
            Poly::decompress::<5>(bytes)
        } else {
            Poly::decompress::<4>(bytes)
        }
    }

    /// Constant-time equality of two coefficients under du-bit
    /// compression.
    pub fn compare_vec(&self, lhs: &Coefficient, rhs: &Coefficient) -> (r: u8)
        requires
            self.wf(),
            -3329 <= lhs.0 < 3329,
            -3329 <= rhs.0 < 3329,
        ensures
            r == 1 || r == 0,
            (r == 1) <==> spec_compress(self.spec_du(), spec_pack(lhs.0 as int)) == spec_compress(
                self.spec_du(),
                spec_pack(rhs.0 as int),
            ),
    {
        if self.k == 4 {
            ct_eq_u16(lhs.compress::<11>(), rhs.compress::<11>())
        } else {
            ct_eq_u16(lhs.compress::<10>(), rhs.compress::<10>())
        }
    }

    /// Constant-time equality of two coefficients under dv-bit
    /// compression.
    pub fn compare(&self, lhs: &Coefficient, rhs: &Coefficient) -> (r: u8)
        requires
            self.wf(),
            -3329 <= lhs.0 < 3329,
            -3329 <= rhs.0 < 3329,
        ensures
            r == 1 || r == 0,
            (r == 1) <==> spec_compress(self.spec_dv(), spec_pack(lhs.0 as int)) == spec_compress(
                self.spec_dv(),
                spec_pack(rhs.0 as int),
            ),
    {
        if self.k == 4 {
            ct_eq_u16(lhs.compress::<5>(), rhs.compress::<5>())
        } else {
            ct_eq_u16(lhs.compress::<4>(), rhs.compress::<4>())
        }
    }
}

} // verus!
