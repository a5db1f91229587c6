//! The IND-CPA public-key encryption over a module of rank k: key
//! generation, encryption and decryption, with serialization of keys and
//! ciphertexts.

use vstd::prelude::*;
use vstd::slice::slice_subrange;
use crate::coefficient::{Coefficient, spec_compress, spec_decompress, spec_pack};
use crate::block::{spec_byte12, spec_cbyte, spec_dword, spec_word12};
use crate::poly::{Poly, spec_bar_vals, spec_bsum_vals, spec_foldred_vals, spec_mont_vals, spec_msg_vals, spec_noise_vals, spec_ntt_fwd, spec_ntt_inv, spec_sub_vals, spec_to_msg, spec_uniform_sample, spec_vals_of};
use crate::config::Dim;
use crate::hashes::{sha3_512, sha3_512_of};
use crate::ct::{wipe_bytes, wipe_i16s};

verus! {

/// The 12-bit serialization of one polynomial.
pub open spec fn spec_poly_bytes(p: Poly) -> Seq<u8> {
    Seq::new(384, |k: int| spec_byte12(p.blk(k / 12), k % 12) as u8)
}

/// The concatenated 12-bit serializations of the first n polynomials.
pub open spec fn spec_pv_bytes(v: Seq<Poly>, n: int) -> Seq<u8>
    decreases n,
{
    if n <= 0 {
        Seq::empty()
    } else {
        spec_pv_bytes(v, n - 1) + spec_poly_bytes(v[n - 1])
    }
}

/// The X-bit compressed serialization of one polynomial.
pub open spec fn spec_poly_compressed(p: Poly, x: u32) -> Seq<u8> {
    Seq::new((32 * (x as int)) as nat, |k: int| spec_cbyte(x, p.cvblk(x, k / (x as int)), k % (x as int)) as u8)
}

/// The concatenated X-bit serializations of the first n polynomials.
pub open spec fn spec_ctv_bytes(v: Seq<Poly>, n: int, x: u32) -> Seq<u8>
    decreases n,
{
    if n <= 0 {
        Seq::empty()
    } else {
        spec_ctv_bytes(v, n - 1, x) + spec_poly_compressed(v[n - 1], x)
    }
}

/// A polynomial read back from an X-bit serialization of these bytes.
pub open spec fn spec_poly_from_compressed(p: Poly, bytes: Seq<u8>, x: u32) -> bool {
    forall|i: int| 0 <= i < 256 ==> #[trigger] p.at(i) == spec_decompress(
        x,
        spec_dword(x, bytes.subrange((x as int) * (i / 8), (x as int) * (i / 8) + x), i % 8),
    )
}

/// A polynomial read back from a 12-bit serialization of these bytes.
pub open spec fn spec_poly_from_bytes(p: Poly, bytes: Seq<u8>) -> bool {
    forall|i: int| 0 <= i < 256 ==> #[trigger] p.at(i) == spec_word12(
        bytes.subrange(12 * (i / 8), 12 * (i / 8) + 12),
        i % 8,
    )
}

/// The NTT-domain noise vector drawn from the PRF: entry j is the
/// forward transform of the centered binomial sample at nonce j.
pub open spec fn spec_sp_vals(noise_seed: Seq<u8>, k: int, nb: int) -> Seq<Seq<int>> {
    Seq::new(k as nat, |j: int| spec_ntt_fwd(spec_noise_vals(noise_seed, j as u8, nb)))
}

/// Column i of the cached matrix, as coefficient values.
pub open spec fn spec_matrix_col(m: Seq<Vec<Poly>>, i: int, k: int) -> Seq<Seq<int>> {
    Seq::new(k as nat, |j: int| m[j]@[i].vals())
}

/// t̃_i of key generation: the inner product of matrix column i with s̃,
/// rescaled by 2^32 mod q, plus the error polynomial, Barrett-reduced.
pub open spec fn spec_t_vals(col: Seq<Seq<int>>, sk: Seq<Seq<int>>, e: Seq<int>, k: int) -> Seq<
    int,
> {
    spec_bar_vals(spec_bsum_vals(spec_mont_vals(spec_foldred_vals(col, sk, k)), e))
}

/// u_i of encryption: the inverse transform of the inner product of
/// matrix row i with r̃, plus the error e1_i, Barrett-reduced.
pub open spec fn spec_u_vals(row: Seq<Seq<int>>, sp: Seq<Seq<int>>, e1: Seq<int>, k: int) -> Seq<
    int,
> {
    spec_bar_vals(spec_bsum_vals(spec_ntt_inv(spec_foldred_vals(row, sp, k)), e1))
}

/// v of encryption: the inverse transform of the inner product of t̃
/// with r̃, plus e2 and the encoded message, each sum Barrett-reduced.
pub open spec fn spec_v_vals(tv: Seq<Seq<int>>, sp: Seq<Seq<int>>, e2: Seq<int>, msg: Seq<u8>, k:
    int) -> Seq<int> {
    spec_bsum_vals(
        spec_bsum_vals(spec_ntt_inv(spec_foldred_vals(tv, sp, k)), e2),
        spec_msg_vals(msg),
    )
}

/// m' of decryption: the message bytes of
/// barrett(NTT^-1(fold(s̃, NTT(u))) - v).
pub open spec fn spec_decrypt_vals(sk: Seq<Seq<int>>, u: Seq<Seq<int>>, v: Seq<int>, k: int) -> Seq<
    u8,
> {
    let uhat = Seq::new(k as nat, |j: int| spec_ntt_fwd(u[j]));
    spec_to_msg(spec_bar_vals(spec_sub_vals(spec_ntt_inv(spec_foldred_vals(sk, uhat, k)), v)))
}

/// The secret s̃: a vector of k NTT-domain polynomials.
pub struct SecretKey {
    pub poly_vector: Vec<Poly>,
}

/// The public key: t̃ (k NTT-domain polynomials), the 32-byte matrix seed
/// rho, and the matrix expanded from it, cached.
pub struct PublicKey {
    pub poly_vector: Vec<Poly>,
    pub matrix: Vec<Vec<Poly>>,
    pub seed: Vec<u8>,
}

/// A ciphertext before compression: the vector u and the polynomial v,
/// both in the coefficient domain.
pub struct CipherText {
    pub poly_vector: Vec<Poly>,
    pub poly: Poly,
}

impl SecretKey {
    pub open spec fn wf(&self, k: int) -> bool {
        &&& self.poly_vector@.len() == k
        &&& forall|i: int| 0 <= i < k ==> (#[trigger] self.poly_vector@[i]).wf()
            && self.poly_vector@[i].ntt_form && self.poly_vector@[i].bounded(-3329, 4095)
    }

    /// Reads k polynomials of 384 bytes each.
    #[verifier::loop_isolation(false)]
    pub fn from_bytes(bytes: &[u8], k: usize) -> (r: SecretKey)
        requires
            k == 2 || k == 3 || k == 4,
            bytes@.len() == 384 * k,
        ensures
            r.wf(k as int),
            forall|i: int| 0 <= i < k ==> spec_poly_from_bytes(
                #[trigger] r.poly_vector@[i],
                bytes@.subrange(384 * i, 384 * i + 384),
            ),
    {
        let mut pv: Vec<Poly> = Vec::new();
        let mut i: usize = 0;
        while i < k
            invariant
                k == 2 || k == 3 || k == 4,
                bytes@.len() == 384 * k,
                i <= k,
                pv@.len() == i,
                forall|t: int| 0 <= t < i ==> (#[trigger] pv@[t]).wf() && pv@[t].ntt_form
                    && pv@[t].bounded(-3329, 4095),
                forall|t: int| 0 <= t < i ==> spec_poly_from_bytes(
                    #[trigger] pv@[t],
                    bytes@.subrange(384 * t, 384 * t + 384),
                ),
            decreases k - i,
        {
            let chunk = slice_subrange(bytes, 384 * i, 384 * i + 384);
            let p = Poly::from_bytes(chunk, true);
            proof {
                assert(p.bounded(-3329, 4095));
            }
            pv.push(p);
            i += 1;
        }
        SecretKey { poly_vector: pv }
    }

    /// Overwrites every coefficient of the secret vector with zero.
    #[verifier::loop_isolation(false)]
    pub fn zeroize(&mut self)
        ensures
            final(self).poly_vector@.len() == old(self).poly_vector@.len(),
            forall|i: int, t: int|
                0 <= i < final(self).poly_vector@.len() && 0 <= t
                    < final(self).poly_vector@[i].c@.len()
                    ==> #[trigger] (final(self).poly_vector@[i].c@[t]) == 0i16,
    {
        let ghost n = self.poly_vector@.len();
        let mut out: Vec<Poly> = Vec::new();
        while self.poly_vector.len() > 0
            invariant
                out@.len() + self.poly_vector@.len() == n,
                forall|i: int, t: int| 0 <= i < out@.len() && 0 <= t < out@[i].c@.len()
                    ==> #[trigger] out@[i].c@[t] == 0i16,
            decreases self.poly_vector@.len(),
        {
            let p = self.poly_vector.pop();
            match p {
                Some(mut p) => {
                    wipe_i16s(&mut p.c);
                    out.push(p);
                },
                None => {},
            }
        }
        self.poly_vector = out;
    }
}

impl PublicKey {
    pub open spec fn wf(&self, k: int) -> bool {
        &&& self.poly_vector@.len() == k
        &&& forall|i: int| 0 <= i < k ==> (#[trigger] self.poly_vector@[i]).wf()
            && self.poly_vector@[i].ntt_form && self.poly_vector@[i].bounded(-3329, 4095)
        &&& self.matrix@.len() == k
        &&& forall|i: int| 0 <= i < k ==> (#[trigger] self.matrix@[i])@.len() == k
        &&& forall|i: int, j: int| 0 <= i < k && 0 <= j < k ==> (
        #[trigger] self.matrix@[i]@[j]).wf() && self.matrix@[i]@[j].ntt_form
            && self.matrix@[i]@[j].bounded(0, 3328)
        &&& self.seed@.len() == 32
    }

    /// Serializes t̃ at 12 bits per coefficient, then the seed rho.
    #[verifier::loop_isolation(false)]
    pub fn to_bytes(&self) -> (r: Vec<u8>)
        requires
            self.wf(self.poly_vector@.len() as int),
        ensures
            r@ == spec_pv_bytes(self.poly_vector@, self.poly_vector@.len() as int) + self.seed@,
            r@.len() == 384 * self.poly_vector@.len() + 32,
    {
        let k = self.poly_vector.len();
        let mut out: Vec<u8> = Vec::new();
        let mut i: usize = 0;
        while i < k
            invariant
                self.wf(k as int),
                k == self.poly_vector@.len(),
                i <= k,
                out@.len() == 384 * i,
                out@ == spec_pv_bytes(self.poly_vector@, i as int),
            decreases k - i,
        {
            let p = &self.poly_vector[i];
            let b = p.to_bytes();
            proof {
                assert(b@ =~= spec_poly_bytes(self.poly_vector@[i as int]));
            }
            let ghost out0 = out@;
            let mut t: usize = 0;
            while t < 384
                invariant
                    t <= 384,
                    b@.len() == 384,
                    out@.len() == out0.len() + t,
                    out@ == out0 + b@.subrange(0, t as int),
                decreases 384 - t,
            {
                out.push(b[t]);
                proof {
                    assert(out@ =~= out0 + b@.subrange(0, t + 1));
                }
                t += 1;
            }
            proof {
                assert(b@.subrange(0, 384) =~= b@);
                assert(out@ =~= spec_pv_bytes(self.poly_vector@, i + 1));
            }
            i += 1;
        }
        let ghost mid = out@;
        let mut t: usize = 0;
        while t < 32
            invariant
                t <= 32,
                self.seed@.len() == 32,
                out@.len() == mid.len() + t,
                out@ == mid + self.seed@.subrange(0, t as int),
            decreases 32 - t,
        {
            out.push(self.seed[t]);
            proof {
                assert(out@ =~= mid + self.seed@.subrange(0, t + 1));
            }
            t += 1;
        }
        proof {
            assert(self.seed@.subrange(0, 32) =~= self.seed@);
            assert(out@ =~= spec_pv_bytes(self.poly_vector@, k as int) + self.seed@);
            crate::indcpa::lemma_pv_bytes_len(self.poly_vector@, k as int);
        }
        out
    }

    /// Reads back k serialized polynomials and the seed, and re-expands
    /// the matrix from the seed.
    #[verifier::loop_isolation(false)]
    pub fn from_bytes(bytes: &[u8], k: usize) -> (r: PublicKey)
        requires
            k == 2 || k == 3 || k == 4,
            bytes@.len() == 384 * k + 32,
        ensures
            r.wf(k as int),
            r.seed@ == bytes@.subrange(384 * k, 384 * k + 32),
            forall|i: int, j: int| 0 <= i < k && 0 <= j < k ==> spec_uniform_sample(
                #[trigger] r.matrix@[i]@[j],
                r.seed@.push(i as u8).push(j as u8),
            ),
            forall|i: int| 0 <= i < k ==> spec_poly_from_bytes(
                #[trigger] r.poly_vector@[i],
                bytes@.subrange(384 * i, 384 * i + 384),
            ),
    {
        let mut pv: Vec<Poly> = Vec::new();
        let mut i: usize = 0;
        while i < k
            invariant
                k == 2 || k == 3 || k == 4,
                bytes@.len() == 384 * k + 32,
                i <= k,
                pv@.len() == i,
                forall|t: int| 0 <= t < i ==> (#[trigger] pv@[t]).wf() && pv@[t].ntt_form
                    && pv@[t].bounded(-3329, 4095),
                forall|t: int| 0 <= t < i ==> spec_poly_from_bytes(
                    #[trigger] pv@[t],
                    bytes@.subrange(384 * t, 384 * t + 384),
                ),
            decreases k - i,
        {
            let chunk = slice_subrange(bytes, 384 * i, 384 * i + 384);
            let p = Poly::from_bytes(chunk, true);
            proof {
                assert(p.bounded(-3329, 4095));
            }
            pv.push(p);
            i += 1;
        }
        let seed = copy_bytes(slice_subrange(bytes, 384 * k, 384 * k + 32));
        let a = expand_matrix(seed.as_slice(), k);
        PublicKey { poly_vector: pv, matrix: a, seed }
    }

    /// Overwrites the key vector, the cached matrix and the seed with
    /// zeros.
    #[verifier::loop_isolation(false)]
    pub fn zeroize(&mut self)
        ensures
            forall|i: int, t: int|
                0 <= i < final(self).poly_vector@.len() && 0 <= t
                    < final(self).poly_vector@[i].c@.len()
                    ==> #[trigger] (final(self).poly_vector@[i].c@[t]) == 0i16,
            forall|i: int, j: int, t: int|
                0 <= i < final(self).matrix@.len() && 0 <= j < final(self).matrix@[i]@.len() && 0
                    <= t < final(self).matrix@[i]@[j].c@.len()
                    ==> #[trigger] (final(self).matrix@[i]@[j].c@[t]) == 0i16,
            forall|i: int| 0 <= i < final(self).seed@.len() ==> #[trigger] final(self).seed@[i]
                == 0u8,
    {
        let mut out: Vec<Poly> = Vec::new();
        while self.poly_vector.len() > 0
            invariant
                forall|i: int, t: int| 0 <= i < out@.len() && 0 <= t < out@[i].c@.len()
                    ==> #[trigger] out@[i].c@[t] == 0i16,
            decreases self.poly_vector@.len(),
        {
            let p = self.poly_vector.pop();
            match p {
                Some(mut p) => {
                    wipe_i16s(&mut p.c);
                    out.push(p);
                },
                None => {},
            }
        }
        self.poly_vector = out;
        proof {
            assert forall|i: int, t: int|
                0 <= i < self.poly_vector@.len() && 0 <= t
                    < self.poly_vector@[i].c@.len() implies #[trigger] (
            self.poly_vector@[i].c@[t]) == 0i16 by {
                assert(out@[i].c@[t] == 0i16);
            }
        }
        let ghost pv_done = self.poly_vector@;
        let mut mout: Vec<Vec<Poly>> = Vec::new();
        while self.matrix.len() > 0
            invariant
                self.poly_vector@ == pv_done,
                forall|i: int, j: int, t: int|
                    0 <= i < mout@.len() && 0 <= j < mout@[i]@.len() && 0 <= t
                        < mout@[i]@[j].c@.len() ==> #[trigger] (mout@[i]@[j].c@[t]) == 0i16,
            decreases self.matrix@.len(),
        {
            let row = self.matrix.pop();
            match row {
                Some(mut row) => {
                    let mut rout: Vec<Poly> = Vec::new();
                    while row.len() > 0
                        invariant
                            forall|j: int, t: int|
                                0 <= j < rout@.len() && 0 <= t < rout@[j].c@.len()
                                    ==> #[trigger] (rout@[j].c@[t]) == 0i16,
                        decreases row@.len(),
                    {
                        let p = row.pop();
                        match p {
                            Some(mut p) => {
                                wipe_i16s(&mut p.c);
                                rout.push(p);
                            },
                            None => {},
                        }
                    }
                    mout.push(rout);
                },
                None => {},
            }
        }
        self.matrix = mout;
        wipe_bytes(&mut self.seed);
        proof {
            assert(self.poly_vector@ == pv_done);
            assert forall|i: int, j: int, t: int|
                0 <= i < self.matrix@.len() && 0 <= j < self.matrix@[i]@.len() && 0 <= t
                    < self.matrix@[i]@[j].c@.len() implies #[trigger] (
            self.matrix@[i]@[j].c@[t]) == 0i16 by {
                assert(mout@[i]@[j].c@[t] == 0i16);
            }
        }
    }
}

/// The length of a concatenated polynomial-vector serialization.
pub proof fn lemma_pv_bytes_len(v: Seq<Poly>, n: int)
    requires
        n >= 0,
    ensures
        spec_pv_bytes(v, n).len() == 384 * n,
    decreases n,
{
    if n > 0 {
        lemma_pv_bytes_len(v, n - 1);
        assert(spec_pv_bytes(v, n) == spec_pv_bytes(v, n - 1) + spec_poly_bytes(v[n - 1]));
    }
}

/// The length of a concatenated compressed-vector serialization.
pub proof fn lemma_ctv_bytes_len(v: Seq<Poly>, n: int, x: u32)
    requires
        n >= 0,
    ensures
        spec_ctv_bytes(v, n, x).len() == n * 32 * x,
    decreases n,
{
    if n > 0 {
        lemma_ctv_bytes_len(v, n - 1, x);
        assert(spec_ctv_bytes(v, n, x) == spec_ctv_bytes(v, n - 1, x) + spec_poly_compressed(
            v[n - 1],
            x,
        ));
        assert(spec_poly_compressed(v[n - 1], x).len() == (32 * (x as int)) as nat);
        assert((32 * (x as int)) as nat == 32 * x);
        assert(n * 32 * x == (n - 1) * 32 * x + 32 * x) by (nonlinear_arith);
    } else {
        assert(spec_ctv_bytes(v, n, x) =~= Seq::<u8>::empty());
        assert(n * 32 * x == 0) by (nonlinear_arith)
            requires
                n == 0,
        ;
    }
}

/// A plain copy of a byte slice.
#[verifier::loop_isolation(false)]
pub fn copy_bytes(b: &[u8]) -> (r: Vec<u8>)
    ensures
        r@ == b@,
{
    let mut out: Vec<u8> = Vec::new();
    let mut i: usize = 0;
    while i < b.len()
        invariant
            i <= b@.len(),
            out@.len() == i,
            forall|t: int| 0 <= t < i ==> #[trigger] out@[t] == b@[t],
        decreases b@.len() - i,
    {
        out.push(b[i]);
        i += 1;
    }
    proof {
        assert(out@ =~= b@);
    }
    out
}

/// Expands the k-by-k matrix deterministically from the seed by uniform
/// rejection sampling, row by row.
#[verifier::loop_isolation(false)]
pub fn expand_matrix(seed: &[u8], k: usize) -> (r: Vec<Vec<Poly>>)
    requires
        seed@.len() == 32,
        k == 2 || k == 3 || k == 4,
    ensures
        r@.len() == k,
        forall|i: int| 0 <= i < k ==> (#[trigger] r@[i])@.len() == k,
        forall|i: int, j: int| 0 <= i < k && 0 <= j < k ==> (#[trigger] r@[i]@[j]).wf()
            && r@[i]@[j].ntt_form && r@[i]@[j].bounded(0, 3328),
        forall|i: int, j: int| 0 <= i < k && 0 <= j < k ==> spec_uniform_sample(
            #[trigger] r@[i]@[j],
            seed@.push(i as u8).push(j as u8),
        ),
{
    let mut a: Vec<Vec<Poly>> = Vec::new();
    let mut i: usize = 0;
    while i < k
        invariant
            seed@.len() == 32,
            k <= 4,
            i <= k,
            a@.len() == i,
            forall|t: int| 0 <= t < i ==> (#[trigger] a@[t])@.len() == k,
            forall|t: int, j: int| 0 <= t < i && 0 <= j < k ==> (#[trigger] a@[t]@[j]).wf()
                && a@[t]@[j].ntt_form && a@[t]@[j].bounded(0, 3328),
            forall|t: int, j: int| 0 <= t < i && 0 <= j < k ==> spec_uniform_sample(
                #[trigger] a@[t]@[j],
                seed@.push(t as u8).push(j as u8),
            ),
        decreases k - i,
    {
        let mut row: Vec<Poly> = Vec::new();
        let mut j: usize = 0;
        while j < k
            invariant
                seed@.len() == 32,
                k <= 4,
                i < k,
                j <= k,
                row@.len() == j,
                forall|t: int| 0 <= t < j ==> (#[trigger] row@[t]).wf() && row@[t].ntt_form
                    && row@[t].bounded(0, 3328),
                forall|t: int| 0 <= t < j ==> spec_uniform_sample(
                    #[trigger] row@[t],
                    seed@.push(i as u8).push(t as u8),
                ),
            decreases k - j,
        {
            row.push(Poly::get_uniform(seed, i, j));
            j += 1;
        }
        a.push(row);
        i += 1;
    }
    a
}

/// Splits a 64-byte digest into its two 32-byte halves and wipes the
/// original.
#[verifier::loop_isolation(false)]
pub fn split(x: Vec<u8>) -> (r: (Vec<u8>, Vec<u8>))
    requires
        x@.len() == 64,
    ensures
        r.0@ == x@.subrange(0, 32),
        r.1@ == x@.subrange(32, 64),
{
    let ghost x0 = x@;
    let mut a: Vec<u8> = Vec::new();
    let mut i: usize = 0;
    while i < 32
        invariant
            x@.len() == 64,
            i <= 32,
            a@.len() == i,
            forall|t: int| 0 <= t < i ==> #[trigger] a@[t] == x@[t],
        decreases 32 - i,
    {
        a.push(x[i]);
        i += 1;
    }
    let mut b: Vec<u8> = Vec::new();
    let mut j: usize = 32;
    while j < 64
        invariant
            x@.len() == 64,
            32 <= j <= 64,
            b@.len() == j - 32,
            forall|t: int| 0 <= t < j - 32 ==> #[trigger] b@[t] == x@[t + 32],
        decreases 64 - j,
    {
        b.push(x[j]);
        j += 1;
    }
    let mut x = x;
    wipe_bytes(&mut x);
    proof {
        assert(a@ =~= x0.subrange(0, 32));
        assert(b@ =~= x0.subrange(32, 64));
    }
    (a, b)
}

/// Key generation: the secret and error vectors are sampled from the
/// noise PRF seeded with the second half of SHA3-512(seed), the matrix
/// from the first half, and t̃ = Â^T s̃ + ẽ is computed in the NTT domain.
#[verifier::loop_isolation(false)]
pub fn key_pair(seed: &[u8], dim: Dim) -> (r: (SecretKey, PublicKey))
    requires
        seed@.len() == 32,
        dim.wf(),
    ensures
        r.0.wf(dim.k as int),
        r.1.wf(dim.k as int),
        r.1.seed@ == sha3_512_of(seed@).subrange(0, 32),
        forall|i: int, j: int| 0 <= i < dim.k && 0 <= j < dim.k ==> spec_uniform_sample(
            #[trigger] r.1.matrix@[i]@[j],
            r.1.seed@.push(i as u8).push(j as u8),
        ),
        forall|i: int| 0 <= i < dim.k ==> (#[trigger] r.0.poly_vector@[i]).vals() == spec_ntt_fwd(
            spec_noise_vals(
                sha3_512_of(seed@).subrange(32, 64),
                i as u8,
                dim.spec_noise_bytes(),
            ),
        ),
        forall|i: int| 0 <= i < dim.k ==> (#[trigger] r.1.poly_vector@[i]).vals() == spec_t_vals(
            spec_matrix_col(r.1.matrix@, i, dim.k as int),
            spec_vals_of(r.0.poly_vector@),
            spec_ntt_fwd(
                spec_noise_vals(
                    sha3_512_of(seed@).subrange(32, 64),
                    (dim.k + i) as u8,
                    dim.spec_noise_bytes(),
                ),
            ),
            dim.k as int,
        ),
{
    let c = sha3_512(seed);
    let halves = split(c);
    let rho = halves.0;
    let mut noise_seed = halves.1;
    let k = dim.k;
    let mut sk_pv: Vec<Poly> = Vec::new();
    let mut i: usize = 0;
    while i < k
        invariant
            dim.wf(),
            k == dim.k,
            noise_seed@.len() == 32,
            i <= k,
            sk_pv@.len() == i,
            forall|t: int| 0 <= t < i ==> (#[trigger] sk_pv@[t]).wf() && sk_pv@[t].ntt_form
                && sk_pv@[t].bounded(-1664, 1665),
            forall|t: int| 0 <= t < i ==> (#[trigger] sk_pv@[t]).vals() == spec_ntt_fwd(
                spec_noise_vals(noise_seed@, t as u8, dim.spec_noise_bytes()),
            ),
        decreases k - i,
    {
        let n = dim.get_noise(noise_seed.as_slice(), i as u8);
        sk_pv.push(n.ntt());
        i += 1;
    }
    let a = expand_matrix(rho.as_slice(), k);
    let mut pk_pv: Vec<Poly> = Vec::new();
    let mut i: usize = 0;
    while i < k
        invariant
            dim.wf(),
            k == dim.k,
            noise_seed@.len() == 32,
            i <= k,
            sk_pv@.len() == k,
            forall|t: int| 0 <= t < k ==> (#[trigger] sk_pv@[t]).wf() && sk_pv@[t].ntt_form
                && sk_pv@[t].bounded(-1664, 1665),
            a@.len() == k,
            forall|t: int| 0 <= t < k ==> (#[trigger] a@[t])@.len() == k,
            forall|t: int, j: int| 0 <= t < k && 0 <= j < k ==> (#[trigger] a@[t]@[j]).wf()
                && a@[t]@[j].ntt_form && a@[t]@[j].bounded(0, 3328),
            pk_pv@.len() == i,
            forall|t: int| 0 <= t < i ==> (#[trigger] pk_pv@[t]).wf() && pk_pv@[t].ntt_form
                && pk_pv@[t].bounded(-1664, 1665),
            forall|t: int| 0 <= t < i ==> (#[trigger] pk_pv@[t]).vals() == spec_t_vals(
                spec_matrix_col(a@, t, k as int),
                spec_vals_of(sk_pv@),
                spec_ntt_fwd(
                    spec_noise_vals(noise_seed@, (k + t) as u8, dim.spec_noise_bytes()),
                ),
                k as int,
            ),
        decreases k - i,
    {
        let mut col: Vec<Poly> = Vec::new();
        let mut j: usize = 0;
        while j < k
            invariant
                j <= k,
                col@.len() == j,
                forall|t: int| 0 <= t < j ==> (#[trigger] col@[t]).wf() && col@[t].ntt_form
                    && col@[t].bounded(0, 3328),
                forall|t: int| 0 <= t < j ==> (#[trigger] col@[t]).vals()
                    == a@[t]@[i as int].vals(),
            decreases k - j,
        {
            let src = &a[j];
            let p = src[i].duplicate();
            proof {
                assert forall|t: int| 0 <= t < 256 implies 0 <= #[trigger] p.at(t) <= 3328 by {
                    assert(a@[j as int]@[i as int].at(t) == p.at(t));
                }
                assert(p.vals() == a@[j as int]@[i as int].vals());
            }
            col.push(p);
            j += 1;
        }
        proof {
            assert(spec_vals_of(col@) =~= spec_matrix_col(a@, i as int, k as int));
        }
        let f = Poly::mul_fold_montgomery(col.as_slice(), sk_pv.as_slice());
        let mut p = f.montgomery_reduce();
        let e = dim.get_noise(noise_seed.as_slice(), (k + i) as u8).ntt();
        p.add_assign(&e);
        let out = p.barrett_reduce();
        pk_pv.push(out);
        i += 1;
    }
    wipe_bytes(&mut noise_seed);
    let sk = SecretKey { poly_vector: sk_pv };
    let pk = PublicKey { poly_vector: pk_pv, matrix: a, seed: rho };
    (sk, pk)
}

/// Samples the ephemeral NTT-domain vector r̃: k noise polynomials at
/// the parameter set's eta, each carried into the NTT domain.
#[verifier::loop_isolation(false)]
fn sample_sp(noise_seed: &[u8], dim: Dim) -> (r: Vec<Poly>)
    requires
        noise_seed@.len() == 32,
        dim.wf(),
    ensures
        r@.len() == dim.k,
        forall|t: int| 0 <= t < dim.k ==> (#[trigger] r@[t]).wf() && r@[t].ntt_form
            && r@[t].bounded(-1664, 1665),
        spec_vals_of(r@) == spec_sp_vals(noise_seed@, dim.k as int, dim.spec_noise_bytes()),
{
    let k = dim.k;
    let mut sp: Vec<Poly> = Vec::new();
    let mut i: usize = 0;
    while i < k
        invariant
            i <= k,
            sp@.len() == i,
            forall|t: int| 0 <= t < i ==> (#[trigger] sp@[t]).wf() && sp@[t].ntt_form
                && sp@[t].bounded(-1664, 1665),
            forall|t: int| 0 <= t < i ==> (#[trigger] sp@[t]).vals() == spec_ntt_fwd(
                spec_noise_vals(noise_seed@, t as u8, dim.spec_noise_bytes()),
            ),
        decreases k - i,
    {
        let n = dim.get_noise(noise_seed, i as u8);
        sp.push(n.ntt());
        i += 1;
    }
    proof {
        assert(spec_vals_of(sp@) =~= spec_sp_vals(noise_seed@, k as int, dim.spec_noise_bytes()));
    }
    sp
}

/// One u_i of encryption: the inner product of matrix row i with r̃,
/// taken out of the NTT domain, plus e1_i, Barrett-reduced.
#[verifier::loop_isolation(false)]
#[verifier::spinoff_prover]
fn encrypt_u(noise_seed: &[u8], public_key: &PublicKey, dim: Dim, sp: &Vec<Poly>, i: usize) -> (r:
    Poly)
    requires
        noise_seed@.len() == 32,
        dim.wf(),
        i < dim.k,
        public_key.wf(dim.k as int),
        sp@.len() == dim.k,
        forall|t: int| 0 <= t < dim.k ==> (#[trigger] sp@[t]).wf() && sp@[t].ntt_form
            && sp@[t].bounded(-1664, 1665),
        spec_vals_of(sp@) == spec_sp_vals(noise_seed@, dim.k as int, dim.spec_noise_bytes()),
    ensures
        r.wf(),
        !r.ntt_form,
        r.bounded(-1664, 1665),
        r.vals() == spec_u_vals(
            spec_vals_of(public_key.matrix@[i as int]@),
            spec_sp_vals(noise_seed@, dim.k as int, dim.spec_noise_bytes()),
            spec_noise_vals(noise_seed@, (dim.k + i) as u8, 4),
            dim.k as int,
        ),
{
    let k = dim.k;
    let f = Poly::mul_fold_montgomery(public_key.matrix[i].as_slice(), sp.as_slice());
    let mut b = f.ntt();
    let e1 = Poly::get_noise(noise_seed, (i + k) as u8, 4);
    b.add_assign(&e1);
    let out = b.barrett_reduce();
    out
}

/// v of encryption: the inner product of t̃ with r̃, taken out of the
/// NTT domain, plus e2 and the encoded message.
#[verifier::loop_isolation(false)]
#[verifier::spinoff_prover]
fn encrypt_v(noise_seed: &[u8], message: &[u8], public_key: &PublicKey, dim: Dim, sp: &Vec<
    Poly,
>) -> (r: Poly)
    requires
        noise_seed@.len() == 32,
        message@.len() == 32,
        dim.wf(),
        public_key.wf(dim.k as int),
        sp@.len() == dim.k,
        forall|t: int| 0 <= t < dim.k ==> (#[trigger] sp@[t]).wf() && sp@[t].ntt_form
            && sp@[t].bounded(-1664, 1665),
        spec_vals_of(sp@) == spec_sp_vals(noise_seed@, dim.k as int, dim.spec_noise_bytes()),
    ensures
        r.wf(),
        !r.ntt_form,
        r.bounded(-1664, 1665),
        r.vals() == spec_v_vals(
            spec_vals_of(public_key.poly_vector@),
            spec_sp_vals(noise_seed@, dim.k as int, dim.spec_noise_bytes()),
            spec_noise_vals(noise_seed@, (2 * dim.k) as u8, 4),
            message@,
            dim.k as int,
        ),
{
    let k = dim.k;
    let f = Poly::mul_fold_montgomery(public_key.poly_vector.as_slice(), sp.as_slice());
    let mut v = f.ntt();
    let e2 = Poly::get_noise(noise_seed, (2 * k) as u8, 4);
    v.add_assign(&e2);
    let m = Poly::from_msg(message);
    v.add_assign(&m);
    v
}

/// Encryption: u = NTT^-1(Â r̃) + e1, v = NTT^-1(t̃ r̃) + e2 +
/// decompress_1(m), with the ephemeral vector r̃ sampled at the key eta
/// and e1, e2 at eta = 2.
#[verifier::loop_isolation(false)]
pub fn encapsulate(noise_seed: &[u8], message: &[u8], public_key: &PublicKey, dim: Dim) -> (r:
    CipherText)
    requires
        noise_seed@.len() == 32,
        message@.len() == 32,
        dim.wf(),
        public_key.wf(dim.k as int),
    ensures
        r.wf(dim.k as int),
        forall|i: int| 0 <= i < dim.k ==> (#[trigger] r.poly_vector@[i]).vals() == spec_u_vals(
            spec_vals_of(public_key.matrix@[i]@),
            spec_sp_vals(noise_seed@, dim.k as int, dim.spec_noise_bytes()),
            spec_noise_vals(noise_seed@, (dim.k + i) as u8, 4),
            dim.k as int,
        ),
        r.poly.vals() == spec_v_vals(
            spec_vals_of(public_key.poly_vector@),
            spec_sp_vals(noise_seed@, dim.k as int, dim.spec_noise_bytes()),
            spec_noise_vals(noise_seed@, (2 * dim.k) as u8, 4),
            message@,
            dim.k as int,
        ),
{
    let k = dim.k;
    let sp = sample_sp(noise_seed, dim);
    let mut b_vec: Vec<Poly> = Vec::new();
    let mut i: usize = 0;
    while i < k
        invariant
            i <= k,
            b_vec@.len() == i,
            forall|t: int| 0 <= t < i ==> (#[trigger] b_vec@[t]).wf() && !b_vec@[t].ntt_form
                && b_vec@[t].bounded(-1664, 1665),
            forall|t: int| 0 <= t < i ==> (#[trigger] b_vec@[t]).vals() == spec_u_vals(
                spec_vals_of(public_key.matrix@[t]@),
                spec_sp_vals(noise_seed@, k as int, dim.spec_noise_bytes()),
                spec_noise_vals(noise_seed@, (k + t) as u8, 4),
                k as int,
            ),
        decreases k - i,
    {
        b_vec.push(encrypt_u(noise_seed, public_key, dim, &sp, i));
        i += 1;
    }
    let v = encrypt_v(noise_seed, message, public_key, dim, &sp);
    CipherText { poly_vector: b_vec, poly: v }
}

/// Decryption: m' = to_msg(NTT^-1(s̃ NTT(u)) - v), Barrett-reduced.
#[verifier::loop_isolation(false)]
#[verifier::rlimit(100)]
#[verifier::spinoff_prover]
pub fn decapsulate(cipher_text: &CipherText, secret_key: &SecretKey) -> (r: Vec<u8>)
    requires
        secret_key.poly_vector@.len() >= 1,
        secret_key.wf(secret_key.poly_vector@.len() as int),
        cipher_text.wf(secret_key.poly_vector@.len() as int),
    ensures
        r@.len() == 32,
        r@ == spec_decrypt_vals(
            spec_vals_of(secret_key.poly_vector@),
            spec_vals_of(cipher_text.poly_vector@),
            cipher_text.poly.vals(),
            secret_key.poly_vector@.len() as int,
        ),
{
    let k = secret_key.poly_vector.len();
    let mut bntt: Vec<Poly> = Vec::new();
    let mut j: usize = 0;
    while j < k
        invariant
            k == secret_key.poly_vector@.len(),
            secret_key.wf(k as int),
            cipher_text.wf(k as int),
            j <= k,
            bntt@.len() == j,
            forall|t: int| 0 <= t < j ==> (#[trigger] bntt@[t]).wf() && bntt@[t].ntt_form
                && bntt@[t].bounded(-1664, 1665),
            forall|t: int| 0 <= t < j ==> (#[trigger] bntt@[t]).vals() == spec_ntt_fwd(
                cipher_text.poly_vector@[t].vals(),
            ),
        decreases k - j,
    {
        let p = cipher_text.poly_vector[j].duplicate();
        proof {
            assert forall|t: int| 0 <= t < 256 implies -3328 <= #[trigger] p.at(t) <= 3328 by {
                assert(cipher_text.poly_vector@[j as int].at(t) == p.at(t));
            }
        }
        proof {
            assert(p.vals() == cipher_text.poly_vector@[j as int].vals());
        }
        bntt.push(p.ntt());
        j += 1;
    }
    proof {
        let uv = spec_vals_of(cipher_text.poly_vector@);
        let uhat = Seq::new(k as nat, |t: int| spec_ntt_fwd(uv[t]));
        assert forall|t: int| 0 <= t < k implies spec_vals_of(bntt@)[t] == uhat[t] by {
            assert(spec_vals_of(bntt@)[t] == bntt@[t].vals());
            assert(uv[t] == cipher_text.poly_vector@[t].vals());
        }
        assert(spec_vals_of(bntt@) =~= uhat);
    }
    let f = Poly::mul_fold_montgomery(secret_key.poly_vector.as_slice(), bntt.as_slice());
    let mut mp = f.ntt();
    mp.sub_assign(&cipher_text.poly);
    let red = mp.barrett_reduce();
    let out = red.to_msg();
    out
}

impl CipherText {
    pub open spec fn wf(&self, k: int) -> bool {
        &&& self.poly_vector@.len() == k
        &&& forall|i: int| 0 <= i < k ==> (#[trigger] self.poly_vector@[i]).wf()
            && !self.poly_vector@[i].ntt_form && self.poly_vector@[i].bounded(-3328, 3328)
        &&& self.poly.wf()
        &&& !self.poly.ntt_form
        &&& self.poly.bounded(-3328, 3328)
    }

    /// Reads back a compressed ciphertext: k polynomials at du bits, then
    /// one at dv bits.
    #[verifier::loop_isolation(false)]
    pub fn from_bytes(bytes: &[u8], dim: Dim) -> (r: CipherText)
        requires
            dim.wf(),
            bytes@.len() == dim.k * 32 * dim.spec_du() + 32 * dim.spec_dv(),
        ensures
            r.wf(dim.k as int),
            forall|i: int| 0 <= i < dim.k ==> spec_poly_from_compressed(
                #[trigger] r.poly_vector@[i],
                bytes@.subrange(
                    i * 32 * dim.spec_du(),
                    i * 32 * dim.spec_du() + 32 * dim.spec_du(),
                ),
                dim.spec_du(),
            ),
            spec_poly_from_compressed(
                r.poly,
                bytes@.subrange(
                    dim.k * 32 * dim.spec_du(),
                    dim.k * 32 * dim.spec_du() + 32 * dim.spec_dv(),
                ),
                dim.spec_dv(),
            ),
    {
        let k = dim.k;
        let step = dim.compressed_size();
        let mut pv: Vec<Poly> = Vec::new();
        let mut i: usize = 0;
        while i < k
            invariant
                dim.wf(),
                k == dim.k,
                step == 32 * dim.spec_du(),
                bytes@.len() == k * 32 * dim.spec_du() + 32 * dim.spec_dv(),
                i <= k,
                pv@.len() == i,
                forall|t: int| 0 <= t < i ==> (#[trigger] pv@[t]).wf() && !pv@[t].ntt_form
                    && pv@[t].bounded(-3328, 3328),
                forall|t: int| 0 <= t < i ==> spec_poly_from_compressed(
                    #[trigger] pv@[t],
                    bytes@.subrange(
                        t * 32 * dim.spec_du(),
                        t * 32 * dim.spec_du() + 32 * dim.spec_du(),
                    ),
                    dim.spec_du(),
                ),
            decreases k - i,
        {
            proof {
                assert(i * step + step <= k * step && k * step <= 4 * 352 && i * step == i * 32
                    * dim.spec_du() && k * step == k * 32 * dim.spec_du()) by (nonlinear_arith)
                    requires
                        i < k,
                        k <= 4,
                        step <= 352,
                        step == 32 * dim.spec_du(),
                ;
            }
            let chunk = slice_subrange(bytes, i * step, i * step + step);
            let p = dim.decompress_vec(chunk);
            proof {
                assert(chunk@ == bytes@.subrange(
                    i * 32 * dim.spec_du(),
                    i * 32 * dim.spec_du() + 32 * dim.spec_du(),
                ));
                assert(spec_poly_from_compressed(
                    p,
                    bytes@.subrange(
                        i * 32 * dim.spec_du(),
                        i * 32 * dim.spec_du() + 32 * dim.spec_du(),
                    ),
                    dim.spec_du(),
                ));
            }
            pv.push(p);
            i += 1;
        }
        let vstep = dim.compressed_size_v();
        proof {
            assert(k * step <= 4 * 352 && (k * step) as int == dim.k * 32 * dim.spec_du())
                by (nonlinear_arith)
                requires
                    step == 32 * dim.spec_du(),
                    k == dim.k,
                    k <= 4,
                    step <= 352,
            ;
        }
        let tail = slice_subrange(bytes, k * step, k * step + vstep);
        let p = dim.decompress(tail);
        proof {
            assert(tail@ == bytes@.subrange(
                dim.k * 32 * dim.spec_du(),
                dim.k * 32 * dim.spec_du() + 32 * dim.spec_dv(),
            ));
            assert(spec_poly_from_compressed(
                p,
                bytes@.subrange(
                    dim.k * 32 * dim.spec_du(),
                    dim.k * 32 * dim.spec_du() + 32 * dim.spec_dv(),
                ),
                dim.spec_dv(),
            ));
        }
        CipherText { poly_vector: pv, poly: p }
    }

    /// Serializes the ciphertext: the vector at du bits per coefficient,
    /// then v at dv bits.
    #[verifier::loop_isolation(false)]
    pub fn to_bytes(&self, dim: Dim) -> (r: Vec<u8>)
        requires
            dim.wf(),
            self.wf(dim.k as int),
        ensures
            r@ == spec_ctv_bytes(self.poly_vector@, dim.k as int, dim.spec_du())
                + spec_poly_compressed(self.poly, dim.spec_dv()),
            r@.len() == dim.k * 32 * dim.spec_du() + 32 * dim.spec_dv(),
    {
        let k = dim.k;
        let mut out: Vec<u8> = Vec::new();
        let mut i: usize = 0;
        while i < k
            invariant
                dim.wf(),
                k == dim.k,
                self.wf(k as int),
                i <= k,
                out@ == spec_ctv_bytes(self.poly_vector@, i as int, dim.spec_du()),
                out@.len() == i * 32 * dim.spec_du(),
            decreases k - i,
        {
            let b = dim.compress_vec(&self.poly_vector[i]);
            proof {
                assert(b@ =~= spec_poly_compressed(self.poly_vector@[i as int], dim.spec_du()));
            }
            let ghost out0 = out@;
            let mut t: usize = 0;
            let blen = b.len();
            while t < blen
                invariant
                    t <= blen,
                    b@.len() == blen,
                    out@.len() == out0.len() + t,
                    out@ == out0 + b@.subrange(0, t as int),
                decreases blen - t,
            {
                out.push(b[t]);
                proof {
                    assert(out@ =~= out0 + b@.subrange(0, t + 1));
                }
                t += 1;
            }
            proof {
                assert(b@.subrange(0, b@.len() as int) =~= b@);
                assert(out@ =~= spec_ctv_bytes(self.poly_vector@, i + 1, dim.spec_du()));
                assert(out@.len() == (i + 1) * 32 * dim.spec_du()) by (nonlinear_arith)
                    requires
                        out@.len() == i * 32 * dim.spec_du() + 32 * dim.spec_du(),
                ;
            }
            i += 1;
        }
        let b = dim.compress(&self.poly);
        proof {
            assert(b@ =~= spec_poly_compressed(self.poly, dim.spec_dv()));
        }
        let ghost out0 = out@;
        let mut t: usize = 0;
        let blen = b.len();
        while t < blen
            invariant
                t <= blen,
                b@.len() == blen,
                out@.len() == out0.len() + t,
                out@ == out0 + b@.subrange(0, t as int),
            decreases blen - t,
        {
            out.push(b[t]);
            proof {
                assert(out@ =~= out0 + b@.subrange(0, t + 1));
            }
            t += 1;
        }
        proof {
            assert(b@.subrange(0, b@.len() as int) =~= b@);
        }
        out
    }
}


/// Coefficient t of vector entry i compresses equally in both ciphertexts.
pub open spec fn spec_cv_eq(a: CipherText, b: CipherText, dim: Dim, i: int, t: int) -> bool {
    spec_compress(dim.spec_du(), spec_pack(a.poly_vector@[i].at(t))) == spec_compress(
        dim.spec_du(),
        spec_pack(b.poly_vector@[i].at(t)),
    )
}

/// Coefficient t of the second polynomial compresses equally in both
/// ciphertexts.
pub open spec fn spec_v_eq(a: CipherText, b: CipherText, dim: Dim, t: int) -> bool {
    spec_compress(dim.spec_dv(), spec_pack(a.poly.at(t))) == spec_compress(
        dim.spec_dv(),
        spec_pack(b.poly.at(t)),
    )
}

/// Two ciphertexts agree on every compressed coefficient: exactly the
/// condition under which their serializations are byte-for-byte equal.
pub open spec fn spec_ct_eq(a: CipherText, b: CipherText, dim: Dim) -> bool {
    &&& forall|i: int, t: int| 0 <= i < dim.k && 0 <= t < 256 ==> #[trigger] spec_cv_eq(
        a,
        b,
        dim,
        i,
        t,
    )
    &&& forall|t: int| 0 <= t < 256 ==> #[trigger] spec_v_eq(a, b, dim, t)
}

proof fn lemma_and_bit(a: u8, b: u8)
    by (bit_vector)
    requires
        a <= 1,
        b <= 1,
    ensures
        a & b <= 1,
        (a & b) == 1 <==> (a == 1 && b == 1),
{
}

impl CipherText {
    /// Constant-time equality: the AND of per-coefficient
    /// compressed-equality bits, examining every coefficient of both parts
    /// on every call regardless of earlier mismatches.
    #[verifier::loop_isolation(false)]
    pub fn ct_eq(&self, other: &CipherText, dim: Dim) -> (r: u8)
        requires
            dim.wf(),
            self.wf(dim.k as int),
            other.wf(dim.k as int),
        ensures
            r == 0 || r == 1,
            (r == 1) <==> spec_ct_eq(*self, *other, dim),
    {
        let k = dim.k;
        let mut x: u8 = 1;
        let mut i: usize = 0;
        while i < k
            invariant
                i <= k,
                x == 0 || x == 1,
                (x == 1) <==> (forall|ii: int, tt: int|
                    0 <= ii < i && 0 <= tt < 256 ==> #[trigger] spec_cv_eq(
                        *self,
                        *other,
                        dim,
                        ii,
                        tt,
                    )),
            decreases k - i,
        {
            let pa = &self.poly_vector[i];
            let pb = &other.poly_vector[i];
            let mut t: usize = 0;
            while t < 256
                invariant
                    i < k,
                    t <= 256,
                    x == 0 || x == 1,
                    (x == 1) <==> ((forall|ii: int, tt: int|
                        0 <= ii < i && 0 <= tt < 256 ==> #[trigger] spec_cv_eq(
                            *self,
                            *other,
                            dim,
                            ii,
                            tt,
                        )) && (forall|tt: int| 0 <= tt < t ==> #[trigger] spec_cv_eq(
                        *self,
                        *other,
                        dim,
                        i as int,
                        tt,
                    ))),
                decreases 256 - t,
            {
                let l = Coefficient(pa.c[t]);
                let r = Coefficient(pb.c[t]);
                proof {
                    assert(l.0 as int == self.poly_vector@[i as int].at(t as int));
                    assert(r.0 as int == other.poly_vector@[i as int].at(t as int));
                    assert(-3328 <= self.poly_vector@[i as int].at(t as int) <= 3328);
                    assert(-3328 <= other.poly_vector@[i as int].at(t as int) <= 3328);
                }
                let flag = dim.compare_vec(&l, &r);
                proof {
                    assert((flag == 1) <==> spec_cv_eq(*self, *other, dim, i as int, t as int));
                    lemma_and_bit(x, flag);
                }
                let ghost x0 = x;
                x = x & flag;
                proof {
                    if x == 1 {
                        assert forall|tt: int| 0 <= tt < t + 1 implies #[trigger] spec_cv_eq(
                            *self,
                            *other,
                            dim,
                            i as int,
                            tt,
                        ) by {
                            if tt == t {
                                assert(flag == 1);
                            }
                        }
                    } else {
                        if x0 == 1 && flag == 0 {
                            assert(!spec_cv_eq(*self, *other, dim, i as int, t as int));
                        }
                    }
                }
                t += 1;
            }
            proof {
                if x == 1 {
                    assert forall|ii: int, tt: int|
                        0 <= ii < i + 1 && 0 <= tt < 256 implies #[trigger] spec_cv_eq(
                        *self,
                        *other,
                        dim,
                        ii,
                        tt,
                    ) by {
                        if ii == i {
                            assert(spec_cv_eq(*self, *other, dim, i as int, tt));
                        }
                    }
                }
            }
            i += 1;
        }
        let ghost vec_eq = (x == 1);
        let mut t: usize = 0;
        while t < 256
            invariant
                t <= 256,
                x == 0 || x == 1,
                (x == 1) <==> (vec_eq && (forall|tt: int| 0 <= tt < t ==> #[trigger] spec_v_eq(
                    *self,
                    *other,
                    dim,
                    tt,
                ))),
            decreases 256 - t,
        {
            let l = Coefficient(self.poly.c[t]);
            let r = Coefficient(other.poly.c[t]);
            proof {
                assert(l.0 as int == self.poly.at(t as int));
                assert(r.0 as int == other.poly.at(t as int));
                assert(-3328 <= self.poly.at(t as int) <= 3328);
                assert(-3328 <= other.poly.at(t as int) <= 3328);
            }
            let flag = dim.compare(&l, &r);
            proof {
                assert((flag == 1) <==> spec_v_eq(*self, *other, dim, t as int));
                lemma_and_bit(x, flag);
            }
            let ghost x0 = x;
            x = x & flag;
            proof {
                if x == 1 {
                    assert forall|tt: int| 0 <= tt < t + 1 implies #[trigger] spec_v_eq(
                        *self,
                        *other,
                        dim,
                        tt,
                    ) by {
                        if tt == t {
                            assert(flag == 1);
                        }
                    }
                } else {
                    if x0 == 1 && flag == 0 {
                        assert(!spec_v_eq(*self, *other, dim, t as int));
                    }
                }
            }
            t += 1;
        }
        x
    }
}

} // verus!
