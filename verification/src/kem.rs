//! The IND-CCA KEM: the Fujisaki-Okamoto transform over the IND-CPA
//! scheme, with hashing of the public key, re-encryption on decapsulation,
//! and implicit rejection through the stored rejection seed.

use core::cmp::Ordering;
use vstd::prelude::*;
use crate::config::Dim;
use crate::poly::spec_uniform_sample;
use crate::hashes::{sha3_256, sha3_256_of, sha3_512, sha3_512_of, shake256, shake256_of};
use crate::ct::{ct_select_u8, wipe_bytes};
use crate::indcpa::{self, copy_bytes, spec_ct_eq, spec_matrix_col, spec_poly_compressed, spec_poly_from_bytes, spec_poly_from_compressed, spec_ctv_bytes, spec_pv_bytes, spec_sp_vals, spec_t_vals, spec_u_vals, spec_v_vals, spec_decrypt_vals, split};
use crate::poly::{spec_noise_vals, spec_ntt_fwd, spec_vals_of};
use vstd::slice::slice_subrange;

verus! {

/// The seed material for one key pair: the main seed that determines the
/// keys, and the rejection seed stored for implicit rejection.
pub struct KeySeed {
    pub main: Vec<u8>,
    pub reject: Vec<u8>,
}

impl KeySeed {
    pub open spec fn wf(&self) -> bool {
        self.main@.len() == 32 && self.reject@.len() == 32
    }
}

/// The KEM secret key: the IND-CPA secret vector plus the rejection seed.
/// Intended to be kept only in RAM; store the seed instead.
pub struct SecretKey {
    pub inner: indcpa::SecretKey,
    pub reject: Vec<u8>,
}

impl SecretKey {
    pub open spec fn wf(&self, k: int) -> bool {
        self.inner.wf(k) && self.reject@.len() == 32
    }

    /// Overwrites the secret vector and the rejection seed with zeros.
    pub fn zeroize(&mut self)
        ensures
            forall|i: int, t: int|
                0 <= i < final(self).inner.poly_vector@.len() && 0 <= t
                    < final(self).inner.poly_vector@[i].c@.len()
                    ==> #[trigger] (final(self).inner.poly_vector@[i].c@[t]) == 0i16,
            forall|i: int| 0 <= i < final(self).reject@.len()
                ==> #[trigger] (final(self).reject@[i]) == 0u8,
    {
        self.inner.zeroize();
        wipe_bytes(&mut self.reject);
    }
}

/// The KEM public key, carrying its SHA3-256 hash. Use `to_bytes` and
/// `from_bytes` to store or transmit.
pub struct PublicKey {
    pub inner: indcpa::PublicKey,
    pub hash: Vec<u8>,
}

/// The encapsulated secret. Use `to_bytes` and `from_bytes` to store or
/// transmit.
pub struct CipherText {
    pub inner: indcpa::CipherText,
}

impl CipherText {
    pub open spec fn wf(&self, k: int) -> bool {
        self.inner.wf(k)
    }

    /// Serializes the ciphertext at the parameter set's rates.
    pub fn to_bytes(&self, dim: Dim) -> (r: Vec<u8>)
        requires
            dim.wf(),
            self.wf(dim.k as int),
        ensures
            r@ == spec_ctv_bytes(self.inner.poly_vector@, dim.k as int, dim.spec_du())
                + spec_poly_compressed(self.inner.poly, dim.spec_dv()),
            r@.len() == dim.k * 32 * dim.spec_du() + 32 * dim.spec_dv(),
    {
        self.inner.to_bytes(dim)
    }

    /// Reads back a serialized ciphertext: k polynomials decompressed at
    /// du bits, then one at dv bits.
    pub fn from_bytes(b: &[u8], dim: Dim) -> (r: CipherText)
        requires
            dim.wf(),
            b@.len() == dim.k * 32 * dim.spec_du() + 32 * dim.spec_dv(),
        ensures
            r.wf(dim.k as int),
            forall|i: int| 0 <= i < dim.k ==> spec_poly_from_compressed(
                #[trigger] r.inner.poly_vector@[i],
                b@.subrange(i * 32 * dim.spec_du(), i * 32 * dim.spec_du() + 32 * dim.spec_du()),
                dim.spec_du(),
            ),
            spec_poly_from_compressed(
                r.inner.poly,
                b@.subrange(
                    dim.k * 32 * dim.spec_du(),
                    dim.k * 32 * dim.spec_du() + 32 * dim.spec_dv(),
                ),
                dim.spec_dv(),
            ),
    {
        CipherText { inner: indcpa::CipherText::from_bytes(b, dim) }
    }
}

/// The lexicographic order on byte strings.
pub open spec fn spec_lex(a: Seq<u8>, b: Seq<u8>) -> Ordering
    decreases a.len(),
{
    if a.len() == 0 && b.len() == 0 {
        Ordering::Equal
    } else if a.len() == 0 {
        Ordering::Less
    } else if b.len() == 0 {
        Ordering::Greater
    } else if a[0] < b[0] {
        Ordering::Less
    } else if a[0] > b[0] {
        Ordering::Greater
    } else {
        spec_lex(a.skip(1), b.skip(1))
    }
}

/// Dropping an equal prefix does not change the lexicographic order.
proof fn lemma_lex_skip(a: Seq<u8>, b: Seq<u8>, i: int)
    requires
        0 <= i <= a.len(),
        i <= b.len(),
        forall|j: int| 0 <= j < i ==> a[j] == b[j],
    ensures
        spec_lex(a, b) == spec_lex(a.skip(i), b.skip(i)),
    decreases i,
{
    if i > 0 {
        assert(a[0] == b[0]);
        assert(spec_lex(a, b) == spec_lex(a.skip(1), b.skip(1)));
        lemma_lex_skip(a.skip(1), b.skip(1), i - 1);
        assert(a.skip(1).skip(i - 1) =~= a.skip(i));
        assert(b.skip(1).skip(i - 1) =~= b.skip(i));
    } else {
        assert(a.skip(0) =~= a);
        assert(b.skip(0) =~= b);
    }
}

impl PartialEq for PublicKey {
    /// Public keys compare by their hash.
    fn eq(&self, other: &PublicKey) -> (r: bool) {
        let r = self.hash == other.hash;
        proof {
            if self.hash@ == other.hash@ {
                assert(r);
            }
            if r {
                assert(self.hash@ =~= other.hash@);
            }
        }
        r
    }
}

impl vstd::std_specs::cmp::PartialEqSpecImpl for PublicKey {
    open spec fn obeys_eq_spec() -> bool {
        true
    }

    open spec fn eq_spec(&self, other: &PublicKey) -> bool {
        self.hash@ == other.hash@
    }
}

impl Eq for PublicKey {

}

impl PartialOrd for PublicKey {
    /// Public keys order lexicographically by their hash.
    #[verifier::loop_isolation(false)]
    fn partial_cmp(&self, other: &PublicKey) -> (r: Option<Ordering>) {
        let a = &self.hash;
        let b = &other.hash;
        let n: usize = if a.len() < b.len() {
            a.len()
        } else {
            b.len()
        };
        let mut i: usize = 0;
        while i < n
            invariant
                i <= n,
                n <= a@.len(),
                n <= b@.len(),
                forall|j: int| 0 <= j < i ==> a@[j] == b@[j],
            decreases n - i,
        {
            if a[i] < b[i] {
                proof {
                    lemma_lex_skip(a@, b@, i as int);
                    assert(a@.skip(i as int)[0] == a@[i as int]);
                    assert(b@.skip(i as int)[0] == b@[i as int]);
                }
                return Some(Ordering::Less);
            }
            if a[i] > b[i] {
                proof {
                    lemma_lex_skip(a@, b@, i as int);
                    assert(a@.skip(i as int)[0] == a@[i as int]);
                    assert(b@.skip(i as int)[0] == b@[i as int]);
                }
                return Some(Ordering::Greater);
            }
            i += 1;
        }
        proof {
            lemma_lex_skip(a@, b@, n as int);
        }
        if a.len() < b.len() {
            Some(Ordering::Less)
        } else if a.len() > b.len() {
            Some(Ordering::Greater)
        } else {
            Some(Ordering::Equal)
        }
    }
}

impl vstd::std_specs::cmp::PartialOrdSpecImpl for PublicKey {
    open spec fn obeys_partial_cmp_spec() -> bool {
        true
    }

    open spec fn partial_cmp_spec(&self, other: &PublicKey) -> Option<Ordering> {
        Some(spec_lex(self.hash@, other.hash@))
    }
}

impl PublicKey {
    pub open spec fn wf(&self, k: int) -> bool {
        self.inner.wf(k) && self.hash@.len() == 32
    }

    /// The stored SHA3-256 hash of the serialized public key.
    pub fn hash(&self) -> (r: Vec<u8>)
        ensures
            r@ == self.hash@,
    {
        copy_bytes(self.hash.as_slice())
    }

    /// Serializes the IND-CPA public key: t̃ then the seed rho.
    pub fn to_bytes(&self) -> (r: Vec<u8>)
        requires
            self.wf(self.inner.poly_vector@.len() as int),
        ensures
            r@ == spec_pv_bytes(self.inner.poly_vector@, self.inner.poly_vector@.len() as int)
                + self.inner.seed@,
            r@.len() == 384 * self.inner.poly_vector@.len() + 32,
    {
        self.inner.to_bytes()
    }

    /// Reads back a serialized public key: parses t̃ and the seed rho,
    /// re-expands the matrix from rho, and recomputes the stored hash.
    pub fn from_bytes(b: &[u8], k: usize) -> (r: PublicKey)
        requires
            k == 2 || k == 3 || k == 4,
            b@.len() == 384 * k + 32,
        ensures
            r.wf(k as int),
            r.hash@ == sha3_256_of(b@),
            r.inner.seed@ == b@.subrange(384 * k, 384 * k + 32),
            forall|i: int| 0 <= i < k ==> spec_poly_from_bytes(
                #[trigger] r.inner.poly_vector@[i],
                b@.subrange(384 * i, 384 * i + 384),
            ),
            forall|i: int, j: int| 0 <= i < k && 0 <= j < k ==> spec_uniform_sample(
                #[trigger] r.inner.matrix@[i]@[j],
                r.inner.seed@.push(i as u8).push(j as u8),
            ),
    {
        let hash = sha3_256(b);
        PublicKey { inner: indcpa::PublicKey::from_bytes(b, k), hash }
    }

    /// Overwrites the key material, the cached matrix, the seed and the
    /// hash with zeros.
    pub fn zeroize(&mut self)
        ensures
            forall|i: int, t: int|
                0 <= i < final(self).inner.poly_vector@.len() && 0 <= t
                    < final(self).inner.poly_vector@[i].c@.len()
                    ==> #[trigger] (final(self).inner.poly_vector@[i].c@[t]) == 0i16,
            forall|i: int, j: int, t: int|
                0 <= i < final(self).inner.matrix@.len() && 0 <= j
                    < final(self).inner.matrix@[i]@.len() && 0 <= t
                    < final(self).inner.matrix@[i]@[j].c@.len()
                    ==> #[trigger] (final(self).inner.matrix@[i]@[j].c@[t]) == 0i16,
            forall|i: int| 0 <= i < final(self).inner.seed@.len()
                ==> #[trigger] (final(self).inner.seed@[i]) == 0u8,
            forall|i: int| 0 <= i < final(self).hash@.len() ==> #[trigger] final(self).hash@[i]
                == 0u8,
    {
        self.inner.zeroize();
        wipe_bytes(&mut self.hash);
    }
}

/// The concatenation of two byte strings.
#[verifier::loop_isolation(false)]
fn concat_bytes(a: &[u8], b: &[u8]) -> (r: Vec<u8>)
    ensures
        r@ == a@ + b@,
{
    let mut out = copy_bytes(a);
    let mut i: usize = 0;
    while i < b.len()
        invariant
            i <= b@.len(),
            out@ == a@ + b@.subrange(0, i as int),
        decreases b@.len() - i,
    {
        out.push(b[i]);
        proof {
            assert(out@ =~= a@ + b@.subrange(0, i + 1));
        }
        i += 1;
    }
    proof {
        assert(b@.subrange(0, b@.len() as int) =~= b@);
    }
    out
}

/// Deserializes a key pair from `sk_cpa || pk_cpa || H(pk) || z`.
#[verifier::loop_isolation(false)]
pub fn load_key_pair(b: &[u8], k: usize) -> (r: (SecretKey, PublicKey))
    requires
        k == 2 || k == 3 || k == 4,
        b@.len() == 768 * k + 96,
    ensures
        r.0.wf(k as int),
        r.1.wf(k as int),
        r.0.reject@ == b@.subrange(768 * k + 64, 768 * k + 96),
        r.1.hash@ == b@.subrange(768 * k + 32, 768 * k + 64),
        forall|i: int| 0 <= i < k ==> spec_poly_from_bytes(
            #[trigger] r.0.inner.poly_vector@[i],
            b@.subrange(384 * i, 384 * i + 384),
        ),
        forall|i: int| 0 <= i < k ==> spec_poly_from_bytes(
            #[trigger] r.1.inner.poly_vector@[i],
            b@.subrange(384 * k + 384 * i, 384 * k + 384 * i + 384),
        ),
        r.1.inner.seed@ == b@.subrange(768 * k, 768 * k + 32),
        forall|i: int, j: int| 0 <= i < k && 0 <= j < k ==> spec_uniform_sample(
            #[trigger] r.1.inner.matrix@[i]@[j],
            r.1.inner.seed@.push(i as u8).push(j as u8),
        ),
{
    let sk_len: usize = 384 * k;
    let pk_len: usize = 384 * k + 32;
    let sk_bytes = slice_subrange(b, 0, sk_len);
    let sk_inner = indcpa::SecretKey::from_bytes(sk_bytes, k);
    let reject = copy_bytes(slice_subrange(b, sk_len + pk_len + 32, sk_len + pk_len + 64));
    let pk_bytes = slice_subrange(b, sk_len, sk_len + pk_len);
    let pk_inner = indcpa::PublicKey::from_bytes(pk_bytes, k);
    let hash = copy_bytes(slice_subrange(b, sk_len + pk_len, sk_len + pk_len + 32));
    proof {
        assert forall|i: int| 0 <= i < k implies spec_poly_from_bytes(
            #[trigger] sk_inner.poly_vector@[i],
            b@.subrange(384 * i, 384 * i + 384),
        ) by {
            assert(sk_bytes@.subrange(384 * i, 384 * i + 384) =~= b@.subrange(
                384 * i,
                384 * i + 384,
            ));
        }
        assert forall|i: int| 0 <= i < k implies spec_poly_from_bytes(
            #[trigger] pk_inner.poly_vector@[i],
            b@.subrange(384 * k + 384 * i, 384 * k + 384 * i + 384),
        ) by {
            assert(pk_bytes@.subrange(384 * i, 384 * i + 384) =~= b@.subrange(
                384 * k + 384 * i,
                384 * k + 384 * i + 384,
            ));
        }
        assert(pk_bytes@.subrange(384 * (k as int), 384 * (k as int) + 32) =~= b@.subrange(
            768 * (k as int),
            768 * (k as int) + 32,
        ));
    }
    (SecretKey { inner: sk_inner, reject }, PublicKey { inner: pk_inner, hash })
}

/// Creates a key pair from the seed: IND-CPA key generation on the main
/// seed, the public key's hash computed over its serialization, and the
/// rejection seed stored. The main seed is wiped.
pub fn key_pair(s: KeySeed, dim: Dim) -> (r: (SecretKey, PublicKey))
    requires
        s.wf(),
        dim.wf(),
    ensures
        r.0.wf(dim.k as int),
        r.1.wf(dim.k as int),
        r.0.reject@ == s.reject@,
        r.1.hash@ == sha3_256_of(
            spec_pv_bytes(r.1.inner.poly_vector@, dim.k as int) + r.1.inner.seed@,
        ),
        r.1.inner.seed@ == sha3_512_of(s.main@).subrange(0, 32),
        forall|i: int, j: int| 0 <= i < dim.k && 0 <= j < dim.k ==> spec_uniform_sample(
            #[trigger] r.1.inner.matrix@[i]@[j],
            r.1.inner.seed@.push(i as u8).push(j as u8),
        ),
        forall|i: int| 0 <= i < dim.k ==> (#[trigger] r.0.inner.poly_vector@[i]).vals()
            == spec_ntt_fwd(
            spec_noise_vals(
                sha3_512_of(s.main@).subrange(32, 64),
                i as u8,
                dim.spec_noise_bytes(),
            ),
        ),
        forall|i: int| 0 <= i < dim.k ==> (#[trigger] r.1.inner.poly_vector@[i]).vals()
            == spec_t_vals(
            spec_matrix_col(r.1.inner.matrix@, i, dim.k as int),
            spec_vals_of(r.0.inner.poly_vector@),
            spec_ntt_fwd(
                spec_noise_vals(
                    sha3_512_of(s.main@).subrange(32, 64),
                    (dim.k + i) as u8,
                    dim.spec_noise_bytes(),
                ),
            ),
            dim.k as int,
        ),
{
    let KeySeed { main, reject } = s;
    let mut main = main;
    let (inner_sk, inner) = indcpa::key_pair(main.as_slice(), dim);
    wipe_bytes(&mut main);
    let pk_bytes = inner.to_bytes();
    let hash = sha3_256(pk_bytes.as_slice());
    (SecretKey { inner: inner_sk, reject }, PublicKey { inner, hash })
}

/// Encapsulates a fresh shared secret under the receiver's public key:
/// m = H(seed), (r, noiseSeed) = G(m || H(pk)), c = Encrypt(noiseSeed, m),
/// ss = KDF(r || H(c)). The seed and intermediates are wiped.
pub fn encapsulate(seed: Vec<u8>, public_key: &PublicKey, dim: Dim) -> (r: (CipherText, Vec<u8>))
    requires
        seed@.len() == 32,
        dim.wf(),
        public_key.wf(dim.k as int),
    ensures
        r.0.wf(dim.k as int),
        r.1@.len() == 32,
        r.1@ == shake256_of(
            sha3_512_of(sha3_256_of(seed@) + public_key.hash@).subrange(0, 32) + sha3_256_of(
                spec_ctv_bytes(r.0.inner.poly_vector@, dim.k as int, dim.spec_du())
                    + spec_poly_compressed(r.0.inner.poly, dim.spec_dv()),
            ),
            32,
        ),
        ({
            let ns = sha3_512_of(sha3_256_of(seed@) + public_key.hash@).subrange(32, 64);
            &&& forall|i: int| 0 <= i < dim.k ==> (#[trigger] r.0.inner.poly_vector@[i]).vals()
                == spec_u_vals(
                spec_vals_of(public_key.inner.matrix@[i]@),
                spec_sp_vals(ns, dim.k as int, dim.spec_noise_bytes()),
                spec_noise_vals(ns, (dim.k + i) as u8, 4),
                dim.k as int,
            )
            &&& r.0.inner.poly.vals() == spec_v_vals(
                spec_vals_of(public_key.inner.poly_vector@),
                spec_sp_vals(ns, dim.k as int, dim.spec_noise_bytes()),
                spec_noise_vals(ns, (2 * dim.k) as u8, 4),
                sha3_256_of(seed@),
                dim.k as int,
            )
        }),
{
    let mut seed = seed;
    let message = sha3_256(seed.as_slice());
    wipe_bytes(&mut seed);
    let g_in = concat_bytes(message.as_slice(), public_key.hash.as_slice());
    let c64 = sha3_512(g_in.as_slice());
    let halves = split(c64);
    let mut r_half = halves.0;
    let mut noise_seed = halves.1;
    let inner_ct = indcpa::encapsulate(
        noise_seed.as_slice(),
        message.as_slice(),
        &public_key.inner,
        dim,
    );
    let mut message = message;
    wipe_bytes(&mut noise_seed);
    wipe_bytes(&mut message);
    let ct_bytes = inner_ct.to_bytes(dim);
    let mut ct_hash = sha3_256(ct_bytes.as_slice());
    let kdf_in = concat_bytes(r_half.as_slice(), ct_hash.as_slice());
    let ss = shake256(kdf_in.as_slice(), 32);
    wipe_bytes(&mut r_half);
    wipe_bytes(&mut ct_hash);
    (CipherText { inner: inner_ct }, ss)
}

/// The shared secret a decapsulation returns, in terms of the decrypted
/// message m and the re-encryption ct2: the KDF is keyed with the hash of
/// ct2's serialization, and with the randomness re-derived from m when
/// ct2 compresses equal to the received ciphertext, else with the stored
/// rejection seed.
pub open spec fn spec_decap_secret(
    ss: Seq<u8>,
    reject: Seq<u8>,
    pk_hash: Seq<u8>,
    received: indcpa::CipherText,
    dim: Dim,
    ct2: indcpa::CipherText,
    m: Seq<u8>,
) -> bool {
    let rsel = if spec_ct_eq(ct2, received, dim) {
        sha3_512_of(m + pk_hash).subrange(0, 32)
    } else {
        reject
    };
    ss == shake256_of(
        rsel + sha3_256_of(
            spec_ctv_bytes(ct2.poly_vector@, dim.k as int, dim.spec_du()) + spec_poly_compressed(
                ct2.poly,
                dim.spec_dv(),
            ),
        ),
        32,
    )
}

/// Decapsulates: decrypts to m', re-derives the randomness, re-encrypts,
/// and compares against the received ciphertext in constant time; on
/// mismatch the rejection seed replaces the derived randomness, so a
/// forged ciphertext yields a pseudorandom but deterministic secret. The
/// re-encryption's hash feeds the KDF on both paths, and both paths do
/// the same work.
pub fn decapsulate(secret_key: &SecretKey, public_key: &PublicKey, cipher_text: &CipherText, dim:
    Dim) -> (r: Vec<u8>)
    requires
        dim.wf(),
        secret_key.wf(dim.k as int),
        public_key.wf(dim.k as int),
        cipher_text.wf(dim.k as int),
    ensures
        r@.len() == 32,
        ({
            let m = spec_decrypt_vals(
                spec_vals_of(secret_key.inner.poly_vector@),
                spec_vals_of(cipher_text.inner.poly_vector@),
                cipher_text.inner.poly.vals(),
                dim.k as int,
            );
            let ns = sha3_512_of(m + public_key.hash@).subrange(32, 64);
            exists|ct2: indcpa::CipherText|
                ct2.wf(dim.k as int) && (forall|i: int|
                    0 <= i < dim.k ==> (#[trigger] ct2.poly_vector@[i]).vals() == spec_u_vals(
                        spec_vals_of(public_key.inner.matrix@[i]@),
                        spec_sp_vals(ns, dim.k as int, dim.spec_noise_bytes()),
                        spec_noise_vals(ns, (dim.k + i) as u8, 4),
                        dim.k as int,
                    )) && ct2.poly.vals() == spec_v_vals(
                    spec_vals_of(public_key.inner.poly_vector@),
                    spec_sp_vals(ns, dim.k as int, dim.spec_noise_bytes()),
                    spec_noise_vals(ns, (2 * dim.k) as u8, 4),
                    m,
                    dim.k as int,
                ) && #[trigger] spec_decap_secret(
                    r@,
                    secret_key.reject@,
                    public_key.hash@,
                    cipher_text.inner,
                    dim,
                    ct2,
                    m,
                )
        }),
{
    let message = indcpa::decapsulate(&cipher_text.inner, &secret_key.inner);
    let g_in = concat_bytes(message.as_slice(), public_key.hash.as_slice());
    let c64 = sha3_512(g_in.as_slice());
    let halves = split(c64);
    let r_half = halves.0;
    let mut noise_seed = halves.1;
    let inner_ct = indcpa::encapsulate(
        noise_seed.as_slice(),
        message.as_slice(),
        &public_key.inner,
        dim,
    );
    let flag = inner_ct.ct_eq(&cipher_text.inner, dim);
    let ghost m0 = message@;
    let mut message = message;
    wipe_bytes(&mut noise_seed);
    wipe_bytes(&mut message);
    let ct_bytes = inner_ct.to_bytes(dim);
    let mut ct_hash = sha3_256(ct_bytes.as_slice());
    let mut rstar: Vec<u8> = Vec::new();
    let mut i: usize = 0;
    while i < 32
        invariant
            i <= 32,
            rstar@.len() == i,
            r_half@.len() == 32,
            secret_key.reject@.len() == 32,
            flag == 0 || flag == 1,
            forall|t: int| 0 <= t < i ==> #[trigger] rstar@[t] == if flag == 1 {
                r_half@[t]
            } else {
                secret_key.reject@[t]
            },
        decreases 32 - i,
    {
        rstar.push(ct_select_u8(secret_key.reject[i], r_half[i], flag));
        i += 1;
    }
    proof {
        if flag == 1 {
            assert(rstar@ =~= r_half@);
        } else {
            assert(rstar@ =~= secret_key.reject@);
        }
    }
    let mut r_half = r_half;
    wipe_bytes(&mut r_half);
    let kdf_in = concat_bytes(rstar.as_slice(), ct_hash.as_slice());
    let ss = shake256(kdf_in.as_slice(), 32);
    wipe_bytes(&mut ct_hash);
    let mut rstar = rstar;
    wipe_bytes(&mut rstar);
    proof {
        assert(spec_decap_secret(
            ss@,
            secret_key.reject@,
            public_key.hash@,
            cipher_text.inner,
            dim,
            inner_ct,
            m0,
        ));
    }
    ss
}

} // verus!
