//! The hash and XOF primitives the scheme is built on, behind trusted
//! wrappers: SHA3-256, SHA3-512, SHAKE-128 and SHAKE-256. Each digest is a
//! pure function of the input bytes; the wrappers name those functions so
//! the callers' contracts can speak of them.

use vstd::prelude::*;
use sha3::digest::{ExtendableOutput, FixedOutput, Update, XofReader};

verus! {

/// The SHA3-256 digest of a byte string.
pub uninterp spec fn sha3_256_of(data: Seq<u8>) -> Seq<u8>;

/// The SHA3-512 digest of a byte string.
pub uninterp spec fn sha3_512_of(data: Seq<u8>) -> Seq<u8>;

/// The first n bytes of the SHAKE-256 output stream for a byte string.
pub uninterp spec fn shake256_of(data: Seq<u8>, n: int) -> Seq<u8>;

/// Byte i of the SHAKE-128 output stream for a byte string.
pub uninterp spec fn xof128_byte(data: Seq<u8>, i: int) -> u8;

/// Relies on sha3::Sha3_256 through digest's Update and FixedOutput: the
/// 32-byte digest depends on the input bytes alone.
#[verifier::external_body]
pub(crate) fn sha3_256(data: &[u8]) -> (r: Vec<u8>)
    ensures
        r@ == sha3_256_of(data@),
        r@.len() == 32,
{
    let mut h = sha3::Sha3_256::default();
    h.update(data);
    h.finalize_fixed().to_vec()
}

/// Relies on sha3::Sha3_512 through digest's Update and FixedOutput: the
/// 64-byte digest depends on the input bytes alone.
#[verifier::external_body]
pub(crate) fn sha3_512(data: &[u8]) -> (r: Vec<u8>)
    ensures
        r@ == sha3_512_of(data@),
        r@.len() == 64,
{
    let mut h = sha3::Sha3_512::default();
    h.update(data);
    h.finalize_fixed().to_vec()
}

/// Relies on sha3::Shake256 through digest's ExtendableOutput: the output
/// stream depends on the input bytes alone; reading n bytes yields its
/// first n bytes.
#[verifier::external_body]
pub(crate) fn shake256(data: &[u8], n: usize) -> (r: Vec<u8>)
    ensures
        r@ == shake256_of(data@, n as int),
        r@.len() == n,
{
    let mut h = sha3::Shake256::default();
    h.update(data);
    let mut out: Vec<u8> = vec![0u8; n];
    h.finalize_xof().read(&mut out);
    out
}

/// Relies on sha3::Shake128 through digest's ExtendableOutput: the output
/// stream depends on the input bytes alone and reading is
/// prefix-consistent, so byte i of any read is byte i of the stream.
#[verifier::external_body]
pub(crate) fn shake128(data: &[u8], n: usize) -> (r: Vec<u8>)
    ensures
        r@.len() == n,
        forall|i: int| 0 <= i < n ==> r@[i] == xof128_byte(data@, i),
{
    let mut h = sha3::Shake128::default();
    h.update(data);
    let mut out: Vec<u8> = vec![0u8; n];
    h.finalize_xof().read(&mut out);
    out
}

} // verus!
