//! Constant-time comparison and selection, and secret wiping, behind
//! trusted wrappers over the subtle and zeroize crates.

use vstd::prelude::*;
use subtle::{Choice, ConditionallySelectable, ConstantTimeEq};
use zeroize::Zeroize;

verus! {

/// Relies on subtle's ConstantTimeEq for u16: the returned flag is 1
/// exactly when the operands are equal, computed without branching on
/// their values.
#[verifier::external_body]
pub(crate) fn ct_eq_u16(a: u16, b: u16) -> (r: u8)
    ensures
        r == if a == b {
            1u8
        } else {
            0u8
        },
{
    a.ct_eq(&b).unwrap_u8()
}

/// Relies on subtle's ConditionallySelectable for u8: returns b when the
/// flag is 1 and a when it is 0, without branching on the flag.
#[verifier::external_body]
pub(crate) fn ct_select_u8(a: u8, b: u8, flag: u8) -> (r: u8)
    requires
        flag == 0 || flag == 1,
    ensures
        r == if flag == 1 {
            b
        } else {
            a
        },
{
    u8::conditional_select(&a, &b, Choice::from(flag))
}

/// Relies on zeroize's volatile wipe for byte slices: afterwards every
/// byte is zero and the length is unchanged.
#[verifier::external_body]
pub(crate) fn wipe_bytes(buf: &mut Vec<u8>)
    ensures
        final(buf)@.len() == old(buf)@.len(),
        forall|i: int| 0 <= i < final(buf)@.len() ==> final(buf)@[i] == 0u8,
{
    buf.as_mut_slice().zeroize()
}

/// Relies on zeroize's volatile wipe for i16 slices: afterwards every
/// element is zero and the length is unchanged.
#[verifier::external_body]
pub(crate) fn wipe_i16s(buf: &mut Vec<i16>)
    ensures
        final(buf)@.len() == old(buf)@.len(),
        forall|i: int| 0 <= i < final(buf)@.len() ==> final(buf)@[i] == 0i16,
{
    buf.as_mut_slice().zeroize()
}

} // verus!
