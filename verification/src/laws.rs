//! The codec laws of the field element layer: how far decompression may
//! land from the original value, and that compression inverts
//! decompression exactly on its image.

use vstd::prelude::*;
use vstd::arithmetic::power2::pow2;
use crate::coefficient::{spec_barrett_reduce, spec_compress, spec_decompress, spec_pack};
use crate::block::{spec_byte12, spec_word12, spec_cbyte, spec_dword};
use crate::indcpa::{spec_poly_bytes, spec_poly_compressed, spec_poly_from_bytes};
use crate::poly::Poly;

verus! {

#[verifier::rlimit(100)]
proof fn lemma_rt_bound_1(x: u16)
    by (bit_vector)
    requires
        x < 3329,
    ensures
        (((((x * 2 + 1664) / 3329) % 2) * 3329 + 1) / 2 + 3329 - x + 833) % 3329 <= 1666,
{
}

#[verifier::rlimit(100)]
proof fn lemma_rt_bound_4(x: u16)
    by (bit_vector)
    requires
        x < 3329,
    ensures
        (((((x * 16 + 1664) / 3329) % 16) * 3329 + 8) / 16 + 3329 - x + 105) % 3329 <= 210,
{
}

#[verifier::rlimit(100)]
proof fn lemma_rt_bound_5(x: u16)
    by (bit_vector)
    requires
        x < 3329,
    ensures
        (((((x * 32 + 1664) / 3329) % 32) * 3329 + 16) / 32 + 3329 - x + 53) % 3329 <= 106,
{
}

#[verifier::rlimit(100)]
proof fn lemma_rt_bound_10(x: u16)
    by (bit_vector)
    requires
        x < 3329,
    ensures
        (((((x * 1024 + 1664) / 3329) % 1024) * 3329 + 512) / 1024 + 3329 - x + 2) % 3329 <= 4,
{
}

#[verifier::rlimit(100)]
proof fn lemma_rt_bound_11(x: u16)
    by (bit_vector)
    requires
        x < 3329,
    ensures
        (((((x * 2048 + 1664) / 3329) % 2048) * 3329 + 1024) / 2048 + 3329 - x + 1) % 3329 <= 2,
{
}

/// The rounding error of one compression round trip: for a canonical
/// representative v and any supported width X,
/// decompress(X, compress(X, v)) lands within ceil(q / 2^(X+1)) of v,
/// as residues mod q. The bound is stated as a centered distance: with
/// b = ceil(q / 2^(X+1)) (written (q - 1 + 2^(X+1)) / 2^(X+1)), the
/// difference shifted by b lies in [0, 2b] mod q.
pub proof fn lemma_compress_round_trip_error(x: u32, v: int)
    requires
        x == 1 || x == 4 || x == 5 || x == 10 || x == 11,
        0 <= v < 3329,
    ensures
        ({
            let d = spec_decompress(x, spec_compress(x, v));
            let b = (3328 + (pow2((x + 1) as nat) as int)) / (pow2((x + 1) as nat) as int);
            (d - v + b + 3329) % 3329 <= 2 * b
        }),
{
    vstd::arithmetic::power2::lemma2_to64();
    let v16 = v as u16;
    let c = spec_compress(x, v);
    assert(0 <= c < pow2(x as nat));
    vstd::arithmetic::div_mod::lemma_small_mod(c as nat, pow2(x as nat));
    assert(c % (pow2(x as nat) as int) == c);
    let d = spec_decompress(x, spec_compress(x, v));
    if x == 1 {
        lemma_rt_bound_1(v16);
        assert(d == ((((v * 2 + 1664) / 3329) % 2) * 3329 + 1) / 2);
        assert(pow2(2) == 4);
        assert((x + 1) as nat == 2nat);
        assert(pow2((x + 1) as nat) == 4);
        assert((3328 + (pow2((x + 1) as nat) as int)) / (pow2((x + 1) as nat) as int) == 833);
        assert((d - v + 833 + 3329) % 3329 <= 1666);
    } else if x == 4 {
        lemma_rt_bound_4(v16);
        assert(d == ((((v * 16 + 1664) / 3329) % 16) * 3329 + 8) / 16);
        assert(pow2(5) == 32);
        assert((x + 1) as nat == 5nat);
        assert(pow2((x + 1) as nat) == 32);
        assert((3328 + (pow2((x + 1) as nat) as int)) / (pow2((x + 1) as nat) as int) == 105);
        assert((d - v + 105 + 3329) % 3329 <= 210);
    } else if x == 5 {
        lemma_rt_bound_5(v16);
        assert(d == ((((v * 32 + 1664) / 3329) % 32) * 3329 + 16) / 32);
        assert(pow2(6) == 64);
        assert((x + 1) as nat == 6nat);
        assert(pow2((x + 1) as nat) == 64);
        assert((3328 + (pow2((x + 1) as nat) as int)) / (pow2((x + 1) as nat) as int) == 53);
        assert((d - v + 53 + 3329) % 3329 <= 106);
    } else if x == 10 {
        lemma_rt_bound_10(v16);
        assert(d == ((((v * 1024 + 1664) / 3329) % 1024) * 3329 + 512) / 1024);
        assert(pow2(11) == 2048);
        assert((x + 1) as nat == 11nat);
        assert(pow2((x + 1) as nat) == 2048);
        assert((3328 + (pow2((x + 1) as nat) as int)) / (pow2((x + 1) as nat) as int) == 2);
        assert((d - v + 2 + 3329) % 3329 <= 4);
    } else {
        lemma_rt_bound_11(v16);
        assert(d == ((((v * 2048 + 1664) / 3329) % 2048) * 3329 + 1024) / 2048);
        assert(pow2(12) == 4096);
        assert((x + 1) as nat == 12nat);
        assert(pow2((x + 1) as nat) == 4096);
        assert((3328 + (pow2((x + 1) as nat) as int)) / (pow2((x + 1) as nat) as int) == 1);
        assert((d - v + 1 + 3329) % 3329 <= 2);
    }
}

/// Barrett reduction is a reduction: for any 16-bit input the result is
/// congruent to it mod q and lies in [-(q-1)/2, (q+1)/2].
pub proof fn lemma_barrett_is_reduction(a: int)
    requires
        -32768 <= a <= 32767,
    ensures
        -1664 <= spec_barrett_reduce(a) <= 1665,
        (a - spec_barrett_reduce(a)) % 3329 == 0,
{
    let a16: i16 = a as i16;
    let s: i32 = (20159 * a + 0x2000000) as i32;
    assert(s == 20159 * a + 0x2000000);
    let t: i32 = s >> 26;
    crate::coefficient::lemma_shift_is_div_26(s);
    let r: i32 = (a - (t as int) * 3329) as i32;
    assert(-11 <= t <= 11);
    assert(r == a - (t as int) * 3329);
    crate::coefficient::lemma_barrett_range(a16, s, t, r);
    assert(spec_barrett_reduce(a) == a - (s / 0x4000000) * 3329);
    vstd::arithmetic::div_mod::lemma_mod_multiples_basic(t as int, 3329);
}

#[verifier::rlimit(100)]
proof fn lemma_cd_word_1(w: u16)
    by (bit_vector)
    ensures
        (((w % 2) * 3329 + 1) / 2 * 2 + 1664) / 3329 % 2 == w % 2,
{
}

#[verifier::rlimit(100)]
proof fn lemma_cd_word_4(w: u16)
    by (bit_vector)
    ensures
        (((w % 16) * 3329 + 8) / 16 * 16 + 1664) / 3329 % 16 == w % 16,
{
}

#[verifier::rlimit(100)]
proof fn lemma_cd_word_5(w: u16)
    by (bit_vector)
    ensures
        (((w % 32) * 3329 + 16) / 32 * 32 + 1664) / 3329 % 32 == w % 32,
{
}

#[verifier::rlimit(100)]
proof fn lemma_cd_word_10(w: u16)
    by (bit_vector)
    ensures
        (((w % 1024) * 3329 + 512) / 1024 * 1024 + 1664) / 3329 % 1024 == w % 1024,
{
}

#[verifier::rlimit(100)]
proof fn lemma_cd_word_11(w: u16)
    by (bit_vector)
    ensures
        (((w % 2048) * 3329 + 1024) / 2048 * 2048 + 1664) / 3329 % 2048 == w % 2048,
{
}

/// Compression inverts decompression exactly: a value already in the
/// image of X-bit decompression compresses back to the word it came
/// from. This is the coefficient-level content of the block round trip:
/// re-serializing a decompressed block reproduces its bytes.
pub proof fn lemma_decompress_then_compress(x: u32, w: int)
    requires
        x == 1 || x == 4 || x == 5 || x == 10 || x == 11,
        0 <= w < 65536,
    ensures
        spec_compress(x, spec_decompress(x, w)) == w % (pow2(x as nat) as int),
{
    vstd::arithmetic::power2::lemma2_to64();
    let w16 = w as u16;
    if x == 1 {
        lemma_cd_word_1(w16);
    } else if x == 4 {
        lemma_cd_word_4(w16);
    } else if x == 5 {
        lemma_cd_word_5(w16);
    } else if x == 10 {
        lemma_cd_word_10(w16);
    } else {
        lemma_cd_word_11(w16);
    }
}


#[verifier::rlimit(60)]
proof fn lemma_word12_round(c0: u16, c1: u16)
    by (bit_vector)
    requires
        c0 < 4096,
        c1 < 4096,
    ensures
        ((c0 / 256 + c1 * 16) % 256) % 16 == c0 / 256,
        ((c0 / 256 + c1 * 16) % 256) / 16 + (c1 / 16) * 16 == c1,
{
}

/// The 12-bit polynomial serialization round-trips: reading back the
/// serialized bytes returns every coefficient unchanged, for any
/// polynomial whose representatives are the stored 12-bit words
/// (nonnegative and below 2^12).
pub proof fn lemma_poly_serialization_round_trip(p: Poly)
    requires
        p.wf(),
        p.bounded(0, 4095),
    ensures
        forall|i: int| 0 <= i < 256 ==> spec_word12(
            #[trigger] spec_poly_bytes(p).subrange(12 * (i / 8), 12 * (i / 8) + 12),
            i % 8,
        ) == p.at(i),
{
    assert forall|i: int| 0 <= i < 256 implies spec_word12(
        #[trigger] spec_poly_bytes(p).subrange(12 * (i / 8), 12 * (i / 8) + 12),
        i % 8,
    ) == p.at(i) by {
        let m = i / 8;
        let jj = i % 8;
        let w = spec_poly_bytes(p).subrange(12 * m, 12 * m + 12);
        assert forall|j: int| 0 <= j < 12 implies (#[trigger] w[j]) as int == spec_byte12(
            p.blk(m),
            j,
        ) by {
            assert(w[j] == spec_poly_bytes(p)[12 * m + j]);
            assert((12 * m + j) / 12 == m && (12 * m + j) % 12 == j);
            let t = p.blk(m);
            assert(t[2 * (j / 3)] == p.at(8 * m + 2 * (j / 3)));
            assert(t[2 * (j / 3) + 1] == p.at(8 * m + 2 * (j / 3) + 1));
            assert(0 <= p.at(8 * m + 2 * (j / 3)) <= 4095);
            assert(0 <= p.at(8 * m + 2 * (j / 3) + 1) <= 4095);
            assert(0 <= spec_byte12(p.blk(m), j) < 256);
        }
        let pair = jj / 2;
        let c0 = p.at(8 * m + 2 * pair);
        let c1 = p.at(8 * m + 2 * pair + 1);
        assert(0 <= c0 <= 4095 && 0 <= c1 <= 4095);
        assert(spec_pack(c0) == c0 && spec_pack(c1) == c1);
        assert(p.blk(m)[2 * pair] == c0 && p.blk(m)[2 * pair + 1] == c1);
        assert((3 * pair) / 3 == pair && (3 * pair) % 3 == 0);
        assert((3 * pair + 1) / 3 == pair && (3 * pair + 1) % 3 == 1);
        assert((3 * pair + 2) / 3 == pair && (3 * pair + 2) % 3 == 2);
        assert(w[3 * pair] as int == c0 % 256);
        assert(w[3 * pair + 1] as int == (c0 / 256 + c1 * 16) % 256);
        assert(w[3 * pair + 2] as int == c1 / 16);
        lemma_word12_round(c0 as u16, c1 as u16);
        if jj % 2 == 0 {
            assert(jj == 2 * pair);
            assert(spec_word12(w, jj) == w[3 * pair] as int + (w[3 * pair + 1] as int % 16)
                * 256);
            assert(w[3 * pair + 1] as int % 16 == c0 / 256);
            vstd::arithmetic::div_mod::lemma_fundamental_div_mod(c0, 256);
            assert(p.at(i) == c0);
        } else {
            assert(jj == 2 * pair + 1);
            assert(spec_word12(w, jj) == w[3 * pair + 1] as int / 16 + w[3 * pair + 2] as int
                * 16);
            assert(p.at(i) == c1);
        }
    }
}


#[verifier::rlimit(60)]
proof fn lemma_pack4(t0: u16, t1: u16, b: u16)
    by (bit_vector)
    requires
        t0 < 16,
        t1 < 16,
        b == t0 + t1 * 16,
    ensures
        b % 16 == t0,
        b / 16 == t1,
{
}

/// A compressed polynomial serialization round-trips for coefficients in
/// the image of decompression: decoding the encoded bytes returns every
/// coefficient unchanged.
pub proof fn lemma_compressed_round_trip_4(p: Poly)
    requires
        p.wf(),
        p.bounded(0, 3328),
        forall|i: int| 0 <= i < 256 ==> spec_decompress(4, spec_compress(4, #[trigger] p.at(i)))
            == p.at(i),
    ensures
        forall|i: int| 0 <= i < 256 ==> spec_decompress(
            4,
            spec_dword(
                4,
                spec_poly_compressed(p, 4).subrange(4 * (i / 8), 4 * (i / 8) + 4),
                i % 8,
            ),
        ) == #[trigger] p.at(i),
{
    vstd::arithmetic::power2::lemma2_to64();
    assert forall|i: int| 0 <= i < 256 implies spec_decompress(
        4,
        spec_dword(4, spec_poly_compressed(p, 4).subrange(4 * (i / 8), 4 * (i / 8) + 4), i % 8),
    ) == #[trigger] p.at(i) by {
        let m = i / 8;
        let jj = i % 8;
        let w = spec_poly_compressed(p, 4).subrange(4 * m, 4 * m + 4);
        let t = p.cvblk(4, m);
        assert forall|j: int| 0 <= j < 8 implies 0 <= #[trigger] t[j] < 16 && t[j]
            == spec_compress(4, p.at(8 * m + j)) by {
            assert(0 <= p.at(8 * m + j) <= 3328);
            assert(spec_pack(p.at(8 * m + j)) == p.at(8 * m + j));
        }
        assert forall|k: int| 0 <= k < 4 implies (#[trigger] w[k]) as int == spec_cbyte(
            4,
            t,
            k,
        ) by {
            assert(w[k] == spec_poly_compressed(p, 4)[4 * m + k]);
            assert((4 * m + k) / 4 == m && (4 * m + k) % 4 == k);
            assert(0 <= t[2 * k] < 16 && 0 <= t[2 * k + 1] < 16);
            assert(0 <= spec_cbyte(4, t, k) < 256);
        }
        let pair = jj / 2;
        assert(w[pair] as int == t[2 * pair] + t[2 * pair + 1] * 16);
        lemma_pack4(t[2 * pair] as u16, t[2 * pair + 1] as u16, w[pair] as u16);
        let dw = spec_dword(4, w, jj);
        if jj % 2 == 0 {
            assert(jj == 2 * pair);
            assert(dw == w[pair] as int);
            assert(dw % 16 == t[jj]);
        } else {
            assert(jj == 2 * pair + 1);
            assert(dw == w[pair] as int / 16);
            assert(dw == t[jj]);
            vstd::arithmetic::div_mod::lemma_small_mod(t[jj] as nat, 16);
            assert(dw % 16 == t[jj]);
        }
        assert(spec_decompress(4, dw) == (dw % 16 * 3329 + 8) / 16);
        assert(spec_decompress(4, t[jj]) == (t[jj] % 16 * 3329 + 8) / 16);
        vstd::arithmetic::div_mod::lemma_small_mod(t[jj] as nat, 16);
        assert(spec_decompress(4, dw) == spec_decompress(4, t[jj]));
        assert(t[jj] == spec_compress(4, p.at(i)));
    }
}


#[verifier::rlimit(100)]
proof fn lemma_pack5_w0(t0: u16, t1: u16)
    by (bit_vector)
    requires
        t0 < 32,
        t1 < 32,
    ensures
        ((t0 + t1 * 32) % 256) % 32 == t0 % 32,
{
}

#[verifier::rlimit(100)]
proof fn lemma_pack5_w1(t0: u16, t1: u16, t2: u16, t3: u16)
    by (bit_vector)
    requires
        t0 < 32,
        t1 < 32,
        t2 < 32,
        t3 < 32,
    ensures
        (((t0 + t1 * 32) % 256) / 32 + ((t1 / 8 + t2 * 4 + t3 * 128) % 256) * 8) % 32 == t1 % 32,
{
}

#[verifier::rlimit(100)]
proof fn lemma_pack5_w2(t1: u16, t2: u16, t3: u16)
    by (bit_vector)
    requires
        t1 < 32,
        t2 < 32,
        t3 < 32,
    ensures
        (((t1 / 8 + t2 * 4 + t3 * 128) % 256) / 4) % 32 == t2 % 32,
{
}

#[verifier::rlimit(100)]
proof fn lemma_pack5_w3(t1: u16, t2: u16, t3: u16, t4: u16)
    by (bit_vector)
    requires
        t1 < 32,
        t2 < 32,
        t3 < 32,
        t4 < 32,
    ensures
        (((t1 / 8 + t2 * 4 + t3 * 128) % 256) / 128 + ((t3 / 2 + t4 * 16) % 256) * 2) % 32 == t3 % 32,
{
}

#[verifier::rlimit(100)]
proof fn lemma_pack5_w4(t3: u16, t4: u16, t5: u16, t6: u16)
    by (bit_vector)
    requires
        t3 < 32,
        t4 < 32,
        t5 < 32,
        t6 < 32,
    ensures
        (((t3 / 2 + t4 * 16) % 256) / 16 + ((t4 / 16 + t5 * 2 + t6 * 64) % 256) * 16) % 32 == t4 % 32,
{
}

#[verifier::rlimit(100)]
proof fn lemma_pack5_w5(t4: u16, t5: u16, t6: u16)
    by (bit_vector)
    requires
        t4 < 32,
        t5 < 32,
        t6 < 32,
    ensures
        (((t4 / 16 + t5 * 2 + t6 * 64) % 256) / 2) % 32 == t5 % 32,
{
}

#[verifier::rlimit(100)]
proof fn lemma_pack5_w6(t4: u16, t5: u16, t6: u16, t7: u16)
    by (bit_vector)
    requires
        t4 < 32,
        t5 < 32,
        t6 < 32,
        t7 < 32,
    ensures
        (((t4 / 16 + t5 * 2 + t6 * 64) % 256) / 64 + ((t6 / 4 + t7 * 8) % 256) * 4) % 32 == t6 % 32,
{
}

#[verifier::rlimit(100)]
proof fn lemma_pack5_w7(t6: u16, t7: u16)
    by (bit_vector)
    requires
        t6 < 32,
        t7 < 32,
    ensures
        (((t6 / 4 + t7 * 8) % 256) / 8) % 32 == t7 % 32,
{
}

#[verifier::rlimit(100)]
proof fn lemma_pack10_w0(t0: u16, t1: u16)
    by (bit_vector)
    requires
        t0 < 1024,
        t1 < 1024,
    ensures
        (t0 % 256 + ((t0 / 256 + t1 * 4) % 256) * 256) % 1024 == t0 % 1024,
{
}

#[verifier::rlimit(100)]
proof fn lemma_pack10_w1(t0: u16, t1: u16, t2: u16)
    by (bit_vector)
    requires
        t0 < 1024,
        t1 < 1024,
        t2 < 1024,
    ensures
        (((t0 / 256 + t1 * 4) % 256) / 4 + ((t1 / 64 + t2 * 16) % 256) * 64) % 1024 == t1 % 1024,
{
}

#[verifier::rlimit(100)]
proof fn lemma_pack10_w2(t1: u16, t2: u16, t3: u16)
    by (bit_vector)
    requires
        t1 < 1024,
        t2 < 1024,
        t3 < 1024,
    ensures
        (((t1 / 64 + t2 * 16) % 256) / 16 + ((t2 / 16 + t3 * 64) % 256) * 16) % 1024 == t2 % 1024,
{
}

#[verifier::rlimit(100)]
proof fn lemma_pack10_w3(t2: u16, t3: u16)
    by (bit_vector)
    requires
        t2 < 1024,
        t3 < 1024,
    ensures
        (((t2 / 16 + t3 * 64) % 256) / 64 + (t3 / 4) * 4) % 1024 == t3 % 1024,
{
}

#[verifier::rlimit(100)]
proof fn lemma_pack11_w0(t0: u16, t1: u16)
    by (bit_vector)
    requires
        t0 < 2048,
        t1 < 2048,
    ensures
        (t0 % 256 + ((t0 / 256 + t1 * 8) % 256) * 256) % 2048 == t0 % 2048,
{
}

#[verifier::rlimit(100)]
proof fn lemma_pack11_w1(t0: u16, t1: u16, t2: u16)
    by (bit_vector)
    requires
        t0 < 2048,
        t1 < 2048,
        t2 < 2048,
    ensures
        (((t0 / 256 + t1 * 8) % 256) / 8 + ((t1 / 32 + t2 * 64) % 256) * 32) % 2048 == t1 % 2048,
{
}

#[verifier::rlimit(100)]
proof fn lemma_pack11_w2(t1: u16, t2: u16, t3: u16)
    by (bit_vector)
    requires
        t1 < 2048,
        t2 < 2048,
        t3 < 2048,
    ensures
        (((t1 / 32 + t2 * 64) % 256) / 64 + ((t2 / 4) % 256) * 4 + (((t2 / 1024 + t3 * 2) % 256) % 64) * 1024) % 2048 == t2 % 2048,
{
}

#[verifier::rlimit(100)]
proof fn lemma_pack11_w3(t2: u16, t3: u16, t4: u16)
    by (bit_vector)
    requires
        t2 < 2048,
        t3 < 2048,
        t4 < 2048,
    ensures
        (((t2 / 1024 + t3 * 2) % 256) / 2 + ((t3 / 128 + t4 * 16) % 256) * 128) % 2048 == t3 % 2048,
{
}

#[verifier::rlimit(100)]
proof fn lemma_pack11_w4(t3: u16, t4: u16, t5: u16)
    by (bit_vector)
    requires
        t3 < 2048,
        t4 < 2048,
        t5 < 2048,
    ensures
        (((t3 / 128 + t4 * 16) % 256) / 16 + ((t4 / 16 + t5 * 128) % 256) * 16) % 2048 == t4 % 2048,
{
}

#[verifier::rlimit(100)]
proof fn lemma_pack11_w5(t4: u16, t5: u16, t6: u16)
    by (bit_vector)
    requires
        t4 < 2048,
        t5 < 2048,
        t6 < 2048,
    ensures
        (((t4 / 16 + t5 * 128) % 256) / 128 + ((t5 / 2) % 256) * 2 + (((t5 / 512 + t6 * 4) % 256) % 128) * 512) % 2048 == t5 % 2048,
{
}

#[verifier::rlimit(100)]
proof fn lemma_pack11_w6(t5: u16, t6: u16, t7: u16)
    by (bit_vector)
    requires
        t5 < 2048,
        t6 < 2048,
        t7 < 2048,
    ensures
        (((t5 / 512 + t6 * 4) % 256) / 4 + ((t6 / 64 + t7 * 32) % 256) * 64) % 2048 == t6 % 2048,
{
}

#[verifier::rlimit(100)]
proof fn lemma_pack11_w7(t6: u16, t7: u16)
    by (bit_vector)
    requires
        t6 < 2048,
        t7 < 2048,
    ensures
        (((t6 / 64 + t7 * 32) % 256) / 32 + (t7 / 8) * 8) % 2048 == t7 % 2048,
{
}


/// A 5-bit compressed polynomial serialization round-trips for
/// coefficients in the image of decompression: decoding the encoded
/// bytes returns every coefficient unchanged.
#[verifier::rlimit(100)]
#[verifier::spinoff_prover]
pub proof fn lemma_compressed_round_trip_5(p: Poly)
    requires
        p.wf(),
        p.bounded(0, 3328),
        forall|i: int| 0 <= i < 256 ==> spec_decompress(5, spec_compress(5, #[trigger] p.at(i)))
            == p.at(i),
    ensures
        forall|i: int| 0 <= i < 256 ==> spec_decompress(
            5,
            spec_dword(
                5,
                spec_poly_compressed(p, 5).subrange(5 * (i / 8), 5 * (i / 8) + 5),
                i % 8,
            ),
        ) == #[trigger] p.at(i),
{
    vstd::arithmetic::power2::lemma2_to64();
    assert forall|i: int| 0 <= i < 256 implies spec_decompress(
        5,
        spec_dword(
            5,
            spec_poly_compressed(p, 5).subrange(5 * (i / 8), 5 * (i / 8) + 5),
            i % 8,
        ),
    ) == #[trigger] p.at(i) by {
        let m = i / 8;
        let jj = i % 8;
        let w = spec_poly_compressed(p, 5).subrange(5 * m, 5 * m + 5);
        let t = p.cvblk(5, m);
        assert forall|j: int| 0 <= j < 8 implies 0 <= #[trigger] t[j] < 32 && t[j]
            == spec_compress(5, p.at(8 * m + j)) by {
            assert(0 <= p.at(8 * m + j) <= 3328);
            assert(spec_pack(p.at(8 * m + j)) == p.at(8 * m + j));
        }
        assert forall|k: int| 0 <= k < 5 implies (#[trigger] w[k]) as int == spec_cbyte(
            5,
            t,
            k,
        ) by {
            assert(w[k] == spec_poly_compressed(p, 5)[5 * m + k]);
            assert((5 * m + k) / 5 == m && (5 * m + k) % 5 == k);
            assert(0 <= spec_cbyte(5, t, k) < 256);
        }
        let dw = spec_dword(5, w, jj);
        if jj == 0 {
            assert(w[0] as int == (t[0] + t[1] * 32) % 256);
            assert((t[0] as u16) as int == t[0]);
            assert((t[1] as u16) as int == t[1]);
            assert(dw == w[0] as int);
            lemma_pack5_w0(t[0] as u16, t[1] as u16);
            assert(dw % 32 == t[0] % 32);
        } else if jj == 1 {
            assert(w[0] as int == (t[0] + t[1] * 32) % 256);
            assert(w[1] as int == (t[1] / 8 + t[2] * 4 + t[3] * 128) % 256);
            assert((t[0] as u16) as int == t[0]);
            assert((t[1] as u16) as int == t[1]);
            assert((t[2] as u16) as int == t[2]);
            assert((t[3] as u16) as int == t[3]);
            assert(dw == w[0] as int / 32 + w[1] as int * 8);
            lemma_pack5_w1(t[0] as u16, t[1] as u16, t[2] as u16, t[3] as u16);
            assert(dw % 32 == t[1] % 32);
        } else if jj == 2 {
            assert(w[1] as int == (t[1] / 8 + t[2] * 4 + t[3] * 128) % 256);
            assert((t[1] as u16) as int == t[1]);
            assert((t[2] as u16) as int == t[2]);
            assert((t[3] as u16) as int == t[3]);
            assert(dw == w[1] as int / 4);
            lemma_pack5_w2(t[1] as u16, t[2] as u16, t[3] as u16);
            assert(dw % 32 == t[2] % 32);
        } else if jj == 3 {
            assert(w[1] as int == (t[1] / 8 + t[2] * 4 + t[3] * 128) % 256);
            assert(w[2] as int == (t[3] / 2 + t[4] * 16) % 256);
            assert((t[1] as u16) as int == t[1]);
            assert((t[2] as u16) as int == t[2]);
            assert((t[3] as u16) as int == t[3]);
            assert((t[4] as u16) as int == t[4]);
            assert(dw == w[1] as int / 128 + w[2] as int * 2);
            lemma_pack5_w3(t[1] as u16, t[2] as u16, t[3] as u16, t[4] as u16);
            assert(dw % 32 == t[3] % 32);
        } else if jj == 4 {
            assert(w[2] as int == (t[3] / 2 + t[4] * 16) % 256);
            assert(w[3] as int == (t[4] / 16 + t[5] * 2 + t[6] * 64) % 256);
            assert((t[3] as u16) as int == t[3]);
            assert((t[4] as u16) as int == t[4]);
            assert((t[5] as u16) as int == t[5]);
            assert((t[6] as u16) as int == t[6]);
            assert(dw == w[2] as int / 16 + w[3] as int * 16);
            lemma_pack5_w4(t[3] as u16, t[4] as u16, t[5] as u16, t[6] as u16);
            assert(dw % 32 == t[4] % 32);
        } else if jj == 5 {
            assert(w[3] as int == (t[4] / 16 + t[5] * 2 + t[6] * 64) % 256);
            assert((t[4] as u16) as int == t[4]);
            assert((t[5] as u16) as int == t[5]);
            assert((t[6] as u16) as int == t[6]);
            assert(dw == w[3] as int / 2);
            lemma_pack5_w5(t[4] as u16, t[5] as u16, t[6] as u16);
            assert(dw % 32 == t[5] % 32);
        } else if jj == 6 {
            assert(w[3] as int == (t[4] / 16 + t[5] * 2 + t[6] * 64) % 256);
            assert(w[4] as int == (t[6] / 4 + t[7] * 8) % 256);
            assert((t[4] as u16) as int == t[4]);
            assert((t[5] as u16) as int == t[5]);
            assert((t[6] as u16) as int == t[6]);
            assert((t[7] as u16) as int == t[7]);
            assert(dw == w[3] as int / 64 + w[4] as int * 4);
            lemma_pack5_w6(t[4] as u16, t[5] as u16, t[6] as u16, t[7] as u16);
            assert(dw % 32 == t[6] % 32);
        } else if jj == 7 {
            assert(w[4] as int == (t[6] / 4 + t[7] * 8) % 256);
            assert((t[6] as u16) as int == t[6]);
            assert((t[7] as u16) as int == t[7]);
            assert(dw == w[4] as int / 8);
            lemma_pack5_w7(t[6] as u16, t[7] as u16);
            assert(dw % 32 == t[7] % 32);
        }
        vstd::arithmetic::div_mod::lemma_small_mod(t[jj] as nat, 32);
        assert(spec_decompress(5, dw) == (dw % 32 * 3329 + 16) / 32);
        assert(spec_decompress(5, t[jj]) == (t[jj] % 32 * 3329 + 16) / 32);
        assert(spec_decompress(5, dw) == spec_decompress(5, t[jj]));
        assert(t[jj] == spec_compress(5, p.at(i)));
    }
}

/// A 10-bit compressed polynomial serialization round-trips for
/// coefficients in the image of decompression: decoding the encoded
/// bytes returns every coefficient unchanged.
#[verifier::rlimit(100)]
#[verifier::spinoff_prover]
pub proof fn lemma_compressed_round_trip_10(p: Poly)
    requires
        p.wf(),
        p.bounded(0, 3328),
        forall|i: int| 0 <= i < 256 ==> spec_decompress(10, spec_compress(10, #[trigger] p.at(i)))
            == p.at(i),
    ensures
        forall|i: int| 0 <= i < 256 ==> spec_decompress(
            10,
            spec_dword(
                10,
                spec_poly_compressed(p, 10).subrange(10 * (i / 8), 10 * (i / 8) + 10),
                i % 8,
            ),
        ) == #[trigger] p.at(i),
{
    vstd::arithmetic::power2::lemma2_to64();
    assert forall|i: int| 0 <= i < 256 implies spec_decompress(
        10,
        spec_dword(
            10,
            spec_poly_compressed(p, 10).subrange(10 * (i / 8), 10 * (i / 8) + 10),
            i % 8,
        ),
    ) == #[trigger] p.at(i) by {
        let m = i / 8;
        let jj = i % 8;
        let w = spec_poly_compressed(p, 10).subrange(10 * m, 10 * m + 10);
        let t = p.cvblk(10, m);
        assert forall|j: int| 0 <= j < 8 implies 0 <= #[trigger] t[j] < 1024 && t[j]
            == spec_compress(10, p.at(8 * m + j)) by {
            assert(0 <= p.at(8 * m + j) <= 3328);
            assert(spec_pack(p.at(8 * m + j)) == p.at(8 * m + j));
        }
        assert forall|k: int| 0 <= k < 10 implies (#[trigger] w[k]) as int == spec_cbyte(
            10,
            t,
            k,
        ) by {
            assert(w[k] == spec_poly_compressed(p, 10)[10 * m + k]);
            assert((10 * m + k) / 10 == m && (10 * m + k) % 10 == k);
            assert(0 <= spec_cbyte(10, t, k) < 256);
        }
        let dw = spec_dword(10, w, jj);
        if jj == 0 {
            assert(w[0] as int == t[0] % 256);
            assert(w[1] as int == (t[0] / 256 + t[1] * 4) % 256);
            assert((t[0] as u16) as int == t[0]);
            assert((t[1] as u16) as int == t[1]);
            assert(dw == w[0] as int + w[1] as int * 256);
            lemma_pack10_w0(t[0] as u16, t[1] as u16);
            assert(dw % 1024 == t[0] % 1024);
        } else if jj == 1 {
            assert(w[1] as int == (t[0] / 256 + t[1] * 4) % 256);
            assert(w[2] as int == (t[1] / 64 + t[2] * 16) % 256);
            assert((t[0] as u16) as int == t[0]);
            assert((t[1] as u16) as int == t[1]);
            assert((t[2] as u16) as int == t[2]);
            assert(dw == w[1] as int / 4 + w[2] as int * 64);
            lemma_pack10_w1(t[0] as u16, t[1] as u16, t[2] as u16);
            assert(dw % 1024 == t[1] % 1024);
        } else if jj == 2 {
            assert(w[2] as int == (t[1] / 64 + t[2] * 16) % 256);
            assert(w[3] as int == (t[2] / 16 + t[3] * 64) % 256);
            assert((t[1] as u16) as int == t[1]);
            assert((t[2] as u16) as int == t[2]);
            assert((t[3] as u16) as int == t[3]);
            assert(dw == w[2] as int / 16 + w[3] as int * 16);
            lemma_pack10_w2(t[1] as u16, t[2] as u16, t[3] as u16);
            assert(dw % 1024 == t[2] % 1024);
        } else if jj == 3 {
            assert(w[3] as int == (t[2] / 16 + t[3] * 64) % 256);
            assert(w[4] as int == t[3] / 4);
            assert((t[2] as u16) as int == t[2]);
            assert((t[3] as u16) as int == t[3]);
            assert(dw == w[3] as int / 64 + w[4] as int * 4);
            lemma_pack10_w3(t[2] as u16, t[3] as u16);
            assert(dw % 1024 == t[3] % 1024);
        } else if jj == 4 {
            assert(w[5] as int == t[4] % 256);
            assert(w[6] as int == (t[4] / 256 + t[5] * 4) % 256);
            assert((t[4] as u16) as int == t[4]);
            assert((t[5] as u16) as int == t[5]);
            assert(dw == w[5] as int + w[6] as int * 256);
            lemma_pack10_w0(t[4] as u16, t[5] as u16);
            assert(dw % 1024 == t[4] % 1024);
        } else if jj == 5 {
            assert(w[6] as int == (t[4] / 256 + t[5] * 4) % 256);
            assert(w[7] as int == (t[5] / 64 + t[6] * 16) % 256);
            assert((t[4] as u16) as int == t[4]);
            assert((t[5] as u16) as int == t[5]);
            assert((t[6] as u16) as int == t[6]);
            assert(dw == w[6] as int / 4 + w[7] as int * 64);
            lemma_pack10_w1(t[4] as u16, t[5] as u16, t[6] as u16);
            assert(dw % 1024 == t[5] % 1024);
        } else if jj == 6 {
            assert(w[7] as int == (t[5] / 64 + t[6] * 16) % 256);
            assert(w[8] as int == (t[6] / 16 + t[7] * 64) % 256);
            assert((t[5] as u16) as int == t[5]);
            assert((t[6] as u16) as int == t[6]);
            assert((t[7] as u16) as int == t[7]);
            assert(dw == w[7] as int / 16 + w[8] as int * 16);
            lemma_pack10_w2(t[5] as u16, t[6] as u16, t[7] as u16);
            assert(dw % 1024 == t[6] % 1024);
        } else if jj == 7 {
            assert(w[8] as int == (t[6] / 16 + t[7] * 64) % 256);
            assert(w[9] as int == t[7] / 4);
            assert((t[6] as u16) as int == t[6]);
            assert((t[7] as u16) as int == t[7]);
            assert(dw == w[8] as int / 64 + w[9] as int * 4);
            lemma_pack10_w3(t[6] as u16, t[7] as u16);
            assert(dw % 1024 == t[7] % 1024);
        }
        vstd::arithmetic::div_mod::lemma_small_mod(t[jj] as nat, 1024);
        assert(spec_decompress(10, dw) == (dw % 1024 * 3329 + 512) / 1024);
        assert(spec_decompress(10, t[jj]) == (t[jj] % 1024 * 3329 + 512) / 1024);
        assert(spec_decompress(10, dw) == spec_decompress(10, t[jj]));
        assert(t[jj] == spec_compress(10, p.at(i)));
    }
}

/// A 11-bit compressed polynomial serialization round-trips for
/// coefficients in the image of decompression: decoding the encoded
/// bytes returns every coefficient unchanged.
#[verifier::rlimit(100)]
#[verifier::spinoff_prover]
pub proof fn lemma_compressed_round_trip_11(p: Poly)
    requires
        p.wf(),
        p.bounded(0, 3328),
        forall|i: int| 0 <= i < 256 ==> spec_decompress(11, spec_compress(11, #[trigger] p.at(i)))
            == p.at(i),
    ensures
        forall|i: int| 0 <= i < 256 ==> spec_decompress(
            11,
            spec_dword(
                11,
                spec_poly_compressed(p, 11).subrange(11 * (i / 8), 11 * (i / 8) + 11),
                i % 8,
            ),
        ) == #[trigger] p.at(i),
{
    vstd::arithmetic::power2::lemma2_to64();
    assert forall|i: int| 0 <= i < 256 implies spec_decompress(
        11,
        spec_dword(
            11,
            spec_poly_compressed(p, 11).subrange(11 * (i / 8), 11 * (i / 8) + 11),
            i % 8,
        ),
    ) == #[trigger] p.at(i) by {
        let m = i / 8;
        let jj = i % 8;
        let w = spec_poly_compressed(p, 11).subrange(11 * m, 11 * m + 11);
        let t = p.cvblk(11, m);
        assert forall|j: int| 0 <= j < 8 implies 0 <= #[trigger] t[j] < 2048 && t[j]
            == spec_compress(11, p.at(8 * m + j)) by {
            assert(0 <= p.at(8 * m + j) <= 3328);
            assert(spec_pack(p.at(8 * m + j)) == p.at(8 * m + j));
        }
        assert forall|k: int| 0 <= k < 11 implies (#[trigger] w[k]) as int == spec_cbyte(
            11,
            t,
            k,
        ) by {
            assert(w[k] == spec_poly_compressed(p, 11)[11 * m + k]);
            assert((11 * m + k) / 11 == m && (11 * m + k) % 11 == k);
            assert(0 <= spec_cbyte(11, t, k) < 256);
        }
        let dw = spec_dword(11, w, jj);
        if jj == 0 {
            assert(w[0] as int == t[0] % 256);
            assert(w[1] as int == (t[0] / 256 + t[1] * 8) % 256);
            assert((t[0] as u16) as int == t[0]);
            assert((t[1] as u16) as int == t[1]);
            assert(dw == w[0] as int + w[1] as int * 256);
            lemma_pack11_w0(t[0] as u16, t[1] as u16);
            assert(dw % 2048 == t[0] % 2048);
        } else if jj == 1 {
            assert(w[1] as int == (t[0] / 256 + t[1] * 8) % 256);
            assert(w[2] as int == (t[1] / 32 + t[2] * 64) % 256);
            assert((t[0] as u16) as int == t[0]);
            assert((t[1] as u16) as int == t[1]);
            assert((t[2] as u16) as int == t[2]);
            assert(dw == w[1] as int / 8 + w[2] as int * 32);
            lemma_pack11_w1(t[0] as u16, t[1] as u16, t[2] as u16);
            assert(dw % 2048 == t[1] % 2048);
        } else if jj == 2 {
            assert(w[2] as int == (t[1] / 32 + t[2] * 64) % 256);
            assert(w[3] as int == (t[2] / 4) % 256);
            assert(w[4] as int == (t[2] / 1024 + t[3] * 2) % 256);
            assert((t[1] as u16) as int == t[1]);
            assert((t[2] as u16) as int == t[2]);
            assert((t[3] as u16) as int == t[3]);
            assert(dw == w[2] as int / 64 + w[3] as int * 4 + (w[4] as int % 64) * 1024);
            lemma_pack11_w2(t[1] as u16, t[2] as u16, t[3] as u16);
            assert(dw % 2048 == t[2] % 2048);
        } else if jj == 3 {
            assert(w[4] as int == (t[2] / 1024 + t[3] * 2) % 256);
            assert(w[5] as int == (t[3] / 128 + t[4] * 16) % 256);
            assert((t[2] as u16) as int == t[2]);
            assert((t[3] as u16) as int == t[3]);
            assert((t[4] as u16) as int == t[4]);
            assert(dw == w[4] as int / 2 + w[5] as int * 128);
            lemma_pack11_w3(t[2] as u16, t[3] as u16, t[4] as u16);
            assert(dw % 2048 == t[3] % 2048);
        } else if jj == 4 {
            assert(w[5] as int == (t[3] / 128 + t[4] * 16) % 256);
            assert(w[6] as int == (t[4] / 16 + t[5] * 128) % 256);
            assert((t[3] as u16) as int == t[3]);
            assert((t[4] as u16) as int == t[4]);
            assert((t[5] as u16) as int == t[5]);
            assert(dw == w[5] as int / 16 + w[6] as int * 16);
            lemma_pack11_w4(t[3] as u16, t[4] as u16, t[5] as u16);
            assert(dw % 2048 == t[4] % 2048);
        } else if jj == 5 {
            assert(w[6] as int == (t[4] / 16 + t[5] * 128) % 256);
            assert(w[7] as int == (t[5] / 2) % 256);
            assert(w[8] as int == (t[5] / 512 + t[6] * 4) % 256);
            assert((t[4] as u16) as int == t[4]);
            assert((t[5] as u16) as int == t[5]);
            assert((t[6] as u16) as int == t[6]);
            assert(dw == w[6] as int / 128 + w[7] as int * 2 + (w[8] as int % 128) * 512);
            lemma_pack11_w5(t[4] as u16, t[5] as u16, t[6] as u16);
            assert(dw % 2048 == t[5] % 2048);
        } else if jj == 6 {
            assert(w[8] as int == (t[5] / 512 + t[6] * 4) % 256);
            assert(w[9] as int == (t[6] / 64 + t[7] * 32) % 256);
            assert((t[5] as u16) as int == t[5]);
            assert((t[6] as u16) as int == t[6]);
            assert((t[7] as u16) as int == t[7]);
            assert(dw == w[8] as int / 4 + w[9] as int * 64);
            lemma_pack11_w6(t[5] as u16, t[6] as u16, t[7] as u16);
            assert(dw % 2048 == t[6] % 2048);
        } else if jj == 7 {
            assert(w[9] as int == (t[6] / 64 + t[7] * 32) % 256);
            assert(w[10] as int == t[7] / 8);
            assert((t[6] as u16) as int == t[6]);
            assert((t[7] as u16) as int == t[7]);
            assert(dw == w[9] as int / 32 + w[10] as int * 8);
            lemma_pack11_w7(t[6] as u16, t[7] as u16);
            assert(dw % 2048 == t[7] % 2048);
        }
        vstd::arithmetic::div_mod::lemma_small_mod(t[jj] as nat, 2048);
        assert(spec_decompress(11, dw) == (dw % 2048 * 3329 + 1024) / 2048);
        assert(spec_decompress(11, t[jj]) == (t[jj] % 2048 * 3329 + 1024) / 2048);
        assert(spec_decompress(11, dw) == spec_decompress(11, t[jj]));
        assert(t[jj] == spec_compress(11, p.at(i)));
    }
}


#[verifier::rlimit(60)]
proof fn lemma_unpack12_b0(b0: u16, b1: u16)
    by (bit_vector)
    requires
        b0 < 256,
        b1 < 256,
    ensures
        (b0 + (b1 % 16) * 256) % 256 == b0,
{
}

#[verifier::rlimit(60)]
proof fn lemma_unpack12_b1(b0: u16, b1: u16, b2: u16)
    by (bit_vector)
    requires
        b0 < 256,
        b1 < 256,
        b2 < 256,
    ensures
        ((b0 + (b1 % 16) * 256) / 256 + (b1 / 16 + b2 * 16) * 16) % 256 == b1,
{
}

#[verifier::rlimit(60)]
proof fn lemma_unpack12_b2(b1: u16, b2: u16)
    by (bit_vector)
    requires
        b1 < 256,
        b2 < 256,
    ensures
        (b1 / 16 + b2 * 16) / 16 == b2,
{
}

/// Parsing a 12-bit serialization and serializing again reproduces the
/// bytes exactly, even for unreduced 12-bit fields: the stored words
/// come back unchanged.
#[verifier::rlimit(100)]
#[verifier::spinoff_prover]
pub proof fn lemma_poly_parse_then_serialize(p: Poly, bytes: Seq<u8>)
    requires
        p.wf(),
        bytes.len() == 384,
        spec_poly_from_bytes(p, bytes),
    ensures
        spec_poly_bytes(p) == bytes,
{
    assert forall|kk: int| 0 <= kk < 384 implies spec_poly_bytes(p)[kk] == bytes[kk] by {
        let m = kk / 12;
        let r = kk % 12;
        let q = r / 3;
        let w = bytes.subrange(12 * m, 12 * m + 12);
        let i0 = 8 * m + 2 * q;
        assert(i0 / 8 == m && i0 % 8 == 2 * q);
        assert((i0 + 1) / 8 == m && (i0 + 1) % 8 == 2 * q + 1);
        assert(p.at(i0) == spec_word12(w, 2 * q));
        assert(p.at(i0 + 1) == spec_word12(w, 2 * q + 1));
        let b0 = w[3 * q] as u16;
        let b1 = w[3 * q + 1] as u16;
        let b2 = w[3 * q + 2] as u16;
        assert(w[3 * q] == bytes[12 * m + 3 * q]);
        assert(w[3 * q + 1] == bytes[12 * m + 3 * q + 1]);
        assert(w[3 * q + 2] == bytes[12 * m + 3 * q + 2]);
        assert(p.at(i0) == b0 + (b1 as int % 16) * 256);
        assert(p.at(i0 + 1) == b1 as int / 16 + b2 as int * 16);
        assert(0 <= p.at(i0) < 4096 && 0 <= p.at(i0 + 1) < 4096);
        assert(spec_pack(p.at(i0)) == p.at(i0) && spec_pack(p.at(i0 + 1)) == p.at(i0 + 1));
        assert(p.blk(m)[2 * q] == p.at(i0) && p.blk(m)[2 * q + 1] == p.at(i0 + 1));
        assert((3 * q) / 3 == q && (3 * q) % 3 == 0);
        assert((3 * q + 1) / 3 == q && (3 * q + 1) % 3 == 1);
        assert((3 * q + 2) / 3 == q && (3 * q + 2) % 3 == 2);
        lemma_unpack12_b0(b0, b1);
        lemma_unpack12_b1(b0, b1, b2);
        lemma_unpack12_b2(b1, b2);
        assert(r == 3 * q || r == 3 * q + 1 || r == 3 * q + 2);
        assert(12 * m + r == kk);
    }
    assert(spec_poly_bytes(p) =~= bytes);
}

} // verus!
