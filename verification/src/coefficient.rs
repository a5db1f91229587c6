//! Arithmetic in the prime field F_q, q = 3329, on signed 16-bit
//! representatives, with Montgomery and Barrett reductions.

use vstd::prelude::*;
use vstd::arithmetic::power2::pow2;

verus! {

/// The field modulus.
pub const Q: i16 = 3329;

/// q^-1 mod 2^16 (as an unsigned residue), used by Montgomery reduction.
pub const Q_INV: i32 = 62209;

/// floor(2^26 / q) + 1, used by Barrett reduction.
pub const BARRETT_V: i32 = 20159;

/// 2^16 mod q as a centered signed representative (the Montgomery factor R).
pub const MONT: i16 = -1044;

/// 2^32 * 128^-1 mod q: clears the Montgomery factor and the transform
/// normalization together on the way out of the NTT domain.
pub const F: i16 = 1441;

/// A residue class mod q = 3329, held as a signed 16-bit representative.
#[derive(Clone, Copy, PartialEq, Eq, Structural, Debug)]
pub struct Coefficient(pub i16);

/// `x` reduced into [-2^15, 2^15): the value a two's-complement 16-bit
/// word holds after wrapping.
pub open spec fn smod16(x: int) -> int {
    if x % 65536 >= 32768 {
        x % 65536 - 65536
    } else {
        x % 65536
    }
}

/// The exact value Montgomery reduction returns: (a - u*q) / 2^16 with
/// u = a * q^-1 wrapped to a signed 16-bit word; the division is exact.
pub open spec fn spec_montgomery_reduce(a: int) -> int {
    (a - smod16(a * 62209) * 3329) / 65536
}

/// The exact value Barrett reduction returns:
/// a - round(a * 2^26 / q) / 2^26 * q, with the rounding the code performs.
pub open spec fn spec_barrett_reduce(a: int) -> int {
    a - ((20159 * a + 0x2000000) / 0x4000000) * 3329
}

/// The canonical representative in [0, q) of a value in [-q, q);
/// values already at or above q are passed through unchanged.
pub open spec fn spec_pack(x: int) -> int {
    if x < 0 {
        x + 3329
    } else {
        x
    }
}

/// compress maps a canonical representative to X bits:
/// floor((v * 2^X + q/2) / q) mod 2^X.
pub open spec fn spec_compress(x: u32, v: int) -> int {
    ((v * pow2(x as nat) + 1664) / 3329) % (pow2(x as nat) as int)
}

/// decompress is the rounded inverse: floor((b * q + 2^(X-1)) / 2^X).
pub open spec fn spec_decompress(x: u32, b: int) -> int {
    ((b % (pow2(x as nat) as int)) * 3329 + pow2((x - 1) as nat)) / (pow2(x as nat) as int)
}

#[verifier::rlimit(60)]
pub proof fn lemma_shift_is_div_26(s: i32)
    by (bit_vector)
    ensures
        s >> 26 == s / 0x4000000,
{
}

#[verifier::rlimit(60)]
pub proof fn lemma_barrett_range(a: i16, s: i32, t: i32, r: i32)
    by (bit_vector)
    requires
        s == 20159 * (a as i32) + 0x2000000,
        t == s >> 26,
        r == (a as i32) - t * 3329,
    ensures
        -1664 <= r <= 1665,
{
}

#[verifier::rlimit(60)]
proof fn lemma_montgomery_exact(a: i32, ua: i16, diff: i32, t: i32)
    by (bit_vector)
    requires
        -0x4000_0000 <= a <= 0x4000_0000,
        ua == (a * 62209) as i16,
        diff == a - (ua as i32) * 3329,
        t == diff >> 16,
    ensures
        -18049 <= t <= 18049,
        t == spec_montgomery_reduce(a as int),
{
}

/// Congruence of Montgomery reduction: the result times 2^16 is congruent
/// to the input mod q.
pub proof fn lemma_montgomery_congruence(a: int)
    ensures
        (spec_montgomery_reduce(a) * 65536) % 3329 == a % 3329,
{
    let x = a * 62209;
    let u = smod16(x);
    vstd::arithmetic::div_mod::lemma_fundamental_div_mod(x, 65536);
    let k = if x % 65536 >= 32768 { x / 65536 + 1 } else { x / 65536 };
    assert(u == x - 65536 * k);
    let d = a - u * 3329;
    assert(d == 65536 * (3329 * k - 3160 * a)) by (nonlinear_arith)
        requires
            x == a * 62209,
            u == x - 65536 * k,
            d == a - u * 3329,
    ;
    let m = 3329 * k - 3160 * a;
    vstd::arithmetic::div_mod::lemma_mod_multiples_basic(m, 65536);
    vstd::arithmetic::div_mod::lemma_fundamental_div_mod(d, 65536);
    assert(d % 65536 == 0);
    assert(d / 65536 == m);
    assert(spec_montgomery_reduce(a) * 65536 == d);
    vstd::arithmetic::div_mod::lemma_mod_multiples_vanish(-u, a, 3329);
}

/// Range of Montgomery reduction on products below q * 2^15: the result is
/// strictly inside (-q, q).
#[verifier::rlimit(100)]
pub proof fn lemma_montgomery_range(a: i32)
    by (bit_vector)
    requires
        -109051904 < a < 109051904,
    ensures
        -3328 <= spec_montgomery_reduce(a as int) <= 3328,
{
}

impl Coefficient {
    /// Montgomery reduction of a 32-bit value: returns the exact signed
    /// representative of a * 2^-16 mod q the standard algorithm computes.
    pub fn montgomery_reduce(a: i32) -> (r: Coefficient)
        requires
            -0x4000_0000 <= a <= 0x4000_0000,
        ensures
            r.0 == spec_montgomery_reduce(a as int),
            ((r.0 * 65536) % 3329) == ((a as int) % 3329),
            -109051904 < a < 109051904 ==> -3328 <= r.0 <= 3328,
    {
        let prod: i64 = (a as i64) * 62209i64;
        let ua: i16 = #[verifier::truncate] (prod as i16);
        let diff: i32 = a - (ua as i32) * 3329;
        let t: i32 = diff >> 16;
        proof {
            lemma_montgomery_exact(a, ua, diff, t);
            lemma_montgomery_congruence(a as int);
            if -109051904 < a < 109051904 {
                lemma_montgomery_range(a);
            }
        }
        Coefficient(t as i16)
    }

    /// Barrett reduction: congruent to the input mod q and inside
    /// [-(q-1)/2, (q+1)/2].
    pub fn barrett_reduce(a: i16) -> (r: Coefficient)
        ensures
            r.0 == spec_barrett_reduce(a as int),
            -1664 <= r.0 <= 1665,
            ((a as int) - r.0) % 3329 == 0,
    {
        let s: i32 = BARRETT_V * (a as i32) + 0x2000000;
        let t: i32 = s >> 26;
        proof {
            lemma_shift_is_div_26(s);
        }
        let r32: i32 = (a as i32) - t * 3329;
        proof {
            lemma_barrett_range(a, s, t, r32);
            vstd::arithmetic::div_mod::lemma_mod_multiples_basic(t as int, 3329);
            vstd::arithmetic::div_mod::lemma_mod_multiples_vanish(-(t as int), a as int, 3329);
        }
        Coefficient(r32 as i16)
    }

    /// The canonical unsigned representative in [0, q) for inputs in
    /// [-q, q); nonnegative inputs pass through unchanged.
    pub fn pack(self) -> (r: u16)
        requires
            -3329 <= self.0,
        ensures
            r == spec_pack(self.0 as int),
            self.0 < 3329 ==> r < 3329,
    {
        let u: i16 = self.0;
        let mask: i16 = (u >> 15) & 3329;
        proof {
            assert(mask == if u < 0 { 3329i16 } else { 0i16 }) by (bit_vector)
                requires
                    mask == (u >> 15) & 3329,
            ;
        }
        (u + mask) as u16
    }

    /// Reinterprets an unsigned representative as a signed coefficient.
    pub fn unpack(a: u16) -> (r: Coefficient)
        requires
            a < 32768,
        ensures
            r.0 == a,
    {
        Coefficient(a as i16)
    }

    /// Rounds the canonical representative to an X-bit value,
    /// floor((v * 2^X + q/2) / q) mod 2^X.
    pub fn compress<const X: u32>(self) -> (r: u16)
        requires
            1 <= X <= 11,
            -3329 <= self.0 < 3329,
        ensures
            r == spec_compress(X, spec_pack(self.0 as int)),
            r < pow2(X as nat),
    {
        let p: u32 = self.pack() as u32;
        let pw: u32 = exec_pow2(X);
        proof {
            assert(p * pw <= 3328 * 4096) by (nonlinear_arith)
                requires
                    p <= 3328,
                    pw <= 4096,
            ;
        }
        let t: u32 = (p * pw + 1664) / 3329;
        let r: u32 = t % pw;
        r as u16
    }

    /// The rounded inverse of compress: floor((b * q + 2^(X-1)) / 2^X).
    pub fn decompress<const X: u32>(b: u16) -> (r: Coefficient)
        requires
            1 <= X <= 12,
        ensures
            r.0 == spec_decompress(X, b as int),
            0 <= r.0 <= 3328,
    {
        let pw: u32 = exec_pow2(X);
        let half: u32 = pw / 2;
        let masked: u32 = (b as u32) % pw;
        proof {
            assert(masked * 3329 <= 4095 * 3329) by (nonlinear_arith)
                requires
                    masked <= 4095,
            ;
        }
        let t: u32 = (masked * 3329 + half) / pw;
        proof {
            vstd::arithmetic::power2::lemma_pow2_unfold(X as nat);
            assert(masked * 3329 + half < pw * 3329) by (nonlinear_arith)
                requires
                    masked < pw,
                    half < 3329,
                    pw >= 1,
            ;
            assert(t < 3329) by (nonlinear_arith)
                requires
                    t == (masked * 3329 + half) as int / (pw as int),
                    masked * 3329 + half < pw * 3329,
                    pw >= 1,
            ;
        }
        Coefficient(t as i16)
    }

    /// Rounds to a single bit.
    pub fn compress_1(self) -> (r: u8)
        requires
            -3329 <= self.0 < 3329,
        ensures
            r == spec_compress(1, spec_pack(self.0 as int)),
            r <= 1,
    {
        let p: u32 = self.pack() as u32;
        let t: u32 = ((p * 2 + 1664) / 3329) % 2;
        proof {
            vstd::arithmetic::power2::lemma2_to64();
        }
        t as u8
    }

    /// Expands a bit to 0 or (q+1)/2, without branching on it.
    pub fn decompress_1(b: u8) -> (r: Coefficient)
        ensures
            r.0 == if b % 2 == 1 { 1665int } else { 0int },
    {
        let bit: u16 = (b % 2) as u16;
        Coefficient((bit * 1665) as i16)
    }

    /// Montgomery-domain product: returns a * b * 2^-16 mod q exactly as
    /// the reduction computes it.
    pub fn mul(self, rhs: Coefficient) -> (r: Coefficient)
        ensures
            r.0 == spec_montgomery_reduce(self.0 * rhs.0),
            ((r.0 * 65536) % 3329) == ((self.0 * rhs.0) % 3329),
            -109051904 < self.0 * rhs.0 < 109051904 ==> -3328 <= r.0 <= 3328,
    {
        proof {
            assert(-0x4000_0000 <= self.0 * rhs.0 <= 0x4000_0000) by (nonlinear_arith)
                requires
                    -32768 <= self.0 <= 32767,
                    -32768 <= rhs.0 <= 32767,
            ;
        }
        Coefficient::montgomery_reduce((self.0 as i32) * (rhs.0 as i32))
    }

    /// Sum reduced by Barrett; the 16-bit sum is formed wrapping, and for
    /// sums that fit the result is the Barrett reduction of the exact sum.
    pub fn add(self, rhs: Coefficient) -> (r: Coefficient)
        ensures
            r.0 == spec_barrett_reduce(smod16(self.0 + rhs.0)),
            -1664 <= r.0 <= 1665,
            ((smod16(self.0 + rhs.0) as int) - r.0) % 3329 == 0,
            -32768 <= self.0 + rhs.0 <= 32767 ==> r.0 == spec_barrett_reduce(self.0 + rhs.0),
    {
        let x: i16 = self.0;
        let y: i16 = rhs.0;
        let s: i16 = x.wrapping_add(y);
        proof {
            assert(s == smod16(x + y)) by (bit_vector)
                requires
                    s == vstd::wrapping::i16_specs::wrapping_add(x, y),
            ;
        }
        Coefficient::barrett_reduce(s)
    }

    /// Plain difference; the caller keeps the operands small enough that
    /// the 16-bit subtraction cannot overflow.
    pub fn sub(self, rhs: Coefficient) -> (r: Coefficient)
        requires
            -32768 <= self.0 - rhs.0 <= 32767,
        ensures
            r.0 == self.0 - rhs.0,
    {
        Coefficient(self.0 - rhs.0)
    }
}

/// The index bit-reversal the twiddle table is laid out by: the low `bits`
/// bits of `i`, reversed.
pub open spec fn spec_bitrev(i: nat, bits: nat) -> nat
    decreases bits,
{
    if bits == 0 {
        0
    } else {
        (i % 2) * pow2((bits - 1) as nat) + spec_bitrev(i / 2, (bits - 1) as nat)
    }
}

/// The Montgomery-domain power chain the twiddles come from: starts at
/// 2^16 mod q (centered) and multiplies by 17 * 2^16 mod q under
/// Montgomery reduction, so the n-th entry represents 2^16 * 17^n mod q.
pub open spec fn spec_zeta_acc(n: nat) -> int
    decreases n,
{
    if n == 0 {
        -1044
    } else {
        spec_montgomery_reduce(spec_zeta_acc((n - 1) as nat) * -1103)
    }
}

/// The twiddle for bit-reversed index i of the given width, centered into
/// [-(q-1)/2, (q-1)/2].
pub open spec fn spec_zeta(i: nat, bits: nat) -> int {
    let z = spec_zeta_acc(spec_bitrev(i, bits));
    if z > 1664 {
        z - 3329
    } else if z < -1664 {
        z + 3329
    } else {
        z
    }
}

/// 17 * 2^16 mod q as a centered signed representative: one Montgomery
/// multiplication by it advances the twiddle chain by one power of 17.
pub const ZETA_STEP: i16 = -1103;

fn reverse_bits(i: usize, bits: u32) -> (r: usize)
    requires
        bits <= 32,
    ensures
        r == spec_bitrev(i as nat, bits as nat),
        r < pow2(bits as nat),
    decreases bits,
{
    proof {
        vstd::arithmetic::power2::lemma2_to64();
    }
    if bits == 0 {
        0
    } else {
        let bit: u64 = (i % 2) as u64;
        let p: u64 = 1u64 << (bits - 1);
        proof {
            vstd::arithmetic::power2::lemma_pow2_strictly_increases((bits - 1) as nat, 32);
            vstd::bits::lemma_u64_shl_is_mul(1u64, (bits - 1) as u64);
            vstd::arithmetic::power2::lemma_pow2_unfold(bits as nat);
        }
        let rest: usize = reverse_bits(i / 2, bits - 1);
        proof {
            assert(bit * p <= p) by (nonlinear_arith)
                requires
                    bit <= 1,
            ;
        }
        let r64: u64 = bit * p + (rest as u64);
        proof {
            assert(bit == 1 ==> bit * p == p) by (nonlinear_arith);
            assert(r64 < pow2(bits as nat));
            if bits < 32 {
                vstd::arithmetic::power2::lemma_pow2_strictly_increases(bits as nat, 32);
            }
            assert(r64 <= 0xFFFF_FFFF);
        }
        r64 as usize
    }
}

fn zeta_acc(n: usize) -> (r: Coefficient)
    ensures
        r.0 == spec_zeta_acc(n as nat),
        -3328 <= r.0 <= 3328,
    decreases n,
{
    if n == 0 {
        Coefficient(-1044)
    } else {
        let prev = zeta_acc(n - 1);
        prev.mul(Coefficient(ZETA_STEP))
    }
}

impl Coefficient {
    /// The Montgomery-domain twiddle for bit-reversed index `i` of width
    /// `bits`: represents 2^16 * 17^bitrev(i, bits) mod q, centered.
    pub fn zeta(i: usize, bits: u32) -> (r: Coefficient)
        requires
            bits <= 32,
        ensures
            r.0 == spec_zeta(i as nat, bits as nat),
            -1664 <= r.0 <= 1664,
    {
        let z = zeta_acc(reverse_bits(i, bits));
        if z.0 > 1664 {
            Coefficient(z.0 - 3329)
        } else if z.0 < -1664 {
            Coefficient(z.0 + 3329)
        } else {
            z
        }
    }
}

/// 2^x as a u32, for the shift widths the codec uses.
fn exec_pow2(x: u32) -> (r: u32)
    requires
        x <= 12,
    ensures
        r == pow2(x as nat),
        1 <= r <= 4096,
{
    proof {
        vstd::arithmetic::power2::lemma2_to64();
    }
    match x {
        0 => 1,
        1 => 2,
        2 => 4,
        3 => 8,
        4 => 16,
        5 => 32,
        6 => 64,
        7 => 128,
        8 => 256,
        9 => 512,
        10 => 1024,
        11 => 2048,
        _ => 4096,
    }
}

} // verus!
