//! The 12-bit word stream behind uniform rejection sampling: a SHAKE-128
//! stream keyed with seed and matrix indices, split into two little-endian
//! 12-bit candidates per 3-byte group.

use vstd::prelude::*;
use crate::hashes::{shake128, xof128_byte};

verus! {

/// How many 12-bit candidate words a sampler may draw from one stream.
/// The chance that 33536 candidates hold fewer than the 256 accepted
/// values a polynomial needs is far below 2^-10000.
pub const XOF_WORDS: usize = 33536;

/// The bytes backing the candidate words.
pub const XOF_BYTES: usize = 50304;

/// Candidate word w of the stream: the low then the high 12-bit half of
/// each 3-byte group.
pub open spec fn spec_xof_word(input: Seq<u8>, w: int) -> u16 {
    let base = 3 * (w / 2);
    if w % 2 == 0 {
        (xof128_byte(input, base) as int + (xof128_byte(input, base + 1) as int % 16) * 256) as u16
    } else {
        (xof128_byte(input, base + 1) as int / 16 + xof128_byte(input, base + 2) as int * 16) as u16
    }
}

/// The candidates below q among the first n words, in stream order.
pub open spec fn spec_accepted(input: Seq<u8>, n: int) -> Seq<u16>
    decreases n,
{
    if n <= 0 {
        Seq::empty()
    } else {
        let prev = spec_accepted(input, n - 1);
        let w = spec_xof_word(input, n - 1);
        if w < 3329 {
            prev.push(w)
        } else {
            prev
        }
    }
}

/// Accepted-word lists grow with the candidate count, keeping earlier
/// entries in place.
pub proof fn lemma_accepted_prefix(input: Seq<u8>, n: int, m: int)
    requires
        0 <= n <= m,
    ensures
        spec_accepted(input, n).len() <= spec_accepted(input, m).len(),
        forall|i: int| 0 <= i < spec_accepted(input, n).len() ==> spec_accepted(input, n)[i]
            == #[trigger] spec_accepted(input, m)[i],
    decreases m - n,
{
    if n < m {
        lemma_accepted_prefix(input, n, m - 1);
    }
}

/// A reader of 12-bit candidate words from the SHAKE-128 stream keyed
/// with seed and the two matrix index bytes.
pub struct Buf {
    /// The XOF input: the seed followed by the two index bytes.
    pub input: Vec<u8>,
    /// A prefetched prefix of the XOF stream.
    pub data: Vec<u8>,
    /// The next candidate word index.
    pub widx: usize,
}

impl Buf {
    /// The prefetched bytes are the stream of this input.
    pub open spec fn wf(&self) -> bool {
        &&& self.data@.len() == XOF_BYTES
        &&& forall|i: int| 0 <= i < self.data@.len() ==> #[trigger] self.data@[i] == xof128_byte(
            self.input@,
            i,
        )
    }

    pub fn new(seed: &[u8], i: u8, j: u8) -> (r: Buf)
        requires
            seed@.len() == 32,
        ensures
            r.wf(),
            r.widx == 0,
            r.input@ == seed@.push(i).push(j),
    {
        let mut input: Vec<u8> = Vec::new();
        let mut t: usize = 0;
        while t < 32
            invariant
                seed@.len() == 32,
                t <= 32,
                input@.len() == t,
                forall|u: int| 0 <= u < t ==> #[trigger] input@[u] == seed@[u],
            decreases 32 - t,
        {
            input.push(seed[t]);
            t += 1;
        }
        input.push(i);
        input.push(j);
        proof {
            assert(input@ =~= seed@.push(i).push(j));
        }
        let data = shake128(input.as_slice(), XOF_BYTES);
        Buf { input, data, widx: 0 }
    }

    /// The next 12-bit candidate word of the stream.
    pub fn next(&mut self) -> (w: u16)
        requires
            old(self).wf(),
            old(self).widx < XOF_WORDS,
        ensures
            final(self).wf(),
            final(self).input == old(self).input,
            final(self).widx == old(self).widx + 1,
            w == spec_xof_word(old(self).input@, old(self).widx as int),
            w < 4096,
    {
        let base: usize = 3 * (self.widx / 2);
        let w: u16 = if self.widx % 2 == 0 {
            self.data[base] as u16 + (self.data[base + 1] as u16 % 16) * 256
        } else {
            self.data[base + 1] as u16 / 16 + self.data[base + 2] as u16 * 16
        };
        self.widx += 1;
        w
    }
}

} // verus!
