//! Incremental CRC-32 accumulator (IEEE polynomial, reflected form).
//!
//! The checksum of a byte sequence is defined by [`crc32_of`]: the register
//! starts at all ones, each byte is folded in with eight shift-and-conditional-
//! xor rounds, and the final register is complemented.  [`Crc32`] computes the
//! same value incrementally while also counting the bytes it has seen.

use vstd::prelude::*;

verus! {

/// One shift round of the reflected CRC-32 algorithm.
pub open spec fn crc_round(c: u32) -> u32 {
    if c & 1 == 1 {
        (c >> 1) ^ 0xEDB8_8320u32
    } else {
        c >> 1
    }
}

/// `n` successive shift rounds applied to `c`.
pub open spec fn crc_rounds(c: u32, n: nat) -> u32
    decreases n,
{
    if n == 0 {
        c
    } else {
        crc_rounds(crc_round(c), (n - 1) as nat)
    }
}

/// The register after folding one byte into register value `c`.
pub open spec fn crc_step(c: u32, b: u8) -> u32 {
    crc_rounds(c ^ (b as u32), 8)
}

/// The register after feeding the whole sequence `s`, starting from all ones.
pub open spec fn crc_state(s: Seq<u8>) -> u32
    decreases s.len(),
{
    if s.len() == 0 {
        0xFFFF_FFFFu32
    } else {
        crc_step(crc_state(s.drop_last()), s.last())
    }
}

/// The CRC-32 checksum of the byte sequence `s`.
pub open spec fn crc32_of(s: Seq<u8>) -> u32 {
    !crc_state(s)
}

/// Running CRC-32 register and byte count for one encode or decode operation.
pub struct Crc32 {
    register: u32,
    count: usize,
    fed: Ghost<Seq<u8>>,
}

impl Crc32 {
    /// The bytes that have been fed into this accumulator, in order.
    pub closed spec fn bytes(self) -> Seq<u8> {
        self.fed@
    }

    /// The register and the count agree with the bytes fed so far.
    pub closed spec fn wf(self) -> bool {
        &&& self.register == crc_state(self.fed@)
        &&& self.count == self.fed@.len()
    }

    /// A fresh accumulator that has seen no bytes.
    pub fn new() -> (c: Crc32)
        ensures
            c.wf(),
            c.bytes() == Seq::<u8>::empty(),
    {
        Crc32 { register: 0xFFFF_FFFFu32, count: 0, fed: Ghost(Seq::empty()) }
    }

    /// Feed every byte of `buf` into the accumulator, in order.
    pub fn update_with_slice(&mut self, buf: &[u8])
        requires
            old(self).wf(),
            old(self).bytes().len() + buf@.len() <= usize::MAX,
        ensures
            final(self).wf(),
            final(self).bytes() == old(self).bytes() + buf@,
    {
        let mut i: usize = 0;
        while i < buf.len()
            invariant
                i <= buf@.len(),
                self.wf(),
                self.bytes() == old(self).bytes() + buf@.subrange(0, i as int),
                old(self).bytes().len() + buf@.len() <= usize::MAX,
            decreases buf@.len() - i,
        {
            let b = buf[i];
            let c0 = self.register;
            let mut c: u32 = c0 ^ (b as u32);
            let mut k: usize = 0;
            while k < 8
                invariant
                    k <= 8,
                    crc_rounds(c0 ^ (b as u32), 8) == crc_rounds(c, (8 - k) as nat),
                decreases 8 - k,
            {
                c = if c & 1 == 1 {
                    (c >> 1u32) ^ 0xEDB8_8320u32
                } else {
                    c >> 1u32
                };
                k = k + 1;
            }
            proof {
                assert(c == crc_step(c0, b));
                assert((self.fed@.push(b)).drop_last() =~= self.fed@);
            }
            self.register = c;
            self.count = self.count + 1;
            self.fed = Ghost(self.fed@.push(b));
            proof {
                assert(self.bytes() =~= old(self).bytes() + buf@.subrange(0, i + 1 as int));
            }
            i = i + 1;
        }
        proof {
            assert(buf@.subrange(0, buf@.len() as int) =~= buf@);
        }
    }

    /// The checksum of the bytes fed so far.
    pub fn crc(&self) -> (r: u32)
        requires
            self.wf(),
        ensures
            r == crc32_of(self.bytes()),
    {
        !self.register
    }

    /// How many bytes have been fed so far.
    pub fn num_bytes(&self) -> (r: usize)
        requires
            self.wf(),
        ensures
            r == self.bytes().len(),
    {
        self.count
    }
}

} // verus!
