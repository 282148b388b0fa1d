//! The codec's configuration: the signature that marks an image as coded,
//! the maximum fill ratio (kept as a fraction), the smallest capacity at
//! which a signature check is attempted, the I/O chunk size, and the
//! length of the stored password digest.

use vstd::prelude::*;

verus! {

/// Configuration handed to the codec at construction; nothing here is
/// process-wide state.
pub struct Settings {
    /// The ASCII signature written first into a coded image.
    pub prog_code: Vec<u8>,
    /// Numerator of the maximum fill ratio.
    pub max_embed_num: u64,
    /// Denominator of the maximum fill ratio.
    pub max_embed_den: u64,
    /// Capacity in bytes below which an image cannot be coded at all.
    pub min_capacity: u64,
    /// Batch size for pacing reads and writes; it never changes the layout.
    pub byte_chunk: u32,
    /// Length in bytes of the stored password digest.
    pub pw_hash_len: u8,
}

impl Settings {
    /// The configuration is usable: the ratio is a fraction in (0, 1],
    /// the minimum capacity admits at least one byte, and the digest
    /// length is SHA-256's.
    pub open spec fn wf(self) -> bool {
        0 < self.max_embed_num <= self.max_embed_den && 1 <= self.min_capacity
            && self.pw_hash_len == 32 && 0 < self.byte_chunk && self.prog_code@.len() < 0x1_0000_0000
    }

    /// Payload capacity in bytes of a stream of `stream_len` channel
    /// bytes: the stream length scaled by the fill ratio, truncated.
    pub open spec fn capacity_of(self, stream_len: int) -> int {
        stream_len * (self.max_embed_num as int) / (self.max_embed_den as int)
    }

    /// Build a configuration, refusing a ratio outside (0, 1], a zero
    /// minimum capacity and a zero chunk size.
    pub fn new(
        prog_code: Vec<u8>,
        max_embed_num: u64,
        max_embed_den: u64,
        min_capacity: u64,
        byte_chunk: u32,
    ) -> (r: Option<Settings>)
        ensures
            r is Some <==> (0 < max_embed_num <= max_embed_den && 1 <= min_capacity && 0
                < byte_chunk && prog_code@.len() < 0x1_0000_0000),
            r matches Some(s) ==> s.wf() && s.prog_code@ == prog_code@ && s.max_embed_num
                == max_embed_num && s.max_embed_den == max_embed_den && s.min_capacity
                == min_capacity && s.byte_chunk == byte_chunk && s.pw_hash_len == 32,
    {
        if 0 < max_embed_num && max_embed_num <= max_embed_den && 1 <= min_capacity && 0
            < byte_chunk && (prog_code.len() as u64) < 0x1_0000_0000 {
            Some(
                Settings {
                    prog_code,
                    max_embed_num,
                    max_embed_den,
                    min_capacity,
                    byte_chunk,
                    pw_hash_len: 32,
                },
            )
        } else {
            None
        }
    }

    /// Compute the payload capacity of a stream of `stream_len` bytes.
    pub fn capacity(&self, stream_len: usize) -> (c: u64)
        requires
            self.wf(),
        ensures
            c == self.capacity_of(stream_len as int),
    {
        proof {
            lemma_capacity_bounds(stream_len as int, self.max_embed_num as int,
                self.max_embed_den as int);
            assert((stream_len as int) * (self.max_embed_num as int)
                < 0x1_0000_0000_0000_0000_0000_0000_0000_0000) by (nonlinear_arith)
                requires
                    stream_len < 0x1_0000_0000_0000_0000,
                    self.max_embed_num < 0x1_0000_0000_0000_0000,
            ;
        }
        let scaled: u128 = (stream_len as u128) * (self.max_embed_num as u128) / (
        self.max_embed_den as u128);
        scaled as u64
    }
}

/// Scaling by a fraction no greater than one never enlarges, so the
/// capacity fits every integer type its stream length fits.
proof fn lemma_capacity_bounds(len: int, num: int, den: int)
    by (nonlinear_arith)
    requires
        0 <= len,
        0 < num <= den,
    ensures
        0 <= len * num / den <= len,
{
}

} // verus!
