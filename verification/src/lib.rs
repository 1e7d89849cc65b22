//! A compression library for gzip-framed DEFLATE streams and zip archives.
//!
//! The DEFLATE transform itself is delegated to an outside engine; this
//! crate owns the staging buffers, the gzip framing with its CRC-32, the
//! zip central-directory parsing, and the byte- and bit-level utilities.

use vstd::prelude::*;

pub mod bitstream;
pub mod crc32;
pub mod deflate;
pub mod engine;
pub mod gzip;
pub mod ioutil;
pub mod stream;
pub mod zip;

verus! {

/// Buffer size in bytes for a given size factor: 1024 * 2^factor.
pub fn calc_buf_size(buf_size_factor: usize) -> (r: usize)
    requires
        buf_size_factor <= 20,
    ensures
        r == 1024 * vstd::arithmetic::power2::pow2(buf_size_factor as nat),
        1024 <= r <= 0x40000000,
{
    proof {
        vstd::arithmetic::power2::lemma2_to64();
    }
    let mut p: usize = 1;
    let mut i: usize = 0;
    while i < buf_size_factor
        invariant
            i <= buf_size_factor <= 20,
            p == vstd::arithmetic::power2::pow2(i as nat),
            1 <= p <= 0x100000,
        decreases buf_size_factor - i,
    {
        proof {
            vstd::arithmetic::power2::lemma_pow2_unfold((i + 1) as nat);
            vstd::arithmetic::power2::lemma_pow2_adds(i as nat, (20 - i) as nat);
            vstd::arithmetic::power2::lemma_pow2_pos((20 - i) as nat);
            vstd::arithmetic::power2::lemma2_to64();
        }
        p = p * 2;
        i = i + 1;
    }
    1024 * p
}

} // verus!
