//! The seeded 32-bit hash (MurmurHash3 x86_32) that derives counter slots.
//!
//! The input bytes are consumed as 4-byte little-endian blocks with
//! multiply/rotate/xor mixing; a 1-3 byte tail is folded in without the
//! block rotation; the length is xored in and an avalanche mix finishes.
//! Hashing an empty byte sequence yields 0 for every seed, so that index
//! derivation for empty keys is stable across seeds.

use vstd::prelude::*;

verus! {

/// First multiplicative mixing constant.
pub const C1: u32 = 0xcc9e2d51;

/// Second multiplicative mixing constant.
pub const C2: u32 = 0x1b873593;

/// Constant added after each full block.
pub const BLOCK_ADD: u32 = 0xe6546b64;

/// Final avalanche mix: xorshift interleaved with two odd-constant multiplies.
pub open spec fn fmix32_spec(h0: u32) -> u32 {
    let h1 = h0 ^ (h0 >> 16);
    let h2 = h1.wrapping_mul(0x85ebca6b);
    let h3 = h2 ^ (h2 >> 13);
    let h4 = h3.wrapping_mul(0xc2b2ae35);
    h4 ^ (h4 >> 16)
}

/// Mixing applied to each 4-byte block value before it is xored in.
pub open spec fn mix_k(k0: u32) -> u32 {
    let k1 = k0.wrapping_mul(C1);
    let k2 = (k1 << 15) | (k1 >> 17);
    k2.wrapping_mul(C2)
}

/// Mixing applied to the accumulator after each full 4-byte block.
pub open spec fn step_h(h: u32) -> u32 {
    let h1 = (h << 13) | (h >> 19);
    h1.wrapping_mul(5).wrapping_add(BLOCK_ADD)
}

/// The byte at index `j`, or 0 past the end (shorter tails read as
/// zero-padded little-endian values).
pub open spec fn byte_or_zero(bytes: Seq<u8>, j: int) -> u32 {
    if 0 <= j < bytes.len() {
        bytes[j] as u32
    } else {
        0
    }
}

/// Little-endian value of the 4-byte block starting at `4 * c`.
pub open spec fn block_val(bytes: Seq<u8>, c: int) -> u32 {
    byte_or_zero(bytes, 4 * c) | (byte_or_zero(bytes, 4 * c + 1) << 8) | (byte_or_zero(
        bytes,
        4 * c + 2,
    ) << 16) | (byte_or_zero(bytes, 4 * c + 3) << 24)
}

/// Number of blocks covering `len` bytes; the last may be 1-3 bytes short.
pub open spec fn n_blocks(len: int) -> int {
    (len + 3) / 4
}

/// Accumulator after the first `c` blocks have been folded in.
pub open spec fn hash_upto(bytes: Seq<u8>, seed: u32, c: int) -> u32
    decreases c,
{
    if c <= 0 {
        seed
    } else {
        let h = hash_upto(bytes, seed, c - 1) ^ mix_k(block_val(bytes, c - 1));
        if 4 * c <= bytes.len() {
            step_h(h)
        } else {
            h
        }
    }
}

/// MurmurHash3 x86_32 of the bytes under the given seed; 0 for empty input.
pub open spec fn murmur3(bytes: Seq<u8>, seed: u32) -> u32 {
    if bytes.len() == 0 {
        0
    } else {
        let len32 = (bytes.len() as nat % 0x1_0000_0000) as u32;
        fmix32_spec(hash_upto(bytes, seed, n_blocks(bytes.len() as int)) ^ len32)
    }
}

fn fmix32(h: u32) -> (r: u32)
    ensures
        r == fmix32_spec(h),
{
    let h1 = h ^ (h >> 16);
    let h2 = h1.wrapping_mul(0x85ebca6b);
    let h3 = h2 ^ (h2 >> 13);
    let h4 = h3.wrapping_mul(0xc2b2ae35);
    h4 ^ (h4 >> 16)
}

/// Seeded 32-bit hash over a byte sequence. Same bytes and seed always give
/// the same value; an empty input hashes to 0 under every seed.
#[verifier::rlimit(30)]
pub fn murmurhash3_x86_32(bytes: &[u8], seed: u32) -> (r: u32)
    ensures
        r == murmur3(bytes@, seed),
        bytes@.len() == 0 ==> r == 0,
{
    let n = bytes.len();
    if n == 0 {
        return 0;
    }
    let mut h: u32 = seed;
    let mut i: usize = 0;
    let ghost mut c: int = 0int;
    while n - i >= 4
        invariant
            n == bytes@.len(),
            0 <= i <= n,
            i == 4 * c,
            h == hash_upto(bytes@, seed, c),
        decreases n - i,
    {
        let b0 = bytes[i] as u32;
        let b1 = bytes[i + 1] as u32;
        let b2 = bytes[i + 2] as u32;
        let b3 = bytes[i + 3] as u32;
        let k0 = b0 | (b1 << 8) | (b2 << 16) | (b3 << 24);
        let k1 = k0.wrapping_mul(C1);
        let k2 = (k1 << 15) | (k1 >> 17);
        let h0 = h ^ k2.wrapping_mul(C2);
        let h1 = (h0 << 13) | (h0 >> 19);
        h = h1.wrapping_mul(5).wrapping_add(BLOCK_ADD);
        proof {
            assert(k0 == block_val(bytes@, c));
            assert(4 * (c + 1) <= bytes@.len());
            assert(h == hash_upto(bytes@, seed, c + 1));
            c = c + 1;
        }
        i = i + 4;
    }
    if i < n {
        let rem = n - i;
        let b0 = bytes[i] as u32;
        let b1 = if rem > 1 {
            bytes[i + 1] as u32
        } else {
            0
        };
        let b2 = if rem > 2 {
            bytes[i + 2] as u32
        } else {
            0
        };
        let b3: u32 = 0;
        let k0 = b0 | (b1 << 8) | (b2 << 16) | (b3 << 24);
        let k1 = k0.wrapping_mul(C1);
        let k2 = (k1 << 15) | (k1 >> 17);
        h = h ^ k2.wrapping_mul(C2);
        proof {
            assert(k0 == block_val(bytes@, c));
            assert(4 * (c + 1) > bytes@.len());
            assert(h == hash_upto(bytes@, seed, c + 1));
            c = c + 1;
        }
    }
    proof {
        assert(c == n_blocks(bytes@.len() as int));
    }
    let len32: u32 = ((n as u64) % 0x1_0000_0000) as u32;
    assert(len32 == (bytes@.len() as nat % 0x1_0000_0000) as u32);
    fmix32(h ^ len32)
}

} // verus!
