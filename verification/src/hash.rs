//! A simple position-weighted string hash.
//!
//! Each character contributes its code point times its 1-based position;
//! the sum is offset by one and multiplied by the seed plus one. All
//! arithmetic wraps modulo 2^64.

use vstd::prelude::*;
use vstd::string::StrSliceExecFns;

verus! {

/// Position-weighted sum of the first `n` characters: each contributes
/// `(position + 1) * code point`, wrapping modulo 2^64.
pub open spec fn weight_sum(s: Seq<char>, n: int) -> u64
    decreases n,
{
    if n <= 0 {
        0
    } else {
        weight_sum(s, n - 1).wrapping_add((n as u64).wrapping_mul(s[n - 1] as u64))
    }
}

/// The hash value: `(weighted character sum + 1) * (seed + 1)`, wrapping.
pub open spec fn naive_hash_spec(s: Seq<char>, seed: u64) -> u64 {
    weight_sum(s, s.len() as int).wrapping_add(1).wrapping_mul(seed.wrapping_add(1))
}

/// Seeded hash of a token. Same token and seed always give the same value.
pub fn naive_hash(token: &str, seed: u64) -> (r: u64)
    ensures
        r == naive_hash_spec(token@, seed),
{
    let n = token.unicode_len();
    let mut sum: u64 = 0;
    let mut i: usize = 0;
    while i < n
        invariant
            n == token@.len(),
            0 <= i <= n,
            sum == weight_sum(token@, i as int),
        decreases n - i,
    {
        let c = token.get_char(i);
        sum = sum.wrapping_add(((i as u64) + 1).wrapping_mul(c as u64));
        i = i + 1;
    }
    sum.wrapping_add(1).wrapping_mul(seed.wrapping_add(1))
}

} // verus!
