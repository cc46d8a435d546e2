//! Bit strings: text made of the characters '0' and '1'.
//!
//! The filter serializes its counters to a bit string and the codec packs
//! bit strings into text, so both speak in terms of the spec functions
//! here: the numeric value of a bit string, and the fixed-width bit string
//! of a value.

use vstd::arithmetic::power2::{lemma_pow2_unfold, pow2};
use vstd::prelude::*;

use crate::text::push_char;

verus! {

/// A binary digit character.
pub open spec fn is_bit_char(c: char) -> bool {
    c == '0' || c == '1'
}

/// Text consisting only of '0' and '1'.
pub open spec fn is_bit_string(s: Seq<char>) -> bool {
    forall|i: int| 0 <= i < s.len() ==> is_bit_char(#[trigger] s[i])
}

/// Value of a bit string read as a big-endian binary number.
pub open spec fn bits_val(s: Seq<char>) -> int
    decreases s.len(),
{
    if s.len() == 0 {
        0
    } else {
        2 * bits_val(s.drop_last()) + (if s.last() == '1' {
            1int
        } else {
            0int
        })
    }
}

/// The `w`-bit big-endian bit string of `v`'s low `w` bits.
pub open spec fn val_bits(v: int, w: nat) -> Seq<char>
    decreases w,
{
    if w == 0 {
        Seq::empty()
    } else {
        val_bits(v / 2, (w - 1) as nat).push(
            if v % 2 == 1 {
                '1'
            } else {
                '0'
            },
        )
    }
}

pub proof fn lemma_val_bits_len(v: int, w: nat)
    ensures
        val_bits(v, w).len() == w,
        is_bit_string(val_bits(v, w)),
    decreases w,
{
    if w > 0 {
        lemma_val_bits_len(v / 2, (w - 1) as nat);
    }
}

/// Writing a bit string's value back at the same width gives the string.
pub proof fn lemma_bits_val_round(t: Seq<char>)
    requires
        is_bit_string(t),
    ensures
        val_bits(bits_val(t), t.len()) == t,
    decreases t.len(),
{
    if t.len() > 0 {
        let dl = t.drop_last();
        let b: int = if t.last() == '1' {
            1
        } else {
            0
        };
        let v = bits_val(t);
        assert(v == 2 * bits_val(dl) + b);
        assert(v / 2 == bits_val(dl) && v % 2 == b);
        lemma_bits_val_round(dl);
        assert(val_bits(v, t.len()) =~= t);
    }
}

/// A bit string's value lies in `[0, 2^len)`.
pub proof fn lemma_bits_val_range(s: Seq<char>)
    requires
        is_bit_string(s),
    ensures
        0 <= bits_val(s) < pow2(s.len()),
    decreases s.len(),
{
    if s.len() == 0 {
        assert(pow2(0) == 1) by {
            vstd::arithmetic::power2::lemma2_to64();
        }
    } else {
        lemma_bits_val_range(s.drop_last());
        lemma_pow2_unfold(s.len());
    }
}

/// The top `w - k` bits of a `w`-bit string are the `(w - k)`-bit string of
/// the value shifted right by `k`.
pub proof fn lemma_val_bits_shift_take(v: u32, w: u32, k: u32)
    requires
        k <= w <= 31,
    ensures
        val_bits((v >> k) as int, (w - k) as nat) == val_bits(v as int, w as nat).take(
            (w - k) as int,
        ),
    decreases k,
{
    lemma_val_bits_len(v as int, w as nat);
    if k == 0 {
        assert(v >> 0 == v) by (bit_vector);
        assert(val_bits(v as int, w as nat).take(w as int) =~= val_bits(v as int, w as nat));
    } else {
        lemma_val_bits_shift_take(v, w, (k - 1) as u32);
        let y = v >> ((k - 1) as u32);
        assert(y / 2 == v >> k) by (bit_vector)
            requires
                y == v >> ((k - 1) as u32) && 1 <= k <= 31,
        ;
        let top = val_bits((y / 2) as int, (w - k) as nat);
        lemma_val_bits_len((y / 2) as int, (w - k) as nat);
        let c = if y as int % 2 == 1 {
            '1'
        } else {
            '0'
        };
        assert(val_bits(y as int, (w - k + 1) as nat) == top.push(c));
        assert(top.push(c).take((w - k) as int) =~= top);
        assert(val_bits(v as int, w as nat).take((w - k + 1) as int).take((w - k) as int)
            =~= val_bits(v as int, w as nat).take((w - k) as int));
    }
}

/// Append the `w`-bit big-endian representation of `v` to `out`.
pub(crate) fn push_bits(out: &mut String, v: u32, w: u32)
    requires
        w <= 31,
    ensures
        final(out)@ == old(out)@ + val_bits(v as int, w as nat),
{
    let mut sh = w;
    proof {
        assert(old(out)@ + val_bits((v >> w) as int, 0nat) == old(out)@);
    }
    while sh > 0
        invariant
            sh <= w <= 31,
            out@ == old(out)@ + val_bits((v >> sh) as int, (w - sh) as nat),
        decreases sh,
    {
        sh = sh - 1;
        let bit = (v >> sh) & 1;
        let c = if bit == 1 {
            '1'
        } else {
            '0'
        };
        push_char(out, c);
        proof {
            let x = v >> sh;
            assert(x / 2 == v >> ((sh + 1) as u32) && x % 2 == x & 1) by (bit_vector)
                requires
                    x == v >> sh && sh <= 30,
            ;
            assert(val_bits(x as int, (w - sh) as nat) == val_bits(
                (v >> ((sh + 1) as u32)) as int,
                (w - sh - 1) as nat,
            ).push(
                if x % 2 == 1 {
                    '1'
                } else {
                    '0'
                },
            ));
        }
    }
    proof {
        assert(v >> 0 == v) by (bit_vector);
    }
}

} // verus!
