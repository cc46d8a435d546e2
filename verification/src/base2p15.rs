//! The base-2^15 codec: a lossless round trip between bit strings and
//! compact text.
//!
//! `encode` right-pads the bit string with '0' to a multiple of 15 bits,
//! packs each 15-bit group into one character at code point `group value +
//! 161`, and prepends a header character holding the padding length as a
//! hex digit. The data range `[161, 32929)` lies below the UTF-16
//! surrogate band, so every emitted character is an independently valid
//! scalar value. `decode` reverses all of it.

use vstd::arithmetic::power2::pow2;
use vstd::prelude::*;
use vstd::string::StrSliceExecFns;
use vstd::utf8::char_u32_cast;

use crate::bits::{
    bits_val, is_bit_string, lemma_bits_val_range, lemma_bits_val_round, lemma_val_bits_len,
    lemma_val_bits_shift_take, push_bits, val_bits,
};
use crate::text::{char_from_code, push_char};

verus! {

/// Code point offset added to each 15-bit group value.
pub const OFFSET: u32 = 161;

/// Why a text failed to decode.
#[derive(Clone, Copy, Debug, PartialEq, Eq, Structural)]
pub enum DecodeError {
    /// The input has no header character.
    TooShort,
    /// The header character is not a hex digit with value at most 14.
    InvalidHeader,
    /// A data character's code point lies outside `[161, 32929)`.
    InvalidData,
}

/// Number of '0' bits appended to reach a multiple of 15.
pub open spec fn padding_len(n: int) -> int {
    (15 - n % 15) % 15
}

/// The bit string padded with '0' to a multiple of 15 bits.
pub open spec fn padded(s: Seq<char>) -> Seq<char> {
    s + Seq::new(padding_len(s.len() as int) as nat, |i: int| '0')
}

/// Header character: the padding length as a lowercase hex digit.
pub open spec fn pad_char(p: int) -> char {
    if p < 10 {
        ((48 + p) as u32) as char
    } else {
        ((87 + p) as u32) as char
    }
}

/// Data character carrying 15-bit group `g` of the padded bit string.
pub open spec fn group_char(p: Seq<char>, g: int) -> char {
    ((bits_val(p.subrange(15 * g, 15 * g + 15)) + OFFSET) as u32) as char
}

/// The encoded text: a header hex digit, then one character per 15-bit
/// group.
pub open spec fn encode_spec(s: Seq<char>) -> Seq<char> {
    let p = padded(s);
    seq![pad_char(padding_len(s.len() as int))] + Seq::new(
        (p.len() / 15) as nat,
        |g: int| group_char(p, g),
    )
}

/// Hex digit value of a header character, or -1 if it is no hex digit.
pub open spec fn header_val(c: char) -> int {
    let u = c as u32;
    if 48 <= u <= 57 {
        u - 48
    } else if 97 <= u <= 102 {
        u - 87
    } else if 65 <= u <= 70 {
        u - 55
    } else {
        -1
    }
}

/// A header character must be a hex digit encoding a padding length in
/// `[0, 14]`.
pub open spec fn valid_header(c: char) -> bool {
    0 <= header_val(c) <= 14
}

/// A data character's code point lies in `[161, 32929)`.
pub open spec fn is_data_char(c: char) -> bool {
    OFFSET <= (c as u32) && (c as u32) < OFFSET + 0x8000
}

/// Text that decodes: a valid header, then only valid data characters.
pub open spec fn valid_encoded(s: Seq<char>) -> bool {
    &&& s.len() >= 1
    &&& valid_header(s[0])
    &&& forall|i: int| 1 <= i < s.len() ==> is_data_char(#[trigger] s[i])
}

/// The 15 bits carried by one data character.
pub open spec fn char_bits(c: char) -> Seq<char> {
    val_bits(c as u32 - OFFSET, 15)
}

/// The bits carried by data characters `1 .. n` of the encoded text.
pub open spec fn data_bits(s: Seq<char>, n: int) -> Seq<char>
    decreases n,
{
    if n <= 1 {
        Seq::empty()
    } else {
        data_bits(s, n - 1) + char_bits(s[n - 1])
    }
}

/// The decoded bit string: all carried bits, with the padding dropped.
pub open spec fn decode_spec(s: Seq<char>) -> Seq<char> {
    let b = data_bits(s, s.len() as int);
    let p = header_val(s[0]);
    if p <= b.len() {
        b.take(b.len() - p)
    } else {
        Seq::empty()
    }
}

/// The padded length is the next multiple of 15, i.e. `15 * ((n + 14) / 15)`.
proof fn lemma_padding_arith(n: int)
    requires
        n >= 0,
    ensures
        0 <= padding_len(n) <= 14,
        (n + padding_len(n)) % 15 == 0,
        (n + padding_len(n)) / 15 == (n + 14) / 15,
        n + padding_len(n) == 15 * ((n + 14) / 15),
{
    let r = n % 15;
    assert(0 <= r < 15);
    assert(n == 15 * (n / 15) + r);
    if r == 0 {
        assert(padding_len(n) == 0);
        assert((n + 14) / 15 == n / 15);
    } else {
        assert(padding_len(n) == 15 - r);
        assert(n + (15 - r) == 15 * (n / 15 + 1));
        assert((n + padding_len(n)) % 15 == 0);
        assert((n + 14) / 15 == n / 15 + 1);
    }
}

/// Encode a bit string. The result is one header character plus
/// `ceil(len / 15)` data characters, each carrying 15 bits.
pub fn encode(bit_string: &String) -> (r: String)
    requires
        is_bit_string(bit_string@),
        bit_string@.len() + 14 <= usize::MAX,
    ensures
        r@ == encode_spec(bit_string@),
        r@.len() == 1 + (bit_string@.len() + 14) / 15,
{
    let ghost s = bit_string@;
    let n = bit_string.as_str().unicode_len();
    let pad = (15 - n % 15) % 15;
    let total = n + pad;
    proof {
        lemma_padding_arith(n as int);
        assert(pad == padding_len(s.len() as int));
        assert(padded(s).len() == total);
        assert(is_bit_string(padded(s)));
    }
    let ngroups = total / 15;
    proof {
        assert(15 * (ngroups as int) == total) by {
            lemma_padding_arith(n as int);
        }
    }
    let mut out = String::new();
    let hcode: u32 = if pad < 10 {
        48 + (pad as u32)
    } else {
        87 + (pad as u32)
    };
    let hc = char_from_code(hcode);
    push_char(&mut out, hc);
    proof {
        char_u32_cast(hc, hcode);
        assert(hc == pad_char(pad as int));
        assert(out@ =~= seq![pad_char(padding_len(s.len() as int))]);
    }
    let mut g: usize = 0;
    while g < ngroups
        invariant
            s == bit_string@,
            is_bit_string(s),
            s.len() == n,
            n + pad == total <= usize::MAX,
            pad == padding_len(s.len() as int),
            padded(s).len() == total,
            is_bit_string(padded(s)),
            15 * (ngroups as int) == total,
            0 <= g <= ngroups,
            out@ == seq![pad_char(padding_len(s.len() as int))] + Seq::new(
                g as nat,
                |gg: int| group_char(padded(s), gg),
            ),
        decreases ngroups - g,
    {
        proof {
            assert(15 * (g as int) + 15 <= 15 * (ngroups as int));
        }
        let base = 15 * g;
        let mut val: u32 = 0;
        let mut t: usize = 0;
        proof {
            vstd::arithmetic::power2::lemma2_to64();
            assert(padded(s).subrange(base as int, base as int) =~= Seq::<char>::empty());
        }
        while t < 15
            invariant
                s == bit_string@,
                is_bit_string(s),
                s.len() == n,
                padded(s).len() == total,
                is_bit_string(padded(s)),
                base == 15 * (g as int),
                base + 15 <= total <= usize::MAX,
                0 <= t <= 15,
                val == bits_val(padded(s).subrange(base as int, base + t)),
                val < pow2(t as nat),
            decreases 15 - t,
        {
            let idx = base + t;
            let bitc = if idx < n {
                bit_string.as_str().get_char(idx)
            } else {
                '0'
            };
            proof {
                assert(bitc == padded(s)[idx as int]);
            }
            let b: u32 = if bitc == '1' {
                1
            } else {
                0
            };
            proof {
                vstd::arithmetic::power2::lemma2_to64();
                assert(pow2(t as nat) <= pow2(15)) by {
                    if (t as nat) < 15 {
                        vstd::arithmetic::power2::lemma_pow2_strictly_increases(t as nat, 15);
                    }
                }
                let pre = padded(s).subrange(base as int, base + t);
                let post = padded(s).subrange(base as int, base + t + 1);
                assert(post.drop_last() =~= pre);
                assert(post.last() == padded(s)[base + t]);
                vstd::arithmetic::power2::lemma_pow2_unfold((t + 1) as nat);
            }
            val = val * 2 + b;
            t = t + 1;
        }
        proof {
            vstd::arithmetic::power2::lemma2_to64();
            assert(val < 0x8000);
        }
        let c = char_from_code(val + OFFSET);
        push_char(&mut out, c);
        g = g + 1;
        proof {
            char_u32_cast(c, (val + OFFSET) as u32);
            assert(c == group_char(padded(s), g - 1));
            assert(out@ =~= seq![pad_char(padding_len(s.len() as int))] + Seq::new(
                g as nat,
                |gg: int| group_char(padded(s), gg),
            ));
        }
    }
    proof {
        assert((padded(s).len() / 15) as int == ngroups as int);
        assert(out@ =~= encode_spec(s));
        lemma_padding_arith(n as int);
    }
    out
}

/// The bits carried by characters `1 .. m` number `15 * (m - 1)`.
proof fn lemma_data_bits_len(s: Seq<char>, m: int)
    requires
        1 <= m <= s.len(),
    ensures
        data_bits(s, m).len() == 15 * (m - 1),
    decreases m,
{
    if m > 1 {
        lemma_data_bits_len(s, m - 1);
        lemma_val_bits_len(s[m - 1] as u32 - OFFSET, 15);
    }
}

/// Decode base-2^15 text back to the bit string it carries.
///
/// Fails exactly on: an empty input; a header character that is not a hex
/// digit with value at most 14; a data character whose code point lies
/// outside `[161, 32929)`.
pub fn decode(base2p15_encoded: &String) -> (r: Result<String, DecodeError>)
    ensures
        match r {
            Ok(out) => valid_encoded(base2p15_encoded@) && out@ == decode_spec(
                base2p15_encoded@,
            ),
            Err(e) => !valid_encoded(base2p15_encoded@) && match e {
                DecodeError::TooShort => base2p15_encoded@.len() == 0,
                DecodeError::InvalidHeader => base2p15_encoded@.len() >= 1 && !valid_header(
                    base2p15_encoded@[0],
                ),
                DecodeError::InvalidData => base2p15_encoded@.len() >= 1 && valid_header(
                    base2p15_encoded@[0],
                ),
            },
        },
{
    let ghost s = base2p15_encoded@;
    let n = base2p15_encoded.as_str().unicode_len();
    if n == 0 {
        return Err(DecodeError::TooShort);
    }
    let h = base2p15_encoded.as_str().get_char(0);
    let hu = h as u32;
    let pad: u32 = if 48 <= hu && hu <= 57 {
        hu - 48
    } else if 97 <= hu && hu <= 102 {
        hu - 87
    } else if 65 <= hu && hu <= 70 {
        hu - 55
    } else {
        return Err(DecodeError::InvalidHeader);
    };
    if pad > 14 {
        return Err(DecodeError::InvalidHeader);
    }
    proof {
        assert(valid_header(s[0]) && header_val(s[0]) == pad);
    }
    let mut out = String::new();
    let mut i: usize = 1;
    while i < n - 1
        invariant
            s == base2p15_encoded@,
            s.len() == n,
            n >= 1,
            1 <= i <= n,
            n > 1 ==> i <= n - 1,
            pad <= 14,
            valid_header(s[0]),
            header_val(s[0]) == pad,
            forall|j: int| 1 <= j < i ==> is_data_char(#[trigger] s[j]),
            out@ == data_bits(s, i as int),
        decreases n - i,
    {
        let c = base2p15_encoded.as_str().get_char(i);
        let u = c as u32;
        if u < OFFSET || u >= OFFSET + 0x8000 {
            return Err(DecodeError::InvalidData);
        }
        push_bits(&mut out, u - OFFSET, 15);
        i = i + 1;
        proof {
            assert(data_bits(s, i as int) == data_bits(s, i - 1) + char_bits(s[i - 1]));
        }
    }
    if i < n {
        let c = base2p15_encoded.as_str().get_char(i);
        let u = c as u32;
        if u < OFFSET || u >= OFFSET + 0x8000 {
            return Err(DecodeError::InvalidData);
        }
        let keep = 15 - pad;
        push_bits(&mut out, (u - OFFSET) >> pad, keep);
        proof {
            assert(i == n - 1);
            lemma_val_bits_shift_take((u - OFFSET) as u32, 15, pad);
            lemma_data_bits_len(s, n as int);
            let b = data_bits(s, n as int);
            assert(b == data_bits(s, n - 1) + char_bits(s[n - 1]));
            lemma_val_bits_len(s[n - 1] as u32 - OFFSET, 15);
            assert(b.len() == 15 * (n - 1) >= 15);
            assert(b.take(b.len() - pad) =~= data_bits(s, n - 1) + char_bits(s[n - 1]).take(
                15 - pad,
            ));
            assert(out@ == decode_spec(s));
        }
        Ok(out)
    } else {
        proof {
            assert(n == 1);
            assert(data_bits(s, 1).len() == 0);
            assert(out@ =~= decode_spec(s));
        }
        Ok(out)
    }
}

/// A bit string encodes to valid base-2^15 text whose header carries the
/// padding length.
pub proof fn lemma_encode_valid(s: Seq<char>)
    requires
        is_bit_string(s),
    ensures
        valid_encoded(encode_spec(s)),
        header_val(encode_spec(s)[0]) == padding_len(s.len() as int),
        encode_spec(s).len() == 1 + (padded(s).len() / 15),
{
    let n = s.len() as int;
    let p = padded(s);
    let pd = padding_len(n);
    lemma_padding_arith(n);
    let e = encode_spec(s);
    assert(e[0] == pad_char(pd));
    assert(header_val(pad_char(pd)) == pd);
    assert(is_bit_string(p));
    vstd::arithmetic::power2::lemma2_to64();
    assert forall|i: int| 1 <= i < e.len() implies is_data_char(#[trigger] e[i]) by {
        let g = i - 1;
        assert(e[i] == group_char(p, g));
        let sub = p.subrange(15 * g, 15 * g + 15);
        assert(15 * g + 15 <= 15 * (p.len() / 15) == p.len());
        assert(is_bit_string(sub));
        lemma_bits_val_range(sub);
        assert(0 <= bits_val(sub) < 0x8000);
    }
}

/// Codec length law: the encoded text is one header character plus one
/// data character per started group of 15 bits.
pub proof fn lemma_codec_length_law(s: Seq<char>)
    ensures
        encode_spec(s).len() == 1 + (s.len() + 14) / 15,
{
    lemma_padding_arith(s.len() as int);
}

/// Codec round trip: decoding an encoded bit string gives the bit string
/// back, for every bit string including the empty one.
pub proof fn lemma_codec_round_trip(s: Seq<char>)
    requires
        is_bit_string(s),
    ensures
        valid_encoded(encode_spec(s)),
        decode_spec(encode_spec(s)) == s,
{
    let n = s.len() as int;
    let p = padded(s);
    let pd = padding_len(n);
    lemma_padding_arith(n);
    lemma_encode_valid(s);
    let e = encode_spec(s);
    let ghost g_total = p.len() / 15;
    assert(p.len() == 15 * g_total);
    lemma_data_bits_prefix(s, g_total as int);
    let b = data_bits(e, e.len() as int);
    assert(e.len() == 1 + g_total);
    assert(b == p.take(15 * (g_total as int)));
    assert(b =~= p);
    assert(b.len() == n + pd);
    assert(decode_spec(e) == b.take(n));
    assert(b.take(n) =~= s);
}

/// The first `g` data characters of an encoded bit string carry exactly
/// the first `15 * g` padded bits.
proof fn lemma_data_bits_prefix(s: Seq<char>, g: int)
    requires
        is_bit_string(s),
        0 <= g <= padded(s).len() / 15,
    ensures
        data_bits(encode_spec(s), g + 1) == padded(s).take(15 * g),
    decreases g,
{
    let p = padded(s);
    let e = encode_spec(s);
    lemma_padding_arith(s.len() as int);
    assert(p.len() == 15 * (p.len() / 15));
    if g <= 0 {
        assert(data_bits(e, 1) == Seq::<char>::empty());
        assert(p.take(0) =~= Seq::<char>::empty());
    } else {
        lemma_data_bits_prefix(s, g - 1);
        assert(data_bits(e, g + 1) == data_bits(e, g) + char_bits(e[g]));
        assert(e[g] == group_char(p, g - 1));
        let sub = p.subrange(15 * (g - 1), 15 * (g - 1) + 15);
        assert(15 * (g - 1) + 15 == 15 * g <= p.len());
        assert(is_bit_string(sub));
        lemma_bits_val_range(sub);
        vstd::arithmetic::power2::lemma2_to64();
        let code = (bits_val(sub) + OFFSET) as u32;
        assert(group_char(p, g - 1) as u32 == code);
        assert(char_bits(e[g]) == val_bits(bits_val(sub), 15));
        lemma_bits_val_round(sub);
        assert(char_bits(e[g]) == sub);
        assert(p.take(15 * (g - 1)) + sub =~= p.take(15 * g));
    }
}

/// Every character an encode produces lies outside the UTF-16 surrogate
/// band `[0xD800, 0xDFFF]`; in fact below it.
pub proof fn lemma_encode_surrogate_safe(s: Seq<char>)
    requires
        is_bit_string(s),
    ensures
        forall|i: int|
            0 <= i < encode_spec(s).len() ==> (#[trigger] encode_spec(s)[i] as u32) < 0xD800,
        forall|i: int|
            0 <= i < encode_spec(s).len() ==> !(0xD800 <= (#[trigger] encode_spec(s)[i] as u32)
                <= 0xDFFF),
{
    lemma_encode_valid(s);
    let e = encode_spec(s);
    lemma_padding_arith(s.len() as int);
    assert forall|i: int| 0 <= i < e.len() implies (#[trigger] e[i] as u32) < 0xD800 by {
        if i == 0 {
            assert(e[0] == pad_char(padding_len(s.len() as int)));
            assert(e[0] as u32 <= 101);
        } else {
            assert(is_data_char(e[i]));
        }
    }
}

} // verus!
