//! The spectral Bloom filter: an approximate multiset-frequency estimator
//! with a one-sided error guarantee.
//!
//! Built once from (key, frequency) pairs: each key addresses
//! `n_hash_functions` slots through the seeded hash, and insertion raises
//! every addressed slot to the saturated sum of the current minimum and
//! the key's frequency, never lowering any slot. A query reads the
//! minimum over the addressed slots, so an estimate never undershoots the
//! true frequency and a present key is never reported absent; hash
//! collisions can only inflate it.

use vstd::prelude::*;
use vstd::utf8::encode_utf8;

use crate::base2p15::encode_spec;
use crate::bits::{is_bit_string, lemma_val_bits_len, push_bits, val_bits};
use crate::murmur3::{murmur3, murmurhash3_x86_32};

verus! {

/// Why construction failed.
#[derive(Clone, Copy, Debug, PartialEq, Eq, Structural)]
pub enum BuildError {
    /// Width outside `[1, 31]`, or a zero slot or hash-function count.
    InvalidParameter,
    /// No (key, frequency) pairs: the sizing formula has no solution.
    EmptyInput,
}

/// An immutable frequency sketch: `sbf` holds `width`-bit saturating
/// counters, addressed through `n_hash_functions` seeded hashes.
pub struct SpectralBloomFilter {
    pub n_hash_functions: u32,
    pub sbf: Vec<u32>,
    pub width: u32,
}

/// Largest value a `width`-bit counter can hold: `2^width - 1`.
pub open spec fn counter_cap(width: u32) -> u32
    recommends
        width < 32,
{
    ((1u32 << width) - 1) as u32
}

/// Slot addressed by hash seed `i` for a key: the seeded hash of the
/// key's UTF-8 bytes, modulo the slot count `m`.
pub open spec fn slot_index(key: Seq<char>, i: u32, m: int) -> int
    recommends
        m >= 1,
{
    murmur3(encode_utf8(key), i) as int % m
}

/// Minimum counter over the key's slots for seeds `0 .. h` (h >= 1).
pub open spec fn min_slot_upto(slots: Seq<u32>, key: Seq<char>, h: int) -> u32
    decreases h,
{
    if h <= 1 {
        slots[slot_index(key, 0, slots.len() as int)]
    } else {
        let prev = min_slot_upto(slots, key, h - 1);
        let cur = slots[slot_index(key, (h - 1) as u32, slots.len() as int)];
        if cur < prev {
            cur
        } else {
            prev
        }
    }
}

/// What a query returns: the minimum counter over all the key's slots.
pub open spec fn query_spec(slots: Seq<u32>, key: Seq<char>, k: u32) -> u32
    recommends
        k >= 1,
        slots.len() >= 1,
{
    min_slot_upto(slots, key, k as int)
}

/// The updated counter value: `base + freq`, saturating at `cap`.
pub open spec fn sat_add(base: u32, freq: u32, cap: u32) -> u32 {
    if base + freq <= cap {
        (base + freq) as u32
    } else {
        cap
    }
}

/// The frequency as far as a `cap`-bounded counter can hold it.
pub open spec fn sat_min(freq: u32, cap: u32) -> u32 {
    if freq <= cap {
        freq
    } else {
        cap
    }
}

/// The key's slots for seeds `0 .. h`, each raised to `v` where it was at
/// or below `v`; no slot is ever lowered.
pub open spec fn raise_upto(slots: Seq<u32>, key: Seq<char>, v: u32, h: int) -> Seq<u32>
    decreases h,
{
    if h <= 0 {
        slots
    } else {
        let prev = raise_upto(slots, key, v, h - 1);
        let j = slot_index(key, (h - 1) as u32, slots.len() as int);
        if prev[j] <= v {
            prev.update(j, v)
        } else {
            prev
        }
    }
}

/// One (key, frequency) pair inserted: all the key's slots raised to the
/// saturated sum of their minimum and the frequency.
pub open spec fn insert_one(slots: Seq<u32>, key: Seq<char>, freq: u32, k: u32, cap: u32) -> Seq<
    u32,
> {
    raise_upto(slots, key, sat_add(query_spec(slots, key, k), freq, cap), k as int)
}

/// Counters after inserting the first `e` entries into all-zero slots.
pub open spec fn build_upto(
    entries: Seq<(String, u32)>,
    m: nat,
    k: u32,
    cap: u32,
    e: int,
) -> Seq<u32>
    decreases e,
{
    if e <= 0 {
        Seq::new(m, |j: int| 0u32)
    } else {
        insert_one(build_upto(entries, m, k, cap, e - 1), entries[e - 1].0@, entries[e - 1].1, k, cap)
    }
}

/// The counter array a build produces: a function of the entries (in
/// order) and the sizing alone.
pub open spec fn build_spec(entries: Seq<(String, u32)>, m: nat, k: u32, cap: u32) -> Seq<u32> {
    build_upto(entries, m, k, cap, entries.len() as int)
}

impl SpectralBloomFilter {
    /// The filter is exactly what building from `entries` with this
    /// sizing yields.
    pub open spec fn built_from(
        self,
        entries: Seq<(String, u32)>,
        sbf_size: u32,
        n_hash_functions: u32,
        width: u32,
    ) -> bool {
        &&& self.n_hash_functions == n_hash_functions
        &&& self.width == width
        &&& self.sbf@ == build_spec(
            entries,
            sbf_size as nat,
            n_hash_functions,
            counter_cap(width),
        )
    }

    /// Well-formed: positive sizing, and every counter fits its width.
    pub open spec fn wf(self) -> bool {
        &&& 1 <= self.width <= 31
        &&& self.n_hash_functions >= 1
        &&& 1 <= self.sbf@.len() <= u32::MAX
        &&& forall|j: int|
            0 <= j < self.sbf@.len() ==> #[trigger] self.sbf@[j] <= counter_cap(self.width)
    }

    /// The slots a key addresses: one index below `sbf_size` per seed in
    /// `0 .. n_hash_functions`.
    fn hash_indices(key: &String, n_hash_functions: u32, sbf_size: u32) -> (r: Vec<usize>)
        requires
            sbf_size >= 1,
        ensures
            r@.len() == n_hash_functions,
            forall|i: int|
                0 <= i < r@.len() ==> #[trigger] r@[i] == slot_index(
                    key@,
                    i as u32,
                    sbf_size as int,
                ) && r@[i] < sbf_size,
    {
        let mut r: Vec<usize> = Vec::new();
        let mut i: u32 = 0;
        while i < n_hash_functions
            invariant
                sbf_size >= 1,
                0 <= i <= n_hash_functions,
                r@.len() == i,
                forall|j: int|
                    0 <= j < r@.len() ==> #[trigger] r@[j] == slot_index(
                        key@,
                        j as u32,
                        sbf_size as int,
                    ) && r@[j] < sbf_size,
            decreases n_hash_functions - i,
        {
            let hv = murmurhash3_x86_32(key.as_str().as_bytes(), i);
            r.push((hv % sbf_size) as usize);
            i = i + 1;
        }
        r
    }

    /// Build a filter from (key, frequency) pairs with the given sizing:
    /// `sbf_size` slots of `width` bits, `n_hash_functions` seeds per key.
    /// The resulting counters are a function of the arguments alone, so
    /// identical inputs in identical order build identical filters.
    pub fn new(
        counter: &Vec<(String, u32)>,
        sbf_size: u32,
        n_hash_functions: u32,
        width: u32,
    ) -> (r: Result<Self, BuildError>)
        ensures
            match r {
                Ok(f) => {
                    &&& 1 <= width <= 31
                    &&& sbf_size >= 1
                    &&& n_hash_functions >= 1
                    &&& counter@.len() >= 1
                    &&& f.built_from(counter@, sbf_size, n_hash_functions, width)
                    &&& f.wf()
                    &&& f.sbf@.len() == sbf_size
                },
                Err(BuildError::InvalidParameter) => !(1 <= width <= 31 && sbf_size >= 1
                    && n_hash_functions >= 1),
                Err(BuildError::EmptyInput) => 1 <= width <= 31 && sbf_size >= 1
                    && n_hash_functions >= 1 && counter@.len() == 0,
            },
    {
        if width < 1 || width > 31 || sbf_size < 1 || n_hash_functions < 1 {
            return Err(BuildError::InvalidParameter);
        }
        if counter.len() == 0 {
            return Err(BuildError::EmptyInput);
        }
        let k = n_hash_functions;
        proof {
            assert((1u32 << width) >= 2) by (bit_vector)
                requires
                    1 <= width <= 31,
            ;
        }
        let cap: u32 = (1u32 << width) - 1;
        proof {
            assert(cap == counter_cap(width));
        }
        let mut sbf: Vec<u32> = Vec::new();
        let mut j: usize = 0;
        while j < sbf_size as usize
            invariant
                0 <= j <= sbf_size,
                sbf@.len() == j,
                forall|x: int| 0 <= x < sbf@.len() ==> #[trigger] sbf@[x] == 0u32,
            decreases sbf_size - j,
        {
            sbf.push(0);
            j = j + 1;
        }
        proof {
            assert(sbf@ =~= Seq::new(sbf_size as nat, |x: int| 0u32));
            assert(sbf@ == build_upto(counter@, sbf_size as nat, k, cap, 0));
        }
        let mut e: usize = 0;
        while e < counter.len()
            invariant
                1 <= width <= 31,
                sbf_size >= 1,
                k == n_hash_functions >= 1,
                cap == counter_cap(width),
                0 <= e <= counter@.len(),
                sbf@.len() == sbf_size,
                sbf@ == build_upto(counter@, sbf_size as nat, k, cap, e as int),
            decreases counter@.len() - e,
        {
            let pair = &counter[e];
            let key: &String = &pair.0;
            let freq: u32 = pair.1;
            let indices = Self::hash_indices(key, k, sbf_size);
            let ghost pre = sbf@;
            let mut min_v: u32 = sbf[indices[0]];
            let mut h: usize = 1;
            while h < indices.len()
                invariant
                    indices@.len() == k >= 1,
                    sbf@.len() == sbf_size >= 1,
                    forall|i: int|
                        0 <= i < indices@.len() ==> #[trigger] indices@[i] == slot_index(
                            key@,
                            i as u32,
                            sbf_size as int,
                        ) && indices@[i] < sbf_size,
                    1 <= h <= indices@.len(),
                    min_v == min_slot_upto(sbf@, key@, h as int),
                decreases indices@.len() - h,
            {
                let cur = sbf[indices[h]];
                if cur < min_v {
                    min_v = cur;
                }
                h = h + 1;
            }
            proof {
                assert(min_v == query_spec(pre, key@, k));
            }
            let new_v: u32 = match min_v.checked_add(freq) {
                Some(v) => {
                    if v <= cap {
                        v
                    } else {
                        cap
                    }
                },
                None => cap,
            };
            proof {
                assert(new_v == sat_add(min_v, freq, cap));
            }
            let mut h2: usize = 0;
            while h2 < indices.len()
                invariant
                    indices@.len() == k >= 1,
                    pre.len() == sbf_size >= 1,
                    sbf@.len() == pre.len(),
                    forall|i: int|
                        0 <= i < indices@.len() ==> #[trigger] indices@[i] == slot_index(
                            key@,
                            i as u32,
                            sbf_size as int,
                        ) && indices@[i] < sbf_size,
                    0 <= h2 <= indices@.len(),
                    sbf@ == raise_upto(pre, key@, new_v, h2 as int),
                decreases indices@.len() - h2,
            {
                let idx = indices[h2];
                if sbf[idx] <= new_v {
                    sbf[idx] = new_v;
                }
                h2 = h2 + 1;
            }
            e = e + 1;
            proof {
                assert(sbf@ == insert_one(pre, key@, freq, k, cap));
                assert(counter@[e - 1].0@ == key@ && counter@[e - 1].1 == freq);
                assert(sbf@ == build_upto(counter@, sbf_size as nat, k, cap, e as int));
            }
        }
        let filter = SpectralBloomFilter { n_hash_functions: k, sbf, width };
        proof {
            assert(filter.built_from(counter@, sbf_size, n_hash_functions, width));
            lemma_build_bounded(counter@, sbf_size as nat, k, cap, counter@.len() as int);
            assert(filter.wf());
        }
        Ok(filter)
    }

    /// The frequency estimate for a key: the minimum counter over the
    /// key's slots. Never undershoots the frequency the key was inserted
    /// with; 0 only for keys none of whose slots were ever raised.
    pub fn get_frequency(&self, key: &String) -> (r: u32)
        requires
            self.n_hash_functions >= 1,
            1 <= self.sbf@.len() <= u32::MAX,
        ensures
            r == query_spec(self.sbf@, key@, self.n_hash_functions),
    {
        let m = self.sbf.len() as u32;
        let indices = Self::hash_indices(key, self.n_hash_functions, m);
        let mut min_v: u32 = self.sbf[indices[0]];
        let mut h: usize = 1;
        while h < indices.len()
            invariant
                indices@.len() == self.n_hash_functions >= 1,
                1 <= self.sbf@.len() <= u32::MAX,
                m == self.sbf@.len(),
                forall|i: int|
                    0 <= i < indices@.len() ==> #[trigger] indices@[i] == slot_index(
                        key@,
                        i as u32,
                        m as int,
                    ) && indices@[i] < m,
                1 <= h <= indices@.len(),
                min_v == min_slot_upto(self.sbf@, key@, h as int),
            decreases indices@.len() - h,
        {
            let cur = self.sbf[indices[h]];
            if cur < min_v {
                min_v = cur;
            }
            h = h + 1;
        }
        min_v
    }

    /// The counters as a bit string: `width` binary digits per slot, in
    /// slot order.
    pub fn as_bit_string(&self) -> (r: String)
        requires
            self.wf(),
        ensures
            r@ == bit_string_spec(self.sbf@, self.width),
            r@.len() == self.sbf@.len() * self.width,
            is_bit_string(r@),
    {
        let mut out = String::new();
        let mut j: usize = 0;
        proof {
            assert(self.sbf@.take(0) =~= Seq::<u32>::empty());
        }
        while j < self.sbf.len()
            invariant
                self.wf(),
                0 <= j <= self.sbf@.len(),
                out@ == bit_string_spec(self.sbf@.take(j as int), self.width),
            decreases self.sbf@.len() - j,
        {
            push_bits(&mut out, self.sbf[j], self.width);
            j = j + 1;
            proof {
                let pre = self.sbf@.take(j - 1);
                let post = self.sbf@.take(j as int);
                assert(post.drop_last() =~= pre);
                assert(post.last() == self.sbf@[j - 1]);
            }
        }
        proof {
            assert(self.sbf@.take(self.sbf@.len() as int) =~= self.sbf@);
            lemma_bit_string_spec_props(self.sbf@, self.width);
        }
        out
    }

    /// The counters serialized and base-2^15 encoded in one step.
    pub fn base2p15_encode(&self) -> (r: String)
        requires
            self.wf(),
            self.sbf@.len() * self.width + 14 <= usize::MAX,
        ensures
            r@ == encode_spec(bit_string_spec(self.sbf@, self.width)),
    {
        let bit_string = self.as_bit_string();
        crate::base2p15::encode(&bit_string)
    }
}

/// The counters serialized as a bit string: each counter's `width`-bit
/// big-endian representation, concatenated in slot order.
pub open spec fn bit_string_spec(slots: Seq<u32>, width: u32) -> Seq<char>
    decreases slots.len(),
{
    if slots.len() == 0 {
        Seq::empty()
    } else {
        bit_string_spec(slots.drop_last(), width) + val_bits(slots.last() as int, width as nat)
    }
}

/// The serialized counters form a bit string of `len * width` characters.
pub proof fn lemma_bit_string_spec_props(slots: Seq<u32>, width: u32)
    ensures
        bit_string_spec(slots, width).len() == slots.len() * width,
        is_bit_string(bit_string_spec(slots, width)),
    decreases slots.len(),
{
    if slots.len() > 0 {
        lemma_bit_string_spec_props(slots.drop_last(), width);
        lemma_val_bits_len(slots.last() as int, width as nat);
        assert((slots.len() - 1) * width + width == slots.len() * width) by (nonlinear_arith);
    }
}

/// Raising never lowers a slot, writes nothing but `v`, and leaves every
/// slot addressed by a covered seed at `v` or above.
proof fn lemma_raise_upto(slots: Seq<u32>, key: Seq<char>, v: u32, h: int)
    requires
        slots.len() >= 1,
        0 <= h <= u32::MAX,
    ensures
        raise_upto(slots, key, v, h).len() == slots.len(),
        forall|j: int|
            0 <= j < slots.len() ==> slots[j] <= #[trigger] raise_upto(slots, key, v, h)[j],
        forall|j: int|
            0 <= j < slots.len() ==> (#[trigger] raise_upto(slots, key, v, h)[j] == slots[j]
                || raise_upto(slots, key, v, h)[j] == v),
        forall|hh: int|
            0 <= hh < h ==> raise_upto(slots, key, v, h)[#[trigger] slot_index(
                key,
                hh as u32,
                slots.len() as int,
            )] >= v,
    decreases h,
{
    if h > 0 {
        lemma_raise_upto(slots, key, v, h - 1);
        let prev = raise_upto(slots, key, v, h - 1);
        let j = slot_index(key, (h - 1) as u32, slots.len() as int);
        assert(0 <= j < slots.len());
        let cur = raise_upto(slots, key, v, h);
        assert forall|hh: int| 0 <= hh < h implies cur[#[trigger] slot_index(
            key,
            hh as u32,
            slots.len() as int,
        )] >= v by {
            let jj = slot_index(key, hh as u32, slots.len() as int);
            if hh == h - 1 {
                assert(cur[jj] >= v);
            } else {
                assert(prev[jj] >= v);
                assert(cur[jj] >= prev[jj]);
            }
        }
    }
}

/// Inserting one pair keeps every counter at or below the cap, never
/// lowers a slot, and leaves every slot the key addresses at or above the
/// frequency as far as the cap can hold it.
proof fn lemma_insert_one(slots: Seq<u32>, key: Seq<char>, freq: u32, k: u32, cap: u32)
    requires
        slots.len() >= 1,
        k >= 1,
        forall|j: int| 0 <= j < slots.len() ==> #[trigger] slots[j] <= cap,
    ensures
        insert_one(slots, key, freq, k, cap).len() == slots.len(),
        forall|j: int|
            0 <= j < slots.len() ==> slots[j] <= #[trigger] insert_one(slots, key, freq, k, cap)[j]
                <= cap,
        forall|hh: int|
            0 <= hh < k ==> insert_one(slots, key, freq, k, cap)[#[trigger] slot_index(
                key,
                hh as u32,
                slots.len() as int,
            )] >= sat_min(freq, cap),
{
    let v = sat_add(query_spec(slots, key, k), freq, cap);
    assert(v <= cap);
    assert(v >= sat_min(freq, cap));
    lemma_raise_upto(slots, key, v, k as int);
}

/// After any number of insertions the counters keep their size and stay
/// at or below the cap.
proof fn lemma_build_bounded(entries: Seq<(String, u32)>, m: nat, k: u32, cap: u32, e: int)
    requires
        m >= 1,
        k >= 1,
        e >= 0,
    ensures
        build_upto(entries, m, k, cap, e).len() == m,
        forall|j: int| 0 <= j < m ==> #[trigger] build_upto(entries, m, k, cap, e)[j] <= cap,
    decreases e,
{
    if e > 0 {
        lemma_build_bounded(entries, m, k, cap, e - 1);
        lemma_insert_one(
            build_upto(entries, m, k, cap, e - 1),
            entries[e - 1].0@,
            entries[e - 1].1,
            k,
            cap,
        );
    }
}

/// Later insertions never lower a slot below what an earlier prefix left.
proof fn lemma_build_grows(
    entries: Seq<(String, u32)>,
    m: nat,
    k: u32,
    cap: u32,
    e1: int,
    e2: int,
)
    requires
        m >= 1,
        k >= 1,
        0 <= e1 <= e2,
    ensures
        forall|j: int|
            0 <= j < m ==> #[trigger] build_upto(entries, m, k, cap, e1)[j] <= build_upto(
                entries,
                m,
                k,
                cap,
                e2,
            )[j],
    decreases e2 - e1,
{
    if e1 < e2 {
        lemma_build_grows(entries, m, k, cap, e1, e2 - 1);
        lemma_build_bounded(entries, m, k, cap, e2 - 1);
        lemma_insert_one(
            build_upto(entries, m, k, cap, e2 - 1),
            entries[e2 - 1].0@,
            entries[e2 - 1].1,
            k,
            cap,
        );
    }
}

/// Once entry `i` is inserted, every slot its key addresses stays at or
/// above its frequency as far as the cap can hold it.
proof fn lemma_build_covers(
    entries: Seq<(String, u32)>,
    m: nat,
    k: u32,
    cap: u32,
    e: int,
    i: int,
)
    requires
        m >= 1,
        k >= 1,
        0 <= i < e <= entries.len(),
    ensures
        forall|hh: int|
            0 <= hh < k ==> build_upto(entries, m, k, cap, e)[#[trigger] slot_index(
                entries[i].0@,
                hh as u32,
                m as int,
            )] >= sat_min(entries[i].1, cap),
    decreases e,
{
    lemma_build_bounded(entries, m, k, cap, i);
    lemma_insert_one(
        build_upto(entries, m, k, cap, i),
        entries[i].0@,
        entries[i].1,
        k,
        cap,
    );
    lemma_build_bounded(entries, m, k, cap, i + 1);
    lemma_build_grows(entries, m, k, cap, i + 1, e);
}

/// The query minimum is at most the counter at any addressed slot, and
/// at least any bound all addressed slots share.
proof fn lemma_min_slot_bounds(slots: Seq<u32>, key: Seq<char>, h: int, b: u32)
    requires
        slots.len() >= 1,
        1 <= h <= u32::MAX,
        forall|hh: int|
            0 <= hh < h ==> slots[#[trigger] slot_index(key, hh as u32, slots.len() as int)] >= b,
    ensures
        min_slot_upto(slots, key, h) >= b,
        min_slot_upto(slots, key, h) <= slots[slot_index(key, 0, slots.len() as int)],
    decreases h,
{
    if h == 1 {
        assert(slots[slot_index(key, 0 as u32, slots.len() as int)] >= b);
    } else {
        lemma_min_slot_bounds(slots, key, h - 1, b);
        assert(slots[slot_index(key, (h - 1) as u32, slots.len() as int)] >= b);
    }
}

/// No undershoot: a key inserted with a frequency the width can hold is
/// never estimated below that frequency.
pub proof fn lemma_no_undershoot(
    f: SpectralBloomFilter,
    entries: Seq<(String, u32)>,
    sbf_size: u32,
    n_hash_functions: u32,
    width: u32,
    i: int,
)
    requires
        sbf_size >= 1,
        n_hash_functions >= 1,
        1 <= width <= 31,
        f.built_from(entries, sbf_size, n_hash_functions, width),
        0 <= i < entries.len(),
        entries[i].1 <= counter_cap(width),
    ensures
        query_spec(f.sbf@, entries[i].0@, f.n_hash_functions) >= entries[i].1,
{
    lemma_query_floor(f, entries, sbf_size, n_hash_functions, width, i);
}

/// No false negative: a key inserted with a positive frequency is never
/// estimated at zero.
pub proof fn lemma_no_false_negative(
    f: SpectralBloomFilter,
    entries: Seq<(String, u32)>,
    sbf_size: u32,
    n_hash_functions: u32,
    width: u32,
    i: int,
)
    requires
        sbf_size >= 1,
        n_hash_functions >= 1,
        1 <= width <= 31,
        f.built_from(entries, sbf_size, n_hash_functions, width),
        0 <= i < entries.len(),
        entries[i].1 >= 1,
    ensures
        query_spec(f.sbf@, entries[i].0@, f.n_hash_functions) > 0,
{
    lemma_cap_positive(width);
    lemma_query_floor(f, entries, sbf_size, n_hash_functions, width, i);
}

/// Saturation: a key inserted with a frequency above `2^width - 1` is
/// estimated at exactly `2^width - 1`.
pub proof fn lemma_saturation(
    f: SpectralBloomFilter,
    entries: Seq<(String, u32)>,
    sbf_size: u32,
    n_hash_functions: u32,
    width: u32,
    i: int,
)
    requires
        sbf_size >= 1,
        n_hash_functions >= 1,
        1 <= width <= 31,
        f.built_from(entries, sbf_size, n_hash_functions, width),
        0 <= i < entries.len(),
        entries[i].1 > counter_cap(width),
    ensures
        query_spec(f.sbf@, entries[i].0@, f.n_hash_functions) == counter_cap(width),
{
    lemma_query_floor(f, entries, sbf_size, n_hash_functions, width, i);
}

/// Determinism: two filters built from the same entries in the same
/// order with the same sizing hold identical counters and answer every
/// query identically.
pub proof fn lemma_deterministic(
    f1: SpectralBloomFilter,
    f2: SpectralBloomFilter,
    entries: Seq<(String, u32)>,
    sbf_size: u32,
    n_hash_functions: u32,
    width: u32,
)
    requires
        f1.built_from(entries, sbf_size, n_hash_functions, width),
        f2.built_from(entries, sbf_size, n_hash_functions, width),
    ensures
        f1.sbf@ == f2.sbf@,
        f1.n_hash_functions == f2.n_hash_functions,
        f1.width == f2.width,
        forall|key: Seq<char>, k: u32|
            query_spec(f1.sbf@, key, k) == query_spec(f2.sbf@, key, k),
{
}

/// A width of at least one bit gives a positive cap.
proof fn lemma_cap_positive(width: u32)
    requires
        1 <= width <= 31,
    ensures
        counter_cap(width) >= 1,
{
    assert((1u32 << width) >= 2) by (bit_vector)
        requires
            1 <= width <= 31,
    ;
}

/// The query for an inserted key sits between the saturated frequency
/// and the cap.
proof fn lemma_query_floor(
    f: SpectralBloomFilter,
    entries: Seq<(String, u32)>,
    sbf_size: u32,
    n_hash_functions: u32,
    width: u32,
    i: int,
)
    requires
        sbf_size >= 1,
        n_hash_functions >= 1,
        1 <= width <= 31,
        f.built_from(entries, sbf_size, n_hash_functions, width),
        0 <= i < entries.len(),
    ensures
        query_spec(f.sbf@, entries[i].0@, f.n_hash_functions) >= sat_min(
            entries[i].1,
            counter_cap(width),
        ),
        query_spec(f.sbf@, entries[i].0@, f.n_hash_functions) <= counter_cap(width),
{
    let cap = counter_cap(width);
    let m = sbf_size as nat;
    let k = n_hash_functions;
    let e = entries.len() as int;
    lemma_build_bounded(entries, m, k, cap, e);
    lemma_build_covers(entries, m, k, cap, e, i);
    let slots = build_spec(entries, m, k, cap);
    assert(slots.len() == m);
    lemma_min_slot_bounds(slots, entries[i].0@, k as int, sat_min(entries[i].1, cap));
    assert(min_slot_upto(slots, entries[i].0@, k as int) <= slots[slot_index(
        entries[i].0@,
        0,
        slots.len() as int,
    )]);
}

} // verus!
