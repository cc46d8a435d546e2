//! Frequency-rank quantization: shrink the counter widths a document set
//! needs.
//!
//! For each word, the frequencies it was recorded with across all posts
//! are ranked; each recorded frequency is replaced by twice its rank plus
//! one, so the values a filter must hold grow with the number of distinct
//! frequencies rather than with the frequencies themselves.

use vstd::prelude::*;

use crate::format_structs::PostFreq;

verus! {

/// Scale factor applied to each rank.
pub const MULTIPLIER: u32 = 2;

/// The frequencies recorded for `w` in one term list, in order.
pub open spec fn post_vals(tf: Seq<(String, u32)>, w: Seq<char>) -> Seq<u32>
    decreases tf.len(),
{
    if tf.len() == 0 {
        Seq::empty()
    } else {
        post_vals(tf.drop_last(), w) + (if tf.last().0@ == w {
            seq![tf.last().1]
        } else {
            Seq::empty()
        })
    }
}

/// All frequencies recorded for `w` across the posts, in order.
pub open spec fn word_vals(posts: Seq<PostFreq>, w: Seq<char>) -> Seq<u32>
    decreases posts.len(),
{
    if posts.len() == 0 {
        Seq::empty()
    } else {
        word_vals(posts.drop_last(), w) + post_vals(posts.last().term_frequency@, w)
    }
}

/// Distinct values strictly below `f` among the first `n`, counted at
/// their first occurrence.
pub open spec fn distinct_below_upto(vals: Seq<u32>, f: u32, n: int) -> nat
    decreases n,
{
    if n <= 0 {
        0
    } else {
        distinct_below_upto(vals, f, n - 1) + (if vals[n - 1] < f && !vals.take(n - 1).contains(
            vals[n - 1],
        ) {
            1nat
        } else {
            0nat
        })
    }
}

/// The rank of frequency `f` for word `w`: how many distinct recorded
/// values for `w` lie strictly below `f`.
pub open spec fn rank_of(posts: Seq<PostFreq>, w: Seq<char>, f: u32) -> nat {
    distinct_below_upto(word_vals(posts, w), f, word_vals(posts, w).len() as int)
}

/// Total number of term entries across the posts.
pub open spec fn total_entries(posts: Seq<PostFreq>) -> nat
    decreases posts.len(),
{
    if posts.len() == 0 {
        0
    } else {
        total_entries(posts.drop_last()) + posts.last().term_frequency@.len()
    }
}

/// A term list records at most as many values as it has entries.
proof fn lemma_post_vals_len(tf: Seq<(String, u32)>, w: Seq<char>)
    ensures
        post_vals(tf, w).len() <= tf.len(),
    decreases tf.len(),
{
    if tf.len() > 0 {
        lemma_post_vals_len(tf.drop_last(), w);
    }
}

/// A word is recorded at most once per term entry.
proof fn lemma_word_vals_le_total(posts: Seq<PostFreq>, w: Seq<char>)
    ensures
        word_vals(posts, w).len() <= total_entries(posts),
    decreases posts.len(),
{
    if posts.len() > 0 {
        lemma_word_vals_le_total(posts.drop_last(), w);
        lemma_post_vals_len(posts.last().term_frequency@, w);
    }
}

/// There are no more distinct values below `f` than values looked at.
proof fn lemma_distinct_below_le(vals: Seq<u32>, f: u32, n: int)
    requires
        n >= 0,
    ensures
        distinct_below_upto(vals, f, n) <= n,
    decreases n,
{
    if n > 0 {
        lemma_distinct_below_le(vals, f, n - 1);
    }
}

/// The count of distinct values below `f` reads only the first `n`
/// values.
proof fn lemma_distinct_below_prefix(v1: Seq<u32>, v2: Seq<u32>, f: u32, n: int)
    requires
        0 <= n <= v1.len(),
        n <= v2.len(),
        v1.take(n) == v2.take(n),
    ensures
        distinct_below_upto(v1, f, n) == distinct_below_upto(v2, f, n),
    decreases n,
{
    if n > 0 {
        assert(v1.take(n - 1) =~= v2.take(n - 1)) by {
            assert(forall|i: int|
                0 <= i < n ==> v1.take(n)[i] == #[trigger] v1[i] && v2.take(n)[i] == #[trigger] v2[i]);
        }
        lemma_distinct_below_prefix(v1, v2, f, n - 1);
        assert(v1[n - 1] == v1.take(n)[n - 1] && v2[n - 1] == v2.take(n)[n - 1]);
        assert(v1.take(n - 1).contains(v1[n - 1]) == v2.take(n - 1).contains(v2[n - 1]));
    }
}

/// Membership in a sequence extended by one value.
proof fn lemma_push_contains(s: Seq<u32>, v: u32)
    ensures
        forall|x: u32| #[trigger] s.push(v).contains(x) <==> (s.contains(x) || x == v),
{
    assert forall|x: u32| #[trigger] s.push(v).contains(x) implies (s.contains(x) || x == v) by {
        let i = choose|i: int| 0 <= i < s.push(v).len() && s.push(v)[i] == x;
        if i < s.len() {
            assert(s[i] == x);
        }
    }
    assert forall|x: u32| (s.contains(x) || x == v) implies #[trigger] s.push(v).contains(x) by {
        if s.contains(x) {
            let i = choose|i: int| 0 <= i < s.len() && s[i] == x;
            assert(s.push(v)[i] == x);
        } else {
            assert(s.push(v)[s.len() as int] == x);
        }
    }
}

/// Whether the value was already seen.
fn contains_u32(seen: &Vec<u32>, v: u32) -> (r: bool)
    ensures
        r == seen@.contains(v),
{
    let mut j: usize = 0;
    while j < seen.len()
        invariant
            0 <= j <= seen@.len(),
            forall|i: int| 0 <= i < j ==> #[trigger] seen@[i] != v,
        decreases seen@.len() - j,
    {
        if seen[j] == v {
            return true;
        }
        j = j + 1;
    }
    false
}

/// The rank of frequency `f` for word `w` across the posts.
fn rank_exec(posts: &Vec<PostFreq>, w: &String, f: u32) -> (rank: u32)
    requires
        total_entries(posts@) < 0x8000_0000,
    ensures
        rank == rank_of(posts@, w@, f),
        rank < 0x8000_0000,
{
    let mut seen: Vec<u32> = Vec::new();
    let ghost mut scanned: Seq<u32> = Seq::empty();
    let mut p: usize = 0;
    proof {
        assert(posts@.take(0) =~= Seq::<PostFreq>::empty());
    }
    while p < posts.len()
        invariant
            0 <= p <= posts@.len(),
            scanned == word_vals(posts@.take(p as int), w@),
            seen@.len() == distinct_below_upto(scanned, f, scanned.len() as int),
            forall|x: u32| #[trigger] seen@.contains(x) <==> (scanned.contains(x) && x < f),
        decreases posts@.len() - p,
    {
        let post = &posts[p];
        let mut e: usize = 0;
        proof {
            assert(post.term_frequency@.take(0) =~= Seq::<(String, u32)>::empty());
            assert(scanned + post_vals(post.term_frequency@.take(0), w@) =~= scanned);
        }
        while e < post.term_frequency.len()
            invariant
                0 <= p < posts@.len(),
                0 <= e <= post.term_frequency@.len(),
                post == &posts@[p as int],
                scanned == word_vals(posts@.take(p as int), w@) + post_vals(
                    post.term_frequency@.take(e as int),
                    w@,
                ),
                seen@.len() == distinct_below_upto(scanned, f, scanned.len() as int),
                forall|x: u32| #[trigger] seen@.contains(x) <==> (scanned.contains(x) && x < f),
            decreases post.term_frequency@.len() - e,
        {
            let pair = &post.term_frequency[e];
            let v = pair.1;
            let ghost old_scanned = scanned;
            let ghost tf = post.term_frequency@;
            proof {
                assert(tf.take(e + 1).drop_last() =~= tf.take(e as int));
                assert(tf.take(e + 1).last() == tf[e as int]);
            }
            if pair.0 == *w {
                let ghost old_seen = seen@;
                if v < f {
                    if !contains_u32(&seen, v) {
                        seen.push(v);
                    }
                }
                proof {
                    assert(post_vals(tf.take(e + 1), w@) =~= post_vals(tf.take(e as int), w@)
                        + seq![v]);
                    scanned = old_scanned.push(v);
                    assert(scanned =~= word_vals(posts@.take(p as int), w@) + post_vals(
                        tf.take(e + 1),
                        w@,
                    ));
                    lemma_push_contains(old_scanned, v);
                    assert(old_scanned.take(old_scanned.len() as int) =~= old_scanned);
                    assert(scanned.take(old_scanned.len() as int) =~= old_scanned);
                    lemma_distinct_below_prefix(
                        scanned,
                        old_scanned,
                        f,
                        old_scanned.len() as int,
                    );
                    assert(distinct_below_upto(scanned, f, scanned.len() as int)
                        == distinct_below_upto(old_scanned, f, old_scanned.len() as int) + (
                    if v < f && !old_scanned.contains(v) {
                        1nat
                    } else {
                        0nat
                    }));
                    if v < f && !old_seen.contains(v) {
                        assert(seen@ == old_seen.push(v));
                        lemma_push_contains(old_seen, v);
                        assert(!old_scanned.contains(v));
                    } else {
                        assert(seen@ == old_seen);
                    }
                    assert forall|x: u32| #[trigger] seen@.contains(x) implies (scanned.contains(
                        x,
                    ) && x < f) by {
                        if old_seen.contains(x) {
                            assert(old_scanned.contains(x) && x < f);
                        }
                    }
                    assert forall|x: u32| (scanned.contains(x) && x < f) implies #[trigger] seen@
                        .contains(x) by {
                        if old_scanned.contains(x) {
                            assert(old_seen.contains(x));
                        }
                    }
                }
            } else {
                proof {
                    assert(post_vals(tf.take(e + 1), w@) =~= post_vals(tf.take(e as int), w@));
                    assert(scanned =~= word_vals(posts@.take(p as int), w@) + post_vals(
                        tf.take(e + 1),
                        w@,
                    ));
                }
            }
            e = e + 1;
        }
        p = p + 1;
        proof {
            let tf = posts@[p - 1].term_frequency@;
            assert(tf.take(tf.len() as int) =~= tf);
            assert(posts@.take(p as int).drop_last() =~= posts@.take(p - 1));
            assert(posts@.take(p as int).last() == posts@[p - 1]);
            assert(scanned =~= word_vals(posts@.take(p as int), w@));
        }
    }
    proof {
        assert(posts@.take(posts@.len() as int) =~= posts@);
        lemma_word_vals_le_total(posts@, w@);
        lemma_distinct_below_le(scanned, f, scanned.len() as int);
    }
    proof {
        assert(seen@.len() == rank_of(posts@, w@, f));
    }
    let rank = seen.len();
    rank as u32
}

/// Replace each recorded frequency by `MULTIPLIER * rank + 1`, where the
/// rank counts the distinct lower frequencies recorded for the same word
/// anywhere in the set. Titles, links, keys and order are kept.
pub fn minimize_width(posts: &Vec<PostFreq>) -> (r: Vec<PostFreq>)
    requires
        total_entries(posts@) < 0x8000_0000,
    ensures
        r@.len() == posts@.len(),
        forall|p: int|
            0 <= p < posts@.len() ==> {
                &&& (#[trigger] r@[p]).title@ == posts@[p].title@
                &&& r@[p].url@ == posts@[p].url@
                &&& r@[p].term_frequency@.len() == posts@[p].term_frequency@.len()
            },
        forall|p: int, e: int|
            0 <= p < posts@.len() && 0 <= e < posts@[p].term_frequency@.len() ==> {
                &&& (#[trigger] r@[p].term_frequency@[e]).0@ == posts@[p].term_frequency@[e].0@
                &&& r@[p].term_frequency@[e].1 == MULTIPLIER * rank_of(
                    posts@,
                    posts@[p].term_frequency@[e].0@,
                    posts@[p].term_frequency@[e].1,
                ) + 1
            },
{
    let mut r: Vec<PostFreq> = Vec::new();
    let mut p: usize = 0;
    while p < posts.len()
        invariant
            total_entries(posts@) < 0x8000_0000,
            0 <= p <= posts@.len(),
            r@.len() == p,
            forall|pp: int|
                0 <= pp < p ==> {
                    &&& (#[trigger] r@[pp]).title@ == posts@[pp].title@
                    &&& r@[pp].url@ == posts@[pp].url@
                    &&& r@[pp].term_frequency@.len() == posts@[pp].term_frequency@.len()
                },
            forall|pp: int, e: int|
                0 <= pp < p && 0 <= e < posts@[pp].term_frequency@.len() ==> {
                    &&& (#[trigger] r@[pp].term_frequency@[e]).0@
                        == posts@[pp].term_frequency@[e].0@
                    &&& r@[pp].term_frequency@[e].1 == MULTIPLIER * rank_of(
                        posts@,
                        posts@[pp].term_frequency@[e].0@,
                        posts@[pp].term_frequency@[e].1,
                    ) + 1
                },
        decreases posts@.len() - p,
    {
        let post = &posts[p];
        let mut tf: Vec<(String, u32)> = Vec::new();
        let mut e: usize = 0;
        while e < post.term_frequency.len()
            invariant
                total_entries(posts@) < 0x8000_0000,
                0 <= p < posts@.len(),
                post == &posts@[p as int],
                0 <= e <= post.term_frequency@.len(),
                tf@.len() == e,
                forall|ee: int|
                    0 <= ee < e ==> {
                        &&& (#[trigger] tf@[ee]).0@ == posts@[p as int].term_frequency@[ee].0@
                        &&& tf@[ee].1 == MULTIPLIER * rank_of(
                            posts@,
                            posts@[p as int].term_frequency@[ee].0@,
                            posts@[p as int].term_frequency@[ee].1,
                        ) + 1
                    },
            decreases post.term_frequency@.len() - e,
        {
            let key = post.term_frequency[e].0.clone();
            let f = post.term_frequency[e].1;
            let rank = rank_exec(posts, &key, f);
            tf.push((key, rank * MULTIPLIER + 1));
            e = e + 1;
        }
        r.push(PostFreq { title: post.title.clone(), url: post.url.clone(), term_frequency: tf });
        p = p + 1;
    }
    r
}

} // verus!
