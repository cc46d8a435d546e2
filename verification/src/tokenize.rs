//! Tokenization: text to a term-frequency counter.
//!
//! A word is a maximal run of alphabetic characters; every other
//! character separates words. Words are lowercased, stopwords are
//! dropped, and the rest are counted, each distinct word appearing once
//! in first-occurrence order.

use vstd::prelude::*;
use vstd::string::StrSliceExecFns;

use crate::text::{alphabetic, is_alphabetic_char, lower_of, push_char, to_lowercase};

verus! {

/// Completed words and the unfinished trailing run after scanning the
/// first `n` characters.
pub open spec fn scan_words(text: Seq<char>, n: int) -> (Seq<Seq<char>>, Seq<char>)
    decreases n,
{
    if n <= 0 {
        (Seq::empty(), Seq::empty())
    } else {
        let (ws, cur) = scan_words(text, n - 1);
        let c = text[n - 1];
        if alphabetic(c) {
            (ws, cur.push(c))
        } else if cur.len() > 0 {
            (ws.push(cur), Seq::empty())
        } else {
            (ws, cur)
        }
    }
}

/// The maximal alphabetic runs of the text, in order.
pub open spec fn words_of(text: Seq<char>) -> Seq<Seq<char>> {
    let (ws, cur) = scan_words(text, text.len() as int);
    if cur.len() > 0 {
        ws.push(cur)
    } else {
        ws
    }
}

/// The words lowercased, stopwords removed, order kept.
pub open spec fn lowered_kept(ws: Seq<Seq<char>>, stops: Seq<Seq<char>>) -> Seq<Seq<char>>
    decreases ws.len(),
{
    if ws.len() == 0 {
        Seq::empty()
    } else {
        let prev = lowered_kept(ws.drop_last(), stops);
        let lw = lower_of(ws.last());
        if stops.contains(lw) {
            prev
        } else {
            prev.push(lw)
        }
    }
}

/// Each distinct word at its first occurrence, in order.
pub open spec fn distinct_keys(ws: Seq<Seq<char>>) -> Seq<Seq<char>>
    decreases ws.len(),
{
    if ws.len() == 0 {
        Seq::empty()
    } else {
        let prev = distinct_keys(ws.drop_last());
        if prev.contains(ws.last()) {
            prev
        } else {
            prev.push(ws.last())
        }
    }
}

/// How often `w` occurs in `ws`.
pub open spec fn count_of(ws: Seq<Seq<char>>, w: Seq<char>) -> nat
    decreases ws.len(),
{
    if ws.len() == 0 {
        0
    } else {
        count_of(ws.drop_last(), w) + (if ws.last() == w {
            1nat
        } else {
            0nat
        })
    }
}

/// The stopword list as character sequences.
pub open spec fn stops_view(stopwords: Seq<String>) -> Seq<Seq<char>> {
    stopwords.map_values(|s: String| s@)
}

/// The pairs are exactly the counter of `kept`: one entry per distinct
/// word in first-occurrence order, valued at its number of occurrences.
pub open spec fn counts_exactly(r: Seq<(String, u32)>, kept: Seq<Seq<char>>) -> bool {
    &&& r.map_values(|p: (String, u32)| p.0@) == distinct_keys(kept)
    &&& forall|i: int| 0 <= i < r.len() ==> #[trigger] r[i].1 == count_of(kept, r[i].0@)
}

/// A word occurs at most as often as the list is long.
proof fn lemma_count_le_len(ws: Seq<Seq<char>>, w: Seq<char>)
    ensures
        count_of(ws, w) <= ws.len(),
    decreases ws.len(),
{
    if ws.len() > 0 {
        lemma_count_le_len(ws.drop_last(), w);
    }
}

/// A word that does not occur has count zero.
proof fn lemma_count_absent(ws: Seq<Seq<char>>, w: Seq<char>)
    requires
        !ws.contains(w),
    ensures
        count_of(ws, w) == 0,
    decreases ws.len(),
{
    if ws.len() > 0 {
        assert(!ws.drop_last().contains(w)) by {
            if ws.drop_last().contains(w) {
                let i = choose|i: int| 0 <= i < ws.drop_last().len() && ws.drop_last()[i] == w;
                assert(ws[i] == w);
            }
        }
        lemma_count_absent(ws.drop_last(), w);
    }
}

/// The distinct keys hold exactly the words of the list.
proof fn lemma_distinct_contains(ws: Seq<Seq<char>>)
    ensures
        forall|x: Seq<char>| #[trigger]
            distinct_keys(ws).contains(x) <==> ws.contains(x),
    decreases ws.len(),
{
    if ws.len() > 0 {
        lemma_distinct_contains(ws.drop_last());
        let prev = distinct_keys(ws.drop_last());
        assert forall|x: Seq<char>| #[trigger] ws.contains(x) implies distinct_keys(ws).contains(
            x,
        ) by {
            let i = choose|i: int| 0 <= i < ws.len() && ws[i] == x;
            if i < ws.len() - 1 {
                assert(ws.drop_last()[i] == x);
                assert(ws.drop_last().contains(x));
                assert(prev.contains(x));
                let j = choose|j: int| 0 <= j < prev.len() && prev[j] == x;
                if !prev.contains(ws.last()) {
                    assert(prev.push(ws.last())[j] == x);
                }
            } else {
                assert(x == ws.last());
                if !prev.contains(ws.last()) {
                    assert(prev.push(x)[prev.len() as int] == x);
                }
            }
        }
        assert forall|x: Seq<char>| #[trigger] distinct_keys(ws).contains(x) implies ws.contains(
            x,
        ) by {
            let prev = distinct_keys(ws.drop_last());
            if prev.contains(x) {
                assert(ws.drop_last().contains(x));
                let i = choose|i: int| 0 <= i < ws.drop_last().len() && ws.drop_last()[i] == x;
                assert(ws[i] == x);
            }
        }
    }
}

/// No word appears twice among the distinct keys.
proof fn lemma_distinct_no_dup(ws: Seq<Seq<char>>)
    ensures
        forall|a: int, b: int|
            0 <= a < b < distinct_keys(ws).len() ==> #[trigger] distinct_keys(ws)[a]
                != #[trigger] distinct_keys(ws)[b],
    decreases ws.len(),
{
    if ws.len() > 0 {
        lemma_distinct_no_dup(ws.drop_last());
        let prev = distinct_keys(ws.drop_last());
        if !prev.contains(ws.last()) {
            assert forall|a: int, b: int|
                0 <= a < b < distinct_keys(ws).len() implies #[trigger] distinct_keys(ws)[a]
                != #[trigger] distinct_keys(ws)[b] by {
                if b == distinct_keys(ws).len() - 1 {
                    assert(distinct_keys(ws)[a] == prev[a]);
                    assert(!prev.contains(ws.last()));
                    assert(prev[a] != ws.last());
                }
            }
        }
    }
}

/// Filtering keeps at most as many words as came in.
proof fn lemma_kept_len(ws: Seq<Seq<char>>, stops: Seq<Seq<char>>)
    ensures
        lowered_kept(ws, stops).len() <= ws.len(),
    decreases ws.len(),
{
    if ws.len() > 0 {
        lemma_kept_len(ws.drop_last(), stops);
    }
}

/// Words take at least two characters each to complete: their letters
/// and a separator.
proof fn lemma_scan_bound(text: Seq<char>, n: int)
    requires
        0 <= n <= text.len(),
    ensures
        2 * scan_words(text, n).0.len() + scan_words(text, n).1.len() <= n,
    decreases n,
{
    if n > 0 {
        lemma_scan_bound(text, n - 1);
    }
}

/// Count a lowercased, non-stopword occurrence of `w`.
fn bump(result: &mut Vec<(String, u32)>, w: String, Ghost(kept): Ghost<Seq<Seq<char>>>)
    requires
        counts_exactly(old(result)@, kept),
        kept.len() < u32::MAX,
    ensures
        counts_exactly(final(result)@, kept.push(w@)),
{
    proof {
        assert(kept.push(w@).drop_last() =~= kept);
        lemma_distinct_contains(kept);
        lemma_distinct_no_dup(kept);
    }
    let ghost keys = distinct_keys(kept);
    let mut idx: usize = 0;
    while idx < result.len()
        invariant
            counts_exactly(result@, kept),
            result@ == old(result)@,
            keys == distinct_keys(kept),
            kept.len() < u32::MAX,
            0 <= idx <= result@.len(),
            forall|j: int| 0 <= j < idx ==> #[trigger] result@[j].0@ != w@,
        decreases result@.len() - idx,
    {
        proof {
            assert(kept.push(w@).drop_last() =~= kept);
            lemma_distinct_contains(kept);
            lemma_distinct_no_dup(kept);
        }
        if result[idx].0 == w {
            let c = result[idx].1;
            proof {
                assert(result@[idx as int].1 == count_of(kept, result@[idx as int].0@));
                lemma_count_le_len(kept, w@);
            }
            let key = result[idx].0.clone();
            result[idx] = (key, c + 1);
            proof {
                assert(result@[idx as int].0@ == w@);
                assert(distinct_keys(kept.push(w@)) == keys) by {
                    assert(keys.contains(w@)) by {
                        assert(keys[idx as int] == w@);
                    }
                    assert(kept.contains(w@));
                }
                assert(result@.map_values(|p: (String, u32)| p.0@) =~= distinct_keys(
                    kept.push(w@),
                ));
                assert forall|i: int| 0 <= i < result@.len() implies #[trigger] result@[i].1
                    == count_of(kept.push(w@), result@[i].0@) by {
                    if i != idx {
                        assert(old(result)@[i].1 == count_of(kept, old(result)@[i].0@));
                        assert(old(result)@.map_values(|p: (String, u32)| p.0@)[i] == old(
                            result,
                        )@[i].0@);
                        assert(old(result)@.map_values(|p: (String, u32)| p.0@)[idx as int] == old(
                            result,
                        )@[idx as int].0@);
                        assert(result@[i].0@ != w@);
                    }
                }
            }
            return ;
        }
        idx = idx + 1;
    }
    proof {
        assert(!keys.contains(w@)) by {
            if keys.contains(w@) {
                let j = choose|j: int| 0 <= j < keys.len() && keys[j] == w@;
                assert(result@.map_values(|p: (String, u32)| p.0@)[j] == result@[j].0@);
            }
        }
        assert(!kept.contains(w@));
        lemma_count_absent(kept, w@);
    }
    result.push((w, 1));
    proof {
        assert(distinct_keys(kept.push(w@)) == keys.push(w@));
        assert(result@.map_values(|p: (String, u32)| p.0@) =~= keys.push(w@));
        assert forall|i: int| 0 <= i < result@.len() implies #[trigger] result@[i].1 == count_of(
            kept.push(w@),
            result@[i].0@,
        ) by {
            if i < result@.len() - 1 {
                assert(old(result)@[i].1 == count_of(kept, old(result)@[i].0@));
                assert(old(result)@.map_values(|p: (String, u32)| p.0@)[i] == old(
                    result,
                )@[i].0@);
                assert(result@[i].0@ != w@);
            }
        }
    }
}

/// Whether the word is on the stopword list.
fn is_stopword(stopwords: &Vec<String>, w: &String) -> (r: bool)
    ensures
        r == stops_view(stopwords@).contains(w@),
{
    let mut j: usize = 0;
    while j < stopwords.len()
        invariant
            0 <= j <= stopwords@.len(),
            forall|i: int| 0 <= i < j ==> #[trigger] stopwords@[i]@ != w@,
        decreases stopwords@.len() - j,
    {
        if stopwords[j] == *w {
            proof {
                assert(stops_view(stopwords@)[j as int] == w@);
            }
            return true;
        }
        j = j + 1;
    }
    proof {
        if stops_view(stopwords@).contains(w@) {
            let i = choose|i: int|
                0 <= i < stops_view(stopwords@).len() && stops_view(stopwords@)[i] == w@;
            assert(stopwords@[i]@ == w@);
        }
    }
    false
}

/// Split the text into maximal alphabetic runs, lowercase them, drop the
/// stopwords, and count what is left: one entry per distinct word in
/// first-occurrence order, valued at its number of occurrences.
pub fn tokenize(text: &String, stopwords: &Vec<String>) -> (r: Vec<(String, u32)>)
    requires
        text@.len() <= u32::MAX,
    ensures
        counts_exactly(r@, lowered_kept(words_of(text@), stops_view(stopwords@))),
{
    let ghost stops = stops_view(stopwords@);
    let n = text.as_str().unicode_len();
    let mut result: Vec<(String, u32)> = Vec::new();
    let mut cur = String::new();
    let mut i: usize = 0;
    proof {
        assert(result@.map_values(|p: (String, u32)| p.0@) =~= Seq::<Seq<char>>::empty());
    }
    while i < n
        invariant
            text@.len() == n <= u32::MAX,
            stops == stops_view(stopwords@),
            0 <= i <= n,
            cur@ == scan_words(text@, i as int).1,
            counts_exactly(result@, lowered_kept(scan_words(text@, i as int).0, stops)),
        decreases n - i,
    {
        let c = text.as_str().get_char(i);
        let ghost ws = scan_words(text@, i as int).0;
        if is_alphabetic_char(c) {
            push_char(&mut cur, c);
        } else {
            if !cur.as_str().is_empty() {
                proof {
                    assert(ws.push(cur@).drop_last() =~= ws);
                    lemma_scan_bound(text@, i as int);
                    lemma_kept_len(ws, stops);
                }
                let lw = to_lowercase(cur.as_str());
                if !is_stopword(stopwords, &lw) {
                    let ghost kept = lowered_kept(ws, stops);
                    bump(&mut result, lw, Ghost(kept));
                }
                cur = String::new();
            }
        }
        i = i + 1;
    }
    if !cur.as_str().is_empty() {
        let ghost ws = scan_words(text@, n as int).0;
        proof {
            assert(words_of(text@) == ws.push(cur@));
            assert(ws.push(cur@).drop_last() =~= ws);
            lemma_scan_bound(text@, n as int);
            lemma_kept_len(ws, stops);
        }
        let lw = to_lowercase(cur.as_str());
        if !is_stopword(stopwords, &lw) {
            let ghost kept = lowered_kept(ws, stops);
            bump(&mut result, lw, Ghost(kept));
        }
    }
    result
}

} // verus!
