//! Text kernels: substring search with a bad-character heuristic, Unicode
//! normalization (compatibility decomposition plus lowercase folding), and
//! keyword extraction by normalized word frequency.
use vstd::prelude::*;

use unicode_normalization::UnicodeNormalization;

use crate::words::{
    count_in_words, distinct_rank, distinct_words, kept_words, lemma_distinct_words_complete,
    lemma_distinct_words_no_dup, lemma_seq_count_pos, seq_count, split_words, vec_char_eq,
    views_of,
};

verus! {

/// The compatibility-decomposed, canonically recomposed form of the text.
pub uninterp spec fn nfkc_of(s: Seq<char>) -> Seq<char>;

/// The Unicode lowercase mapping of the text.
pub uninterp spec fn lower_of(s: Seq<char>) -> Seq<char>;

/// The normalized form of the text: compatibility decomposition, then
/// lowercase folding.
pub open spec fn norm_of(s: Seq<char>) -> Seq<char> {
    lower_of(nfkc_of(s))
}

/// Relies on unicode_normalization's `nfkc`: the NFKC normal form of the
/// characters, a function of the characters alone.
#[verifier::external_body]
fn nfkc_str(s: &str) -> (r: String)
    ensures
        r@ == nfkc_of(s@),
{
    s.nfkc().collect()
}

/// Relies on str::to_lowercase: the Unicode lowercase mapping, a function
/// of the characters alone.
#[verifier::external_body]
fn lower_str(s: &str) -> (r: String)
    ensures
        r@ == lower_of(s@),
{
    s.to_lowercase()
}

/// Relies on str::chars: yields exactly the string's characters, in order.
#[verifier::external_body]
fn chars_of(s: &str) -> (v: Vec<char>)
    ensures
        v@ == s@,
{
    s.chars().collect()
}

/// Relies on String's FromIterator over char: the string of exactly these
/// characters, in order.
#[verifier::external_body]
fn string_from_chars(v: &Vec<char>) -> (s: String)
    ensures
        s@ == v@,
{
    v.iter().collect()
}

/// The words selected by a sequence of indices into `words`.
pub open spec fn key_views(words: Seq<Vec<char>>, keys: Seq<usize>) -> Seq<Seq<char>> {
    keys.map_values(|x: usize| words[x as int]@)
}

/// Whether `p` occurs in `t` starting at position `q`.
pub open spec fn is_match_at(t: Seq<char>, p: Seq<char>, q: int) -> bool {
    0 <= q && q + p.len() <= t.len() && t.subrange(q, q + p.len() as int) == p
}

/// The index of the last occurrence of `c` in `p`, or `p.len()` if `c`
/// does not occur.
fn last_occurrence(p: &Vec<char>, c: char) -> (r: usize)
    ensures
        r <= p@.len(),
        r < p@.len() ==> p@[r as int] == c && forall|q: int| r < q < p@.len() ==> p@[q] != c,
        r == p@.len() ==> forall|q: int| 0 <= q < p@.len() ==> p@[q] != c,
{
    let mut idx: usize = p.len();
    while idx > 0
        invariant
            idx <= p@.len(),
            forall|q: int| idx <= q < p@.len() ==> p@[q] != c,
        decreases idx,
    {
        idx -= 1;
        if p[idx] == c {
            return idx;
        }
    }
    p.len()
}

/// Stateless text kernels.
pub struct TextProcessor;

impl TextProcessor {
    /// First-occurrence substring search over characters. Scans each
    /// candidate window right to left and advances by a bad-character
    /// shift (no good-suffix table), so it never skips a match. Returns
    /// the character index of the first match, 0 for an empty pattern,
    /// and -1 when the pattern does not occur.
    pub fn boyer_moore_search(text: &str, pattern: &str) -> (r: i32)
        requires
            text@.len() < 0x8000_0000,
        ensures
            pattern@.len() == 0 ==> r == 0,
            r >= 0 ==> is_match_at(text@, pattern@, r as int) && forall|q: int|
                0 <= q < r ==> !is_match_at(text@, pattern@, q),
            r == -1 ==> forall|q: int| !is_match_at(text@, pattern@, q),
            r >= -1,
    {
        if pattern.is_empty() {
            assert(text@.subrange(0, 0) =~= pattern@);
            return 0;
        }
        let tchars = chars_of(text);
        let pchars = chars_of(pattern);
        let n = tchars.len();
        let m = pchars.len();
        if n < m {
            assert(forall|q: int| !is_match_at(text@, pattern@, q));
            return -1;
        }
        let mut i: usize = 0;
        while i <= n - m
            invariant
                tchars@ == text@,
                pchars@ == pattern@,
                n == text@.len(),
                m == pattern@.len(),
                1 <= m <= n,
                n < 0x8000_0000,
                forall|q: int| 0 <= q < i ==> !is_match_at(text@, pattern@, q),
            decreases n - i,
        {
            let mut j: usize = m - 1;
            while j > 0 && tchars[i + j] == pchars[j]
                invariant
                    tchars@ == text@,
                    pchars@ == pattern@,
                    m == pattern@.len(),
                    i + m <= n == text@.len(),
                    j < m,
                    forall|jj: int| j < jj < m ==> text@[i + jj] == pattern@[jj],
                decreases j,
            {
                j -= 1;
            }
            if tchars[i + j] == pchars[j] {
                assert(j == 0);
                assert forall|jj: int| 0 <= jj < m implies text@.subrange(i as int, i + m)[jj]
                    == pattern@[jj] by {
                    assert(text@[i + jj] == pattern@[jj]);
                }
                assert(text@.subrange(i as int, i + m) =~= pattern@);
                return i as i32;
            }
            let c = tchars[i + j];
            let k = last_occurrence(&pchars, c);
            let shift: usize = if k == m {
                j + 1
            } else if k < j {
                j - k
            } else {
                1
            };
            proof {
                assert(text@[i + j] != pattern@[j as int]);
                assert(!is_match_at(text@, pattern@, i as int)) by {
                    if is_match_at(text@, pattern@, i as int) {
                        assert(text@.subrange(i as int, i + m)[j as int] == pattern@[j as int]);
                    }
                }
                assert forall|q: int| i < q < i + shift implies !is_match_at(
                    text@,
                    pattern@,
                    q,
                ) by {
                    if is_match_at(text@, pattern@, q) {
                        let idx = i + j - q;
                        assert(0 <= idx < j);
                        assert(text@.subrange(q, q + m)[idx] == pattern@[idx]);
                        assert(text@[i + j] == pattern@[idx]);
                        if k == m {
                            assert(pattern@[idx] != c);
                        } else {
                            assert(k < j);
                            assert(idx > k);
                            assert(pattern@[idx] != c);
                        }
                    }
                }
            }
            i += shift;
        }
        assert forall|q: int| !is_match_at(text@, pattern@, q) by {
            if 0 <= q < i {
            } else {
                assert(q < 0 || q + m > n);
            }
        }
        -1
    }

    /// Normalizes text: Unicode compatibility decomposition (NFKC), then
    /// lowercase folding.
    pub fn normalize_text(text: &str) -> (r: String)
        ensures
            r@ == norm_of(text@),
    {
        let decomposed = nfkc_str(text);
        lower_str(decomposed.as_str())
    }

    /// Extracts up to `max_keywords` keywords: normalizes the text, splits
    /// it on whitespace, keeps words longer than 3 UTF-8 bytes, counts
    /// occurrences, and returns distinct words by descending frequency.
    /// Equal frequencies tie-break by first occurrence, so the result is
    /// deterministic.
    pub fn extract_keywords(text: &str, max_keywords: usize) -> (r: Vec<String>)
        ensures
            ({
                let ws = kept_words(norm_of(text@));
                &&& r@.len() <= max_keywords
                &&& r@.len() == (if (max_keywords as int) <= distinct_words(ws).len() {
                    max_keywords as int
                } else {
                    distinct_words(ws).len() as int
                })
                &&& forall|a: int| 0 <= a < r@.len() ==> seq_count(ws, #[trigger] r@[a]@) >= 1
                &&& forall|a: int, b: int|
                    0 <= a < b < r@.len() ==> #[trigger] seq_count(ws, r@[a]@)
                        >= #[trigger] seq_count(ws, r@[b]@)
                &&& forall|a: int, b: int| 0 <= a < b < r@.len() ==> r@[a]@ != r@[b]@
                &&& forall|w: Seq<char>, a: int|
                    ws.contains(w) && 0 <= a < r@.len() && (forall|b: int|
                        0 <= b < r@.len() ==> (#[trigger] r@[b])@ != w) ==> #[trigger] seq_count(
                        ws,
                        w,
                    ) <= seq_count(ws, #[trigger] r@[a]@)
                &&& forall|a: int, b: int|
                    0 <= a < b < r@.len() && #[trigger] seq_count(ws, r@[a]@)
                        == #[trigger] seq_count(ws, r@[b]@) ==> distinct_rank(
                        distinct_words(ws),
                        r@[a]@,
                    ) < distinct_rank(distinct_words(ws), r@[b]@)
            }),
    {
        let normalized = Self::normalize_text(text);
        let chars = chars_of(normalized.as_str());
        let words = split_words(&chars);
        let ghost ws = kept_words(norm_of(text@));
        proof {
            assert(views_of(words@) == ws);
        }
        // Distinct words, in first-seen order, as indices into `words`.
        let mut keys: Vec<usize> = Vec::new();
        let mut t: usize = 0;
        assert(ws.take(0) =~= Seq::<Seq<char>>::empty());
        assert(key_views(words@, keys@) =~= Seq::<Seq<char>>::empty());
        while t < words.len()
            invariant
                ws == views_of(words@),
                t <= words@.len(),
                key_views(words@, keys@) == distinct_words(ws.take(t as int)),
                forall|a: int| 0 <= a < keys@.len() ==> (#[trigger] keys@[a]) < t,
                forall|a: int, b: int|
                    0 <= a < b < keys@.len() ==> words@[#[trigger] keys@[a] as int]@
                        != words@[#[trigger] keys@[b] as int]@,
            decreases words@.len() - t,
        {
            let mut a: usize = 0;
            let mut found = false;
            while a < keys.len() && !found
                invariant
                    a <= keys@.len(),
                    t < words@.len(),
                    forall|x: int| 0 <= x < keys@.len() ==> (#[trigger] keys@[x]) < t,
                    !found ==> forall|x: int|
                        0 <= x < a ==> words@[#[trigger] keys@[x] as int]@ != words@[t as int]@,
                    found ==> exists|x: int|
                        0 <= x < keys@.len() && words@[#[trigger] keys@[x] as int]@
                            == words@[t as int]@,
                decreases keys@.len() - a + if found {
                    0int
                } else {
                    1int
                },
            {
                if vec_char_eq(&words[keys[a]], &words[t]) {
                    found = true;
                } else {
                    a += 1;
                }
            }
            proof {
                assert(ws.take(t + 1).drop_last() =~= ws.take(t as int));
                assert(ws.take(t + 1).last() == words@[t as int]@);
                let dw = distinct_words(ws.take(t as int));
                if found {
                    let x = choose|x: int|
                        0 <= x < keys@.len() && words@[keys@[x] as int]@ == words@[t as int]@;
                    assert(dw[x] == words@[t as int]@);
                    assert(dw.contains(words@[t as int]@));
                } else {
                    if dw.contains(words@[t as int]@) {
                        let x = choose|x: int| 0 <= x < dw.len() && dw[x] == words@[t as int]@;
                        assert(words@[keys@[x] as int]@ == words@[t as int]@);
                    }
                    assert(!dw.contains(words@[t as int]@));
                }
            }
            if !found {
                let ghost keys0 = keys@;
                keys.push(t);
                proof {
                    assert(key_views(words@, keys@) =~= key_views(words@, keys0).push(
                        words@[t as int]@,
                    ));
                }
            }
            t += 1;
        }
        proof {
            assert(ws.take(words@.len() as int) =~= ws);
            assert(keys@.len() == distinct_words(ws).len());
        }
        // Occurrence count of each distinct word.
        let mut counts: Vec<usize> = Vec::new();
        let mut u: usize = 0;
        while u < keys.len()
            invariant
                ws == views_of(words@),
                u <= keys@.len(),
                counts@.len() == u,
                forall|x: int| 0 <= x < keys@.len() ==> (#[trigger] keys@[x]) < words@.len(),
                forall|x: int|
                    0 <= x < u ==> (#[trigger] counts@[x]) as int == seq_count(
                        ws,
                        words@[keys@[x] as int]@,
                    ),
            decreases keys@.len() - u,
        {
            let cnt = count_in_words(&words, &words[keys[u]]);
            counts.push(cnt);
            u += 1;
        }
        // Pick the most frequent distinct words, first-seen order breaking
        // ties, by repeated selection of the unused maximum.
        let target: usize = if max_keywords < keys.len() {
            max_keywords
        } else {
            keys.len()
        };
        let mut used: Vec<bool> = Vec::new();
        let mut f: usize = 0;
        while f < keys.len()
            invariant
                f <= keys@.len(),
                used@.len() == f,
                forall|x: int| 0 <= x < f ==> !(#[trigger] used@[x]),
            decreases keys@.len() - f,
        {
            used.push(false);
            f += 1;
        }
        let mut r: Vec<String> = Vec::new();
        let ghost mut picked: Seq<int> = Seq::empty();
        let mut round: usize = 0;
        while round < target
            invariant
                ws == views_of(words@),
                target <= keys@.len(),
                keys@.len() == counts@.len(),
                used@.len() == keys@.len(),
                forall|x: int| 0 <= x < keys@.len() ==> (#[trigger] keys@[x]) < words@.len(),
                forall|x: int|
                    0 <= x < counts@.len() ==> (#[trigger] counts@[x]) as int == seq_count(
                        ws,
                        words@[keys@[x] as int]@,
                    ),
                forall|a: int, b: int|
                    0 <= a < b < keys@.len() ==> words@[#[trigger] keys@[a] as int]@
                        != words@[#[trigger] keys@[b] as int]@,
                r@.len() == picked.len(),
                picked.len() == round <= target,
                forall|p: int| 0 <= p < picked.len() ==> 0 <= (#[trigger] picked[p]) < keys@.len(),
                forall|p: int| 0 <= p < picked.len() ==> used@[#[trigger] picked[p]],
                forall|x: int|
                    0 <= x < used@.len() && #[trigger] used@[x] ==> picked.contains(x),
                forall|p: int, q: int| 0 <= p < q < picked.len() ==> picked[p] != picked[q],
                forall|p: int|
                    0 <= p < picked.len() ==> (#[trigger] r@[p])@ == words@[keys@[picked[p]] as int]@,
                forall|p: int, q: int|
                    0 <= p < q < picked.len() ==> counts@[#[trigger] picked[p]]
                        >= counts@[#[trigger] picked[q]],
                forall|p: int, x: int|
                    0 <= p < picked.len() && 0 <= x < used@.len() && !(#[trigger] used@[x])
                        ==> counts@[x] <= counts@[#[trigger] picked[p]],
                forall|p: int, x: int|
                    0 <= p < picked.len() && 0 <= x < used@.len() && !(#[trigger] used@[x])
                        && counts@[x] == counts@[#[trigger] picked[p]] ==> picked[p] < x,
                forall|p: int, q: int|
                    0 <= p < q < picked.len() && counts@[#[trigger] picked[p]]
                        == counts@[#[trigger] picked[q]] ==> picked[p] < picked[q],
            decreases target - round,
        {
            let mut best: usize = 0;
            let mut chose = false;
            let mut x: usize = 0;
            while x < keys.len()
                invariant
                    keys@.len() == counts@.len() == used@.len(),
                    x <= keys@.len(),
                    chose ==> best < keys@.len() && !used@[best as int],
                    chose ==> best < x,
                    chose ==> forall|y: int|
                        0 <= y < x && !used@[y] ==> counts@[y] <= counts@[best as int],
                    chose ==> forall|y: int|
                        0 <= y < x && !(#[trigger] used@[y]) && counts@[y]
                            == counts@[best as int] ==> best <= y,
                    !chose ==> forall|y: int| 0 <= y < x ==> used@[y],
                decreases keys@.len() - x,
            {
                if !used[x] && (!chose || counts[x] > counts[best]) {
                    best = x;
                    chose = true;
                }
                x += 1;
            }
            if chose {
                let ghost picked0 = picked;
                used[best] = true;
                r.push(string_from_chars(&words[keys[best]]));
                proof {
                    picked = picked.push(best as int);
                    assert forall|x: int|
                        0 <= x < used@.len() && #[trigger] used@[x] implies picked.contains(
                        x,
                    ) by {
                        if x == best {
                            assert(picked[picked.len() - 1] == x);
                        } else {
                            assert(picked0.contains(x));
                            let w = choose|w: int| 0 <= w < picked0.len() && picked0[w] == x;
                            assert(picked[w] == x);
                        }
                    }
                }
            } else {
                proof {
                    // Every slot is marked used, yet fewer slots were picked
                    // than exist: impossible, so a slot was always chosen.
                    assert(picked.no_duplicates());
                    picked.unique_seq_to_set();
                    vstd::seq_lib::seq_to_set_is_finite::<int>(picked);
                    let rng = vstd::set_lib::set_int_range(0, keys@.len() as int);
                    vstd::set_lib::lemma_int_range(0, keys@.len() as int);
                    assert forall|y: int| rng.contains(y) implies picked.to_set().contains(
                        y,
                    ) by {
                        assert(used@[y]);
                        assert(picked.contains(y));
                    }
                    assert(rng.subset_of(picked.to_set()));
                    vstd::set_lib::lemma_len_subset(rng, picked.to_set());
                    assert(false);
                }
            }
            round += 1;
        }
        proof {
            assert forall|p: int| 0 <= p < r@.len() implies seq_count(ws, #[trigger] r@[p]@)
                >= 1 by {
                assert(r@[p]@ == ws[keys@[picked[p]] as int]);
                lemma_seq_count_pos(ws, keys@[picked[p]] as int);
            }
            assert forall|a: int, b: int| 0 <= a < b < r@.len() implies #[trigger] seq_count(
                ws,
                r@[a]@,
            ) >= #[trigger] seq_count(ws, r@[b]@) by {
                assert(counts@[picked[a]] >= counts@[picked[b]]);
            }
            assert forall|w: Seq<char>, a: int|
                ws.contains(w) && 0 <= a < r@.len() && (forall|b: int|
                    0 <= b < r@.len() ==> (#[trigger] r@[b])@ != w) implies #[trigger] seq_count(
                ws,
                w,
            ) <= seq_count(ws, #[trigger] r@[a]@) by {
                let q = choose|q: int| 0 <= q < ws.len() && ws[q] == w;
                lemma_distinct_words_complete(ws, q);
                let dw = distinct_words(ws);
                let x = choose|x: int| 0 <= x < dw.len() && dw[x] == w;
                assert(key_views(words@, keys@)[x] == w);
                assert(words@[keys@[x] as int]@ == w);
                if used@[x] {
                    assert(picked.contains(x));
                    let p = choose|p: int| 0 <= p < picked.len() && picked[p] == x;
                    assert(r@[p]@ == w);
                } else {
                    assert(counts@[x] <= counts@[picked[a]]);
                }
            }
            assert forall|a: int, b: int|
                0 <= a < b < r@.len() && #[trigger] seq_count(ws, r@[a]@) == #[trigger] seq_count(
                ws,
                r@[b]@,
            ) implies distinct_rank(distinct_words(ws), r@[a]@) < distinct_rank(
                distinct_words(ws),
                r@[b]@,
            ) by {
                lemma_distinct_words_no_dup(ws);
                let dw = distinct_words(ws);
                assert(counts@[picked[a]] == counts@[picked[b]]);
                assert(picked[a] < picked[b]);
                assert(dw[picked[a]] == r@[a]@);
                assert(dw[picked[b]] == r@[b]@);
                let ra = distinct_rank(dw, r@[a]@);
                let rb = distinct_rank(dw, r@[b]@);
                assert(0 <= ra < dw.len() && dw[ra] == r@[a]@);
                assert(0 <= rb < dw.len() && dw[rb] == r@[b]@);
                assert(ra == picked[a]);
                assert(rb == picked[b]);
            }
            assert forall|a: int, b: int| 0 <= a < b < r@.len() implies r@[a]@ != r@[b]@ by {
                let sa = picked[a];
                let sb = picked[b];
                assert(sa != sb);
                if sa < sb {
                    assert(words@[keys@[sa] as int]@ != words@[keys@[sb] as int]@);
                } else {
                    assert(words@[keys@[sb] as int]@ != words@[keys@[sa] as int]@);
                }
            }
        }
        r
    }
}

} // verus!
