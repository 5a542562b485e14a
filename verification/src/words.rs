//! Word splitting and frequency counting over character sequences, used by
//! keyword extraction. A word is a maximal whitespace-free run; only words
//! whose UTF-8 byte length exceeds 3 are kept.
use vstd::prelude::*;

verus! {

/// The Unicode White_Space property of the character.
pub uninterp spec fn is_unicode_ws(c: char) -> bool;

/// Relies on char::is_whitespace: the Unicode White_Space property, a
/// function of the character alone.
#[verifier::external_body]
pub(crate) fn char_is_ws(c: char) -> (r: bool)
    ensures
        r == is_unicode_ws(c),
{
    c.is_whitespace()
}

/// The UTF-8 encoded length of a character, by its scalar value range.
pub open spec fn utf8_len(c: char) -> int {
    if (c as u32) < 0x80 {
        1
    } else if (c as u32) < 0x800 {
        2
    } else if (c as u32) < 0x10000 {
        3
    } else {
        4
    }
}

/// The UTF-8 byte length of a word.
pub open spec fn word_bytes(w: Seq<char>) -> int
    decreases w.len(),
{
    if w.len() == 0 {
        0
    } else {
        word_bytes(w.drop_last()) + utf8_len(w.last())
    }
}

proof fn lemma_word_bytes_ge_len(w: Seq<char>)
    ensures
        word_bytes(w) >= w.len(),
    decreases w.len(),
{
    if w.len() > 0 {
        lemma_word_bytes_ge_len(w.drop_last());
    }
}

/// The kept words of `s` with the partial word `cur` carried into it: the
/// maximal whitespace-free runs, in order, keeping only those longer than
/// 3 UTF-8 bytes.
pub open spec fn words_acc(s: Seq<char>, cur: Seq<char>) -> Seq<Seq<char>>
    decreases s.len(),
{
    if s.len() == 0 {
        if cur.len() > 0 && word_bytes(cur) > 3 {
            seq![cur]
        } else {
            Seq::empty()
        }
    } else if is_unicode_ws(s[0]) {
        if cur.len() > 0 && word_bytes(cur) > 3 {
            seq![cur] + words_acc(s.drop_first(), Seq::empty())
        } else {
            words_acc(s.drop_first(), Seq::empty())
        }
    } else {
        words_acc(s.drop_first(), cur.push(s[0]))
    }
}

/// The words of `s` that keyword extraction counts: maximal whitespace-free
/// runs longer than 3 UTF-8 bytes, in order of occurrence.
pub open spec fn kept_words(s: Seq<char>) -> Seq<Seq<char>> {
    words_acc(s, Seq::empty())
}

/// The distinct words of `ws`, in order of first occurrence.
pub open spec fn distinct_words(ws: Seq<Seq<char>>) -> Seq<Seq<char>>
    decreases ws.len(),
{
    if ws.len() == 0 {
        Seq::empty()
    } else {
        let rest = distinct_words(ws.drop_last());
        if rest.contains(ws.last()) {
            rest
        } else {
            rest.push(ws.last())
        }
    }
}

/// Every word of `ws` appears among its distinct words.
pub proof fn lemma_distinct_words_complete(ws: Seq<Seq<char>>, idx: int)
    requires
        0 <= idx < ws.len(),
    ensures
        distinct_words(ws).contains(ws[idx]),
    decreases ws.len(),
{
    let rest = distinct_words(ws.drop_last());
    if idx == ws.len() - 1 {
        if !rest.contains(ws.last()) {
            assert(distinct_words(ws)[rest.len() as int] == ws.last());
        }
    } else {
        assert(ws.drop_last()[idx] == ws[idx]);
        lemma_distinct_words_complete(ws.drop_last(), idx);
        let x = choose|x: int| 0 <= x < rest.len() && rest[x] == ws[idx];
        if !rest.contains(ws.last()) {
            assert(distinct_words(ws)[x] == ws[idx]);
        }
    }
}

/// The distinct words hold no repeats.
pub proof fn lemma_distinct_words_no_dup(ws: Seq<Seq<char>>)
    ensures
        distinct_words(ws).no_duplicates(),
    decreases ws.len(),
{
    if ws.len() > 0 {
        lemma_distinct_words_no_dup(ws.drop_last());
        let rest = distinct_words(ws.drop_last());
        if !rest.contains(ws.last()) {
            assert forall|i: int, j: int|
                0 <= i < j < rest.push(ws.last()).len() implies rest.push(ws.last())[i]
                != rest.push(ws.last())[j] by {
                if j == rest.len() {
                    assert(rest[i] == rest.push(ws.last())[i]);
                }
            }
        }
    }
}

/// The position of `w` among the distinct words, in first-seen order.
pub open spec fn distinct_rank(dws: Seq<Seq<char>>, w: Seq<char>) -> int {
    choose|i: int| 0 <= i < dws.len() && dws[i] == w
}

/// The character sequences of a vector of words.
pub open spec fn views_of(ws: Seq<Vec<char>>) -> Seq<Seq<char>> {
    ws.map_values(|w: Vec<char>| w@)
}

/// How many times the word `w` occurs in `ws`.
pub open spec fn seq_count(ws: Seq<Seq<char>>, w: Seq<char>) -> int
    decreases ws.len(),
{
    if ws.len() == 0 {
        0
    } else {
        seq_count(ws.drop_last(), w) + if ws.last() == w {
            1int
        } else {
            0int
        }
    }
}

/// An occurrence count is never negative.
pub proof fn lemma_seq_count_nonneg(ws: Seq<Seq<char>>, w: Seq<char>)
    ensures
        seq_count(ws, w) >= 0,
    decreases ws.len(),
{
    if ws.len() > 0 {
        lemma_seq_count_nonneg(ws.drop_last(), w);
    }
}

/// A word that occurs in `ws` has a positive count.
pub proof fn lemma_seq_count_pos(ws: Seq<Seq<char>>, idx: int)
    requires
        0 <= idx < ws.len(),
    ensures
        seq_count(ws, ws[idx]) >= 1,
    decreases ws.len(),
{
    lemma_seq_count_nonneg(ws.drop_last(), ws[idx]);
    if idx < ws.len() - 1 {
        assert(ws.drop_last()[idx] == ws[idx]);
        lemma_seq_count_pos(ws.drop_last(), idx);
    }
}

fn utf8_len_exec(c: char) -> (r: usize)
    ensures
        r as int == utf8_len(c),
{
    let u = c as u32;
    if u < 0x80 {
        1
    } else if u < 0x800 {
        2
    } else if u < 0x10000 {
        3
    } else {
        4
    }
}

/// Whether a word's UTF-8 byte length exceeds 3.
pub(crate) fn word_longer_than_3(w: &Vec<char>) -> (r: bool)
    ensures
        r == (word_bytes(w@) > 3),
{
    if w.len() >= 4 {
        proof {
            lemma_word_bytes_ge_len(w@);
        }
        return true;
    }
    let mut total: usize = 0;
    let mut t: usize = 0;
    while t < w.len()
        invariant
            w@.len() < 4,
            t <= w@.len(),
            total as int == word_bytes(w@.take(t as int)),
            total <= 4 * t,
        decreases w@.len() - t,
    {
        proof {
            assert(w@.take(t + 1).drop_last() =~= w@.take(t as int));
            assert(w@.take(t + 1).last() == w@[t as int]);
        }
        total = total + utf8_len_exec(w[t]);
        t += 1;
    }
    proof {
        assert(w@.take(w@.len() as int) =~= w@);
    }
    total > 3
}

/// Splits the characters into their kept words.
pub(crate) fn split_words(chars: &Vec<char>) -> (words: Vec<Vec<char>>)
    ensures
        views_of(words@) == kept_words(chars@),
{
    let mut words: Vec<Vec<char>> = Vec::new();
    let mut cur: Vec<char> = Vec::new();
    let mut i: usize = 0;
    assert(chars@.skip(0) =~= chars@);
    while i < chars.len()
        invariant
            i <= chars@.len(),
            views_of(words@) + words_acc(chars@.skip(i as int), cur@) == kept_words(chars@),
        decreases chars@.len() - i,
    {
        let ghost rest = chars@.skip(i as int);
        let ghost views0 = views_of(words@);
        proof {
            assert(rest[0] == chars@[i as int]);
            assert(rest.drop_first() =~= chars@.skip(i + 1));
        }
        let c = chars[i];
        if char_is_ws(c) {
            if cur.len() > 0 && word_longer_than_3(&cur) {
                let ghost curv = cur@;
                words.push(cur);
                cur = Vec::new();
                proof {
                    assert(views_of(words@) =~= views0.push(curv));
                    assert(views0.push(curv) + words_acc(chars@.skip(i + 1), Seq::empty())
                        =~= views0 + (seq![curv] + words_acc(chars@.skip(i + 1), Seq::empty())));
                }
            } else {
                cur = Vec::new();
            }
        } else {
            cur.push(c);
        }
        i += 1;
    }
    proof {
        assert(chars@.skip(chars@.len() as int) =~= Seq::<char>::empty());
    }
    if cur.len() > 0 && word_longer_than_3(&cur) {
        let ghost curv = cur@;
        let ghost views0 = views_of(words@);
        words.push(cur);
        proof {
            assert(views_of(words@) =~= views0.push(curv));
            assert(views0.push(curv) =~= views0 + seq![curv]);
        }
    }
    words
}

/// Whether two character vectors hold the same characters.
pub(crate) fn vec_char_eq(a: &Vec<char>, b: &Vec<char>) -> (r: bool)
    ensures
        r == (a@ == b@),
{
    if a.len() != b.len() {
        return false;
    }
    let mut t: usize = 0;
    while t < a.len()
        invariant
            a@.len() == b@.len(),
            t <= a@.len(),
            forall|q: int| 0 <= q < t ==> a@[q] == b@[q],
        decreases a@.len() - t,
    {
        if a[t] != b[t] {
            return false;
        }
        t += 1;
    }
    proof {
        assert(a@ =~= b@);
    }
    true
}

/// Counts the occurrences of `key` in `words`.
pub(crate) fn count_in_words(words: &Vec<Vec<char>>, key: &Vec<char>) -> (c: usize)
    ensures
        c as int == seq_count(views_of(words@), key@),
{
    let ghost all = views_of(words@);
    let mut c: usize = 0;
    let mut t: usize = 0;
    assert(all.take(0) =~= Seq::<Seq<char>>::empty());
    while t < words.len()
        invariant
            all == views_of(words@),
            t <= words@.len(),
            c <= t,
            c as int == seq_count(all.take(t as int), key@),
        decreases words@.len() - t,
    {
        proof {
            assert(all.take(t + 1).drop_last() =~= all.take(t as int));
            assert(all.take(t + 1).last() == words@[t as int]@);
        }
        if vec_char_eq(&words[t], key) {
            c += 1;
        }
        t += 1;
    }
    proof {
        assert(all.take(words@.len() as int) =~= all);
    }
    c
}

} // verus!
