use vr_kernels::text::TextProcessor;

#[test]
fn search_finds_world() {
    assert_eq!(TextProcessor::boyer_moore_search("hello world", "world"), 6);
}

#[test]
fn search_empty_pattern_matches_at_zero() {
    assert_eq!(TextProcessor::boyer_moore_search("hello", ""), 0);
}

#[test]
fn search_pattern_longer_than_text_not_found() {
    assert_eq!(TextProcessor::boyer_moore_search("abc", "abcd"), -1);
}

#[test]
fn search_returns_first_occurrence() {
    assert_eq!(TextProcessor::boyer_moore_search("zabaz", "aba"), 1);
    assert_eq!(TextProcessor::boyer_moore_search("abcabcabc", "cab"), 2);
}

#[test]
fn search_counts_characters_not_bytes() {
    // Multi-byte characters before the match still count as one position each.
    assert_eq!(TextProcessor::boyer_moore_search("日本語 text", "text"), 4);
}

#[test]
fn search_absent_pattern_not_found() {
    assert_eq!(TextProcessor::boyer_moore_search("hello world", "worlds"), -1);
}

#[test]
fn normalize_lowercases() {
    assert_eq!(TextProcessor::normalize_text("Hello WORLD"), "hello world");
}

#[test]
fn normalize_decomposes_compatibility_forms() {
    // Fullwidth letters and the fi ligature decompose before folding.
    assert_eq!(TextProcessor::normalize_text("ＡＢＣ"), "abc");
    assert_eq!(TextProcessor::normalize_text("ﬁsh"), "fish");
}

#[test]
fn normalize_is_idempotent() {
    for s in ["Hello WORLD", "ＡＢＣ ﬁne Straße", "a\u{0301} É ½", "already lower"] {
        let once = TextProcessor::normalize_text(s);
        let twice = TextProcessor::normalize_text(&once);
        assert_eq!(twice, once);
    }
}

#[test]
fn keywords_ranked_by_frequency() {
    let text = "apple banana apple cherry banana apple";
    let got = TextProcessor::extract_keywords(text, 2);
    assert_eq!(got, vec!["apple".to_string(), "banana".to_string()]);
}

#[test]
fn keywords_never_exceed_limit() {
    let text = "apple banana cherry durian elderberry";
    assert_eq!(TextProcessor::extract_keywords(text, 3).len(), 3);
    assert_eq!(TextProcessor::extract_keywords(text, 0).len(), 0);
    assert_eq!(TextProcessor::extract_keywords(text, 10).len(), 5);
}

#[test]
fn keywords_drop_short_words() {
    let got = TextProcessor::extract_keywords("the cat sat on apple", 5);
    assert_eq!(got, vec!["apple".to_string()]);
}

#[test]
fn keywords_tie_break_by_first_occurrence() {
    let got = TextProcessor::extract_keywords("gamma delta gamma delta", 2);
    assert_eq!(got, vec!["gamma".to_string(), "delta".to_string()]);
}

#[test]
fn keywords_normalize_before_counting() {
    // Case variants count as one word after normalization.
    let got = TextProcessor::extract_keywords("Apple APPLE apple banana", 1);
    assert_eq!(got, vec!["apple".to_string()]);
}

#[test]
fn keywords_split_on_any_whitespace() {
    let got = TextProcessor::extract_keywords("apple\tbanana\napple", 2);
    assert_eq!(got, vec!["apple".to_string(), "banana".to_string()]);
}
