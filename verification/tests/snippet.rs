use textdb::snippet::{locate_terms, window};

fn at(body: &str, terms: &[&str]) -> (usize, String) {
    locate_terms(body.as_bytes(), &terms.iter().map(|t| t.to_string()).collect::<Vec<_>>())
}

#[test]
fn finds_the_line_that_matched_through_the_index_fold() {
    // The index strips diacritics, so `facade` is how `façade` is found. Comparing raw
    // text here used to fall through to line 0.
    let body = "# Doc\n\nfiller\nthe word façade is here\n";
    assert_eq!(at(body, &["facade"]), (3, "the word façade is here".into()));
    assert_eq!(at(body, &["façade"]), (3, "the word façade is here".into()));
}

#[test]
fn a_quoted_phrase_is_matched_word_by_word() {
    // `query_terms` keeps a phrase as one term with its spaces, and the words are rarely
    // adjacent in the text: `draft: false` has a colon between them.
    let body = "---\ntitle: T\ndraft: false\n---\n";
    assert_eq!(at(body, &["draft false"]), (2, "draft: false".into()));
}

#[test]
fn a_phrase_split_across_lines_still_lands_on_a_word() {
    // No line holds both, so the fallback picks a line holding one rather than line 0.
    let body = "nothing\nalpha lives here\nand beta lives here\n";
    let (line, snippet) = at(body, &["alpha beta"]);
    assert!(line == 1 || line == 2, "line {line}");
    assert!(snippet.contains("alpha") || snippet.contains("beta"), "{snippet:?}");
}

#[test]
fn the_window_follows_the_match_down_a_long_line() {
    let pad = "filler word here ".repeat(40);
    let body = format!("head\n{pad}NEEDLE{pad}\n");
    let (line, snippet) = at(&body, &["needle"]);
    assert_eq!(line, 1);
    assert!(snippet.contains("NEEDLE"), "{snippet:?}");
    assert!(snippet.starts_with('…') && snippet.ends_with('…'), "{snippet:?}");
    // Bounded: a result list shows many of these.
    assert!(snippet.chars().count() <= 202, "{} chars", snippet.chars().count());
}

#[test]
fn a_line_that_fits_is_shown_whole() {
    assert_eq!(at("alpha\nbeta gamma\n", &["gamma"]), (1, "beta gamma".into()));
}

#[test]
fn a_match_near_the_start_of_a_long_line_keeps_its_head() {
    let pad = "tail word ".repeat(60);
    let body = format!("NEEDLE at the very start {pad}\n");
    let (_, snippet) = at(&body, &["needle"]);
    assert!(snippet.starts_with("NEEDLE"), "{snippet:?}");
    assert!(snippet.ends_with('…'), "{snippet:?}");
}

#[test]
fn nothing_to_match_is_not_a_panic() {
    assert_eq!(at("", &["x"]), (0, String::new()));
    assert_eq!(at("only line\n", &[]).0, 0);
    // A prefix term is matched without its star.
    assert_eq!(at("alpha\nbetaxyz here\n", &["betax*"]).0, 1);
}

#[test]
fn a_window_marks_the_sides_it_cuts() {
    assert_eq!(window("abcdefghij", 0, 4, 1), "abcd\u{2026}");
    assert_eq!(window("abcdefghij", 9, 4, 1).chars().next(), Some('\u{2026}'));
    assert_eq!(window("abc", 2, 10, 1), "abc");
}
