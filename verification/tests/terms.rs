use textdb::bm25::{counts, frequency, TermDf};
use textdb::terms::{cut, matching_lines, parse, show, words, Term};

fn t(q: &[&str]) -> Vec<Term> {
    parse(q.iter().map(|s| s.to_string()).collect())
}

#[test]
fn a_term_is_a_word_a_prefix_or_a_phrase() {
    assert_eq!(t(&["rate"]), vec![Term::Word("rate".into())]);
    assert_eq!(t(&["rat*"]), vec![Term::Prefix("rat".into())]);
    // Punctuation makes a phrase, because that is what the index sees too.
    assert_eq!(t(&["2026-02"]), vec![Term::Phrase(vec!["2026".into(), "02".into()])]);
    assert_eq!(t(&["rate limit"]), vec![Term::Phrase(vec!["rate".into(), "limit".into()])]);
}

#[test]
fn every_term_must_appear_on_some_line() {
    let doc = "rate is here\nlimit is there\n";
    // Both words appear, on different lines: both lines are returned.
    let got = matching_lines(&t(&["rate", "limit"]), doc).unwrap();
    assert_eq!(got.len(), 2);
    // A term on no line at all drops the document rather than reporting a wrong line.
    assert!(matching_lines(&t(&["rate", "absent"]), doc).is_none());
}

#[test]
fn matching_folds_the_way_the_index_does() {
    let doc = "the façade is here\n";
    assert_eq!(matching_lines(&t(&["facade"]), doc).unwrap().len(), 1);
    assert_eq!(matching_lines(&t(&["FAÇADE"]), doc).unwrap().len(), 1);
}

#[test]
fn a_phrase_needs_its_words_adjacent_and_in_order() {
    assert!(matching_lines(&t(&["rate limit"]), "rate limit here\n").is_some());
    assert!(matching_lines(&t(&["rate limit"]), "limit rate here\n").is_none());
    assert!(matching_lines(&t(&["rate limit"]), "rate then limit\n").is_none());
}

#[test]
fn a_phrase_is_counted_as_a_phrase() {
    let terms = parse(vec!["churn prediction".into()]);
    assert_eq!(frequency(&terms[0], &words("churn prediction and churn prediction")), 2);
    assert_eq!(frequency(&terms[0], &words("churn is churn and prediction is prediction")), 0);
    let terms = vec![Term::Word("churn".into()), Term::Prefix("pre".into())];
    let asked: Vec<TermDf> = terms.iter().map(|t| TermDf { term: t, df: 1 }).collect();
    assert_eq!(counts(&asked, "Churn prediction is pre churn"), (5, vec![2, 2]));
}

#[test]
fn words_are_folded_runs_of_letters_and_digits() {
    assert_eq!(words("Fa\u{e7}ade, 2026-02!"), vec!["facade".to_string(), "2026".into(), "02".into()]);
}

#[test]
fn a_long_line_is_shown_around_its_match() {
    let line = format!("{}needle{}", "x ".repeat(200), " y".repeat(200));
    let shown = show(&line, &t(&["needle"]));
    assert!(shown.contains("needle"), "{shown}");
    assert!(shown.chars().count() < line.chars().count());
    assert_eq!(cut("short"), "short");
}
