use textdb::fold::fold;

#[test]
fn folds_what_the_tokenizer_folds() {
    assert_eq!(fold("Façade"), "facade");
    // Lithuanian, which the benchmark corpus is full of.
    assert_eq!(fold("ąžuolas čiurlys ėglė įrašas šviesa ūkas žemė"), "azuolas ciurlys egle irasas sviesa ukas zeme");
    assert_eq!(fold("NAÏVE"), "naive");
    assert_eq!(fold("Ñandú"), "nandu");
}

#[test]
fn leaves_alone_what_has_no_diacritic() {
    // Scripts with no marks to strip pass through untouched.
    assert_eq!(fold("数据 Москва Ελλάδα 🚀"), "数据 москва ελλάδα 🚀");
    // Ligatures are not accented letters.
    assert_eq!(fold("Æon œuvre straße"), "æon œuvre straße");
    assert_eq!(fold("plain ascii 123"), "plain ascii 123");
}

#[test]
fn one_character_in_one_character_out() {
    // The property a caller relies on to turn a match position into a line number.
    for s in ["façade", "ĄŽUOLAS", "a\nb\nç\n", "🚀x", "İstanbul"] {
        assert_eq!(fold(s).chars().count(), s.chars().count(), "{s:?}");
        assert_eq!(fold(s).matches('\n').count(), s.matches('\n').count(), "{s:?}");
    }
}

#[test]
fn a_text_is_folded_part_by_part() {
    assert_eq!(fold("Tü\nX") + &fold("Ça"), fold("Tü\nXÇa"));
    assert_eq!(fold("AZ[`az{09"), "az[`az{09");
}
