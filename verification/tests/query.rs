use textdb::md::query::{flatten, parse, Expr, Op, Term};
use textdb::value::Value;

fn text(s: &str) -> Value {
    Value::Text(s.to_string())
}

fn object(members: Vec<(&str, Value)>) -> Value {
    Value::Object(members.into_iter().map(|(k, v)| (k.to_string(), v)).collect())
}

fn t(key: &str, op: Op, value: &str) -> Expr {
    Expr::Term(Term {
        key: key.into(),
        op,
        value: value.into(),
        numeric: value.parse::<f64>().is_ok(),
    })
}

#[test]
fn a_list_becomes_one_row_per_element_and_keeps_its_order() {
    let v = object(vec![("tags", Value::List(vec![text("cvm"), text("telco")]))]);
    let got = flatten(&v);
    assert_eq!(got.len(), 2);
    assert_eq!((got[0].key.as_str(), got[0].text.as_deref(), got[0].ord), ("tags", Some("cvm"), 0));
    assert_eq!((got[1].key.as_str(), got[1].text.as_deref(), got[1].ord), ("tags", Some("telco"), 1));
}

#[test]
fn nested_objects_flatten_to_dotted_paths() {
    let v = object(vec![("project", object(vec![("name", text("atlas")), ("phase", text("pilot"))]))]);
    let mut keys: Vec<String> = flatten(&v).into_iter().map(|p| p.key).collect();
    keys.sort();
    assert_eq!(keys, vec!["project.name", "project.phase"]);
}

#[test]
fn numbers_are_stored_as_both_text_and_number() {
    let v = object(vec![("priority", Value::Int(3))]);
    let p = &flatten(&v)[0];
    assert_eq!(p.text.as_deref(), Some("3"));
    assert!(p.numeric);
}

#[test]
fn a_null_property_is_still_recorded_so_has_can_find_it() {
    let v = object(vec![("due", Value::Null)]);
    let p = &flatten(&v)[0];
    assert_eq!((p.text.as_deref(), p.numeric), (None, false));
}

#[test]
fn a_bare_query_is_an_equality() {
    assert_eq!(parse("status:draft").unwrap(), t("status", Op::Eq, "draft"));
}

#[test]
fn spaces_mean_and() {
    assert_eq!(
        parse("status:draft tags:telco").unwrap(),
        Expr::And(vec![t("status", Op::Eq, "draft"), t("tags", Op::Eq, "telco")])
    );
}

#[test]
fn or_binds_looser_than_and() {
    let got = parse("a:1 b:2 OR c:3").unwrap();
    assert_eq!(got, Expr::Or(vec![Expr::And(vec![t("a", Op::Eq, "1"), t("b", Op::Eq, "2")]), t("c", Op::Eq, "3")]));
}

#[test]
fn parentheses_regroup() {
    let got = parse("a:1 AND (b:2 OR c:3)").unwrap();
    assert_eq!(got, Expr::And(vec![t("a", Op::Eq, "1"), Expr::Or(vec![t("b", Op::Eq, "2"), t("c", Op::Eq, "3")])]));
}

#[test]
fn both_spellings_of_not() {
    let want = Expr::Not(Box::new(t("status", Op::Eq, "archived")));
    assert_eq!(parse("-status:archived").unwrap(), want);
    assert_eq!(parse("NOT status:archived").unwrap(), want);
}

#[test]
fn comparisons_and_existence() {
    assert_eq!(parse("priority:>3").unwrap(), t("priority", Op::Gt, "3"));
    assert_eq!(parse("priority:>=3").unwrap(), t("priority", Op::Ge, "3"));
    assert_eq!(parse("priority:!=3").unwrap(), t("priority", Op::Ne, "3"));
    assert_eq!(parse("has:budget").unwrap(), t("budget", Op::Exists, ""));
    assert_eq!(parse("budget:*").unwrap(), t("budget", Op::Exists, ""));
}

#[test]
fn prefix_and_contains() {
    assert_eq!(parse("name:atl*").unwrap(), t("name", Op::Prefix, "atl"));
    assert_eq!(parse("note:~telco").unwrap(), t("note", Op::Contains, "telco"));
}

#[test]
fn a_quoted_value_keeps_its_spaces_and_is_never_an_operator() {
    assert_eq!(parse(r#"title:"quarterly review""#).unwrap(), t("title", Op::Eq, "quarterly review"));
    // Quoted, so `>3` is the text to match and not a comparison.
    assert_eq!(parse(r#"label:">3""#).unwrap(), t("label", Op::Eq, ">3"));
}

#[test]
fn and_or_not_are_keywords_only_unquoted() {
    assert_eq!(parse(r#"tag:"and""#).unwrap(), t("tag", Op::Eq, "and"));
}

#[test]
fn an_empty_query_means_everything() {
    assert_eq!(parse("").unwrap(), Expr::All);
    assert_eq!(parse("   ").unwrap(), Expr::All);
}

#[test]
fn errors_point_at_the_offending_offset() {
    let e = parse("status:draft AND").unwrap_err();
    assert!(e.message.contains("ends early"), "{}", e.message);
    let e = parse("draft").unwrap_err();
    assert!(e.message.contains("not a property filter"), "{}", e.message);
    let e = parse("a:1 (b:2").unwrap_err();
    assert!(e.message.contains("unclosed ("), "{}", e.message);
    let e = parse(r#"a:"b"#).unwrap_err();
    assert!(e.message.contains("unclosed quote"), "{}", e.message);
    let e = parse("status:").unwrap_err();
    assert!(e.message.contains("no value"), "{}", e.message);
}

#[test]
fn nested_keys_and_unicode_values_survive() {
    assert_eq!(parse("project.name:atlas").unwrap(), t("project.name", Op::Eq, "atlas"));
    assert_eq!(parse("autorius:Šarūnas").unwrap(), t("autorius", Op::Eq, "Šarūnas"));
}
