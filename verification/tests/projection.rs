use textdb::access::{project, unproject, AccessView, Grants, Namespace, Projected, Rights, TargetSpan};

fn view() -> AccessView {
    let mut g = Grants::new();
    g.add(Namespace::Aliased, 1, "/legal/contracts", Some("contracts"), Rights::Rw).unwrap();
    AccessView::account("accounts-agent", Namespace::Aliased, g)
}

fn span(text: &str, target: &str, kind: &str, resolved: Option<&str>, id: Option<i64>) -> TargetSpan {
    let from = text.find(target).expect("target in text");
    TargetSpan {
        target: target.to_string(),
        from,
        to: from + target.len(),
        kind: kind.to_string(),
        resolved: resolved.map(str::to_string),
        resolved_id: id,
        alias: None,
    }
}

#[test]
fn a_root_link_is_rewritten_to_the_readers_path() {
    let t = "see [q3](/legal/contracts/2026/q3.md)\n";
    let l = [span(t, "/legal/contracts/2026/q3.md", "md", Some("/legal/contracts/2026/q3.md"), Some(9))];
    let (out, acts) = project(&view(), t.as_bytes(), &l);
    assert_eq!(String::from_utf8(out).unwrap(), "see [q3](/contracts/2026/q3.md)\n");
    assert_eq!(acts, [Projected::Path]);
}

#[test]
fn a_hidden_target_becomes_an_id_and_names_no_path() {
    let t = "see [nda](/legal/policies/nda.md)\n";
    let l = [span(t, "/legal/policies/nda.md", "md", Some("/legal/policies/nda.md"), Some(13))];
    let (out, acts) = project(&view(), t.as_bytes(), &l);
    let out = String::from_utf8(out).unwrap();
    assert_eq!(out, "see [nda](textdb:13)\n");
    assert!(!out.contains("policies"));
    assert_eq!(acts, [Projected::Hidden]);
}

#[test]
fn everything_that_is_not_a_root_path_keeps_its_bytes() {
    let v = view();
    // A name link, a relative link, and a suffix match: each means the same in every
    // namespace, so none is touched.
    for (t, target, kind, resolved) in [
        ("see [[q3]]\n", "q3", "wiki", "/legal/contracts/2026/q3.md"),
        ("see [q3](2026/q3.md)\n", "2026/q3.md", "md", "/legal/contracts/2026/q3.md"),
        ("see [[2026/q3]]\n", "2026/q3", "wiki", "/legal/contracts/2026/q3.md"),
    ] {
        let l = [span(t, target, kind, Some(resolved), Some(9))];
        let (out, acts) = project(&v, t.as_bytes(), &l);
        assert_eq!(String::from_utf8(out).unwrap(), t, "{target}");
        assert_eq!(acts, [Projected::Same], "{target}");
    }
}

#[test]
fn projection_and_un_projection_are_inverse() {
    let v = view();
    let canonical = "a [q3](/legal/contracts/2026/q3.md) and [[legal/contracts/acme]]\n";
    let l = [
        span(canonical, "/legal/contracts/2026/q3.md", "md", Some("/legal/contracts/2026/q3.md"), Some(9)),
        span(canonical, "legal/contracts/acme", "wiki", Some("/legal/contracts/acme.md"), Some(4)),
    ];
    let (projected, _) = project(&v, canonical.as_bytes(), &l);
    let projected = String::from_utf8(projected).unwrap();
    assert_eq!(projected, "a [q3](/contracts/2026/q3.md) and [[contracts/acme]]\n");
    // Re-scanned in the projected text, as a real save would.
    let back = [
        span(&projected, "/contracts/2026/q3.md", "md", None, None),
        span(&projected, "contracts/acme", "wiki", None, None),
    ];
    let out = unproject(&v, projected.as_bytes(), &back, |_| None);
    assert_eq!(String::from_utf8(out).unwrap(), canonical);
}

#[test]
fn an_id_reference_un_projects_to_wherever_the_document_is_now() {
    let v = view();
    let t = "see [nda](textdb:13)\n";
    let l = [span(t, "textdb:13", "md", None, None)];
    let out = unproject(&v, t.as_bytes(), &l, |id| if id == 13 { Some("/law/policies/nda.md".to_string()) } else { None });
    assert_eq!(String::from_utf8(out).unwrap(), "see [nda](/law/policies/nda.md)\n");
}

#[test]
fn a_local_link_to_nothing_is_stored_as_written() {
    let v = view();
    let t = "see [[hr/salaries]]\n";
    let l = [span(t, "hr/salaries", "wiki", None, None)];
    assert_eq!(String::from_utf8(unproject(&v, t.as_bytes(), &l, |_| None)).unwrap(), t);
}

#[test]
fn two_links_on_one_line_both_move() {
    let v = view();
    let t = "[a](/legal/contracts/a.md) [b](/legal/contracts/b.md)\n";
    let l = [
        span(t, "/legal/contracts/a.md", "md", Some("/legal/contracts/a.md"), Some(1)),
        TargetSpan {
            target: "/legal/contracts/b.md".into(),
            from: t.rfind("/legal/contracts/b.md").unwrap(),
            to: t.rfind("/legal/contracts/b.md").unwrap() + "/legal/contracts/b.md".len(),
            kind: "md".into(),
            resolved: Some("/legal/contracts/b.md".into()),
            resolved_id: Some(2),
            alias: None,
        },
    ];
    let (out, _) = project(&v, t.as_bytes(), &l);
    assert_eq!(String::from_utf8(out).unwrap(), "[a](/contracts/a.md) [b](/contracts/b.md)\n");
}

#[test]
fn line_numbers_never_move() {
    let v = view();
    let t = "one\n[q3](/legal/contracts/2026/q3.md)\nthree\n";
    let l = [span(t, "/legal/contracts/2026/q3.md", "md", Some("/legal/contracts/2026/q3.md"), Some(9))];
    let (out, _) = project(&v, t.as_bytes(), &l);
    let out = String::from_utf8(out).unwrap();
    assert_eq!(out.lines().count(), t.lines().count());
    assert_eq!(out.lines().nth(2), Some("three"));
}
