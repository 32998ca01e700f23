use textdb::md::links::{percent_decode, scan};

#[test]
fn kinds_anchors_aliases_and_what_is_not_a_document() {
    let doc = "---\nrelated: \"[[Acme Corp]]\"\n---\n# T\n\n| a | [[meetings/x.md\\|x]] |\n|---|---|\n\nSee [[Note#Next steps|steps]], ![[diagram.png]] and [[#Local]].\n\n[p](../proposals/My%20Plan.md#goals \"t\") [q](<a b.md>) [g](?tab=t.1) [m](mailto:a@b.c) [e](a@b.c) [n](1) [w](https://x.y/z) ![i](./img/p.png)\n\n`[[not a link]]`\n\n```\n[[nor this]]\n```\n";
    let got: Vec<_> = scan(doc.as_bytes())
        .into_iter()
        .map(|l| (l.kind, l.target, l.anchor, l.alias, l.external, l.range.map(|r| doc[r].to_string())))
        .collect();
    let s = |v: &str| Some(v.to_string());
    assert_eq!(
        got,
        vec![
            ("wiki", s("Acme Corp").unwrap(), None, None, false, s("Acme Corp")),
            ("wiki", s("meetings/x.md").unwrap(), None, s("x"), false, s("meetings/x.md")),
            ("wiki", s("Note").unwrap(), s("Next steps"), s("steps"), false, s("Note")),
            ("embed", s("diagram.png").unwrap(), None, None, false, s("diagram.png")),
            ("wiki", String::new(), s("Local"), None, false, s("")),
            // A markdown link's display text is its alias, the way a wiki link's is: without
            // it every one of these rendered as `[](target)` in `textdb links`.
            ("md", s("../proposals/My Plan.md").unwrap(), s("goals"), s("p"), false, s("../proposals/My%20Plan.md")),
            ("md", s("a b.md").unwrap(), None, s("q"), false, s("a b.md")),
            ("md", String::new(), None, s("g"), true, s("")),
            ("md", s("mailto:a@b.c").unwrap(), None, s("m"), true, s("mailto:a@b.c")),
            ("md", s("a@b.c").unwrap(), None, s("e"), true, s("a@b.c")),
            ("md", s("1").unwrap(), None, s("n"), true, s("1")),
            ("md", s("https://x.y/z").unwrap(), None, s("w"), true, s("https://x.y/z")),
            ("image", s("./img/p.png").unwrap(), None, s("i"), false, s("./img/p.png")),
        ]
    );
}

#[test]
fn percent_decoding() {
    assert_eq!(percent_decode("My%20Plan%2Fx%zz%2"), "My Plan/x%zz%2");
}
