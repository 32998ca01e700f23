use textdb::md::offsets::LineTable;
use textdb::md::{extract, find_section, parse_yaml, split_frontmatter};
use textdb::structure::Structure;
use textdb::value::Value;
use textdb::words::count_words;

fn member<'a>(v: &'a Value, key: &str) -> &'a Value {
    match v {
        Value::Object(members) => &members.iter().find(|m| m.0 == key).unwrap().1,
        _ => panic!("not an object"),
    }
}

fn text(s: &str) -> Value {
    Value::Text(s.to_string())
}

const DOC: &str = "---\ntitle: Test doc\ntags: [a, b]\ndraft: false\n---\n# Intro\n\nSee [[Other Note]] and [local](./x.md) and [web](https://example.com).\n\n## Goals\nline\n\n### Detail\nmore\n\n## Scope\nend\n# Second\ntail";

#[test]
fn section_word_counts_are_exact_and_compose() {
    let s = extract(DOC.as_bytes());
    let by = |h: &str| s.sections.iter().find(|x| x.heading_path == h).unwrap();

    // Own lines only: the heading line plus what sits under it before the next heading.
    // "## Goals" is two words, "line" one.
    assert_eq!(by("Intro / Goals").nwords, 3);
    // Totals include everything nested: "### Detail" (2) + "more" (1) on top of the 3.
    assert_eq!(by("Intro / Goals").nwords_total, 6);
    // A leaf section's two figures are the same number.
    let detail = by("Intro / Goals / Detail");
    assert_eq!((detail.nwords, detail.nwords_total), (3, 3));

    // The parent's total is its own words plus every descendant's own words. This is the
    // property that makes the two columns worth storing rather than one.
    for parent in &s.sections {
        let nested: u64 = s
            .sections
            .iter()
            .filter(|c| c.line_from > parent.line_from && c.line_to <= parent.line_to)
            .map(|c| c.nwords)
            .sum();
        assert_eq!(
            parent.nwords_total,
            parent.nwords + nested,
            "{} total {} != own {} + nested {}",
            parent.heading_path,
            parent.nwords_total,
            parent.nwords,
            nested
        );
    }

    // Every top-level section's total, plus anything before the first heading, accounts
    // for the whole document — nothing double counted, nothing dropped.
    let top: u64 = s.sections.iter().filter(|x| x.level == 1).map(|x| x.nwords_total).sum();
    let first = s.sections.first().unwrap().line_from;
    let starts = LineTable::new(DOC.as_bytes());
    let preamble = count_words(&DOC.as_bytes()[..starts.start((first as usize) - 1)]);
    assert_eq!(top + preamble, count_words(DOC.as_bytes()));
}

#[test]
fn heading_is_the_last_component_of_the_path() {
    let s = extract(DOC.as_bytes());
    for x in &s.sections {
        assert_eq!(x.heading, x.heading_path.rsplit(" / ").next().unwrap());
    }
    assert_eq!(s.sections.iter().find(|x| x.level == 3).unwrap().heading, "Detail");
}

#[test]
fn sections_links_frontmatter() {
    let s = extract(DOC.as_bytes());
    let paths: Vec<_> = s.sections.iter().map(|x| (x.heading_path.clone(), x.level, x.line_from, x.line_to)).collect();
    assert_eq!(
        paths,
        vec![
            ("Intro".to_string(), 1, 6, 17),
            ("Intro / Goals".to_string(), 2, 10, 15),
            ("Intro / Goals / Detail".to_string(), 3, 13, 15),
            ("Intro / Scope".to_string(), 2, 16, 17),
            ("Second".to_string(), 1, 18, 19),
        ]
    );
    let links: Vec<_> = s.links.iter().map(|l| (l.target_path.clone(), l.line)).collect();
    assert_eq!(links, vec![("Other Note".to_string(), 8), ("./x.md".to_string(), 8), ("https://example.com".to_string(), 8)]);
    assert!(s.links[2].external && !s.links[1].external);
    let fm = s.frontmatter.as_ref().unwrap();
    assert_eq!(*member(fm, "title"), text("Test doc"));
    assert_eq!(*member(fm, "tags"), Value::List(vec![text("a"), text("b")]));
    assert_eq!(*member(fm, "draft"), Value::Bool(false));
    assert_eq!(find_section(&s, "Goals"), Some((10, 15)));
    assert_eq!(find_section(&s, "Intro / Scope"), Some((16, 17)));
}

#[test]
fn empty_and_plain() {
    assert_eq!(extract(b""), Structure::default());
    let s = extract(b"just text\nno headings\n");
    assert!(s.sections.is_empty());
}

#[test]
fn comments_after_values_are_not_part_of_them() {
    let v = parse_yaml("meeting_date: \"2025-11-[DD]\"  # UPDATE when the date is set\nstatus: draft # was review\nurl: https://x.test/#top\ntags: [a, b] # two\nempty: # nothing yet\n").unwrap();
    assert_eq!(*member(&v, "meeting_date"), text("2025-11-[DD]"));
    assert_eq!(*member(&v, "status"), text("draft"));
    assert_eq!(*member(&v, "url"), text("https://x.test/#top"));
    assert_eq!(*member(&v, "tags"), Value::List(vec![text("a"), text("b")]));
    assert_eq!(*member(&v, "empty"), Value::Null);
    let list = parse_yaml("owners:\n  - ana # lead\n  - \"#1 fan\"\n").unwrap();
    assert_eq!(*member(&list, "owners"), Value::List(vec![text("ana"), text("#1 fan")]));
}

#[test]
fn quoted_strings_are_unescaped() {
    let v = parse_yaml("entity_name: '[''Account Name'']'\nsay: \"a \\\"quote\\\", a \\\\ and\\na newline\"\nplain: don't # mind\n").unwrap();
    assert_eq!(*member(&v, "entity_name"), text("['Account Name']"));
    assert_eq!(*member(&v, "say"), text("a \"quote\", a \\ and\na newline"));
    assert_eq!(*member(&v, "plain"), text("don't"));
}

#[test]
fn flow_lists_split_only_outside_quotes_and_brackets() {
    let v = parse_yaml("related: [\"[[Acme, Inc]]\", 'O''Brien', plain, 3, [x, y]]\n").unwrap();
    assert_eq!(*member(&v, "related"), Value::List(vec![
            text("[[Acme, Inc]]"),
            text("O'Brien"),
            text("plain"),
            Value::Int(3),
            Value::List(vec![text("x"), text("y")]),
        ]));
}

#[test]
fn numbers_booleans_and_nothing() {
    let v = parse_yaml("n: 3\nd: 1.5\nb: true\ne:\n").unwrap();
    assert_eq!(*member(&v, "n"), Value::Int(3));
    assert_eq!(*member(&v, "d"), Value::Decimal("1.5".to_string()));
    assert_eq!(*member(&v, "b"), Value::Bool(true));
    assert_eq!(*member(&v, "e"), Value::Null);
    // A number is kept as JSON prints it, and what is too great for one as text.
    let v = parse_yaml("a: 1.50\nb: 1e3\nc: 1e999\nd: -.5\ne: inf\n").unwrap();
    assert_eq!(*member(&v, "a"), Value::Decimal("1.5".to_string()));
    assert_eq!(*member(&v, "b"), Value::Decimal("1000.0".to_string()));
    assert_eq!(*member(&v, "c"), text("1e999"));
    assert_eq!(*member(&v, "d"), Value::Decimal("-0.5".to_string()));
    assert_eq!(*member(&v, "e"), text("inf"));
}

#[test]
fn front_matter_stands_between_two_lines_of_dashes() {
    let (fm, at) = split_frontmatter(b"---\na: 1\n---\nbody").unwrap();
    assert_eq!((fm, at), (&b"a: 1\n"[..], 13));
    assert!(split_frontmatter(b"body").is_none());
    assert!(split_frontmatter(b"---\nnever closed\n").is_none());
}
