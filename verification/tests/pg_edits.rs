use textdb::commit::CommitKind;
use textdb::hash::hash_chunk;
use textdb::pg::bulk::{apply_replacements, occurrences, parse_replacements, replace_text, Replacement};
use textdb::pg::commits::{
    commit_record, distinct_hashes, document_title, is_markdown, structure_counts, structure_diff, LinkRow, OldCounts,
    SectionRow, StructureCounts, StructureDiff, Totals,
};
use textdb::pg::ranges::{check_line_ranges, parse_ranges, range_edits, LineRange};
use textdb::pg::write::{edit_text, find_unique, update_content};
use textdb::tree::materialize;
use textdb::value::Value;
use textdb::{apply_edits, build, ChunkParams, MemStorage, Storage, TextdbError};

fn p() -> ChunkParams {
    ChunkParams::default()
}

fn text(s: &str) -> Value {
    Value::Text(s.to_string())
}

fn object(members: Vec<(&str, Value)>) -> Value {
    Value::Object(members.into_iter().map(|(k, v)| (k.to_string(), v)).collect())
}

fn refusal<T>(r: Result<T, TextdbError>) -> String {
    match r {
        Err(TextdbError::InvalidEdit(m)) => m,
        _ => panic!("not refused"),
    }
}

#[test]
fn replacements_are_counted_and_made_in_order() {
    let asked = Value::List(vec![
        Value::List(vec![text("Acme"), text("Globex"), Value::Int(1)]),
        object(vec![("new", text("- item")), ("old", text("- point"))]),
    ]);
    let rs = parse_replacements(&asked).unwrap();
    assert_eq!(rs.len(), 2);
    let doc = b"ONE\nAcme two\n- point\nx\ntail\n".to_vec();
    assert_eq!(apply_replacements("/p/a.md", doc.clone(), &rs).unwrap(), b"ONE\nGlobex two\n- item\nx\ntail\n".to_vec());

    let wrong = [Replacement { old: b"Acme".to_vec(), new: b"Globex".to_vec(), expected: Some(2) }];
    assert_eq!(
        refusal(apply_replacements("/p/a.md", doc.clone(), &wrong)),
        "/p/a.md: expected 2 occurrences of \"Acme\", found 1"
    );
    let none = [Replacement { old: b"nowhere\n".to_vec(), new: vec![], expected: None }];
    assert_eq!(refusal(apply_replacements("/p/a.md", doc.clone(), &none)), "/p/a.md: \"nowhere\\n\" not found");
    let empty = [Replacement { old: vec![], new: vec![], expected: None }];
    assert_eq!(refusal(apply_replacements("/p/a.md", doc.clone(), &empty)), "replacement 1: the old text is empty");
    assert_eq!(refusal(replace_text("/p/a.md", doc.clone(), &[])), "no replacements given");
    let split = [Replacement { old: "\u{105}".as_bytes()[..1].to_vec(), new: b"x".to_vec(), expected: None }];
    assert_eq!(
        refusal(replace_text("/p/a.md", "\u{105}".as_bytes().to_vec(), &split)),
        "/p/a.md: the replaced content is not valid UTF-8"
    );
    assert_eq!(replace_text("/p/a.md", doc, &rs).unwrap(), "ONE\nGlobex two\n- item\nx\ntail\n");
}

#[test]
fn replacements_have_their_shape() {
    let usage = "replacements must be a JSON array of [old, new], [old, new, expected_count] or {\"old\", \"new\", \"count\"}";
    assert_eq!(refusal(parse_replacements(&Value::Null)), usage);
    assert_eq!(refusal(parse_replacements(&Value::List(vec![Value::List(vec![text("a")])]))), usage);
    let negative = Value::List(vec![Value::List(vec![text("a"), text("b"), Value::Int(-1)])]);
    assert_eq!(refusal(parse_replacements(&negative)), usage);
    let null = Value::List(vec![Value::List(vec![text("a"), text("b"), Value::Null])]);
    assert_eq!(parse_replacements(&null).unwrap()[0].expected, None);
}

#[test]
fn occurrences_do_not_overlap() {
    assert_eq!(occurrences(b"aaaa", b"aa"), vec![0, 2]);
    assert_eq!(occurrences(b"abc", b"x"), Vec::<usize>::new());
}

#[test]
fn a_long_text_is_cut_in_errors() {
    let old = "y".repeat(61);
    let rs = [Replacement { old: old.into_bytes(), new: vec![], expected: None }];
    assert_eq!(refusal(apply_replacements("f", b"x".to_vec(), &rs)), format!("f: \"{}\u{2026}\" not found", "y".repeat(59)));
}

fn range(from: u64, to: u64, text: &str) -> LineRange {
    LineRange { from, to, text: text.as_bytes().to_vec() }
}

fn replaced(doc: &[u8], ranges: Vec<LineRange>) -> Result<Vec<u8>, TextdbError> {
    let mut s = MemStorage::new();
    let root = build(&mut s, &p(), doc).unwrap();
    let edits = range_edits(&s, &root, "/p/a.md", 4, &ranges)?;
    let done = apply_edits(&mut s, &p(), &root, &edits)?;
    materialize(&s, &done.root)
}

#[test]
fn line_ranges_are_replaced_at_once() {
    let doc = b"Acme uno\nAcme two\n- point\ntail\n";
    let got = replaced(doc, vec![range(4, 3, "x\n"), range(1, 1, "ONE\n")]).unwrap();
    assert_eq!(got, b"ONE\nAcme two\n- point\nx\ntail\n".to_vec());
    assert_eq!(replaced(doc, vec![range(5, 4, "end\n")]).unwrap(), b"Acme uno\nAcme two\n- point\ntail\nend\n".to_vec());
    assert_eq!(replaced(b"a", vec![range(2, 1, "b\n")]).unwrap(), b"a\nb\n".to_vec());
    assert_eq!(replaced(b"a\nb\nc", vec![range(2, 3, "")]).unwrap(), b"a\n".to_vec());
}

#[test]
fn line_ranges_that_cannot_be_replaced() {
    let doc = b"a\nb\nc\n";
    assert_eq!(refusal(replaced(doc, vec![])), "no line ranges");
    assert_eq!(refusal(check_line_ranges(&vec![])), "no line ranges");
    assert!(check_line_ranges(&vec![range(4, 3, ""), range(1, 1, "")]).is_ok());
    assert_eq!(refusal(replaced(doc, vec![range(0, 1, "")])), "invalid line range 0-1");
    assert_eq!(refusal(replaced(doc, vec![range(3, 1, "")])), "invalid line range 3-1");
    assert_eq!(refusal(replaced(doc, vec![range(2, 2, ""), range(1, 2, "")])), "line ranges 1-2 and 2-2 overlap");
    assert_eq!(
        refusal(replaced(doc, vec![range(2, 9, "")])),
        "lines 2-9 are outside /p/a.md, which has 3 lines at version 4"
    );
}

#[test]
fn line_ranges_are_read_from_json() {
    let asked = Value::List(vec![object(vec![("from", Value::Int(4)), ("text", text("x\n")), ("to", Value::Int(-3))])]);
    assert_eq!(parse_ranges(&asked).unwrap(), vec![range(4, 0, "x\n")]);
    let usage = "ranges must be a JSON array of {\"from\": n, \"to\": n, \"text\": \"\u{2026}\"}";
    assert_eq!(refusal(parse_ranges(&Value::List(vec![object(vec![])]))), usage);
    assert_eq!(refusal(parse_ranges(&text("x"))), usage);
}

#[test]
fn a_text_to_edit_occurs_once() {
    assert_eq!(find_unique(b"one two", b"two").unwrap(), 4);
    assert_eq!(refusal(find_unique(b"one two", b"")), "old text is empty");
    assert_eq!(refusal(find_unique(b"one two", b"x")), "old text not found");
    assert_eq!(refusal(find_unique(b"one one", b"one")), "old text is not unique");
    // Places that overlap count too.
    assert_eq!(refusal(find_unique(b"aaa", b"aa")), "old text is not unique");
    assert_eq!(find_unique(b"baab", b"aa").unwrap(), 1);
}

#[test]
fn content_is_updated_and_edited() {
    let mut s = MemStorage::new();
    let root = build(&mut s, &p(), b"Acme one\n").unwrap();
    s.cas_root(1, None, &root).unwrap();
    assert!(update_content(&mut s, &p(), 1, "f", &root, &root, b"Acme one\n", 8).unwrap().is_none());
    let c = update_content(&mut s, &p(), 1, "f", &root, &root, b"Acme uno\n", 8).unwrap().unwrap();
    assert_eq!((c.version, c.kind), (2, CommitKind::Direct));
    let e = edit_text(&mut s, &p(), 1, "f", &c.root, b"Acme", b"Globex", 8).unwrap();
    assert_eq!(materialize(&s, &e.root).unwrap(), b"Globex uno\n".to_vec());
    assert_eq!(refusal(edit_text(&mut s, &p(), 1, "f", &e.root, b"Acme", b"x", 8)), "old text not found");
}

#[test]
fn a_commit_records_its_sizes() {
    let mut s = MemStorage::new();
    let root = build(&mut s, &p(), b"one two\n").unwrap();
    s.cas_root(1, None, &root).unwrap();
    let c = update_content(&mut s, &p(), 1, "/A.MD", &root, &root, b"one two three\nfour\n", 8).unwrap().unwrap();
    let old = OldCounts { bytes: Some(8), lines: Some(1), words: Some(2) };
    let r = commit_record(&s, "/A.MD", &c, &root, old).unwrap();
    assert_eq!((r.nbytes, r.nlines, r.nwords, r.op, r.markdown), (19, 2, 4, "commit", true));
    assert_eq!((r.change.files, r.change.bytes, r.change.lines, r.change.words, r.change.versions), (0, 11, 1, 2, 1));
    assert!(r.awaited.is_none());
    let first = textdb::Committed { version: 1, root: c.root, kind: CommitKind::Direct, new_chunks: vec![c.root, c.root], retries: 0 };
    let r = commit_record(&s, "/notes/Plan.md", &first, &c.root, OldCounts { bytes: None, lines: None, words: None }).unwrap();
    assert_eq!((r.op, r.change.files, r.chunks.len(), r.awaited.as_deref()), ("create", 1, 1, Some("plan")));
}

#[test]
fn totals_are_taken_back() {
    let t = Totals { files: 2, bytes: -7, ..Totals::default() };
    assert_eq!(t.neg(), Totals { files: -2, bytes: 7, ..Totals::default() });
}

#[test]
fn hashes_are_kept_once() {
    let (a, b) = (hash_chunk(b"a"), hash_chunk(b"b"));
    assert_eq!(distinct_hashes(&vec![a, b, a, b, b]), vec![a, b]);
}

#[test]
fn markdown_is_told_by_name() {
    assert!(is_markdown("/a/B.MD") && is_markdown("/x.markdown") && !is_markdown("/x.mdx"));
}

#[test]
fn titles_come_from_front_matter_or_a_heading() {
    let s = textdb::md::extract(b"---\ntitle:  My doc \n---\n# Top\n");
    assert_eq!(document_title(&s, "").as_deref(), Some("My doc"));
    let s = textdb::md::extract(b"## Deep\n# Top\n");
    assert_eq!(document_title(&s, "").as_deref(), Some("Top"));
    let s = textdb::md::extract(b"---\ntitle: 7\n---\n");
    assert_eq!(document_title(&s, "7").as_deref(), Some("7"));
    assert_eq!(document_title(&textdb::md::extract(b"plain"), ""), None);
}

#[test]
fn structure_rows_are_compared() {
    let s = textdb::md::extract(b"# Top\nwords here\n[[Other]]\n");
    let row = |words: i64| SectionRow {
        heading_path: "Top".to_string(),
        level: 1,
        line_from: 1,
        line_to: 3,
        nwords: Some(words),
        nwords_total: Some(5),
    };
    let link = |line: i64| LinkRow {
        target_path: "Other".to_string(),
        line,
        kind: "wiki".to_string(),
        anchor: None,
        alias: None,
        external: false,
    };
    assert_eq!(structure_diff(&vec![row(5)], &vec![link(3)], None, &s), StructureDiff::Same);
    assert_eq!(structure_diff(&vec![row(4)], &vec![link(3)], None, &s), StructureDiff::CountsOnly);
    assert_eq!(structure_diff(&vec![row(5)], &vec![link(2)], None, &s), StructureDiff::Different);
    assert_eq!(structure_diff(&vec![], &vec![link(3)], None, &s), StructureDiff::Different);
    assert_eq!(structure_diff(&vec![row(5)], &vec![link(3)], Some(true), &s), StructureDiff::Different);
    let old = StructureCounts { sections: 3, props: 0, links: 0, links_broken: 2 };
    let (now, change) = structure_counts(&s, 1, old);
    assert_eq!((now.sections, now.links, now.links_broken), (1, 1, 1));
    assert_eq!((change.sections, change.links, change.links_broken, change.words), (-2, 1, -1, 0));
}
