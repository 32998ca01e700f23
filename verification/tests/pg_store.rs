use textdb::access::{Grant, Grants, Namespace, Rights};
use textdb::md::query;
use textdb::md::resolve::LinkUpdates;
use textdb::pg::accounts::{
    bearer_of, check_account, converted_alias, grant_share, is_asked_about, new_bearer, owner_only, parse_rights, share_node,
    who_rows, Account,
};
use textdb::pg::changes::{change_filter, changes, created_diff, headed, item_diff, ChangeRec, Since};
use textdb::pg::links::{link_changes, link_edits, lost_links, mode, names_of, reads_pointing, target_name, Pointing};
use textdb::pg::moves::{check_create, check_delete, check_move, compared_versions, folder_step, hunks_between, lines_text};
use textdb::pg::property::{compile, escape_like, index_rows, Arg};
use textdb::pg::revert::{check_batch, deleted_by, outcome, remakes_folder, revert_message, revive, span, undo, AnyNode, Report, Revival, Undo};
use textdb::pg::search::{candidates, query_terms, search, section_at, tsquery_term, Ranked, SearchDoc};
use textdb::pg::sections::headings_of;
use textdb::pg::sql::{links_where, outline_where, prefix_range, subtree_bounds, subtree_pattern, Scope};
use textdb::pg::store::{below, file_at, leaves_or_nodes, name_of, normalize_path, parent_of, to_hash, NodeRow};
use textdb::md::files::FileList;
use textdb::terms;
use textdb::tree::leaves;
use textdb::value::Value;
use textdb::{build, ChunkParams, MemStorage, Storage, TextdbError};

fn refusal<T>(r: Result<T, TextdbError>) -> String {
    match r {
        Err(TextdbError::InvalidEdit(m)) => m,
        _ => panic!("not refused"),
    }
}

fn missing<T>(r: Result<T, TextdbError>) -> String {
    match r {
        Err(TextdbError::NotFound(m)) => m,
        _ => panic!("found"),
    }
}

fn strings(v: &[&str]) -> Vec<String> {
    v.iter().map(|s| s.to_string()).collect()
}

#[test]
fn paths_have_a_normal_form() {
    assert_eq!(normalize_path("a//b/").unwrap(), "/a/b");
    assert_eq!(normalize_path("").unwrap(), "/");
    assert_eq!(normalize_path(&normalize_path("//x/y//").unwrap()).unwrap(), "/x/y");
    assert_eq!(refusal(normalize_path("/a/../b")), "invalid path segment '..' in /a/../b");
    assert_eq!(refusal(normalize_path("a\0b")), "path contains NUL");
    assert_eq!((parent_of("/a/b.md"), parent_of("/b.md"), name_of("/a/b.md")), ("/a", "/", "b.md"));
    assert_eq!(to_hash(&[7u8; 32]).unwrap(), [7u8; 32]);
    assert!(matches!(to_hash(&[7u8; 3]), Err(TextdbError::Storage(_))));
}

fn node(kind: i16) -> NodeRow {
    NodeRow { id: 9, kind, path: "/a".to_string(), root: None, version: 3 }
}

#[test]
fn nodes_are_files_or_folders() {
    assert_eq!(file_at("/a", Some(node(1))).unwrap().id, 9);
    assert_eq!(refusal(file_at("/a", Some(node(0)))), "/a is a folder");
    assert_eq!(missing(file_at("/a", None)), "/a");
    assert_eq!(folder_step("/a", Some(&node(0))).unwrap(), Some(9));
    assert_eq!(folder_step("/a", None).unwrap(), None);
    assert_eq!(refusal(folder_step("/a", Some(&node(1)))), "/a is a file");
    assert!(matches!(folder_step("/", None), Err(TextdbError::Storage(_))));
    assert_eq!(share_node("/a", Some(&node(0))).unwrap(), 9);
    assert_eq!(refusal(share_node("/a", Some(&node(1)))), "/a is a file; a share is a folder and everything below it");
    assert_eq!(missing(share_node("/a", None)), "/a");
}

#[test]
fn moves_and_deletes_are_checked() {
    assert!(check_move("/a", "/b", true, false).is_ok());
    assert_eq!(refusal(check_move("/", "/b", true, false)), "cannot move the root");
    assert_eq!(missing(check_move("/a", "/b", false, false)), "/a");
    assert_eq!(refusal(check_move("/a", "/a/b", true, false)), "cannot move /a into itself");
    assert!(check_move("/a", "/ab", true, false).is_ok());
    assert_eq!(refusal(check_move("/a", "/b", true, true)), "/b already exists");
    assert_eq!(refusal(check_delete("/", true)), "cannot delete the root");
    assert_eq!(missing(check_delete("/x", false)), "/x");
    assert!(check_delete("/x", true).is_ok());
    assert_eq!(refusal(check_create("/x", true)), "/x already exists");
    assert!(check_create("/x", false).is_ok());
}

#[test]
fn a_walk_level_by_level_finds_the_leaves() {
    let mut s = MemStorage::new();
    let mut bytes = Vec::new();
    for i in 0..20_000 {
        bytes.extend_from_slice(format!("row {i} with some filler\n").as_bytes());
    }
    let root = build(&mut s, &ChunkParams::default(), &bytes).unwrap();
    let mut level = s.get_node(&root).unwrap().unwrap().children;
    while leaves_or_nodes(&level) == Some(false) {
        let nodes = level.iter().rev().map(|c| (c.hash, s.get_node(&c.hash).unwrap().unwrap())).collect();
        level = below(&level, &nodes).unwrap();
    }
    let walked: Vec<_> = level.iter().map(|c| c.hash).collect();
    let told: Vec<_> = leaves(&s, &root).unwrap().iter().map(|l| l.hash).collect();
    assert_eq!(walked, told);
    assert!(walked.len() > 8);
    assert!(below(&s.get_node(&root).unwrap().unwrap().children, &vec![]).is_none());
}

#[test]
fn versions_are_compared() {
    assert_eq!(compared_versions(None, None, 5), (4, 5));
    assert_eq!(compared_versions(Some(1), None, 5), (1, 5));
    assert_eq!(compared_versions(None, Some(1), 5), (0, 1));
    assert_eq!(compared_versions(Some(-3), Some(-1), 5), (0, 0));
    let mut s = MemStorage::new();
    let a = build(&mut s, &ChunkParams::default(), b"a\nb\n").unwrap();
    let b = build(&mut s, &ChunkParams::default(), b"a\nB\n").unwrap();
    let whole = hunks_between(&s, 0, 1, &a, &b).unwrap();
    assert_eq!((whole.len(), whole[0].new_count, whole[0].new_text.as_slice()), (1, 2, &b"a\nB\n"[..]));
    let gone = hunks_between(&s, 1, 0, &a, &b).unwrap();
    assert_eq!((gone[0].old_count, gone[0].new_count), (2, 0));
    assert!(hunks_between(&s, 2, 2, &a, &b).unwrap().is_empty());
    assert_eq!(hunks_between(&s, 1, 2, &a, &b).unwrap()[0].old_from, 1);
    assert_eq!(lines_text(&s, &a, 2, 2).unwrap(), "b\n");
    assert_eq!(lines_text(&s, &a, 0, 2).unwrap(), "");
}

#[test]
fn ranges_hold_prefixes_and_subtrees() {
    assert_eq!(prefix_range("pro"), ("pro".to_string(), "prp".to_string()));
    assert_eq!(prefix_range("a\u{10ffff}"), ("a\u{10ffff}".to_string(), "b".to_string()));
    assert_eq!(prefix_range(""), (String::new(), String::new()));
    assert_eq!(subtree_bounds("/a"), ("/a/".to_string(), "/a0".to_string()));
    assert_eq!(subtree_bounds("/"), ("/".to_string(), "0".to_string()));
    assert_eq!(subtree_pattern("/100%_done"), "/100\\%\\_done/%");
    assert_eq!(escape_like("a\\b"), "a\\\\b");
}

#[test]
fn outlines_bind_what_they_are_asked_for() {
    let (sql, args) = outline_where(&Scope::of("/n", None), Some("Next Steps"), "exact", Some(2));
    assert_eq!(sql, "n.path >= $1 AND n.path < $2 AND s.heading_lc = $3 AND s.level <= $4::int");
    assert_eq!(args, strings(&["/n/", "/n0", "next steps", "2"]));
    let (sql, args) = outline_where(&Scope::of("/n.md", Some(7)), Some("ab"), "prefix", None);
    assert_eq!(sql, "n.id = 7 AND s.heading_lc >= $1 AND s.heading_lc < $2");
    assert_eq!(args, strings(&["ab", "ac"]));
    let (sql, args) = outline_where(&Scope::of("/n.md", Some(7)), Some("5%"), "contains", None);
    assert_eq!(sql, "n.id = 7 AND s.heading_lc LIKE $1 ESCAPE '\\'");
    assert_eq!(args, strings(&["%5\\%%"]));
}

#[test]
fn link_lists_bind_what_they_are_asked_for() {
    let (sql, args) = links_where("/a", None, "broken", false).unwrap();
    assert_eq!(sql, "n.path >= $1 AND n.path < $2 AND l.status = $3");
    assert_eq!(args, strings(&["/a/", "/a0", "broken"]));
    let (sql, args) = links_where("/a", None, "", true).unwrap();
    assert!(sql.contains("path = $1 || '.tdbasset'"));
    assert_eq!(args, strings(&["/a", "/a/", "/a0"]));
    assert_eq!(refusal(links_where("/a", None, "lost", false)), "unknown link status: lost");
}

fn compiled(q: &str) -> (String, Vec<Arg>) {
    compile(&query::parse(q).unwrap()).unwrap()
}

#[test]
fn queries_compile_to_predicates() {
    let term = |k: u32, rest: &str| format!("n.id IN (SELECT file_id FROM kb.property WHERE key_lc = ${k}{rest})");
    assert_eq!(compiled("").0, "true");
    let (sql, args) = compiled("Status:Draft");
    assert_eq!(sql, term(1, " AND val_lc = $2"));
    assert_eq!(args, vec![Arg::Text("status".into()), Arg::Text("draft".into())]);
    let (sql, args) = compiled("year:2026 OR -name:atl*");
    assert_eq!(
        sql,
        format!(
            "({} OR NOT ({}))",
            term(1, " AND (val_lc = $2 OR val_num = $3)"),
            term(4, " AND val_lc LIKE $5 ESCAPE '\\'")
        )
    );
    assert_eq!(args[2], Arg::Num("2026".into()));
    assert_eq!(args[4], Arg::Text("atl%".into()));
    let (sql, args) = compiled("p:!=3 p:>=4 has:x");
    assert_eq!(
        sql,
        format!(
            "((n.id IN (SELECT file_id FROM kb.property WHERE key_lc = $1) AND n.id NOT IN (SELECT file_id FROM kb.property WHERE key_lc = $2 AND (val_lc = $3 OR val_num = $4))) AND {} AND {})",
            term(5, " AND val_num >= $6"),
            term(7, "")
        )
    );
    assert_eq!(args.len(), 7);
    assert_eq!(compiled("note:~a_b").1[1], Arg::Text("%a\\_b%".into()));
}

#[test]
fn properties_are_indexed_in_lower_case() {
    let data = Value::Object(vec![("Tags".to_string(), Value::List(vec![Value::Text("CVM".to_string()), Value::Null]))]);
    let rows = index_rows(Some(&data));
    assert_eq!(rows.len(), 2);
    assert_eq!((rows[0].key_lc.as_str(), rows[0].val_lc.as_deref()), ("tags", Some("cvm")));
    assert_eq!(rows[1].val_lc, None);
    assert!(index_rows(None).is_empty());
}

#[test]
fn headings_are_what_follows_the_parent() {
    let rows: Vec<(i64, String)> = [(1, "Top"), (1, "Top / Child / With Slash"), (2, "Top / Child")]
        .iter()
        .map(|(f, p)| (*f, p.to_string()))
        .collect();
    assert_eq!(headings_of(&rows), strings(&["Top", "Child / With Slash", "Top / Child"]));
}

#[test]
fn searches_read_terms() {
    assert_eq!(query_terms("alpha AND \"beta gamma\" del*"), strings(&["alpha", "beta gamma", "del*"]));
    assert_eq!(tsquery_term("o'brien"), "'o''brien'");
    assert_eq!(tsquery_term("del*"), "'del':*");
    assert_eq!(tsquery_term("beta  gamma"), "'beta' <-> 'gamma'");
}

#[test]
fn candidates_hold_every_term() {
    let r = |file_id: i64, rank: u32| Ranked { file_id, rank };
    let per_term = vec![vec![r(1, 5), r(2, 9), r(1, 7), r(3, 9)], vec![r(3, 1), r(1, 1), r(2, 2)]];
    assert_eq!(candidates(&per_term), vec![r(2, 9), r(3, 9), r(1, 5)]);
    assert_eq!(candidates(&vec![vec![r(1, 5)], vec![]]), vec![]);
}

#[test]
fn hits_are_lines_with_their_sections() {
    let mut s = MemStorage::new();
    let root = build(&mut s, &ChunkParams::default(), b"alpha\nbeta\nalpha beta\n").unwrap();
    let other = build(&mut s, &ChunkParams::default(), b"alpha only\n").unwrap();
    let doc = |path: &str, root, rank| SearchDoc {
        path: path.to_string(),
        version: 1,
        root,
        rank,
        spans: vec![(1, 3, "Top".to_string()), (3, 3, "Top / Deep".to_string())],
    };
    let parsed = terms::parse(query_terms("alpha beta"));
    let docs = vec![doc("/o.md", other, 9), doc("/s.md", root, 5)];
    let hits = search(&s, &parsed, &docs, 10, 2).unwrap();
    let got: Vec<_> = hits.iter().map(|h| (h.path.as_str(), h.line, h.section.as_deref(), h.more)).collect();
    assert_eq!(got, vec![("/s.md", 1, Some("Top"), 1), ("/s.md", 2, Some("Top"), 1)]);
    assert_eq!(search(&s, &parsed, &docs, 1, 2).unwrap().len(), 1);
    assert_eq!(section_at(&docs[0].spans, 3).as_deref(), Some("Top / Deep"));
    assert_eq!(section_at(&docs[0].spans, 4), None);
}

#[test]
fn names_are_sorted_and_kept_once() {
    let files = vec![(1, "/b/Plan.md".to_string()), (2, "/a.md".to_string()), (3, "/c/PLAN.md".to_string())];
    assert_eq!(names_of(&files), strings(&["a", "plan"]));
}

#[test]
fn link_updates_are_chosen() {
    assert_eq!(mode(Some(" Rewrite "), None).unwrap(), LinkUpdates::Rewrite);
    assert_eq!(mode(None, Some("off")).unwrap(), LinkUpdates::Off);
    assert_eq!(mode(None, Some("?")).unwrap(), LinkUpdates::Report);
    assert_eq!(mode(None, None).unwrap(), LinkUpdates::Report);
    assert_eq!(refusal(mode(Some("no"), None)), "link updates are off, report or rewrite, not 'no'");
    assert!(reads_pointing(LinkUpdates::Rewrite, false) && !reads_pointing(LinkUpdates::Report, false));
}

fn pointing(id: i64, file_id: i64, line: i64, kind: &str, target: &str) -> Pointing {
    Pointing { id, file_id, line, kind: kind.to_string(), target: target.to_string(), resolved_id: 1 }
}

#[test]
fn links_follow_what_moved() {
    let all = vec![pointing(5, 8, 1, "wiki", "Plan"), pointing(3, 2, 1, "wiki", "Plan"), pointing(4, 2, 2, "md", "../notes/Plan.md")];
    let lost = lost_links(&all, &vec![Some(1), None, Some(7)]);
    assert_eq!(lost.len(), 1);
    assert_eq!((lost[0].file_id, lost[0].links.len()), (2, 2));

    let files = FileList {
        files: vec![(1, "/archive/2026/Plan-v1.md".to_string()), (2, "/acc/acme.md".to_string())],
        headings: vec![],
    };
    let doc = b"[[Plan]] [[Plan#Next steps]]\n[x](../notes/Plan.md) [w](https://x.y)\n";
    let links = vec![pointing(1, 2, 1, "wiki", "Plan"), pointing(2, 2, 1, "wiki", "Plan"), pointing(3, 2, 2, "md", "../notes/Plan.md")];
    let targets = vec![Some("/archive/2026/Plan-v1.md".to_string()); 3];
    let (edits, rewritten) = link_edits(&files, doc, "/acc/acme.md", &links, &targets).unwrap();
    assert_eq!(rewritten, vec![1, 2, 3]);
    let mut s = MemStorage::new();
    let root = build(&mut s, &ChunkParams::default(), doc).unwrap();
    let done = textdb::apply_edits(&mut s, &ChunkParams::default(), &root, &edits).unwrap();
    assert_eq!(
        String::from_utf8(textdb::materialize(&s, &done.root).unwrap()).unwrap(),
        "[[Plan-v1]] [[Plan-v1#Next steps]]\n[x](../archive/2026/Plan-v1.md) [w](https://x.y)\n"
    );
    let told = link_changes("/acc/acme.md", &links, &vec![None, targets[1].clone(), None], &vec![2], Some(6));
    assert_eq!((told[0].now_at.as_str(), told[0].version), ("", None));
    assert_eq!((told[1].now_at.as_str(), told[1].version), ("/archive/2026/Plan-v1.md", Some(6)));
}

#[test]
fn link_rows_are_found_by_name() {
    let s = textdb::md::extract(b"[[notes/Plan]] [w](https://x.y) [[#Local]]\n");
    let names: Vec<_> = s.links.iter().map(|l| target_name(l)).collect();
    assert_eq!(names, vec![Some("plan".to_string()), None, None]);
}

fn rec(op: &str, node_id: i64, path: &str, old_path: Option<&str>, version: Option<i64>) -> ChangeRec {
    ChangeRec { op: op.to_string(), node_id, path: path.to_string(), old_path: old_path.map(str::to_string), version }
}

fn batch() -> Vec<ChangeRec> {
    vec![
        rec("commit", 1, "/p/a.md", None, Some(2)),
        rec("create", 2, "/p/new.md", None, Some(1)),
        rec("move", 3, "/p/b2.md", Some("/p/b.md"), None),
        rec("delete", 4, "/p/old", None, None),
        rec("commit", 1, "/p/a.md", None, Some(3)),
    ]
}

#[test]
fn a_batch_is_listed() {
    let (items, files) = changes(Some("b1"), &batch()).unwrap();
    let ops: Vec<&str> = items.iter().map(|i| i.op.as_str()).collect();
    assert_eq!(ops, ["edit", "create", "move", "delete"]);
    assert_eq!((items[0].from_version, items[0].to_version), (Some(1), Some(3)));
    assert_eq!(files, vec![(1, 0), (2, 1)]);
    assert_eq!(missing(changes(Some("nope"), &vec![])), "no changes recorded under batch nope");
    assert!(changes(None, &vec![]).unwrap().0.is_empty());
    assert_eq!(change_filter(Some(4), Some("b")).unwrap(), Since::Batch("b".to_string()));
    assert_eq!(change_filter(Some(4), None).unwrap(), Since::Number(4));
    assert_eq!(refusal(change_filter(None, None)), "give a change number or a batch");
}

#[test]
fn items_show_their_diff() {
    assert_eq!(created_diff("/n.md", 1, b"a\r\nb"), "--- /dev/null\n+++ /n.md@1\n@@ -0,0 +1,2 @@\n+a\n+b\n");
    assert_eq!(headed("/n.md", 1, 2, ""), "");
    let mut s = MemStorage::new();
    let a = build(&mut s, &ChunkParams::default(), b"Acme\n").unwrap();
    let b = build(&mut s, &ChunkParams::default(), b"Globex\n").unwrap();
    let d = item_diff(&s, "/p/a.md", 1, 2, &a, &b).unwrap();
    assert!(d.starts_with("--- /p/a.md@1\n+++ /p/a.md@2\n@@"), "{d}");
    assert!(d.contains("-Acme\n+Globex\n"), "{d}");
    assert!(item_diff(&s, "/p/a.md", 0, 1, &a, &b).unwrap().contains("+Globex\n"));
}

fn live(path: &str, version: i64) -> AnyNode {
    AnyNode { kind: 1, path: path.to_string(), version, deleted: false }
}

#[test]
fn a_batch_is_reverted_newest_first() {
    let recs = batch();
    assert_eq!(span(&recs, 1), Some((2, 3)));
    assert_eq!(span(&recs, 9), None);
    assert_eq!(undo(&recs, 4, Some(&live("/p/a.md", 3)), false), Undo::Restore { path: "/p/a.md".to_string(), version: 1 });
    assert_eq!(undo(&recs, 0, Some(&live("/p/a.md", 3)), false), Undo::Nothing);
    assert_eq!(
        undo(&recs, 4, Some(&live("/p/a.md", 5)), false),
        Undo::Skip("/p/a.md not restored: changed since the batch (v3, now v5)".to_string())
    );
    assert_eq!(undo(&recs, 1, Some(&live("/p/new.md", 1)), false), Undo::Remove("/p/new.md".to_string()));
    let gone = AnyNode { deleted: true, ..live("/p/new.md", 1) };
    assert_eq!(undo(&recs, 1, Some(&gone), false), Undo::Skip("/p/new.md not restored: deleted since the batch".to_string()));
    let below = AnyNode { deleted: true, ..live("/p/old/x.md", 1) };
    assert!(deleted_by(&recs, "/p/old/x.md") && !deleted_by(&recs, "/p/older"));
    assert_eq!(undo(&recs, 1, Some(&below), false), Undo::Nothing);
    assert_eq!(
        undo(&recs, 2, Some(&live("/p/b2.md", 1)), false),
        Undo::Move { from: "/p/b2.md".to_string(), to: "/p/b.md".to_string() }
    );
    assert_eq!(
        undo(&recs, 2, Some(&live("/p/b2.md", 1)), true),
        Undo::Skip("/p/b2.md not moved back: /p/b.md exists".to_string())
    );
    assert_eq!(
        undo(&recs, 2, None, false),
        Undo::Skip("/p/b2.md not moved back to /p/b.md: moved or deleted since".to_string())
    );
    assert_eq!(undo(&recs, 3, Some(&gone), false), Undo::BringBack);
    assert_eq!(
        undo(&recs, 3, Some(&live("/p/old", 0)), false),
        Undo::Skip("/p/old not restored: no longer deleted".to_string())
    );
    assert_eq!(revive(&recs, 7, "/p/old/c.md", true, false), Revival::AsItWas);
    assert_eq!(revive(&recs, 7, "/p/old/c.md", false, false), Revival::Nothing);
    assert_eq!(revive(&recs, 1, "/p/old/c.md", true, false), Revival::AtVersion(1));
    assert_eq!(revive(&recs, 2, "/p/old/c.md", true, false), Revival::Nothing);
    assert_eq!(
        revive(&recs, 7, "/p/old/c.md", true, true),
        Revival::Skip("/p/old/c.md not restored: the path is taken".to_string())
    );
    assert!(remakes_folder(0, 0, false) && !remakes_folder(0, 1, false) && !remakes_folder(1, 0, false));
}

#[test]
fn a_revert_reports_or_fails() {
    let mut report = Report::new();
    report.note(&Undo::Remove("/p/new.md".to_string()));
    report.note(&Undo::Move { from: "/b2".to_string(), to: "/b".to_string() });
    assert_eq!(report.removed, strings(&["/p/new.md"]));
    assert_eq!(report.moved_back, vec![("/b2".to_string(), "/b".to_string())]);
    report.note(&Undo::Skip("a left".to_string()));
    report.note(&Undo::Skip("b left".to_string()));
    let mut again = Report::new();
    again.skipped = report.skipped.clone();
    assert_eq!(
        refusal(outcome("b1", false, again)),
        "batch b1 cannot be reverted cleanly, so nothing was changed: a left; b left. Revert the rest with --skip-changed"
    );
    assert_eq!(outcome("b1", true, report).unwrap().skipped.len(), 2);
    assert_eq!(missing(check_batch("nope", &vec![])), "no changes recorded under batch nope");
    assert!(check_batch("b1", &batch()).is_ok());
    assert_eq!(revert_message("b1"), "revert batch b1");
}

#[test]
fn accounts_are_checked() {
    assert!(check_account("agent-1", "agent", false).is_ok());
    assert_eq!(refusal(check_account(" a", "agent", false)), "' a' cannot be an account name");
    assert_eq!(refusal(check_account("a/b", "agent", false)), "'a/b' cannot be an account name");
    assert_eq!(refusal(check_account("a", "robot", false)), "account kind is 'agent' or 'person', not 'robot'");
    assert_eq!(refusal(check_account("a", "person", true)), "there is already an account called 'a'");
    assert_eq!(owner_only(None, "list accounts"), None);
    assert_eq!(owner_only(Some(3), "list accounts").as_deref(), Some("only the owner of the store can list accounts"));
    assert_eq!(parse_rights("rw").unwrap(), Rights::Rw);
    assert_eq!(parse_rights("ro").unwrap(), Rights::Ro);
    assert_eq!(refusal(parse_rights("x")), "rights are 'ro' or 'rw', not 'x'");
}

fn held() -> Grants {
    let mut g = Grants::new();
    g.add(Namespace::Aliased, 1, "/legal/contracts", None, Rights::Ro).unwrap();
    g
}

#[test]
fn shares_are_granted_and_raised() {
    let mut g = held();
    let raised: Grant = grant_share(&mut g, Namespace::Aliased, 1, "/legal/contracts", None, Rights::Rw).unwrap();
    assert_eq!((raised.alias.as_str(), raised.rights), ("contracts", Rights::Rw));
    let new = grant_share(&mut g, Namespace::Aliased, 2, "/products", None, Rights::Ro).unwrap();
    assert_eq!((new.alias.as_str(), g.len()), ("products", 2));
    let e = refusal(grant_share(&mut g, Namespace::Aliased, 3, "/legal", None, Rights::Ro));
    assert!(e.contains("/legal/contracts"), "{e}");
    assert_eq!(converted_alias("a", true, &held(), None).unwrap(), "contracts");
    assert_eq!(converted_alias("a", true, &held(), Some("x")).unwrap(), "x");
    assert_eq!(refusal(converted_alias("a", false, &held(), None)), "'a' already holds its shares under aliases");
    assert_eq!(refusal(converted_alias("a", true, &Grants::new(), None)), "'a' has no share to convert");
}

#[test]
fn shares_are_listed_for_who_asks() {
    assert!(is_asked_about("a", "/legal", None));
    assert!(is_asked_about("a", "/legal", Some("/legal/contracts/x.md")));
    assert!(is_asked_about("a", "/legal/contracts", Some("/legal")));
    assert!(!is_asked_about("a", "/legal", Some("/hr")));
    assert!(is_asked_about("a", "/legal", Some("a")) && !is_asked_about("a", "/legal", Some("b")));
    let account = Account { name: "a".to_string(), kind: "agent".to_string(), single_root: false };
    let rows = who_rows(Some(&account), &held());
    let share = rows[0].share.as_ref().unwrap();
    assert_eq!((rows.len(), rows[0].namespace, share.alias.as_str(), share.rights), (1, "aliased", "contracts", "ro"));
    assert!(who_rows(Some(&account), &Grants::new())[0].share.is_none());
    let owner = who_rows(None, &Grants::new());
    assert_eq!((owner[0].admin, owner[0].namespace, owner[0].account.is_none()), (true, "store", true));
}

#[test]
fn bearers_are_random_and_marked() {
    assert_eq!(bearer_of(&[0, 255, 16]), "tdb_00ff10");
    let (a, b) = (new_bearer(), new_bearer());
    assert!(a.starts_with("tdb_") && a.len() == 4 + 64);
    assert_ne!(a, b);
}
