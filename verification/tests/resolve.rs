use textdb::md::files::FileList;
use textdb::md::resolve::{
    asset_path, heading_key, is_asset_pointer, join, line_of_offset, name_key, parent, relative, resolve, rewritten_target,
    LinkUpdates, Lookup,
};
use textdb::TextdbError;

struct Files(Vec<(i64, &'static str)>, Vec<(i64, &'static str)>);

impl Lookup for Files {
    fn files_by_path(&self, path: &str) -> Result<Vec<(i64, String)>, TextdbError> {
        Ok(self.0.iter().filter(|(_, p)| p.eq_ignore_ascii_case(path)).map(|(i, p)| (*i, p.to_string())).collect())
    }
    fn files_by_name(&self, name: &str) -> Result<Vec<(i64, String)>, TextdbError> {
        Ok(self.0.iter().filter(|(_, p)| p.rsplit('/').next().unwrap().eq_ignore_ascii_case(name)).map(|(i, p)| (*i, p.to_string())).collect())
    }
    fn files_by_suffix(&self, suffix: &str) -> Result<Vec<(i64, String)>, TextdbError> {
        Ok(self.0.iter().filter(|(_, p)| p.to_lowercase().ends_with(suffix)).map(|(i, p)| (*i, p.to_string())).collect())
    }
    fn is_folder(&self, path: &str) -> Result<bool, TextdbError> {
        Ok(self.0.iter().any(|(_, p)| p.to_lowercase().starts_with(&format!("{}/", path.to_lowercase()))))
    }
    fn headings(&self, file_id: i64) -> Result<Vec<String>, TextdbError> {
        Ok(self.1.iter().filter(|(i, _)| *i == file_id).map(|(_, h)| h.to_string()).collect())
    }
}

#[test]
fn obsidian_rules() {
    let files = Files(vec![(1, "/notes/Plan.md"), (2, "/acc/acme.md"), (3, "/other/Plan.md"), (4, "/solo/Deck.md")], vec![(1, "Plan / Next steps")]);
    let r = |kind, target, anchor| resolve(&files, 2, "/acc/acme.md", kind, target, anchor, false).unwrap();
    assert_eq!(r("wiki", "Deck", None), (Some(4), "ok"));
    assert_eq!(r("wiki", "Plan", None), (Some(1), "ambiguous"));
    assert_eq!(r("wiki", "notes/Plan", Some("next-steps")), (Some(1), "ok"));
    assert_eq!(r("md", "../notes/Plan.md", Some("Nope")), (Some(1), "anchor-missing"));
    assert_eq!(r("wiki", "Missing", None), (None, "broken"));
    assert_eq!(r("embed", "deck.pdf", None), (None, "not-in-store"));
    assert_eq!(r("wiki", "notes/", None), (None, "folder"));
    assert_eq!(resolve(&files, 2, "/acc/acme.md", "md", "https://x", None, true).unwrap(), (None, "external"));
    assert_eq!(rewritten_target(&files, "wiki", "Deck", false, "/acc/acme.md", "/solo/Deck.md").unwrap(), "Deck");
    assert_eq!(rewritten_target(&files, "wiki", "Plan", false, "/acc/acme.md", "/notes/Plan.md").unwrap(), "notes/Plan");
    assert_eq!(rewritten_target(&files, "md", "../x.md", false, "/acc/acme.md", "/a b/Plan.md").unwrap(), "../a%20b/Plan.md");
}

#[test]
fn links_to_assets_resolve_to_their_pointers() {
    let files = Files(vec![(1, "/acc/acme.md"), (2, "/acc/deck.pdf.tdbasset"), (3, "/img/arch.png.tdbasset"), (4, "/other/arch.png.tdbasset")], vec![]);
    let r = |kind, target, anchor| resolve(&files, 1, "/acc/acme.md", kind, target, anchor, false).unwrap();
    assert_eq!(r("embed", "deck.pdf", None), (Some(2), "ok"));
    assert_eq!(r("wiki", "deck.pdf", Some("page=3")), (Some(2), "ok"));
    assert_eq!(r("md", "deck.pdf", None), (Some(2), "ok"));
    assert_eq!(r("image", "../img/arch.png", None), (Some(3), "ok"));
    assert_eq!(r("embed", "arch.png", None), (Some(3), "ambiguous"));
    assert_eq!(r("embed", "img/arch.png", None), (Some(3), "ok"));
    assert_eq!(r("embed", "missing.png", None), (None, "not-in-store"));
    assert_eq!(r("wiki", "deck.pdf.md", None), (None, "broken"));
    assert_eq!(name_key("/acc/Deck.PDF.tdbasset"), "deck.pdf");
    assert_eq!(asset_path("/acc/deck.pdf.TDBASSET"), "/acc/deck.pdf");
    assert_eq!(asset_path("/acc/deck.pdf"), "/acc/deck.pdf");
    assert_eq!(rewritten_target(&files, "embed", "deck.pdf", false, "/acc/acme.md", "/arch/deck.pdf.tdbasset").unwrap(), "deck.pdf");
    assert_eq!(rewritten_target(&files, "image", "deck.pdf", false, "/acc/acme.md", "/arch/deck.pdf.tdbasset").unwrap(), "../arch/deck.pdf");
    assert_eq!(rewritten_target(&files, "embed", "arch.png", false, "/acc/acme.md", "/img/arch.png.tdbasset").unwrap(), "img/arch.png");
}

#[test]
fn paths_join_and_names_key() {
    assert_eq!(join("/a/b", "../c/d.md").as_deref(), Some("/a/c/d.md"));
    assert_eq!(join("/a", "./x/./y").as_deref(), Some("/a/x/y"));
    assert_eq!(join("/a", "/z.md").as_deref(), Some("/z.md"));
    assert_eq!(join("/a", "../../x"), None);
    assert_eq!(name_key("Notes/Plan.md"), "plan");
    assert_eq!(heading_key("Next steps"), heading_key("next-steps"));
    assert_eq!(relative("/acc", "/archive/2026/Plan.md"), "../archive/2026/Plan.md");
    assert_eq!(relative("/notes", "/notes/Plan.md"), "Plan.md");
    assert_eq!(relative("/", "/Plan.md"), "Plan.md");
    assert_eq!(parent("/a/b.md"), "/a");
    assert_eq!(parent("/b.md"), "/");
    let line = line_of_offset(b"a\nb\nc");
    assert_eq!((line.line(0), line.line(2), line.line(4)), (1, 2, 3));
}

#[test]
fn pointers_and_settings_are_recognised() {
    assert!(is_asset_pointer("/a/deck.pdf.tdbasset"));
    assert!(!is_asset_pointer("/a/deck.pdf"));
    assert_eq!(LinkUpdates::parse("off"), Some(LinkUpdates::Off));
    assert_eq!(LinkUpdates::parse("rewrite"), Some(LinkUpdates::Rewrite));
    assert_eq!(LinkUpdates::parse("never"), None);
    assert_eq!(LinkUpdates::default().as_str(), "report");
}

#[test]
fn a_list_of_files_answers_lookups() {
    let files = FileList {
        files: vec![(1, "/notes/Plan.md".to_string()), (2, "/acc/acme.md".to_string())],
        headings: vec![(1, "Plan / Next steps".to_string())],
    };
    assert_eq!(files.files_by_path("/NOTES/plan.md").unwrap(), vec![(1, "/notes/Plan.md".to_string())]);
    assert_eq!(files.files_by_name("ACME.md").unwrap().len(), 1);
    assert_eq!(files.files_by_suffix("/plan.md").unwrap().len(), 1);
    assert!(files.is_folder("/Notes").unwrap());
    assert!(!files.is_folder("/note").unwrap());
    assert_eq!(files.headings(1).unwrap(), vec!["Plan / Next steps".to_string()]);
    assert_eq!(resolve(&files, 2, "/acc/acme.md", "wiki", "Plan", Some("next-steps"), false).unwrap(), (Some(1), "ok"));
}

#[test]
fn a_relative_path_leads_back_to_its_target() {
    for (folder, target) in [("/a/x", "/a/b/c.md"), ("/", "/c.md"), ("/a/b", "/a"), ("/a/b", "/a/b"), ("/a", "/z")] {
        let rel = relative(folder, target);
        assert!(!rel.starts_with('/'));
        assert_eq!(join(folder, &rel).as_deref(), Some(target), "{folder} {target} {rel}");
    }
    assert_eq!(relative("/a/x", "/a/b/c.md"), "../b/c.md");
}

#[test]
fn a_markdown_link_to_nothing_is_written_without_a_path() {
    let files = Files(vec![], vec![]);
    assert_eq!(rewritten_target(&files, "md", "x.md", false, "/a.md", "").unwrap(), "");
}
