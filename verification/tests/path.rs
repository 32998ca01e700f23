use textdb::path::{ancestors, parse_switch, PathOp};

#[test]
fn a_new_name_in_the_same_folder_is_a_rename() {
    assert_eq!(PathOp::classify("/a/b.md", "/a/c.md"), PathOp::Rename);
    assert_eq!(PathOp::classify("/b.md", "/c.md"), PathOp::Rename);
    assert_eq!(PathOp::classify("/a", "/b"), PathOp::Rename);
    assert_eq!(PathOp::classify("/a/b.md", "/x/b.md"), PathOp::Move);
    assert_eq!(PathOp::classify("/a/b.md", "/b.md"), PathOp::Move);
    assert_eq!(PathOp::classify("/a/b/c.md", "/a/c.md"), PathOp::Move);
}

#[test]
fn names_round_trip_and_switches_parse() {
    for op in [PathOp::Rename, PathOp::Move, PathOp::Delete] {
        assert_eq!(PathOp::parse(op.as_str()), Some(op));
    }
    assert_eq!(PathOp::parse("purge"), None);
    assert_eq!(parse_switch(" ON "), Some(true));
    assert_eq!(parse_switch("0"), Some(false));
    assert_eq!(parse_switch("maybe"), None);
}

#[test]
fn ancestors_are_the_folders_above() {
    assert_eq!(ancestors("/a/b/c.md"), vec!["/a/b".to_string(), "/a".to_string(), "/".to_string()]);
    assert_eq!(ancestors("/c.md"), vec!["/".to_string()]);
}
