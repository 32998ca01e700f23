use textdb::edit::Edit;
use textdb::myers::{byte_edits, diff3, unified, Merge};

fn apply(a: &[u8], edits: &[Edit]) -> Vec<u8> {
    let mut out = Vec::new();
    let mut pos = 0u64;
    for e in edits {
        out.extend_from_slice(&a[pos as usize..e.from as usize]);
        out.extend_from_slice(&e.replacement);
        pos = e.to;
    }
    out.extend_from_slice(&a[pos as usize..]);
    out
}

#[test]
fn byte_edits_roundtrip() {
    let a = b"alpha\nbeta\ngamma\ndelta\n";
    let b = b"alpha\nbeta2\ngamma\nnew\ndelta";
    let e = byte_edits(a, b);
    assert_eq!(apply(a, &e), b.to_vec());
    let e = byte_edits(b, a);
    assert_eq!(apply(b, &e), a.to_vec());
    assert_eq!(byte_edits(a, a), vec![]);
    assert_eq!(apply(b"", &byte_edits(b"", a)), a.to_vec());
    assert_eq!(apply(a, &byte_edits(a, b"")), b"".to_vec());
}

#[test]
fn diff3_cases() {
    let base = b"a\nb\nc\nd\ne\n";
    assert_eq!(diff3(base, b"a\nB\nc\nd\ne\n", b"a\nb\nc\nd\nE\n"), Merge::Clean(b"a\nB\nc\nd\nE\n".to_vec()));
    assert_eq!(diff3(base, b"a\nB\nc\nd\ne\n", b"a\nX\nc\nd\ne\n"), Merge::Conflict);
    assert_eq!(diff3(base, b"a\nB\nc\nd\ne\n", b"a\nB\nc\nd\ne\n"), Merge::Clean(b"a\nB\nc\nd\ne\n".to_vec()));
    assert_eq!(diff3(base, base, b"a\nb\nc\nd\ne\nf\n"), Merge::Clean(b"a\nb\nc\nd\ne\nf\n".to_vec()));
    assert_eq!(diff3(base, b"a\nc\nd\ne\n", b"a\nb\nc\nd\n"), Merge::Clean(b"a\nc\nd\n".to_vec()));
    // Adjacent but non-overlapping line changes merge cleanly.
    assert_eq!(diff3(base, b"a\nB\nc\nd\ne\n", b"a\nb\nC\nd\ne\n"), Merge::Clean(b"a\nB\nC\nd\ne\n".to_vec()));
}

#[test]
fn unified_has_hunk() {
    let u = unified(b"a\nb\nc\n", b"a\nB\nc\n", 3, 1, 1);
    assert!(u.starts_with("@@ -1,3 +1,3 @@\n a\n-b\n+B\n c\n"), "{}", u);
}

#[test]
fn a_merge_does_not_depend_on_the_side() {
    let base = b"a\nb\nc\nd\ne\n";
    let sides: [&[u8]; 5] = [b"a\nB\nc\nd\ne\n", b"a\nX\nc\nd\ne\n", b"a\nb\nc\nd\n", b"new\na\nb\nc\nd\ne\nf", b""];
    for ours in sides {
        for theirs in sides {
            assert_eq!(diff3(base, ours, theirs), diff3(base, theirs, ours));
        }
    }
}
