use rand::{Rng, RngCore, SeedableRng};
use std::collections::HashSet;
use textdb::commit::{commit, commit_append, CommitKind};
use textdb::cursor::locate_byte;
use textdb::diff::{line_hunks, unified_diff};
use textdb::edit::{apply_edits, validate_edits, Edit};
use textdb::myers::byte_edits;
use textdb::tree::{depth, leaves, line_of_byte, lines, locate_line, materialize, materialize_range, totals};
use textdb::{build, changed_runs, ChunkParams, MemStorage, Storage, TextdbError};

fn p() -> ChunkParams {
    ChunkParams::default()
}

fn apply_ref(a: &[u8], edits: &[Edit]) -> Vec<u8> {
    let mut out = Vec::new();
    let mut pos = 0u64;
    for e in edits {
        out.extend_from_slice(&a[pos as usize..e.from as usize]);
        out.extend_from_slice(&e.replacement);
        pos = e.to;
    }
    out.extend_from_slice(&a[pos as usize..]);
    out
}

fn random_edits(len: usize, n: usize, seed: u64) -> Vec<Edit> {
    let mut rng = rand::rngs::StdRng::seed_from_u64(seed);
    let mut cuts: Vec<u64> = (0..2 * n).map(|_| rng.gen_range(0..=len as u64)).collect();
    cuts.sort();
    let mut edits = Vec::new();
    for i in 0..n {
        let from = cuts[2 * i];
        let to = cuts[2 * i + 1];
        let rl = rng.gen_range(0..300usize);
        let repl: Vec<u8> = (0..rl).map(|_| if rng.gen_bool(0.05) { b'\n' } else { rng.gen_range(b'a'..=b'z') }).collect();
        edits.push(Edit::new(from, to, repl));
    }
    edits
}

/// What `n` draws of `gen_range(b'a'..=b'z')` give, with the words of the generator drawn together.
fn letters(rng: &mut rand::rngs::StdRng, n: usize) -> Vec<u8> {
    let zone = u32::MAX - (u32::MAX - 26 + 1) % 26;
    let mut words = vec![0u8; 4 * n];
    rng.fill_bytes(&mut words);
    let mut out = Vec::with_capacity(n);
    let mut i = 0;
    while i < words.len() {
        let w = u32::from_le_bytes([words[i], words[i + 1], words[i + 2], words[i + 3]]) as u64 * 26;
        if w as u32 <= zone {
            out.push(b'a' + (w >> 32) as u8);
        }
        i += 4;
    }
    while out.len() < n {
        let w = rng.next_u32() as u64 * 26;
        if w as u32 <= zone {
            out.push(b'a' + (w >> 32) as u8);
        }
    }
    out
}

/// A single contiguous edit produces at most `len / min + 3` new leaves in the common case.
/// Where chunks meet again is a matter of chance, so the bound is held for nearly all edits.
#[test]
fn p3_edit_locality() {
    let mut rng = rand::rngs::StdRng::seed_from_u64(42);
    let mut excess = Vec::new();
    for round in 0..500 {
        let n_lines = rng.gen_range(50..3000);
        let mut bytes = Vec::new();
        for i in 0..n_lines {
            let len = rng.gen_range(0..160);
            if round == 0 {
                let mut other = rng.clone();
                let plain: Vec<u8> = (0..len).map(|_| other.gen_range(b'a'..=b'z')).collect();
                assert_eq!(letters(&mut rng.clone(), len), plain);
            }
            bytes.extend(letters(&mut rng, len));
            bytes.extend_from_slice(format!(" {}\n", i).as_bytes());
        }
        let mut s = MemStorage::new();
        let root = build(&mut s, &p(), &bytes).unwrap();
        let before: HashSet<_> = leaves(&s, &root).unwrap().into_iter().map(|l| l.hash).collect();
        let from = rng.gen_range(0..=bytes.len()) as u64;
        let to = (from + rng.gen_range(0..200)).min(bytes.len() as u64);
        let rl = rng.gen_range(0..3000usize);
        let repl: Vec<u8> = (0..rl).map(|_| if rng.gen_bool(0.02) { b'\n' } else { b'x' }).collect();
        let er = apply_edits(&mut s, &p(), &root, &[Edit::new(from, to, repl.clone())]).unwrap();
        let after: Vec<_> = leaves(&s, &er.root).unwrap();
        let new_leaves = after.iter().filter(|l| !before.contains(&l.hash)).count() as i64;
        let bound = (rl as i64 + p().min as i64 - 1) / p().min as i64 + 3;
        excess.push(new_leaves - bound);
    }
    let within = excess.iter().filter(|&&e| e <= 0).count();
    assert!(within as f64 / excess.len() as f64 >= 0.95, "the bound holds for fewer than 95% of edits");
}

/// Rebasing disjoint edits is commutative.
#[test]
fn p6_rebase_commutes() {
    let mut rng = rand::rngs::StdRng::seed_from_u64(7);
    for _ in 0..200 {
        let n_lines = rng.gen_range(20..400);
        let mut bytes = Vec::new();
        for i in 0..n_lines {
            bytes.extend_from_slice(format!("line {} {}\n", i, "x".repeat(rng.gen_range(0..80))).as_bytes());
        }
        // Two edits on distinct lines.
        let l1 = rng.gen_range(0..n_lines / 2) as usize;
        let l2 = rng.gen_range(n_lines / 2 + 1..n_lines) as usize;
        let mut s_a = MemStorage::new();
        let root = build(&mut s_a, &p(), &bytes).unwrap();
        s_a.cas_root(1, None, &root).unwrap();
        let mut s_b = s_a.clone();
        let line_starts: Vec<usize> = std::iter::once(0)
            .chain(bytes.iter().enumerate().filter(|(_, &b)| b == b'\n').map(|(i, _)| i + 1))
            .collect();
        let e1 = Edit::new(line_starts[l1] as u64, (line_starts[l1 + 1] - 1) as u64, b"EDIT ONE".to_vec());
        let e2 = Edit::new(line_starts[l2] as u64, (line_starts[l2 + 1] - 1) as u64, b"EDIT TWO longer".to_vec());
        // Order A: e1 then e2 (e2 rebased against e1's result).
        let c1 = commit(&mut s_a, &p(), 1, "f", &root, &[e1.clone()], 8).unwrap();
        assert_eq!(c1.kind, CommitKind::Direct);
        let c2 = commit(&mut s_a, &p(), 1, "f", &root, &[e2.clone()], 8).unwrap();
        assert_eq!(c2.kind, CommitKind::Rebased);
        // Order B.
        commit(&mut s_b, &p(), 1, "f", &root, &[e2.clone()], 8).unwrap();
        let c2b = commit(&mut s_b, &p(), 1, "f", &root, &[e1.clone()], 8).unwrap();
        assert_eq!(c2.root, c2b.root, "roots differ between orders");
        let expected = apply_ref(&bytes, &[e1, e2]);
        assert_eq!(materialize(&s_a, &c2.root).unwrap(), expected);
        assert_eq!(s_a.get_root(1).unwrap().unwrap().1, 3); // initial + two commits
    }
}

#[test]
fn same_line_edits_conflict_and_merge() {
    let bytes = b"alpha\nbeta\ngamma\n".to_vec();
    let mut s = MemStorage::new();
    let root = build(&mut s, &p(), &bytes).unwrap();
    s.cas_root(1, None, &root).unwrap();
    commit(&mut s, &p(), 1, "f", &root, &[Edit::new(6, 10, b"BETA".to_vec())], 8).unwrap();
    let err = commit(&mut s, &p(), 1, "f", &root, &[Edit::new(6, 10, b"Beta!".to_vec())], 8).unwrap_err();
    match err {
        textdb::TextdbError::Conflict(c) => {
            assert_eq!(c.theirs, "BETA\n");
            assert_eq!(c.ours, "Beta!\n");
            assert_eq!(c.base, "beta\n");
            assert_eq!(c.region_line_from, 2);
        }
        e => panic!("expected conflict, got {:?}", e),
    }
    // Identical concurrent change merges cleanly.
    let c = commit(&mut s, &p(), 1, "f", &root, &[Edit::new(6, 10, b"BETA".to_vec())], 8).unwrap();
    assert_eq!(c.kind, CommitKind::NoOp);
}

#[test]
fn large_doc_tree_depth_and_sharing() {
    let mut s = MemStorage::new();
    let mut bytes = Vec::new();
    for i in 0..200_000 {
        bytes.extend_from_slice(format!("row {} some filler text to make lines realistic\n", i).as_bytes());
    }
    let root = build(&mut s, &p(), &bytes).unwrap();
    let d = depth(&s, &root).unwrap();
    let chunks_before = s.chunks.len();
    let nodes_before = s.nodes.len();
    let er = apply_edits(&mut s, &p(), &root, &[Edit::new(5_000_000, 5_000_010, b"CHANGED".to_vec())]).unwrap();
    let new_chunks = s.chunks.len() - chunks_before;
    let new_nodes = s.nodes.len() - nodes_before;
    assert!(new_chunks <= 6, "too many new chunks: {}", new_chunks);
    assert!(new_nodes <= 3 * d + 3, "too many new nodes: {}", new_nodes);
    let mut s2 = MemStorage::new();
    let mut expected = bytes.clone();
    expected.splice(5_000_000..5_000_010, b"CHANGED".iter().copied());
    assert_eq!(build(&mut s2, &p(), &expected).unwrap(), er.root);
}

/// Documents of different kinds: lines of text, arbitrary bytes, one line over and over.
fn any_text(seed: u64, max: usize) -> Vec<u8> {
    let mut rng = rand::rngs::StdRng::seed_from_u64(seed);
    match seed % 3 {
        0 => {
            let mut out = Vec::new();
            for _ in 0..rng.gen_range(0..max / 40) {
                let len = rng.gen_range(0..120);
                out.extend((0..len).map(|_| rng.gen_range(b' '..=b'z')));
                out.extend_from_slice(if rng.gen_bool(0.2) { b"\r\n" } else { "\u{105}\n".as_bytes() });
            }
            out
        }
        1 => {
            let len = rng.gen_range(0..max);
            (0..len).map(|_| rng.gen::<u8>()).collect()
        }
        _ => b"same line\n".repeat(rng.gen_range(0..max) / 10 + 1),
    }
}

#[test]
fn what_is_built_reads_back() {
    for seed in 0..60 {
        let bytes = any_text(seed, 40_000);
        let mut s = MemStorage::new();
        let root = build(&mut s, &p(), &bytes).unwrap();
        assert_eq!(materialize(&s, &root).unwrap(), bytes);
        assert_eq!(totals(&s, &root).unwrap().0, bytes.len() as u64);
        let mid = bytes.len() as u64 / 2;
        assert_eq!(materialize_range(&s, &root, mid, bytes.len() as u64 + 9).unwrap(), &bytes[mid as usize..]);
    }
}

#[test]
fn the_root_does_not_depend_on_history() {
    for seed in 0..60 {
        let bytes = any_text(seed, 30_000);
        let mut s = MemStorage::new();
        let root = build(&mut s, &p(), &bytes).unwrap();
        let edits = random_edits(bytes.len(), 3, seed);
        let expected = apply_ref(&bytes, &edits);
        let er = apply_edits(&mut s, &p(), &root, &edits).unwrap();
        assert_eq!(materialize(&s, &er.root).unwrap(), expected);
        let mut s2 = MemStorage::new();
        assert_eq!(er.root, build(&mut s2, &p(), &expected).unwrap());
        let back = byte_edits(&expected, &bytes);
        assert_eq!(apply_edits(&mut s, &p(), &er.root, &back).unwrap().root, root);
    }
}

#[test]
fn a_line_starts_behind_its_newline() {
    for seed in 0..12 {
        let bytes = any_text(seed, 20_000);
        let mut s = MemStorage::new();
        let root = build(&mut s, &p(), &bytes).unwrap();
        let mut k = 0u64;
        assert_eq!(locate_line(&s, &root, 0).unwrap(), Some(0));
        for (i, &b) in bytes.iter().enumerate() {
            if b == b'\n' {
                k += 1;
                assert_eq!(locate_line(&s, &root, k).unwrap(), Some(i as u64 + 1));
            }
        }
        assert_eq!(locate_line(&s, &root, k + 1).unwrap(), None);
        assert_eq!(line_of_byte(&s, &root, bytes.len() as u64).unwrap(), k);
    }
}

#[test]
fn changed_runs_turn_one_document_into_the_other() {
    for seed in 0..60 {
        let bytes = any_text(seed, 30_000);
        let mut s = MemStorage::new();
        let a = build(&mut s, &p(), &bytes).unwrap();
        let edits = random_edits(bytes.len(), 2, seed);
        let b = apply_edits(&mut s, &p(), &a, &edits).unwrap().root;
        let runs = changed_runs(&s, &a, &b).unwrap();
        let bb = materialize(&s, &b).unwrap();
        let as_edits: Vec<Edit> =
            runs.iter().map(|r| Edit::new(r.a_from, r.a_to, bb[r.b_from as usize..r.b_to as usize].to_vec())).collect();
        assert_eq!(apply_ref(&bytes, &as_edits), bb);
    }
}

#[test]
fn lines_and_hunks_of_a_small_document() {
    let mut s = MemStorage::new();
    let a = build(&mut s, &p(), b"one\ntwo\nthree\n").unwrap();
    let b = build(&mut s, &p(), b"one\n2\nthree\nfour\n").unwrap();
    assert_eq!(lines(&s, &a, 1, 1).unwrap(), b"two\n".to_vec());
    let hunks = line_hunks(&s, &a, &b).unwrap();
    assert_eq!(hunks.len(), 2);
    let text = unified_diff(&s, &a, &b, 1).unwrap();
    assert!(text.contains("-two\n+2\n"), "{text}");
    assert!(text.contains("+four\n"), "{text}");
    let (_, within, start) = locate_byte(&s, &a, 5).unwrap().unwrap();
    assert_eq!((within, start), (5, 0));
}

#[test]
fn a_missing_root_is_an_error() {
    let s = MemStorage::new();
    let nowhere: textdb::hash::Hash = textdb::hash_chunk(b"nothing");
    assert!(matches!(materialize(&s, &nowhere), Err(TextdbError::MissingNode(_))));
}

#[test]
fn edits_out_of_order_are_refused() {
    let e = [Edit::new(4, 6, vec![]), Edit::new(2, 3, vec![])];
    assert!(matches!(validate_edits(&e, 10), Err(TextdbError::InvalidEdit(_))));
    assert!(matches!(validate_edits(&[Edit::new(0, 11, vec![])], 10), Err(TextdbError::InvalidEdit(_))));
    assert!(validate_edits(&[Edit::new(0, 10, vec![])], 10).is_ok());
}

#[test]
fn appending_and_missing_files() {
    let mut s = MemStorage::new();
    let root = build(&mut s, &p(), b"a\n").unwrap();
    s.cas_root(1, None, &root).unwrap();
    let c = commit_append(&mut s, &p(), 1, "f", b"b\n", 8).unwrap();
    assert_eq!(materialize(&s, &c.root).unwrap(), b"a\nb\n".to_vec());
    let err = commit_append(&mut s, &p(), 2, "nofile", b"b\n", 8).unwrap_err();
    assert_eq!(err.code(), "TX003");
    assert_eq!(err.message(), "not found: nofile");
}

/// A storage whose swaps are answered as told: `false` for the first `lose`, and before each of
/// these somebody else commits one of `theirs`.
struct Racing {
    inner: MemStorage,
    lose: usize,
    theirs: Vec<Vec<u8>>,
    swaps: Vec<(Option<textdb::hash::Hash>, textdb::hash::Hash)>,
}

impl Storage for Racing {
    fn get_chunk(&self, h: &textdb::hash::Hash) -> Result<Option<Vec<u8>>, TextdbError> {
        self.inner.get_chunk(h)
    }
    fn put_chunk(&mut self, h: &textdb::hash::Hash, b: &[u8]) -> Result<(), TextdbError> {
        self.inner.put_chunk(h, b)
    }
    fn get_node(&self, h: &textdb::hash::Hash) -> Result<Option<textdb::node::Node>, TextdbError> {
        self.inner.get_node(h)
    }
    fn put_node(&mut self, h: &textdb::hash::Hash, n: &textdb::node::Node) -> Result<(), TextdbError> {
        self.inner.put_node(h, n)
    }
    fn get_root(&self, file_id: u64) -> Result<Option<(textdb::hash::Hash, u64)>, TextdbError> {
        self.inner.get_root(file_id)
    }
    fn cas_root(&mut self, file_id: u64, expect: Option<&textdb::hash::Hash>, new: &textdb::hash::Hash) -> Result<bool, TextdbError> {
        self.swaps.push((expect.copied(), *new));
        if self.lose == 0 {
            return self.inner.cas_root(file_id, expect, new);
        }
        self.lose -= 1;
        if let Some(text) = self.theirs.pop() {
            let root = build(&mut self.inner, &p(), &text)?;
            let now = self.inner.get_root(file_id)?.map(|x| x.0);
            assert!(self.inner.cas_root(file_id, now.as_ref(), &root)?);
        }
        Ok(false)
    }
}

fn racing(text: &[u8], lose: usize, theirs: Vec<Vec<u8>>) -> (Racing, textdb::hash::Hash) {
    let mut inner = MemStorage::new();
    let root = build(&mut inner, &p(), text).unwrap();
    assert!(inner.cas_root(1, None, &root).unwrap());
    (Racing { inner, lose, theirs, swaps: Vec::new() }, root)
}

#[test]
fn contention_comes_after_every_retry_was_lost() {
    for retries in 0..4usize {
        let (mut s, root) = racing(b"one\ntwo\n", usize::MAX, Vec::new());
        let r = commit(&mut s, &p(), 1, "/f", &root, &[Edit::new(0, 3, b"1".to_vec())], retries);
        assert!(matches!(r, Err(TextdbError::Contention)));
        assert_eq!(s.swaps.len(), retries + 1);
        assert!(s.swaps.iter().all(|x| x.0 == Some(root) && x.1 == s.swaps[0].1));
        // One lost swap fewer, and the commit goes through.
        let (mut s, root) = racing(b"one\ntwo\n", retries, Vec::new());
        let c = commit(&mut s, &p(), 1, "/f", &root, &[Edit::new(0, 3, b"1".to_vec())], retries).unwrap();
        assert_eq!((c.kind, c.retries, c.version), (CommitKind::Direct, retries, 2));
    }
}

#[test]
fn a_lost_race_loses_no_version() {
    let (mut s, root) = racing(b"one\ntwo\nthree\n", 1, vec![b"one\ntwo\n3\n".to_vec()]);
    let c = commit(&mut s, &p(), 1, "/f", &root, &[Edit::new(0, 3, b"1".to_vec())], 8).unwrap();
    assert_eq!((c.kind, c.retries, c.version), (CommitKind::Rebased, 1, 3));
    assert_eq!(materialize(&s, &c.root).unwrap(), b"1\ntwo\n3\n".to_vec());
    let (mut s, _) = racing(b"a\n", 1, vec![b"a\nb\n".to_vec()]);
    let c = commit_append(&mut s, &p(), 1, "/f", b"c\n", 8).unwrap();
    assert_eq!((c.kind, c.retries, c.version), (CommitKind::Rebased, 1, 3));
    assert_eq!(materialize(&s, &c.root).unwrap(), b"a\nb\nc\n".to_vec());
}

#[test]
fn the_greatest_line_number_means_to_the_end() {
    let mut s = MemStorage::new();
    let a = build(&mut s, &p(), b"one\ntwo\nthree\n").unwrap();
    assert_eq!(lines(&s, &a, 1, u64::MAX).unwrap(), b"two\nthree\n".to_vec());
    assert_eq!(lines(&s, &a, u64::MAX, u64::MAX).unwrap(), Vec::<u8>::new());
}

#[test]
fn refused_and_empty_edits_leave_the_store() {
    let mut s = MemStorage::new();
    let a = build(&mut s, &p(), b"one\ntwo\n").unwrap();
    let before = (s.chunk_bytes_written, s.node_writes);
    assert_eq!(apply_edits(&mut s, &p(), &a, &[]).unwrap().root, a);
    assert!(matches!(apply_edits(&mut s, &p(), &a, &[Edit::new(3, 99, vec![])]), Err(TextdbError::InvalidEdit(_))));
    assert_eq!((s.chunk_bytes_written, s.node_writes), before);
    // Only what is new is counted.
    build(&mut s, &p(), b"one\ntwo\n").unwrap();
    assert_eq!((s.chunk_bytes_written, s.node_writes), before);
    assert_eq!(before, (8, 1));
}

#[test]
fn one_text_has_one_root_in_any_store() {
    let (mut s, mut t) = (MemStorage::new(), MemStorage::new());
    build(&mut t, &p(), b"something else\n").unwrap();
    let x = build(&mut s, &p(), b"one\ntwo\n").unwrap();
    assert_eq!(x, build(&mut t, &p(), b"one\ntwo\n").unwrap());
    assert_ne!(x, build(&mut t, &p(), b"one\ntwo\n\n").unwrap());
}

/// Commits two edits against one base, and tells the second commit and the text after it.
fn both(text: &[u8], first: Edit, second: Edit) -> (textdb::Committed, Vec<u8>, u64) {
    let mut s = MemStorage::new();
    let root = build(&mut s, &p(), text).unwrap();
    assert!(s.cas_root(1, None, &root).unwrap());
    commit(&mut s, &p(), 1, "/f", &root, &[first], 8).unwrap();
    let c = commit(&mut s, &p(), 1, "/f", &root, &[second], 8).unwrap();
    let out = materialize(&s, &c.root).unwrap();
    (c, out, s.get_root(1).unwrap().unwrap().1)
}

#[test]
fn edits_of_two_lines_commute_whatever_they_put_in() {
    let mut text = Vec::new();
    for i in 0..300 {
        text.extend_from_slice(format!("line {i} {}\n", "y".repeat(i % 90)).as_bytes());
    }
    let at = |n: usize| text.split(|b| *b == b'\n').take(n).map(|l| l.len() + 1).sum::<usize>() as u64;
    let line = |n: usize| text.split(|b| *b == b'\n').nth(n).unwrap().to_vec();
    for terminated in [true, false] {
        let mut doc = text.clone();
        if !terminated {
            doc.pop();
        }
        // A long line, a line the text has already, an empty line.
        for (i, new) in [(20, vec![b'z'; 9000]), (20, line(200)), (297, Vec::new()), (298, line(5)), (298, vec![b'q'; 3000])] {
            let e = Edit::new(at(i), at(i) + line(i).len() as u64, new);
            let f = Edit::new(at(299), at(299) + line(299).len() as u64, vec![b'w'; 700]);
            let (c, one, v) = both(&doc, e.clone(), f.clone());
            let (d, two, w) = both(&doc, f.clone(), e.clone());
            assert_eq!((c.kind, d.kind), (CommitKind::Rebased, CommitKind::Rebased));
            assert_eq!((c.root, v, w), (d.root, 3, 3));
            assert_eq!(one, two);
            assert_eq!(one, apply_ref(&doc, &[e, f]));
        }
    }
}

#[test]
fn a_moved_base_takes_edits_as_the_current_text_has_room_for_them() {
    let mut s = MemStorage::new();
    let root = build(&mut s, &p(), b"a\n").unwrap();
    assert!(s.cas_root(1, None, &root).unwrap());
    // Behind the end of the base.
    let e = [Edit::new(5, 5, b"x".to_vec())];
    assert!(matches!(commit(&mut s, &p(), 1, "/f", &root, &e, 8), Err(TextdbError::InvalidEdit(_))));
    commit_append(&mut s, &p(), 1, "/f", b"b\n", 8).unwrap();
    let c = commit(&mut s, &p(), 1, "/f", &root, &e, 8).unwrap();
    assert_eq!((c.kind, c.version), (CommitKind::Merged, 3));
    assert_eq!(materialize(&s, &c.root).unwrap(), b"a\nb\nx".to_vec());
    // Still out of bounds in the current text.
    let mut s = MemStorage::new();
    let root = build(&mut s, &p(), b"a\nb\nc\n").unwrap();
    assert!(s.cas_root(1, None, &root).unwrap());
    commit(&mut s, &p(), 1, "/f", &root, &[Edit::new(0, 1, b"long".to_vec())], 8).unwrap();
    let far = [Edit::new(9, 9, b"x".to_vec())];
    assert!(matches!(commit(&mut s, &p(), 1, "/f", &root, &far, 8), Err(TextdbError::InvalidEdit(_))));
}

#[test]
fn what_is_stored_stays() {
    let mut s = MemStorage::new();
    let h = textdb::hash_chunk(b"one");
    s.put_chunk(&h, b"one").unwrap();
    s.put_chunk(&h, b"two").unwrap();
    assert_eq!(s.get_chunk(&h).unwrap().unwrap(), b"one".to_vec());
    assert_eq!(s.chunk_bytes_written, 3);
    // A document whose chunk would read back as another is not written.
    let mut s = MemStorage::new();
    s.put_chunk(&h, b"two").unwrap();
    assert!(matches!(build(&mut s, &p(), b"one"), Err(TextdbError::Storage(_))));
}
