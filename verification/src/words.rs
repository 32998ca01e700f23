//! Word counts as `wc -w` counts them: maximal runs of bytes that are not ASCII whitespace.
//! Markdown syntax is text like any other, so `## Setup` is two words.
//!
//! A word never spans a newline, so what a commit adds and removes can be counted over the
//! lines it changed alone: everything outside those lines is the same bytes on both sides.
//! That keeps a file's count current at the cost of the edit, not of the document.

use vstd::prelude::*;
use crate::diff::{law_runs_turn, reads_both, rewrites, run_views, runs_between, runs_turn, ChangedRun};
use crate::linelaw::{aligned, law_regions_turn, lemma_whole_lines, whole_lines, Region};
use crate::model::{doc, leaf_ok, leaf_text, lemma_leaf_text_concat, level_ok, sound, Store};
use crate::myers::HunkView;
use crate::regions::{changed_line_regions, regions_between};
use crate::storage::{plain_failure, Result, Storage};
use crate::tree::{clip, doc_leaves, leaves, lemma_doc_sums, materialize_range, reads, refs_of, LeafRef};

verus! {

/// Is a byte ASCII white space?
pub open spec fn space(b: u8) -> bool {
    b == 32 || b == 9 || b == 10 || b == 13 || b == 11 || b == 12
}

fn is_space(b: u8) -> (r: bool)
    ensures
        r == space(b),
{
    b == 32 || b == 9 || b == 10 || b == 13 || b == 11 || b == 12
}

/// Does a text that follows `inside` end inside a word?
pub open spec fn ends_inside(s: Seq<u8>, inside: bool) -> bool {
    if s.len() == 0 {
        inside
    } else {
        !space(s.last())
    }
}

/// Words that begin in a text, when what is before it ended inside a word or not.
pub open spec fn word_starts(s: Seq<u8>, inside: bool) -> nat
    decreases s.len(),
{
    if s.len() == 0 {
        0
    } else {
        let front = s.drop_last();
        word_starts(front, inside) + if !space(s.last()) && !ends_inside(front, inside) { 1nat } else { 0 }
    }
}

/// Words of a text.
pub open spec fn word_count(s: Seq<u8>) -> nat {
    word_starts(s, false)
}

/// The words of two pieces, the second fed where the first ended.
pub proof fn lemma_words_concat(a: Seq<u8>, b: Seq<u8>, inside: bool)
    ensures
        word_starts(a + b, inside) == word_starts(a, inside) + word_starts(b, ends_inside(a, inside)),
        ends_inside(a + b, inside) == ends_inside(b, ends_inside(a, inside)),
    decreases b.len(),
{
    if b.len() == 0 {
        assert(a + b =~= a);
    } else {
        assert((a + b).drop_last() =~= a + b.drop_last());
        lemma_words_concat(a, b.drop_last(), inside);
    }
}

pub proof fn lemma_words_bound(s: Seq<u8>, inside: bool)
    ensures
        word_starts(s, inside) <= s.len(),
    decreases s.len(),
{
    if s.len() > 0 {
        lemma_words_bound(s.drop_last(), inside);
    }
}

/// A running word count over bytes fed in pieces; a word split across two pieces counts once.
#[derive(Clone, Copy, Debug)]
pub struct WordCounter {
    words: u64,
    in_word: bool,
}

impl Default for WordCounter {
    fn default() -> (r: Self)
        ensures
            r.count() == 0,
            !r.inside(),
    {
        WordCounter { words: 0, in_word: false }
    }
}

impl WordCounter {
    /// Words so far.
    pub closed spec fn count(&self) -> nat {
        self.words as nat
    }

    /// Did the last piece end inside a word?
    pub closed spec fn inside(&self) -> bool {
        self.in_word
    }

    pub fn feed(&mut self, bytes: &[u8]) -> (r: &mut Self)
        requires
            old(self).count() + bytes@.len() <= u64::MAX,
        ensures
            r.count() == old(self).count() + word_starts(bytes@, old(self).inside()),
            r.inside() == ends_inside(bytes@, old(self).inside()),
            *final(r) == *final(self),
    {
        let ghost start = *self;
        let mut i: usize = 0;
        assert(bytes@.take(0) =~= Seq::empty());
        while i < bytes.len()
            invariant
                i <= bytes@.len(),
                start.words + bytes@.len() <= u64::MAX,
                self.words == start.words + word_starts(bytes@.take(i as int), start.in_word),
                self.in_word == ends_inside(bytes@.take(i as int), start.in_word),
            decreases bytes@.len() - i,
        {
            let b: u8 = bytes[i];
            proof {
                let more = bytes@.take(i + 1);
                assert(more.drop_last() =~= bytes@.take(i as int));
                assert(more.last() == b);
                lemma_words_bound(bytes@.take(i as int), start.in_word);
            }
            if is_space(b) {
                self.in_word = false;
            } else if !self.in_word {
                self.in_word = true;
                self.words = self.words + 1;
            }
            i += 1;
        }
        assert(bytes@.take(i as int) =~= bytes@);
        self
    }

    pub fn words(&self) -> (r: u64)
        ensures
            r == self.count(),
    {
        self.words
    }
}

/// Words in `bytes`.
pub fn count_words(bytes: &[u8]) -> (r: u64)
    ensures
        r == word_count(bytes@),
{
    let mut c = WordCounter::default();
    assert(bytes@.len() == bytes.len());
    c.feed(bytes);
    c.words()
}

/// Words in the document under `root`, read chunk by chunk.
pub fn words_at<S: Storage + ?Sized>(storage: &S, root: &crate::hash::Hash) -> (r: Result<u64>)
    requires
        sound(storage.store()),
    ensures
        plain_failure(r),
        reads(storage.local(), storage.store(), root@, r),
        r matches Ok(n) ==> n == word_count(doc(storage.store(), root@)),
{
    let ghost st = storage.store();
    let ls = match leaves(storage, root) {
        Ok(v) => v,
        Err(e) => {
            return Err(e);
        },
    };
    let ghost row = doc_leaves(st, st.nodes[root@]);
    proof {
        crate::diff::lemma_root_row(st, st.nodes[root@]);
        lemma_doc_sums(st, st.nodes[root@]);
    }
    let mut c = WordCounter::default();
    let mut i: usize = 0;
    assert(row.take(0) =~= Seq::empty());
    while i < ls.len()
        invariant
            i <= ls@.len(),
            st == storage.store(),
            refs_of(ls@, row, 0, 0),
            level_ok(st, row, 1),
            leaf_text(st, row).len() <= usize::MAX,
            st.nodes.contains_key(root@),
            c.count() == word_starts(leaf_text(st, row.take(i as int)), false),
            c.inside() == ends_inside(leaf_text(st, row.take(i as int)), false),
        decreases ls@.len() - i,
    {
        let l: LeafRef = ls[i];
        proof {
            assert(ls@[i as int].hash@ == row[i as int].hash);
            assert(leaf_ok(st, row[i as int]));
            let before = row.take(i as int);
            let more = row.take(i + 1);
            assert(more.drop_last() =~= before);
            assert(row =~= more + row.skip(i + 1));
            lemma_leaf_text_concat(st, more, row.skip(i + 1));
            let chunk = st.chunks[row[i as int].hash];
            lemma_words_concat(leaf_text(st, before), chunk, false);
            lemma_words_bound(leaf_text(st, before), false);
        }
        match storage.chunk_shared(&l.hash) {
            Ok(b) => {
                c.feed(b.as_slice());
            },
            Err(e) => {
                return Err(e);
            },
        }
        i += 1;
    }
    assert(row.take(i as int) =~= row);
    Ok(c.words())
}

/// How many more words some regions of `b` have than those of `a`.
pub open spec fn region_delta(a: Seq<u8>, b: Seq<u8>, rs: Seq<HunkView>) -> int
    decreases rs.len(),
{
    if rs.len() == 0 {
        0
    } else {
        let r = rs.last();
        region_delta(a, b, rs.drop_last()) + word_count(clip(b, r.b_from, r.b_to)) - word_count(clip(a, r.a_from, r.a_to))
    }
}

/// The words of a text up to a line that begins, and of what follows.
pub proof fn lemma_words_cut(s: Seq<u8>, x: int, y: int)
    requires
        aligned(s, x),
        x <= y <= s.len(),
    ensures
        word_count(s.take(y)) == word_count(s.take(x)) + word_count(s.subrange(x, y)),
{
    assert(s.take(y) =~= s.take(x) + s.subrange(x, y));
    lemma_words_concat(s.take(x), s.subrange(x, y), false);
    if x > 0 && x < s.len() {
        assert(s.take(x).last() == 10);
    } else if x == s.len() {
        assert(s.subrange(x, y) =~= Seq::empty());
    }
}

/// Outside regions of whole lines the words are the same, so the regions alone tell how many
/// more there are.
proof fn lemma_region_delta(a: Seq<u8>, b: Seq<u8>, rs: Seq<HunkView>, x: int, y: int)
    requires
        rewrites(a, b, rs, x, y),
        whole_lines(a, b, rs),
    ensures
        region_delta(a, b, rs) == word_count(b.take(y)) - word_count(a.take(x)),
    decreases rs.len(),
{
    if rs.len() > 0 {
        let r = rs.last();
        let f = rs.drop_last();
        assert(rs[rs.len() - 1] == r);
        assert((Region { a, b, r }).ok());
        assert forall|i: int| 0 <= i < f.len() implies (Region { a, b, r: #[trigger] f[i] }).ok() by {
            assert(f[i] == rs[i]);
        }
        lemma_region_delta(a, b, f, r.a_from, r.b_from);
        lemma_words_cut(a, r.a_from, r.a_to);
        lemma_words_cut(b, r.b_from, r.b_to);
        lemma_words_cut(a, r.a_to, x);
        lemma_words_cut(b, r.b_to, y);
        assert(clip(a, r.a_from, r.a_to) =~= a.subrange(r.a_from, r.a_to));
        assert(clip(b, r.b_from, r.b_to) =~= b.subrange(r.b_from, r.b_to));
    }
}

/// The words a document has more than another, told by the regions in which they differ.
pub proof fn law_word_delta(st: Store, a: Seq<u8>, b: Seq<u8>)
    requires
        sound(st),
        st.nodes.contains_key(a),
        st.nodes.contains_key(b),
    ensures
        region_delta(doc(st, a), doc(st, b), regions_between(st, a, b)) == word_count(doc(st, b)) - word_count(doc(st, a)),
{
    let ta = doc(st, a);
    let tb = doc(st, b);
    let x = ta.len() as int;
    let y = tb.len() as int;
    law_runs_turn(st, a, b);
    law_regions_turn(st, a, b);
    lemma_whole_lines(ta, tb, runs_between(st, a, b), x, y);
    lemma_region_delta(ta, tb, regions_between(st, a, b), x, y);
    assert(ta.take(x) =~= ta);
    assert(tb.take(y) =~= tb);
}

/// What the words of the first regions can add up to.
proof fn lemma_delta_bound(a: Seq<u8>, b: Seq<u8>, rs: Seq<HunkView>, x: int, y: int, n: int)
    requires
        rewrites(a, b, rs, x, y),
        0 <= n <= rs.len(),
    ensures
        -x <= region_delta(a, b, rs.take(n)) <= y,
    decreases rs.len(),
{
    if n == 0 {
        assert(rs.take(0) =~= Seq::empty());
        if rs.len() > 0 {
            lemma_delta_bound(a, b, rs.drop_last(), rs.last().a_from, rs.last().b_from, 0);
        }
    } else if n < rs.len() {
        lemma_delta_bound(a, b, rs.drop_last(), rs.last().a_from, rs.last().b_from, n);
        assert(rs.drop_last().take(n) =~= rs.take(n));
    } else {
        let r = rs.last();
        let f = rs.drop_last();
        lemma_delta_bound(a, b, f, r.a_from, r.b_from, f.len() as int);
        assert(f.take(f.len() as int) =~= f);
        assert(rs.take(n) =~= rs);
        lemma_words_bound(clip(a, r.a_from, r.a_to), false);
        lemma_words_bound(clip(b, r.b_from, r.b_to), false);
    }
}

/// `words_at(b) - words_at(a)`, reading only the lines that differ.
pub fn word_delta<S: Storage + ?Sized>(storage: &S, a: &crate::hash::Hash, b: &crate::hash::Hash) -> (r: Result<i64>)
    requires
        sound(storage.store()),
        storage.store().nodes.contains_key(a@) ==> doc(storage.store(), a@).len() <= i64::MAX,
        storage.store().nodes.contains_key(b@) ==> doc(storage.store(), b@).len() <= i64::MAX,
    ensures
        plain_failure(r),
        a@ == b@ ==> r == Ok::<i64, crate::error::TextdbError>(0),
        a@ != b@ ==> reads_both(storage.local(), storage.store(), a@, b@, r),
        r matches Ok(n) ==> a@ != b@ ==> n == word_count(doc(storage.store(), b@)) - word_count(
            doc(storage.store(), a@),
        ),
{
    let ghost st = storage.store();
    let ghost ta = doc(st, a@);
    let ghost tb = doc(st, b@);
    let regions = match changed_line_regions(storage, a, b) {
        Ok(v) => v,
        Err(e) => {
            return Err(e);
        },
    };
    let ghost rs = run_views(regions@);
    proof {
        if a@ != b@ {
            law_word_delta(st, a@, b@);
            law_regions_turn(st, a@, b@);
        } else {
            assert(rs =~= Seq::empty());
        }
    }
    let mut delta: i64 = 0;
    let mut i: usize = 0;
    assert(rs.take(0) =~= Seq::empty());
    while i < regions.len()
        invariant
            i <= regions@.len(),
            st == storage.store(),
            sound(st),
            a@ == b@ ==> rs.len() == 0,
            a@ != b@ ==> st.nodes.contains_key(a@) && st.nodes.contains_key(b@) && runs_turn(ta, tb, rs),
            a@ != b@ ==> ta.len() <= i64::MAX && tb.len() <= i64::MAX,
            ta == doc(st, a@),
            tb == doc(st, b@),
            rs == run_views(regions@),
            delta == region_delta(ta, tb, rs.take(i as int)),
        decreases regions@.len() - i,
    {
        let r: ChangedRun = regions[i];
        proof {
            assert(rs[i as int] == r@);
            assert(rs.take(i + 1).drop_last() =~= rs.take(i as int));
            assert(rs.take(i + 1).last() == r@);
            lemma_delta_bound(ta, tb, rs, ta.len() as int, tb.len() as int, i as int);
            lemma_delta_bound(ta, tb, rs, ta.len() as int, tb.len() as int, i + 1);
            lemma_words_bound(clip(ta, r.a_from as int, r.a_to as int), false);
            lemma_words_bound(clip(tb, r.b_from as int, r.b_to as int), false);
        }
        let at = match materialize_range(storage, a, r.a_from, r.a_to) {
            Ok(v) => v,
            Err(e) => {
                return Err(e);
            },
        };
        let bt = match materialize_range(storage, b, r.b_from, r.b_to) {
            Ok(v) => v,
            Err(e) => {
                return Err(e);
            },
        };
        let gone: i64 = count_words(at.as_slice()) as i64;
        let come: i64 = count_words(bt.as_slice()) as i64;
        delta = delta + (come - gone);
        i += 1;
    }
    assert(rs.take(i as int) =~= rs);
    Ok(delta)
}

/// A word without white space in it.
pub open spec fn solid_word(w: Seq<u8>) -> bool {
    w.len() > 0 && forall|i: int| 0 <= i < w.len() ==> !(#[trigger] w[i] == 32 || 9 <= w[i] <= 13)
}

/// Words, each with a byte behind it.
pub open spec fn words_with(ws: Seq<Seq<u8>>, c: u8) -> Seq<u8>
    decreases ws.len(),
{
    if ws.len() == 0 {
        Seq::empty()
    } else {
        words_with(ws.drop_last(), c) + ws.last() + seq![c]
    }
}

proof fn lemma_one_word(w: Seq<u8>)
    requires
        solid_word(w),
    ensures
        word_starts(w, false) == 1,
    decreases w.len(),
{
    let f = w.drop_last();
    assert(!space(w[w.len() - 1]));
    if f.len() > 0 {
        assert forall|i: int| 0 <= i < f.len() implies !(#[trigger] f[i] == 32 || 9 <= f[i] <= 13) by {
            assert(f[i] == w[i]);
        }
        lemma_one_word(f);
        assert(f.last() == w[f.len() - 1]);
        assert(!space(f.last()));
    } else {
        assert(word_starts(f, false) == 0);
    }
}

/// As many words are counted as stand in a text between white space, whatever the white space is.
pub proof fn law_words_are_counted(ws: Seq<Seq<u8>>, c: u8)
    requires
        forall|i: int| 0 <= i < ws.len() ==> solid_word(#[trigger] ws[i]),
        c == 32 || 9 <= c <= 13,
    ensures
        word_count(words_with(ws, c)) == ws.len(),
        ws.len() > 0 ==> word_count(words_with(ws, c).drop_last()) == ws.len(),
    decreases ws.len(),
{
    if ws.len() > 0 {
        let front = ws.drop_last();
        let w = ws.last();
        assert(solid_word(ws[ws.len() - 1]));
        assert forall|i: int| 0 <= i < front.len() implies solid_word(#[trigger] front[i]) by {
            assert(front[i] == ws[i]);
        }
        law_words_are_counted(front, c);
        let x = words_with(front, c);
        assert(!ends_inside(x, false)) by {
            if front.len() > 0 {
                assert(x.last() == c);
            }
        }
        lemma_one_word(w);
        lemma_words_concat(x, w, false);
        lemma_words_concat(x + w, seq![c], false);
        assert(words_with(ws, c).drop_last() =~= x + w);
        let one = seq![c];
        assert(one.drop_last() =~= Seq::empty());
        assert(word_starts(one.drop_last(), ends_inside(x + w, false)) == 0);
    }
}

} // verus!
