//! Localised edits: re-chunk only the window around each edit and stop as soon as the
//! chunk boundaries resynchronise with the pre-existing ones.

use vstd::prelude::*;
use vstd::string::*;
use crate::chunker::{
    chunk_start, chunks_of, cut, cut_len, joined, law_chunks_cover, lemma_chunks_prefix, lemma_chunks_suffix,
    law_cut_bounds, law_cut_incremental, lemma_joined_concat, lemma_joined_push, lemma_newlines_bound, ChunkParams,
};
use crate::cursor::{cursor_ok, lemma_path_at, lemma_row_level, pos, row, row_of, Cursor, FrameView};
use crate::error::TextdbError;
use crate::hash::blake3_digest;
use crate::levels::{
    ends_within, groups, held, is_top, lemma_expand_up, lemma_groups, lemma_lift_narrows, lift, nodes_held, up,
};
use crate::model::{
    doc, grows, height, leaf_ok, leaf_text, lemma_leaf_sums, lemma_leaf_text_concat, lemma_level_concat,
    lemma_level_grows, lemma_tree_grows, level_ok, level_text, sound, tree_ok, tree_text, Store,
};
use crate::node::{as_entry, entries_of, lemma_sums_take, sum_bytes, sum_lines, Child, Entry};
use crate::rebuild::{
    canonical_rows, in_order, lemma_cursor_grows, lemma_cursor_shrinks, opt_view, replace_entries, spliced, suffix_pos,
};
use crate::storage::{missing_node, plain_failure, unraced, Result, Storage};
use crate::text::{dec, decimal};
use crate::tree::{
    build_with_chunks, canonical, chunk_clash, chunk_entries, chunks_held, digests, hashes_of, leaf_entries, leaf_entry,
    lemma_chunk_entries, lemma_doc_sums, lemma_listed_push, materialize_range, new_chunks_listed, put_chunk_entry,
    text_clash, tree_held, MAX_LEVELS,
};

verus! {

/// The leaf row of the tree with root children `top`.
pub open spec fn leaf_row(st: Store, top: Seq<Entry>) -> Seq<Entry> {
    row(st, top, (height(st, top) - 1) as nat)
}

/// Byte offset at which leaf `j` begins.
pub open spec fn leaf_start(row: Seq<Entry>, j: int) -> int {
    sum_bytes(row.take(j)) as int
}

/// A leaf of a complete tree covers its part of the text.
proof fn lemma_leaf_at(st: Store, top: Seq<Entry>, j: int)
    requires
        tree_ok(st, top),
        top.len() > 0,
        0 <= j <= leaf_row(st, top).len(),
    ensures
        level_ok(st, leaf_row(st, top), 1),
        leaf_text(st, leaf_row(st, top)) == tree_text(st, top),
        sum_bytes(leaf_row(st, top)) == tree_text(st, top).len(),
        0 <= leaf_start(leaf_row(st, top), j) <= tree_text(st, top).len(),
        leaf_text(st, leaf_row(st, top).take(j)) == tree_text(st, top).take(leaf_start(leaf_row(st, top), j)),
        leaf_text(st, leaf_row(st, top).skip(j)) == tree_text(st, top).skip(leaf_start(leaf_row(st, top), j)),
        level_ok(st, leaf_row(st, top).take(j), 1),
        level_ok(st, leaf_row(st, top).skip(j), 1),
        j < leaf_row(st, top).len() ==> {
            let e = leaf_row(st, top)[j];
            let s = leaf_start(leaf_row(st, top), j);
            &&& leaf_ok(st, e)
            &&& leaf_start(leaf_row(st, top), j + 1) == s + e.nbytes
            &&& s + e.nbytes <= tree_text(st, top).len()
            &&& tree_text(st, top).subrange(s, s + e.nbytes) == st.chunks[e.hash]
        },
        j == leaf_row(st, top).len() ==> leaf_start(leaf_row(st, top), j) == tree_text(st, top).len(),
{
    let d = height(st, top);
    let r = leaf_row(st, top);
    let text = tree_text(st, top);
    lemma_row_level(st, top, d, (d - 1) as nat);
    lemma_leaf_sums(st, r);
    assert(r =~= r.take(j) + r.skip(j));
    lemma_level_concat(st, r.take(j), r.skip(j), 1);
    lemma_leaf_text_concat(st, r.take(j), r.skip(j));
    lemma_leaf_sums(st, r.take(j));
    let s = leaf_start(r, j);
    assert(leaf_text(st, r.take(j)) =~= text.take(s));
    assert(leaf_text(st, r.skip(j)) =~= text.skip(s));
    if j < r.len() {
        let e = r[j];
        assert(leaf_ok(st, e));
        lemma_sums_take(r, j);
        lemma_sums_take(r, j + 1);
        assert(r.take(j + 1).drop_last() =~= r.take(j));
        assert(leaf_text(st, r.take(j + 1)) == leaf_text(st, r.take(j)) + st.chunks[e.hash]);
        assert(r =~= r.take(j + 1) + r.skip(j + 1));
        lemma_leaf_text_concat(st, r.take(j + 1), r.skip(j + 1));
        assert(text.subrange(s, s + e.nbytes) =~= st.chunks[e.hash]);
    } else {
        assert(r.take(j) =~= r);
    }
}

/// A cursor at leaf `j` of the old tree.
pub open spec fn leaf_cursor(st: Store, top: Seq<Entry>, c: Seq<FrameView>) -> bool {
    &&& cursor_ok(st, c)
    &&& c[0].node == top
    &&& c.len() == height(st, top)
}

/// The leaf an optional cursor is at; the end of the row for none.
pub open spec fn leaf_pos(st: Store, top: Seq<Entry>, c: Option<Seq<FrameView>>) -> int {
    suffix_pos(st, c, leaf_row(st, top).len() as int)
}

pub open spec fn leaf_cursor_opt(st: Store, top: Seq<Entry>, c: Option<Seq<FrameView>>) -> bool {
    match c {
        Some(x) => leaf_cursor(st, top, x),
        None => true,
    }
}

/// What an edit's window is made of: the old tree `top` in `st0`, the edit's end `to` in its
/// text, and the new text `w` from the window's start; the replacement ends at `repl_end` in `w`.
pub struct Window {
    pub st0: Store,
    pub top: Seq<Entry>,
    pub to: int,
    pub w: Seq<u8>,
    pub repl_end: int,
}

impl Window {
    pub open spec fn text(self) -> Seq<u8> {
        tree_text(self.st0, self.top)
    }

    pub open spec fn row(self) -> Seq<Entry> {
        leaf_row(self.st0, self.top)
    }

    pub open spec fn ok(self) -> bool {
        &&& sound(self.st0)
        &&& tree_ok(self.st0, self.top)
        &&& self.top.len() > 0
        &&& 0 <= self.to <= self.text().len()
        &&& 0 <= self.repl_end <= self.w.len() <= usize::MAX
        &&& self.w.skip(self.repl_end) == self.text().skip(self.to)
    }

    /// Leaf `j` begins at or after the edit's end, at offset `o` of the window.
    pub open spec fn bound(self, o: int, c: Option<Seq<FrameView>>) -> bool {
        let j = leaf_pos(self.st0, self.top, c);
        &&& leaf_cursor_opt(self.st0, self.top, c)
        &&& leaf_start(self.row(), j) >= self.to
        &&& o == self.repl_end + leaf_start(self.row(), j) - self.to
    }
}

/// The bytes of a window, read from the old leaves as they are needed.
struct Feed {
    buf: Vec<u8>,
    /// The next old leaf to read, and how many of its bytes lie before the edit's end.
    suffix: Option<Cursor>,
    skip: usize,
    /// Old leaf boundaries after the edit, with the cursor that follows.
    bounds: Vec<(usize, Option<Cursor>)>,
}

impl Feed {
    spec fn ok(self, f: Window) -> bool {
        &&& f.ok()
        &&& f.repl_end <= self.buf@.len() <= f.w.len()
        &&& self.buf@ == f.w.take(self.buf@.len() as int)
        &&& leaf_cursor_opt(f.st0, f.top, opt_view(self.suffix))
        &&& match opt_view(self.suffix) {
            Some(c) => {
                let j = pos(f.st0, c);
                &&& self.buf@.len() == f.repl_end + leaf_start(f.row(), j) + self.skip - f.to
                &&& leaf_start(f.row(), j) + self.skip >= f.to
                &&& self.skip < f.row()[j].nbytes
            },
            None => self.buf@.len() == f.w.len(),
        }
        &&& forall|i: int|
            0 <= i < self.bounds@.len() ==> f.bound((#[trigger] self.bounds@[i]).0 as int, opt_view(self.bounds@[i].1))
    }

    /// Read old leaves until `need` bytes past `pos` are there, or none is left.
    #[verifier::rlimit(50)]
    fn fill<S: Storage + ?Sized>(&mut self, storage: &S, pos: usize, need: usize, Ghost(f): Ghost<Window>) -> (r: Result<
        (),
    >)
        requires
            old(self).ok(f),
            sound(storage.store()),
            grows(f.st0, storage.store()),
            pos <= old(self).buf@.len(),
        ensures
        plain_failure(r),
            storage.local() ==> r is Ok,
            r is Ok ==> final(self).ok(f),
            r is Ok ==> pos <= final(self).buf@.len(),
            r is Ok ==> final(self).suffix is None || final(self).buf@.len() - pos >= need,
            r is Ok ==> old(self).bounds@.len() <= final(self).bounds@.len(),
    {
        let ghost st = storage.store();
        let ghost n0 = self.bounds@.len();
        while self.buf.len() - pos < need && self.suffix.is_some()
            invariant
                self.ok(f),
                st == storage.store(),
                sound(st),
                grows(f.st0, st),
                pos <= self.buf@.len(),
                n0 <= self.bounds@.len(),
            decreases f.w.len() - self.buf@.len(),
        {
            let ghost self0 = *self;
            let mut c = self.suffix.take().unwrap();
            let ghost v = c@;
            let ghost j = crate::cursor::pos(f.st0, v);
            proof {
                assert(opt_view(self0.suffix) == Some(v));
                lemma_cursor_grows(f.st0, st, v);
                lemma_path_at(f.st0, v);
                lemma_leaf_at(f.st0, f.top, j);
                lemma_leaf_at(f.st0, f.top, j + 1);
            }
            let h = c.entry().hash;
            assert(h@ == f.row()[j].hash);
            let bytes = match storage.chunk(&h) {
                Ok(b) => b,
                Err(e) => {
                    return Err(e);
                },
            };
            let ghost buf0 = self.buf@;
            let part = vstd::slice::slice_subrange(bytes.as_slice(), self.skip, bytes.len());
            proof {
                let s = leaf_start(f.row(), j);
                let e = s + f.row()[j].nbytes;
                assert(part@ =~= f.text().subrange(s + self.skip, e));
                assert(f.text().subrange(s + self.skip, e) =~= f.text().skip(f.to).subrange(
                    s + self.skip - f.to,
                    e - f.to,
                ));
                assert(f.text().skip(f.to).len() == f.w.len() - f.repl_end);
                assert(buf0 + part@ =~= f.w.take((buf0.len() + part@.len()) as int)) by {
                    assert forall|i: int| 0 <= i < part@.len() implies part@[i] == f.w[buf0.len() + i] by {
                        assert(f.w.skip(f.repl_end)[s + self.skip - f.to + i] == f.w[buf0.len() + i]);
                        assert(f.text().skip(f.to)[s + self.skip - f.to + i] == part@[i]);
                    }
                }
            }
            self.buf.extend_from_slice(part);
            assert(self.buf@ =~= buf0 + part@);
            self.skip = 0;
            let more: bool = match c.advance(storage) {
                Ok(b) => b,
                Err(e) => {
                    return Err(e);
                },
            };
            let end: usize = self.buf.len();
            if more {
                proof {
                    lemma_cursor_shrinks(f.st0, st, c@);
                    lemma_cursor_grows(f.st0, st, c@);
                    lemma_path_at(f.st0, c@);
                    lemma_leaf_at(f.st0, f.top, j + 1);
                }
                let ghost b0 = self.bounds@;
                let again = c.clone();
                self.bounds.push((end, Some(again)));
                self.suffix = Some(c);
                proof {
                    assert forall|i: int| 0 <= i < self.bounds@.len() implies f.bound(
                        (#[trigger] self.bounds@[i]).0 as int,
                        opt_view(self.bounds@[i].1),
                    ) by {
                        if i < b0.len() {
                            assert(self.bounds@[i] == b0[i]);
                        }
                    }
                }
            } else {
                let ghost b0 = self.bounds@;
                self.bounds.push((end, None));
                proof {
                    assert(j + 1 == f.row().len());
                    assert forall|i: int| 0 <= i < self.bounds@.len() implies f.bound(
                        (#[trigger] self.bounds@[i]).0 as int,
                        opt_view(self.bounds@[i].1),
                    ) by {
                        if i < b0.len() {
                            assert(self.bounds@[i] == b0[i]);
                        }
                    }
                }
            }
        }
        Ok(())
    }
}

/// The chunks of a window up to the first old boundary they meet again.
#[verifier::rlimit(40)]
fn rechunk<S: Storage + ?Sized>(storage: &mut S, params: &ChunkParams, feed: Feed, repl_end: usize, Ghost(f): Ghost<
    Window,
>) -> (r: Result<(Vec<Child>, Vec<crate::hash::Hash>, Option<Cursor>)>)
    requires
        params.valid(),
        params.min < params.max + params.snap,
        feed.ok(f),
        repl_end == f.repl_end,
        sound(old(storage).store()),
        grows(f.st0, old(storage).store()),
    ensures
        plain_failure(r),
        final(storage).local() == old(storage).local(),
        grows(old(storage).store(), final(storage).store()),
        sound(final(storage).store()),
        old(storage).local() ==> final(storage).store().nodes == old(storage).store().nodes
            && final(storage).store().roots == old(storage).store().roots,
        r matches Ok(x) ==> {
            let all = chunks_of(*params, f.w);
            let n = x.0@.len() as int;
            let j = leaf_pos(f.st0, f.top, opt_view(x.2));
            &&& n <= all.len()
            &&& entries_of(x.0@) == chunk_entries(all.take(n))
            &&& hashes_of(x.1@) == digests(all.take(n))
            &&& chunks_held(final(storage).store(), all.take(n))
            &&& old(storage).local() ==> new_chunks_listed(
                old(storage).store(),
                final(storage).store(),
                hashes_of(x.1@),
            )
            &&& leaf_cursor_opt(f.st0, f.top, opt_view(x.2))
            &&& leaf_start(f.row(), j) >= f.to
            &&& 0 <= chunk_start(all, n) <= f.w.len()
            &&& f.w.skip(chunk_start(all, n)) == f.text().skip(leaf_start(f.row(), j))
        },
        old(storage).local() && r is Err ==> chunk_clash(final(storage).store(), chunks_of(*params, f.w)),
{
    let ghost all = chunks_of(*params, f.w);
    let ghost st1 = storage.store();
    let mut feed = feed;
    let mut leaves: Vec<Child> = Vec::new();
    let mut hashes: Vec<crate::hash::Hash> = Vec::new();
    let mut at: usize = 0;
    let mut head: usize = 0;
    assert(entries_of(leaves@) =~= chunk_entries(all.take(0)));
    assert(hashes_of(hashes@) =~= digests(all.take(0)));
    assert(all.take(0) =~= Seq::empty());
    loop
        invariant
            params.valid(),
            params.min < params.max + params.snap,
            all == chunks_of(*params, f.w),
            storage.local() == old(storage).local(),
            st1 == old(storage).store(),
            grows(st1, storage.store()),
            grows(f.st0, storage.store()),
            sound(storage.store()),
            old(storage).local() ==> storage.store().nodes == st1.nodes && storage.store().roots == st1.roots,
            old(storage).local() ==> new_chunks_listed(st1, storage.store(), hashes_of(hashes@)),
            feed.ok(f),
            repl_end == f.repl_end,
            at <= feed.buf@.len(),
            leaves@.len() <= all.len(),
            at == chunk_start(all, leaves@.len() as int),
            entries_of(leaves@) == chunk_entries(all.take(leaves@.len() as int)),
            hashes_of(hashes@) == digests(all.take(leaves@.len() as int)),
            chunks_held(storage.store(), all.take(leaves@.len() as int)),
        decreases f.w.len() - at,
    {
        // Keep enough lookahead for boundary decisions to be final.
        match feed.fill(storage, at, params.lookahead(), Ghost(f)) {
            Ok(_) => {},
            Err(e) => {
                return Err(e);
            },
        }
        let eof: bool = feed.suffix.is_none();
        let ghost count = leaves@.len() as int;
        let ghost rest = f.w.skip(at as int);
        proof {
            lemma_chunks_suffix(*params, f.w, count);
        }
        if at == feed.buf.len() {
            proof {
                lemma_leaf_at(f.st0, f.top, f.row().len() as int);
                assert(f.w.skip(at as int) =~= f.text().skip(leaf_start(f.row(), f.row().len() as int)));
            }
            return Ok((leaves, hashes, None));
        }
        let have: usize = feed.buf.len();
        let tail = vstd::slice::slice_subrange(feed.buf.as_slice(), at, have);
        proof {
            assert(tail@ =~= rest.take(have - at));
            if !eof {
                law_cut_incremental(*params, rest, have - at);
            } else {
                assert(tail@ =~= rest);
            }
            law_cut_bounds(*params, rest);
        }
        let clen: usize = cut(params, tail, eof).unwrap();
        let chunk = vstd::slice::slice_subrange(tail, 0, clen);
        proof {
            assert(clen == cut_len(*params, rest));
            assert(chunk@ =~= rest.take(clen as int));
            assert(all.skip(count) == chunks_of(*params, rest));
            if clen >= rest.len() {
                assert(rest.take(clen as int) =~= rest);
            }
            assert(chunks_of(*params, rest).len() > 0);
            assert(all.skip(count).len() == all.len() - count);
            assert(all.skip(count)[0] == chunk@);
            assert(all[count] == chunk@);
        }
        let ghost st = storage.store();
        let c: Child = match put_chunk_entry(storage, chunk) {
            Ok(c) => c,
            Err(e) => {
                proof {
                    reveal(chunk_clash);
                }
                return Err(e);
            },
        };
        let ghost l0 = leaves@;
        let ghost h0 = hashes@;
        hashes.push(c.hash);
        leaves.push(c);
        proof {
            assert(entries_of(leaves@) =~= entries_of(l0).push(c@));
            assert(hashes_of(hashes@) =~= hashes_of(h0).push(c.hash@));
            if storage.local() {
                lemma_listed_push(st1, st, storage.store(), hashes_of(h0), c.hash@, chunk@);
            }
            let next = all.take(count + 1);
            assert(next =~= all.take(count).push(all[count]));
            assert(chunk_entries(next) =~= chunk_entries(all.take(count)).push(leaf_entry(all[count])));
            assert(digests(next) =~= digests(all.take(count)).push(blake3_digest(all[count])));
            lemma_joined_push(all.take(count), all[count]);
            assert forall|k: int| 0 <= k < next.len() implies storage.store().chunks.contains_key(
                blake3_digest(#[trigger] next[k]),
            ) && storage.store().chunks[blake3_digest(next[k])] == next[k] by {
                if k < count {
                    assert(all.take(count)[k] == next[k]);
                    assert(st.chunks.contains_key(blake3_digest(all.take(count)[k])));
                }
            }
        }
        at = at + clen;
        while head < feed.bounds.len() && feed.bounds[head].0 < at
            invariant
                true,
            decreases feed.bounds@.len() - head,
        {
            head += 1;
        }
        if at >= repl_end && head < feed.bounds.len() && feed.bounds[head].0 == at {
            // Resynchronised with an old boundary: the rest of the document is shared.
            let k: Option<Cursor> = match &feed.bounds[head].1 {
                Some(c) => Some(c.clone()),
                None => None,
            };
            proof {
                let b = feed.bounds@[head as int];
                assert(f.bound(b.0 as int, opt_view(b.1)));
                assert(opt_view(k) == opt_view(b.1));
                let j = leaf_pos(f.st0, f.top, opt_view(k));
                lemma_chunks_suffix(*params, f.w, count + 1);
                if let Some(c) = opt_view(k) {
                    lemma_path_at(f.st0, c);
                }
                lemma_leaf_at(f.st0, f.top, j);
                assert(f.w.skip(at as int) =~= f.w.skip(f.repl_end).skip(at - f.repl_end));
                assert(f.text().skip(leaf_start(f.row(), j)) =~= f.text().skip(f.to).skip(at - f.repl_end));
            }
            return Ok((leaves, hashes, k));
        }
    }
}

/// The leaf at which the window of an edit at `from` begins.
///
/// A chunk was cut knowing up to `snap` bytes after its end, so an edit that close to the
/// end of the previous leaf may move its cut, and that leaf belongs to the window too. This
/// holds whatever byte the leaf ends in: a cut that falls right after a newline by chance
/// would have moved to the next newline, had there been one within `snap` bytes.
fn window_start<S: Storage + ?Sized>(storage: &S, params: &ChunkParams, root: &crate::hash::Hash, from: u64) -> (r: Result<
    (Cursor, u64),
>)
    requires
        sound(storage.store()),
        storage.store().nodes.contains_key(root@),
        storage.store().nodes[root@].len() > 0,
    ensures
        plain_failure(r),
        storage.local() ==> r is Ok,
        r matches Ok(x) ==> {
            let st = storage.store();
            let top = st.nodes[root@];
            &&& leaf_cursor(st, top, x.0@)
            &&& x.1 == leaf_start(leaf_row(st, top), pos(st, x.0@))
            &&& x.1 <= from
            &&& x.1 == 0 || from - x.1 >= params.snap
        },
{
    let ghost st = storage.store();
    let ghost top = st.nodes[root@];
    let (mut a, mut start) = match Cursor::at_byte(storage, root, from) {
        Ok(Some(x)) => x,
        Ok(None) => {
            proof {
                assert(false);
            }
            return Err(TextdbError::Other(String::new()));
        },
        Err(e) => {
            return Err(e);
        },
    };
    while start > 0 && from - start < params.snap as u64
        invariant
            st == storage.store(),
            sound(st),
            st.nodes.contains_key(root@),
            top == st.nodes[root@],
            top.len() > 0,
            leaf_cursor(st, top, a@),
            start == leaf_start(leaf_row(st, top), pos(st, a@)),
            start <= from,
        decreases start,
    {
        match Cursor::at_byte(storage, root, start - 1) {
            Ok(Some(x)) => {
                a = x.0;
                start = x.1;
            },
            Ok(None) => {
                proof {
                    assert(false);
                }
                return Err(TextdbError::Other(String::new()));
            },
            Err(e) => {
                return Err(e);
            },
        }
    }
    Ok((a, start))
}

proof fn lemma_leaf_start_strict(st: Store, top: Seq<Entry>, i: int, j: int)
    requires
        tree_ok(st, top),
        top.len() > 0,
        0 <= i < j <= leaf_row(st, top).len(),
    ensures
        leaf_start(leaf_row(st, top), i) < leaf_start(leaf_row(st, top), j),
    decreases j - i,
{
    lemma_leaf_at(st, top, j - 1);
    if i < j - 1 {
        lemma_leaf_start_strict(st, top, i, j - 1);
    }
}

proof fn lemma_chunk_sums(cs: Seq<Seq<u8>>)
    requires
        forall|i: int| 0 <= i < cs.len() ==> (#[trigger] cs[i]).len() <= usize::MAX,
    ensures
        sum_bytes(chunk_entries(cs)) == joined(cs).len(),
    decreases cs.len(),
{
    let es = chunk_entries(cs);
    if cs.len() > 0 {
        let front = cs.drop_last();
        assert forall|i: int| 0 <= i < front.len() implies (#[trigger] front[i]).len() <= usize::MAX by {
            assert(front[i] == cs[i]);
        }
        lemma_chunk_sums(front);
        assert(es.drop_last() =~= chunk_entries(front));
        assert(front.push(cs[cs.len() - 1]) =~= cs);
        lemma_joined_push(front, cs[cs.len() - 1]);
    }
}

/// Every chunk of a text is at most as long as the text.
proof fn lemma_chunk_len(p: ChunkParams, s: Seq<u8>, i: int)
    requires
        p.valid(),
        0 <= i < chunks_of(p, s).len(),
    ensures
        0 < chunks_of(p, s)[i].len() <= s.len(),
{
    let cs = chunks_of(p, s);
    law_chunks_cover(p, s);
    assert(cs =~= cs.take(i) + cs.skip(i));
    lemma_joined_concat(cs.take(i), cs.skip(i));
    assert(cs.skip(i)[0] == cs[i]);
}

/// The leaves of a document that was chunked directly begin where its chunks begin.
pub(crate) proof fn lemma_starts_agree(p: ChunkParams, s: Seq<u8>, i: int)
    requires
        p.valid(),
        s.len() <= usize::MAX,
        0 <= i <= chunks_of(p, s).len(),
    ensures
        leaf_start(leaf_entries(p, s), i) == chunk_start(chunks_of(p, s), i),
{
    let cs = chunks_of(p, s);
    assert forall|k: int| 0 <= k < i implies (#[trigger] cs.take(i)[k]).len() <= usize::MAX by {
        lemma_chunk_len(p, s, k);
    }
    lemma_chunk_sums(cs.take(i));
    assert(leaf_entries(p, s).take(i) =~= chunk_entries(cs.take(i)));
}

pub(crate) proof fn lemma_tower_rows(st: Store, es: Seq<Entry>, top: Seq<Entry>, k: nat, i: nat)
    requires
        held(st, es, k),
        top == lift(es, k),
        i <= k,
    ensures
        row(st, top, i) == lift(es, (k - i) as nat),
    decreases i,
{
    if i > 0 {
        lemma_tower_rows(st, es, top, k, (i - 1) as nat);
        let j = (k - i) as nat;
        assert(lift(es, j + 1) == up(lift(es, j)));
        assert(nodes_held(st, groups(lift(es, j))));
        lemma_expand_up(st, groups(lift(es, j)));
        lemma_groups(lift(es, j));
    }
}

/// A stored tree that building directly gives has its levels where the store says.
proof fn lemma_canonical_rows(st: Store, p: ChunkParams, root: Seq<u8>, text: Seq<u8>)
    requires
        p.valid(),
        canonical(st, p, root, text),
        tree_ok(st, st.nodes[root]),
        st.nodes[root].len() > 0,
    ensures
        leaf_row(st, st.nodes[root]) == leaf_entries(p, text),
        canonical_rows(st, leaf_entries(p, text), st.nodes[root]),
{
    reveal(tree_held);
    let es = leaf_entries(p, text);
    let top = st.nodes[root];
    let k = choose|k: nat| #[trigger] is_top(es, k) && held(st, es, k) && st.nodes[root] == lift(es, k) && root
        == crate::node::hash_entries(lift(es, k));
    let d = height(st, top);
    if es.len() == 0 {
        assert(es =~= Seq::empty());
        lemma_lift_narrows(es, 0, k);
    }
    if d - 1 < k {
        let i = (d - 1) as nat;
        lemma_row_level(st, top, d, i);
        lemma_tower_rows(st, es, top, k, i);
        let r = row(st, top, i);
        let below = lift(es, (k - i - 1) as nat);
        lemma_lift_narrows(es, 0, (k - i) as nat);
        assert(lift(es, (k - i) as nat) == up(below));
        assert(r[0] == as_entry(groups(below)[0]));
        assert(leaf_ok(st, r[0]));
    } else if d - 1 > k {
        lemma_row_level(st, top, d, k);
        lemma_tower_rows(st, es, top, k, k);
        let r = row(st, top, k);
        assert(lift(es, 0) == es);
        assert(r[0] == leaf_entry(chunks_of(p, text)[0]));
        assert(crate::model::node_ok(st, r[0]));
    }
    assert(d == k + 1);
    lemma_tower_rows(st, es, top, k, k);
    assert(lift(es, 0) == es);
}

/// Replace bytes `[from, to)` with `replacement`. `from == to` is an insertion.
#[derive(Debug, PartialEq, Eq)]
pub struct Edit {
    pub from: u64,
    pub to: u64,
    pub replacement: Vec<u8>,
}

impl Clone for Edit {
    fn clone(&self) -> (r: Self)
        ensures
            r.from == self.from,
            r.to == self.to,
            r.replacement@ == self.replacement@,
    {
        Edit {
            from: self.from,
            to: self.to,
            replacement: vstd::slice::slice_to_vec(self.replacement.as_slice()),
        }
    }
}

/// A text with `[from, to)` replaced.
pub open spec fn replaced(text: Seq<u8>, from: int, to: int, new: Seq<u8>) -> Seq<u8> {
    text.take(from) + new + text.skip(to)
}

impl Edit {
    pub fn new(from: u64, to: u64, replacement: Vec<u8>) -> (r: Self)
        ensures
            r.from == from,
            r.to == to,
            r.replacement == replacement,
    {
        Edit { from, to, replacement }
    }

    /// How much longer the edit makes a text.
    pub fn delta(&self) -> (r: i64)
        requires
            self.from <= self.to,
            self.to - self.from <= i64::MAX,
            self.replacement@.len() <= i64::MAX,
        ensures
            r == self.replacement@.len() - (self.to - self.from),
    {
        self.replacement.len() as i64 - (self.to - self.from) as i64
    }

    /// The text after the edit.
    pub open spec fn applied(&self, text: Seq<u8>) -> Seq<u8> {
        replaced(text, self.from as int, self.to as int, self.replacement@)
    }
}

/// The new leaf row of an edited document, and its text.
#[verifier::rlimit(30)]
#[verifier::spinoff_prover]
proof fn lemma_new_row(st: Store, f: Window, a_pos: int, from: int, repl: Seq<u8>, cs: Seq<Seq<u8>>, j: int)
    requires
        f.ok(),
        grows(f.st0, st),
        0 <= a_pos < f.row().len(),
        0 <= j <= f.row().len(),
        leaf_start(f.row(), a_pos) <= from <= f.to,
        f.to <= leaf_start(f.row(), j),
        f.w == f.text().subrange(leaf_start(f.row(), a_pos), from) + repl + f.text().skip(f.to),
        chunks_held(st, cs),
        forall|i: int| 0 <= i < cs.len() ==> 0 < (#[trigger] cs[i]).len() <= usize::MAX,
        joined(cs).len() <= f.w.len(),
        joined(cs) == f.w.take(joined(cs).len() as int),
        f.w.skip(joined(cs).len() as int) == f.text().skip(leaf_start(f.row(), j)),
        f.text().len() + repl.len() <= usize::MAX,
    ensures
        a_pos <= j,
        ({
            let t = spliced(f.row(), a_pos, chunk_entries(cs), j);
            let text = replaced(f.text(), from, f.to, repl);
            &&& level_ok(st, t, 1)
            &&& level_text(st, t, 1) == text
            &&& sum_bytes(t) <= usize::MAX
            &&& sum_lines(t) <= usize::MAX
        }),
{
    let row = f.row();
    let text = f.text();
    if j < a_pos {
        lemma_leaf_start_strict(f.st0, f.top, j, a_pos);
    }
    lemma_leaf_at(f.st0, f.top, a_pos);
    lemma_leaf_at(f.st0, f.top, j);
    lemma_level_grows(f.st0, st, row.take(a_pos), 1);
    lemma_level_grows(f.st0, st, row.skip(j), 1);
    lemma_chunk_entries(st, cs);
    let es = chunk_entries(cs);
    let t = spliced(row, a_pos, es, j);
    lemma_level_concat(st, row.take(a_pos), es, 1);
    lemma_level_concat(st, row.take(a_pos) + es, row.skip(j), 1);
    lemma_leaf_text_concat(st, row.take(a_pos), es);
    lemma_leaf_text_concat(st, row.take(a_pos) + es, row.skip(j));
    let s = leaf_start(row, a_pos);
    let n = joined(cs).len() as int;
    assert(f.w.take(n) + f.w.skip(n) =~= f.w);
    assert(leaf_text(st, t) =~= text.take(s) + f.w);
    assert(text.take(s) + f.w =~= replaced(text, from, f.to, repl));
    lemma_leaf_sums(st, t);
    lemma_newlines_bound(leaf_text(st, t));
}

/// Where the old document was chunked directly, so is the new one.
#[verifier::rlimit(50)]
proof fn lemma_new_row_canonical(p: ChunkParams, f: Window, a_pos: int, from: int, repl: Seq<u8>, n: int, j: int)
    requires
        p.valid(),
        p.min < p.max,
        f.ok(),
        f.row() == leaf_entries(p, f.text()),
        f.text().len() + repl.len() <= usize::MAX,
        0 <= a_pos < f.row().len(),
        a_pos <= j <= f.row().len(),
        leaf_start(f.row(), a_pos) <= from <= f.to,
        leaf_start(f.row(), a_pos) == 0 || from - leaf_start(f.row(), a_pos) >= p.snap,
        f.w == f.text().subrange(leaf_start(f.row(), a_pos), from) + repl + f.text().skip(f.to),
        0 <= n <= chunks_of(p, f.w).len(),
        f.w.skip(chunk_start(chunks_of(p, f.w), n)) == f.text().skip(leaf_start(f.row(), j)),
    ensures
        spliced(f.row(), a_pos, chunk_entries(chunks_of(p, f.w).take(n)), j) == leaf_entries(
            p,
            replaced(f.text(), from, f.to, repl),
        ),
        chunks_of(p, replaced(f.text(), from, f.to, repl)) == chunks_of(p, f.text()).take(a_pos) + chunks_of(p, f.w),
{
    let text = f.text();
    let new = replaced(text, from, f.to, repl);
    let old_cs = chunks_of(p, text);
    let all = chunks_of(p, f.w);
    lemma_starts_agree(p, text, a_pos);
    lemma_starts_agree(p, text, j);
    let s = leaf_start(f.row(), a_pos);
    if a_pos > 0 {
        // The leaves before `a_pos` are not empty, so it does not begin at 0.
        lemma_leaf_start_strict(f.st0, f.top, 0, a_pos);
        assert(leaf_start(f.row(), 0) == 0) by {
            assert(f.row().take(0) =~= Seq::empty());
        }
    }
    assert(text.take(from) =~= new.take(from));
    lemma_chunks_prefix(p, text, new, from, a_pos);
    assert(new.skip(s) =~= f.w);
    lemma_chunks_suffix(p, f.w, n);
    lemma_chunks_suffix(p, text, j);
    assert(all.skip(n) == old_cs.skip(j));
    assert(all =~= all.take(n) + all.skip(n));
    let t = spliced(f.row(), a_pos, chunk_entries(all.take(n)), j);
    assert(t =~= chunk_entries(old_cs.take(a_pos) + all.take(n) + old_cs.skip(j)));
    assert(old_cs.take(a_pos) + all =~= old_cs.take(a_pos) + all.take(n) + old_cs.skip(j));
}

/// The window of an edit that begins at byte `start`.
pub open spec fn window_of(st: Store, top: Seq<Entry>, start: int, e: Edit) -> Window {
    let text = tree_text(st, top);
    Window {
        st0: st,
        top,
        to: e.to as int,
        w: text.subrange(start, e.from as int) + e.replacement@ + text.skip(e.to as int),
        repl_end: e.from - start + e.replacement@.len(),
    }
}

/// Read the bytes before the edit and stand at the first old leaf after it.
fn open_window<S: Storage + ?Sized>(storage: &S, root: &crate::hash::Hash, e: &Edit, start: u64, len: u64) -> (r: Result<
    Feed,
>)
    requires
        sound(storage.store()),
        storage.store().nodes.contains_key(root@),
        storage.store().nodes[root@].len() > 0,
        start <= e.from <= e.to <= len,
        len == doc(storage.store(), root@).len(),
        len + e.replacement@.len() <= usize::MAX,
    ensures
        plain_failure(r),
        storage.local() ==> r is Ok,
        r matches Ok(feed) ==> feed.ok(window_of(storage.store(), storage.store().nodes[root@], start as int, *e))
            && feed.buf@.len() == e.from - start + e.replacement@.len(),
{
    let ghost st0 = storage.store();
    let ghost top = st0.nodes[root@];
    let ghost text = doc(st0, root@);
    let ghost repl = e.replacement@;
    let ghost f = window_of(st0, top, start as int, *e);
    // Window: [start, from) ++ replacement ++ old bytes from `to`.
    let mut buf = match materialize_range(storage, root, start, e.from) {
        Ok(b) => b,
        Err(err) => {
            return Err(err);
        },
    };
    let ghost head = text.subrange(start as int, e.from as int);
    assert(buf@ =~= head);
    buf.extend_from_slice(e.replacement.as_slice());
    let repl_end: usize = buf.len();
    assert(buf@ =~= head + repl);
    assert(f.w.take(repl_end as int) =~= buf@);
    assert(f.w.skip(repl_end as int) =~= text.skip(e.to as int));
    let mut bounds: Vec<(usize, Option<Cursor>)> = Vec::new();
    let mut suffix: Option<Cursor> = None;
    let mut skip: usize = 0;
    if e.to < len {
        match Cursor::at_byte(storage, root, e.to) {
            Ok(Some((c, leaf))) => {
                proof {
                    lemma_path_at(st0, c@);
                    lemma_leaf_at(st0, top, pos(st0, c@));
                    lemma_leaf_at(st0, top, pos(st0, c@) + 1);
                }
                if leaf == e.to {
                    bounds.push((repl_end, Some(c.clone())));
                }
                skip = (e.to - leaf) as usize;
                suffix = Some(c);
            },
            Ok(None) => {},
            Err(err) => {
                return Err(err);
            },
        }
    } else {
        assert(text.skip(e.to as int) =~= Seq::empty());
    }
    Ok(Feed { buf, suffix, skip, bounds })
}

/// What is handed to `replace_entries` is the new document's leaf row.
proof fn lemma_ready(
    st0: Store,
    st1: Store,
    p: ChunkParams,
    root: Seq<u8>,
    e: Edit,
    a: Seq<FrameView>,
    start: int,
    n: int,
    k: Option<Seq<FrameView>>,
)
    requires
        p.valid(),
        sound(st0),
        st0.nodes.contains_key(root),
        st0.nodes[root].len() > 0,
        grows(st0, st1),
        e.from <= e.to <= doc(st0, root).len(),
        doc(st0, root).len() + e.replacement@.len() <= usize::MAX,
        leaf_cursor(st0, st0.nodes[root], a),
        start == leaf_start(leaf_row(st0, st0.nodes[root]), pos(st0, a)),
        start <= e.from,
        start == 0 || e.from - start >= p.snap,
        ({
            let top = st0.nodes[root];
            let f = window_of(st0, top, start, e);
            let all = chunks_of(p, f.w);
            let j = leaf_pos(st0, top, k);
            &&& f.ok()
            &&& 0 <= n <= all.len()
            &&& chunks_held(st1, all.take(n))
            &&& leaf_cursor_opt(st0, top, k)
            &&& leaf_start(f.row(), j) >= f.to
            &&& 0 <= chunk_start(all, n) <= f.w.len()
            &&& f.w.skip(chunk_start(all, n)) == f.text().skip(leaf_start(f.row(), j))
        }),
    ensures
        ({
            let top = st0.nodes[root];
            let f = window_of(st0, top, start, e);
            let es = chunk_entries(chunks_of(p, f.w).take(n));
            let row = row_of(st1, a);
            let t = spliced(row, pos(st1, a), es, suffix_pos(st1, k, row.len() as int));
            let new = e.applied(doc(st0, root));
            &&& cursor_ok(st1, a)
            &&& in_order(st1, a, k)
            &&& height(st1, a[0].node) == a.len()
            &&& level_ok(st1, t, 1)
            &&& level_text(st1, t, 1) == new
            &&& sum_bytes(t) <= usize::MAX
            &&& sum_lines(t) <= usize::MAX
            &&& canonical(st0, p, root, doc(st0, root)) && p.min < p.max ==> canonical_rows(st1, row, a[0].node) && t
                == leaf_entries(p, new)
        }),
{
    let top = st0.nodes[root];
    let f = window_of(st0, top, start, e);
    let all = chunks_of(p, f.w);
    let cs = all.take(n);
    let j = leaf_pos(st0, top, k);
    let a_pos = pos(st0, a);
    lemma_path_at(st0, a);
    lemma_cursor_grows(st0, st1, a);
    if let Some(c) = k {
        lemma_path_at(st0, c);
        lemma_cursor_grows(st0, st1, c);
    }
    assert forall|i: int| 0 <= i < cs.len() implies 0 < (#[trigger] cs[i]).len() <= usize::MAX by {
        lemma_chunk_len(p, f.w, i);
    }
    law_chunks_cover(p, f.w);
    assert(all =~= all.take(n) + all.skip(n));
    lemma_joined_concat(all.take(n), all.skip(n));
    assert(joined(cs) =~= f.w.take(joined(cs).len() as int));
    lemma_new_row(st1, f, a_pos, e.from as int, e.replacement@, cs, j);
    lemma_tree_grows(st0, st1, top);
    if canonical(st0, p, root, doc(st0, root)) && p.min < p.max {
        lemma_canonical_rows(st0, p, root, doc(st0, root));
        lemma_new_row_canonical(p, f, a_pos, e.from as int, e.replacement@, n, j);
        lemma_rows_grow(st0, st1, leaf_row(st0, top), top);
    }
}

/// Apply one edit.
fn apply_one<S: Storage + ?Sized>(storage: &mut S, params: &ChunkParams, root: &crate::hash::Hash, e: &Edit) -> (r: Result<
    (crate::hash::Hash, Vec<crate::hash::Hash>, usize),
>)
    requires
        params.valid(),
        params.min < params.max + params.snap,
        sound(old(storage).store()),
        old(storage).store().nodes.contains_key(root@),
        e.from <= e.to <= doc(old(storage).store(), root@).len(),
        doc(old(storage).store(), root@).len() + e.replacement@.len() <= usize::MAX,
    ensures
        plain_failure(r),
        final(storage).local() == old(storage).local(),
        grows(old(storage).store(), final(storage).store()),
        sound(final(storage).store()),
        old(storage).local() ==> final(storage).store().roots == old(storage).store().roots,
        ({
            let st = old(storage).store();
            let fin = final(storage).store();
            let text = doc(st, root@);
            let new = e.applied(text);
            let can = canonical(st, *params, root@, text) && params.min < params.max;
            &&& r matches Ok(x) ==> {
                &&& fin.nodes.contains_key(x.0@)
                &&& doc(fin, x.0@) == new
                &&& can ==> canonical(fin, *params, x.0@, new)
                &&& x.2 == x.1@.len()
                &&& old(storage).local() ==> new_chunks_listed(st, fin, hashes_of(x.1@))
            }
            &&& r is Err && can && old(storage).local() ==> text_clash(fin, *params, new) || !ends_within(
                leaf_entries(*params, new),
                MAX_LEVELS as nat,
            )
        }),
{
    let ghost st0 = storage.store();
    let ghost top = st0.nodes[root@];
    let ghost text = doc(st0, root@);
    let ghost new = e.applied(text);
    let node = match storage.node(root) {
        Ok(n) => n,
        Err(err) => {
            return Err(err);
        },
    };
    proof {
        lemma_doc_sums(st0, node@);
    }
    let len: u64 = node.nbytes();
    if node.children.len() == 0 {
        assert(new =~= e.replacement@);
        return match build_with_chunks(storage, params, e.replacement.as_slice()) {
            Ok((h, chunks)) => {
                let n: usize = chunks.len();
                Ok((h, chunks, n))
            },
            Err(err) => Err(err),
        };
    }
    let (a, start) = match window_start(storage, params, root, e.from) {
        Ok(x) => x,
        Err(err) => {
            return Err(err);
        },
    };
    let feed = match open_window(storage, root, e, start, len) {
        Ok(x) => x,
        Err(err) => {
            return Err(err);
        },
    };
    let ghost f = window_of(st0, top, start as int, *e);
    let repl_end: usize = feed.buf.len();
    let ghost can = canonical(st0, *params, root@, text) && params.min < params.max;
    let (leaves, hashes, k) = match rechunk(storage, params, feed, repl_end, Ghost(f)) {
        Ok(x) => x,
        Err(err) => {
            proof {
                if can && storage.local() {
                    lemma_canonical_rows(st0, *params, root@, text);
                    lemma_path_at(st0, a@);
                    lemma_clash_in_window(
                        *params,
                        f,
                        pos(st0, a@),
                        e.from as int,
                        e.replacement@,
                        storage.store(),
                    );
                }
            }
            return Err(err);
        },
    };
    let ghost st1 = storage.store();
    proof {
        lemma_ready(st0, st1, *params, root@, *e, a@, start as int, leaves@.len() as int, opt_view(k));
    }
    let count: usize = leaves.len();
    let ghost row = row_of(st1, a@);
    let ghost t = spliced(row, pos(st1, a@), entries_of(leaves@), suffix_pos(st1, opt_view(k), row.len() as int));
    match replace_entries(storage, a, k, leaves) {
        Ok(h) => {
            assert(can ==> canonical(storage.store(), *params, h@, new));
            assert(hashes_of(hashes@).len() == hashes@.len());
            Ok((h, hashes, count))
        },
        Err(err) => {
            assert(can ==> t == leaf_entries(*params, new));
            Err(err)
        },
    }
}

proof fn lemma_rows_grow(a: Store, b: Store, leaves: Seq<Entry>, top: Seq<Entry>)
    requires
        grows(a, b),
        top.len() > 0,
        tree_ok(a, top),
        canonical_rows(a, leaves, top),
    ensures
        canonical_rows(b, leaves, top),
{
    lemma_tree_grows(a, b, top);
    let d = height(a, top);
    crate::rebuild::lemma_row_grows(a, b, top, (d - 1) as nat);
    crate::levels::lemma_held_grows(a, b, leaves, (d - 1) as nat);
}

/// A clash among the window's chunks is one among the new document's.
proof fn lemma_clash_in_window(p: ChunkParams, f: Window, a_pos: int, from: int, repl: Seq<u8>, fin: Store)
    requires
        p.valid(),
        p.min < p.max,
        f.ok(),
        f.row() == leaf_entries(p, f.text()),
        f.text().len() + repl.len() <= usize::MAX,
        0 <= a_pos < f.row().len(),
        leaf_start(f.row(), a_pos) <= from <= f.to,
        leaf_start(f.row(), a_pos) == 0 || from - leaf_start(f.row(), a_pos) >= p.snap,
        f.w == f.text().subrange(leaf_start(f.row(), a_pos), from) + repl + f.text().skip(f.to),
        chunk_clash(fin, chunks_of(p, f.w)),
    ensures
        chunk_clash(fin, chunks_of(p, replaced(f.text(), from, f.to, repl))),
{
    reveal(chunk_clash);
    let all = chunks_of(p, f.w);
    let n = all.len() as int;
    lemma_chunks_suffix(p, f.w, n);
    law_chunks_cover(p, f.w);
    assert(all.take(n) =~= all);
    lemma_leaf_at(f.st0, f.top, f.row().len() as int);
    assert(f.w.skip(chunk_start(all, n)) =~= f.text().skip(leaf_start(f.row(), f.row().len() as int)));
    lemma_new_row_canonical(p, f, a_pos, from, repl, n, f.row().len() as int);
    let new_cs = chunks_of(p, replaced(f.text(), from, f.to, repl));
    let i = choose|i: int|
        0 <= i < all.len() && fin.chunks.contains_key(blake3_digest(#[trigger] all[i])) && fin.chunks[blake3_digest(
            all[i],
        )] != all[i];
    assert(new_cs[a_pos + i] == all[i]);
}

#[derive(Debug)]
pub struct EditResult {
    pub root: crate::hash::Hash,
    /// Chunk hashes produced by the edit (superset of the new ones; bindings dedupe).
    pub new_chunks: Vec<crate::hash::Hash>,
    /// Changed byte range in the new root's coordinates.
    pub changed: (u64, u64),
    /// Number of leaves produced across all re-chunk windows.
    pub leaves_written: usize,
}

impl Clone for EditResult {
    fn clone(&self) -> (r: Self)
        ensures
            r.root == self.root,
            r.new_chunks@ == self.new_chunks@,
            r.changed == self.changed,
            r.leaves_written == self.leaves_written,
    {
        EditResult {
            root: self.root,
            new_chunks: vstd::slice::slice_to_vec(self.new_chunks.as_slice()),
            changed: self.changed,
            leaves_written: self.leaves_written,
        }
    }
}

/// Edits within `len` that follow one another without overlapping.
pub open spec fn edits_valid(es: Seq<Edit>, len: int) -> bool {
    &&& forall|i: int| 0 <= i < es.len() ==> (#[trigger] es[i]).from <= es[i].to <= len
    &&& forall|i: int, j: int| 0 <= i < j < es.len() ==> (#[trigger] es[i]).to <= (#[trigger] es[j]).from
}

/// The first thing wrong with edit `i`: it is out of bounds, or begins before its
/// predecessor ended.
pub open spec fn edit_fault(es: Seq<Edit>, len: int, i: int) -> Option<Seq<char>> {
    if es[i].from > es[i].to || es[i].to > len {
        Some(
            "edit "@ + dec(i as nat) + " range "@ + dec(es[i].from as nat) + ".."@ + dec(es[i].to as nat)
                + " out of bounds (len "@ + dec(len as nat) + ")"@,
        )
    } else if i > 0 && es[i].from < es[i - 1].to {
        Some(
            "edit "@ + dec(i as nat) + " starts at "@ + dec(es[i].from as nat) + " before previous edit ended at "@
                + dec(es[i - 1].to as nat),
        )
    } else {
        None
    }
}

/// Validate that edits are non-overlapping, ascending and within `len`.
pub fn validate_edits(edits: &[Edit], len: u64) -> (r: Result<()>)
    ensures
        r is Ok <==> edits_valid(edits@, len as int),
        r matches Err(e) ==> {
            &&& e is InvalidEdit
            &&& exists|i: int|
                0 <= i < edits@.len() && #[trigger] edit_fault(edits@, len as int, i) == Some(e->InvalidEdit_0@) && (
                forall|j: int| 0 <= j < i ==> #[trigger] edit_fault(edits@, len as int, j) is None)
        },
{
    let mut i: usize = 0;
    while i < edits.len()
        invariant
            i <= edits@.len(),
            edits_valid(edits@.take(i as int), len as int),
            forall|j: int| 0 <= j < i ==> #[trigger] edit_fault(edits@, len as int, j) is None,
        decreases edits@.len() - i,
    {
        let e = &edits[i];
        let ghost g = edit_fault(edits@, len as int, i as int);
        if e.from > e.to || e.to > len {
            let mut m = String::from_str("edit ");
            m.append(decimal(i as u64).as_str());
            m.append(" range ");
            m.append(decimal(e.from).as_str());
            m.append("..");
            m.append(decimal(e.to).as_str());
            m.append(" out of bounds (len ");
            m.append(decimal(len).as_str());
            m.append(")");
            assert(g == Some(m@));
            return Err(TextdbError::InvalidEdit(m));
        }
        if i > 0 && e.from < edits[i - 1].to {
            let mut m = String::from_str("edit ");
            m.append(decimal(i as u64).as_str());
            m.append(" starts at ");
            m.append(decimal(e.from).as_str());
            m.append(" before previous edit ended at ");
            m.append(decimal(edits[i - 1].to).as_str());
            assert(g == Some(m@));
            return Err(TextdbError::InvalidEdit(m));
        }
        proof {
            let a = edits@.take(i as int);
            let b = edits@.take(i + 1);
            assert forall|k: int| 0 <= k < b.len() implies (#[trigger] b[k]).from <= b[k].to <= len by {
                if k < i {
                    assert(b[k] == a[k]);
                }
            }
            assert forall|k: int, j: int| 0 <= k < j < b.len() implies (#[trigger] b[k]).to <= (#[trigger] b[j]).from by {
                if j < i {
                    assert(b[k] == a[k] && b[j] == a[j]);
                } else if k < i - 1 {
                    assert(a[k].to <= a[i - 1].from);
                    assert(a[i - 1].from <= a[i - 1].to);
                } else {
                    assert(k == i - 1);
                }
            }
        }
        i += 1;
    }
    assert(edits@.take(i as int) =~= edits@);
    Ok(())
}

/// A text after all edits. The last goes first, so earlier offsets stay valid.
pub open spec fn edited(text: Seq<u8>, es: Seq<Edit>) -> Seq<u8>
    decreases es.len(),
{
    if es.len() == 0 {
        text
    } else {
        edited(es.last().applied(text), es.drop_last())
    }
}

/// Bytes the edits bring.
pub open spec fn bytes_added(es: Seq<Edit>) -> nat
    decreases es.len(),
{
    if es.len() == 0 {
        0
    } else {
        bytes_added(es.drop_last()) + es.last().replacement@.len()
    }
}

/// Bytes the edits take away.
pub open spec fn bytes_removed(es: Seq<Edit>) -> int
    decreases es.len(),
{
    if es.len() == 0 {
        0
    } else {
        bytes_removed(es.drop_last()) + (es.last().to - es.last().from)
    }
}

/// Valid edits stay valid when the last one has been applied.
pub proof fn lemma_edits_front(text: Seq<u8>, es: Seq<Edit>)
    requires
        es.len() > 0,
        edits_valid(es, text.len() as int),
    ensures
        edits_valid(es.drop_last(), es.last().applied(text).len() as int),
        es.last().applied(text).len() == text.len() + es.last().replacement@.len() - (es.last().to - es.last().from),
        es.drop_last().len() > 0 ==> es.drop_last().last().to <= es.last().from,
{
    let front = es.drop_last();
    assert(es[es.len() - 1] == es.last());
    assert forall|i: int| 0 <= i < front.len() implies (#[trigger] front[i]).from <= front[i].to <= es.last().applied(
        text,
    ).len() by {
        assert(front[i] == es[i]);
        assert(es[i].to <= es[es.len() - 1].from);
    }
    assert forall|i: int, j: int| 0 <= i < j < front.len() implies (#[trigger] front[i]).to <= (#[trigger] front[j]).from by {
        assert(front[i] == es[i] && front[j] == es[j]);
    }
    if front.len() > 0 {
        assert(es[front.len() - 1].to <= es[es.len() - 1].from);
    }
}

pub proof fn lemma_edited_len(text: Seq<u8>, es: Seq<Edit>)
    requires
        edits_valid(es, text.len() as int),
    ensures
        edited(text, es).len() == text.len() + bytes_added(es) - bytes_removed(es),
        0 <= bytes_removed(es),
        es.len() > 0 ==> bytes_removed(es) <= es.last().to - es[0].from,
    decreases es.len(),
{
    if es.len() > 0 {
        lemma_edits_front(text, es);
        let front = es.drop_last();
        lemma_edited_len(es.last().applied(text), front);
        assert(es[es.len() - 1] == es.last());
        if front.len() > 0 {
            assert(front[0] == es[0]);
        }
    }
}

/// The tree over some text between the edits cannot be stored.
pub open spec fn edits_clash(st: Store, p: ChunkParams, text: Seq<u8>, es: Seq<Edit>) -> bool {
    exists|i: int|
        0 <= i < es.len() && (text_clash(st, p, #[trigger] edited(text, es.skip(i))) || !ends_within(
            leaf_entries(p, edited(text, es.skip(i))),
            MAX_LEVELS as nat,
        ))
}

/// What a successful edit of `root` returned.
pub open spec fn edit_result(
    st: Store,
    fin: Store,
    p: ChunkParams,
    root: Seq<u8>,
    es: Seq<Edit>,
    x: EditResult,
    local: bool,
) -> bool {
    let text = doc(st, root);
    &&& st.nodes.contains_key(root)
    &&& edits_valid(es, text.len() as int)
    &&& fin.nodes.contains_key(x.root@)
    &&& doc(fin, x.root@) == edited(text, es)
    &&& canonical(st, p, root, text) && p.min < p.max ==> canonical(fin, p, x.root@, edited(text, es))
    &&& x.leaves_written == x.new_chunks@.len()
    &&& local ==> new_chunks_listed(st, fin, hashes_of(x.new_chunks@))
    &&& es.len() == 0 ==> x.root@ == root && x.new_chunks@.len() == 0 && x.changed == (0u64, 0u64)
    &&& es.len() > 0 ==> x.changed.0 == es[0].from && x.changed.1 == es.last().to + bytes_added(es) - bytes_removed(es)
}

proof fn lemma_listed_chain(a: Store, b: Store, c: Store, x: Seq<Seq<u8>>, y: Seq<Seq<u8>>)
    requires
        new_chunks_listed(a, b, x),
        new_chunks_listed(b, c, y),
    ensures
        new_chunks_listed(a, c, x + y),
{
    let z = x + y;
    assert forall|h: Seq<u8>| #[trigger] c.chunks.contains_key(h) implies a.chunks.contains_key(h) || z.contains(h) by {
        if b.chunks.contains_key(h) {
            if !a.chunks.contains_key(h) {
                let i = choose|i: int| 0 <= i < x.len() && x[i] == h;
                assert(z[i] == h);
            }
        } else {
            let i = choose|i: int| 0 <= i < y.len() && y[i] == h;
            assert(z[x.len() + i] == h);
        }
    }
}

proof fn lemma_edited_skip(text: Seq<u8>, es: Seq<Edit>, i: int)
    requires
        0 < i <= es.len(),
    ensures
        edited(text, es.skip(i - 1)) == es[i - 1].applied(edited(text, es.skip(i))),
    decreases es.len() - i,
{
    let a = es.skip(i - 1);
    if i == es.len() {
        assert(es.skip(i) =~= Seq::empty());
        assert(a.drop_last() =~= Seq::empty());
        reveal_with_fuel(edited, 2);
    } else {
        let front = es.drop_last();
        lemma_edited_skip(es.last().applied(text), front, i);
        assert(a.drop_last() =~= front.skip(i - 1));
        assert(es.skip(i).drop_last() =~= front.skip(i));
        assert(a.last() == es.last());
        assert(es.skip(i).last() == es.last());
    }
}

proof fn lemma_edits_suffix(text: Seq<u8>, es: Seq<Edit>, i: int)
    requires
        edits_valid(es, text.len() as int),
        0 <= i <= es.len(),
    ensures
        edited(text, es.skip(i)).len() <= text.len() + bytes_added(es.skip(i)),
        i > 0 ==> es[i - 1].from <= es[i - 1].to <= edited(text, es.skip(i)).len(),
        bytes_added(es.skip(i)) <= bytes_added(es),
        i > 0 ==> bytes_added(es.skip(i)) + es[i - 1].replacement@.len() <= bytes_added(es),
{
    let tail = es.skip(i);
    assert forall|k: int| 0 <= k < tail.len() implies (#[trigger] tail[k]).from <= tail[k].to <= text.len() by {
        assert(tail[k] == es[i + k]);
    }
    assert forall|k: int, j: int| 0 <= k < j < tail.len() implies (#[trigger] tail[k]).to <= (#[trigger] tail[j]).from by {
        assert(tail[k] == es[i + k] && tail[j] == es[i + j]);
    }
    lemma_edited_len(text, tail);
    lemma_added_concat(es.take(i), tail);
    assert(es.take(i) + tail =~= es);
    if i > 0 {
        assert(es.take(i).last() == es[i - 1]);
        if tail.len() > 0 {
            assert(es[i - 1].to <= es[i].from);
            assert(tail[0] == es[i]);
            assert(bytes_removed(tail) <= tail.last().to - tail[0].from);
            assert(tail.last() == es[es.len() - 1]);
        }
    }
}

pub proof fn lemma_added_concat(a: Seq<Edit>, b: Seq<Edit>)
    ensures
        bytes_added(a + b) == bytes_added(a) + bytes_added(b),
    decreases b.len(),
{
    if b.len() == 0 {
        assert(a + b =~= a);
    } else {
        lemma_added_concat(a, b.drop_last());
        assert((a + b).drop_last() =~= a + b.drop_last());
    }
}

/// Apply an edit set to `root` and return the new root.
#[verifier::rlimit(40)]
pub fn apply_edits<S: Storage + ?Sized>(storage: &mut S, params: &ChunkParams, root: &crate::hash::Hash, edits: &[Edit]) -> (r:
    Result<EditResult>)
    requires
        params.valid(),
        params.min < params.max + params.snap,
        sound(old(storage).store()),
        old(storage).store().nodes.contains_key(root@) ==> doc(old(storage).store(), root@).len() + bytes_added(edits@)
            <= usize::MAX,
    ensures
        unraced(r),
        final(storage).local() == old(storage).local(),
        grows(old(storage).store(), final(storage).store()),
        sound(final(storage).store()),
        old(storage).local() ==> final(storage).store().roots == old(storage).store().roots,
        r matches Ok(x) ==> edit_result(
            old(storage).store(),
            final(storage).store(),
            *params,
            root@,
            edits@,
            x,
            old(storage).local(),
        ),
        old(storage).local() && !old(storage).store().nodes.contains_key(root@) ==> missing_node(r, root@),
        edits@.len() == 0 ==> final(storage).store() == old(storage).store(),
        old(storage).local() && old(storage).store().nodes.contains_key(root@) ==> (!edits_valid(
            edits@,
            doc(old(storage).store(), root@).len() as int,
        ) <==> r matches Err(TextdbError::InvalidEdit(_))),
        r matches Err(TextdbError::InvalidEdit(_)) ==> old(storage).store().nodes.contains_key(root@) && !edits_valid(
            edits@,
            doc(old(storage).store(), root@).len() as int,
        ) && final(storage).store() == old(storage).store(),
        r is Err && old(storage).local() && params.min < params.max && canonical(
            old(storage).store(),
            *params,
            root@,
            doc(old(storage).store(), root@),
        ) && edits_valid(edits@, doc(old(storage).store(), root@).len() as int) && old(storage).store().nodes.contains_key(
            root@,
        ) ==> edits_clash(final(storage).store(), *params, doc(old(storage).store(), root@), edits@),
{
    let ghost st0 = storage.store();
    let ghost text = doc(st0, root@);
    let node = match storage.node(root) {
        Ok(n) => n,
        Err(e) => {
            return Err(e);
        },
    };
    proof {
        lemma_doc_sums(st0, node@);
    }
    let len: u64 = node.nbytes();
    match validate_edits(edits, len) {
        Ok(_) => {},
        Err(e) => {
            return Err(e);
        },
    }
    if edits.len() == 0 {
        return Ok(EditResult { root: *root, new_chunks: Vec::new(), changed: (0, 0), leaves_written: 0 });
    }
    let mut cur = *root;
    let mut new_chunks: Vec<crate::hash::Hash> = Vec::new();
    let mut added: u64 = 0;
    let mut removed: u64 = 0;
    // Descending order keeps earlier offsets valid.
    let mut i: usize = edits.len();
    let ghost can = canonical(st0, *params, root@, text) && params.min < params.max;
    proof {
        assert(edits@.skip(i as int) =~= Seq::empty());
        assert(edited(text, edits@.skip(i as int)) == text);
        lemma_edited_len(text, edits@);
    }
    while i > 0
        invariant
            i <= edits@.len(),
            edits@.len() > 0,
            params.valid(),
            params.min < params.max + params.snap,
            storage.local() == old(storage).local(),
            st0 == old(storage).store(),
            text == doc(st0, root@),
            st0.nodes.contains_key(root@),
            grows(st0, storage.store()),
            sound(storage.store()),
            old(storage).local() ==> storage.store().roots == st0.roots,
            old(storage).local() ==> new_chunks_listed(st0, storage.store(), hashes_of(new_chunks@)),
            edits_valid(edits@, text.len() as int),
            text.len() + bytes_added(edits@) <= usize::MAX,
            can == (canonical(st0, *params, root@, text) && params.min < params.max),
            storage.store().nodes.contains_key(cur@),
            doc(storage.store(), cur@) == edited(text, edits@.skip(i as int)),
            can ==> canonical(storage.store(), *params, cur@, edited(text, edits@.skip(i as int))),
            added == bytes_added(edits@.skip(i as int)),
            removed == bytes_removed(edits@.skip(i as int)),
        decreases i,
    {
        let ghost st = storage.store();
        let e = &edits[i - 1];
        proof {
            lemma_edits_suffix(text, edits@, i as int);
            lemma_edited_skip(text, edits@, i as int);
            lemma_skip_sums(edits@, i as int, text.len() as int);
        }
        let (h, mut chunks, _n) = match apply_one(storage, params, &cur, e) {
            Ok(x) => x,
            Err(err) => {
                return Err(err);
            },
        };
        cur = h;
        let ghost c0 = new_chunks@;
        let ghost c1 = chunks@;
        new_chunks.append(&mut chunks);
        proof {
            assert(new_chunks@ =~= c0 + c1);
            assert(hashes_of(new_chunks@) =~= hashes_of(c0) + hashes_of(c1));
            if storage.local() {
                lemma_listed_chain(st0, st, storage.store(), hashes_of(c0), hashes_of(c1));
            }
        }
        added = added + e.replacement.len() as u64;
        removed = removed + (e.to - e.from);
        i -= 1;
    }
    assert(edits@.skip(0) =~= edits@);
    let lo: u64 = edits[0].from;
    proof {
        assert(edits@.last().to <= text.len());
    }
    let hi: u64 = edits[edits.len() - 1].to - removed + added;
    let leaves_written: usize = new_chunks.len();
    Ok(EditResult { root: cur, new_chunks, changed: (lo, hi), leaves_written })
}

proof fn lemma_skip_sums(es: Seq<Edit>, i: int, len: int)
    requires
        0 < i <= es.len(),
        edits_valid(es, len),
    ensures
        bytes_added(es.skip(i - 1)) == bytes_added(es.skip(i)) + es[i - 1].replacement@.len(),
        bytes_removed(es.skip(i - 1)) == bytes_removed(es.skip(i)) + (es[i - 1].to - es[i - 1].from),
        0 <= bytes_removed(es.skip(i - 1)) <= len,
    decreases es.len() - i,
{
    let a = es.skip(i - 1);
    let b = es.skip(i);
    assert(a =~= seq![es[i - 1]] + b);
    lemma_added_concat(seq![es[i - 1]], b);
    lemma_removed_concat(seq![es[i - 1]], b);
    reveal_with_fuel(bytes_added, 2);
    reveal_with_fuel(bytes_removed, 2);
    assert(seq![es[i - 1]].drop_last() =~= Seq::empty());
    lemma_removed_bound(es, i - 1, len);
}

proof fn lemma_removed_concat(a: Seq<Edit>, b: Seq<Edit>)
    ensures
        bytes_removed(a + b) == bytes_removed(a) + bytes_removed(b),
    decreases b.len(),
{
    if b.len() == 0 {
        assert(a + b =~= a);
    } else {
        lemma_removed_concat(a, b.drop_last());
        assert((a + b).drop_last() =~= a + b.drop_last());
    }
}

proof fn lemma_removed_bound(es: Seq<Edit>, i: int, len: int)
    requires
        0 <= i <= es.len(),
        edits_valid(es, len),
    ensures
        0 <= bytes_removed(es.skip(i)),
        i < es.len() ==> bytes_removed(es.skip(i)) <= len - es[i].from,
    decreases es.len() - i,
{
    let t = es.skip(i);
    if i < es.len() {
        lemma_removed_bound(es, i + 1, len);
        assert(t =~= seq![es[i]] + es.skip(i + 1));
        lemma_removed_concat(seq![es[i]], es.skip(i + 1));
        reveal_with_fuel(bytes_removed, 2);
        assert(seq![es[i]].drop_last() =~= Seq::empty());
        if i + 1 < es.len() {
            assert(es[i].to <= es[i + 1].from);
        } else {
            assert(es.skip(i + 1) =~= Seq::empty());
        }
    }
}

} // verus!
