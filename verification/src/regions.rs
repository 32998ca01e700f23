//! Diffs of two documents at line granularity.

use vstd::prelude::*;
use vstd::string::*;
use crate::chunker::{joined, lemma_newlines_bound, newlines};
use crate::diff::{changed_runs, reads_both, run_views, runs_between, runs_turn, ChangedRun};
use crate::lines::{is_line, lemma_first_line, lemma_lines, line_len, lines_of, slice_views, split_lines};
use crate::merge::push_lines;
use crate::model::{doc, sound, Store};
use crate::myers::{
    corner, hunk_views, law_hunks_differ, lemma_diff_of, lemma_text_hunks, lemma_turns_fit, line_diff, text_hunks, turns, Hunk,
    HunkView, Point, MAX_LINE_EDITS,
};
use crate::node::Child;
use crate::storage::{plain_failure, Result, Storage};
use crate::tree::{
    clip, doc_leaves, law_line_start_unique, leaves, lemma_doc_sums, lemma_newlines_prefix, line_at, line_of_byte,
    locate_line, materialize_range, reads, refs_of, starts_line, totals, LeafRef,
};
use crate::unified::{unified, unified_text, Layout};

verus! {

/// Where the line with the byte at `off` begins.
pub open spec fn line_begin(s: Seq<u8>, off: int) -> int
    decreases off,
{
    if off <= 0 {
        0
    } else if s[off - 1] == 10 {
        off
    } else {
        line_begin(s, off - 1)
    }
}

/// Where the line with the byte at `off` ends: past its newline, or at the end of the text.
pub open spec fn line_end(s: Seq<u8>, off: int) -> int
    decreases s.len() - off,
{
    if off >= s.len() {
        s.len() as int
    } else if s[off] == 10 {
        off + 1
    } else {
        line_end(s, off + 1)
    }
}

/// A run widened to whole lines.
pub open spec fn widened(a: Seq<u8>, b: Seq<u8>, r: HunkView) -> HunkView {
    HunkView {
        a_from: line_begin(a, r.a_from),
        a_to: line_end(a, r.a_to),
        b_from: line_begin(b, r.b_from),
        b_to: line_end(b, r.b_to),
    }
}

pub open spec fn larger(x: int, y: int) -> int {
    if x < y {
        y
    } else {
        x
    }
}

/// One more region: it joins the last one if they touch.
pub open spec fn add_region(rs: Seq<HunkView>, r: HunkView) -> Seq<HunkView> {
    if rs.len() > 0 && r.a_from <= rs.last().a_to {
        let l = rs.last();
        rs.drop_last().push(
            HunkView {
                a_from: l.a_from,
                a_to: larger(l.a_to, r.a_to),
                b_from: l.b_from,
                b_to: larger(l.b_to, r.b_to),
            },
        )
    } else {
        rs.push(r)
    }
}

/// Runs widened to whole lines on both sides, those that touch merged.
pub open spec fn line_regions(a: Seq<u8>, b: Seq<u8>, runs: Seq<HunkView>) -> Seq<HunkView>
    decreases runs.len(),
{
    if runs.len() == 0 {
        Seq::empty()
    } else {
        add_region(line_regions(a, b, runs.drop_last()), widened(a, b, runs.last()))
    }
}

/// The regions of whole lines in which two documents differ.
pub open spec fn regions_between(st: Store, a: Seq<u8>, b: Seq<u8>) -> Seq<HunkView> {
    line_regions(doc(st, a), doc(st, b), runs_between(st, a, b))
}

proof fn lemma_take_next(s: Seq<u8>, off: int)
    requires
        0 <= off < s.len(),
    ensures
        newlines(s.take(off + 1)) == newlines(s.take(off)) + (if s[off] == 10 { 1int } else { 0 }),
{
    assert(s.take(off + 1).drop_last() =~= s.take(off));
}

/// The line of an offset begins where the line of that number starts.
pub proof fn lemma_line_begin(s: Seq<u8>, off: int)
    requires
        0 <= off <= s.len(),
    ensures
        starts_line(s, line_at(s, off) as int, line_begin(s, off)),
        0 <= line_begin(s, off) <= off,
    decreases off,
{
    if off > 0 && s[off - 1] != 10 {
        lemma_take_next(s, off - 1);
        lemma_line_begin(s, off - 1);
    } else if off == 0 {
        assert(s.take(0) =~= Seq::empty());
    }
}

/// The line of an offset ends where the next line starts, if there is one.
pub proof fn lemma_line_end(s: Seq<u8>, off: int)
    requires
        0 <= off <= s.len(),
    ensures
        off <= line_end(s, off) <= s.len(),
        newlines(s) >= line_at(s, off) + 1 ==> starts_line(s, line_at(s, off) as int + 1, line_end(s, off)),
        newlines(s) < line_at(s, off) + 1 ==> line_end(s, off) == s.len(),
    decreases s.len() - off,
{
    if off < s.len() {
        lemma_take_next(s, off);
        if s[off] != 10 {
            lemma_line_end(s, off + 1);
        } else {
            lemma_newlines_prefix(s, off + 1);
        }
    } else {
        assert(s.take(off) =~= s);
    }
}

/// The start of the line that holds byte `off`.
pub(crate) fn begin_of_line<S: Storage + ?Sized>(storage: &S, root: &crate::hash::Hash, off: u64) -> (r: Result<u64>)
    requires
        sound(storage.store()),
        storage.store().nodes.contains_key(root@),
        off <= doc(storage.store(), root@).len(),
    ensures
        plain_failure(r),
        storage.local() ==> r is Ok,
        r matches Ok(o) ==> o == line_begin(doc(storage.store(), root@), off as int),
{
    let ghost s = doc(storage.store(), root@);
    let line = match line_of_byte(storage, root, off) {
        Ok(n) => n,
        Err(e) => {
            return Err(e);
        },
    };
    proof {
        lemma_line_begin(s, off as int);
        lemma_newlines_prefix(s, off as int);
    }
    match locate_line(storage, root, line) {
        Ok(Some(o)) => {
            proof {
                if line == 0 {
                    assert(s.take(0) =~= Seq::empty());
                    assert(starts_line(s, 0, 0));
                }
                law_line_start_unique(s, line as int, o as int, line_begin(s, off as int));
            }
            Ok(o)
        },
        Ok(None) => Ok(0),
        Err(e) => Err(e),
    }
}

/// The end of the line that holds byte `off`.
pub(crate) fn end_of_line<S: Storage + ?Sized>(storage: &S, root: &crate::hash::Hash, off: u64, len: u64) -> (r: Result<u64>)
    requires
        sound(storage.store()),
        storage.store().nodes.contains_key(root@),
        off <= len,
        len == doc(storage.store(), root@).len(),
    ensures
        plain_failure(r),
        storage.local() ==> r is Ok,
        r matches Ok(o) ==> o == line_end(doc(storage.store(), root@), off as int),
{
    let ghost s = doc(storage.store(), root@);
    let line = match line_of_byte(storage, root, off) {
        Ok(n) => n,
        Err(e) => {
            return Err(e);
        },
    };
    proof {
        lemma_line_end(s, off as int);
        lemma_newlines_prefix(s, off as int);
        lemma_newlines_bound(s);
        lemma_doc_sums(storage.store(), storage.store().nodes[root@]);
    }
    if line == u64::MAX {
        return Ok(len);
    }
    match locate_line(storage, root, line + 1) {
        Ok(Some(o)) => {
            proof {
                lemma_newlines_prefix(s, o as int);
                law_line_start_unique(s, line + 1, o as int, line_end(s, off as int));
            }
            Ok(o)
        },
        Ok(None) => Ok(len),
        Err(e) => Err(e),
    }
}

/// [`changed_runs`] widened to whole lines on both sides, with runs that touch merged.
pub(crate) fn changed_line_regions<S: Storage + ?Sized>(storage: &S, a: &crate::hash::Hash, b: &crate::hash::Hash) -> (r: Result<
    Vec<ChangedRun>,
>)
    requires
        sound(storage.store()),
    ensures
        plain_failure(r),
        a@ == b@ ==> r is Ok,
        a@ != b@ ==> reads_both(storage.local(), storage.store(), a@, b@, r),
        r matches Ok(v) ==> run_views(v@) == regions_between(storage.store(), a@, b@),
{
    let ghost st = storage.store();
    let ghost ta = doc(st, a@);
    let ghost tb = doc(st, b@);
    let runs = match changed_runs(storage, a, b) {
        Ok(v) => v,
        Err(e) => {
            return Err(e);
        },
    };
    let mut regions: Vec<ChangedRun> = Vec::new();
    let ghost rv = run_views(runs@);
    assert(run_views(regions@) =~= line_regions(ta, tb, rv.take(0)));
    if runs.len() == 0 {
        assert(rv =~= Seq::empty());
        return Ok(regions);
    }
    let a_len: u64 = match totals(storage, a) {
        Ok(t) => t.0,
        Err(e) => {
            return Err(e);
        },
    };
    let b_len: u64 = match totals(storage, b) {
        Ok(t) => t.0,
        Err(e) => {
            return Err(e);
        },
    };
    let mut i: usize = 0;
    while i < runs.len()
        invariant
            i <= runs@.len(),
            st == storage.store(),
            sound(st),
            a@ != b@,
            st.nodes.contains_key(a@),
            st.nodes.contains_key(b@),
            ta == doc(st, a@),
            tb == doc(st, b@),
            a_len == ta.len(),
            b_len == tb.len(),
            rv == run_views(runs@),
            runs_turn(ta, tb, rv),
            run_views(regions@) == line_regions(ta, tb, rv.take(i as int)),
        decreases runs@.len() - i,
    {
        let r: ChangedRun = runs[i];
        proof {
            assert(rv[i as int] == r@);
            crate::diff::lemma_run_inside(ta, tb, rv, ta.len() as int, tb.len() as int, i as int);
            assert(rv.take(i + 1).drop_last() =~= rv.take(i as int));
            assert(rv.take(i + 1).last() == r@);
        }
        let a_from: u64 = match begin_of_line(storage, a, r.a_from) {
            Ok(o) => o,
            Err(e) => {
                return Err(e);
            },
        };
        let b_from: u64 = match begin_of_line(storage, b, r.b_from) {
            Ok(o) => o,
            Err(e) => {
                return Err(e);
            },
        };
        let a_to: u64 = match end_of_line(storage, a, r.a_to, a_len) {
            Ok(o) => o,
            Err(e) => {
                return Err(e);
            },
        };
        let b_to: u64 = match end_of_line(storage, b, r.b_to, b_len) {
            Ok(o) => o,
            Err(e) => {
                return Err(e);
            },
        };
        let nr = ChangedRun { a_from, a_to, b_from, b_to };
        let ghost before = regions@;
        let n: usize = regions.len();
        if n > 0 && nr.a_from <= regions[n - 1].a_to {
            let last: ChangedRun = regions[n - 1];
            let joined_run = ChangedRun {
                a_from: last.a_from,
                a_to: if last.a_to < nr.a_to {
                    nr.a_to
                } else {
                    last.a_to
                },
                b_from: last.b_from,
                b_to: if last.b_to < nr.b_to {
                    nr.b_to
                } else {
                    last.b_to
                },
            };
            regions.set(n - 1, joined_run);
            proof {
                assert(run_views(before).last() == last@);
                assert(run_views(regions@) =~= run_views(before).drop_last().push(joined_run@));
            }
        } else {
            regions.push(nr);
            assert(run_views(regions@) =~= run_views(before).push(nr@));
            assert(n > 0 ==> run_views(before).last() == before[n - 1]@);
        }
        i += 1;
    }
    assert(rv.take(i as int) =~= rv);
    Ok(regions)
}

/// A change at line granularity: lines `[old_from, old_from + old_count)` of `a` (0-based)
/// became lines `[new_from, new_from + new_count)` of `b`. A zero count is a pure insertion
/// or deletion in front of that line.
///
/// This is the diff for callers that patch a document they already display, rather than
/// print one: each hunk carries the replaced and the replacing text, so applying it needs no
/// further read.
#[derive(Clone, Debug, PartialEq, Eq)]
pub struct LineHunk {
    pub old_from: u64,
    pub old_count: u64,
    pub new_from: u64,
    pub new_count: u64,
    pub old_text: Vec<u8>,
    pub new_text: Vec<u8>,
}

/// A line hunk as a mathematical value.
#[verifier::ext_equal]
pub struct LineHunkView {
    pub old_from: int,
    pub old_count: int,
    pub new_from: int,
    pub new_count: int,
    pub old_text: Seq<u8>,
    pub new_text: Seq<u8>,
}

impl View for LineHunk {
    type V = LineHunkView;

    open spec fn view(&self) -> LineHunkView {
        LineHunkView {
            old_from: self.old_from as int,
            old_count: self.old_count as int,
            new_from: self.new_from as int,
            new_count: self.new_count as int,
            old_text: self.old_text@,
            new_text: self.new_text@,
        }
    }
}

pub open spec fn line_hunk_views(hs: Seq<LineHunk>) -> Seq<LineHunkView> {
    Seq::new(hs.len(), |i: int| hs[i]@)
}

/// A hunk between the lines `al`, which begin at line `a_line`, and `bl`, which begin at `b_line`.
pub open spec fn placed_hunk(al: Seq<Seq<u8>>, bl: Seq<Seq<u8>>, a_line: int, b_line: int, h: HunkView) -> LineHunkView {
    LineHunkView {
        old_from: a_line + h.a_from,
        old_count: h.a_to - h.a_from,
        new_from: b_line + h.b_from,
        new_count: h.b_to - h.b_from,
        old_text: joined(al.subrange(h.a_from, h.a_to)),
        new_text: joined(bl.subrange(h.b_from, h.b_to)),
    }
}

/// The line hunks inside one region.
pub open spec fn region_hunks(a: Seq<u8>, b: Seq<u8>, r: HunkView) -> Seq<LineHunkView> {
    let at = clip(a, r.a_from, r.a_to);
    let bt = clip(b, r.b_from, r.b_to);
    let hs = text_hunks(at, bt);
    Seq::new(
        hs.len(),
        |i: int|
            placed_hunk(
                lines_of(at),
                lines_of(bt),
                line_at(a, r.a_from) as int,
                line_at(b, r.b_from) as int,
                hs[i],
            ),
    )
}

pub open spec fn all_region_hunks(a: Seq<u8>, b: Seq<u8>, rs: Seq<HunkView>) -> Seq<LineHunkView>
    decreases rs.len(),
{
    if rs.len() == 0 {
        Seq::empty()
    } else {
        all_region_hunks(a, b, rs.drop_last()) + region_hunks(a, b, rs.last())
    }
}

/// What the two documents hold in a region, and the lines it begins at.
fn read_region<S: Storage + ?Sized>(
    storage: &S,
    a: &crate::hash::Hash,
    b: &crate::hash::Hash,
    r: &ChangedRun,
) -> (res: Result<(Vec<u8>, Vec<u8>, u64, u64)>)
    requires
        sound(storage.store()),
        storage.store().nodes.contains_key(a@),
        storage.store().nodes.contains_key(b@),
    ensures
        plain_failure(res),
        storage.local() ==> res is Ok,
        res matches Ok(t) ==> ({
            let ta = doc(storage.store(), a@);
            let tb = doc(storage.store(), b@);
            &&& t.0@ == clip(ta, r.a_from as int, r.a_to as int)
            &&& t.1@ == clip(tb, r.b_from as int, r.b_to as int)
            &&& t.2 == line_at(ta, r.a_from as int)
            &&& t.3 == line_at(tb, r.b_from as int)
        }),
{
    let at = match materialize_range(storage, a, r.a_from, r.a_to) {
        Ok(v) => v,
        Err(e) => {
            return Err(e);
        },
    };
    let bt = match materialize_range(storage, b, r.b_from, r.b_to) {
        Ok(v) => v,
        Err(e) => {
            return Err(e);
        },
    };
    let a_line: u64 = match line_of_byte(storage, a, r.a_from) {
        Ok(n) => n,
        Err(e) => {
            return Err(e);
        },
    };
    let b_line: u64 = match line_of_byte(storage, b, r.b_from) {
        Ok(n) => n,
        Err(e) => {
            return Err(e);
        },
    };
    Ok((at, bt, a_line, b_line))
}

/// The lines before a place and those of the text from there are no more than the bytes.
proof fn lemma_line_room(s: Seq<u8>, from: int, to: int)
    requires
        from >= 0,
    ensures
        line_at(s, from) + lines_of(clip(s, from, to)).len() <= s.len(),
{
    let at = if from > s.len() {
        s.len() as int
    } else {
        from
    };
    lemma_newlines_bound(s.take(at));
    lemma_lines(clip(s, from, to));
}

/// Appends the line hunks inside one region.
fn push_region_hunks(at: &Vec<u8>, bt: &Vec<u8>, a_line: u64, b_line: u64, out: &mut Vec<LineHunk>)
    requires
        a_line + lines_of(at@).len() <= u64::MAX,
        b_line + lines_of(bt@).len() <= u64::MAX,
    ensures
        ({
            let hs = text_hunks(at@, bt@);
            line_hunk_views(final(out)@) == line_hunk_views(old(out)@) + Seq::new(
                hs.len(),
                |i: int| placed_hunk(lines_of(at@), lines_of(bt@), a_line as int, b_line as int, hs[i]),
            )
        }),
{
    let al = split_lines(at.as_slice());
    let bl = split_lines(bt.as_slice());
    let hunks = line_diff(&al, &bl);
    let ghost hs = hunk_views(hunks@);
    let ghost la = lines_of(at@);
    let ghost lb = lines_of(bt@);
    let ghost all = Seq::new(
        hs.len(),
        |i: int| placed_hunk(lines_of(at@), lines_of(bt@), a_line as int, b_line as int, hs[i]),
    );
    let ghost start = line_hunk_views(out@);
    proof {
        lemma_text_hunks(at@, bt@);
        lemma_turns_fit(la, lb, hs, corner(la, lb));
        assert(line_hunk_views(out@) =~= start + all.take(0));
    }
    let mut i: usize = 0;
    while i < hunks.len()
        invariant
            i <= hunks@.len(),
            hs == hunk_views(hunks@),
            la == slice_views(al@),
            lb == slice_views(bl@),
            a_line + la.len() <= u64::MAX,
            b_line + lb.len() <= u64::MAX,
            forall|k: int|
                0 <= k < hs.len() ==> 0 <= (#[trigger] hs[k]).a_from && hs[k].a_to <= la.len() && 0 <= hs[k].b_from
                    && hs[k].b_to <= lb.len() && hs[k].a_from <= hs[k].a_to && hs[k].b_from <= hs[k].b_to,
            all.len() == hs.len(),
            forall|k: int|
                0 <= k < hs.len() ==> #[trigger] all[k] == placed_hunk(la, lb, a_line as int, b_line as int, hs[k]),
            line_hunk_views(out@) == start + all.take(i as int),
        decreases hunks@.len() - i,
    {
        let h: Hunk = hunks[i];
        assert(hs[i as int] == h@);
        let mut old_text: Vec<u8> = Vec::new();
        push_lines(&mut old_text, &al, h.a_from, h.a_to);
        let mut new_text: Vec<u8> = Vec::new();
        push_lines(&mut new_text, &bl, h.b_from, h.b_to);
        let x = LineHunk {
            old_from: a_line + h.a_from as u64,
            old_count: (h.a_to - h.a_from) as u64,
            new_from: b_line + h.b_from as u64,
            new_count: (h.b_to - h.b_from) as u64,
            old_text,
            new_text,
        };
        let ghost before = out@;
        proof {
            assert(x.old_text@ =~= joined(la.subrange(h.a_from as int, h.a_to as int)));
            assert(x.new_text@ =~= joined(lb.subrange(h.b_from as int, h.b_to as int)));
            assert(x@ == all[i as int]);
        }
        out.push(x);
        proof {
            assert(line_hunk_views(out@) =~= line_hunk_views(before).push(x@));
            assert(all.take(i + 1) =~= all.take(i as int).push(x@));
            assert(line_hunk_views(out@) =~= start + all.take(i + 1));
        }
        i += 1;
    }
    assert(all.take(i as int) =~= all);
}

/// Lines that are not the last of a text begin it with one of them.
proof fn lemma_joined_line(ls: Seq<Seq<u8>>)
    requires
        ls.len() > 0,
        forall|i: int| 0 <= i < ls.len() ==> is_line(#[trigger] ls[i]),
        ls.len() > 1 ==> ls[0].last() == 10,
    ensures
        joined(ls).len() > 0,
        ls[0] == joined(ls).take(line_len(joined(ls))),
{
    let l = ls[0];
    let text = joined(ls);
    assert(text == l + joined(ls.skip(1)));
    if ls.len() == 1 {
        assert(ls.skip(1) =~= Seq::empty());
    }
    lemma_first_line(text);
    let n = line_len(text);
    assert forall|k: int| 0 <= k < l.len() - 1 implies text[k] != 10 by {
        assert(text[k] == l[k]);
    }
    assert(text[l.len() - 1] == l[l.len() - 1]);
    assert(n == l.len());
    assert(text.take(n) =~= l);
}

/// A hunk of the line diff of two texts changes what it replaces.
proof fn lemma_hunk_changes(at: Seq<u8>, bt: Seq<u8>, i: int)
    requires
        0 <= i < text_hunks(at, bt).len(),
    ensures
        ({
            let h = text_hunks(at, bt)[i];
            joined(lines_of(at).subrange(h.a_from, h.a_to)) != joined(lines_of(bt).subrange(h.b_from, h.b_to))
        }),
{
    let la = lines_of(at);
    let lb = lines_of(bt);
    let hs = text_hunks(at, bt);
    let h = hs[i];
    lemma_text_hunks(at, bt);
    lemma_turns_fit(la, lb, hs, corner(la, lb));
    lemma_turns_busy(la, lb, hs, corner(la, lb), i);
    lemma_diff_of(la, lb, MAX_LINE_EDITS as nat);
    law_hunks_differ(la, lb, MAX_LINE_EDITS as nat, hs);
    lemma_lines(at);
    lemma_lines(bt);
    let x = la.subrange(h.a_from, h.a_to);
    let y = lb.subrange(h.b_from, h.b_to);
    assert forall|k: int| 0 <= k < x.len() implies is_line(#[trigger] x[k]) by {
        assert(x[k] == la[h.a_from + k]);
    }
    assert forall|k: int| 0 <= k < y.len() implies is_line(#[trigger] y[k]) by {
        assert(y[k] == lb[h.b_from + k]);
    }
    if x.len() > 0 {
        assert(x[0] == la[h.a_from]);
        lemma_joined_line(x);
    } else {
        assert(x =~= Seq::empty());
    }
    if y.len() > 0 {
        assert(y[0] == lb[h.b_from]);
        lemma_joined_line(y);
    } else {
        assert(y =~= Seq::empty());
    }
}

/// A hunk takes items away or puts some in.
proof fn lemma_turns_busy<T>(a: Seq<T>, b: Seq<T>, hs: Seq<HunkView>, p: Point, i: int)
    requires
        turns(a, b, hs, p),
        0 <= i < hs.len(),
    ensures
        hs[i].a_from < hs[i].a_to || hs[i].b_from < hs[i].b_to,
    decreases hs.len(),
{
    if i < hs.len() - 1 {
        let h = hs.last();
        lemma_turns_busy(a, b, hs.drop_last(), Point { x: h.a_from, y: h.b_from }, i);
    }
}

/// Every line hunk changes the text it replaces.
pub proof fn law_line_hunks_change(a: Seq<u8>, b: Seq<u8>, rs: Seq<HunkView>)
    ensures
        forall|i: int|
            0 <= i < all_region_hunks(a, b, rs).len() ==> (#[trigger] all_region_hunks(a, b, rs)[i]).old_text
                != all_region_hunks(a, b, rs)[i].new_text,
    decreases rs.len(),
{
    if rs.len() > 0 {
        let r = rs.last();
        let front = all_region_hunks(a, b, rs.drop_last());
        let last = region_hunks(a, b, r);
        let all = all_region_hunks(a, b, rs);
        law_line_hunks_change(a, b, rs.drop_last());
        assert forall|i: int| 0 <= i < all.len() implies (#[trigger] all[i]).old_text != all[i].new_text by {
            if i < front.len() {
                assert(all[i] == front[i]);
            } else {
                assert(all[i] == last[i - front.len()]);
                lemma_hunk_changes(clip(a, r.a_from, r.a_to), clip(b, r.b_from, r.b_to), i - front.len());
            }
        }
    }
}

/// Line hunks between two roots, in ascending order.
///
/// Built on the same chunk-granular walk as [`unified_diff`], so the cost follows the size
/// of the change rather than the size of the document; each changed region is then diffed
/// line by line so the hunks are as tight as a plain line diff would make them.
pub fn line_hunks<S: Storage + ?Sized>(storage: &S, a: &crate::hash::Hash, b: &crate::hash::Hash) -> (r: Result<
    Vec<LineHunk>,
>)
    requires
        sound(storage.store()),
    ensures
        plain_failure(r),
        a@ == b@ ==> r is Ok,
        a@ != b@ ==> reads_both(storage.local(), storage.store(), a@, b@, r),
        r matches Ok(v) ==> line_hunk_views(v@) == all_region_hunks(
            doc(storage.store(), a@),
            doc(storage.store(), b@),
            regions_between(storage.store(), a@, b@),
        ),
        r matches Ok(v) ==> forall|i: int| 0 <= i < v@.len() ==> (#[trigger] v@[i]).old_text@ != v@[i].new_text@,
        a@ == b@ ==> r->Ok_0@.len() == 0,
{
    let ghost st = storage.store();
    let ghost ta = doc(st, a@);
    let ghost tb = doc(st, b@);
    let regions = match changed_line_regions(storage, a, b) {
        Ok(v) => v,
        Err(e) => {
            return Err(e);
        },
    };
    let ghost rs = run_views(regions@);
    let mut out: Vec<LineHunk> = Vec::new();
    assert(rs.take(0) =~= Seq::empty());
    assert(line_hunk_views(out@) =~= all_region_hunks(ta, tb, rs.take(0)));
    proof {
        if a@ == b@ {
            assert(rs =~= Seq::empty());
        }
    }
    let mut i: usize = 0;
    while i < regions.len()
        invariant
            i <= regions@.len(),
            st == storage.store(),
            sound(st),
            a@ == b@ ==> rs.len() == 0,
            a@ != b@ ==> st.nodes.contains_key(a@) && st.nodes.contains_key(b@),
            ta == doc(st, a@),
            tb == doc(st, b@),
            rs == run_views(regions@),
            line_hunk_views(out@) == all_region_hunks(ta, tb, rs.take(i as int)),
        decreases regions@.len() - i,
    {
        let r: ChangedRun = regions[i];
        proof {
            assert(rs[i as int] == r@);
            assert(rs.take(i + 1).drop_last() =~= rs.take(i as int));
            assert(rs.take(i + 1).last() == r@);
            lemma_line_room(ta, r.a_from as int, r.a_to as int);
            lemma_line_room(tb, r.b_from as int, r.b_to as int);
            lemma_doc_sums(st, st.nodes[a@]);
            lemma_doc_sums(st, st.nodes[b@]);
        }
        match read_region(storage, a, b, &r) {
            Ok((at, bt, a_line, b_line)) => {
                push_region_hunks(&at, &bt, a_line, b_line, &mut out);
            },
            Err(e) => {
                return Err(e);
            },
        }
        i += 1;
    }
    assert(rs.take(i as int) =~= rs);
    proof {
        law_line_hunks_change(ta, tb, rs);
        assert forall|i: int| 0 <= i < out@.len() implies (#[trigger] out@[i]).old_text@ != out@[i].new_text@ by {
            assert(line_hunk_views(out@)[i] == out@[i]@);
        }
        assert(out@.len() == line_hunk_views(out@).len());
    }
    Ok(out)
}

/// The unified diff of one region.
pub open spec fn region_unified(a: Seq<u8>, b: Seq<u8>, r: HunkView, context: int) -> Seq<char> {
    unified_text(
        clip(a, r.a_from, r.a_to),
        clip(b, r.b_from, r.b_to),
        Layout { context, a_base: line_at(a, r.a_from) as int + 1, b_base: line_at(b, r.b_from) as int + 1 },
    )
}

pub open spec fn all_unified(a: Seq<u8>, b: Seq<u8>, rs: Seq<HunkView>, context: int) -> Seq<char>
    decreases rs.len(),
{
    if rs.len() == 0 {
        Seq::empty()
    } else {
        all_unified(a, b, rs.drop_last(), context) + region_unified(a, b, rs.last(), context)
    }
}

/// Unified diff between two roots at line granularity, with `context` lines.
pub fn unified_diff<S: Storage + ?Sized>(
    storage: &S,
    a: &crate::hash::Hash,
    b: &crate::hash::Hash,
    context: usize,
) -> (r: Result<String>)
    requires
        sound(storage.store()),
        storage.store().nodes.contains_key(a@) ==> doc(storage.store(), a@).len() < usize::MAX,
        storage.store().nodes.contains_key(b@) ==> doc(storage.store(), b@).len() < usize::MAX,
    ensures
        plain_failure(r),
        a@ == b@ ==> r is Ok,
        a@ != b@ ==> reads_both(storage.local(), storage.store(), a@, b@, r),
        r matches Ok(s) ==> s@ == all_unified(
            doc(storage.store(), a@),
            doc(storage.store(), b@),
            regions_between(storage.store(), a@, b@),
            context as int,
        ),
{
    let ghost st = storage.store();
    let ghost ta = doc(st, a@);
    let ghost tb = doc(st, b@);
    let regions = match changed_line_regions(storage, a, b) {
        Ok(v) => v,
        Err(e) => {
            return Err(e);
        },
    };
    let ghost rs = run_views(regions@);
    let mut out = String::new();
    assert(rs.take(0) =~= Seq::empty());
    assert(out@ =~= all_unified(ta, tb, rs.take(0), context as int));
    proof {
        if a@ == b@ {
            assert(rs =~= Seq::empty());
        }
    }
    let mut i: usize = 0;
    while i < regions.len()
        invariant
            i <= regions@.len(),
            st == storage.store(),
            sound(st),
            a@ == b@ ==> rs.len() == 0,
            a@ != b@ ==> st.nodes.contains_key(a@) && st.nodes.contains_key(b@),
            ta == doc(st, a@),
            tb == doc(st, b@),
            a@ != b@ ==> ta.len() < usize::MAX && tb.len() < usize::MAX,
            rs == run_views(regions@),
            out@ == all_unified(ta, tb, rs.take(i as int), context as int),
        decreases regions@.len() - i,
    {
        let r: ChangedRun = regions[i];
        proof {
            assert(rs[i as int] == r@);
            assert(rs.take(i + 1).drop_last() =~= rs.take(i as int));
            assert(rs.take(i + 1).last() == r@);
            lemma_line_room(ta, r.a_from as int, r.a_to as int);
            lemma_line_room(tb, r.b_from as int, r.b_to as int);
        }
        match read_region(storage, a, b, &r) {
            Ok((at, bt, a_line, b_line)) => {
                let part = unified(at.as_slice(), bt.as_slice(), context, a_line as usize + 1, b_line as usize + 1);
                out.append(part.as_str());
            },
            Err(e) => {
                return Err(e);
            },
        }
        i += 1;
    }
    assert(rs.take(i as int) =~= rs);
    Ok(out)
}

/// All leaves of a root as children.
pub fn leaf_children<S: Storage + ?Sized>(storage: &S, root: &crate::hash::Hash) -> (r: Result<Vec<Child>>)
    requires
        sound(storage.store()),
    ensures
        plain_failure(r),
        reads(storage.local(), storage.store(), root@, r),
        r matches Ok(v) ==> crate::node::entries_of(v@) == doc_leaves(
            storage.store(),
            storage.store().nodes[root@],
        ),
{
    let ghost st = storage.store();
    let ls = match leaves(storage, root) {
        Ok(v) => v,
        Err(e) => {
            return Err(e);
        },
    };
    let ghost row = doc_leaves(st, st.nodes[root@]);
    proof {
        crate::diff::lemma_root_row(st, st.nodes[root@]);
    }
    let mut out: Vec<Child> = Vec::new();
    let mut i: usize = 0;
    while i < ls.len()
        invariant
            i <= ls@.len(),
            refs_of(ls@, row, 0, 0),
            crate::model::level_ok(st, row, 1),
            out@.len() == i,
            forall|k: int| 0 <= k < i ==> (#[trigger] out@[k])@ == row[k],
        decreases ls@.len() - i,
    {
        let l: LeafRef = ls[i];
        let c = Child { hash: l.hash, nbytes: l.nbytes, nlines: l.nlines, is_leaf: true };
        proof {
            assert(ls@[i as int].hash@ == row[i as int].hash);
            assert(crate::model::leaf_ok(st, row[i as int]));
            assert(c@ == row[i as int]);
        }
        out.push(c);
        i += 1;
    }
    assert(crate::node::entries_of(out@) =~= row);
    Ok(out)
}

} // verus!
