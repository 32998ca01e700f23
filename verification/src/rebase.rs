//! Rebase: carrying edits over to a document that has moved on.

use vstd::prelude::*;
use vstd::string::*;
use crate::chunker::ChunkParams;
use crate::commit::{CommitKind, ConflictInfo};
use crate::diff::{changed_runs, rewrites, run_views, runs_between, runs_turn, ChangedRun};
use crate::edit::{apply_edits, bytes_added, edits_clash, edits_valid, Edit};
use crate::error::TextdbError;
use crate::merge::{diff3, merged, Merge};
use crate::model::{doc, grows, sound, Store};
use crate::myers::HunkView;
use crate::patch::{ascending, edit_view, edit_views, forward, lemma_edited_forward, EditView};
use crate::regions::{begin_of_line, end_of_line, lemma_line_begin, lemma_line_end, line_begin, line_end};
use crate::storage::{missing_node, plain_failure, unraced, Result, Storage};
use crate::text::{lossy_text, utf8_lossy};
use crate::tree::{clamp, clip, hashes_of, line_at, line_of_byte, materialize_range, new_chunks_listed, totals};

verus! {

/// Where offset `off` of the old text is in the new one: as far behind the last run that ends
/// there or before as it was. An `end` does not move past text inserted right at it.
pub open spec fn shifted(off: int, runs: Seq<HunkView>, end: bool) -> int
    decreases runs.len(),
{
    if runs.len() == 0 {
        off
    } else {
        let r = runs.last();
        if r.a_to <= off && (!end || r.a_from < off) {
            r.b_to + (off - r.a_to)
        } else {
            shifted(off, runs.drop_last(), end)
        }
    }
}

/// An offset as a counter of 64 bits holds it.
#[verifier::opaque]
pub open spec fn counter(x: int) -> int {
    x % 0x1_0000_0000_0000_0000
}

pub(crate) proof fn lemma_counter(x: int)
    requires
        0 <= x <= u64::MAX,
    ensures
        counter(x) == x,
{
    reveal(counter);
}

/// An edit carried over.
pub open spec fn shifted_edit(e: EditView, runs: Seq<HunkView>) -> EditView {
    EditView {
        from: counter(shifted(e.from, runs, false)),
        to: counter(shifted(e.to, runs, e.from < e.to)),
        text: e.text,
    }
}

/// The first and last line that `[from, to)` touches. An empty range is the single line it
/// sits in.
pub open spec fn line_span(s: Seq<u8>, from: int, to: int) -> (nat, nat) {
    (line_at(s, from), if to > from { line_at(s, to - 1) } else { line_at(s, from) })
}

/// Do an edit and a run overlap in bytes?
pub open spec fn overlapping(e: EditView, r: HunkView) -> bool {
    if e.from == e.to && r.a_from == r.a_to {
        e.from == r.a_from
    } else if e.from == e.to {
        r.a_from < e.from < r.a_to
    } else if r.a_from == r.a_to {
        e.from < r.a_from < e.to
    } else {
        e.from < r.a_to && r.a_from < e.to
    }
}

/// Do an edit and a run meet: in bytes, or on a line?
pub open spec fn meets(s: Seq<u8>, e: EditView, r: HunkView) -> bool {
    let x = line_span(s, e.from, e.to);
    let y = line_span(s, r.a_from, r.a_to);
    overlapping(e, r) || x.0 <= y.1 && y.0 <= x.1
}

/// Does an edit meet any of the runs?
pub open spec fn hit(s: Seq<u8>, e: EditView, runs: Seq<HunkView>) -> bool {
    exists|i: int| 0 <= i < runs.len() && meets(s, e, #[trigger] runs[i])
}

/// A span of the old text.
pub struct Span {
    pub lo: int,
    pub hi: int,
}

pub open spec fn lower(x: int, y: int) -> int {
    if x < y {
        x
    } else {
        y
    }
}

pub open spec fn upper(x: int, y: int) -> int {
    if x < y {
        y
    } else {
        x
    }
}

/// The span of the edits that meet a run.
pub open spec fn hit_span(s: Seq<u8>, es: Seq<EditView>, runs: Seq<HunkView>) -> Option<Span>
    decreases es.len(),
{
    if es.len() == 0 {
        None
    } else {
        let e = es.last();
        let front = hit_span(s, es.drop_last(), runs);
        if !hit(s, e, runs) {
            front
        } else {
            match front {
                None => Some(Span { lo: e.from, hi: e.to }),
                Some(x) => Some(Span { lo: lower(x.lo, e.from), hi: upper(x.hi, e.to) }),
            }
        }
    }
}

/// Does a run touch a span?
pub open spec fn touching(r: HunkView, x: Span) -> bool {
    r.a_from < x.hi && r.a_to > x.lo || r.a_from == r.a_to && x.lo <= r.a_from <= x.hi
}

/// A span grown over the runs it touches.
pub open spec fn over_runs(runs: Seq<HunkView>, x: Span) -> Span
    decreases runs.len(),
{
    if runs.len() == 0 {
        x
    } else {
        let y = over_runs(runs.drop_last(), x);
        let r = runs.last();
        if touching(r, y) {
            Span { lo: lower(y.lo, r.a_from), hi: upper(y.hi, r.a_to) }
        } else {
            y
        }
    }
}

/// A span grown to whole lines; its last byte decides its last line. What lies behind the text is on
/// its last line.
pub open spec fn over_lines(s: Seq<u8>, x: Span) -> Span {
    Span {
        lo: line_begin(s, clamp(x.lo, s.len() as int)),
        hi: line_end(s, if x.hi > x.lo { x.hi - 1 } else { x.lo }),
    }
}

/// A span grown over runs and to whole lines until it cuts into neither.
pub open spec fn grown(s: Seq<u8>, runs: Seq<HunkView>, x: Span) -> Span
    decreases x.lo + s.len() - x.hi,
    when 0 <= x.lo <= x.hi <= s.len() && inside_text(runs, s.len() as int)
    via grown_decreases
{
    let y = over_lines(s, over_runs(runs, x));
    if y == x {
        x
    } else {
        grown(s, runs, y)
    }
}

pub open spec fn inside_text(runs: Seq<HunkView>, len: int) -> bool {
    forall|i: int| 0 <= i < runs.len() ==> 0 <= (#[trigger] runs[i]).a_from <= runs[i].a_to <= len
}

proof fn lemma_over_runs(runs: Seq<HunkView>, x: Span, len: int)
    requires
        inside_text(runs, len),
        0 <= x.lo <= x.hi <= len,
    ensures
        0 <= over_runs(runs, x).lo <= x.lo,
        x.hi <= over_runs(runs, x).hi <= len,
    decreases runs.len(),
{
    if runs.len() > 0 {
        assert(runs[runs.len() - 1] == runs.last());
        assert forall|i: int| 0 <= i < runs.drop_last().len() implies 0 <= (#[trigger] runs.drop_last()[i]).a_from
            <= runs.drop_last()[i].a_to <= len by {
            assert(runs.drop_last()[i] == runs[i]);
        }
        lemma_over_runs(runs.drop_last(), x, len);
    }
}

proof fn lemma_over_lines(s: Seq<u8>, x: Span)
    requires
        0 <= x.lo <= x.hi <= s.len(),
    ensures
        0 <= over_lines(s, x).lo <= x.lo,
        x.hi <= over_lines(s, x).hi <= s.len(),
{
    lemma_line_begin(s, x.lo);
    if x.hi > x.lo {
        lemma_line_end(s, x.hi - 1);
        if s[x.hi - 1] != 10 {
            lemma_line_end(s, x.hi);
        }
    } else {
        lemma_line_end(s, x.lo);
    }
}

/// Whatever a span was, whole lines lie in the text.
proof fn lemma_over_any_lines(s: Seq<u8>, x: Span)
    requires
        0 <= x.lo,
    ensures
        0 <= over_lines(s, x).lo <= over_lines(s, x).hi <= s.len(),
{
    let last = if x.hi > x.lo {
        x.hi - 1
    } else {
        x.lo
    };
    lemma_line_begin(s, clamp(x.lo, s.len() as int));
    if last < s.len() {
        lemma_line_end(s, last);
    }
}

#[via_fn]
proof fn grown_decreases(s: Seq<u8>, runs: Seq<HunkView>, x: Span) {
    lemma_over_runs(runs, x, s.len() as int);
    lemma_over_lines(s, over_runs(runs, x));
}

/// Does an edit lie inside a span, and not just insert at an edge of it?
pub open spec fn within(e: EditView, x: Span) -> bool {
    x.lo <= e.from && e.to <= x.hi && !(e.from == e.to && (e.from == x.lo || e.from == x.hi))
}

/// The edits that are merged in a region: those that meet a run, and those inside it.
pub open spec fn merging(s: Seq<u8>, es: Seq<EditView>, runs: Seq<HunkView>, x: Span) -> Seq<EditView>
    decreases es.len(),
{
    if es.len() == 0 {
        Seq::empty()
    } else {
        let front = merging(s, es.drop_last(), runs, x);
        if within(es.last(), x) || hit(s, es.last(), runs) {
            front.push(es.last())
        } else {
            front
        }
    }
}

/// The other edits, carried over.
pub open spec fn passing(s: Seq<u8>, es: Seq<EditView>, runs: Seq<HunkView>, x: Span) -> Seq<EditView>
    decreases es.len(),
{
    if es.len() == 0 {
        Seq::empty()
    } else {
        let front = passing(s, es.drop_last(), runs, x);
        if within(es.last(), x) || hit(s, es.last(), runs) {
            front
        } else {
            front.push(shifted_edit(es.last(), runs))
        }
    }
}

/// All edits, carried over.
pub open spec fn shifted_edits(es: Seq<EditView>, runs: Seq<HunkView>) -> Seq<EditView> {
    Seq::new(es.len(), |i: int| shifted_edit(es[i], runs))
}

/// Where the last of some edits ends.
pub open spec fn edits_end(es: Seq<EditView>, lo: int) -> int {
    if es.len() == 0 {
        lo
    } else {
        es.last().to
    }
}

/// The text from `lo` to the end of the last edit, edits applied.
pub open spec fn edited_head(s: Seq<u8>, es: Seq<EditView>, lo: int) -> Seq<u8>
    decreases es.len(),
{
    if es.len() == 0 {
        Seq::empty()
    } else {
        let front = es.drop_last();
        edited_head(s, front, lo) + clip(s, edits_end(front, lo), es.last().from) + es.last().text
    }
}

/// Edits in the order of where they begin; those that begin together stay as they were.
pub open spec fn by_place(es: Seq<EditView>) -> Seq<EditView>
    decreases es.len(),
{
    if es.len() == 0 {
        es
    } else {
        placed(by_place(es.drop_last()), es.last())
    }
}

/// The text of a span after edits.
pub open spec fn edited_span(s: Seq<u8>, es: Seq<EditView>, x: Span) -> Seq<u8> {
    edited_head(s, es, x.lo) + clip(s, edits_end(es, x.lo), x.hi)
}

/// An edit put among others in the order of where they begin, behind those at the same place.
pub open spec fn placed(es: Seq<EditView>, e: EditView) -> Seq<EditView>
    decreases es.len(),
{
    if es.len() == 0 || es.last().from <= e.from {
        es.push(e)
    } else {
        placed(es.drop_last(), e).push(es.last())
    }
}

/// What a conflict reports: the region in the current text, and the three texts.
pub struct Clash {
    pub lo: int,
    pub hi: int,
    pub base: Seq<u8>,
    pub ours: Seq<u8>,
    pub theirs: Seq<u8>,
}

/// What becomes of edits to `s` when the document has become `t`.
pub enum Rebase {
    /// These edits of the current text have their effect.
    Edits(Seq<EditView>, CommitKind),
    /// The region has been changed differently.
    Clash(Clash),
}

/// The region to merge, in the old text.
pub open spec fn merge_span(s: Seq<u8>, runs: Seq<HunkView>, es: Seq<EditView>) -> Span {
    grown(s, runs, over_lines(s, over_runs(runs, hit_span(s, es, runs)->0)))
}

/// The three texts of the region, and where it is in the current text.
pub open spec fn merge_input(s: Seq<u8>, t: Seq<u8>, runs: Seq<HunkView>, es: Seq<EditView>) -> Clash {
    let x = merge_span(s, runs, es);
    let lo = shifted(x.lo, runs, false);
    let hi = shifted(x.hi, runs, false);
    Clash {
        lo,
        hi,
        base: clip(s, x.lo, x.hi),
        ours: edited_span(s, by_place(merging(s, es, runs, x)), x),
        theirs: clip(t, lo, hi),
    }
}

/// Edits that meet no run are carried over; otherwise the region of those that do is merged
/// line by line.
pub open spec fn rebased(s: Seq<u8>, t: Seq<u8>, runs: Seq<HunkView>, es: Seq<EditView>) -> Rebase {
    if hit_span(s, es, runs) is None {
        Rebase::Edits(shifted_edits(es, runs), CommitKind::Rebased)
    } else {
        let m = merge_input(s, t, runs, es);
        match merged(m.base, m.ours, m.theirs) {
            Some(text) => Rebase::Edits(
                placed(
                    by_place(passing(s, es, runs, merge_span(s, runs, es))),
                    EditView { from: m.lo, to: m.hi, text },
                ),
                CommitKind::Merged,
            ),
            None => Rebase::Clash(m),
        }
    }
}

/// Is a place at the edge of a run, or outside it?
spec fn clear(off: int, r: HunkView) -> bool {
    off <= r.a_from || off >= r.a_to
}

spec fn all_clear(off: int, runs: Seq<HunkView>) -> bool {
    forall|i: int| 0 <= i < runs.len() ==> clear(off, #[trigger] runs[i])
}

/// A place outside all runs is carried over into the new text.
proof fn lemma_shifted_inside(s: Seq<u8>, t: Seq<u8>, runs: Seq<HunkView>, x: int, y: int, off: int, end: bool)
    requires
        rewrites(s, t, runs, x, y),
        0 <= off <= x,
        all_clear(off, runs),
    ensures
        0 <= shifted(off, runs, end) <= y,
    decreases runs.len(),
{
    if runs.len() == 0 {
        assert(s.take(x).len() == t.take(y).len());
    } else {
        let r = runs.last();
        assert(runs[runs.len() - 1] == r);
        assert(s.subrange(r.a_to, x).len() == t.subrange(r.b_to, y).len());
        if r.a_to <= off && (!end || r.a_from < off) {
        } else {
            let front = runs.drop_last();
            assert forall|i: int| 0 <= i < front.len() implies clear(off, #[trigger] front[i]) by {
                assert(front[i] == runs[i]);
            }
            lemma_shifted_inside(s, t, front, r.a_from, r.b_from, off, end);
        }
    }
}

/// A span that no run cuts: each run it touches lies in it.
proof fn lemma_over_runs_stable(runs: Seq<HunkView>, x: Span, len: int)
    requires
        inside_text(runs, len),
        0 <= x.lo <= x.hi <= len,
        over_runs(runs, x) == x,
    ensures
        all_clear(x.lo, runs),
        all_clear(x.hi, runs),
    decreases runs.len(),
{
    if runs.len() > 0 {
        let front = runs.drop_last();
        let r = runs.last();
        assert(runs[runs.len() - 1] == r);
        assert forall|i: int| 0 <= i < front.len() implies 0 <= (#[trigger] front[i]).a_from <= front[i].a_to <= len by {
            assert(front[i] == runs[i]);
        }
        lemma_over_runs(front, x, len);
        let y = over_runs(front, x);
        assert(y.lo == x.lo && y.hi == x.hi);
        assert(y == x);
        lemma_over_runs_stable(front, x, len);
        assert forall|i: int| 0 <= i < runs.len() implies clear(x.lo, #[trigger] runs[i]) && clear(x.hi, runs[i]) by {
            if i < front.len() {
                assert(front[i] == runs[i]);
            }
        }
    }
}

proof fn lemma_runs_inside(s: Seq<u8>, t: Seq<u8>, runs: Seq<HunkView>)
    requires
        runs_turn(s, t, runs),
    ensures
        inside_text(runs, s.len() as int),
{
    assert forall|i: int| 0 <= i < runs.len() implies 0 <= (#[trigger] runs[i]).a_from <= runs[i].a_to <= s.len() by {
        crate::diff::lemma_run_inside(s, t, runs, s.len() as int, t.len() as int, i);
    }
}

/// Translate a base offset that lies outside every changed run into current coordinates.
fn shift(off: u64, runs: &Vec<ChangedRun>, end: bool) -> (r: u64)
    ensures
        r == counter(shifted(off as int, run_views(runs@), end)),
{
    let ghost rv = run_views(runs@);
    let mut i: usize = runs.len();
    assert(rv.take(i as int) =~= rv);
    while i > 0
        invariant
            i <= runs@.len(),
            rv == run_views(runs@),
            shifted(off as int, rv.take(i as int), end) == shifted(off as int, rv, end),
        decreases i,
    {
        let r: ChangedRun = runs[i - 1];
        proof {
            assert(rv.take(i as int).last() == r@);
            assert(rv.take(i as int).drop_last() =~= rv.take(i - 1));
        }
        if r.a_to <= off && (!end || r.a_from < off) {
            let o: u64 = r.b_to.wrapping_add(off - r.a_to);
            assert(o == counter(r.b_to + (off - r.a_to))) by {
                reveal(counter);
            }
            return o;
        }
        i -= 1;
    }
    proof {
        lemma_counter(off as int);
    }
    off
}

/// Inclusive line range of `[from, to)` in `root`'s coordinates. An empty range (a pure
/// insertion) is the single line it sits in.
fn line_span_of<S: Storage + ?Sized>(storage: &S, root: &crate::hash::Hash, from: u64, to: u64) -> (r: Result<(u64, u64)>)
    requires
        sound(storage.store()),
        storage.store().nodes.contains_key(root@),
    ensures
        plain_failure(r),
        storage.local() ==> r is Ok,
        r matches Ok(p) ==> (p.0 as nat, p.1 as nat) == line_span(
            doc(storage.store(), root@),
            from as int,
            to as int,
        ),
{
    let a: u64 = match line_of_byte(storage, root, from) {
        Ok(n) => n,
        Err(e) => {
            return Err(e);
        },
    };
    if to > from {
        match line_of_byte(storage, root, to - 1) {
            Ok(b) => Ok((a, b)),
            Err(e) => Err(e),
        }
    } else {
        Ok((a, a))
    }
}

/// Half-open intervals; a pure insertion at exactly a run boundary counts as overlap
/// when the run is an insertion at the same point (ambiguous ordering).
fn overlaps(e: &Edit, r: &ChangedRun) -> (b: bool)
    ensures
        b == overlapping(edit_view(*e), r@),
{
    if e.from == e.to && r.a_from == r.a_to {
        return e.from == r.a_from;
    }
    if e.from == e.to {
        return e.from > r.a_from && e.from < r.a_to;
    }
    if r.a_from == r.a_to {
        return r.a_from > e.from && r.a_from < e.to;
    }
    e.from < r.a_to && r.a_from < e.to
}

/// The lines of each run.
spec fn lines_listed(s: Seq<u8>, runs: Seq<ChangedRun>, lines: Seq<(u64, u64)>) -> bool {
    &&& lines.len() == runs.len()
    &&& forall|i: int|
        0 <= i < runs.len() ==> ((#[trigger] lines[i]).0 as nat, lines[i].1 as nat) == line_span(
            s,
            runs[i].a_from as int,
            runs[i].a_to as int,
        )
}

/// The lines of all runs.
fn run_lines<S: Storage + ?Sized>(storage: &S, root: &crate::hash::Hash, runs: &Vec<ChangedRun>) -> (r: Result<
    Vec<(u64, u64)>,
>)
    requires
        sound(storage.store()),
        storage.store().nodes.contains_key(root@),
    ensures
        plain_failure(r),
        storage.local() ==> r is Ok,
        r matches Ok(v) ==> lines_listed(doc(storage.store(), root@), runs@, v@),
{
    let ghost s = doc(storage.store(), root@);
    let mut out: Vec<(u64, u64)> = Vec::new();
    let mut i: usize = 0;
    while i < runs.len()
        invariant
            i <= runs@.len(),
            sound(storage.store()),
            storage.store().nodes.contains_key(root@),
            s == doc(storage.store(), root@),
            lines_listed(s, runs@.take(i as int), out@),
        decreases runs@.len() - i,
    {
        let r: ChangedRun = runs[i];
        let span = match line_span_of(storage, root, r.a_from, r.a_to) {
            Ok(p) => p,
            Err(e) => {
                return Err(e);
            },
        };
        let ghost before = out@;
        out.push(span);
        proof {
            let more = runs@.take(i + 1);
            assert forall|k: int| 0 <= k < more.len() implies ((#[trigger] out@[k]).0 as nat, out@[k].1 as nat) == line_span(
                s,
                more[k].a_from as int,
                more[k].a_to as int,
            ) by {
                if k < i {
                    assert(out@[k] == before[k]);
                    assert(runs@.take(i as int)[k] == more[k]);
                }
            }
        }
        i += 1;
    }
    assert(runs@.take(i as int) =~= runs@);
    Ok(out)
}

/// Does an edit meet any of the runs?
fn meets_any(e: &Edit, el: (u64, u64), runs: &Vec<ChangedRun>, lines: &Vec<(u64, u64)>, s: Ghost<Seq<u8>>) -> (r: bool)
    requires
        lines_listed(s@, runs@, lines@),
        (el.0 as nat, el.1 as nat) == line_span(s@, e.from as int, e.to as int),
    ensures
        r == hit(s@, edit_view(*e), run_views(runs@)),
{
    let ghost rv = run_views(runs@);
    let mut i: usize = 0;
    while i < runs.len()
        invariant
            i <= runs@.len(),
            rv == run_views(runs@),
            lines_listed(s@, runs@, lines@),
            (el.0 as nat, el.1 as nat) == line_span(s@, e.from as int, e.to as int),
            forall|k: int| 0 <= k < i ==> !meets(s@, edit_view(*e), #[trigger] rv[k]),
        decreases runs@.len() - i,
    {
        assert(rv[i as int] == runs@[i as int]@);
        let rl: (u64, u64) = lines[i];
        if overlaps(e, &runs[i]) || (el.0 <= rl.1 && rl.0 <= el.1) {
            assert(meets(s@, edit_view(*e), rv[i as int]));
            return true;
        }
        i += 1;
    }
    false
}

/// For each edit, does it meet a run?
spec fn hits_listed(s: Seq<u8>, es: Seq<Edit>, runs: Seq<HunkView>, hits: Seq<bool>) -> bool {
    &&& hits.len() == es.len()
    &&& forall|i: int| 0 <= i < es.len() ==> #[trigger] hits[i] == hit(s, edit_view(es[i]), runs)
}

/// Which edits meet a run, and the span of those that do.
fn find_hits<S: Storage + ?Sized>(
    storage: &S,
    base: &crate::hash::Hash,
    runs: &Vec<ChangedRun>,
    edits: &[Edit],
) -> (r: Result<(Vec<bool>, Option<(u64, u64)>)>)
    requires
        sound(storage.store()),
        storage.store().nodes.contains_key(base@),
    ensures
        plain_failure(r),
        storage.local() ==> r is Ok,
        r matches Ok(p) ==> hits_listed(doc(storage.store(), base@), edits@, run_views(runs@), p.0@) && match p.1 {
            None => hit_span(doc(storage.store(), base@), edit_views(edits@), run_views(runs@)) is None,
            Some(x) => hit_span(doc(storage.store(), base@), edit_views(edits@), run_views(runs@)) == Some(
                (Span { lo: x.0 as int, hi: x.1 as int }),
            ),
        },
{
    let ghost s = doc(storage.store(), base@);
    let ghost rv = run_views(runs@);
    let ghost es = edit_views(edits@);
    let lines = match run_lines(storage, base, runs) {
        Ok(v) => v,
        Err(e) => {
            return Err(e);
        },
    };
    let mut hits: Vec<bool> = Vec::new();
    let mut span: Option<(u64, u64)> = None;
    let mut i: usize = 0;
    assert(es.take(0) =~= Seq::empty());
    while i < edits.len()
        invariant
            i <= edits@.len(),
            sound(storage.store()),
            storage.store().nodes.contains_key(base@),
            s == doc(storage.store(), base@),
            rv == run_views(runs@),
            es == edit_views(edits@),
            lines_listed(s, runs@, lines@),
            hits@.len() == i,
            forall|k: int| 0 <= k < i ==> #[trigger] hits@[k] == hit(s, edit_view(edits@[k]), rv),
            match span {
                None => hit_span(s, es.take(i as int), rv) is None,
                Some(x) => hit_span(s, es.take(i as int), rv) == Some((Span { lo: x.0 as int, hi: x.1 as int })),
            },
        decreases edits@.len() - i,
    {
        let e: &Edit = &edits[i];
        proof {
            assert(es.take(i + 1).drop_last() =~= es.take(i as int));
            assert(es.take(i + 1).last() == edit_view(*e));
        }
        let el = match line_span_of(storage, base, e.from, e.to) {
            Ok(p) => p,
            Err(e) => {
                return Err(e);
            },
        };
        let h: bool = meets_any(e, el, runs, &lines, Ghost(s));
        if h {
            span = match span {
                None => Some((e.from, e.to)),
                Some(x) => {
                    let lo: u64 = if x.0 < e.from {
                        x.0
                    } else {
                        e.from
                    };
                    let hi: u64 = if x.1 < e.to {
                        e.to
                    } else {
                        x.1
                    };
                    Some((lo, hi))
                },
            };
        }
        hits.push(h);
        i += 1;
    }
    assert(es.take(i as int) =~= es);
    Ok((hits, span))
}

/// The span of edits begins at one of them.
proof fn lemma_hit_span(s: Seq<u8>, es: Seq<EditView>, runs: Seq<HunkView>)
    requires
        forall|i: int| 0 <= i < es.len() ==> 0 <= (#[trigger] es[i]).from,
    ensures
        hit_span(s, es, runs) matches Some(x) ==> 0 <= x.lo,
    decreases es.len(),
{
    if es.len() > 0 {
        let front = es.drop_last();
        assert(es[es.len() - 1] == es.last());
        assert forall|i: int| 0 <= i < front.len() implies 0 <= (#[trigger] front[i]).from by {
            assert(front[i] == es[i]);
        }
        lemma_hit_span(s, front, runs);
    }
}

proof fn lemma_over_runs_low(runs: Seq<HunkView>, x: Span)
    requires
        0 <= x.lo,
        forall|i: int| 0 <= i < runs.len() ==> 0 <= (#[trigger] runs[i]).a_from,
    ensures
        0 <= over_runs(runs, x).lo,
    decreases runs.len(),
{
    if runs.len() > 0 {
        let front = runs.drop_last();
        assert(runs[runs.len() - 1] == runs.last());
        assert forall|i: int| 0 <= i < front.len() implies 0 <= (#[trigger] front[i]).a_from by {
            assert(front[i] == runs[i]);
        }
        lemma_over_runs_low(front, x);
    }
}

/// A span grown over the runs it touches.
fn grow_over_runs(runs: &Vec<ChangedRun>, lo: u64, hi: u64) -> (r: (u64, u64))
    ensures
        (Span { lo: r.0 as int, hi: r.1 as int }) == over_runs(
            run_views(runs@),
            (Span { lo: lo as int, hi: hi as int }),
        ),
{
    let ghost rv = run_views(runs@);
    let ghost x = Span { lo: lo as int, hi: hi as int };
    let mut a: u64 = lo;
    let mut b: u64 = hi;
    let mut i: usize = 0;
    assert(rv.take(0) =~= Seq::empty());
    while i < runs.len()
        invariant
            i <= runs@.len(),
            rv == run_views(runs@),
            (Span { lo: a as int, hi: b as int }) == over_runs(rv.take(i as int), x),
        decreases runs@.len() - i,
    {
        let r: ChangedRun = runs[i];
        proof {
            assert(rv.take(i + 1).drop_last() =~= rv.take(i as int));
            assert(rv.take(i + 1).last() == r@);
        }
        if r.a_from < b && r.a_to > a || (r.a_from == r.a_to && r.a_from >= a && r.a_from <= b) {
            if r.a_from < a {
                a = r.a_from;
            }
            if r.a_to > b {
                b = r.a_to;
            }
        }
        i += 1;
    }
    assert(rv.take(i as int) =~= rv);
    (a, b)
}

/// A span grown once over the runs it touches, and then to whole lines.
fn grow_once<S: Storage + ?Sized>(
    storage: &S,
    base: &crate::hash::Hash,
    runs: &Vec<ChangedRun>,
    len: u64,
    lo: u64,
    hi: u64,
) -> (r: Result<(u64, u64)>)
    requires
        sound(storage.store()),
        storage.store().nodes.contains_key(base@),
        len == doc(storage.store(), base@).len(),
    ensures
        plain_failure(r),
        storage.local() ==> r is Ok,
        r matches Ok(p) ==> (Span { lo: p.0 as int, hi: p.1 as int }) == over_lines(
            doc(storage.store(), base@),
            over_runs(run_views(runs@), (Span { lo: lo as int, hi: hi as int })),
        ),
{
    let (c, d): (u64, u64) = grow_over_runs(runs, lo, hi);
    let first: u64 = if c > len {
        len
    } else {
        c
    };
    let nlo: u64 = match begin_of_line(storage, base, first) {
        Ok(o) => o,
        Err(e) => {
            return Err(e);
        },
    };
    // `hi` is exclusive: the last byte inside the region decides its last line.
    let last: u64 = if d > c {
        d - 1
    } else {
        c
    };
    if last > len {
        return Ok((nlo, len));
    }
    let nhi: u64 = match end_of_line(storage, base, last, len) {
        Ok(o) => o,
        Err(e) => {
            return Err(e);
        },
    };
    Ok((nlo, nhi))
}

/// The region to merge: grown until it no longer cuts into a run or a line.
fn grow<S: Storage + ?Sized>(
    storage: &S,
    base: &crate::hash::Hash,
    runs: &Vec<ChangedRun>,
    len: u64,
    lo: u64,
    hi: u64,
) -> (r: Result<(u64, u64)>)
    requires
        sound(storage.store()),
        storage.store().nodes.contains_key(base@),
        len == doc(storage.store(), base@).len(),
        inside_text(run_views(runs@), len as int),
        lo <= hi <= len,
    ensures
        plain_failure(r),
        storage.local() ==> r is Ok,
        r matches Ok(p) ==> ({
            let x = Span { lo: p.0 as int, hi: p.1 as int };
            &&& x == grown(doc(storage.store(), base@), run_views(runs@), (Span { lo: lo as int, hi: hi as int }))
            &&& p.0 <= p.1 <= len
            &&& over_runs(run_views(runs@), x) == x
        }),
{
    let ghost s = doc(storage.store(), base@);
    let ghost rv = run_views(runs@);
    let ghost start = Span { lo: lo as int, hi: hi as int };
    let mut a: u64 = lo;
    let mut b: u64 = hi;
    loop
        invariant
            sound(storage.store()),
            storage.store().nodes.contains_key(base@),
            s == doc(storage.store(), base@),
            len == s.len(),
            rv == run_views(runs@),
            inside_text(rv, len as int),
            a <= b <= len,
            grown(s, rv, start) == grown(s, rv, Span { lo: a as int, hi: b as int }),
            start == (Span { lo: lo as int, hi: hi as int }),
        decreases a + len - b,
    {
        let ghost x = Span { lo: a as int, hi: b as int };
        proof {
            lemma_over_runs(rv, x, len as int);
            lemma_over_lines(s, over_runs(rv, x));
        }
        let (nlo, nhi): (u64, u64) = match grow_once(storage, base, runs, len, a, b) {
            Ok(p) => p,
            Err(e) => {
                return Err(e);
            },
        };
        if nlo == a && nhi == b {
            return Ok((a, b));
        }
        a = nlo;
        b = nhi;
    }
}

/// One edit carried over.
fn shift_edit(e: &Edit, runs: &Vec<ChangedRun>) -> (r: Edit)
    ensures
        edit_view(r) == shifted_edit(edit_view(*e), run_views(runs@)),
{
    Edit::new(
        shift(e.from, runs, false),
        shift(e.to, runs, e.from < e.to),
        vstd::slice::slice_to_vec(e.replacement.as_slice()),
    )
}

/// All edits carried over.
fn shift_all(edits: &[Edit], runs: &Vec<ChangedRun>) -> (out: Vec<Edit>)
    ensures
        edit_views(out@) == shifted_edits(edit_views(edits@), run_views(runs@)),
{
    let ghost rv = run_views(runs@);
    let mut out: Vec<Edit> = Vec::new();
    let mut i: usize = 0;
    while i < edits.len()
        invariant
            i <= edits@.len(),
            rv == run_views(runs@),
            out@.len() == i,
            forall|k: int| 0 <= k < i ==> edit_view(#[trigger] out@[k]) == shifted_edit(edit_view(edits@[k]), rv),
        decreases edits@.len() - i,
    {
        let e = shift_edit(&edits[i], runs);
        out.push(e);
        i += 1;
    }
    assert(edit_views(out@) =~= shifted_edits(edit_views(edits@), rv));
    out
}

/// Is an edit merged in the region?
fn is_merging(e: &Edit, hit_run: bool, lo: u64, hi: u64) -> (r: bool)
    ensures
        r == (within(edit_view(*e), (Span { lo: lo as int, hi: hi as int })) || hit_run),
{
    hit_run || e.from >= lo && e.to <= hi && !(e.from == e.to && (e.from == lo || e.from == hi))
}

/// The edits split into those merged in the region and the others, which are carried over.
fn split_edits(
    edits: &[Edit],
    hits: &Vec<bool>,
    runs: &Vec<ChangedRun>,
    lo: u64,
    hi: u64,
    s: Ghost<Seq<u8>>,
) -> (r: (Vec<Edit>, Vec<Edit>))
    requires
        hits_listed(s@, edits@, run_views(runs@), hits@),
    ensures
        edit_views(r.0@) == by_place(
            merging(s@, edit_views(edits@), run_views(runs@), (Span { lo: lo as int, hi: hi as int })),
        ),
        edit_views(r.1@) == by_place(
            passing(s@, edit_views(edits@), run_views(runs@), (Span { lo: lo as int, hi: hi as int })),
        ),
{
    let ghost rv = run_views(runs@);
    let ghost es = edit_views(edits@);
    let ghost x = Span { lo: lo as int, hi: hi as int };
    let mut ours: Vec<Edit> = Vec::new();
    let mut outside: Vec<Edit> = Vec::new();
    let mut i: usize = 0;
    proof {
        assert(es.take(0) =~= Seq::empty());
        assert(edit_views(ours@) =~= Seq::empty());
        assert(edit_views(outside@) =~= Seq::empty());
    }
    while i < edits.len()
        invariant
            i <= edits@.len(),
            rv == run_views(runs@),
            es == edit_views(edits@),
            x == (Span { lo: lo as int, hi: hi as int }),
            hits_listed(s@, edits@, rv, hits@),
            edit_views(ours@) == by_place(merging(s@, es.take(i as int), rv, x)),
            edit_views(outside@) == by_place(passing(s@, es.take(i as int), rv, x)),
        decreases edits@.len() - i,
    {
        let e: &Edit = &edits[i];
        proof {
            assert(es.take(i + 1).drop_last() =~= es.take(i as int));
            assert(es.take(i + 1).last() == edit_view(*e));
        }
        let ghost front = merging(s@, es.take(i as int), rv, x);
        let ghost rest = passing(s@, es.take(i as int), rv, x);
        if is_merging(e, hits[i], lo, hi) {
            proof {
                assert(front.push(edit_view(*e)).drop_last() =~= front);
            }
            ours = place_edit(ours, e.clone());
        } else {
            proof {
                assert(rest.push(shifted_edit(edit_view(*e), rv)).drop_last() =~= rest);
            }
            outside = place_edit(outside, shift_edit(e, runs));
        }
        i += 1;
    }
    assert(es.take(i as int) =~= es);
    (ours, outside)
}

/// The text of a span of the base after edits.
fn edit_span<S: Storage + ?Sized>(storage: &S, base: &crate::hash::Hash, es: &Vec<Edit>, lo: u64, hi: u64) -> (r: Result<
    Vec<u8>,
>)
    requires
        sound(storage.store()),
        storage.store().nodes.contains_key(base@),
    ensures
        plain_failure(r),
        storage.local() ==> r is Ok,
        r matches Ok(v) ==> v@ == edited_span(
            doc(storage.store(), base@),
            edit_views(es@),
            (Span { lo: lo as int, hi: hi as int }),
        ),
{
    let ghost s = doc(storage.store(), base@);
    let ghost vs = edit_views(es@);
    let mut out: Vec<u8> = Vec::new();
    let mut at: u64 = lo;
    let mut i: usize = 0;
    assert(vs.take(0) =~= Seq::empty());
    while i < es.len()
        invariant
            i <= es@.len(),
            sound(storage.store()),
            storage.store().nodes.contains_key(base@),
            s == doc(storage.store(), base@),
            vs == edit_views(es@),
            at == edits_end(vs.take(i as int), lo as int),
            out@ == edited_head(s, vs.take(i as int), lo as int),
        decreases es@.len() - i,
    {
        let e: &Edit = &es[i];
        proof {
            assert(vs.take(i + 1).drop_last() =~= vs.take(i as int));
            assert(vs.take(i + 1).last() == edit_view(*e));
        }
        let mut gap = match materialize_range(storage, base, at, e.from) {
            Ok(v) => v,
            Err(e) => {
                return Err(e);
            },
        };
        out.append(&mut gap);
        out.extend_from_slice(e.replacement.as_slice());
        at = e.to;
        i += 1;
    }
    assert(vs.take(i as int) =~= vs);
    let mut gap = match materialize_range(storage, base, at, hi) {
        Ok(v) => v,
        Err(e) => {
            return Err(e);
        },
    };
    out.append(&mut gap);
    Ok(out)
}

/// An edit put among others in the order of where they begin.
fn place_edit(es: Vec<Edit>, e: Edit) -> (out: Vec<Edit>)
    ensures
        edit_views(out@) == placed(edit_views(es@), edit_view(e)),
{
    let mut es = es;
    let ghost all = edit_views(es@);
    let ghost one = edit_view(e);
    let mut rest: Vec<Edit> = Vec::new();
    // Edits behind the place, last first.
    proof {
        assert(edit_views(rest@).reverse() =~= Seq::empty());
        assert(placed(all, one) + Seq::<EditView>::empty() =~= placed(all, one));
    }
    while es.len() > 0 && es[es.len() - 1].from > e.from
        invariant
            one == edit_view(e),
            placed(all, one) == placed(edit_views(es@), one) + edit_views(rest@).reverse(),
        decreases es@.len(),
    {
        let ghost before = es@;
        let ghost rest0 = rest@;
        let last = es.pop().unwrap();
        rest.push(last);
        proof {
            let b = edit_views(before);
            assert(b.last() == edit_view(last));
            assert(edit_views(es@) =~= b.drop_last());
            assert(edit_views(rest@) =~= edit_views(rest0).push(edit_view(last)));
            assert(edit_views(rest@).reverse() =~= seq![edit_view(last)] + edit_views(rest0).reverse());
            assert(placed(b, one) == placed(b.drop_last(), one).push(b.last()));
            assert(placed(b, one) + edit_views(rest0).reverse() =~= placed(b.drop_last(), one) + edit_views(rest@).reverse());
        }
    }
    let ghost before = es@;
    proof {
        let b = edit_views(before);
        if b.len() > 0 {
            assert(b.last() == edit_view(before[before.len() - 1]));
        }
    }
    es.push(e);
    assert(edit_views(es@) =~= edit_views(before).push(one));
    while rest.len() > 0
        invariant
            placed(all, one) == edit_views(es@) + edit_views(rest@).reverse(),
        decreases rest@.len(),
    {
        let ghost es0 = es@;
        let ghost rest0 = rest@;
        let next = rest.pop().unwrap();
        es.push(next);
        proof {
            let r = edit_views(rest0);
            assert(r.last() == edit_view(next));
            assert(edit_views(rest@) =~= r.drop_last());
            assert(edit_views(es@) =~= edit_views(es0).push(edit_view(next)));
            assert(edit_views(es0) + r.reverse() =~= edit_views(es@) + edit_views(rest@).reverse());
        }
    }
    assert(edit_views(rest@).reverse() =~= Seq::empty());
    assert(edit_views(es@) + Seq::<EditView>::empty() =~= edit_views(es@));
    es
}

/// Do edits fit a text of `len` bytes within what memory can hold?
pub(crate) fn edits_fit(len: u64, edits: &[Edit]) -> (r: bool)
    ensures
        r == (len + bytes_added(edits@) <= usize::MAX),
{
    let mut room: u64 = len;
    let max: u64 = usize::MAX as u64;
    if room > max {
        return false;
    }
    let mut i: usize = 0;
    assert(edits@.take(0) =~= Seq::empty());
    while i < edits.len()
        invariant
            i <= edits@.len(),
            max == usize::MAX,
            room == len + bytes_added(edits@.take(i as int)),
            room <= max,
        decreases edits@.len() - i,
    {
        let n: u64 = edits[i].replacement.len() as u64;
        proof {
            assert(edits@.take(i + 1).drop_last() =~= edits@.take(i as int));
            assert(edits@ =~= edits@.take(i + 1) + edits@.skip(i + 1));
            crate::edit::lemma_added_concat(edits@.take(i + 1), edits@.skip(i + 1));
        }
        if n > max - room {
            return false;
        }
        room = room + n;
        i += 1;
    }
    assert(edits@.take(i as int) =~= edits@);
    true
}

/// What a rebase that succeeded gave.
pub open spec fn rebase_result(
    st: Store,
    fin: Store,
    base: Seq<u8>,
    cur: Seq<u8>,
    es: Seq<Edit>,
    root: Seq<u8>,
    kind: CommitKind,
) -> bool {
    let s = doc(st, base);
    let t = doc(st, cur);
    &&& st.nodes.contains_key(base)
    &&& st.nodes.contains_key(cur)
    &&& fin.nodes.contains_key(root)
    &&& rebased(s, t, runs_between(st, base, cur), edit_views(es)) matches Rebase::Edits(x, k) && k == kind && ascending(
        x,
        t.len() as int,
    ) && doc(fin, root) == forward(t, x, t.len() as int)
}

/// The line after `n` lines, counted from one, as far as a counter goes.
pub open spec fn line_number(n: nat) -> int {
    lower(n as int + 1, u64::MAX as int)
}

/// What a conflict reports.
pub open spec fn conflict_told(
    t: Seq<u8>,
    m: Clash,
    path: Seq<char>,
    version: u64,
    info: ConflictInfo,
) -> bool {
    let last = if m.hi - 1 > m.lo { m.hi - 1 } else { m.lo };
    &&& info.path@ == path
    &&& info.region_line_from == line_number(line_at(t, m.lo))
    &&& info.region_line_to == line_number(line_at(t, last))
    &&& info.base@ == utf8_lossy(m.base)
    &&& info.theirs@ == utf8_lossy(m.theirs)
    &&& info.ours@ == utf8_lossy(m.ours)
    &&& info.current_version == version
}

/// How a rebase onto a stored document fails, when nobody else writes to the storage.
pub open spec fn rebase_error(
    st: Store,
    base: Seq<u8>,
    cur: Seq<u8>,
    es: Seq<Edit>,
    path: Seq<char>,
    version: u64,
    e: TextdbError,
) -> bool {
    let s = doc(st, base);
    let t = doc(st, cur);
    match rebased(s, t, runs_between(st, base, cur), edit_views(es)) {
        Rebase::Clash(m) => e matches TextdbError::Conflict(info) && conflict_told(t, m, path, version, *info),
        Rebase::Edits(x, _) => if t.len() + text_added(x) > usize::MAX {
            e is Other
        } else {
            !ascending(x, t.len() as int) ==> e is InvalidEdit
        },
    }
}

/// Bytes some edits bring.
pub open spec fn text_added(es: Seq<EditView>) -> nat
    decreases es.len(),
{
    if es.len() == 0 {
        0
    } else {
        text_added(es.drop_last()) + es.last().text.len()
    }
}

proof fn lemma_text_added(es: Seq<Edit>)
    ensures
        text_added(edit_views(es)) == bytes_added(es),
    decreases es.len(),
{
    if es.len() > 0 {
        lemma_text_added(es.drop_last());
        assert(edit_views(es).drop_last() =~= edit_views(es.drop_last()));
    }
}

/// Valid edits are in order, and the other way round.
proof fn lemma_valid_ascending(es: Seq<Edit>, len: int)
    ensures
        edits_valid(es, len) <==> ascending(edit_views(es), len),
{
    let vs = edit_views(es);
    if edits_valid(es, len) {
        assert forall|i: int| 0 <= i < vs.len() implies 0 <= (#[trigger] vs[i]).from <= vs[i].to <= len by {
            assert(vs[i] == edit_view(es[i]));
        }
        assert forall|i: int, j: int| 0 <= i < j < vs.len() implies (#[trigger] vs[i]).to <= (#[trigger] vs[j]).from by {
            assert(es[i].to <= es[j].from);
        }
    }
    if ascending(vs, len) {
        assert forall|i: int| 0 <= i < es.len() implies (#[trigger] es[i]).from <= es[i].to <= len by {
            assert(vs[i] == edit_view(es[i]));
        }
        assert forall|i: int, j: int| 0 <= i < j < es.len() implies (#[trigger] es[i]).to <= (#[trigger] es[j]).from by {
            assert(vs[i].to <= vs[j].from);
        }
    }
}

/// No storing of these edits can have failed but for a clash of hashes.
pub open spec fn views_clash(st: Store, p: ChunkParams, t: Seq<u8>, x: Seq<EditView>) -> bool {
    exists|ys: Seq<Edit>| edit_views(ys) == x && #[trigger] edits_clash(st, p, t, ys)
}

/// Applies edits that fit, as the end of a rebase.
fn apply_rebased<S: Storage + ?Sized>(
    storage: &mut S,
    params: &ChunkParams,
    cur: &crate::hash::Hash,
    len: u64,
    edits: &Vec<Edit>,
) -> (r: Result<(crate::hash::Hash, Vec<crate::hash::Hash>)>)
    requires
        params.valid(),
        params.min < params.max + params.snap,
        sound(old(storage).store()),
        old(storage).store().nodes.contains_key(cur@),
        len == doc(old(storage).store(), cur@).len(),
    ensures
        unraced(r),
        final(storage).local() == old(storage).local(),
        grows(old(storage).store(), final(storage).store()),
        sound(final(storage).store()),
        old(storage).local() ==> final(storage).store().roots == old(storage).store().roots,
        ({
            let st = old(storage).store();
            let t = doc(st, cur@);
            let x = edit_views(edits@);
            &&& r matches Ok(p) ==> {
                &&& ascending(x, t.len() as int)
                &&& final(storage).store().nodes.contains_key(p.0@)
                &&& doc(final(storage).store(), p.0@) == forward(t, x, t.len() as int)
                &&& crate::tree::canonical(st, *params, cur@, t) && params.min < params.max ==> crate::tree::canonical(
                    final(storage).store(),
                    *params,
                    p.0@,
                    forward(t, x, t.len() as int),
                )
                &&& old(storage).local() ==> new_chunks_listed(st, final(storage).store(), hashes_of(p.1@))
            }
            &&& old(storage).local() && t.len() + text_added(x) > usize::MAX ==> r is Err && r->Err_0 is Other
            &&& old(storage).local() && t.len() + text_added(x) <= usize::MAX && !ascending(x, t.len() as int) ==> r is Err
                && r->Err_0 is InvalidEdit
            &&& r is Err && old(storage).local() && t.len() + text_added(x) <= usize::MAX && ascending(x, t.len() as int)
                && params.min < params.max && crate::tree::canonical(st, *params, cur@, t) ==> views_clash(
                final(storage).store(),
                *params,
                t,
                x,
            )
        }),
{
    proof {
        lemma_text_added(edits@);
        lemma_valid_ascending(edits@, doc(storage.store(), cur@).len() as int);
    }
    if !edits_fit(len, edits.as_slice()) {
        return Err(TextdbError::Other(String::from_str("document too large")));
    }
    let ghost st = storage.store();
    match apply_edits(storage, params, cur, edits.as_slice()) {
        Ok(er) => {
            proof {
                lemma_edited_forward(doc(st, cur@), edits@);
            }
            Ok((er.root, er.new_chunks))
        },
        Err(e) => Err(e),
    }
}

/// Reports the region that both sides changed.
fn report<S: Storage + ?Sized>(
    storage: &S,
    cur: &crate::hash::Hash,
    path: &str,
    region: (u64, u64),
    texts: (Vec<u8>, Vec<u8>, Vec<u8>),
    version: u64,
) -> (r: Result<ConflictInfo>)
    requires
        sound(storage.store()),
        storage.store().nodes.contains_key(cur@),
    ensures
        plain_failure(r),
        storage.local() ==> r is Ok,
        r matches Ok(info) ==> conflict_told(
            doc(storage.store(), cur@),
            (Clash { lo: region.0 as int, hi: region.1 as int, base: texts.0@, ours: texts.1@, theirs: texts.2@ }),
            path@,
            version,
            info,
        ),
{
    let (lo, hi) = region;
    let from: u64 = match line_of_byte(storage, cur, lo) {
        Ok(n) => n,
        Err(e) => {
            return Err(e);
        },
    };
    let last: u64 = if hi > 0 && hi - 1 > lo {
        hi - 1
    } else {
        lo
    };
    let to: u64 = match line_of_byte(storage, cur, last) {
        Ok(n) => n,
        Err(e) => {
            return Err(e);
        },
    };
    Ok(
        ConflictInfo {
            path: String::from_str(path),
            region_line_from: from.saturating_add(1),
            region_line_to: to.saturating_add(1),
            base: lossy_text(texts.0.as_slice()),
            theirs: lossy_text(texts.2.as_slice()),
            ours: lossy_text(texts.1.as_slice()),
            current_version: version,
        },
    )
}

/// Rebase `edits` (base coordinates) onto `rcur`. Returns the new root or a Conflict error.
///
/// Conflict detection matches the granularity of the merge, which is line-level
/// ([`diff3`]). A byte-level test misses exactly the case that matters most: against a base
/// of "count: 18", our "count: 19" is a one-byte replacement of the final digit while their
/// "count: 188" is a pure insertion just past it. Those byte intervals are adjacent, not
/// overlapping, so a collision on one line would look disjoint. Two changes to the same line
/// cannot be merged textually, so they reach `diff3`, which decides between an identical
/// edit and a conflict.
#[verifier::rlimit(60)]
pub(crate) fn rebase<S: Storage + ?Sized>(
    storage: &mut S,
    params: &ChunkParams,
    path: &str,
    base: &crate::hash::Hash,
    rcur: &crate::hash::Hash,
    edits: &[Edit],
    current_version: u64,
) -> (r: Result<(crate::hash::Hash, Vec<crate::hash::Hash>, CommitKind)>)
    requires
        params.valid(),
        params.min < params.max + params.snap,
        sound(old(storage).store()),
        base@ != rcur@,
    ensures
        r is Err ==> !(r->Err_0 is Contention),
        final(storage).local() == old(storage).local(),
        grows(old(storage).store(), final(storage).store()),
        sound(final(storage).store()),
        old(storage).local() ==> final(storage).store().roots == old(storage).store().roots,
        r matches Ok(p) ==> rebase_result(
            old(storage).store(),
            final(storage).store(),
            base@,
            rcur@,
            edits@,
            p.0@,
            p.2,
        ),
        r matches Ok(p) ==> crate::tree::canonical(
            old(storage).store(),
            *params,
            rcur@,
            doc(old(storage).store(), rcur@),
        ) && params.min < params.max ==> crate::tree::canonical(
            final(storage).store(),
            *params,
            p.0@,
            doc(final(storage).store(), p.0@),
        ),
        r matches Ok(p) ==> old(storage).local() ==> new_chunks_listed(
            old(storage).store(),
            final(storage).store(),
            hashes_of(p.1@),
        ),
        old(storage).local() ==> ({
            let st = old(storage).store();
            if !st.nodes.contains_key(base@) {
                missing_node(r, base@)
            } else if !st.nodes.contains_key(rcur@) {
                missing_node(r, rcur@)
            } else {
                r matches Err(e) ==> rebase_error(st, base@, rcur@, edits@, path@, current_version, e)
            }
        }),
        r is Err && old(storage).local() && rebase_owed(
            old(storage).store(),
            *params,
            base@,
            rcur@,
            edits@,
        ) ==> rebased_clash(old(storage).store(), final(storage).store(), *params, base@, rcur@, edits@),
{
    let ghost st = storage.store();
    let ghost s = doc(st, base@);
    let ghost t = doc(st, rcur@);
    let ghost es = edit_views(edits@);
    let runs = match changed_runs(storage, base, rcur) {
        Ok(v) => v,
        Err(e) => {
            return Err(e);
        },
    };
    let ghost rv = run_views(runs@);
    let base_len: u64 = match totals(storage, base) {
        Ok(n) => n.0,
        Err(e) => {
            return Err(e);
        },
    };
    let cur_len: u64 = match totals(storage, rcur) {
        Ok(n) => n.0,
        Err(e) => {
            return Err(e);
        },
    };
    proof {
        assert forall|i: int| 0 <= i < es.len() implies 0 <= (#[trigger] es[i]).from by {
            assert(es[i] == edit_view(edits@[i]));
        }
        lemma_hit_span(s, es, rv);
        lemma_runs_inside(s, t, rv);
    }
    // Partition edits into disjoint (shiftable) and overlapping.
    let (hits, span) = match find_hits(storage, base, &runs, edits) {
        Ok(p) => p,
        Err(e) => {
            return Err(e);
        },
    };
    let (lo0, hi0): (u64, u64) = match span {
        Some(p) => p,
        None => {
            let shifted_all = shift_all(edits, &runs);
            return match apply_rebased(storage, params, rcur, cur_len, &shifted_all) {
                Ok(p) => Ok((p.0, p.1, CommitKind::Rebased)),
                Err(e) => Err(e),
            };
        },
    };
    // Region in base coordinates: union of overlapping edits and the runs they touch,
    // expanded to line boundaries.
    let (lo1, hi1): (u64, u64) = match grow_once(storage, base, &runs, base_len, lo0, hi0) {
        Ok(p) => p,
        Err(e) => {
            return Err(e);
        },
    };
    proof {
        let x0 = Span { lo: lo0 as int, hi: hi0 as int };
        lemma_over_runs_low(rv, x0);
        lemma_over_any_lines(s, over_runs(rv, x0));
    }
    let (lo, hi): (u64, u64) = match grow(storage, base, &runs, base_len, lo1, hi1) {
        Ok(p) => p,
        Err(e) => {
            return Err(e);
        },
    };
    let ghost x = Span { lo: lo as int, hi: hi as int };
    proof {
        assert(x == merge_span(s, rv, es));
        lemma_over_runs_stable(rv, x, s.len() as int);
        lemma_shifted_inside(s, t, rv, s.len() as int, t.len() as int, lo as int, false);
        lemma_shifted_inside(s, t, rv, s.len() as int, t.len() as int, hi as int, false);
        lemma_counter(shifted(lo as int, rv, false));
        lemma_counter(shifted(hi as int, rv, false));
    }
    // Any shifted edit that now falls inside the region is folded into "ours".
    let (ours_edits, outside) = split_edits(edits, &hits, &runs, lo, hi, Ghost(s));
    // Texts of the region.
    let base_text = match materialize_range(storage, base, lo, hi) {
        Ok(v) => v,
        Err(e) => {
            return Err(e);
        },
    };
    let ours = match edit_span(storage, base, &ours_edits, lo, hi) {
        Ok(v) => v,
        Err(e) => {
            return Err(e);
        },
    };
    let cur_lo: u64 = shift(lo, &runs, false);
    let cur_hi: u64 = shift(hi, &runs, false);
    let theirs = match materialize_range(storage, rcur, cur_lo, cur_hi) {
        Ok(v) => v,
        Err(e) => {
            return Err(e);
        },
    };
    let ghost m = merge_input(s, t, rv, es);
    assert(m.base == base_text@ && m.ours == ours@ && m.theirs == theirs@);
    match diff3(base_text.as_slice(), ours.as_slice(), theirs.as_slice()) {
        Merge::Clean(text) => {
            let one = Edit::new(cur_lo, cur_hi, text);
            let all = place_edit(outside, one);
            match apply_rebased(storage, params, rcur, cur_len, &all) {
                Ok(p) => Ok((p.0, p.1, CommitKind::Merged)),
                Err(e) => Err(e),
            }
        },
        Merge::Conflict => {
            match report(storage, rcur, path, (cur_lo, cur_hi), (base_text, ours, theirs), current_version) {
                Ok(info) => Err(TextdbError::Conflict(Box::new(info))),
                Err(e) => Err(e),
            }
        },
    }
}

/// Is a rebase owed success, but for a clash of hashes in the storage?
pub open spec fn rebase_owed(st: Store, p: ChunkParams, base: Seq<u8>, cur: Seq<u8>, es: Seq<Edit>) -> bool {
    let s = doc(st, base);
    let t = doc(st, cur);
    &&& st.nodes.contains_key(base)
    &&& st.nodes.contains_key(cur)
    &&& p.min < p.max
    &&& crate::tree::canonical(st, p, cur, t)
    &&& rebased(s, t, runs_between(st, base, cur), edit_views(es)) matches Rebase::Edits(x, _) && ascending(
        x,
        t.len() as int,
    ) && t.len() + text_added(x) <= usize::MAX
}

/// The result of a rebase cannot be stored.
pub open spec fn rebased_clash(st: Store, fin: Store, p: ChunkParams, base: Seq<u8>, cur: Seq<u8>, es: Seq<Edit>) -> bool {
    let s = doc(st, base);
    let t = doc(st, cur);
    rebased(s, t, runs_between(st, base, cur), edit_views(es)) matches Rebase::Edits(x, _) && views_clash(fin, p, t, x)
}

/// An edit of a text that comes before another, and is rebased with it.
pub open spec fn one_edit(s: Seq<u8>, e: EditView) -> Seq<u8> {
    forward(s, seq![e], s.len() as int)
}

pub(crate) proof fn lemma_one_edit(s: Seq<u8>, e: EditView)
    requires
        0 <= e.from <= e.to <= s.len(),
    ensures
        one_edit(s, e) == s.take(e.from) + e.text + s.skip(e.to),
{
    reveal_with_fuel(forward, 2);
    let es = seq![e];
    assert(es.last() == e);
    assert(es.drop_last() =~= Seq::<EditView>::empty());
    assert(s.subrange(e.to, s.len() as int) =~= s.skip(e.to));
}

/// Behind all runs, the two texts end alike.
proof fn lemma_tail_alike(s: Seq<u8>, t: Seq<u8>, runs: Seq<HunkView>, off: int)
    requires
        runs_turn(s, t, runs),
        0 <= off <= s.len(),
        forall|i: int| 0 <= i < runs.len() ==> (#[trigger] runs[i]).a_to <= off,
    ensures
        shifted(off, runs, false) == t.len() - (s.len() - off),
        0 <= shifted(off, runs, false),
        t.skip(shifted(off, runs, false)) == s.skip(off),
{
    let x = s.len() as int;
    let y = t.len() as int;
    if runs.len() == 0 {
        assert(s.take(x) =~= s);
        assert(t.take(y) =~= t);
    } else {
        let r = runs.last();
        assert(runs[runs.len() - 1] == r);
        let a = s.subrange(r.a_to, x);
        let b = t.subrange(r.b_to, y);
        assert(a.len() == b.len());
        assert(s.skip(off) =~= a.skip(off - r.a_to));
        assert(t.skip(shifted(off, runs, false)) =~= b.skip(off - r.a_to));
    }
}

/// Before all runs, the two texts begin alike.
proof fn lemma_head_alike(s: Seq<u8>, t: Seq<u8>, runs: Seq<HunkView>, off: int, end: bool, x: int, y: int)
    requires
        rewrites(s, t, runs, x, y),
        0 <= off <= x,
        forall|i: int|
            0 <= i < runs.len() ==> off <= (#[trigger] runs[i]).a_from && (off < runs[i].a_to || end && off
                == runs[i].a_from),
    ensures
        shifted(off, runs, end) == off,
        off <= y,
        t.take(off) == s.take(off),
    decreases runs.len(),
{
    if runs.len() == 0 {
        assert(s.take(x).len() == t.take(y).len());
        assert(s.take(off) =~= s.take(x).take(off));
        assert(t.take(off) =~= t.take(y).take(off));
    } else {
        let r = runs.last();
        assert(runs[runs.len() - 1] == r);
        let front = runs.drop_last();
        assert forall|i: int| 0 <= i < front.len() implies off <= (#[trigger] front[i]).a_from && (off < front[i].a_to || end
            && off == front[i].a_from) by {
            assert(front[i] == runs[i]);
        }
        lemma_head_alike(s, t, front, off, end, r.a_from, r.b_from);
    }
}

/// The text with both edits, the first before the second.
pub(crate) open spec fn with_both(s: Seq<u8>, e: EditView, f: EditView) -> Seq<u8> {
    s.take(e.from) + e.text + s.subrange(e.to, f.from) + f.text + s.skip(f.to)
}

pub(crate) proof fn lemma_with_both(s: Seq<u8>, e: EditView, f: EditView)
    requires
        0 <= e.from <= e.to <= f.from <= f.to <= s.len(),
    ensures
        forward(s, seq![e, f], s.len() as int) == with_both(s, e, f),
{
    let both = seq![e, f];
    let n = s.len() as int;
    reveal_with_fuel(forward, 3);
    assert(both.last() == f);
    assert(both.drop_last() =~= seq![e]);
    assert(seq![e].last() == e);
    assert(seq![e].drop_last() =~= Seq::<EditView>::empty());
    assert(s.subrange(f.to, n) =~= s.skip(f.to));
    assert(forward(s, both, n) =~= with_both(s, e, f));
}

/// The later edit, rebased over the earlier one.
#[verifier::rlimit(40)]
proof fn lemma_later_over_earlier(s: Seq<u8>, e: EditView, f: EditView, re: Seq<HunkView>)
    requires
        0 <= e.from <= e.to <= f.from <= f.to <= s.len(),
        one_edit(s, e).len() <= u64::MAX,
        runs_turn(s, one_edit(s, e), re),
        forall|i: int| 0 <= i < re.len() ==> (#[trigger] re[i]).a_to <= f.from,
    ensures
        one_edit(one_edit(s, e), shifted_edit(f, re)) == with_both(s, e, f),
{
    let n = s.len() as int;
    let t = one_edit(s, e);
    lemma_one_edit(s, e);
    lemma_tail_alike(s, t, re, f.from);
    assert forall|i: int| 0 <= i < re.len() implies (#[trigger] re[i]).a_to <= f.to by {}
    lemma_tail_alike(s, t, re, f.to);
    assert forall|i: int| 0 <= i < re.len() implies (#[trigger] re[i]).a_from <= re[i].a_to by {
        crate::diff::lemma_run_inside(s, t, re, n, t.len() as int, i);
    }
    lemma_end_same(f.to, re, f.from);
    lemma_counter(shifted(f.from, re, false));
    lemma_counter(shifted(f.to, re, f.from < f.to));
    let g = shifted_edit(f, re);
    lemma_one_edit(t, g);
    assert(t.take(g.from) =~= s.take(e.from) + e.text + s.subrange(e.to, f.from));
    assert(one_edit(t, g) =~= with_both(s, e, f));
}

/// The earlier edit, rebased over the later one.
#[verifier::rlimit(40)]
proof fn lemma_earlier_over_later(s: Seq<u8>, e: EditView, f: EditView, rf: Seq<HunkView>)
    requires
        0 <= e.from <= e.to <= f.from <= f.to <= s.len(),
        one_edit(s, f).len() <= u64::MAX,
        runs_turn(s, one_edit(s, f), rf),
        !hit(s, e, rf),
        forall|i: int| 0 <= i < rf.len() ==> e.to <= (#[trigger] rf[i]).a_from,
    ensures
        one_edit(one_edit(s, f), shifted_edit(e, rf)) == with_both(s, e, f),
{
    let n = s.len() as int;
    let u = one_edit(s, f);
    lemma_one_edit(s, f);
    assert forall|i: int| 0 <= i < rf.len() implies e.from <= (#[trigger] rf[i]).a_from && e.from < rf[i].a_to by {
        crate::diff::lemma_run_inside(s, u, rf, n, u.len() as int, i);
        assert(!meets(s, e, rf[i]));
    }
    lemma_head_alike(s, u, rf, e.from, false, n, u.len() as int);
    assert forall|i: int| 0 <= i < rf.len() implies e.to <= (#[trigger] rf[i]).a_from && (e.to < rf[i].a_to || (e.from < e.to)
        && e.to == rf[i].a_from) by {
        crate::diff::lemma_run_inside(s, u, rf, n, u.len() as int, i);
        assert(!meets(s, e, rf[i]));
    }
    lemma_head_alike(s, u, rf, e.to, e.from < e.to, n, u.len() as int);
    lemma_counter(shifted(e.from, rf, false));
    lemma_counter(shifted(e.to, rf, e.from < e.to));
    let h = shifted_edit(e, rf);
    lemma_one_edit(u, h);
    assert(u.take(e.from) =~= s.take(e.from));
    assert(u.skip(e.to) =~= s.subrange(e.to, f.from) + f.text + s.skip(f.to));
    assert(one_edit(u, h) =~= with_both(s, e, f));
}

/// Rebase of disjoint edits is commutative: of two edits, whichever is committed first and
/// whichever is rebased over it, the text is that of both. Each edit meets none of the runs
/// that the other one left, and these lie where the other edit is: before or behind it.
pub proof fn law_rebase_commutes(s: Seq<u8>, e: EditView, f: EditView, re: Seq<HunkView>, rf: Seq<HunkView>)
    requires
        0 <= e.from <= e.to <= f.from <= f.to <= s.len(),
        one_edit(s, e).len() <= u64::MAX,
        one_edit(s, f).len() <= u64::MAX,
        runs_turn(s, one_edit(s, e), re),
        runs_turn(s, one_edit(s, f), rf),
        !hit(s, f, re),
        !hit(s, e, rf),
        forall|i: int| 0 <= i < re.len() ==> (#[trigger] re[i]).a_to <= f.from,
        forall|i: int| 0 <= i < rf.len() ==> e.to <= (#[trigger] rf[i]).a_from,
    ensures
        one_edit(one_edit(s, e), shifted_edit(f, re)) == forward(s, seq![e, f], s.len() as int),
        one_edit(one_edit(s, f), shifted_edit(e, rf)) == forward(s, seq![e, f], s.len() as int),
{
    lemma_with_both(s, e, f);
    lemma_later_over_earlier(s, e, f, re);
    lemma_earlier_over_later(s, e, f, rf);
}

/// Where all runs end before the edit begins, its end is carried over like any place.
proof fn lemma_end_same(off: int, runs: Seq<HunkView>, from: int)
    requires
        from <= off,
        forall|i: int| 0 <= i < runs.len() ==> (#[trigger] runs[i]).a_to <= from,
        forall|i: int| 0 <= i < runs.len() ==> (#[trigger] runs[i]).a_from <= runs[i].a_to,
    ensures
        from < off ==> shifted(off, runs, true) == shifted(off, runs, false),
{
    if runs.len() > 0 {
        assert(runs[runs.len() - 1] == runs.last());
    }
}

/// An edit that has all runs behind or before it is carried over to a place in the new text.
pub(crate) proof fn lemma_carried(s: Seq<u8>, t: Seq<u8>, runs: Seq<HunkView>, e: EditView)
    requires
        runs_turn(s, t, runs),
        0 <= e.from <= e.to <= s.len(),
        t.len() <= u64::MAX,
        !hit(s, e, runs),
        (forall|i: int| 0 <= i < runs.len() ==> (#[trigger] runs[i]).a_to <= e.from) || (forall|i: int|
            0 <= i < runs.len() ==> e.to <= (#[trigger] runs[i]).a_from),
    ensures
        ascending(shifted_edits(seq![e], runs), t.len() as int),
        text_added(shifted_edits(seq![e], runs)) == e.text.len(),
        rebased(s, t, runs, seq![e]) == Rebase::Edits(shifted_edits(seq![e], runs), CommitKind::Rebased),
{
    let n = s.len() as int;
    let m = t.len() as int;
    assert forall|i: int| 0 <= i < runs.len() implies (#[trigger] runs[i]).a_from <= runs[i].a_to by {
        crate::diff::lemma_run_inside(s, t, runs, n, m, i);
    }
    if forall|i: int| 0 <= i < runs.len() ==> (#[trigger] runs[i]).a_to <= e.from {
        lemma_tail_alike(s, t, runs, e.from);
        lemma_tail_alike(s, t, runs, e.to);
        lemma_end_same(e.to, runs, e.from);
    } else {
        assert forall|i: int| 0 <= i < runs.len() implies e.from <= (#[trigger] runs[i]).a_from && e.from < runs[i].a_to by {
            assert(!meets(s, e, runs[i]));
        }
        lemma_head_alike(s, t, runs, e.from, false, n, m);
        assert forall|i: int| 0 <= i < runs.len() implies e.to <= (#[trigger] runs[i]).a_from && (e.to < runs[i].a_to || (e.from
            < e.to) && e.to == runs[i].a_from) by {
            assert(!meets(s, e, runs[i]));
        }
        lemma_head_alike(s, t, runs, e.to, e.from < e.to, n, m);
    }
    lemma_counter(shifted(e.from, runs, false));
    lemma_counter(shifted(e.to, runs, e.from < e.to));
    let x = shifted_edits(seq![e], runs);
    assert(x =~= seq![shifted_edit(e, runs)]);
    reveal_with_fuel(text_added, 2);
    assert(x.drop_last() =~= Seq::empty());
    reveal_with_fuel(hit_span, 2);
    assert(seq![e].last() == e);
    assert(seq![e].drop_last() =~= Seq::empty());
}

} // verus!
