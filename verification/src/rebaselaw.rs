//! What a rebase does with edits: none is lost, and none is carried into a line that changed.

use vstd::prelude::*;
use crate::chunker::lemma_newlines_concat;
use crate::commit::CommitKind;
use crate::commute::lemma_line_at_order;
use crate::diff::{lemma_run_inside, rewrites, runs_turn};
use crate::linelaw::lemma_no_newlines;
use crate::merge::merged;
use crate::mergelaw::{base_text, both_changed, law_refused_merge, our_text, their_text, Place};
use crate::myers::HunkView;
use crate::patch::{ascending, forward, lemma_ascending_front, EditView};
use crate::rebase::{
    by_place, conflict_told, edited_head, edited_span, edits_end, hit, hit_span, lemma_counter, meets, merge_span, merging,
    passing, placed, rebased, shifted, shifted_edit, shifted_edits, within, Rebase, Span,
};
use crate::text::utf8_lossy;
use crate::tree::{clip, line_at};

verus! {

/// Without a newline between them, two places are on one line.
proof fn lemma_same_line(s: Seq<u8>, x: int, y: int)
    requires
        0 <= x <= y <= s.len(),
        forall|k: int| x <= k < y ==> s[k] != 10,
    ensures
        line_at(s, x) == line_at(s, y),
{
    assert(s.take(y) =~= s.take(x) + s.subrange(x, y));
    lemma_newlines_concat(s.take(x), s.subrange(x, y));
    lemma_no_newlines(s.subrange(x, y));
}

/// The last byte that decides on which lines an edit is.
pub open spec fn last_byte(e: EditView) -> int {
    if e.to > e.from {
        e.to - 1
    } else {
        e.from
    }
}

/// The text from `a` to `b` is on the lines that an edit touches, and around it.
pub open spec fn on_its_lines(s: Seq<u8>, e: EditView, a: int, b: int) -> bool {
    &&& 0 <= a <= e.from <= e.to <= b <= s.len()
    &&& forall|k: int| a <= k < e.from ==> s[k] != 10
    &&& forall|k: int| last_byte(e) <= k < b - 1 ==> s[k] != 10
}

/// A run that shares no line with an edit lies before or behind the edit's lines.
#[verifier::rlimit(60)]
proof fn lemma_run_apart(s: Seq<u8>, e: EditView, r: HunkView, a: int, b: int)
    requires
        on_its_lines(s, e, a, b),
        0 <= r.a_from <= r.a_to <= s.len(),
        !meets(s, e, r),
    ensures
        r.a_to <= a || r.a_from >= b,
        e.from == e.to ==> !(r.a_from == e.from && r.a_to == e.from),
{
    let rl = if r.a_to > r.a_from {
        r.a_to - 1
    } else {
        r.a_from
    };
    let el = last_byte(e);
    lemma_same_line(s, a, e.from);
    if r.a_to > a && r.a_from < b {
        if rl >= a {
            lemma_line_at_order(s, a, rl);
        }
        assert(line_at(s, e.from) <= line_at(s, rl));
        if b - 1 >= el {
            lemma_same_line(s, el, b - 1);
            lemma_line_at_order(s, r.a_from, b - 1);
        } else {
            lemma_line_at_order(s, r.a_from, el);
        }
        assert(line_at(s, r.a_from) <= line_at(s, el));
    }
}

/// Places between runs keep the text around them.
#[verifier::rlimit(60)]
proof fn lemma_carry(s: Seq<u8>, t: Seq<u8>, runs: Seq<HunkView>, x: int, y: int, e: EditView, a: int, b: int)
    requires
        rewrites(s, t, runs, x, y),
        0 <= a <= e.from <= e.to <= b <= x,
        forall|i: int|
            0 <= i < runs.len() ==> ((#[trigger] runs[i]).a_to <= a || runs[i].a_from >= b) && (e.from == e.to ==> !(
            runs[i].a_from == e.from && runs[i].a_to == e.from)),
    ensures
        ({
            let cf = shifted(e.from, runs, false);
            let ct = shifted(e.to, runs, e.from < e.to);
            &&& 0 <= cf - (e.from - a)
            &&& ct + (b - e.to) <= y <= t.len()
            &&& ct - cf == e.to - e.from
            &&& t.subrange(cf - (e.from - a), ct + (b - e.to)) == s.subrange(a, b)
        }),
    decreases runs.len(),
{
    let cf = shifted(e.from, runs, false);
    let ct = shifted(e.to, runs, e.from < e.to);
    if runs.len() == 0 {
        assert(s.take(x).len() == t.take(y).len());
        assert(s.subrange(a, b) =~= s.take(x).subrange(a, b));
        assert(t.subrange(a, b) =~= t.take(y).subrange(a, b));
    } else {
        let r = runs.last();
        assert(runs[runs.len() - 1] == r);
        let front = runs.drop_last();
        if r.a_to <= a {
            let u = s.subrange(r.a_to, x);
            let v = t.subrange(r.b_to, y);
            assert(u.len() == v.len());
            assert(s.subrange(a, b) =~= u.subrange(a - r.a_to, b - r.a_to));
            assert(t.subrange(cf - (e.from - a), ct + (b - e.to)) =~= v.subrange(a - r.a_to, b - r.a_to));
        } else {
            assert forall|i: int| 0 <= i < front.len() implies ((#[trigger] front[i]).a_to <= a || front[i].a_from >= b) && (
            e.from == e.to ==> !(front[i].a_from == e.from && front[i].a_to == e.from)) by {
                assert(front[i] == runs[i]);
            }
            lemma_carry(s, t, front, r.a_from, r.b_from, e, a, b);
        }
    }
}

proof fn lemma_no_hits(s: Seq<u8>, es: Seq<EditView>, runs: Seq<HunkView>)
    ensures
        hit_span(s, es, runs) is None <==> forall|i: int| 0 <= i < es.len() ==> !hit(s, #[trigger] es[i], runs),
    decreases es.len(),
{
    if es.len() > 0 {
        let front = es.drop_last();
        lemma_no_hits(s, front, runs);
        assert(es[es.len() - 1] == es.last());
        if forall|i: int| 0 <= i < front.len() ==> !hit(s, #[trigger] front[i], runs) {
            if !hit(s, es.last(), runs) {
                assert forall|i: int| 0 <= i < es.len() implies !hit(s, #[trigger] es[i], runs) by {
                    if i < front.len() {
                        assert(front[i] == es[i]);
                    }
                }
            }
        } else {
            let i = choose|i: int| 0 <= i < front.len() && hit(s, #[trigger] front[i], runs);
            assert(es[i] == front[i]);
        }
    }
}

/// Edits that are carried over without a merge: each finds the lines that it edits as they were, at
/// the same place in them, and puts the same text there. Nobody else has changed these lines.
#[verifier::rlimit(60)]
pub proof fn law_carried_edits_find_their_lines(
    s: Seq<u8>,
    t: Seq<u8>,
    runs: Seq<HunkView>,
    es: Seq<EditView>,
    out: Seq<EditView>,
    i: int,
    a: int,
    b: int,
)
    requires
        runs_turn(s, t, runs),
        t.len() <= u64::MAX,
        ascending(es, s.len() as int),
        rebased(s, t, runs, es) == Rebase::Edits(out, CommitKind::Rebased),
        0 <= i < es.len(),
        on_its_lines(s, es[i], a, b),
    ensures
        out.len() == es.len(),
        out[i].text == es[i].text,
        0 <= out[i].from - (es[i].from - a),
        out[i].from <= out[i].to <= out[i].to + (b - es[i].to) <= t.len(),
        t.subrange(out[i].from - (es[i].from - a), out[i].to + (b - es[i].to)) == s.subrange(a, b),
        t.subrange(out[i].from, out[i].to) == s.subrange(es[i].from, es[i].to),
{
    let e = es[i];
    lemma_no_hits(s, es, runs);
    assert(hit_span(s, es, runs) is None);
    assert(!hit(s, e, runs));
    let n = s.len() as int;
    let m = t.len() as int;
    assert forall|k: int| 0 <= k < runs.len() implies ((#[trigger] runs[k]).a_to <= a || runs[k].a_from >= b) && (e.from == e.to
        ==> !(runs[k].a_from == e.from && runs[k].a_to == e.from)) by {
        lemma_run_inside(s, t, runs, n, m, k);
        assert(!meets(s, e, runs[k]));
        lemma_run_apart(s, e, runs[k], a, b);
    }
    lemma_carry(s, t, runs, n, m, e, a, b);
    let cf = shifted(e.from, runs, false);
    let ct = shifted(e.to, runs, e.from < e.to);
    lemma_counter(cf);
    lemma_counter(ct);
    assert(out == shifted_edits(es, runs));
    assert(out[i] == shifted_edit(e, runs));
    let w = t.subrange(cf - (e.from - a), ct + (b - e.to));
    assert(t.subrange(cf, ct) =~= w.subrange(e.from - a, e.to - a));
    assert(s.subrange(e.from, e.to) =~= s.subrange(a, b).subrange(e.from - a, e.to - a));
}

/// An edit of a line that somebody else has changed is not carried over as it is: it is merged, or
/// the commit is refused.
pub proof fn law_edit_of_changed_line_is_merged(
    s: Seq<u8>,
    t: Seq<u8>,
    runs: Seq<HunkView>,
    es: Seq<EditView>,
    i: int,
    k: int,
    p: int,
    q: int,
)
    requires
        0 <= i < es.len(),
        0 <= k < runs.len(),
        0 <= es[i].from <= p <= last_byte(es[i]) <= s.len(),
        0 <= runs[k].a_from <= q <= runs[k].a_to <= s.len(),
        q < runs[k].a_to || q == runs[k].a_from,
        line_at(s, p) == line_at(s, q),
    ensures
        match rebased(s, t, runs, es) {
            Rebase::Edits(_, kind) => kind == CommitKind::Merged,
            Rebase::Clash(_) => true,
        },
{
    let e = es[i];
    let r = runs[k];
    lemma_line_at_order(s, e.from, p);
    lemma_line_at_order(s, p, last_byte(e));
    lemma_line_at_order(s, r.a_from, q);
    if r.a_to > r.a_from {
        lemma_line_at_order(s, q, r.a_to - 1);
    }
    assert(meets(s, e, r));
    assert(hit(s, e, runs));
    lemma_no_hits(s, es, runs);
}

/// A rebase is refused only where both sides changed the same lines, and not alike: the texts that
/// the conflict reports have such lines.
pub proof fn law_clash_has_conflict(s: Seq<u8>, t: Seq<u8>, runs: Seq<HunkView>, es: Seq<EditView>)
    ensures
        rebased(s, t, runs, es) matches Rebase::Clash(m) ==> exists|p: Place, q: Place|
            {
                &&& #[trigger] both_changed(m.base, m.ours, m.theirs, p, q)
                &&& our_text(m.base, m.ours, p, q) != their_text(m.base, m.theirs, p, q)
                &&& our_text(m.base, m.ours, p, q) != base_text(m.base, p, q)
                &&& their_text(m.base, m.theirs, p, q) != base_text(m.base, p, q)
            },
{
    match rebased(s, t, runs, es) {
        Rebase::Clash(m) => {
            law_refused_merge(m.base, m.ours, m.theirs);
        },
        _ => {},
    }
}

/// Each edit is either merged in the region or carried over.
#[verifier::rlimit(60)]
proof fn lemma_split_complete(s: Seq<u8>, es: Seq<EditView>, runs: Seq<HunkView>, x: Span)
    ensures
        merging(s, es, runs, x).len() + passing(s, es, runs, x).len() == es.len(),
        forall|i: int|
            0 <= i < es.len() ==> merging(s, es, runs, x).contains(#[trigger] es[i]) || passing(s, es, runs, x).contains(
                shifted_edit(es[i], runs),
            ),
        forall|i: int|
            0 <= i < es.len() && hit(s, #[trigger] es[i], runs) ==> merging(s, es, runs, x).contains(es[i]),
    decreases es.len(),
{
    if es.len() > 0 {
        let front = es.drop_last();
        let e = es.last();
        lemma_split_complete(s, front, runs, x);
        let m0 = merging(s, front, runs, x);
        let p0 = passing(s, front, runs, x);
        let m = merging(s, es, runs, x);
        let p = passing(s, es, runs, x);
        assert forall|i: int| 0 <= i < es.len() implies (m.contains(#[trigger] es[i]) || p.contains(shifted_edit(es[i], runs)))
            && (hit(s, es[i], runs) ==> m.contains(es[i])) by {
            if i < front.len() {
                assert(front[i] == es[i]);
                if m0.contains(es[i]) {
                    let k = choose|k: int| 0 <= k < m0.len() && m0[k] == es[i];
                    assert(m[k] == es[i]);
                } else {
                    let k = choose|k: int| 0 <= k < p0.len() && p0[k] == shifted_edit(es[i], runs);
                    assert(p[k] == shifted_edit(es[i], runs));
                }
            } else if within(e, x) || hit(s, e, runs) {
                assert(m[m.len() - 1] == es[i]);
            } else {
                assert(p[p.len() - 1] == shifted_edit(es[i], runs));
            }
        }
    }
}

proof fn lemma_placed(es: Seq<EditView>, e: EditView)
    ensures
        placed(es, e).len() == es.len() + 1,
        placed(es, e).contains(e),
        forall|x: EditView| es.contains(x) ==> #[trigger] placed(es, e).contains(x),
    decreases es.len(),
{
    let out = placed(es, e);
    if es.len() == 0 || es.last().from <= e.from {
        assert(out[es.len() as int] == e);
        assert forall|x: EditView| es.contains(x) implies #[trigger] out.contains(x) by {
            let k = choose|k: int| 0 <= k < es.len() && es[k] == x;
            assert(out[k] == x);
        }
    } else {
        let front = es.drop_last();
        lemma_placed(front, e);
        let put = placed(front, e);
        assert(put.contains(e));
        let k = choose|k: int| 0 <= k < put.len() && put[k] == e;
        assert(out[k] == e);
        assert forall|x: EditView| es.contains(x) implies #[trigger] out.contains(x) by {
            let j = choose|j: int| 0 <= j < es.len() && es[j] == x;
            if j < front.len() {
                assert(front[j] == x);
                assert(put.contains(x));
                let k = choose|k: int| 0 <= k < put.len() && put[k] == x;
                assert(out[k] == x);
            } else {
                assert(out[out.len() - 1] == x);
            }
        }
    }
}

proof fn lemma_by_place(es: Seq<EditView>)
    ensures
        by_place(es).len() == es.len(),
        forall|x: EditView| es.contains(x) ==> #[trigger] by_place(es).contains(x),
    decreases es.len(),
{
    if es.len() > 0 {
        let front = es.drop_last();
        lemma_by_place(front);
        lemma_placed(by_place(front), es.last());
        assert forall|x: EditView| es.contains(x) implies #[trigger] by_place(es).contains(x) by {
            let j = choose|j: int| 0 <= j < es.len() && es[j] == x;
            if j < front.len() {
                assert(front[j] == x);
                assert(by_place(front).contains(x));
            }
        }
    }
}

/// Where edits are merged, none is lost: each goes into the merge, as all do that share a line with
/// somebody else's change, or is carried over beside it; and the merge is put in place of its region.
pub proof fn law_merge_loses_no_edit(
    s: Seq<u8>,
    t: Seq<u8>,
    runs: Seq<HunkView>,
    es: Seq<EditView>,
    out: Seq<EditView>,
)
    requires
        rebased(s, t, runs, es) == Rebase::Edits(out, CommitKind::Merged),
    ensures
        ({
            let x = merge_span(s, runs, es);
            let merged_in = merging(s, es, runs, x);
            let m = crate::rebase::merge_input(s, t, runs, es);
            &&& out.len() == es.len() - merged_in.len() + 1
            &&& merged(m.base, m.ours, m.theirs) matches Some(text) && out.contains(EditView { from: m.lo, to: m.hi, text })
            &&& forall|i: int|
                0 <= i < es.len() ==> merged_in.contains(#[trigger] es[i]) || out.contains(shifted_edit(es[i], runs))
            &&& forall|i: int| 0 <= i < es.len() && hit(s, #[trigger] es[i], runs) ==> merged_in.contains(es[i])
            &&& by_place(merged_in).len() == merged_in.len()
        }),
{
    let x = merge_span(s, runs, es);
    let m = crate::rebase::merge_input(s, t, runs, es);
    lemma_split_complete(s, es, runs, x);
    let p = passing(s, es, runs, x);
    lemma_by_place(p);
    lemma_by_place(merging(s, es, runs, x));
    let text = merged(m.base, m.ours, m.theirs)->0;
    lemma_placed(by_place(p), EditView { from: m.lo, to: m.hi, text });
    assert forall|i: int| 0 <= i < es.len() implies merging(s, es, runs, x).contains(#[trigger] es[i]) || out.contains(
        shifted_edit(es[i], runs),
    ) by {
        if p.contains(shifted_edit(es[i], runs)) {
            assert(by_place(p).contains(shifted_edit(es[i], runs)));
        }
    }
}

/// The text of a region after edits in it is the document after these edits, as far as the region
/// goes.
pub proof fn law_edited_region(s: Seq<u8>, es: Seq<EditView>, x: Span)
    requires
        0 <= x.lo <= x.hi <= s.len(),
        ascending(es, x.hi),
        forall|i: int| 0 <= i < es.len() ==> x.lo <= (#[trigger] es[i]).from,
    ensures
        s.take(x.lo) + edited_span(s, es, x) + s.skip(x.hi) == forward(s, es, s.len() as int),
{
    lemma_edited_head(s, es, x.lo, x.hi);
    let e = edits_end(es, x.lo);
    if es.len() > 0 {
        assert(es[es.len() - 1] == es.last());
    }
    let mid = clip(s, e, x.hi);
    assert(mid =~= s.subrange(e, x.hi));
    let head = s.take(x.lo) + edited_head(s, es, x.lo);
    assert(s.take(x.lo) + (edited_head(s, es, x.lo) + mid) + s.skip(x.hi) =~= head + s.subrange(e, s.len() as int));
    if es.len() == 0 {
        assert(head + s.subrange(e, s.len() as int) =~= s.take(s.len() as int));
    }
}

proof fn lemma_edited_head(s: Seq<u8>, es: Seq<EditView>, lo: int, hi: int)
    requires
        0 <= lo <= hi <= s.len(),
        ascending(es, hi),
        forall|i: int| 0 <= i < es.len() ==> lo <= (#[trigger] es[i]).from,
    ensures
        es.len() > 0 ==> s.take(lo) + edited_head(s, es, lo) == forward(s, es.drop_last(), es.last().from) + es.last().text,
    decreases es.len(),
{
    if es.len() > 0 {
        let e = es.last();
        let front = es.drop_last();
        assert(es[es.len() - 1] == e);
        lemma_ascending_front(es, hi);
        assert forall|i: int| 0 <= i < front.len() implies lo <= (#[trigger] front[i]).from by {
            assert(front[i] == es[i]);
        }
        lemma_edited_head(s, front, lo, e.from);
        let at = edits_end(front, lo);
        if front.len() > 0 {
            assert(front[front.len() - 1] == front.last());
        }
        let gap = clip(s, at, e.from);
        assert(gap =~= s.subrange(at, e.from));
        let head = edited_head(s, front, lo);
        assert(s.take(lo) + (head + gap + e.text) =~= s.take(lo) + head + gap + e.text);
        if front.len() == 0 {
            assert(s.take(lo) + head + gap =~= s.take(e.from));
        }
    }
}

/// A conflict reports the region's lines of the document as it now is as theirs, as it was as the base,
/// and with the refused edits made as ours; and the document and version it is about.
pub proof fn law_conflict_reports_region(
    s: Seq<u8>,
    t: Seq<u8>,
    runs: Seq<HunkView>,
    es: Seq<EditView>,
    m: crate::rebase::Clash,
    path: Seq<char>,
    version: u64,
    info: crate::commit::ConflictInfo,
)
    requires
        rebased(s, t, runs, es) == Rebase::Clash(m),
        conflict_told(t, m, path, version, info),
    ensures
        ({
            let x = merge_span(s, runs, es);
            &&& info.path@ == path
            &&& info.current_version == version
            &&& info.theirs@ == utf8_lossy(clip(t, m.lo, m.hi))
            &&& info.base@ == utf8_lossy(clip(s, x.lo, x.hi))
            &&& info.ours@ == utf8_lossy(edited_span(s, by_place(merging(s, es, runs, x)), x))
        }),
{
}

} // verus!
