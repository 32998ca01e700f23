//! Tree diff: skip identical subtrees, emit changed leaf runs, and render them as unified
//! diff at line granularity.

use vstd::prelude::*;
use vstd::string::*;
use crate::edit::{leaf_start, Edit};
use crate::hash::same_hash;
use crate::lines::slice_views;
use crate::model::{
    doc, height, leaf_level, leaf_ok, leaf_text, lemma_leaf_sums, lemma_leaf_text_concat, level_ok, sound, tree_ok,
    tree_text, Store,
};
use crate::myers::{
    alike, corner, diff_of, hunk_views, item_diff, law_diff_turns, lemma_diff_of, lemma_turns_fit, turns, Hunk, HunkView,
    Point,
};
use crate::node::{lemma_sums_concat, lemma_sums_take, sum_bytes, sum_lines, Entry};
use crate::patch::{
    ascending, byte_edits, edit_view, edit_views, edits_between, forward, lemma_ascending_front, lemma_edits_between,
    EditView,
};
use crate::shared::{
    common_prefix, common_suffix, leaves_in, lemma_picked_concat, lemma_picked_none, lemma_prefix, lemma_suffix, picked,
    prefix_len, root_height, spots_of, suffix_len, Spot,
};
use crate::storage::{missing_node, plain_failure, Result, Storage};
use crate::tree::{clip, doc_leaves, lemma_doc_sums, lemma_level_leaf_sums, materialize_range, LeafRef};

pub use crate::regions::{leaf_children, line_hunks, unified_diff, LineHunk};

verus! {

/// A changed region: bytes `[a_from, a_to)` of `a` became `[b_from, b_to)` of `b`.
#[derive(Clone, Copy, Debug, PartialEq, Eq)]
pub struct ChangedRun {
    pub a_from: u64,
    pub a_to: u64,
    pub b_from: u64,
    pub b_to: u64,
}

impl View for ChangedRun {
    type V = HunkView;

    open spec fn view(&self) -> HunkView {
        HunkView {
            a_from: self.a_from as int,
            a_to: self.a_to as int,
            b_from: self.b_from as int,
            b_to: self.b_to as int,
        }
    }
}

pub open spec fn run_views(runs: Seq<ChangedRun>) -> Seq<HunkView> {
    Seq::new(runs.len(), |i: int| runs[i]@)
}

impl ChangedRun {
    /// By how many bytes the region grew.
    pub fn delta(&self) -> (r: i64)
        requires
            self.a_from <= self.a_to,
            self.b_from <= self.b_to,
            self.a_to - self.a_from <= i64::MAX,
            self.b_to - self.b_from <= i64::MAX,
        ensures
            r == (self.b_to - self.b_from) - (self.a_to - self.a_from),
    {
        (self.b_to - self.b_from) as i64 - (self.a_to - self.a_from) as i64
    }
}

/// Replacing each run of `a[..x]` by what it became gives `b[..y]`: outside the runs, which
/// stand in order, the two texts are the same.
pub open spec fn rewrites<T>(a: Seq<T>, b: Seq<T>, runs: Seq<HunkView>, x: int, y: int) -> bool
    decreases runs.len(),
{
    if runs.len() == 0 {
        0 <= x <= a.len() && 0 <= y <= b.len() && a.take(x) == b.take(y)
    } else {
        let r = runs.last();
        &&& 0 <= r.a_from <= r.a_to <= x <= a.len()
        &&& 0 <= r.b_from <= r.b_to <= y <= b.len()
        &&& a.subrange(r.a_to, x) == b.subrange(r.b_to, y)
        &&& rewrites(a, b, runs.drop_last(), r.a_from, r.b_from)
    }
}

/// The runs turn `a` into `b`.
pub open spec fn runs_turn(a: Seq<u8>, b: Seq<u8>, runs: Seq<HunkView>) -> bool {
    rewrites(a, b, runs, a.len() as int, b.len() as int)
}

pub proof fn lemma_rewrites_extend<T>(a: Seq<T>, b: Seq<T>, runs: Seq<HunkView>, x: int, y: int, x2: int, y2: int)
    requires
        rewrites(a, b, runs, x, y),
        x <= x2 <= a.len(),
        y <= y2 <= b.len(),
        a.subrange(x, x2) == b.subrange(y, y2),
    ensures
        rewrites(a, b, runs, x2, y2),
{
    if runs.len() == 0 {
        assert(a.take(x2) =~= a.take(x) + a.subrange(x, x2));
        assert(b.take(y2) =~= b.take(y) + b.subrange(y, y2));
    } else {
        let r = runs.last();
        assert(a.subrange(r.a_to, x2) =~= a.subrange(r.a_to, x) + a.subrange(x, x2));
        assert(b.subrange(r.b_to, y2) =~= b.subrange(r.b_to, y) + b.subrange(y, y2));
    }
}

/// By how many bytes some edits make a text grow.
pub open spec fn growth(es: Seq<EditView>) -> int
    decreases es.len(),
{
    if es.len() == 0 {
        0
    } else {
        growth(es.drop_last()) + es.last().text.len() - (es.last().to - es.last().from)
    }
}

/// Edits of a part that begins at `a0` in the old text and at `b0` in the new one, as runs.
pub open spec fn edit_runs(es: Seq<EditView>, a0: int, b0: int) -> Seq<HunkView>
    decreases es.len(),
{
    if es.len() == 0 {
        Seq::empty()
    } else {
        let e = es.last();
        let at = b0 + e.from + growth(es.drop_last());
        edit_runs(es.drop_last(), a0, b0).push(
            HunkView { a_from: a0 + e.from, a_to: a0 + e.to, b_from: at, b_to: at + e.text.len() },
        )
    }
}

/// A run split into the differences inside it.
pub open spec fn refined(a: Seq<u8>, b: Seq<u8>, r: HunkView) -> Seq<HunkView> {
    edit_runs(edits_between(clip(a, r.a_from, r.a_to), clip(b, r.b_from, r.b_to)), r.a_from, r.b_from)
}

pub open spec fn all_refined(a: Seq<u8>, b: Seq<u8>, rs: Seq<HunkView>) -> Seq<HunkView>
    decreases rs.len(),
{
    if rs.len() == 0 {
        Seq::empty()
    } else {
        all_refined(a, b, rs.drop_last()) + refined(a, b, rs.last())
    }
}

/// Where the `i`-th of some leaves begins, or where they end.
pub open spec fn spot_at(ls: Seq<Spot>, i: int, end: int) -> int {
    if i < ls.len() {
        ls[i].byte_off
    } else {
        end
    }
}

pub open spec fn spot_hashes(ls: Seq<Spot>) -> Seq<Seq<u8>> {
    Seq::new(ls.len(), |i: int| ls[i].leaf.hash)
}

/// Hunks of leaves as runs of bytes.
pub open spec fn leaf_run(al: Seq<Spot>, a_end: int, bl: Seq<Spot>, b_end: int, h: HunkView) -> HunkView {
    HunkView {
        a_from: spot_at(al, h.a_from, a_end),
        a_to: spot_at(al, h.a_to, a_end),
        b_from: spot_at(bl, h.b_from, b_end),
        b_to: spot_at(bl, h.b_to, b_end),
    }
}

pub open spec fn leaf_runs(al: Seq<Spot>, a_end: int, bl: Seq<Spot>, b_end: int, hs: Seq<HunkView>) -> Seq<HunkView> {
    Seq::new(hs.len(), |i: int| leaf_run(al, a_end, bl, b_end, hs[i]))
}

/// Leaf edits a tree diff may have before it gives up looking for the shortest script.
pub const MAX_LEAF_EDITS: usize = 2048;

pub open spec fn smaller(x: int, y: int) -> int {
    if x < y {
        x
    } else {
        y
    }
}

/// The parts of two documents left between the subtrees they share at front and back.
pub struct Middle {
    pub from: int,
    pub a_to: int,
    pub b_to: int,
}

pub open spec fn middle(st: Store, a: Seq<Entry>, b: Seq<Entry>) -> Middle {
    let da = root_height(st, a);
    let db = root_height(st, b);
    let p = prefix_len(st, a, da, b, db) as int;
    let s = suffix_len(st, a, da, b, db, smaller(sum_bytes(a) - p, sum_bytes(b) - p)) as int;
    Middle { from: p, a_to: sum_bytes(a) - s, b_to: sum_bytes(b) - s }
}

/// The changed runs between two documents: the leaf runs of the middle, refined.
pub open spec fn runs_between(st: Store, a: Seq<u8>, b: Seq<u8>) -> Seq<HunkView> {
    if a == b {
        Seq::empty()
    } else {
        all_refined(doc(st, a), doc(st, b), coarse_runs(st, st.nodes[a], st.nodes[b]))
    }
}

/// The changed runs between two documents at the granularity of leaves.
pub open spec fn coarse_runs(st: Store, a: Seq<Entry>, b: Seq<Entry>) -> Seq<HunkView> {
    let m = middle(st, a, b);
    let al = picked(doc_leaves(st, a), m.from, m.a_to, 0, 0);
    let bl = picked(doc_leaves(st, b), m.from, m.b_to, 0, 0);
    leaf_runs(al, m.a_to, bl, m.b_to, diff_of(spot_hashes(al), spot_hashes(bl), MAX_LEAF_EDITS as nat))
}

proof fn lemma_growth_concat_forward(a: Seq<u8>, es: Seq<EditView>, x: int)
    requires
        ascending(es, x),
        0 <= x <= a.len(),
    ensures
        forward(a, es, x).len() == x + growth(es),
    decreases es.len(),
{
    if es.len() > 0 {
        let e = es.last();
        assert(es[es.len() - 1] == e);
        lemma_ascending_front(es, x);
        lemma_growth_concat_forward(a, es.drop_last(), e.from);
    }
}

/// The edits of a part, as runs behind those before the part.
proof fn lemma_edit_runs(a: Seq<u8>, b: Seq<u8>, front: Seq<HunkView>, r: HunkView, es: Seq<EditView>, x: int)
    requires
        rewrites(a, b, front, r.a_from, r.b_from),
        0 <= r.a_from <= r.a_to <= a.len(),
        0 <= r.b_from <= r.b_to <= b.len(),
        ascending(es, x),
        0 <= x <= r.a_to - r.a_from,
        x + growth(es) <= r.b_to - r.b_from,
        forward(a.subrange(r.a_from, r.a_to), es, x) == b.subrange(r.b_from, r.b_from + x + growth(es)),
    ensures
        rewrites(a, b, front + edit_runs(es, r.a_from, r.b_from), r.a_from + x, r.b_from + x + growth(es)),
    decreases es.len(),
{
    let pa = a.subrange(r.a_from, r.a_to);
    lemma_growth_concat_forward(pa, es, x);
    if es.len() == 0 {
        assert(front + edit_runs(es, r.a_from, r.b_from) =~= front);
        assert(pa.take(x) =~= a.subrange(r.a_from, r.a_from + x));
        lemma_rewrites_extend(a, b, front, r.a_from, r.b_from, r.a_from + x, r.b_from + x);
    } else {
        let e = es.last();
        assert(es[es.len() - 1] == e);
        let f = es.drop_last();
        lemma_ascending_front(es, x);
        lemma_growth_concat_forward(pa, f, e.from);
        let head = forward(pa, f, e.from);
        let tail = pa.subrange(e.to, x);
        let cut = (head.len() + e.text.len()) as int;
        let whole = b.subrange(r.b_from, r.b_from + x + growth(es));
        assert(whole == head + e.text + tail);
        let at = r.b_from + e.from + growth(f);
        assert(head =~= whole.take(head.len() as int));
        assert(whole.take(head.len() as int) =~= b.subrange(r.b_from, at));
        lemma_edit_runs(a, b, front, r, f, e.from);
        let run = HunkView { a_from: r.a_from + e.from, a_to: r.a_from + e.to, b_from: at, b_to: at + e.text.len() };
        let out = front + edit_runs(es, r.a_from, r.b_from);
        assert(out =~= (front + edit_runs(f, r.a_from, r.b_from)).push(run));
        assert(out.drop_last() =~= front + edit_runs(f, r.a_from, r.b_from));
        assert(out.last() == run);
        assert(tail =~= whole.skip(cut));
        assert(whole.skip(cut) =~= b.subrange(run.b_to, r.b_from + x + growth(es)));
        assert(tail =~= a.subrange(run.a_to, r.a_from + x));
    }
}

/// A run refined covers the same part.
proof fn lemma_refined(a: Seq<u8>, b: Seq<u8>, front: Seq<HunkView>, r: HunkView)
    requires
        rewrites(a, b, front, r.a_from, r.b_from),
        0 <= r.a_from <= r.a_to <= a.len(),
        0 <= r.b_from <= r.b_to <= b.len(),
    ensures
        rewrites(a, b, front + refined(a, b, r), r.a_to, r.b_to),
{
    let pa = clip(a, r.a_from, r.a_to);
    let pb = clip(b, r.b_from, r.b_to);
    assert(pa =~= a.subrange(r.a_from, r.a_to));
    assert(pb =~= b.subrange(r.b_from, r.b_to));
    let es = edits_between(pa, pb);
    lemma_edits_between(pa, pb);
    lemma_growth_concat_forward(pa, es, pa.len() as int);
    assert(pb == b.subrange(r.b_from, r.b_from + pa.len() + growth(es)));
    lemma_edit_runs(a, b, front, r, es, pa.len() as int);
}

/// Runs refined turn `a` into `b` where the runs did.
proof fn lemma_all_refined(a: Seq<u8>, b: Seq<u8>, rs: Seq<HunkView>, x: int, y: int)
    requires
        rewrites(a, b, rs, x, y),
    ensures
        rewrites(a, b, all_refined(a, b, rs), x, y),
    decreases rs.len(),
{
    if rs.len() > 0 {
        let r = rs.last();
        lemma_all_refined(a, b, rs.drop_last(), r.a_from, r.b_from);
        lemma_refined(a, b, all_refined(a, b, rs.drop_last()), r);
        lemma_rewrites_extend(a, b, all_refined(a, b, rs), r.a_to, r.b_to, x, y);
    }
}

/// All leaves of a row that lies inside `[from, to)`.
proof fn lemma_picked_all(row: Seq<Entry>, from: int, to: int, boff: int, loff: int)
    requires
        forall|i: int| 0 <= i < row.len() ==> (#[trigger] row[i]).nbytes > 0,
        from <= boff,
        boff + sum_bytes(row) <= to,
    ensures
        picked(row, from, to, boff, loff).len() == row.len(),
        forall|i: int|
            0 <= i < row.len() ==> (#[trigger] picked(row, from, to, boff, loff)[i]).leaf == row[i] && picked(
                row,
                from,
                to,
                boff,
                loff,
            )[i].byte_off == boff + sum_bytes(row.take(i)),
    decreases row.len(),
{
    if row.len() > 0 {
        let front = row.drop_last();
        assert(row.last() == row[row.len() - 1]);
        assert forall|i: int| 0 <= i < front.len() implies (#[trigger] front[i]).nbytes > 0 by {
            assert(front[i] == row[i]);
        }
        lemma_picked_all(front, from, to, boff, loff);
        let all = picked(row, from, to, boff, loff);
        assert forall|i: int| 0 <= i < row.len() implies (#[trigger] all[i]).leaf == row[i] && all[i].byte_off == boff
            + sum_bytes(row.take(i)) by {
            if i < front.len() {
                assert(all[i] == picked(front, from, to, boff, loff)[i]);
                assert(row.take(i) =~= front.take(i));
            } else {
                assert(row.take(i) =~= front);
            }
        }
    }
}

/// The leaves of a row between its first `k` and its last `m`.
proof fn lemma_picked_middle(st: Store, row: Seq<Entry>, k: int, m: int)
    requires
        level_ok(st, row, 1),
        0 <= k <= m <= row.len(),
    ensures
        ({
            let al = picked(row, sum_bytes(row.take(k)) as int, sum_bytes(row.take(m)) as int, 0, 0);
            &&& al.len() == m - k
            &&& forall|i: int|
                0 <= i < al.len() ==> (#[trigger] al[i]).leaf == row[k + i] && al[i].byte_off == sum_bytes(row.take(k + i))
        }),
{
    let from = sum_bytes(row.take(k)) as int;
    let to = sum_bytes(row.take(m)) as int;
    let x = row.take(k);
    let y = row.subrange(k, m);
    let z = row.skip(m);
    assert(row =~= (x + y) + z);
    assert(row.take(m) =~= x + y);
    lemma_sums_concat(x, y);
    lemma_picked_concat(x + y, z, from, to, 0, 0);
    lemma_picked_concat(x, y, from, to, 0, 0);
    lemma_picked_none(x, from, to, 0, 0);
    lemma_picked_none(z, from, to, sum_bytes(x + y) as int, sum_lines(x + y) as int);
    assert forall|i: int| 0 <= i < y.len() implies (#[trigger] y[i]).nbytes > 0 by {
        assert(leaf_ok(st, row[k + i]));
    }
    lemma_picked_all(y, from, to, from, sum_lines(x) as int);
    let al = picked(row, from, to, 0, 0);
    assert(al =~= picked(y, from, to, from, sum_lines(x) as int));
    assert forall|i: int| 0 <= i < al.len() implies (#[trigger] al[i]).leaf == row[k + i] && al[i].byte_off == sum_bytes(
        row.take(k + i),
    ) by {
        assert(row.take(k + i) =~= x + y.take(i));
        lemma_sums_concat(x, y.take(i));
    }
}

/// The text of some leaves of a row.
proof fn lemma_leaf_span(st: Store, row: Seq<Entry>, i: int, j: int)
    requires
        level_ok(st, row, 1),
        0 <= i <= j <= row.len(),
    ensures
        0 <= sum_bytes(row.take(i)) <= sum_bytes(row.take(j)) <= leaf_text(st, row).len(),
        leaf_text(st, row).subrange(sum_bytes(row.take(i)) as int, sum_bytes(row.take(j)) as int) == leaf_text(
            st,
            row.subrange(i, j),
        ),
        i < j ==> sum_bytes(row.take(i)) < sum_bytes(row.take(j)),
{
    let x = row.take(i);
    let y = row.subrange(i, j);
    let z = row.skip(j);
    assert(row =~= (x + y) + z);
    assert(row.take(j) =~= x + y);
    lemma_sums_concat(x, y);
    lemma_leaf_text_concat(st, x + y, z);
    lemma_leaf_text_concat(st, x, y);
    assert forall|k: int| 0 <= k < x.len() implies leaf_ok(st, #[trigger] x[k]) by {
        assert(leaf_ok(st, row[k]));
    }
    assert forall|k: int| 0 <= k < y.len() implies leaf_ok(st, #[trigger] y[k]) by {
        assert(leaf_ok(st, row[i + k]));
    }
    lemma_leaf_sums(st, x);
    lemma_leaf_sums(st, y);
    assert(leaf_text(st, row).subrange(sum_bytes(x) as int, sum_bytes(x + y) as int) =~= leaf_text(st, y));
}

/// Leaves with the same hashes hold the same text.
proof fn lemma_same_leaves(st: Store, x: Seq<Entry>, y: Seq<Entry>)
    requires
        x.len() == y.len(),
        forall|i: int| 0 <= i < x.len() ==> (#[trigger] x[i]).hash == y[i].hash,
    ensures
        leaf_text(st, x) == leaf_text(st, y),
    decreases x.len(),
{
    if x.len() > 0 {
        let fx = x.drop_last();
        let fy = y.drop_last();
        assert forall|i: int| 0 <= i < fx.len() implies (#[trigger] fx[i]).hash == fy[i].hash by {
            assert(fx[i] == x[i]);
        }
        lemma_same_leaves(st, fx, fy);
        assert(x[x.len() - 1].hash == y[y.len() - 1].hash);
    }
}

/// Two rows of leaves, and how many leaves they share at front and back.
struct Rows {
    ra: Seq<Entry>,
    rb: Seq<Entry>,
    k: int,
    m: int,
}

impl Rows {
    spec fn ok(self, st: Store) -> bool {
        &&& level_ok(st, self.ra, 1)
        &&& level_ok(st, self.rb, 1)
        &&& 0 <= self.k <= self.ra.len() - self.m
        &&& self.k <= self.rb.len() - self.m
        &&& self.m >= 0
        &&& self.ra.take(self.k) == self.rb.take(self.k)
        &&& self.ra.skip(self.ra.len() - self.m) == self.rb.skip(self.rb.len() - self.m)
    }

    /// Where the `i`-th leaf of the middle of `a` begins.
    spec fn pa(self, i: int) -> int {
        sum_bytes(self.ra.take(self.k + i)) as int
    }

    spec fn pb(self, i: int) -> int {
        sum_bytes(self.rb.take(self.k + i)) as int
    }

    spec fn ha(self) -> Seq<Seq<u8>> {
        Seq::new((self.ra.len() - self.m - self.k) as nat, |i: int| self.ra[self.k + i].hash)
    }

    spec fn hb(self) -> Seq<Seq<u8>> {
        Seq::new((self.rb.len() - self.m - self.k) as nat, |i: int| self.rb[self.k + i].hash)
    }

    spec fn runs(self, hs: Seq<HunkView>) -> Seq<HunkView> {
        Seq::new(
            hs.len(),
            |i: int|
                HunkView {
                    a_from: self.pa(hs[i].a_from),
                    a_to: self.pa(hs[i].a_to),
                    b_from: self.pb(hs[i].b_from),
                    b_to: self.pb(hs[i].b_to),
                },
        )
    }

    /// Where the hashes of two stretches of leaves are alike, so are the texts.
    proof fn lemma_alike(self, st: Store, p: Point, q: Point)
        requires
            self.ok(st),
            alike(self.ha(), self.hb(), p, q),
        ensures
            0 <= self.pa(p.x) <= self.pa(q.x) <= leaf_text(st, self.ra).len(),
            0 <= self.pb(p.y) <= self.pb(q.y) <= leaf_text(st, self.rb).len(),
            leaf_text(st, self.ra).subrange(self.pa(p.x), self.pa(q.x)) == leaf_text(st, self.rb).subrange(
                self.pb(p.y),
                self.pb(q.y),
            ),
    {
        let x = self.ra.subrange(self.k + p.x, self.k + q.x);
        let y = self.rb.subrange(self.k + p.y, self.k + q.y);
        lemma_leaf_span(st, self.ra, self.k + p.x, self.k + q.x);
        lemma_leaf_span(st, self.rb, self.k + p.y, self.k + q.y);
        assert forall|i: int| 0 <= i < x.len() implies (#[trigger] x[i]).hash == y[i].hash by {
            assert(self.ha().subrange(p.x, q.x)[i] == self.hb().subrange(p.y, q.y)[i]);
        }
        lemma_same_leaves(st, x, y);
    }

    /// Hunks of leaves, as runs, turn the one text into the other.
    proof fn lemma_runs(self, st: Store, hs: Seq<HunkView>, p: Point)
        requires
            self.ok(st),
            turns(self.ha(), self.hb(), hs, p),
        ensures
            rewrites(leaf_text(st, self.ra), leaf_text(st, self.rb), self.runs(hs), self.pa(p.x), self.pb(p.y)),
        decreases hs.len(),
    {
        let a = leaf_text(st, self.ra);
        let b = leaf_text(st, self.rb);
        lemma_turns_fit(self.ha(), self.hb(), hs, p);
        if hs.len() == 0 {
            let o = Point { x: 0, y: 0 };
            self.lemma_alike(st, o, p);
            lemma_leaf_span(st, self.ra, 0, self.k);
            lemma_leaf_span(st, self.rb, 0, self.k);
            assert(self.ra.take(0) =~= Seq::empty());
            assert(self.rb.take(0) =~= Seq::empty());
            assert(self.ra.subrange(0, self.k) =~= self.ra.take(self.k));
            assert(self.rb.subrange(0, self.k) =~= self.rb.take(self.k));
            assert(a.take(self.pa(p.x)) =~= a.subrange(0, self.pa(0)) + a.subrange(self.pa(0), self.pa(p.x)));
            assert(b.take(self.pb(p.y)) =~= b.subrange(0, self.pb(0)) + b.subrange(self.pb(0), self.pb(p.y)));
        } else {
            let h = hs.last();
            let q = Point { x: h.a_from, y: h.b_from };
            self.lemma_runs(st, hs.drop_last(), q);
            assert(self.runs(hs).drop_last() =~= self.runs(hs.drop_last()));
            self.lemma_alike(st, Point { x: h.a_to, y: h.b_to }, p);
            lemma_leaf_span(st, self.ra, self.k + h.a_from, self.k + h.a_to);
            lemma_leaf_span(st, self.rb, self.k + h.b_from, self.k + h.b_to);
        }
    }
}

impl Rows {
    /// The leaves picked from the middle, and where they begin.
    proof fn lemma_spots(self, st: Store, na: int, nb: int)
        requires
            self.ok(st),
            na == self.ra.len() - self.m - self.k,
            nb == self.rb.len() - self.m - self.k,
        ensures
            ({
                let al = picked(self.ra, self.pa(0), self.pa(na), 0, 0);
                let bl = picked(self.rb, self.pb(0), self.pb(nb), 0, 0);
                &&& spot_hashes(al) == self.ha()
                &&& spot_hashes(bl) == self.hb()
                &&& forall|i: int| 0 <= i <= na ==> #[trigger] spot_at(al, i, self.pa(na)) == self.pa(i)
                &&& forall|i: int| 0 <= i <= nb ==> #[trigger] spot_at(bl, i, self.pb(nb)) == self.pb(i)
            }),
    {
        lemma_picked_middle(st, self.ra, self.k, self.k + na);
        lemma_picked_middle(st, self.rb, self.k, self.k + nb);
        let al = picked(self.ra, self.pa(0), self.pa(na), 0, 0);
        let bl = picked(self.rb, self.pb(0), self.pb(nb), 0, 0);
        assert(spot_hashes(al) =~= self.ha());
        assert(spot_hashes(bl) =~= self.hb());
    }
}

/// A sound root's leaves hold its text.
pub proof fn lemma_root_row(st: Store, es: Seq<Entry>)
    requires
        tree_ok(st, es),
    ensures
        level_ok(st, doc_leaves(st, es), 1),
        leaf_text(st, doc_leaves(st, es)) == tree_text(st, es),
        sum_bytes(doc_leaves(st, es)) == sum_bytes(es),
        sum_bytes(es) == tree_text(st, es).len(),
        doc_leaves(st, es) == leaf_level(st, es, root_height(st, es)),
        level_ok(st, es, root_height(st, es)),
{
    lemma_doc_sums(st, es);
    if es.len() > 0 {
        lemma_level_leaf_sums(st, es, height(st, es));
    }
}

/// The middle of two documents, in leaves.
proof fn lemma_middle(st: Store, a: Seq<Entry>, b: Seq<Entry>) -> (w: Rows)
    requires
        tree_ok(st, a),
        tree_ok(st, b),
    ensures
        w.ok(st),
        w.ra == doc_leaves(st, a),
        w.rb == doc_leaves(st, b),
        middle(st, a, b).from == w.pa(0),
        middle(st, a, b).from == w.pb(0),
        middle(st, a, b).a_to == w.pa(w.ra.len() - w.m - w.k),
        middle(st, a, b).b_to == w.pb(w.rb.len() - w.m - w.k),
        middle(st, a, b).a_to <= sum_bytes(a),
        middle(st, a, b).b_to <= sum_bytes(b),
        tree_text(st, a).skip(middle(st, a, b).a_to) == tree_text(st, b).skip(middle(st, a, b).b_to),
{
    let da = root_height(st, a);
    let db = root_height(st, b);
    lemma_root_row(st, a);
    lemma_root_row(st, b);
    let ra = doc_leaves(st, a);
    let rb = doc_leaves(st, b);
    let k = lemma_prefix(st, a, da, b, db);
    let p = prefix_len(st, a, da, b, db) as int;
    lemma_sums_take(ra, k);
    lemma_sums_take(rb, k);
    let m = lemma_suffix(st, a, da, b, db, smaller(sum_bytes(a) - p, sum_bytes(b) - p));
    let s = suffix_len(st, a, da, b, db, smaller(sum_bytes(a) - p, sum_bytes(b) - p)) as int;
    lemma_cut_row(st, ra, k, m, p, s);
    lemma_cut_row(st, rb, k, m, p, s);
    Rows { ra, rb, k, m }
}

/// What lies between the first `k` leaves of a row, `p` bytes, and the last `m`, `s` bytes.
proof fn lemma_cut_row(st: Store, row: Seq<Entry>, k: int, m: int, p: int, s: int)
    requires
        level_ok(st, row, 1),
        0 <= k <= row.len(),
        0 <= m <= row.len(),
        sum_bytes(row.take(k)) == p,
        sum_bytes(row.skip(row.len() - m)) == s,
        p + s <= sum_bytes(row),
    ensures
        k <= row.len() - m,
        sum_bytes(row.take(row.len() - m)) == sum_bytes(row) - s,
        leaf_text(st, row).skip(sum_bytes(row) - s) == leaf_text(st, row.skip(row.len() - m)),
{
    let i = row.len() - m;
    let x = row.take(i);
    assert(row =~= x + row.skip(i));
    lemma_sums_concat(x, row.skip(i));
    if i < k {
        lemma_leaf_span(st, row, i, k);
    }
    lemma_leaf_text_concat(st, x, row.skip(i));
    assert forall|j: int| 0 <= j < x.len() implies leaf_ok(st, #[trigger] x[j]) by {
        assert(leaf_ok(st, row[j]));
    }
    lemma_leaf_sums(st, x);
    assert(leaf_text(st, row).skip(sum_bytes(row) - s) =~= leaf_text(st, row.skip(i)));
}

/// The leaf runs between two documents turn the one into the other.
proof fn lemma_coarse(st: Store, a: Seq<Entry>, b: Seq<Entry>)
    requires
        tree_ok(st, a),
        tree_ok(st, b),
    ensures
        runs_turn(tree_text(st, a), tree_text(st, b), coarse_runs(st, a, b)),
{
    let w = lemma_middle(st, a, b);
    let mid = middle(st, a, b);
    let na = w.ra.len() - w.m - w.k;
    let nb = w.rb.len() - w.m - w.k;
    let al = picked(w.ra, mid.from, mid.a_to, 0, 0);
    let bl = picked(w.rb, mid.from, mid.b_to, 0, 0);
    w.lemma_spots(st, na, nb);
    let ha = w.ha();
    let hb = w.hb();
    let hs = diff_of(ha, hb, MAX_LEAF_EDITS as nat);
    lemma_diff_of(ha, hb, MAX_LEAF_EDITS as nat);
    law_diff_turns(ha, hb, MAX_LEAF_EDITS as nat, hs);
    let c = corner(ha, hb);
    lemma_turns_fit(ha, hb, hs, c);
    w.lemma_runs(st, hs, c);
    let runs = coarse_runs(st, a, b);
    assert(runs == leaf_runs(al, mid.a_to, bl, mid.b_to, hs));
    assert forall|i: int| 0 <= i < hs.len() implies runs[i] == #[trigger] w.runs(hs)[i] by {
        let h = hs[i];
        assert(0 <= h.a_from <= h.a_to <= na && 0 <= h.b_from <= h.b_to <= nb);
    }
    assert(runs =~= w.runs(hs));
    lemma_root_row(st, a);
    lemma_root_row(st, b);
    let ta = tree_text(st, a);
    let tb = tree_text(st, b);
    assert(ta.subrange(mid.a_to, ta.len() as int) =~= ta.skip(mid.a_to));
    assert(tb.subrange(mid.b_to, tb.len() as int) =~= tb.skip(mid.b_to));
    lemma_rewrites_extend(ta, tb, runs, mid.a_to, mid.b_to, ta.len() as int, tb.len() as int);
}

/// Leaf `u` of one row and leaf `v` of another are the same.
pub open spec fn same_leaf(ra: Seq<Entry>, rb: Seq<Entry>, u: int, v: int) -> bool {
    0 <= u < ra.len() && 0 <= v < rb.len() && ra[u].hash == rb[v].hash
}

/// A leaf that both rows have ends at `x` in the one text and at `y` in the other.
pub open spec fn leaf_ends(ra: Seq<Entry>, rb: Seq<Entry>, x: int, y: int) -> bool {
    exists|u: int, v: int| #[trigger] same_leaf(ra, rb, u, v) && leaf_start(ra, u + 1) == x && leaf_start(rb, v + 1) == y
}

/// A leaf that both rows have begins at `x` in the one text and at `y` in the other.
pub open spec fn leaf_begins(ra: Seq<Entry>, rb: Seq<Entry>, x: int, y: int) -> bool {
    exists|u: int, v: int| #[trigger] same_leaf(ra, rb, u, v) && leaf_start(ra, u) == x && leaf_start(rb, v) == y
}

/// What lies before a hunk, and behind the last one, is alike.
proof fn lemma_gaps<T>(a: Seq<T>, b: Seq<T>, hs: Seq<HunkView>, p: Point)
    requires
        turns(a, b, hs, p),
    ensures
        forall|i: int| #![trigger hs[i]]
            0 < i < hs.len() ==> alike(
                a,
                b,
                Point { x: hs[i - 1].a_to, y: hs[i - 1].b_to },
                Point { x: hs[i].a_from, y: hs[i].b_from },
            ) && hs[i - 1].a_to < hs[i].a_from,
        hs.len() > 0 ==> alike(a, b, Point { x: 0, y: 0 }, Point { x: hs[0].a_from, y: hs[0].b_from }),
        hs.len() > 0 ==> alike(a, b, Point { x: hs.last().a_to, y: hs.last().b_to }, p),
    decreases hs.len(),
{
    if hs.len() > 0 {
        let h = hs.last();
        let front = hs.drop_last();
        let q = Point { x: h.a_from, y: h.b_from };
        lemma_gaps(a, b, front, q);
        if front.len() > 0 {
            assert(front[0] == hs[0]);
            assert(front.last() == hs[hs.len() - 2]);
        } else {
            assert(hs[0] == h);
            assert(turns(a, b, front, q));
            assert(alike(a, b, Point { x: 0, y: 0 }, q));
        }
        assert forall|i: int| #![trigger hs[i]] 0 < i < hs.len() implies alike(
            a,
            b,
            Point { x: hs[i - 1].a_to, y: hs[i - 1].b_to },
            Point { x: hs[i].a_from, y: hs[i].b_from },
        ) && hs[i - 1].a_to < hs[i].a_from by {
            if i < front.len() {
                assert(front[i] == hs[i] && front[i - 1] == hs[i - 1]);
            }
        }
    }
}

/// A run lies between leaves that both rows have, or an end of both texts.
pub open spec fn run_joined(ra: Seq<Entry>, rb: Seq<Entry>, r: HunkView) -> bool {
    &&& r.a_from == 0 && r.b_from == 0 || leaf_ends(ra, rb, r.a_from, r.b_from)
    &&& r.a_to == sum_bytes(ra) && r.b_to == sum_bytes(rb) || leaf_begins(ra, rb, r.a_to, r.b_to)
}

/// Every run of leaves lies between leaves that both documents have, or an end of both.
pub(crate) proof fn lemma_coarse_joints(st: Store, a: Seq<Entry>, b: Seq<Entry>)
    requires
        tree_ok(st, a),
        tree_ok(st, b),
    ensures
        runs_turn(tree_text(st, a), tree_text(st, b), coarse_runs(st, a, b)),
        forall|i: int|
            0 <= i < coarse_runs(st, a, b).len() ==> run_joined(
                doc_leaves(st, a),
                doc_leaves(st, b),
                #[trigger] coarse_runs(st, a, b)[i],
            ),
{
    lemma_coarse(st, a, b);
    let w = lemma_middle(st, a, b);
    let mid = middle(st, a, b);
    let na = w.ra.len() - w.m - w.k;
    let nb = w.rb.len() - w.m - w.k;
    let al = picked(w.ra, mid.from, mid.a_to, 0, 0);
    let bl = picked(w.rb, mid.from, mid.b_to, 0, 0);
    w.lemma_spots(st, na, nb);
    let ha = w.ha();
    let hb = w.hb();
    let hs = diff_of(ha, hb, MAX_LEAF_EDITS as nat);
    lemma_diff_of(ha, hb, MAX_LEAF_EDITS as nat);
    law_diff_turns(ha, hb, MAX_LEAF_EDITS as nat, hs);
    lemma_turns_fit(ha, hb, hs, corner(ha, hb));
    let runs = coarse_runs(st, a, b);
    assert(runs == leaf_runs(al, mid.a_to, bl, mid.b_to, hs));
    assert forall|i: int| 0 <= i < runs.len() implies run_joined(w.ra, w.rb, #[trigger] runs[i]) by {
        let h = hs[i];
        assert(0 <= h.a_from <= h.a_to <= na && 0 <= h.b_from <= h.b_to <= nb);
        assert(runs[i] == w.runs(hs)[i]);
        w.lemma_joint(st, hs, i);
    }
}

impl Rows {
    proof fn lemma_joint(self, st: Store, hs: Seq<HunkView>, i: int)
        requires
            self.ok(st),
            turns(self.ha(), self.hb(), hs, corner(self.ha(), self.hb())),
            0 <= i < hs.len(),
        ensures
            run_joined(self.ra, self.rb, self.runs(hs)[i]),
    {
        lemma_gaps(self.ha(), self.hb(), hs, corner(self.ha(), self.hb()));
        if i < hs.len() - 1 {
            assert(hs[i + 1 - 1] == hs[i]);
        }
        self.lemma_joint_before(hs, i);
        self.lemma_joint_behind(hs, i);
        assert(self.ra.take(self.ra.len() as int) =~= self.ra);
        assert(self.rb.take(self.rb.len() as int) =~= self.rb);
        assert(self.ra.take(0) =~= Seq::empty());
        assert(self.rb.take(0) =~= Seq::empty());
    }
}

impl Rows {
    proof fn lemma_alike_at(self, p: Point, q: Point, n: int)
        requires
            alike(self.ha(), self.hb(), p, q),
            0 <= n < q.x - p.x,
            0 <= self.k <= self.ra.len() - self.m,
            self.k <= self.rb.len() - self.m,
            self.m >= 0,
        ensures
            same_leaf(self.ra, self.rb, self.k + p.x + n, self.k + p.y + n),
    {
        assert(self.ha().subrange(p.x, q.x)[n] == self.hb().subrange(p.y, q.y)[n]);
        assert(self.ha()[p.x + n] == self.ra[self.k + p.x + n].hash);
        assert(self.hb()[p.y + n] == self.rb[self.k + p.y + n].hash);
    }

    /// What stands before a hunk of leaves.
    proof fn lemma_joint_before(self, hs: Seq<HunkView>, i: int)
        requires
            0 <= i < hs.len(),
            0 <= self.k <= self.ra.len() - self.m,
            self.k <= self.rb.len() - self.m,
            self.m >= 0,
            self.ra.take(self.k) == self.rb.take(self.k),
            i > 0 ==> alike(
                self.ha(),
                self.hb(),
                Point { x: hs[i - 1].a_to, y: hs[i - 1].b_to },
                Point { x: hs[i].a_from, y: hs[i].b_from },
            ) && hs[i - 1].a_to < hs[i].a_from,
            alike(self.ha(), self.hb(), Point { x: 0, y: 0 }, Point { x: hs[0].a_from, y: hs[0].b_from }),
        ensures
            hs[i].a_from == 0 && hs[i].b_from == 0 && self.k == 0 || leaf_ends(
                self.ra,
                self.rb,
                self.pa(hs[i].a_from),
                self.pb(hs[i].b_from),
            ),
    {
        let h = hs[i];
        let q = Point { x: h.a_from, y: h.b_from };
        let p = if i > 0 {
            Point { x: hs[i - 1].a_to, y: hs[i - 1].b_to }
        } else {
            Point { x: 0, y: 0 }
        };
        if q.x > p.x {
            self.lemma_alike_at(p, q, q.x - p.x - 1);
            assert(same_leaf(self.ra, self.rb, self.k + q.x - 1, self.k + q.y - 1));
            assert(leaf_start(self.ra, self.k + q.x - 1 + 1) == self.pa(h.a_from));
            assert(leaf_start(self.rb, self.k + q.y - 1 + 1) == self.pb(h.b_from));
        } else if self.k > 0 {
            assert(self.ra.take(self.k)[self.k - 1] == self.rb.take(self.k)[self.k - 1]);
            assert(same_leaf(self.ra, self.rb, self.k - 1, self.k - 1));
            assert(leaf_start(self.ra, self.k - 1 + 1) == self.pa(h.a_from));
            assert(leaf_start(self.rb, self.k - 1 + 1) == self.pb(h.b_from));
        }
    }

    /// What stands behind a hunk of leaves.
    proof fn lemma_joint_behind(self, hs: Seq<HunkView>, i: int)
        requires
            0 <= i < hs.len(),
            0 <= self.k <= self.ra.len() - self.m,
            self.k <= self.rb.len() - self.m,
            self.m >= 0,
            self.ra.skip(self.ra.len() - self.m) == self.rb.skip(self.rb.len() - self.m),
            i < hs.len() - 1 ==> alike(
                self.ha(),
                self.hb(),
                Point { x: hs[i].a_to, y: hs[i].b_to },
                Point { x: hs[i + 1].a_from, y: hs[i + 1].b_from },
            ) && hs[i].a_to < hs[i + 1].a_from,
            alike(self.ha(), self.hb(), Point { x: hs.last().a_to, y: hs.last().b_to }, corner(self.ha(), self.hb())),
        ensures
            self.m == 0 && self.k + hs[i].a_to == self.ra.len() && self.k + hs[i].b_to == self.rb.len() || leaf_begins(
                self.ra,
                self.rb,
                self.pa(hs[i].a_to),
                self.pb(hs[i].b_to),
            ),
    {
        let h = hs[i];
        let p = Point { x: h.a_to, y: h.b_to };
        let q = if i < hs.len() - 1 {
            Point { x: hs[i + 1].a_from, y: hs[i + 1].b_from }
        } else {
            corner(self.ha(), self.hb())
        };
        if i == hs.len() - 1 {
            assert(hs.last() == h);
        }
        if q.x > p.x {
            self.lemma_alike_at(p, q, 0);
            assert(same_leaf(self.ra, self.rb, self.k + p.x, self.k + p.y));
            assert(leaf_start(self.ra, self.k + p.x) == self.pa(h.a_to));
            assert(leaf_start(self.rb, self.k + p.y) == self.pb(h.b_to));
        } else if self.m > 0 {
            let u = self.ra.len() - self.m;
            let v = self.rb.len() - self.m;
            assert(self.ra.skip(u)[0] == self.rb.skip(v)[0]);
            assert(same_leaf(self.ra, self.rb, u, v));
            assert(leaf_start(self.ra, u) == self.pa(h.a_to));
            assert(leaf_start(self.rb, v) == self.pb(h.b_to));
        }
    }
}

/// A leaf that both rows have holds the same bytes in both texts.
pub(crate) proof fn lemma_same_leaf(st: Store, a: Seq<Entry>, b: Seq<Entry>, u: int, v: int)
    requires
        tree_ok(st, a),
        tree_ok(st, b),
        same_leaf(doc_leaves(st, a), doc_leaves(st, b), u, v),
    ensures
        ({
            let ra = doc_leaves(st, a);
            let rb = doc_leaves(st, b);
            &&& 0 <= leaf_start(ra, u) < leaf_start(ra, u + 1) <= tree_text(st, a).len()
            &&& 0 <= leaf_start(rb, v) < leaf_start(rb, v + 1) <= tree_text(st, b).len()
            &&& tree_text(st, a).subrange(leaf_start(ra, u), leaf_start(ra, u + 1)) == tree_text(st, b).subrange(
                leaf_start(rb, v),
                leaf_start(rb, v + 1),
            )
        }),
{
    let ra = doc_leaves(st, a);
    let rb = doc_leaves(st, b);
    lemma_root_row(st, a);
    lemma_root_row(st, b);
    lemma_leaf_span(st, ra, u, u + 1);
    lemma_leaf_span(st, rb, v, v + 1);
    let x = ra.subrange(u, u + 1);
    let y = rb.subrange(v, v + 1);
    assert(x[0] == ra[u] && y[0] == rb[v]);
    lemma_same_leaves(st, x, y);
}

/// The changed runs between two documents turn the one into the other: replacing each run by
/// what it became gives the second text.
pub proof fn law_runs_turn(st: Store, a: Seq<u8>, b: Seq<u8>)
    requires
        sound(st),
        st.nodes.contains_key(a),
        st.nodes.contains_key(b),
    ensures
        runs_turn(doc(st, a), doc(st, b), runs_between(st, a, b)),
{
    let x = doc(st, a);
    let y = doc(st, b);
    if a != b {
        lemma_coarse(st, st.nodes[a], st.nodes[b]);
        lemma_all_refined(x, y, coarse_runs(st, st.nodes[a], st.nodes[b]), x.len() as int, y.len() as int);
    }
}

/// A read of two documents succeeds only if both roots are stored; on a local storage it
/// succeeds exactly then, and names the first that is missing otherwise.
pub open spec fn reads_both<T>(local: bool, st: Store, a: Seq<u8>, b: Seq<u8>, r: Result<T>) -> bool {
    &&& r is Ok ==> st.nodes.contains_key(a) && st.nodes.contains_key(b)
    &&& local && st.nodes.contains_key(a) && st.nodes.contains_key(b) ==> r is Ok
    &&& local && !st.nodes.contains_key(a) ==> missing_node(r, a)
    &&& local && st.nodes.contains_key(a) && !st.nodes.contains_key(b) ==> missing_node(r, b)
}

/// The diff of two rows of leaves.
fn leaf_diff(al: &Vec<LeafRef>, bl: &Vec<LeafRef>) -> (hunks: Vec<Hunk>)
    ensures
        hunk_views(hunks@) == diff_of(spot_hashes(spots_of(al@)), spot_hashes(spots_of(bl@)), MAX_LEAF_EDITS as nat),
{
    let ah = hash_slices(al);
    let bh = hash_slices(bl);
    item_diff(&ah, &bh, MAX_LEAF_EDITS)
}

fn hash_slices<'a>(ls: &'a Vec<LeafRef>) -> (out: Vec<&'a [u8]>)
    ensures
        slice_views(out@) == spot_hashes(spots_of(ls@)),
{
    let mut out: Vec<&'a [u8]> = Vec::new();
    let mut i: usize = 0;
    while i < ls.len()
        invariant
            i <= ls@.len(),
            out@.len() == i,
            forall|k: int| 0 <= k < i ==> (#[trigger] out@[k])@ == ls@[k].hash@,
        decreases ls@.len() - i,
    {
        let s: &'a [u8] = vstd::array::array_as_slice(&ls[i].hash);
        out.push(s);
        i += 1;
    }
    assert(slice_views(out@) =~= spot_hashes(spots_of(ls@)));
    out
}

fn offset_at(ls: &Vec<LeafRef>, i: usize, end: u64) -> (r: u64)
    ensures
        r == spot_at(spots_of(ls@), i as int, end as int),
{
    if i < ls.len() {
        ls[i].byte_off
    } else {
        end
    }
}

/// Split a chunk-granular run into the line-level differences inside it (byte-trimmed),
/// so concurrent edits inside the same chunk are still recognised as disjoint.
fn refine<S: Storage + ?Sized>(
    storage: &S,
    a: &crate::hash::Hash,
    b: &crate::hash::Hash,
    r: ChangedRun,
    out: &mut Vec<ChangedRun>,
) -> (res: Result<()>)
    requires
        sound(storage.store()),
        storage.store().nodes.contains_key(a@),
        storage.store().nodes.contains_key(b@),
        r.a_from <= r.a_to <= doc(storage.store(), a@).len(),
        r.b_from <= r.b_to <= doc(storage.store(), b@).len(),
    ensures
        plain_failure(res),
        storage.local() ==> res is Ok,
        res is Ok ==> run_views(final(out)@) == run_views(old(out)@) + refined(
            doc(storage.store(), a@),
            doc(storage.store(), b@),
            r@,
        ),
{
    let ghost st = storage.store();
    let ghost ta = doc(st, a@);
    let ghost tb = doc(st, b@);
    let at = match materialize_range(storage, a, r.a_from, r.a_to) {
        Ok(v) => v,
        Err(e) => {
            return Err(e);
        },
    };
    let bt = match materialize_range(storage, b, r.b_from, r.b_to) {
        Ok(v) => v,
        Err(e) => {
            return Err(e);
        },
    };
    let edits = byte_edits(at.as_slice(), bt.as_slice());
    let ghost es = edit_views(edits@);
    let ghost start = run_views(out@);
    proof {
        lemma_edits_between(at@, bt@);
        lemma_doc_sums(st, st.nodes[a@]);
        lemma_doc_sums(st, st.nodes[b@]);
        assert(at@ =~= ta.subrange(r.a_from as int, r.a_to as int));
        assert(bt@ =~= tb.subrange(r.b_from as int, r.b_to as int));
        assert(es.take(0) =~= Seq::empty());
        assert(run_views(out@) =~= start + edit_runs(es.take(0), r.a_from as int, r.b_from as int));
    }
    // Where the last edit ended in both parts.
    let mut a_end: u64 = 0;
    let mut b_end: u64 = 0;
    let mut i: usize = 0;
    while i < edits.len()
        invariant
            i <= edits@.len(),
            es == edit_views(edits@),
            es == edits_between(at@, bt@),
            ascending(es, at@.len() as int),
            forward(at@, es, at@.len() as int) == bt@,
            r.a_from + at@.len() <= usize::MAX,
            r.b_from + bt@.len() <= usize::MAX,
            a_end == (if i == 0 { 0 } else { es[i - 1].to }),
            b_end == a_end + growth(es.take(i as int)),
            run_views(out@) == start + edit_runs(es.take(i as int), r.a_from as int, r.b_from as int),
        decreases edits@.len() - i,
    {
        let e: &Edit = &edits[i];
        proof {
            assert(es[i as int] == edit_view(*e));
            if i > 0 {
                assert(es[i - 1].to <= es[i as int].from);
            }
            let more = es.take(i + 1);
            assert(more.drop_last() =~= es.take(i as int));
            assert(more.last() == es[i as int]);
            lemma_fits_forward(at@, es, at@.len() as int, i as int);
        }
        let b_from: u64 = b_end + (e.from - a_end);
        let b_to: u64 = b_from + e.replacement.len() as u64;
        let run = ChangedRun {
            a_from: r.a_from + e.from,
            a_to: r.a_from + e.to,
            b_from: r.b_from + b_from,
            b_to: r.b_from + b_to,
        };
        let ghost before = out@;
        out.push(run);
        proof {
            assert(run_views(out@) =~= run_views(before).push(run@));
            assert(run_views(out@) =~= start + edit_runs(es.take(i + 1), r.a_from as int, r.b_from as int));
        }
        a_end = e.to;
        b_end = b_to;
        i += 1;
    }
    assert(es.take(i as int) =~= es);
    Ok(())
}

/// Where an edit lands in the new text, it still fits there.
proof fn lemma_fits_forward(a: Seq<u8>, es: Seq<EditView>, x: int, i: int)
    requires
        ascending(es, x),
        0 <= x <= a.len(),
        0 <= i < es.len(),
    ensures
        es[i].from + growth(es.take(i)) >= 0,
        es[i].from + growth(es.take(i)) + es[i].text.len() <= forward(a, es, x).len(),
        es[i].to <= x,
        es[i].from <= es[i].to,
        i > 0 ==> es[i - 1].to <= es[i].from,
        growth(es.take(i + 1)) == growth(es.take(i)) + es[i].text.len() - (es[i].to - es[i].from),
    decreases es.len(),
{
    let e = es.last();
    let f = es.drop_last();
    assert(es[es.len() - 1] == e);
    lemma_ascending_front(es, x);
    lemma_growth_concat_forward(a, f, e.from);
    assert(es.take(i + 1).drop_last() =~= es.take(i));
    if i < f.len() {
        lemma_fits_forward(a, f, e.from, i);
        assert(f.take(i) =~= es.take(i));
        assert(f[i] == es[i]);
    } else {
        assert(es.take(i) =~= f);
    }
}

/// Changed leaf runs between two roots, in ascending order.
///
/// Identical subtrees are skipped from the front and the back; the leaves of the
/// remaining middle are compared with a sequence diff. Cost is proportional to the
/// changed region for local edits.
pub fn changed_runs<S: Storage + ?Sized>(storage: &S, a: &crate::hash::Hash, b: &crate::hash::Hash) -> (r: Result<
    Vec<ChangedRun>,
>)
    requires
        sound(storage.store()),
    ensures
        plain_failure(r),
        a@ == b@ ==> r is Ok,
        a@ != b@ ==> reads_both(storage.local(), storage.store(), a@, b@, r),
        r matches Ok(runs) ==> run_views(runs@) == runs_between(storage.store(), a@, b@),
        r matches Ok(runs) ==> a@ != b@ ==> runs_turn(
            doc(storage.store(), a@),
            doc(storage.store(), b@),
            run_views(runs@),
        ),
{
    let ghost st = storage.store();
    let mut out: Vec<ChangedRun> = Vec::new();
    assert(run_views(out@) =~= Seq::empty());
    if same_hash(a, b) {
        return Ok(out);
    }
    let na = match storage.node(a) {
        Ok(n) => n,
        Err(e) => {
            return Err(e);
        },
    };
    let nb = match storage.node(b) {
        Ok(n) => n,
        Err(e) => {
            return Err(e);
        },
    };
    let ghost ta = doc(st, a@);
    let ghost tb = doc(st, b@);
    let ghost mid = middle(st, na@, nb@);
    proof {
        lemma_doc_sums(st, na@);
        lemma_doc_sums(st, nb@);
        let w = lemma_middle(st, na@, nb@);
        lemma_coarse(st, na@, nb@);
        law_runs_turn(st, a@, b@);
        lemma_leaf_span(st, w.ra, w.k, w.k);
        lemma_leaf_span(st, w.rb, w.k, w.k);
        lemma_root_row(st, na@);
        lemma_root_row(st, nb@);
    }
    let a_len: u64 = na.nbytes();
    let b_len: u64 = nb.nbytes();
    // Front: common prefix of subtrees.
    let from: u64 = match common_prefix(storage, &na, &nb) {
        Ok(n) => n,
        Err(e) => {
            return Err(e);
        },
    };
    // Back: common suffix, bounded so it does not cross the prefix.
    let budget: u64 = if a_len - from < b_len - from {
        a_len - from
    } else {
        b_len - from
    };
    let suf: u64 = match common_suffix(storage, &na, &nb, budget) {
        Ok(n) => n,
        Err(e) => {
            return Err(e);
        },
    };
    let a_end: u64 = a_len - suf;
    let b_end: u64 = b_len - suf;
    // Leaves in the middle.
    let al = match leaves_in(storage, a, from, a_end) {
        Ok(v) => v,
        Err(e) => {
            return Err(e);
        },
    };
    let bl = match leaves_in(storage, b, from, b_end) {
        Ok(v) => v,
        Err(e) => {
            return Err(e);
        },
    };
    let hunks = leaf_diff(&al, &bl);
    let ghost rs = coarse_runs(st, na@, nb@);
    let ghost hs = hunk_views(hunks@);
    assert(rs =~= leaf_runs(spots_of(al@), a_end as int, spots_of(bl@), b_end as int, hs));
    let mut i: usize = 0;
    assert(rs.take(0) =~= Seq::empty());
    while i < hunks.len()
        invariant
            i <= hunks@.len(),
            st == storage.store(),
            sound(st),
            a@ != b@,
            st.nodes.contains_key(a@),
            st.nodes.contains_key(b@),
            ta == doc(st, a@),
            tb == doc(st, b@),
            hs == hunk_views(hunks@),
            rs == leaf_runs(spots_of(al@), a_end as int, spots_of(bl@), b_end as int, hs),
            runs_turn(ta, tb, rs),
            run_views(out@) == all_refined(ta, tb, rs.take(i as int)),
        decreases hunks@.len() - i,
    {
        let h: Hunk = hunks[i];
        let run = ChangedRun {
            a_from: offset_at(&al, h.a_from, a_end),
            a_to: offset_at(&al, h.a_to, a_end),
            b_from: offset_at(&bl, h.b_from, b_end),
            b_to: offset_at(&bl, h.b_to, b_end),
        };
        proof {
            assert(hs[i as int] == h@);
            assert(rs[i as int] == run@);
            lemma_run_inside(ta, tb, rs, ta.len() as int, tb.len() as int, i as int);
            assert(rs.take(i + 1).drop_last() =~= rs.take(i as int));
            assert(rs.take(i + 1).last() == run@);
        }
        match refine(storage, a, b, run, &mut out) {
            Ok(_) => {},
            Err(e) => {
                return Err(e);
            },
        }
        i += 1;
    }
    assert(rs.take(i as int) =~= rs);
    Ok(out)
}

/// Each run lies inside both texts.
pub proof fn lemma_run_inside(a: Seq<u8>, b: Seq<u8>, runs: Seq<HunkView>, x: int, y: int, i: int)
    requires
        rewrites(a, b, runs, x, y),
        0 <= i < runs.len(),
    ensures
        0 <= runs[i].a_from <= runs[i].a_to <= x <= a.len(),
        0 <= runs[i].b_from <= runs[i].b_to <= y <= b.len(),
    decreases runs.len(),
{
    let r = runs.last();
    assert(runs[runs.len() - 1] == r);
    if i < runs.len() - 1 {
        lemma_run_inside(a, b, runs.drop_last(), r.a_from, r.b_from, i);
        assert(runs.drop_last()[i] == runs[i]);
    }
}

} // verus!
