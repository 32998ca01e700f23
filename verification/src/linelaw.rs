//! Line regions and line hunks turn one document into the other.

use vstd::prelude::*;
use crate::chunker::{joined, lemma_newlines_concat, newlines};
use crate::diff::{law_runs_turn, lemma_rewrites_extend, rewrites, runs_between, runs_turn};
use crate::lines::{lemma_lines, lines_of};
use crate::model::{doc, sound, Store};
use crate::myers::{corner, lemma_text_hunks, lemma_turns_fit, text_hunks, turns, HunkView, Point};
use crate::regions::{
    all_region_hunks, lemma_line_begin, lemma_line_end, line_begin, line_end, line_regions, placed_hunk, region_hunks,
    regions_between, widened, LineHunkView,
};
use crate::tree::{clip, line_at};

verus! {

/// A line that ends inside a stretch two texts share ends at the same place in both.
proof fn lemma_same_line_end(a: Seq<u8>, b: Seq<u8>, x: int, y: int, n: int)
    requires
        0 <= x <= x + n <= a.len(),
        0 <= y <= y + n <= b.len(),
        a.subrange(x, x + n) == b.subrange(y, y + n),
        line_end(a, x) < x + n || x + n == a.len() && y + n == b.len(),
    ensures
        line_end(b, y) - y == line_end(a, x) - x,
    decreases n,
{
    if n > 0 {
        assert(a.subrange(x, x + n)[0] == b.subrange(y, y + n)[0]);
        assert(a.subrange(x, x + n)[0] == a[x + 0]);
        assert(b.subrange(y, y + n)[0] == b[y + 0]);
        if a[x] != 10 {
            assert(a.subrange(x + 1, x + n) =~= a.subrange(x, x + n).skip(1));
            assert(b.subrange(y + 1, y + n) =~= b.subrange(y, y + n).skip(1));
            lemma_same_line_end(a, b, x + 1, y + 1, n - 1);
        }
    } else {
        lemma_line_end(a, x);
    }
}

/// A line that begins inside a stretch two texts share begins at the same place in both.
proof fn lemma_same_line_begin(a: Seq<u8>, b: Seq<u8>, x: int, y: int, n: int)
    requires
        0 <= x - n <= x <= a.len(),
        0 <= y - n <= y <= b.len(),
        n >= 0,
        a.subrange(x - n, x) == b.subrange(y - n, y),
        line_begin(a, x) > x - n,
    ensures
        y - line_begin(b, y) == x - line_begin(a, x),
    decreases n,
{
    lemma_line_begin(a, x);
    assert(n > 0);
    assert(a.subrange(x - n, x)[n - 1] == b.subrange(y - n, y)[n - 1]);
    assert(a.subrange(x - n, x)[n - 1] == a[x - 1]);
    assert(b.subrange(y - n, y)[n - 1] == b[y - 1]);
    if a[x - 1] != 10 {
        assert(a.subrange(x - n, x - 1) =~= a.subrange(x - n, x).drop_last());
        assert(b.subrange(y - n, y - 1) =~= b.subrange(y - n, y).drop_last());
        lemma_same_line_begin(a, b, x - 1, y - 1, n - 1);
    }
}

proof fn lemma_line_end_order(s: Seq<u8>, x: int, y: int)
    requires
        0 <= x <= y <= s.len(),
    ensures
        line_end(s, x) <= line_end(s, y),
    decreases y - x,
{
    if x < y {
        lemma_line_end(s, x + 1);
        lemma_line_end_order(s, x + 1, y);
    }
}

/// The regions of some runs: the last one, cut off where the last run ends, closes the text
/// up to there.
spec fn regions_close(a: Seq<u8>, b: Seq<u8>, runs: Seq<HunkView>) -> bool {
    let rs = line_regions(a, b, runs);
    let l = rs.last();
    let r = runs.last();
    &&& rs.len() > 0
    &&& rewrites(a, b, rs.drop_last(), l.a_from, l.b_from)
    &&& 0 <= l.a_from <= r.a_to
    &&& 0 <= l.b_from <= r.b_to
    &&& l.a_to == line_end(a, r.a_to)
    &&& l.b_to == line_end(b, r.b_to)
}

proof fn lemma_regions_close(a: Seq<u8>, b: Seq<u8>, runs: Seq<HunkView>, x: int, y: int)
    requires
        rewrites(a, b, runs, x, y),
        runs.len() > 0,
    ensures
        regions_close(a, b, runs),
    decreases runs.len(),
{
    let q = runs.last();
    let front = runs.drop_last();
    let nr = widened(a, b, q);
    let rs0 = line_regions(a, b, front);
    let rs = line_regions(a, b, runs);
    assert(rewrites(a, b, front, q.a_from, q.b_from));
    reveal_with_fuel(rewrites, 3);
    lemma_line_begin(a, q.a_from);
    lemma_line_begin(b, q.b_from);
    lemma_line_end(a, q.a_to);
    lemma_line_end(b, q.b_to);
    if front.len() == 0 {
        assert(rs.drop_last() =~= Seq::empty());
        // Before the first run the texts are the same.
        assert(a.subrange(0, q.a_from) =~= a.take(q.a_from));
        assert(b.subrange(0, q.b_from) =~= b.take(q.b_from));
        assert(a.take(q.a_from).len() == b.take(q.b_from).len());
        if line_begin(a, q.a_from) > 0 {
            lemma_same_line_begin(a, b, q.a_from, q.b_from, q.a_from);
        } else if line_begin(b, q.b_from) > 0 {
            lemma_same_line_begin(b, a, q.b_from, q.a_from, q.b_from);
        }
        assert(a.take(nr.a_from) =~= a.take(q.a_from).take(nr.a_from));
        assert(b.take(nr.b_from) =~= b.take(q.b_from).take(nr.b_from));
    } else {
        lemma_regions_close(a, b, front, q.a_from, q.b_from);
        let r = front.last();
        let l = rs0.last();
        let n = q.a_from - r.a_to;
        assert(a.subrange(r.a_to, q.a_from).len() == b.subrange(r.b_to, q.b_from).len());
        lemma_line_end(a, r.a_to);
        lemma_line_end(b, r.b_to);
        if nr.a_from <= l.a_to {
            lemma_line_end_order(a, r.a_to, q.a_to);
            lemma_line_end_order(b, r.b_to, q.b_to);
            assert(rs.drop_last() =~= rs0.drop_last());
        } else {
            assert(rs.drop_last() =~= rs0);
            lemma_same_line_end(a, b, r.a_to, r.b_to, n);
            lemma_same_line_begin(a, b, q.a_from, q.b_from, n);
            let gap_a = a.subrange(r.a_to, q.a_from);
            let gap_b = b.subrange(r.b_to, q.b_from);
            assert(a.subrange(l.a_to, nr.a_from) =~= gap_a.subrange(l.a_to - r.a_to, nr.a_from - r.a_to));
            assert(b.subrange(l.b_to, nr.b_from) =~= gap_b.subrange(l.b_to - r.b_to, nr.b_from - r.b_to));
        }
    }
}

/// Runs widened to whole lines still turn the one text into the other.
pub proof fn law_regions_turn(st: Store, a: Seq<u8>, b: Seq<u8>)
    requires
        sound(st),
        st.nodes.contains_key(a),
        st.nodes.contains_key(b),
    ensures
        runs_turn(doc(st, a), doc(st, b), regions_between(st, a, b)),
{
    let ta = doc(st, a);
    let tb = doc(st, b);
    let runs = runs_between(st, a, b);
    law_runs_turn(st, a, b);
    if runs.len() > 0 {
        let x = ta.len() as int;
        let y = tb.len() as int;
        lemma_regions_close(ta, tb, runs, x, y);
        let r = runs.last();
        lemma_line_end(ta, r.a_to);
        lemma_line_end(tb, r.b_to);
        assert(ta.subrange(r.a_to, x).len() == tb.subrange(r.b_to, y).len());
        lemma_same_line_end(ta, tb, r.a_to, r.b_to, x - r.a_to);
        let l = line_regions(ta, tb, runs).last();
        assert(ta.subrange(l.a_to, x) =~= ta.subrange(r.a_to, x).skip(l.a_to - r.a_to));
        assert(tb.subrange(l.b_to, y) =~= tb.subrange(r.b_to, y).skip(l.b_to - r.b_to));
    }
}

/// Does a line begin at `x`, or the text end there?
pub open spec fn aligned(s: Seq<u8>, x: int) -> bool {
    0 <= x <= s.len() && (x == 0 || x == s.len() || s[x - 1] == 10)
}

/// Lines before `x`.
pub open spec fn lines_before(s: Seq<u8>, x: int) -> int {
    lines_of(s.take(x)).len() as int
}

/// A text that ends in a newline, and more: the lines of both.
pub(crate) proof fn lemma_lines_concat(x: Seq<u8>, y: Seq<u8>)
    requires
        x.len() == 0 || y.len() == 0 || x.last() == 10,
    ensures
        lines_of(x + y) == lines_of(x) + lines_of(y),
    decreases x.len(),
{
    if x.len() == 0 {
        assert(x + y =~= y);
        assert(lines_of(x) + lines_of(y) =~= lines_of(y));
    } else if y.len() == 0 {
        assert(x + y =~= x);
        assert(lines_of(x) + lines_of(y) =~= lines_of(x));
    } else {
        crate::lines::lemma_first_line(x);
        crate::lines::lemma_first_line(x + y);
        let s = x + y;
        let n = crate::lines::line_len(x);
        let m = crate::lines::line_len(s);
        assert(s[x.len() - 1] == 10);
        assert(m == n) by {
            if n < m {
                assert(s[n - 1] == x[n - 1]);
            } else if m < n {
                assert(s[m - 1] == x[m - 1]);
            }
        }
        assert(s.take(n) =~= x.take(n));
        if n < x.len() {
            assert(s.skip(n) =~= x.skip(n) + y);
            lemma_lines_concat(x.skip(n), y);
            assert(lines_of(s) =~= lines_of(x) + lines_of(y));
        } else {
            assert(s.skip(n) =~= y);
            assert(x.take(n) =~= x);
            assert(lines_of(s) =~= lines_of(x) + lines_of(y));
        }
    }
}

/// The lines of a stretch of whole lines.
pub(crate) proof fn lemma_lines_between(s: Seq<u8>, x: int, y: int)
    requires
        aligned(s, x),
        aligned(s, y),
        x <= y,
    ensures
        0 <= lines_before(s, x) <= lines_before(s, y) <= lines_of(s).len(),
        lines_of(s).subrange(lines_before(s, x), lines_before(s, y)) == lines_of(s.subrange(x, y)),
        lines_before(s, y) - lines_before(s, x) == lines_of(s.subrange(x, y)).len(),
{
    assert(s.take(y) =~= s.take(x) + s.subrange(x, y));
    if x > 0 && x < s.len() {
        assert(s.take(x).last() == s[x - 1]);
    }
    if y > 0 && y < s.len() {
        assert(s.take(y).last() == s[y - 1]);
    }
    if x == s.len() {
        assert(s.subrange(x, y).len() == 0);
    }
    lemma_lines_concat(s.take(x), s.subrange(x, y));
    assert(s =~= s.take(y) + s.skip(y));
    lemma_lines_concat(s.take(y), s.skip(y));
    assert(lines_of(s).subrange(lines_before(s, x), lines_before(s, y)) =~= lines_of(s.subrange(x, y)));
}

/// Newlines of whole lines count the lines.
pub(crate) proof fn lemma_count_lines(s: Seq<u8>)
    requires
        s.len() == 0 || s.last() == 10,
    ensures
        lines_of(s).len() == newlines(s),
    decreases s.len(),
{
    if s.len() > 0 {
        crate::lines::lemma_first_line(s);
        let n = crate::lines::line_len(s);
        lemma_one_line(s.take(n));
        assert(s =~= s.take(n) + s.skip(n));
        lemma_newlines_concat(s.take(n), s.skip(n));
        lemma_count_lines(s.skip(n));
        if n >= s.len() {
            assert(s.take(n) =~= s);
        }
    }
}

proof fn lemma_one_line(l: Seq<u8>)
    requires
        l.len() > 0,
        l.last() == 10,
        forall|k: int| 0 <= k < l.len() - 1 ==> l[k] != 10,
    ensures
        newlines(l) == 1,
{
    lemma_no_newlines(l.drop_last());
}

pub(crate) proof fn lemma_no_newlines(l: Seq<u8>)
    requires
        forall|k: int| 0 <= k < l.len() ==> l[k] != 10,
    ensures
        newlines(l) == 0,
    decreases l.len(),
{
    if l.len() > 0 {
        lemma_no_newlines(l.drop_last());
    }
}

/// The line spans of some line hunks.
pub open spec fn line_spans(hs: Seq<LineHunkView>) -> Seq<HunkView> {
    Seq::new(
        hs.len(),
        |i: int|
            HunkView {
                a_from: hs[i].old_from,
                a_to: hs[i].old_from + hs[i].old_count,
                b_from: hs[i].new_from,
                b_to: hs[i].new_from + hs[i].new_count,
            },
    )
}

/// A hunk that carries the lines it replaces and those it puts in their place.
pub open spec fn carries(la: Seq<Seq<u8>>, lb: Seq<Seq<u8>>, h: LineHunkView) -> bool {
    &&& h.old_text == joined(la.subrange(h.old_from, h.old_from + h.old_count))
    &&& h.new_text == joined(lb.subrange(h.new_from, h.new_from + h.new_count))
}

/// Where a region of whole lines stands in both texts.
pub struct Region {
    pub a: Seq<u8>,
    pub b: Seq<u8>,
    pub r: HunkView,
}

impl Region {
    pub open spec fn ok(self) -> bool {
        &&& aligned(self.a, self.r.a_from)
        &&& aligned(self.a, self.r.a_to)
        &&& aligned(self.b, self.r.b_from)
        &&& aligned(self.b, self.r.b_to)
        &&& self.r.a_from <= self.r.a_to
        &&& self.r.b_from <= self.r.b_to
        &&& line_at(self.a, self.r.a_from) == lines_before(self.a, self.r.a_from)
        &&& line_at(self.b, self.r.b_from) == lines_before(self.b, self.r.b_from)
    }

    pub(crate) open spec fn al(self) -> Seq<Seq<u8>> {
        lines_of(clip(self.a, self.r.a_from, self.r.a_to))
    }

    pub(crate) open spec fn bl(self) -> Seq<Seq<u8>> {
        lines_of(clip(self.b, self.r.b_from, self.r.b_to))
    }

    spec fn hunks(self, hs: Seq<HunkView>) -> Seq<LineHunkView> {
        Seq::new(
            hs.len(),
            |i: int|
                placed_hunk(
                    self.al(),
                    self.bl(),
                    line_at(self.a, self.r.a_from) as int,
                    line_at(self.b, self.r.b_from) as int,
                    hs[i],
                ),
        )
    }

    pub(crate) proof fn lemma_lines(self)
        requires
            self.ok(),
        ensures
            ({
                let la = lines_of(self.a);
                let lb = lines_of(self.b);
                let x = lines_before(self.a, self.r.a_from);
                let y = lines_before(self.b, self.r.b_from);
                &&& 0 <= x
                &&& 0 <= y
                &&& x + self.al().len() == lines_before(self.a, self.r.a_to) <= la.len()
                &&& y + self.bl().len() == lines_before(self.b, self.r.b_to) <= lb.len()
                &&& la.subrange(x, x + self.al().len()) == self.al()
                &&& lb.subrange(y, y + self.bl().len()) == self.bl()
            }),
    {
        lemma_lines_between(self.a, self.r.a_from, self.r.a_to);
        lemma_lines_between(self.b, self.r.b_from, self.r.b_to);
        assert(clip(self.a, self.r.a_from, self.r.a_to) =~= self.a.subrange(self.r.a_from, self.r.a_to));
        assert(clip(self.b, self.r.b_from, self.r.b_to) =~= self.b.subrange(self.r.b_from, self.r.b_to));
    }

    /// Hunks inside the region, behind those of the regions before.
    proof fn lemma_hunks(self, front: Seq<LineHunkView>, hs: Seq<HunkView>, p: Point)
        requires
            self.ok(),
            turns(self.al(), self.bl(), hs, p),
            rewrites(
                lines_of(self.a),
                lines_of(self.b),
                line_spans(front),
                lines_before(self.a, self.r.a_from),
                lines_before(self.b, self.r.b_from),
            ),
        ensures
            rewrites(
                lines_of(self.a),
                lines_of(self.b),
                line_spans(front + self.hunks(hs)),
                lines_before(self.a, self.r.a_from) + p.x,
                lines_before(self.b, self.r.b_from) + p.y,
            ),
            forall|i: int|
                0 <= i < hs.len() ==> carries(lines_of(self.a), lines_of(self.b), #[trigger] self.hunks(hs)[i]),
        decreases hs.len(),
    {
        let la = lines_of(self.a);
        let lb = lines_of(self.b);
        let x = lines_before(self.a, self.r.a_from);
        let y = lines_before(self.b, self.r.b_from);
        self.lemma_lines();
        lemma_turns_fit(self.al(), self.bl(), hs, p);
        if hs.len() == 0 {
            assert(front + self.hunks(hs) =~= front);
            assert(la.subrange(x, x + p.x) =~= self.al().subrange(0, p.x));
            assert(lb.subrange(y, y + p.y) =~= self.bl().subrange(0, p.y));
            lemma_rewrites_extend(la, lb, line_spans(front), x, y, x + p.x, y + p.y);
        } else {
            let h = hs.last();
            let f = hs.drop_last();
            self.lemma_hunks(front, f, Point { x: h.a_from, y: h.b_from });
            let all = line_spans(front + self.hunks(hs));
            assert(all.drop_last() =~= line_spans(front + self.hunks(f)));
            assert(la.subrange(x + h.a_to, x + p.x) =~= self.al().subrange(h.a_to, p.x));
            assert(lb.subrange(y + h.b_to, y + p.y) =~= self.bl().subrange(h.b_to, p.y));
            assert forall|i: int| 0 <= i < hs.len() implies carries(la, lb, #[trigger] self.hunks(hs)[i]) by {
                if i < f.len() {
                    assert(self.hunks(hs)[i] == self.hunks(f)[i]);
                } else {
                    assert(la.subrange(x + h.a_from, x + h.a_to) =~= self.al().subrange(h.a_from, h.a_to));
                    assert(lb.subrange(y + h.b_from, y + h.b_to) =~= self.bl().subrange(h.b_from, h.b_to));
                }
            }
        }
    }
}

/// Regions that begin and end with whole lines.
pub open spec fn whole_lines(a: Seq<u8>, b: Seq<u8>, rs: Seq<HunkView>) -> bool {
    forall|i: int| 0 <= i < rs.len() ==> (Region { a, b, r: #[trigger] rs[i] }).ok()
}

proof fn lemma_begin_aligned(s: Seq<u8>, off: int)
    requires
        0 <= off <= s.len(),
    ensures
        aligned(s, line_begin(s, off)),
        line_at(s, line_begin(s, off)) == lines_before(s, line_begin(s, off)),
{
    lemma_line_begin(s, off);
    lemma_count_lines(s.take(line_begin(s, off)));
}

pub proof fn lemma_whole_lines(a: Seq<u8>, b: Seq<u8>, runs: Seq<HunkView>, x: int, y: int)
    requires
        rewrites(a, b, runs, x, y),
    ensures
        whole_lines(a, b, line_regions(a, b, runs)),
    decreases runs.len(),
{
    if runs.len() > 0 {
        let q = runs.last();
        let front = runs.drop_last();
        lemma_whole_lines(a, b, front, q.a_from, q.b_from);
        lemma_begin_aligned(a, q.a_from);
        lemma_begin_aligned(b, q.b_from);
        lemma_line_begin(a, q.a_from);
        lemma_line_begin(b, q.b_from);
        lemma_line_end(a, q.a_to);
        lemma_line_end(b, q.b_to);
        let rs0 = line_regions(a, b, front);
        let rs = line_regions(a, b, runs);
        let nr = widened(a, b, q);
        assert((Region { a, b, r: nr }).ok());
        assert forall|i: int| 0 <= i < rs.len() implies (Region { a, b, r: #[trigger] rs[i] }).ok() by {
            if i < rs.len() - 1 {
                assert(rs[i] == rs0[i]);
            } else if rs.len() == rs0.len() {
                assert((Region { a, b, r: rs0[i] }).ok());
            }
        }
    }
}

proof fn lemma_region_hunks(a: Seq<u8>, b: Seq<u8>, rs: Seq<HunkView>, x: int, y: int)
    requires
        rewrites(a, b, rs, x, y),
        whole_lines(a, b, rs),
        aligned(a, x),
        aligned(b, y),
    ensures
        rewrites(
            lines_of(a),
            lines_of(b),
            line_spans(all_region_hunks(a, b, rs)),
            lines_before(a, x),
            lines_before(b, y),
        ),
        forall|i: int|
            0 <= i < all_region_hunks(a, b, rs).len() ==> carries(
                lines_of(a),
                lines_of(b),
                #[trigger] all_region_hunks(a, b, rs)[i],
            ),
    decreases rs.len(),
{
    let la = lines_of(a);
    let lb = lines_of(b);
    lemma_lines_between(a, x, x);
    lemma_lines_between(b, y, y);
    if rs.len() == 0 {
        assert(line_spans(all_region_hunks(a, b, rs)) =~= Seq::empty());
        lemma_lines_between(a, 0, x);
        lemma_lines_between(b, 0, y);
        assert(a.subrange(0, x) =~= a.take(x));
        assert(b.subrange(0, y) =~= b.take(y));
        assert(a.take(0) =~= Seq::empty());
        assert(b.take(0) =~= Seq::empty());
        assert(la.take(lines_before(a, x)) =~= la.subrange(0, lines_before(a, x)));
        assert(lb.take(lines_before(b, y)) =~= lb.subrange(0, lines_before(b, y)));
    } else {
        let r = rs.last();
        let f = rs.drop_last();
        assert(r == rs[rs.len() - 1]);
        let pl = Region { a, b, r };
        assert(pl.ok());
        assert forall|i: int| 0 <= i < f.len() implies (Region { a, b, r: #[trigger] f[i] }).ok() by {
            assert(f[i] == rs[i]);
        }
        lemma_region_hunks(a, b, f, r.a_from, r.b_from);
        let front = all_region_hunks(a, b, f);
        let at = clip(a, r.a_from, r.a_to);
        let bt = clip(b, r.b_from, r.b_to);
        lemma_text_hunks(at, bt);
        pl.lemma_lines();
        pl.lemma_hunks(front, text_hunks(at, bt), corner(pl.al(), pl.bl()));
        assert(pl.hunks(text_hunks(at, bt)) =~= region_hunks(a, b, r));
        lemma_lines_between(a, r.a_to, x);
        lemma_lines_between(b, r.b_to, y);
        let all = all_region_hunks(a, b, rs);
        lemma_rewrites_extend(
            la,
            lb,
            line_spans(all),
            lines_before(a, r.a_to),
            lines_before(b, r.b_to),
            lines_before(a, x),
            lines_before(b, y),
        );
        assert forall|i: int| 0 <= i < all.len() implies carries(la, lb, #[trigger] all[i]) by {
            if i < front.len() {
                assert(all[i] == front[i]);
            } else {
                assert(all[i] == region_hunks(a, b, r)[i - front.len()]);
            }
        }
    }
}

/// The line hunks between two documents turn the lines of the one into those of the other, and
/// each carries the lines it replaces and those that replace them.
pub proof fn law_line_hunks_turn(st: Store, a: Seq<u8>, b: Seq<u8>)
    requires
        sound(st),
        st.nodes.contains_key(a),
        st.nodes.contains_key(b),
    ensures
        ({
            let la = lines_of(doc(st, a));
            let lb = lines_of(doc(st, b));
            let hs = all_region_hunks(doc(st, a), doc(st, b), regions_between(st, a, b));
            &&& rewrites(la, lb, line_spans(hs), la.len() as int, lb.len() as int)
            &&& forall|i: int| 0 <= i < hs.len() ==> carries(la, lb, #[trigger] hs[i])
        }),
{
    let ta = doc(st, a);
    let tb = doc(st, b);
    law_runs_turn(st, a, b);
    law_regions_turn(st, a, b);
    let x = ta.len() as int;
    let y = tb.len() as int;
    lemma_whole_lines(ta, tb, runs_between(st, a, b), x, y);
    lemma_region_hunks(ta, tb, regions_between(st, a, b), x, y);
    assert(ta.take(x) =~= ta);
    assert(tb.take(y) =~= tb);
}

} // verus!
