//! Three-way merge of texts at line granularity.

use vstd::prelude::*;
use crate::chunker::{joined, lemma_joined_concat, lemma_joined_push};
use crate::lines::{lemma_lines, lines_of, slice_views, split_lines};
use crate::myers::{
    alike, corner, hunk_views, law_no_diff, lemma_diff_of, lemma_text_hunks, lemma_turns_fit, line_diff, text_hunks, turns,
    Hunk, HunkView, Point, MAX_LINE_EDITS,
};
use crate::text::same_bytes;

verus! {

/// Result of a three-way line merge.
#[derive(Clone, Debug, PartialEq, Eq)]
pub enum Merge {
    Clean(Vec<u8>),
    Conflict,
}

impl Merge {
    /// The merged text; nothing after a conflict.
    pub open spec fn text(self) -> Option<Seq<u8>> {
        match self {
            Merge::Clean(v) => Some(v@),
            Merge::Conflict => None,
        }
    }
}

/// Does a hunk touch the lines `[lo, hi)` of the base?
pub open spec fn touches(h: HunkView, lo: int, hi: int) -> bool {
    h.a_from < hi || h.a_from == hi && (h.a_from == lo || h.a_to > hi)
}

/// A region of the base that both sides changed: it ends at line `hi`, and the hunks before
/// `o` and `t` of the two sides are in it or before it.
pub struct Region {
    pub hi: int,
    pub o: int,
    pub t: int,
}

pub open spec fn later(x: int, y: int) -> int {
    if x < y {
        y
    } else {
        x
    }
}

/// A region together with all hunks that touch it, or touch what it grows to.
pub open spec fn absorbed(ho: Seq<HunkView>, ht: Seq<HunkView>, lo: int, r: Region) -> Region
    decreases ho.len() + ht.len() - r.o - r.t,
{
    if 0 <= r.o < ho.len() && 0 <= r.t <= ht.len() && touches(ho[r.o], lo, r.hi) {
        absorbed(ho, ht, lo, Region { hi: later(r.hi, ho[r.o].a_to), o: r.o + 1, t: r.t })
    } else if 0 <= r.o <= ho.len() && 0 <= r.t < ht.len() && touches(ht[r.t], lo, r.hi) {
        absorbed(ho, ht, lo, Region { hi: later(r.hi, ht[r.t].a_to), o: r.o, t: r.t + 1 })
    } else {
        r
    }
}

/// The text of `hs` and of the base lines between them, from line `lo` of the base.
pub open spec fn side_head(bl: Seq<Seq<u8>>, lines: Seq<Seq<u8>>, hs: Seq<HunkView>, lo: int) -> Seq<u8>
    decreases hs.len(),
{
    if hs.len() == 0 {
        Seq::empty()
    } else {
        let h = hs.last();
        side_head(bl, lines, hs.drop_last(), lo) + joined(bl.subrange(ends_at(hs.drop_last(), lo), h.a_from)) + joined(
            lines.subrange(h.b_from, h.b_to),
        )
    }
}

/// Where the last of some hunks ends in the base.
pub open spec fn ends_at(hs: Seq<HunkView>, lo: int) -> int {
    if hs.len() == 0 {
        lo
    } else {
        hs.last().a_to
    }
}

/// The text that one side has for the lines `[lo, hi)` of the base, `hs` being its hunks there.
pub open spec fn side(bl: Seq<Seq<u8>>, lines: Seq<Seq<u8>>, hs: Seq<HunkView>, lo: int, hi: int) -> Seq<u8> {
    side_head(bl, lines, hs, lo) + joined(bl.subrange(ends_at(hs, lo), hi))
}

/// What becomes of a region: a change that only one side made, or both made alike, stands.
pub open spec fn settled(base: Seq<u8>, ours: Seq<u8>, theirs: Seq<u8>) -> Option<Seq<u8>> {
    if ours == theirs {
        Some(ours)
    } else if ours == base {
        Some(theirs)
    } else if theirs == base {
        Some(ours)
    } else {
        None
    }
}

/// `head`, then what follows it.
pub open spec fn behind(head: Seq<u8>, rest: Option<Seq<u8>>) -> Option<Seq<u8>> {
    match rest {
        Some(s) => Some(head + s),
        None => None,
    }
}

/// The two sides of a merge, as lines, and their hunks against the base.
pub struct Sides {
    pub bl: Seq<Seq<u8>>,
    pub ol: Seq<Seq<u8>>,
    pub tl: Seq<Seq<u8>>,
    pub ho: Seq<HunkView>,
    pub ht: Seq<HunkView>,
}

impl Sides {
    /// Does the next hunk of ours end before theirs begins?
    pub open spec fn ours_first(self, i: int, j: int) -> bool {
        i < self.ho.len() && (j >= self.ht.len() || self.ho[i].a_to <= self.ht[j].a_from && self.ho[i].a_from
            != self.ht[j].a_from)
    }

    pub open spec fn theirs_first(self, i: int, j: int) -> bool {
        j < self.ht.len() && (i >= self.ho.len() || self.ht[j].a_to <= self.ho[i].a_from && self.ho[i].a_from
            != self.ht[j].a_from)
    }

    /// Where the region of hunks `i` of ours and `j` of theirs begins.
    pub open spec fn region_from(self, i: int, j: int) -> int {
        if self.ho[i].a_from < self.ht[j].a_from {
            self.ho[i].a_from
        } else {
            self.ht[j].a_from
        }
    }

    pub open spec fn region(self, i: int, j: int) -> Region {
        absorbed(
            self.ho,
            self.ht,
            self.region_from(i, j),
            Region { hi: later(self.ho[i].a_to, self.ht[j].a_to), o: i + 1, t: j + 1 },
        )
    }

    /// The text of the region of hunks `i` and `j`.
    pub open spec fn region_text(self, i: int, j: int) -> Option<Seq<u8>> {
        let lo = self.region_from(i, j);
        let r = self.region(i, j);
        settled(
            joined(self.bl.subrange(lo, r.hi)),
            side(self.bl, self.ol, self.ho.subrange(i, r.o), lo, r.hi),
            side(self.bl, self.tl, self.ht.subrange(j, r.t), lo, r.hi),
        )
    }

    /// The merge from line `bi` of the base on, hunks `i` of ours and `j` of theirs being next.
    pub open spec fn merge_from(self, i: int, j: int, bi: int) -> Option<Seq<u8>>
        decreases self.ho.len() - i + self.ht.len() - j,
        when 0 <= i <= self.ho.len() && 0 <= j <= self.ht.len()
        via Self::merge_shrinks
    {
        if i >= self.ho.len() && j >= self.ht.len() {
            Some(joined(self.bl.skip(bi)))
        } else if self.ours_first(i, j) {
            let h = self.ho[i];
            behind(
                joined(self.bl.subrange(bi, h.a_from)) + joined(self.ol.subrange(h.b_from, h.b_to)),
                self.merge_from(i + 1, j, h.a_to),
            )
        } else if self.theirs_first(i, j) {
            let h = self.ht[j];
            behind(
                joined(self.bl.subrange(bi, h.a_from)) + joined(self.tl.subrange(h.b_from, h.b_to)),
                self.merge_from(i, j + 1, h.a_to),
            )
        } else {
            let r = self.region(i, j);
            match self.region_text(i, j) {
                Some(text) => behind(
                    joined(self.bl.subrange(bi, self.region_from(i, j))) + text,
                    self.merge_from(r.o, r.t, r.hi),
                ),
                None => None,
            }
        }
    }

    #[via_fn]
    proof fn merge_shrinks(self, i: int, j: int, bi: int) {
        if i < self.ho.len() && j < self.ht.len() {
            lemma_absorbed(
                self.ho,
                self.ht,
                self.region_from(i, j),
                Region { hi: later(self.ho[i].a_to, self.ht[j].a_to), o: i + 1, t: j + 1 },
            );
        }
    }

    /// Both sides' hunks turn the base's lines into theirs.
    pub open spec fn fits(self) -> bool {
        &&& turns(self.bl, self.ol, self.ho, corner(self.bl, self.ol))
        &&& turns(self.bl, self.tl, self.ht, corner(self.bl, self.tl))
    }
}

proof fn lemma_absorbed(ho: Seq<HunkView>, ht: Seq<HunkView>, lo: int, r: Region)
    requires
        0 <= r.o <= ho.len(),
        0 <= r.t <= ht.len(),
    ensures
        ({
            let q = absorbed(ho, ht, lo, r);
            &&& r.o <= q.o <= ho.len()
            &&& r.t <= q.t <= ht.len()
            &&& r.hi <= q.hi
        }),
    decreases ho.len() + ht.len() - r.o - r.t,
{
    if r.o < ho.len() && touches(ho[r.o], lo, r.hi) {
        lemma_absorbed(ho, ht, lo, Region { hi: later(r.hi, ho[r.o].a_to), o: r.o + 1, t: r.t });
    } else if r.t < ht.len() && touches(ht[r.t], lo, r.hi) {
        lemma_absorbed(ho, ht, lo, Region { hi: later(r.hi, ht[r.t].a_to), o: r.o, t: r.t + 1 });
    }
}

/// The merge of `ours` and `theirs` against `base`; `None` is a conflict.
pub open spec fn merged(base: Seq<u8>, ours: Seq<u8>, theirs: Seq<u8>) -> Option<Seq<u8>> {
    sides_of(base, ours, theirs).merge_from(0, 0, 0)
}

pub open spec fn sides_of(base: Seq<u8>, ours: Seq<u8>, theirs: Seq<u8>) -> Sides {
    Sides {
        bl: lines_of(base),
        ol: lines_of(ours),
        tl: lines_of(theirs),
        ho: text_hunks(base, ours),
        ht: text_hunks(base, theirs),
    }
}

/// Appends `lines[from..to]`.
pub(crate) fn push_lines<'a>(out: &mut Vec<u8>, lines: &Vec<&'a [u8]>, from: usize, to: usize)
    requires
        from <= to <= lines@.len(),
    ensures
        final(out)@ == old(out)@ + joined(slice_views(lines@).subrange(from as int, to as int)),
{
    let ghost ls = slice_views(lines@);
    let ghost start = out@;
    let mut i: usize = from;
    assert(ls.subrange(from as int, i as int) =~= Seq::empty());
    assert(out@ =~= start + joined(ls.subrange(from as int, i as int)));
    while i < to
        invariant
            from <= i <= to <= lines@.len(),
            ls == slice_views(lines@),
            out@ == start + joined(ls.subrange(from as int, i as int)),
        decreases to - i,
    {
        out.extend_from_slice(lines[i]);
        proof {
            let some = ls.subrange(from as int, i as int);
            assert(ls.subrange(from as int, i + 1) =~= some.push(ls[i as int]));
            lemma_joined_push(some, ls[i as int]);
            assert(out@ =~= start + joined(ls.subrange(from as int, i + 1)));
        }
        i += 1;
    }
}

/// Hunks in order, inside lines `[lo, hi]` of the base and `n` lines of the side.
spec fn in_place(hs: Seq<Hunk>, lo: int, hi: int, n: int) -> bool {
    &&& forall|k: int|
        0 <= k < hs.len() ==> lo <= (#[trigger] hs[k]).a_from <= hs[k].a_to <= hi && hs[k].b_from <= hs[k].b_to <= n
    &&& forall|j: int, k: int| 0 <= j < k < hs.len() ==> (#[trigger] hs[j]).a_to <= (#[trigger] hs[k]).a_from
}

/// One side's text for the lines `[lo, hi)` of the base: hunks `i..j` and what lies between.
fn side_text<'a>(
    bl: &Vec<&'a [u8]>,
    lines: &Vec<&'a [u8]>,
    hunks: &Vec<Hunk>,
    i: usize,
    j: usize,
    lo: usize,
    hi: usize,
) -> (v: Vec<u8>)
    requires
        i <= j <= hunks@.len(),
        lo <= hi <= bl@.len(),
        in_place(hunks@.subrange(i as int, j as int), lo as int, hi as int, lines@.len() as int),
    ensures
        v@ == side(
            slice_views(bl@),
            slice_views(lines@),
            hunk_views(hunks@).subrange(i as int, j as int),
            lo as int,
            hi as int,
        ),
{
    let ghost hs = hunk_views(hunks@).subrange(i as int, j as int);
    let ghost part = hunks@.subrange(i as int, j as int);
    let mut v: Vec<u8> = Vec::new();
    let mut b: usize = lo;
    let mut k: usize = i;
    assert(hs.take(0) =~= Seq::empty());
    while k < j
        invariant
            i <= k <= j <= hunks@.len(),
            lo <= b <= hi <= bl@.len(),
            hs == hunk_views(hunks@).subrange(i as int, j as int),
            part == hunks@.subrange(i as int, j as int),
            in_place(part, lo as int, hi as int, lines@.len() as int),
            b == ends_at(hs.take(k - i), lo as int),
            v@ == side_head(slice_views(bl@), slice_views(lines@), hs.take(k - i), lo as int),
        decreases j - k,
    {
        let h: Hunk = hunks[k];
        proof {
            assert(part[k - i] == h);
            assert(hs[k - i] == h@);
            if k > i {
                assert(part[k - i - 1].a_to <= part[k - i].a_from);
                assert(hs.take(k - i).last() == hunks@[k - 1]@);
                assert(part[k - i - 1] == hunks@[k - 1]);
            }
            assert(hs.take(k - i + 1).drop_last() =~= hs.take(k - i));
            assert(hs.take(k - i + 1).last() == h@);
        }
        push_lines(&mut v, bl, b, h.a_from);
        push_lines(&mut v, lines, h.b_from, h.b_to);
        b = h.a_to;
        k += 1;
    }
    assert(hs.take(k - i) =~= hs);
    push_lines(&mut v, bl, b, hi);
    v
}

fn hunk_touches(h: &Hunk, lo: usize, hi: usize) -> (r: bool)
    ensures
        r == touches(h@, lo as int, hi as int),
{
    h.a_from < hi || h.a_from == hi && (h.a_from == lo || h.a_to > hi)
}

/// Do all hunks end by line `n` of the base?
spec fn ending_by(hs: Seq<Hunk>, n: int) -> bool {
    forall|k: int| 0 <= k < hs.len() ==> (#[trigger] hs[k]).a_to <= n
}

/// All hunks that touch a region, or touch what it grows to, in a base of `n` lines.
fn absorb(ho: &Vec<Hunk>, ht: &Vec<Hunk>, lo: usize, hi: usize, i: usize, j: usize, n: usize) -> (r: (usize, usize, usize))
    requires
        hi <= n,
        ending_by(ho@, n as int),
        ending_by(ht@, n as int),
        i <= ho@.len(),
        j <= ht@.len(),
    ensures
        (Region { hi: r.0 as int, o: r.1 as int, t: r.2 as int }) == absorbed(
            hunk_views(ho@),
            hunk_views(ht@),
            lo as int,
            (Region { hi: hi as int, o: i as int, t: j as int }),
        ),
        i <= r.1 <= ho@.len(),
        j <= r.2 <= ht@.len(),
        hi <= r.0,
        forall|k: int| i <= k < r.1 ==> (#[trigger] ho@[k]).a_to <= r.0,
        forall|k: int| j <= k < r.2 ==> (#[trigger] ht@[k]).a_to <= r.0,
        r.0 <= n,
        r.1 < ho@.len() ==> !touches(ho@[r.1 as int]@, lo as int, r.0 as int),
        r.2 < ht@.len() ==> !touches(ht@[r.2 as int]@, lo as int, r.0 as int),
{
    let ghost vo = hunk_views(ho@);
    let ghost vt = hunk_views(ht@);
    let ghost start = Region { hi: hi as int, o: i as int, t: j as int };
    let mut end: usize = hi;
    let mut o: usize = i;
    let mut t: usize = j;
    loop
        invariant_except_break
            absorbed(vo, vt, lo as int, start) == absorbed(
                vo,
                vt,
                lo as int,
                Region { hi: end as int, o: o as int, t: t as int },
            ),
        invariant
            vo == hunk_views(ho@),
            vt == hunk_views(ht@),
            i <= o <= ho@.len(),
            j <= t <= ht@.len(),
            hi <= end,
            forall|k: int| i <= k < o ==> (#[trigger] ho@[k]).a_to <= end,
            forall|k: int| j <= k < t ==> (#[trigger] ht@[k]).a_to <= end,
            end <= n,
            ending_by(ho@, n as int),
            ending_by(ht@, n as int),
        ensures
            absorbed(vo, vt, lo as int, start) == (Region { hi: end as int, o: o as int, t: t as int }),
            o < ho@.len() ==> !touches(ho@[o as int]@, lo as int, end as int),
            t < ht@.len() ==> !touches(ht@[t as int]@, lo as int, end as int),
        decreases ho@.len() + ht@.len() - o - t,
    {
        if o < ho.len() && hunk_touches(&ho[o], lo, end) {
            if ho[o].a_to > end {
                end = ho[o].a_to;
            }
            o += 1;
        } else if t < ht.len() && hunk_touches(&ht[t], lo, end) {
            if ht[t].a_to > end {
                end = ht[t].a_to;
            }
            t += 1;
        } else {
            break;
        }
    }
    (end, o, t)
}

/// Do the hunks of a diff lie in order, inside both texts?
spec fn ordered(hs: Seq<Hunk>, n: int, m: int) -> bool {
    &&& forall|k: int|
        0 <= k < hs.len() ==> (#[trigger] hs[k]).a_from <= hs[k].a_to <= n && hs[k].b_from <= hs[k].b_to <= m
    &&& forall|j: int, k: int| 0 <= j < k < hs.len() ==> (#[trigger] hs[j]).a_to <= (#[trigger] hs[k]).a_from
}

proof fn lemma_ordered<T>(a: Seq<T>, b: Seq<T>, hs: Seq<Hunk>)
    requires
        turns(a, b, hunk_views(hs), corner(a, b)),
    ensures
        ordered(hs, a.len() as int, b.len() as int),
{
    let vs = hunk_views(hs);
    lemma_turns_fit(a, b, vs, corner(a, b));
    assert forall|k: int| 0 <= k < hs.len() implies (#[trigger] hs[k]).a_from <= hs[k].a_to <= a.len() && hs[k].b_from
        <= hs[k].b_to <= b.len() by {
        assert(vs[k] == hs[k]@);
    }
    assert forall|j: int, k: int| 0 <= j < k < hs.len() implies (#[trigger] hs[j]).a_to <= (#[trigger] hs[k]).a_from by {
        assert(vs[j] == hs[j]@ && vs[k] == hs[k]@);
    }
}

proof fn lemma_in_place(hs: Seq<Hunk>, i: int, j: int, lo: int, hi: int, n: int, m: int)
    requires
        ordered(hs, n, m),
        0 <= i <= j <= hs.len(),
        i < j ==> lo <= hs[i].a_from,
        forall|k: int| i <= k < j ==> (#[trigger] hs[k]).a_to <= hi,
    ensures
        in_place(hs.subrange(i, j), lo, hi, m),
{
    let part = hs.subrange(i, j);
    assert forall|k: int| 0 <= k < part.len() implies lo <= (#[trigger] part[k]).a_from <= part[k].a_to <= hi && part[k].b_from
        <= part[k].b_to <= m by {
        assert(part[k] == hs[i + k]);
        if k > 0 {
            assert(hs[i].a_to <= hs[i + k].a_from);
        }
    }
    assert forall|x: int, y: int| 0 <= x < y < part.len() implies (#[trigger] part[x]).a_to <= (#[trigger] part[y]).a_from by {
        assert(part[x] == hs[i + x] && part[y] == hs[i + y]);
    }
}

/// The sides of a merge that the given vectors hold.
spec fn held_sides<'a>(
    bl: Vec<&'a [u8]>,
    ol: Vec<&'a [u8]>,
    tl: Vec<&'a [u8]>,
    ho: Vec<Hunk>,
    ht: Vec<Hunk>,
) -> Sides {
    Sides {
        bl: slice_views(bl@),
        ol: slice_views(ol@),
        tl: slice_views(tl@),
        ho: hunk_views(ho@),
        ht: hunk_views(ht@),
    }
}

/// The region of hunks `i` of ours and `j` of theirs: where it ends, the hunks behind it, and
/// its text unless the sides conflict there.
fn merge_region<'a>(
    bl: &Vec<&'a [u8]>,
    ol: &Vec<&'a [u8]>,
    tl: &Vec<&'a [u8]>,
    ho: &Vec<Hunk>,
    ht: &Vec<Hunk>,
    i: usize,
    j: usize,
    lo: usize,
) -> (r: (usize, usize, usize, Option<Vec<u8>>))
    requires
        i < ho@.len(),
        j < ht@.len(),
        ordered(ho@, bl@.len() as int, ol@.len() as int),
        ordered(ht@, bl@.len() as int, tl@.len() as int),
        lo == held_sides(*bl, *ol, *tl, *ho, *ht).region_from(i as int, j as int),
    ensures
        ({
            let s = held_sides(*bl, *ol, *tl, *ho, *ht);
            &&& s.region(i as int, j as int) == (Region { hi: r.0 as int, o: r.1 as int, t: r.2 as int })
            &&& s.region_text(i as int, j as int) == match r.3 {
                Some(v) => Some(v@),
                None => None,
            }
        }),
        i < r.1 <= ho@.len(),
        j < r.2 <= ht@.len(),
        lo <= r.0 <= bl@.len(),
        r.1 < ho@.len() ==> r.0 <= ho@[r.1 as int].a_from,
        r.2 < ht@.len() ==> r.0 <= ht@[r.2 as int].a_from,
{
    let ghost s = held_sides(*bl, *ol, *tl, *ho, *ht);
    assert(s.ho[i as int] == ho@[i as int]@ && s.ht[j as int] == ht@[j as int]@);
    let first: usize = if ho[i].a_to < ht[j].a_to {
        ht[j].a_to
    } else {
        ho[i].a_to
    };
    assert(i < ho.len() && j < ht.len());
    let (hi, i2, j2): (usize, usize, usize) = absorb(ho, ht, lo, first, i + 1, j + 1, bl.len());
    proof {
        assert(s.region(i as int, j as int) == (Region { hi: hi as int, o: i2 as int, t: j2 as int }));
        lemma_in_place(ho@, i as int, i2 as int, lo as int, hi as int, bl@.len() as int, ol@.len() as int);
        lemma_in_place(ht@, j as int, j2 as int, lo as int, hi as int, bl@.len() as int, tl@.len() as int);
    }
    let o_text = side_text(bl, ol, ho, i, i2, lo, hi);
    let t_text = side_text(bl, tl, ht, j, j2, lo, hi);
    let mut base_text: Vec<u8> = Vec::new();
    push_lines(&mut base_text, bl, lo, hi);
    assert(base_text@ =~= joined(s.bl.subrange(lo as int, hi as int)));
    let text: Option<Vec<u8>> = if same_bytes(o_text.as_slice(), t_text.as_slice()) {
        Some(o_text)
    } else if same_bytes(o_text.as_slice(), base_text.as_slice()) {
        Some(t_text)
    } else if same_bytes(t_text.as_slice(), base_text.as_slice()) {
        Some(o_text)
    } else {
        None
    };
    (hi, i2, j2, text)
}

/// Line-level diff3: merge `ours` and `theirs` against `base`. Conflicts when both sides
/// change overlapping line ranges differently.
#[verifier::rlimit(60)]
pub fn diff3(base: &[u8], ours: &[u8], theirs: &[u8]) -> (r: Merge)
    ensures
        r.text() == merged(base@, ours@, theirs@),
{
    let bl = split_lines(base);
    let ol = split_lines(ours);
    let tl = split_lines(theirs);
    let ho = line_diff(&bl, &ol);
    let ht = line_diff(&bl, &tl);
    let ghost s = sides_of(base@, ours@, theirs@);
    proof {
        lemma_text_hunks(base@, ours@);
        lemma_text_hunks(base@, theirs@);
        lemma_ordered(s.bl, s.ol, ho@);
        lemma_ordered(s.bl, s.tl, ht@);
    }
    let mut out: Vec<u8> = Vec::new();
    let mut bi: usize = 0;
    let mut i: usize = 0;
    let mut j: usize = 0;
    proof {
        let m = s.merge_from(0, 0, 0);
        if m is Some {
            assert(out@ + m->0 =~= m->0);
        }
    }
    while i < ho.len() || j < ht.len()
        invariant
            i <= ho@.len(),
            j <= ht@.len(),
            bi <= bl@.len(),
            s == sides_of(base@, ours@, theirs@),
            s == held_sides(bl, ol, tl, ho, ht),
            ordered(ho@, bl@.len() as int, ol@.len() as int),
            ordered(ht@, bl@.len() as int, tl@.len() as int),
            i < ho@.len() ==> bi <= ho@[i as int].a_from,
            j < ht@.len() ==> bi <= ht@[j as int].a_from,
            s.merge_from(0, 0, 0) == behind(out@, s.merge_from(i as int, j as int, bi as int)),
        decreases ho@.len() - i + ht@.len() - j,
    {
        let ghost before = out@;
        proof {
            assert(i < ho@.len() ==> s.ho[i as int] == ho@[i as int]@);
            assert(j < ht@.len() ==> s.ht[j as int] == ht@[j as int]@);
            assert(i + 1 < ho@.len() ==> ho@[i as int].a_to <= ho@[i + 1].a_from);
            assert(j + 1 < ht@.len() ==> ht@[j as int].a_to <= ht@[j + 1].a_from);
            assert(bl@.len() == s.bl.len() && ol@.len() == s.ol.len() && tl@.len() == s.tl.len());
        }
        if i < ho.len() && (j >= ht.len() || ho[i].a_to <= ht[j].a_from && ho[i].a_from != ht[j].a_from) {
            let o: Hunk = ho[i];
            push_lines(&mut out, &bl, bi, o.a_from);
            push_lines(&mut out, &ol, o.b_from, o.b_to);
            proof {
                assert(s.ours_first(i as int, j as int));
                let head = joined(s.bl.subrange(bi as int, o.a_from as int)) + joined(
                    s.ol.subrange(o.b_from as int, o.b_to as int),
                );
                assert(out@ =~= before + head);
                lemma_behind(before, head, s.merge_from(i + 1, j as int, o.a_to as int));
            }
            i += 1;
            bi = o.a_to;
        } else if j < ht.len() && (i >= ho.len() || ht[j].a_to <= ho[i].a_from && ho[i].a_from != ht[j].a_from) {
            let t: Hunk = ht[j];
            push_lines(&mut out, &bl, bi, t.a_from);
            push_lines(&mut out, &tl, t.b_from, t.b_to);
            proof {
                assert(!s.ours_first(i as int, j as int));
                assert(s.theirs_first(i as int, j as int));
                let head = joined(s.bl.subrange(bi as int, t.a_from as int)) + joined(
                    s.tl.subrange(t.b_from as int, t.b_to as int),
                );
                assert(out@ =~= before + head);
                lemma_behind(before, head, s.merge_from(i as int, j + 1, t.a_to as int));
            }
            j += 1;
            bi = t.a_to;
        } else {
            let lo: usize = if ho[i].a_from < ht[j].a_from {
                ho[i].a_from
            } else {
                ht[j].a_from
            };
            push_lines(&mut out, &bl, bi, lo);
            let ghost mid = out@;
            let (hi, i2, j2, text): (usize, usize, usize, Option<Vec<u8>>) = merge_region(&bl, &ol, &tl, &ho, &ht, i, j, lo);
            let text: Vec<u8> = match text {
                Some(text) => text,
                None => {
                    assert(s.merge_from(i as int, j as int, bi as int) is None);
                    return Merge::Conflict;
                },
            };
            out.extend_from_slice(text.as_slice());
            proof {
                assert(out@ =~= mid + text@);
                let head = joined(s.bl.subrange(bi as int, lo as int)) + text@;
                assert(out@ =~= before + head);
                lemma_behind(before, head, s.merge_from(i2 as int, j2 as int, hi as int));
            }
            i = i2;
            j = j2;
            bi = hi;
        }
    }
    let ghost before = out@;
    let n: usize = bl.len();
    push_lines(&mut out, &bl, bi, n);
    assert(s.bl.subrange(bi as int, n as int) =~= s.bl.skip(bi as int));
    Merge::Clean(out)
}

proof fn lemma_behind(a: Seq<u8>, b: Seq<u8>, rest: Option<Seq<u8>>)
    ensures
        behind(a, behind(b, rest)) == behind(a + b, rest),
{
    if rest is Some {
        assert(a + (b + rest->0) =~= a + b + rest->0);
    }
}

/// The lines between two hunks of a diff are alike on both sides.
pub(crate) proof fn lemma_between<T>(a: Seq<T>, b: Seq<T>, hs: Seq<HunkView>, p: Point, k: int)
    requires
        turns(a, b, hs, p),
        0 <= k <= hs.len(),
    ensures
        alike(
            a,
            b,
            (Point { x: ends_at(hs.take(k), 0), y: new_end(hs.take(k)) }),
            (if k < hs.len() { Point { x: hs[k].a_from, y: hs[k].b_from } } else { p }),
        ),
    decreases hs.len(),
{
    if k < hs.len() {
        let h = hs.last();
        let front = hs.drop_last();
        assert(front.take(k) =~= hs.take(k));
        lemma_between(a, b, front, Point { x: h.a_from, y: h.b_from }, k);
    } else {
        assert(hs.take(k) =~= hs);
    }
}

/// Where the last of some hunks ends in the new lines.
pub(crate) open spec fn new_end(hs: Seq<HunkView>) -> int {
    if hs.len() == 0 {
        0
    } else {
        hs.last().b_to
    }
}

pub(crate) proof fn lemma_joined_span(ls: Seq<Seq<u8>>, i: int, j: int, k: int)
    requires
        0 <= i <= j <= k <= ls.len(),
    ensures
        joined(ls.subrange(i, j)) + joined(ls.subrange(j, k)) == joined(ls.subrange(i, k)),
{
    assert(ls.subrange(i, j) + ls.subrange(j, k) =~= ls.subrange(i, k));
    lemma_joined_concat(ls.subrange(i, j), ls.subrange(j, k));
}

/// With no hunks of ours left, the rest of the merge is the rest of theirs.
proof fn lemma_only_theirs(s: Sides, j: int)
    requires
        s.fits(),
        s.ho.len() == 0,
        0 <= j <= s.ht.len(),
    ensures
        s.merge_from(0, j, ends_at(s.ht.take(j), 0)) == Some(joined(s.tl.skip(new_end(s.ht.take(j))))),
    decreases s.ht.len() - j,
{
    let bi = ends_at(s.ht.take(j), 0);
    let ti = new_end(s.ht.take(j));
    let p = corner(s.bl, s.tl);
    lemma_between(s.bl, s.tl, s.ht, p, j);
    lemma_turns_fit(s.bl, s.tl, s.ht, p);
    if j < s.ht.len() {
        let h = s.ht[j];
        lemma_only_theirs(s, j + 1);
        assert(s.ht.take(j + 1).last() == h);
        assert(s.theirs_first(0, j));
        let n = s.tl.len() as int;
        lemma_joined_span(s.tl, ti, h.b_from, h.b_to);
        lemma_joined_span(s.tl, ti, h.b_to, n);
        assert(s.tl.skip(h.b_to) =~= s.tl.subrange(h.b_to, n));
        assert(s.tl.skip(ti) =~= s.tl.subrange(ti, n));
    } else {
        assert(s.bl.skip(bi) =~= s.bl.subrange(bi, p.x));
        assert(s.tl.skip(ti) =~= s.tl.subrange(ti, p.y));
    }
}

/// With no hunks of theirs left, the rest of the merge is the rest of ours.
proof fn lemma_only_ours(s: Sides, i: int)
    requires
        s.fits(),
        s.ht.len() == 0,
        0 <= i <= s.ho.len(),
    ensures
        s.merge_from(i, 0, ends_at(s.ho.take(i), 0)) == Some(joined(s.ol.skip(new_end(s.ho.take(i))))),
    decreases s.ho.len() - i,
{
    let bi = ends_at(s.ho.take(i), 0);
    let oi = new_end(s.ho.take(i));
    let p = corner(s.bl, s.ol);
    lemma_between(s.bl, s.ol, s.ho, p, i);
    lemma_turns_fit(s.bl, s.ol, s.ho, p);
    if i < s.ho.len() {
        let h = s.ho[i];
        lemma_only_ours(s, i + 1);
        assert(s.ho.take(i + 1).last() == h);
        assert(s.ours_first(i, 0));
        let n = s.ol.len() as int;
        lemma_joined_span(s.ol, oi, h.b_from, h.b_to);
        lemma_joined_span(s.ol, oi, h.b_to, n);
        assert(s.ol.skip(h.b_to) =~= s.ol.subrange(h.b_to, n));
        assert(s.ol.skip(oi) =~= s.ol.subrange(oi, n));
    } else {
        assert(s.bl.skip(bi) =~= s.bl.subrange(bi, p.x));
        assert(s.ol.skip(oi) =~= s.ol.subrange(oi, p.y));
    }
}

/// Where both sides have the same hunks, each is a region of its own that both made alike.
proof fn lemma_both_alike(s: Sides, i: int)
    requires
        s.fits(),
        s.ho == s.ht,
        s.ol == s.tl,
        0 <= i <= s.ho.len(),
    ensures
        s.merge_from(i, i, ends_at(s.ho.take(i), 0)) == Some(joined(s.ol.skip(new_end(s.ho.take(i))))),
    decreases s.ho.len() - i,
{
    let bi = ends_at(s.ho.take(i), 0);
    let oi = new_end(s.ho.take(i));
    let p = corner(s.bl, s.ol);
    lemma_between(s.bl, s.ol, s.ho, p, i);
    lemma_turns_fit(s.bl, s.ol, s.ho, p);
    if i < s.ho.len() {
        let h = s.ho[i];
        lemma_both_alike(s, i + 1);
        assert(s.ho.take(i + 1).last() == h);
        let n = s.ol.len() as int;
        if i + 1 < s.ho.len() {
            assert(s.ho[i].a_to < s.ho[i + 1].a_from);
        }
        assert(s.region_from(i, i) == h.a_from);
        assert(s.region(i, i) == (Region { hi: h.a_to, o: i + 1, t: i + 1 }));
        let one = s.ho.subrange(i, i + 1);
        assert(one.drop_last() =~= Seq::empty());
        assert(s.bl.subrange(h.a_from, h.a_from) =~= Seq::empty());
        assert(s.bl.subrange(h.a_to, h.a_to) =~= Seq::empty());
        assert(side_head(s.bl, s.ol, one.drop_last(), h.a_from) =~= Seq::empty());
        assert(side(s.bl, s.ol, one, h.a_from, h.a_to) =~= joined(s.ol.subrange(h.b_from, h.b_to)));
        assert(s.region_text(i, i) == Some(joined(s.ol.subrange(h.b_from, h.b_to))));
        lemma_joined_span(s.ol, oi, h.b_from, h.b_to);
        lemma_joined_span(s.ol, oi, h.b_to, n);
        assert(s.ol.skip(h.b_to) =~= s.ol.subrange(h.b_to, n));
        assert(s.ol.skip(oi) =~= s.ol.subrange(oi, n));
    } else {
        assert(s.bl.skip(bi) =~= s.bl.subrange(bi, p.x));
        assert(s.ol.skip(oi) =~= s.ol.subrange(oi, p.y));
    }
}

/// If ours is the base, the merge is theirs.
pub proof fn law_merge_takes_theirs(base: Seq<u8>, theirs: Seq<u8>)
    ensures
        merged(base, base, theirs) == Some(theirs),
{
    let s = sides_of(base, base, theirs);
    lemma_text_hunks(base, base);
    lemma_text_hunks(base, theirs);
    law_no_text_diff(base);
    lemma_only_theirs(s, 0);
    lemma_lines(theirs);
    assert(s.tl.skip(0) =~= s.tl);
}

/// If theirs is the base, the merge is ours.
pub proof fn law_merge_takes_ours(base: Seq<u8>, ours: Seq<u8>)
    ensures
        merged(base, ours, base) == Some(ours),
{
    let s = sides_of(base, ours, base);
    lemma_text_hunks(base, ours);
    lemma_text_hunks(base, base);
    law_no_text_diff(base);
    lemma_only_ours(s, 0);
    lemma_lines(ours);
    assert(s.ol.skip(0) =~= s.ol);
}

/// If both sides are the same text, that text is the merge: a change both made is no conflict.
pub proof fn law_merge_of_equals(base: Seq<u8>, both: Seq<u8>)
    ensures
        merged(base, both, both) == Some(both),
{
    let s = sides_of(base, both, both);
    lemma_text_hunks(base, both);
    lemma_both_alike(s, 0);
    lemma_lines(both);
    assert(s.ol.skip(0) =~= s.ol);
}

/// A text has no line diff with itself.
pub proof fn law_no_text_diff(a: Seq<u8>)
    ensures
        text_hunks(a, a).len() == 0,
{
    lemma_diff_of(lines_of(a), lines_of(a), MAX_LINE_EDITS as nat);
    law_no_diff(lines_of(a), MAX_LINE_EDITS as nat, text_hunks(a, a));
}


impl Sides {
    /// The same merge with the sides exchanged.
    pub open spec fn swapped(self) -> Sides {
        Sides { bl: self.bl, ol: self.tl, tl: self.ol, ho: self.ht, ht: self.ho }
    }
}

spec fn upright(hs: Seq<HunkView>) -> bool {
    forall|i: int| 0 <= i < hs.len() ==> (#[trigger] hs[i]).a_from <= hs[i].a_to
}

/// A hunk of theirs that touches a region can be taken in first.
proof fn lemma_theirs_absorbed(ho: Seq<HunkView>, ht: Seq<HunkView>, lo: int, r: Region)
    requires
        0 <= r.o <= ho.len(),
        0 <= r.t < ht.len(),
        touches(ht[r.t], lo, r.hi),
    ensures
        absorbed(ho, ht, lo, r) == absorbed(ho, ht, lo, Region { hi: later(r.hi, ht[r.t].a_to), o: r.o, t: r.t + 1 }),
    decreases ho.len() - r.o,
{
    let s = Region { hi: later(r.hi, ht[r.t].a_to), o: r.o, t: r.t + 1 };
    if r.o < ho.len() && touches(ho[r.o], lo, r.hi) {
        let q = Region { hi: later(r.hi, ho[r.o].a_to), o: r.o + 1, t: r.t };
        lemma_theirs_absorbed(ho, ht, lo, q);
        assert(touches(ho[r.o], lo, s.hi));
        let u = Region { hi: later(s.hi, ho[r.o].a_to), o: s.o + 1, t: s.t };
        assert(absorbed(ho, ht, lo, s) == absorbed(ho, ht, lo, u));
        assert(u == (Region { hi: later(q.hi, ht[q.t].a_to), o: q.o, t: q.t + 1 }));
    }
}

/// What a region takes in does not depend on which side is ours.
proof fn lemma_absorbed_swapped(ho: Seq<HunkView>, ht: Seq<HunkView>, lo: int, r: Region)
    requires
        0 <= r.o <= ho.len(),
        0 <= r.t <= ht.len(),
    ensures
        ({
            let q = absorbed(ho, ht, lo, r);
            absorbed(ht, ho, lo, Region { hi: r.hi, o: r.t, t: r.o }) == (Region { hi: q.hi, o: q.t, t: q.o })
        }),
    decreases ho.len() + ht.len() - r.o - r.t,
{
    let s = Region { hi: r.hi, o: r.t, t: r.o };
    if r.o < ho.len() && touches(ho[r.o], lo, r.hi) {
        let q = Region { hi: later(r.hi, ho[r.o].a_to), o: r.o + 1, t: r.t };
        lemma_absorbed_swapped(ho, ht, lo, q);
        lemma_theirs_absorbed(ht, ho, lo, s);
    } else if r.t < ht.len() && touches(ht[r.t], lo, r.hi) {
        lemma_absorbed_swapped(ho, ht, lo, Region { hi: later(r.hi, ht[r.t].a_to), o: r.o, t: r.t + 1 });
    }
}

proof fn lemma_merge_swapped(s: Sides, i: int, j: int, bi: int)
    requires
        upright(s.ho),
        upright(s.ht),
        0 <= i <= s.ho.len(),
        0 <= j <= s.ht.len(),
    ensures
        s.swapped().merge_from(j, i, bi) == s.merge_from(i, j, bi),
    decreases s.ho.len() - i + s.ht.len() - j,
{
    let w = s.swapped();
    if i >= s.ho.len() && j >= s.ht.len() {
    } else if s.ours_first(i, j) {
        assert(!w.ours_first(j, i));
        assert(w.theirs_first(j, i));
        lemma_merge_swapped(s, i + 1, j, s.ho[i].a_to);
    } else if s.theirs_first(i, j) {
        assert(w.ours_first(j, i));
        lemma_merge_swapped(s, i, j + 1, s.ht[j].a_to);
    } else {
        let lo = s.region_from(i, j);
        let start = Region { hi: later(s.ho[i].a_to, s.ht[j].a_to), o: i + 1, t: j + 1 };
        let r = s.region(i, j);
        lemma_absorbed(s.ho, s.ht, lo, start);
        lemma_absorbed_swapped(s.ho, s.ht, lo, start);
        assert(w.region_from(j, i) == lo);
        assert(w.region(j, i) == (Region { hi: r.hi, o: r.t, t: r.o }));
        assert(w.region_text(j, i) == s.region_text(i, j));
        lemma_merge_swapped(s, r.o, r.t, r.hi);
    }
}

/// A merge does not depend on which side is called ours.
pub proof fn law_merge_is_symmetric(base: Seq<u8>, ours: Seq<u8>, theirs: Seq<u8>)
    ensures
        merged(base, ours, theirs) == merged(base, theirs, ours),
{
    let s = sides_of(base, ours, theirs);
    lemma_text_hunks(base, ours);
    lemma_text_hunks(base, theirs);
    lemma_turns_fit(s.bl, s.ol, s.ho, corner(s.bl, s.ol));
    lemma_turns_fit(s.bl, s.tl, s.ht, corner(s.bl, s.tl));
    lemma_merge_swapped(s, 0, 0, 0);
}

} // verus!
