//! What a three-way merge keeps, and when it is refused.

use vstd::prelude::*;
use crate::chunker::{joined, lemma_joined_concat, lemma_joined_push};
use crate::linelaw::lemma_lines_concat;
use crate::lines::{is_line, lemma_first_line, lemma_lines, lines_of};
use crate::merge::{
    absorbed, ends_at, later, lemma_between, lemma_joined_span, merged, new_end, side, side_head, sides_of, touches,
    Region,
};
use crate::myers::{corner, lemma_text_hunks, lemma_turns_fit, text_hunks, turns, HunkView};

verus! {

/// A place between lines of the base: `b` lines of the base, `i` hunks of ours and `j` hunks of
/// theirs lie before it.
#[verifier::ext_equal]
pub struct Place {
    pub b: int,
    pub i: int,
    pub j: int,
}

/// Line `b` of the base is behind `i` hunks of a diff and before the others.
pub open spec fn uncrossed(hs: Seq<HunkView>, i: int, b: int) -> bool {
    &&& 0 <= i <= hs.len()
    &&& i > 0 ==> hs[i - 1].a_to <= b
    &&& i < hs.len() ==> b <= hs[i].a_from
}

/// Where line `b` of the base stands on a side, behind `i` hunks of the side.
pub open spec fn carried(hs: Seq<HunkView>, i: int, b: int) -> int {
    if i <= 0 {
        b
    } else {
        hs[i - 1].b_to + (b - hs[i - 1].a_to)
    }
}

/// Two changes of one base meet if they begin at the same line or share a line.
pub open spec fn meets(o: HunkView, t: HunkView) -> bool {
    o.a_from == t.a_from || o.a_from < t.a_to && t.a_from < o.a_to
}

/// Is line `x` of the base in one of the hunks `i..j`?
pub open spec fn changed_line(hs: Seq<HunkView>, i: int, j: int, x: int) -> bool {
    exists|k: int| i <= k < j && (#[trigger] hs[k]).a_from <= x < hs[k].a_to
}

/// A change lies behind line `b` of the base: it begins later, or only puts lines in there.
pub open spec fn lies_behind(hs: Seq<HunkView>, k: int, b: int) -> bool {
    k < hs.len() ==> b < hs[k].a_from || b == hs[k].a_from && hs[k].a_from == hs[k].a_to
}

/// The base's text between two places.
pub open spec fn base_text(base: Seq<u8>, p: Place, q: Place) -> Seq<u8> {
    joined(lines_of(base).subrange(p.b, q.b))
}

/// Our text between two places.
pub open spec fn our_text(base: Seq<u8>, ours: Seq<u8>, p: Place, q: Place) -> Seq<u8> {
    let hs = text_hunks(base, ours);
    joined(lines_of(ours).subrange(carried(hs, p.i, p.b), carried(hs, q.i, q.b)))
}

/// Their text between two places.
pub open spec fn their_text(base: Seq<u8>, theirs: Seq<u8>, p: Place, q: Place) -> Seq<u8> {
    let hs = text_hunks(base, theirs);
    joined(lines_of(theirs).subrange(carried(hs, p.j, p.b), carried(hs, q.j, q.b)))
}

/// A place that no change of either side crosses.
pub open spec fn is_place(base: Seq<u8>, ours: Seq<u8>, theirs: Seq<u8>, p: Place) -> bool {
    &&& 0 <= p.b <= lines_of(base).len()
    &&& uncrossed(text_hunks(base, ours), p.i, p.b)
    &&& uncrossed(text_hunks(base, theirs), p.j, p.b)
}

/// Both sides changed the lines between two places: a change of ours meets one of theirs at the
/// start, one side or the other changed each line, and the next changes lie behind.
pub open spec fn both_changed(base: Seq<u8>, ours: Seq<u8>, theirs: Seq<u8>, p: Place, q: Place) -> bool {
    let ho = text_hunks(base, ours);
    let ht = text_hunks(base, theirs);
    &&& is_place(base, ours, theirs, p)
    &&& is_place(base, ours, theirs, q)
    &&& p.b <= q.b
    &&& p.i < q.i
    &&& p.j < q.j
    &&& meets(ho[p.i], ht[p.j])
    &&& p.b == ho[p.i].a_from || p.b == ht[p.j].a_from
    &&& forall|x: int| p.b <= x < q.b ==> #[trigger] changed_line(ho, p.i, q.i, x) || changed_line(ht, p.j, q.j, x)
    &&& lies_behind(ho, q.i, q.b)
    &&& lies_behind(ht, q.j, q.b)
}

/// `text` may stand for what the three texts have at one place: the sides agree, or one of them
/// left the base as it was and the other's text is taken.
pub open spec fn stands(base: Seq<u8>, ours: Seq<u8>, theirs: Seq<u8>, text: Seq<u8>) -> bool {
    ||| ours == theirs && text == ours
    ||| ours == base && text == theirs
    ||| theirs == base && text == ours
}

/// The lines between two places are merged into `text`.
pub open spec fn merges_to(base: Seq<u8>, ours: Seq<u8>, theirs: Seq<u8>, p: Place, q: Place, text: Seq<u8>) -> bool {
    &&& p.b <= q.b && p.i <= q.i && p.j <= q.j
    &&& stands(base_text(base, p, q), our_text(base, ours, p, q), their_text(base, theirs, p, q), text)
    &&& p.i < q.i && p.j < q.j ==> both_changed(base, ours, theirs, p, q)
}

/// The three texts and the merge fall into as many pieces at places that no change crosses: the
/// piece between `places[k]` and `places[k + 1]` is merged into `texts[k]`.
pub open spec fn pieced(
    base: Seq<u8>,
    ours: Seq<u8>,
    theirs: Seq<u8>,
    places: Seq<Place>,
    texts: Seq<Seq<u8>>,
) -> bool {
    &&& places.len() == texts.len() + 1
    &&& forall|k: int| 0 <= k < places.len() ==> is_place(base, ours, theirs, #[trigger] places[k])
    &&& forall|k: int| #![trigger texts[k]]
        0 <= k < texts.len() ==> merges_to(base, ours, theirs, places[k], places[k + 1], texts[k])
}

/// Hunk `i` of ours and hunk `j` of theirs are in one piece.
pub open spec fn together(places: Seq<Place>, i: int, j: int) -> bool {
    exists|k: int|
        0 <= k < places.len() - 1 && (#[trigger] places[k]).i <= i < places[k + 1].i && places[k].j <= j < places[k + 1].j
}

/// Changes that meet, from some hunks on, are in one piece.
pub open spec fn meeting_together(base: Seq<u8>, ours: Seq<u8>, theirs: Seq<u8>, places: Seq<Place>) -> bool {
    let ho = text_hunks(base, ours);
    let ht = text_hunks(base, theirs);
    forall|i: int, j: int|
        places[0].i <= i < ho.len() && places[0].j <= j < ht.len() && #[trigger] meets(ho[i], ht[j]) ==> together(
            places,
            i,
            j,
        )
}

spec fn end_place(base: Seq<u8>, ours: Seq<u8>, theirs: Seq<u8>) -> Place {
    Place {
        b: lines_of(base).len() as int,
        i: text_hunks(base, ours).len() as int,
        j: text_hunks(base, theirs).len() as int,
    }
}

/// Outside the hunks a side has the base's lines.
proof fn lemma_carried<T>(a: Seq<T>, b: Seq<T>, hs: Seq<HunkView>, k: int, x: int, y: int)
    requires
        turns(a, b, hs, corner(a, b)),
        uncrossed(hs, k, x),
        uncrossed(hs, k, y),
        0 <= x <= y <= a.len(),
    ensures
        0 <= carried(hs, k, x) <= carried(hs, k, y) <= b.len(),
        b.subrange(carried(hs, k, x), carried(hs, k, y)) == a.subrange(x, y),
{
    let p = corner(a, b);
    lemma_between(a, b, hs, p, k);
    let fx = ends_at(hs.take(k), 0);
    let fy = new_end(hs.take(k));
    if k > 0 {
        assert(hs.take(k).last() == hs[k - 1]);
    }
    assert(carried(hs, k, x) == fy + (x - fx));
    let tx = if k < hs.len() { hs[k].a_from } else { p.x };
    let ty = if k < hs.len() { hs[k].b_from } else { p.y };
    let u = a.subrange(fx, tx);
    let v = b.subrange(fy, ty);
    assert(u == v);
    assert(a.subrange(x, y) =~= u.subrange(x - fx, y - fx));
    assert(b.subrange(carried(hs, k, x), carried(hs, k, y)) =~= v.subrange(x - fx, y - fx));
}

/// A side's text in a region is what stands between the region's ends on the side.
#[verifier::rlimit(60)]
proof fn lemma_side_text(bl: Seq<Seq<u8>>, ls: Seq<Seq<u8>>, hs: Seq<HunkView>, i: int, lo: int, j: int, hi: int)
    requires
        turns(bl, ls, hs, corner(bl, ls)),
        uncrossed(hs, i, lo),
        uncrossed(hs, j, hi),
        0 <= lo <= hi <= bl.len(),
        i <= j,
    ensures
        0 <= carried(hs, i, lo) <= carried(hs, j, hi) <= ls.len(),
        side(bl, ls, hs.subrange(i, j), lo, hi) == joined(ls.subrange(carried(hs, i, lo), carried(hs, j, hi))),
    decreases j - i,
{
    lemma_turns_fit(bl, ls, hs, corner(bl, ls));
    let part = hs.subrange(i, j);
    let from = carried(hs, i, lo);
    if i == j {
        lemma_carried(bl, ls, hs, i, lo, hi);
        assert(side(bl, ls, part, lo, hi) =~= joined(bl.subrange(lo, hi)));
    } else {
        let h = hs[j - 1];
        assert(part.last() == h);
        assert(part.drop_last() =~= hs.subrange(i, j - 1));
        if j - 1 > 0 {
            assert(hs[j - 2].a_to < h.a_from);
        }
        if i < j - 1 {
            assert(hs[i].a_to < h.a_from);
        }
        lemma_side_text(bl, ls, hs, i, lo, j - 1, h.a_from);
        lemma_carried(bl, ls, hs, j, h.a_to, hi);
        lemma_carried(bl, ls, hs, j - 1, h.a_from, h.a_from);
        lemma_between(bl, ls, hs, corner(bl, ls), j - 1);
        if j - 1 > 0 {
            assert(hs.take(j - 1).last() == hs[j - 2]);
        }
        assert(carried(hs, j - 1, h.a_from) == h.b_from);
        lemma_joined_span(ls, from, h.b_from, h.b_to);
        lemma_joined_span(ls, from, h.b_to, carried(hs, j, hi));
        let front = part.drop_last();
        assert(side_head(bl, ls, part, lo) == side(bl, ls, front, lo, h.a_from) + joined(ls.subrange(h.b_from, h.b_to)));
    }
}

/// What a region took in: it lies between places, each line is changed, what follows lies behind.
#[verifier::rlimit(60)]
proof fn lemma_region_covered(ho: Seq<HunkView>, ht: Seq<HunkView>, lo: int, r: Region, i: int, j: int)
    requires
        0 <= i <= r.o <= ho.len(),
        0 <= j <= r.t <= ht.len(),
        lo <= r.hi,
        forall|k: int| 0 <= k < ho.len() ==> (#[trigger] ho[k]).a_from <= ho[k].a_to,
        forall|k: int| 0 <= k < ht.len() ==> (#[trigger] ht[k]).a_from <= ht[k].a_to,
        forall|x: int| lo <= x < r.hi ==> #[trigger] changed_line(ho, i, r.o, x) || changed_line(ht, j, r.t, x),
        forall|k: int| i <= k < r.o ==> (#[trigger] ho[k]).a_to <= r.hi && (ho[k].a_from < r.hi || lo == r.hi),
        forall|k: int| j <= k < r.t ==> (#[trigger] ht[k]).a_to <= r.hi && (ht[k].a_from < r.hi || lo == r.hi),
    ensures
        ({
            let q = absorbed(ho, ht, lo, r);
            &&& r.o <= q.o <= ho.len()
            &&& r.t <= q.t <= ht.len()
            &&& r.hi <= q.hi
            &&& forall|x: int| lo <= x < q.hi ==> #[trigger] changed_line(ho, i, q.o, x) || changed_line(ht, j, q.t, x)
            &&& forall|k: int| i <= k < q.o ==> (#[trigger] ho[k]).a_to <= q.hi && (ho[k].a_from < q.hi || lo == q.hi)
            &&& forall|k: int| j <= k < q.t ==> (#[trigger] ht[k]).a_to <= q.hi && (ht[k].a_from < q.hi || lo == q.hi)
            &&& q.o < ho.len() ==> !touches(ho[q.o], lo, q.hi)
            &&& q.t < ht.len() ==> !touches(ht[q.t], lo, q.hi)
        }),
    decreases ho.len() + ht.len() - r.o - r.t,
{
    if r.o < ho.len() && touches(ho[r.o], lo, r.hi) {
        let h = ho[r.o];
        let n = Region { hi: later(r.hi, h.a_to), o: r.o + 1, t: r.t };
        assert forall|x: int| lo <= x < n.hi implies #[trigger] changed_line(ho, i, n.o, x) || changed_line(ht, j, n.t, x) by {
            if x < r.hi {
                assert(changed_line(ho, i, r.o, x) || changed_line(ht, j, r.t, x));
                if changed_line(ho, i, r.o, x) {
                    let k = choose|k: int| i <= k < r.o && (#[trigger] ho[k]).a_from <= x < ho[k].a_to;
                    assert(ho[k].a_from <= x < ho[k].a_to);
                }
            } else {
                assert(ho[r.o].a_from <= x < ho[r.o].a_to);
            }
        }
        lemma_region_covered(ho, ht, lo, n, i, j);
    } else if r.t < ht.len() && touches(ht[r.t], lo, r.hi) {
        let h = ht[r.t];
        let n = Region { hi: later(r.hi, h.a_to), o: r.o, t: r.t + 1 };
        assert forall|x: int| lo <= x < n.hi implies #[trigger] changed_line(ho, i, n.o, x) || changed_line(ht, j, n.t, x) by {
            if x < r.hi {
                assert(changed_line(ho, i, r.o, x) || changed_line(ht, j, r.t, x));
                if changed_line(ht, j, r.t, x) {
                    let k = choose|k: int| j <= k < r.t && (#[trigger] ht[k]).a_from <= x < ht[k].a_to;
                    assert(ht[k].a_from <= x < ht[k].a_to);
                }
            } else {
                assert(ht[r.t].a_from <= x < ht[r.t].a_to);
            }
        }
        lemma_region_covered(ho, ht, lo, n, i, j);
    }
}

/// What a region that both sides changed is, and what becomes of it.
#[verifier::rlimit(60)]
proof fn lemma_region(base: Seq<u8>, ours: Seq<u8>, theirs: Seq<u8>, p: Place)
    requires
        is_place(base, ours, theirs, p),
        ({
            let s = sides_of(base, ours, theirs);
            &&& p.i < s.ho.len()
            &&& p.j < s.ht.len()
            &&& !s.ours_first(p.i, p.j)
            &&& !s.theirs_first(p.i, p.j)
        }),
    ensures
        ({
            let s = sides_of(base, ours, theirs);
            let r = s.region(p.i, p.j);
            let lo = Place { b: s.region_from(p.i, p.j), i: p.i, j: p.j };
            let hi = Place { b: r.hi, i: r.o, j: r.t };
            let b = base_text(base, lo, hi);
            let o = our_text(base, ours, lo, hi);
            let t = their_text(base, theirs, lo, hi);
            &&& p.b <= lo.b
            &&& both_changed(base, ours, theirs, lo, hi)
            &&& forall|i: int, j: int|
                p.i <= i < s.ho.len() && p.j <= j < s.ht.len() && #[trigger] meets(s.ho[i], s.ht[j]) ==> (i < r.o <==> j < r.t)
            &&& s.region_text(p.i, p.j) matches Some(text) ==> stands(b, o, t, text)
            &&& s.region_text(p.i, p.j) is None ==> o != t && o != b && t != b
        }),
{
    let s = sides_of(base, ours, theirs);
    let (i, j) = (p.i, p.j);
    lemma_text_hunks(base, ours);
    lemma_text_hunks(base, theirs);
    lemma_turns_fit(s.bl, s.ol, s.ho, corner(s.bl, s.ol));
    lemma_turns_fit(s.bl, s.tl, s.ht, corner(s.bl, s.tl));
    let lo = s.region_from(i, j);
    let start = Region { hi: later(s.ho[i].a_to, s.ht[j].a_to), o: i + 1, t: j + 1 };
    assert forall|x: int| lo <= x < start.hi implies #[trigger] changed_line(s.ho, i, start.o, x) || changed_line(
        s.ht,
        j,
        start.t,
        x,
    ) by {
        if s.ho[i].a_from <= x < s.ho[i].a_to {
            assert(changed_line(s.ho, i, start.o, x));
        } else {
            assert(s.ht[j].a_from <= x < s.ht[j].a_to);
        }
    }
    lemma_region_covered(s.ho, s.ht, lo, start, i, j);
    let r = s.region(i, j);
    let a = Place { b: lo, i, j };
    let z = Place { b: r.hi, i: r.o, j: r.t };
    assert(s.ho[r.o - 1].a_to <= r.hi);
    assert(s.ht[r.t - 1].a_to <= r.hi);
    assert(r.hi <= s.bl.len()) by {
        lemma_ends_inside(s.ho, s.ht, lo, start, s.bl.len() as int);
    }
    lemma_side_text(s.bl, s.ol, s.ho, i, lo, r.o, r.hi);
    lemma_side_text(s.bl, s.tl, s.ht, j, lo, r.t, r.hi);
    assert(both_changed(base, ours, theirs, a, z));
    assert forall|x: int, y: int|
        i <= x < s.ho.len() && j <= y < s.ht.len() && #[trigger] meets(s.ho[x], s.ht[y]) implies (x < r.o <==> y < r.t) by {
        if x < r.o && y >= r.t {
            assert(r.hi <= s.ht[r.t].a_from);
            if y > r.t {
                assert(s.ht[r.t].a_to < s.ht[y].a_from);
            }
            assert(s.ho[x].a_to <= r.hi);
        }
        if x >= r.o && y < r.t {
            assert(r.hi <= s.ho[r.o].a_from);
            if x > r.o {
                assert(s.ho[r.o].a_to < s.ho[x].a_from);
            }
            assert(s.ht[y].a_to <= r.hi);
        }
    }
}

/// A region does not grow past the end of the base.
proof fn lemma_ends_inside(ho: Seq<HunkView>, ht: Seq<HunkView>, lo: int, r: Region, n: int)
    requires
        0 <= r.o <= ho.len(),
        0 <= r.t <= ht.len(),
        r.hi <= n,
        forall|k: int| 0 <= k < ho.len() ==> (#[trigger] ho[k]).a_to <= n,
        forall|k: int| 0 <= k < ht.len() ==> (#[trigger] ht[k]).a_to <= n,
    ensures
        absorbed(ho, ht, lo, r).hi <= n,
    decreases ho.len() + ht.len() - r.o - r.t,
{
    if r.o < ho.len() && touches(ho[r.o], lo, r.hi) {
        lemma_ends_inside(ho, ht, lo, Region { hi: later(r.hi, ho[r.o].a_to), o: r.o + 1, t: r.t }, n);
    } else if r.t < ht.len() && touches(ht[r.t], lo, r.hi) {
        lemma_ends_inside(ho, ht, lo, Region { hi: later(r.hi, ht[r.t].a_to), o: r.o, t: r.t + 1 }, n);
    }
}

/// One more piece before the others.
#[verifier::rlimit(60)]
proof fn lemma_piece_before(
    base: Seq<u8>,
    ours: Seq<u8>,
    theirs: Seq<u8>,
    p: Place,
    text: Seq<u8>,
    places: Seq<Place>,
    texts: Seq<Seq<u8>>,
)
    requires
        pieced(base, ours, theirs, places, texts),
        meeting_together(base, ours, theirs, places),
        is_place(base, ours, theirs, p),
        merges_to(base, ours, theirs, p, places[0], text),
        forall|i: int, j: int|
            p.i <= i < text_hunks(base, ours).len() && p.j <= j < text_hunks(base, theirs).len() && #[trigger] meets(
                text_hunks(base, ours)[i],
                text_hunks(base, theirs)[j],
            ) ==> (i < places[0].i <==> j < places[0].j),
    ensures
        pieced(base, ours, theirs, seq![p] + places, seq![text] + texts),
        meeting_together(base, ours, theirs, seq![p] + places),
        joined(seq![text] + texts) == text + joined(texts),
        (seq![p] + places).last() == places.last(),
{
    let ps = seq![p] + places;
    let ts = seq![text] + texts;
    assert forall|k: int| 0 <= k < ps.len() implies is_place(base, ours, theirs, #[trigger] ps[k]) by {
        if k > 0 {
            assert(ps[k] == places[k - 1]);
        }
    }
    assert forall|k: int| #![trigger ts[k]] 0 <= k < ts.len() implies merges_to(
        base,
        ours,
        theirs,
        ps[k],
        ps[k + 1],
        ts[k],
    ) by {
        assert(ps[k + 1] == places[k]);
        if k > 0 {
            assert(ts[k] == texts[k - 1]);
            assert(ps[k] == places[k - 1]);
        }
    }
    let ho = text_hunks(base, ours);
    let ht = text_hunks(base, theirs);
    assert forall|i: int, j: int|
        ps[0].i <= i < ho.len() && ps[0].j <= j < ht.len() && #[trigger] meets(ho[i], ht[j]) implies together(ps, i, j) by {
        if i < places[0].i {
            let z = 0int;
            assert(ps[z].i <= i < ps[z + 1].i && ps[z].j <= j < ps[z + 1].j);
        } else {
            assert(together(places, i, j));
            let k = choose|k: int|
                0 <= k < places.len() - 1 && (#[trigger] places[k]).i <= i < places[k + 1].i && places[k].j <= j < places[k
                    + 1].j;
            assert(ps[k + 1].i <= i < ps[k + 1 + 1].i && ps[k + 1].j <= j < ps[k + 1 + 1].j);
        }
    }
    assert(ts.skip(1) =~= texts);
}

/// Unchanged lines and a piece, before the others.
#[verifier::rlimit(60)]
proof fn lemma_step(
    base: Seq<u8>,
    ours: Seq<u8>,
    theirs: Seq<u8>,
    p: Place,
    a: Place,
    text: Seq<u8>,
    places: Seq<Place>,
    texts: Seq<Seq<u8>>,
) -> (r: (Seq<Place>, Seq<Seq<u8>>))
    requires
        pieced(base, ours, theirs, places, texts),
        meeting_together(base, ours, theirs, places),
        is_place(base, ours, theirs, p),
        is_place(base, ours, theirs, a),
        p.b <= a.b,
        p.i == a.i,
        p.j == a.j,
        merges_to(base, ours, theirs, a, places[0], text),
        forall|i: int, j: int|
            a.i <= i < text_hunks(base, ours).len() && a.j <= j < text_hunks(base, theirs).len() && #[trigger] meets(
                text_hunks(base, ours)[i],
                text_hunks(base, theirs)[j],
            ) ==> (i < places[0].i <==> j < places[0].j),
    ensures
        pieced(base, ours, theirs, r.0, r.1),
        meeting_together(base, ours, theirs, r.0),
        r.0[0] == p,
        r.0.last() == places.last(),
        joined(r.1) == joined(lines_of(base).subrange(p.b, a.b)) + text + joined(texts),
{
    let s = sides_of(base, ours, theirs);
    lemma_text_hunks(base, ours);
    lemma_text_hunks(base, theirs);
    lemma_piece_before(base, ours, theirs, a, text, places, texts);
    let ps = seq![a] + places;
    let ts = seq![text] + texts;
    assert(ps[0] == a);
    let quiet = joined(s.bl.subrange(p.b, a.b));
    lemma_carried(s.bl, s.ol, s.ho, p.i, p.b, a.b);
    lemma_carried(s.bl, s.tl, s.ht, p.j, p.b, a.b);
    lemma_piece_before(base, ours, theirs, p, quiet, ps, ts);
    assert(quiet + text + joined(texts) =~= quiet + (text + joined(texts)));
    (seq![p] + ps, seq![quiet] + ts)
}

/// A clean merge, from a place on, in pieces.
#[verifier::rlimit(60)]
proof fn lemma_pieced(base: Seq<u8>, ours: Seq<u8>, theirs: Seq<u8>, p: Place) -> (r: (Seq<Place>, Seq<Seq<u8>>))
    requires
        is_place(base, ours, theirs, p),
        sides_of(base, ours, theirs).merge_from(p.i, p.j, p.b) is Some,
    ensures
        pieced(base, ours, theirs, r.0, r.1),
        meeting_together(base, ours, theirs, r.0),
        r.0[0] == p,
        r.0.last() == end_place(base, ours, theirs),
        Some(joined(r.1)) == sides_of(base, ours, theirs).merge_from(p.i, p.j, p.b),
    decreases text_hunks(base, ours).len() - p.i + text_hunks(base, theirs).len() - p.j,
{
    let s = sides_of(base, ours, theirs);
    let (i, j) = (p.i, p.j);
    lemma_text_hunks(base, ours);
    lemma_text_hunks(base, theirs);
    lemma_turns_fit(s.bl, s.ol, s.ho, corner(s.bl, s.ol));
    lemma_turns_fit(s.bl, s.tl, s.ht, corner(s.bl, s.tl));
    let m = s.merge_from(i, j, p.b);
    if i >= s.ho.len() && j >= s.ht.len() {
        let e = end_place(base, ours, theirs);
        let text = joined(s.bl.skip(p.b));
        assert(s.bl.skip(p.b) =~= s.bl.subrange(p.b, e.b));
        lemma_carried(s.bl, s.ol, s.ho, i, p.b, e.b);
        lemma_carried(s.bl, s.tl, s.ht, j, p.b, e.b);
        let places = seq![p, e];
        let texts = seq![text];
        assert(forall|k: int| 0 <= k < places.len() ==> is_place(base, ours, theirs, #[trigger] places[k]));
        assert(texts.skip(1) =~= Seq::empty());
        reveal_with_fuel(joined, 2);
        assert(joined(texts) =~= text);
        (places, texts)
    } else if s.ours_first(i, j) {
        let h = s.ho[i];
        let a = Place { b: h.a_from, i, j };
        let z = Place { b: h.a_to, i: i + 1, j };
        if i + 1 < s.ho.len() {
            assert(s.ho[i].a_to < s.ho[i + 1].a_from);
        }
        let (ps, ts) = lemma_pieced(base, ours, theirs, z);
        let text = joined(s.ol.subrange(h.b_from, h.b_to));
        lemma_one_hunk(s.bl, s.ol, s.ho, i);
        lemma_carried(s.bl, s.tl, s.ht, j, h.a_from, h.a_to);
        assert forall|x: int, y: int|
            i <= x < s.ho.len() && j <= y < s.ht.len() && #[trigger] meets(s.ho[x], s.ht[y]) implies (x < z.i <==> y < z.j) by {
            if y > j {
                assert(s.ht[j].a_to < s.ht[y].a_from);
            }
        }
        lemma_step(base, ours, theirs, p, a, text, ps, ts)
    } else if s.theirs_first(i, j) {
        let h = s.ht[j];
        let a = Place { b: h.a_from, i, j };
        let z = Place { b: h.a_to, i, j: j + 1 };
        if j + 1 < s.ht.len() {
            assert(s.ht[j].a_to < s.ht[j + 1].a_from);
        }
        let (ps, ts) = lemma_pieced(base, ours, theirs, z);
        let text = joined(s.tl.subrange(h.b_from, h.b_to));
        lemma_one_hunk(s.bl, s.tl, s.ht, j);
        lemma_carried(s.bl, s.ol, s.ho, i, h.a_from, h.a_to);
        assert forall|x: int, y: int|
            i <= x < s.ho.len() && j <= y < s.ht.len() && #[trigger] meets(s.ho[x], s.ht[y]) implies (x < z.i <==> y < z.j) by {
            if x > i {
                assert(s.ho[i].a_to < s.ho[x].a_from);
            }
        }
        lemma_step(base, ours, theirs, p, a, text, ps, ts)
    } else {
        lemma_region(base, ours, theirs, p);
        let r = s.region(i, j);
        let lo = s.region_from(i, j);
        let a = Place { b: lo, i, j };
        let z = Place { b: r.hi, i: r.o, j: r.t };
        let (ps, ts) = lemma_pieced(base, ours, theirs, z);
        let text = s.region_text(i, j)->0;
        lemma_step(base, ours, theirs, p, a, text, ps, ts)
    }
}

/// Where a hunk stands on its side.
proof fn lemma_one_hunk(bl: Seq<Seq<u8>>, ls: Seq<Seq<u8>>, hs: Seq<HunkView>, k: int)
    requires
        turns(bl, ls, hs, corner(bl, ls)),
        0 <= k < hs.len(),
    ensures
        carried(hs, k, hs[k].a_from) == hs[k].b_from,
        carried(hs, k + 1, hs[k].a_to) == hs[k].b_to,
{
    lemma_between(bl, ls, hs, corner(bl, ls), k);
    if k > 0 {
        assert(hs.take(k).last() == hs[k - 1]);
    }
}

/// A clean merge falls into pieces at places that no change crosses. In each piece the sides have
/// the same text, or one has the base's text and the other's is taken; changes of the two sides
/// that begin at the same line or share a line are in one piece, and a piece with changes of both
/// sides holds no line that neither changed.
pub proof fn law_clean_merge(base: Seq<u8>, ours: Seq<u8>, theirs: Seq<u8>)
    requires
        merged(base, ours, theirs) is Some,
    ensures
        exists|places: Seq<Place>, texts: Seq<Seq<u8>>|
            {
                &&& #[trigger] pieced(base, ours, theirs, places, texts)
                &&& places[0] == (Place { b: 0, i: 0, j: 0 })
                &&& places.last() == (Place {
                    b: lines_of(base).len() as int,
                    i: text_hunks(base, ours).len() as int,
                    j: text_hunks(base, theirs).len() as int,
                })
                &&& meeting_together(base, ours, theirs, places)
                &&& merged(base, ours, theirs) == Some(joined(texts))
            },
{
    let s = sides_of(base, ours, theirs);
    lemma_text_hunks(base, ours);
    lemma_text_hunks(base, theirs);
    lemma_turns_fit(s.bl, s.ol, s.ho, corner(s.bl, s.ol));
    lemma_turns_fit(s.bl, s.tl, s.ht, corner(s.bl, s.tl));
    let r = lemma_pieced(base, ours, theirs, Place { b: 0, i: 0, j: 0 });
    assert(pieced(base, ours, theirs, r.0, r.1));
}

/// Where a merge from a place on is refused, both sides changed the same lines differently.
#[verifier::rlimit(60)]
proof fn lemma_refused(base: Seq<u8>, ours: Seq<u8>, theirs: Seq<u8>, p: Place) -> (r: (Place, Place))
    requires
        is_place(base, ours, theirs, p),
        sides_of(base, ours, theirs).merge_from(p.i, p.j, p.b) is None,
    ensures
        both_changed(base, ours, theirs, r.0, r.1),
        our_text(base, ours, r.0, r.1) != their_text(base, theirs, r.0, r.1),
        our_text(base, ours, r.0, r.1) != base_text(base, r.0, r.1),
        their_text(base, theirs, r.0, r.1) != base_text(base, r.0, r.1),
    decreases text_hunks(base, ours).len() - p.i + text_hunks(base, theirs).len() - p.j,
{
    let s = sides_of(base, ours, theirs);
    let (i, j) = (p.i, p.j);
    lemma_text_hunks(base, ours);
    lemma_text_hunks(base, theirs);
    lemma_turns_fit(s.bl, s.ol, s.ho, corner(s.bl, s.ol));
    lemma_turns_fit(s.bl, s.tl, s.ht, corner(s.bl, s.tl));
    if s.ours_first(i, j) {
        if i + 1 < s.ho.len() {
            assert(s.ho[i].a_to < s.ho[i + 1].a_from);
        }
        lemma_refused(base, ours, theirs, Place { b: s.ho[i].a_to, i: i + 1, j })
    } else if s.theirs_first(i, j) {
        if j + 1 < s.ht.len() {
            assert(s.ht[j].a_to < s.ht[j + 1].a_from);
        }
        lemma_refused(base, ours, theirs, Place { b: s.ht[j].a_to, i, j: j + 1 })
    } else {
        lemma_region(base, ours, theirs, p);
        let r = s.region(i, j);
        let lo = Place { b: s.region_from(i, j), i, j };
        let hi = Place { b: r.hi, i: r.o, j: r.t };
        if s.region_text(i, j) is None {
            (lo, hi)
        } else {
            lemma_refused(base, ours, theirs, hi)
        }
    }
}

/// A merge is refused only over lines that both sides changed, each of them from the base and the
/// two not alike.
pub proof fn law_refused_merge(base: Seq<u8>, ours: Seq<u8>, theirs: Seq<u8>)
    requires
        merged(base, ours, theirs) is None,
    ensures
        exists|p: Place, q: Place|
            {
                &&& #[trigger] both_changed(base, ours, theirs, p, q)
                &&& our_text(base, ours, p, q) != their_text(base, theirs, p, q)
                &&& our_text(base, ours, p, q) != base_text(base, p, q)
                &&& their_text(base, theirs, p, q) != base_text(base, p, q)
            },
{
    let s = sides_of(base, ours, theirs);
    lemma_text_hunks(base, ours);
    lemma_text_hunks(base, theirs);
    lemma_turns_fit(s.bl, s.ol, s.ho, corner(s.bl, s.ol));
    lemma_turns_fit(s.bl, s.tl, s.ht, corner(s.bl, s.tl));
    let (p, q) = lemma_refused(base, ours, theirs, Place { b: 0, i: 0, j: 0 });
    assert(both_changed(base, ours, theirs, p, q));
}

/// Changes of which none begins where one of the other side begins, and that share no line with
/// one, are merged.
pub proof fn law_changes_apart_merge(base: Seq<u8>, ours: Seq<u8>, theirs: Seq<u8>)
    requires
        forall|i: int, j: int|
            0 <= i < text_hunks(base, ours).len() && 0 <= j < text_hunks(base, theirs).len() ==> !#[trigger] meets(
                text_hunks(base, ours)[i],
                text_hunks(base, theirs)[j],
            ),
    ensures
        merged(base, ours, theirs) is Some,
{
    if merged(base, ours, theirs) is None {
        law_refused_merge(base, ours, theirs);
        let (p, q) = choose|p: Place, q: Place|
            {
                &&& #[trigger] both_changed(base, ours, theirs, p, q)
                &&& our_text(base, ours, p, q) != their_text(base, theirs, p, q)
                &&& our_text(base, ours, p, q) != base_text(base, p, q)
                &&& their_text(base, theirs, p, q) != base_text(base, p, q)
            };
        assert(meets(text_hunks(base, ours)[p.i], text_hunks(base, theirs)[p.j]));
    }
}

/// All hunks end where the side ends.
proof fn lemma_end_carried(base: Seq<u8>, side: Seq<u8>)
    ensures
        carried(text_hunks(base, side), text_hunks(base, side).len() as int, lines_of(base).len() as int) == lines_of(
            side,
        ).len(),
        uncrossed(text_hunks(base, side), text_hunks(base, side).len() as int, lines_of(base).len() as int),
        uncrossed(text_hunks(base, side), 0, 0),
{
    let hs = text_hunks(base, side);
    let bl = lines_of(base);
    let ls = lines_of(side);
    lemma_text_hunks(base, side);
    lemma_turns_fit(bl, ls, hs, corner(bl, ls));
    lemma_between(bl, ls, hs, corner(bl, ls), hs.len() as int);
    assert(hs.take(hs.len() as int) =~= hs);
}

/// A text with one change is the base with other lines in one place.
#[verifier::rlimit(60)]
proof fn lemma_one_change(base: Seq<u8>, side: Seq<u8>, x: int, y: int)
    requires
        text_hunks(base, side).len() == 1,
        uncrossed(text_hunks(base, side), 0, x),
        uncrossed(text_hunks(base, side), 1, y),
        0 <= x <= y <= lines_of(base).len(),
    ensures
        ({
            let hs = text_hunks(base, side);
            let bl = lines_of(base);
            side == joined(bl.take(x)) + joined(lines_of(side).subrange(carried(hs, 0, x), carried(hs, 1, y))) + joined(
                bl.skip(y),
            )
        }),
{
    let hs = text_hunks(base, side);
    let bl = lines_of(base);
    let ls = lines_of(side);
    let n = bl.len() as int;
    lemma_text_hunks(base, side);
    lemma_end_carried(base, side);
    lemma_carried(bl, ls, hs, 0, 0, x);
    lemma_carried(bl, ls, hs, 1, y, n);
    lemma_lines(side);
    let (c, d) = (carried(hs, 0, x), carried(hs, 1, y));
    lemma_side_text(bl, ls, hs, 0, x, 1, y);
    assert(bl.take(x) =~= bl.subrange(0, x));
    assert(bl.skip(y) =~= bl.subrange(y, n));
    lemma_joined_span(ls, 0, c, d);
    lemma_joined_span(ls, 0, d, ls.len() as int);
    assert(ls.subrange(0, ls.len() as int) =~= ls);
}

/// Where each side made one change and the two meet, a merge is refused unless both made the same:
/// one side's change is never dropped for the other's.
#[verifier::rlimit(60)]
pub proof fn law_one_place_conflict(base: Seq<u8>, ours: Seq<u8>, theirs: Seq<u8>)
    requires
        text_hunks(base, ours).len() == 1,
        text_hunks(base, theirs).len() == 1,
        meets(text_hunks(base, ours)[0], text_hunks(base, theirs)[0]),
    ensures
        merged(base, ours, theirs) == if ours == theirs {
            Some(ours)
        } else {
            None::<Seq<u8>>
        },
{
    if ours == theirs {
        crate::merge::law_merge_of_equals(base, ours);
    } else if merged(base, ours, theirs) is Some {
        law_clean_merge(base, ours, theirs);
        let (places, texts) = choose|places: Seq<Place>, texts: Seq<Seq<u8>>|
            {
                &&& #[trigger] pieced(base, ours, theirs, places, texts)
                &&& places[0] == (Place { b: 0, i: 0, j: 0 })
                &&& places.last() == (Place {
                    b: lines_of(base).len() as int,
                    i: text_hunks(base, ours).len() as int,
                    j: text_hunks(base, theirs).len() as int,
                })
                &&& meeting_together(base, ours, theirs, places)
                &&& merged(base, ours, theirs) == Some(joined(texts))
            };
        assert(together(places, 0, 0));
        let k = choose|k: int|
            0 <= k < places.len() - 1 && (#[trigger] places[k]).i <= 0 < places[k + 1].i && places[k].j <= 0 < places[k
                + 1].j;
        let p = places[k];
        let q = places[k + 1];
        assert(is_place(base, ours, theirs, p) && is_place(base, ours, theirs, q));
        assert(merges_to(base, ours, theirs, p, q, texts[k]));
        lemma_one_change(base, ours, p.b, q.b);
        lemma_one_change(base, theirs, p.b, q.b);
        let bl = lines_of(base);
        lemma_lines(base);
        lemma_joined_span(bl, 0, p.b, q.b);
        lemma_joined_span(bl, 0, q.b, bl.len() as int);
        assert(bl.take(p.b) =~= bl.subrange(0, p.b));
        assert(bl.skip(q.b) =~= bl.subrange(q.b, bl.len() as int));
        assert(bl.subrange(0, bl.len() as int) =~= bl);
        crate::merge::law_no_text_diff(base);
        assert(ours != base && theirs != base);
    }
}

/// Some of the lines of a text are the lines of what they make.
proof fn lemma_lines_part(s: Seq<u8>, i: int, j: int)
    requires
        0 <= i <= j <= lines_of(s).len(),
    ensures
        lines_of(joined(lines_of(s).subrange(i, j))) == lines_of(s).subrange(i, j),
        i < j ==> joined(lines_of(s).subrange(i, j)).len() > 0 && joined(lines_of(s).subrange(i, j)).last() == lines_of(
            s,
        )[j - 1].last(),
    decreases j - i,
{
    let ls = lines_of(s);
    let part = ls.subrange(i, j);
    lemma_lines(s);
    if i < j {
        let front = ls.subrange(i, j - 1);
        let l = ls[j - 1];
        assert(part =~= front.push(l));
        lemma_joined_push(front, l);
        lemma_lines_part(s, i, j - 1);
        assert(is_line(l));
        lemma_first_line(l);
        let n = crate::lines::line_len(l);
        assert(lines_of(l) =~= seq![l]);
        if i < j - 1 {
            assert(ls[j - 2].last() == 10);
        } else {
            assert(joined(front).len() == 0);
        }
        lemma_lines_concat(joined(front), l);
        assert(part =~= front + seq![l]);
        assert(joined(part).last() == l.last());
    } else {
        assert(part =~= Seq::empty());
    }
}

/// Lines of a side that the base has, or that are among some lines.
spec fn kept_to(side: Seq<Seq<u8>>, n: int, base: Seq<Seq<u8>>, ml: Seq<Seq<u8>>) -> bool {
    forall|x: int| 0 <= x < n ==> base.contains(#[trigger] side[x]) || ml.contains(side[x])
}

/// Lines that are among those of some others.
spec fn drawn_from(ml: Seq<Seq<u8>>, a: Seq<Seq<u8>>, b: Seq<Seq<u8>>) -> bool {
    forall|x: int| 0 <= x < ml.len() ==> a.contains(#[trigger] ml[x]) || b.contains(ml[x])
}

/// One more piece keeps its lines.
proof fn lemma_kept_more(
    side: Seq<Seq<u8>>,
    n: int,
    m: int,
    base: Seq<Seq<u8>>,
    ml: Seq<Seq<u8>>,
    more: Seq<Seq<u8>>,
)
    requires
        0 <= n <= m <= side.len(),
        kept_to(side, n, base, ml),
        forall|x: int| n <= x < m ==> base.contains(#[trigger] side[x]) || more.contains(side[x]),
    ensures
        kept_to(side, m, base, ml + more),
{
    let all = ml + more;
    assert forall|x: int| 0 <= x < m implies base.contains(#[trigger] side[x]) || all.contains(side[x]) by {
        if !base.contains(side[x]) {
            if x < n {
                let y = choose|y: int| 0 <= y < ml.len() && ml[y] == side[x];
                assert(all[y] == side[x]);
            } else {
                let y = choose|y: int| 0 <= y < more.len() && more[y] == side[x];
                assert(all[ml.len() + y] == side[x]);
            }
        }
    }
}

/// The lines of a clean merge, as far as its first `n` pieces go.
#[verifier::rlimit(60)]
proof fn lemma_kept(
    base: Seq<u8>,
    ours: Seq<u8>,
    theirs: Seq<u8>,
    places: Seq<Place>,
    texts: Seq<Seq<u8>>,
    n: int,
) -> (ml: Seq<Seq<u8>>)
    requires
        pieced(base, ours, theirs, places, texts),
        places[0] == (Place { b: 0, i: 0, j: 0 }),
        0 <= n <= texts.len(),
    ensures
        joined(ml) == joined(texts.take(n)),
        0 <= carried(text_hunks(base, ours), places[n].i, places[n].b) <= lines_of(ours).len(),
        0 <= carried(text_hunks(base, theirs), places[n].j, places[n].b) <= lines_of(theirs).len(),
        kept_to(lines_of(ours), carried(text_hunks(base, ours), places[n].i, places[n].b), lines_of(base), ml),
        kept_to(lines_of(theirs), carried(text_hunks(base, theirs), places[n].j, places[n].b), lines_of(base), ml),
        drawn_from(ml, lines_of(ours), lines_of(theirs)),
    decreases n,
{
    let bl = lines_of(base);
    let ol = lines_of(ours);
    let tl = lines_of(theirs);
    let ho = text_hunks(base, ours);
    let ht = text_hunks(base, theirs);
    if n == 0 {
        assert(texts.take(0) =~= Seq::empty());
        assert(is_place(base, ours, theirs, places[0]));
        Seq::empty()
    } else {
        let ml0 = lemma_kept(base, ours, theirs, places, texts, n - 1);
        let p = places[n - 1];
        let q = places[n];
        let text = texts[n - 1];
        assert(texts.take(n) =~= texts.take(n - 1).push(text));
        lemma_joined_push(texts.take(n - 1), text);
        assert(is_place(base, ours, theirs, p) && is_place(base, ours, theirs, q));
        assert(merges_to(base, ours, theirs, p, q, text));
        lemma_text_hunks(base, ours);
        lemma_text_hunks(base, theirs);
        lemma_side_text(bl, ol, ho, p.i, p.b, q.i, q.b);
        lemma_side_text(bl, tl, ht, p.j, p.b, q.j, q.b);
        let (oc, od) = (carried(ho, p.i, p.b), carried(ho, q.i, q.b));
        let (tc, td) = (carried(ht, p.j, p.b), carried(ht, q.j, q.b));
        lemma_lines_part(base, p.b, q.b);
        lemma_lines_part(ours, oc, od);
        lemma_lines_part(theirs, tc, td);
        let bs = bl.subrange(p.b, q.b);
        let os = ol.subrange(oc, od);
        let ts = tl.subrange(tc, td);
        let more = if joined(os) == text { os } else { ts };
        lemma_joined_concat(ml0, more);
        assert(os == ts || os == bs || ts == bs);
        assert forall|x: int| oc <= x < od implies bl.contains(#[trigger] ol[x]) || more.contains(ol[x]) by {
            assert(os[x - oc] == ol[x]);
            if more != os {
                assert(bs[x - oc] == bl[p.b + x - oc]);
            }
        }
        assert forall|x: int| tc <= x < td implies bl.contains(#[trigger] tl[x]) || more.contains(tl[x]) by {
            assert(ts[x - tc] == tl[x]);
            if more != ts {
                assert(bs[x - tc] == bl[p.b + x - tc]);
            }
        }
        lemma_kept_more(ol, oc, od, bl, ml0, more);
        lemma_kept_more(tl, tc, td, bl, ml0, more);
        let ml = ml0 + more;
        assert forall|x: int| 0 <= x < ml.len() implies ol.contains(#[trigger] ml[x]) || tl.contains(ml[x]) by {
            if x < ml0.len() {
                assert(ml[x] == ml0[x]);
            } else if more == os {
                assert(ml[x] == ol[oc + x - ml0.len()]);
            } else {
                assert(ml[x] == tl[tc + x - ml0.len()]);
            }
        }
        ml
    }
}

/// A clean merge is made of lines of the two sides, and holds every line that a side has and the
/// base does not: nobody's insertion is lost, and nothing is invented.
pub proof fn law_merge_keeps_insertions(base: Seq<u8>, ours: Seq<u8>, theirs: Seq<u8>)
    requires
        merged(base, ours, theirs) is Some,
    ensures
        exists|ml: Seq<Seq<u8>>|
            {
                &&& merged(base, ours, theirs) == Some(#[trigger] joined(ml))
                &&& forall|l: Seq<u8>| #[trigger] lines_of(ours).contains(l) && !lines_of(base).contains(l) ==> ml.contains(l)
                &&& forall|l: Seq<u8>|
                    #[trigger] lines_of(theirs).contains(l) && !lines_of(base).contains(l) ==> ml.contains(l)
                &&& forall|l: Seq<u8>| #[trigger] ml.contains(l) ==> lines_of(ours).contains(l) || lines_of(theirs).contains(l)
            },
{
    law_clean_merge(base, ours, theirs);
    let (places, texts) = choose|places: Seq<Place>, texts: Seq<Seq<u8>>|
        {
            &&& #[trigger] pieced(base, ours, theirs, places, texts)
            &&& places[0] == (Place { b: 0, i: 0, j: 0 })
            &&& places.last() == (Place {
                b: lines_of(base).len() as int,
                i: text_hunks(base, ours).len() as int,
                j: text_hunks(base, theirs).len() as int,
            })
            &&& meeting_together(base, ours, theirs, places)
            &&& merged(base, ours, theirs) == Some(joined(texts))
        };
    let n = texts.len() as int;
    let ml = lemma_kept(base, ours, theirs, places, texts, n);
    assert(texts.take(n) =~= texts);
    assert(places[n] == places.last());
    lemma_end_carried(base, ours);
    lemma_end_carried(base, theirs);
    let ol = lines_of(ours);
    let tl = lines_of(theirs);
    assert(kept_to(ol, ol.len() as int, lines_of(base), ml));
    assert(kept_to(tl, tl.len() as int, lines_of(base), ml));
    assert(merged(base, ours, theirs) == Some(joined(ml)));
}

} // verus!
