//! Byte edits that turn one text into another.

use vstd::prelude::*;
use crate::chunker::{chunk_start, joined, lemma_joined_concat, lemma_joined_push};
use crate::edit::{edited, edits_valid, Edit};
use crate::lines::{lemma_lines, lines_of, slice_views, split_lines};
use crate::myers::{
    corner, hunk_views, lemma_text_hunks, lemma_trimmed, lemma_turns_fit, line_diff, text_hunks, trim, trimmed, turns, Hunk,
    HunkView, Point,
};

verus! {

/// An edit as a mathematical value.
#[verifier::ext_equal]
pub struct EditView {
    pub from: int,
    pub to: int,
    pub text: Seq<u8>,
}

pub open spec fn edit_view(e: Edit) -> EditView {
    EditView { from: e.from as int, to: e.to as int, text: e.replacement@ }
}

pub open spec fn edit_views(es: Seq<Edit>) -> Seq<EditView> {
    Seq::new(es.len(), |i: int| edit_view(es[i]))
}

/// The bytes of a hunk, trimmed to where they differ; nothing when they do not.
pub open spec fn refined(al: Seq<Seq<u8>>, bl: Seq<Seq<u8>>, h: HunkView) -> Option<EditView> {
    let (pre, a, b) = trimmed(
        joined(al.subrange(h.a_from, h.a_to)),
        joined(bl.subrange(h.b_from, h.b_to)),
    );
    let at = chunk_start(al, h.a_from) + pre;
    if a.len() == 0 && b.len() == 0 {
        None
    } else {
        Some(EditView { from: at, to: at + a.len(), text: b })
    }
}

/// The edits of some hunks.
pub open spec fn hunk_edits(al: Seq<Seq<u8>>, bl: Seq<Seq<u8>>, hs: Seq<HunkView>) -> Seq<EditView>
    decreases hs.len(),
{
    if hs.len() == 0 {
        Seq::empty()
    } else {
        let front = hunk_edits(al, bl, hs.drop_last());
        match refined(al, bl, hs.last()) {
            Some(e) => front.push(e),
            None => front,
        }
    }
}

/// `a[..upto]` after edits that lie inside it.
pub open spec fn forward(a: Seq<u8>, es: Seq<EditView>, upto: int) -> Seq<u8>
    decreases es.len(),
{
    if es.len() == 0 {
        a.take(upto)
    } else {
        let e = es.last();
        forward(a, es.drop_last(), e.from) + e.text + a.subrange(e.to, upto)
    }
}

/// Edits in order, the last ending at or before `upto`.
pub open spec fn ascending(es: Seq<EditView>, upto: int) -> bool {
    &&& forall|i: int| 0 <= i < es.len() ==> 0 <= (#[trigger] es[i]).from <= es[i].to <= upto
    &&& forall|i: int, j: int| 0 <= i < j < es.len() ==> (#[trigger] es[i]).to <= (#[trigger] es[j]).from
}

proof fn lemma_forward_extend(a: Seq<u8>, es: Seq<EditView>, x: int, y: int)
    requires
        ascending(es, x),
        0 <= x <= y <= a.len(),
    ensures
        forward(a, es, y) == forward(a, es, x) + a.subrange(x, y),
{
    if es.len() == 0 {
        assert(a.take(y) =~= a.take(x) + a.subrange(x, y));
    } else {
        let e = es.last();
        assert(es[es.len() - 1] == e);
        assert(a.subrange(e.to, y) =~= a.subrange(e.to, x) + a.subrange(x, y));
        assert(forward(a, es, y) =~= forward(a, es, x) + a.subrange(x, y));
    }
}

pub proof fn lemma_ascending_front(es: Seq<EditView>, upto: int)
    requires
        ascending(es, upto),
        es.len() > 0,
    ensures
        ascending(es.drop_last(), es.last().from),
{
    let front = es.drop_last();
    let last = es[es.len() - 1];
    assert forall|i: int| 0 <= i < front.len() implies 0 <= (#[trigger] front[i]).from <= front[i].to <= last.from by {
        assert(front[i] == es[i]);
        assert(es[i].to <= es[es.len() - 1].from);
    }
    assert forall|i: int, j: int| 0 <= i < j < front.len() implies (#[trigger] front[i]).to <= (#[trigger] front[j]).from by {
        assert(front[i] == es[i] && front[j] == es[j]);
    }
}

proof fn lemma_forward_same(a: Seq<u8>, b: Seq<u8>, es: Seq<EditView>, x: int)
    requires
        ascending(es, x),
        0 <= x <= a.len(),
        x <= b.len(),
        a.take(x) == b.take(x),
    ensures
        forward(a, es, x) == forward(b, es, x),
    decreases es.len(),
{
    if es.len() > 0 {
        let e = es.last();
        assert(es[es.len() - 1] == e);
        lemma_ascending_front(es, x);
        assert(a.take(e.from) =~= a.take(x).take(e.from));
        assert(b.take(e.from) =~= b.take(x).take(e.from));
        lemma_forward_same(a, b, es.drop_last(), e.from);
        assert(a.subrange(e.to, x) =~= a.take(x).subrange(e.to, x));
        assert(b.subrange(e.to, x) =~= b.take(x).subrange(e.to, x));
    }
}

/// Applying edits from the last to the first, or reading them forward, is the same.
pub proof fn lemma_edited_forward(a: Seq<u8>, es: Seq<Edit>)
    requires
        edits_valid(es, a.len() as int),
    ensures
        edited(a, es) == forward(a, edit_views(es), a.len() as int),
        ascending(edit_views(es), a.len() as int),
    decreases es.len(),
{
    let vs = edit_views(es);
    assert forall|i: int| 0 <= i < vs.len() implies 0 <= (#[trigger] vs[i]).from <= vs[i].to <= a.len() by {
        assert(vs[i] == edit_view(es[i]));
    }
    assert forall|i: int, j: int| 0 <= i < j < vs.len() implies (#[trigger] vs[i]).to <= (#[trigger] vs[j]).from by {
        assert(es[i].to <= es[j].from);
    }
    if es.len() == 0 {
        assert(a.take(a.len() as int) =~= a);
    } else {
        let e = es.last();
        assert(es[es.len() - 1] == e);
        assert(vs.last() == edit_view(e));
        let front = es.drop_last();
        let b = e.applied(a);
        crate::edit::lemma_edits_front(a, es);
        lemma_edited_forward(b, front);
        assert(edit_views(front) =~= vs.drop_last());
        lemma_ascending_front(vs, a.len() as int);
        let f = e.from as int;
        lemma_forward_extend(b, edit_views(front), f, b.len() as int);
        assert(a.take(f) =~= b.take(f));
        lemma_forward_same(a, b, edit_views(front), f);
        assert(b.subrange(f, b.len() as int) =~= e.replacement@ + a.subrange(e.to as int, a.len() as int));
        assert(forward(b, edit_views(front), f) + (e.replacement@ + a.subrange(e.to as int, a.len() as int))
            =~= forward(a, edit_views(front), f) + e.replacement@ + a.subrange(e.to as int, a.len() as int));
    }
}

/// Line offsets add up.
proof fn lemma_lines_between(ls: Seq<Seq<u8>>, i: int, j: int)
    requires
        0 <= i <= j <= ls.len(),
    ensures
        0 <= chunk_start(ls, i) <= chunk_start(ls, j) <= joined(ls).len(),
        joined(ls).subrange(chunk_start(ls, i), chunk_start(ls, j)) == joined(ls.subrange(i, j)),
        joined(ls).take(chunk_start(ls, i)) == joined(ls.take(i)),
{
    assert(ls =~= ls.take(i) + ls.subrange(i, j) + ls.skip(j));
    assert(ls.take(j) =~= ls.take(i) + ls.subrange(i, j));
    lemma_joined_concat(ls.take(i), ls.subrange(i, j));
    lemma_joined_concat(ls.take(i) + ls.subrange(i, j), ls.skip(j));
    let s = joined(ls);
    assert(s.subrange(chunk_start(ls, i), chunk_start(ls, j)) =~= joined(ls.subrange(i, j)));
    assert(s.take(chunk_start(ls, i)) =~= joined(ls.take(i)));
}

/// One more hunk, and the equal lines behind it.
proof fn lemma_one_hunk(a: Seq<u8>, b: Seq<u8>, es: Seq<EditView>, s: Spans)
    requires
        ascending(es, s.af),
        forward(a, es, s.af) == b.take(s.bf),
        0 <= s.af <= s.at <= s.ax <= a.len(),
        0 <= s.bf <= s.bt <= s.by <= b.len(),
        a.subrange(s.at, s.ax) == b.subrange(s.bt, s.by),
    ensures
        ({
            let (pre, a2, b2) = trimmed(a.subrange(s.af, s.at), b.subrange(s.bf, s.bt));
            let at = s.af + pre;
            let out = if a2.len() == 0 && b2.len() == 0 {
                es
            } else {
                es.push(EditView { from: at, to: at + a2.len(), text: b2 })
            };
            ascending(out, s.ax) && forward(a, out, s.ax) == b.take(s.by)
        }),
{
    let oa = a.subrange(s.af, s.at);
    let ob = b.subrange(s.bf, s.bt);
    lemma_trimmed(oa, ob);
    let (pre, a2, b2) = trimmed(oa, ob);
    if a2.len() == 0 && b2.len() == 0 {
        assert(oa =~= oa.take(pre) + oa.skip(pre));
        assert(ob =~= ob.take(pre) + ob.skip(pre));
        assert(oa == ob);
        lemma_forward_extend(a, es, s.af, s.ax);
        assert(a.subrange(s.af, s.ax) =~= oa + a.subrange(s.at, s.ax));
        assert(b.take(s.by) =~= b.take(s.bf) + (ob + b.subrange(s.bt, s.by)));
    } else {
        let e = EditView { from: s.af + pre, to: s.af + pre + a2.len(), text: b2 };
        let out = es.push(e);
        assert(out.drop_last() =~= es);
        assert forall|i: int| 0 <= i < out.len() implies 0 <= (#[trigger] out[i]).from <= out[i].to <= s.ax by {
            if i < es.len() {
                assert(out[i] == es[i]);
            }
        }
        assert forall|i: int, j: int| 0 <= i < j < out.len() implies (#[trigger] out[i]).to <= (#[trigger] out[j]).from by {
            assert(out[i] == es[i]);
            if j < es.len() {
                assert(out[j] == es[j]);
            }
        }
        lemma_forward_extend(a, es, s.af, e.from);
        assert(a.subrange(s.af, e.from) =~= oa.take(pre));
        assert(ob.take(pre) =~= b.subrange(s.bf, s.bf + pre));
        assert(a.subrange(e.to, s.ax) =~= oa.skip(pre + a2.len()) + a.subrange(s.at, s.ax));
        let tail = ob.skip(pre + b2.len()) + b.subrange(s.bt, s.by);
        assert(b.take(s.by) =~= b.take(s.bf) + ob.take(pre) + b2 + tail);
        assert(forward(a, out, s.ax) == forward(a, es, e.from) + b2 + a.subrange(e.to, s.ax));
    }
}

/// Where a hunk lies in both texts, and where the equal lines behind it end.
struct Spans {
    af: int,
    at: int,
    ax: int,
    bf: int,
    bt: int,
    by: int,
}

/// The edits of a diff, read forward, spell the new text.
proof fn lemma_hunk_edits(al: Seq<Seq<u8>>, bl: Seq<Seq<u8>>, hs: Seq<HunkView>, p: Point)
    requires
        turns(al, bl, hs, p),
    ensures
        ascending(hunk_edits(al, bl, hs), chunk_start(al, p.x)),
        forward(joined(al), hunk_edits(al, bl, hs), chunk_start(al, p.x)) == joined(bl).take(chunk_start(bl, p.y)),
    decreases hs.len(),
{
    let a = joined(al);
    let b = joined(bl);
    lemma_turns_fit(al, bl, hs, p);
    if hs.len() == 0 {
        assert(al.subrange(0, p.x) =~= al.take(p.x));
        assert(bl.subrange(0, p.y) =~= bl.take(p.y));
        lemma_lines_between(al, p.x, p.x);
        lemma_lines_between(bl, p.y, p.y);
    } else {
        let h = hs.last();
        let q = Point { x: h.a_from, y: h.b_from };
        lemma_hunk_edits(al, bl, hs.drop_last(), q);
        let s = Spans {
            af: chunk_start(al, h.a_from),
            at: chunk_start(al, h.a_to),
            ax: chunk_start(al, p.x),
            bf: chunk_start(bl, h.b_from),
            bt: chunk_start(bl, h.b_to),
            by: chunk_start(bl, p.y),
        };
        lemma_lines_between(al, h.a_from, h.a_to);
        lemma_lines_between(bl, h.b_from, h.b_to);
        lemma_lines_between(al, h.a_to, p.x);
        lemma_lines_between(bl, h.b_to, p.y);
        lemma_one_hunk(a, b, hunk_edits(al, bl, hs.drop_last()), s);
    }
}

/// The edits between two texts, read forward, spell the second.
pub proof fn lemma_edits_between(a: Seq<u8>, b: Seq<u8>)
    ensures
        ascending(edits_between(a, b), a.len() as int),
        forward(a, edits_between(a, b), a.len() as int) == b,
{
    let la = lines_of(a);
    let lb = lines_of(b);
    lemma_lines(a);
    lemma_lines(b);
    lemma_text_hunks(a, b);
    let c = corner(la, lb);
    lemma_hunk_edits(la, lb, text_hunks(a, b), c);
    assert(la.take(c.x) =~= la);
    assert(lb.take(c.y) =~= lb);
    assert(b.take(b.len() as int) =~= b);
}

/// Offsets at which lines begin, and the end of the last.
fn line_offsets<'a>(lines: &Vec<&'a [u8]>, total: usize) -> (out: Vec<usize>)
    requires
        joined(slice_views(lines@)).len() == total,
    ensures
        out@.len() == lines@.len() + 1,
        forall|i: int| 0 <= i <= lines@.len() ==> (#[trigger] out@[i]) == chunk_start(slice_views(lines@), i),
{
    let ghost ls = slice_views(lines@);
    let mut out: Vec<usize> = Vec::new();
    let mut at: usize = 0;
    out.push(0);
    assert(ls.take(0) =~= Seq::empty());
    let mut i: usize = 0;
    while i < lines.len()
        invariant
            i <= lines@.len(),
            ls == slice_views(lines@),
            joined(ls).len() == total,
            out@.len() == i + 1,
            at == chunk_start(ls, i as int),
            forall|k: int| 0 <= k <= i ==> (#[trigger] out@[k]) == chunk_start(ls, k),
        decreases lines@.len() - i,
    {
        proof {
            lemma_lines_between(ls, i + 1, i + 1);
            assert(ls.take(i + 1) =~= ls.take(i as int).push(ls[i as int]));
            lemma_joined_push(ls.take(i as int), ls[i as int]);
        }
        at = at + lines[i].len();
        out.push(at);
        i += 1;
    }
    out
}

/// The edits that [`byte_edits`] finds: the line diff, each hunk trimmed to the bytes that differ.
pub open spec fn edits_between(a: Seq<u8>, b: Seq<u8>) -> Seq<EditView> {
    hunk_edits(lines_of(a), lines_of(b), text_hunks(a, b))
}

/// Byte-range edits that transform `a` into `b`, computed as a line diff refined by
/// trimming common bytes inside each hunk.
pub fn byte_edits(a: &[u8], b: &[u8]) -> (out: Vec<Edit>)
    ensures
        edits_valid(out@, a@.len() as int),
        edited(a@, out@) == b@,
        edit_views(out@) == edits_between(a@, b@),
{
    let al = split_lines(a);
    let bl = split_lines(b);
    let ghost la = lines_of(a@);
    let ghost lb = lines_of(b@);
    proof {
        lemma_lines(a@);
        lemma_lines(b@);
    }
    let a_off = line_offsets(&al, a.len());
    let b_off = line_offsets(&bl, b.len());
    let hunks = line_diff(&al, &bl);
    let ghost hs = hunk_views(hunks@);
    proof {
        lemma_text_hunks(a@, b@);
        lemma_turns_fit(la, lb, hs, corner(la, lb));
    }
    let mut out: Vec<Edit> = Vec::new();
    let mut i: usize = 0;
    assert(edit_views(out@) =~= hunk_edits(la, lb, hs.take(0)));
    while i < hunks.len()
        invariant
            i <= hunks@.len(),
            hs == hunk_views(hunks@),
            la == lines_of(a@),
            lb == lines_of(b@),
            slice_views(al@) == la,
            slice_views(bl@) == lb,
            joined(la) == a@,
            joined(lb) == b@,
            a_off@.len() == la.len() + 1,
            b_off@.len() == lb.len() + 1,
            forall|k: int| 0 <= k <= la.len() ==> (#[trigger] a_off@[k]) == chunk_start(la, k),
            forall|k: int| 0 <= k <= lb.len() ==> (#[trigger] b_off@[k]) == chunk_start(lb, k),
            forall|k: int|
                0 <= k < hs.len() ==> 0 <= (#[trigger] hs[k]).a_from && hs[k].a_to <= la.len() && 0 <= hs[k].b_from
                    && hs[k].b_to <= lb.len() && hs[k].a_from <= hs[k].a_to && hs[k].b_from <= hs[k].b_to,
            edit_views(out@) == hunk_edits(la, lb, hs.take(i as int)),
        decreases hunks@.len() - i,
    {
        let h: Hunk = hunks[i];
        let ghost g = hs[i as int];
        assert(g == h@);
        let af: usize = a_off[h.a_from];
        let at: usize = a_off[h.a_to];
        let bf: usize = b_off[h.b_from];
        let bt: usize = b_off[h.b_to];
        proof {
            lemma_lines_between(la, g.a_from, g.a_to);
            lemma_lines_between(lb, g.b_from, g.b_to);
            assert(hs.take(i + 1).drop_last() =~= hs.take(i as int));
            assert(hs.take(i + 1).last() == g);
        }
        let oa = vstd::slice::slice_subrange(a, af, at);
        let ob = vstd::slice::slice_subrange(b, bf, bt);
        // Byte refinement.
        let (pre, suf): (usize, usize) = trim(oa, ob);
        let ghost before = out@;
        if pre + suf < oa.len() || pre + suf < ob.len() {
            let text = vstd::slice::slice_to_vec(vstd::slice::slice_subrange(ob, pre, ob.len() - suf));
            let e = Edit::new((af + pre) as u64, (at - suf) as u64, text);
            out.push(e);
            proof {
                assert(refined(la, lb, g) == Some(edit_view(e)));
                assert(edit_views(out@) =~= edit_views(before).push(edit_view(e)));
            }
        } else {
            assert(refined(la, lb, g) is None);
        }
        i += 1;
    }
    proof {
        assert(hs.take(i as int) =~= hs);
        lemma_edits_between(a@, b@);
        let es = edit_views(out@);
        assert forall|k: int| 0 <= k < out@.len() implies (#[trigger] out@[k]).from <= out@[k].to <= a@.len() by {
            assert(es[k] == edit_view(out@[k]));
        }
        assert forall|k: int, j: int| 0 <= k < j < out@.len() implies (#[trigger] out@[k]).to <= (#[trigger] out@[j]).from by {
            assert(es[k].to <= es[j].from);
        }
        lemma_edited_forward(a@, out@);
    }
    out
}

} // verus!
