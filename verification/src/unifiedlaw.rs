//! A printed diff, applied to the old text, gives the new one.

use vstd::prelude::*;
use vstd::string::*;
use crate::diff::{law_runs_turn, rewrites, runs_between};
use crate::linelaw::{aligned, law_regions_turn, lemma_lines_between, lemma_whole_lines, lines_before, whole_lines, Region};
use crate::lines::lines_of;
use crate::merge::{ends_at, lemma_between, new_end};
use crate::model::{doc, sound, Store};
use crate::myers::{corner, lemma_text_hunks, lemma_turns_fit, text_hunks, turns, HunkView, Point};
use crate::regions::{all_unified, regions_between};
use crate::text::dec;
use crate::tree::clip;
use crate::unified::{
    changes, context_from, context_to, group_last, header, lead_in, lead_out, marked, opens, printed, rendered, unified_text,
    Layout,
};

verus! {

/// A line of a printed diff: its mark, and the line of a text behind it.
#[verifier::ext_equal]
pub struct Shown {
    pub mark: char,
    pub line: Seq<u8>,
}

/// A group of a printed diff: the lines of the old and the new text that it announces, counted
/// from 0, and the marked lines below that.
#[verifier::ext_equal]
pub struct Group {
    pub a_from: int,
    pub a_to: int,
    pub b_from: int,
    pub b_to: int,
    pub lines: Seq<Shown>,
}

/// The lines marked ` ` or `-`.
pub open spec fn old_lines(ls: Seq<Shown>) -> Seq<Seq<u8>>
    decreases ls.len(),
{
    if ls.len() == 0 {
        Seq::empty()
    } else if ls.last().mark == ' ' || ls.last().mark == '-' {
        old_lines(ls.drop_last()).push(ls.last().line)
    } else {
        old_lines(ls.drop_last())
    }
}

/// The lines marked ` ` or `+`.
pub open spec fn new_lines(ls: Seq<Shown>) -> Seq<Seq<u8>>
    decreases ls.len(),
{
    if ls.len() == 0 {
        Seq::empty()
    } else if ls.last().mark == ' ' || ls.last().mark == '+' {
        new_lines(ls.drop_last()).push(ls.last().line)
    } else {
        new_lines(ls.drop_last())
    }
}

/// Lines as they are printed, each behind its mark.
pub open spec fn shown_text(ls: Seq<Shown>) -> Seq<char>
    decreases ls.len(),
{
    if ls.len() == 0 {
        Seq::empty()
    } else {
        shown_text(ls.drop_last()) + seq![ls.last().mark] + rendered(ls.last().line)
    }
}

/// The line that announces a group: where it begins in each text, and how many lines it has there.
pub open spec fn announced(g: Group, a_base: int, b_base: int) -> Seq<char> {
    "@@ -"@ + dec((g.a_from + a_base) as nat) + ","@ + dec((g.a_to - g.a_from) as nat) + " +"@ + dec(
        (g.b_from + b_base) as nat,
    ) + ","@ + dec((g.b_to - g.b_from) as nat) + " @@\n"@
}

/// Groups as they are printed.
pub open spec fn groups_text(gs: Seq<Group>, a_base: int, b_base: int) -> Seq<char>
    decreases gs.len(),
{
    if gs.len() == 0 {
        Seq::empty()
    } else {
        groups_text(gs.drop_last(), a_base, b_base) + announced(gs.last(), a_base, b_base) + shown_text(gs.last().lines)
    }
}

/// The first `upto` of some lines after some groups were applied to them: in place of the lines
/// that a group announces stand its lines marked ` ` or `+`.
pub open spec fn patched(al: Seq<Seq<u8>>, gs: Seq<Group>, upto: int) -> Seq<Seq<u8>>
    decreases gs.len(),
{
    if gs.len() == 0 {
        al.take(upto)
    } else {
        let g = gs.last();
        patched(al, gs.drop_last(), g.a_from) + new_lines(g.lines) + al.subrange(g.a_to, upto)
    }
}

/// A group shows, in order, exactly the lines it announces of either text.
pub open spec fn faithful(al: Seq<Seq<u8>>, bl: Seq<Seq<u8>>, g: Group) -> bool {
    &&& 0 <= g.a_from <= g.a_to <= al.len()
    &&& 0 <= g.b_from <= g.b_to <= bl.len()
    &&& forall|k: int|
        0 <= k < g.lines.len() ==> (#[trigger] g.lines[k]).mark == ' ' || g.lines[k].mark == '-' || g.lines[k].mark == '+'
    &&& old_lines(g.lines) == al.subrange(g.a_from, g.a_to)
    &&& new_lines(g.lines) == bl.subrange(g.b_from, g.b_to)
}

/// Is a line with a change at most `context` lines away?
pub open spec fn near_change(ls: Seq<Shown>, context: int, k: int) -> bool {
    exists|j: int| 0 <= j < ls.len() && (#[trigger] ls[j]).mark != ' ' && k - context <= j <= k + context
}

/// A group shows `context` lines on either side of each change, as far as the text has them, and
/// no unchanged line further away.
pub open spec fn framed(al: Seq<Seq<u8>>, g: Group, context: int) -> bool {
    &&& forall|k: int|
        0 <= k < g.lines.len() && (#[trigger] g.lines[k]).mark != ' ' ==> (context <= k || g.a_from == 0) && (k + context
            < g.lines.len() || g.a_to == al.len())
    &&& forall|k: int| 0 <= k < g.lines.len() && (#[trigger] g.lines[k]).mark == ' ' ==> near_change(g.lines, context, k)
}

/// A line that is not shown lies between one group and the next.
pub open spec fn separate(gs: Seq<Group>) -> bool {
    forall|k: int| 0 < k < gs.len() ==> gs[k - 1].a_to < (#[trigger] gs[k]).a_from
}

/// Some lines behind one mark.
spec fn show(mark: char, ls: Seq<Seq<u8>>) -> Seq<Shown> {
    Seq::new(ls.len(), |i: int| Shown { mark, line: ls[i] })
}

proof fn lemma_shown_concat(x: Seq<Shown>, y: Seq<Shown>)
    ensures
        old_lines(x + y) == old_lines(x) + old_lines(y),
        new_lines(x + y) == new_lines(x) + new_lines(y),
        shown_text(x + y) == shown_text(x) + shown_text(y),
    decreases y.len(),
{
    if y.len() == 0 {
        assert(x + y =~= x);
        assert(old_lines(x) + old_lines(y) =~= old_lines(x));
        assert(new_lines(x) + new_lines(y) =~= new_lines(x));
        assert(shown_text(x) + shown_text(y) =~= shown_text(x));
    } else {
        lemma_shown_concat(x, y.drop_last());
        assert((x + y).drop_last() =~= x + y.drop_last());
        assert((x + y).last() == y.last());
        assert(old_lines(x + y) =~= old_lines(x) + old_lines(y));
        assert(new_lines(x + y) =~= new_lines(x) + new_lines(y));
        assert(shown_text(x + y) =~= shown_text(x) + shown_text(y));
    }
}

proof fn lemma_show(mark: char, ls: Seq<Seq<u8>>)
    ensures
        mark == ' ' || mark == '-' ==> old_lines(show(mark, ls)) == ls,
        mark == '+' ==> old_lines(show(mark, ls)) == Seq::<Seq<u8>>::empty(),
        mark == ' ' || mark == '+' ==> new_lines(show(mark, ls)) == ls,
        mark == '-' ==> new_lines(show(mark, ls)) == Seq::<Seq<u8>>::empty(),
        shown_text(show(mark, ls)) == marked(mark, ls),
    decreases ls.len(),
{
    if ls.len() > 0 {
        lemma_show(mark, ls.drop_last());
        assert(show(mark, ls).drop_last() =~= show(mark, ls.drop_last()));
        assert(ls.drop_last().push(ls.last()) =~= ls);
    } else {
        assert(ls =~= Seq::empty());
    }
}

/// The changed lines of a hunk.
spec fn hunk_shown(al: Seq<Seq<u8>>, bl: Seq<Seq<u8>>, h: HunkView) -> Seq<Shown> {
    show('-', al.subrange(h.a_from, h.a_to)) + show('+', bl.subrange(h.b_from, h.b_to))
}

/// The lines of a group that hunk `i` opens, up to the changes of hunk `k`.
spec fn group_shown(al: Seq<Seq<u8>>, bl: Seq<Seq<u8>>, hs: Seq<HunkView>, context: int, i: int, k: int) -> Seq<Shown>
    decreases k - i,
{
    if k <= i {
        show(' ', al.subrange(context_from(hs[i].a_from, context), hs[i].a_from)) + hunk_shown(al, bl, hs[i])
    } else {
        group_shown(al, bl, hs, context, i, k - 1) + show(' ', al.subrange(hs[k - 1].a_to, hs[k].a_from)) + hunk_shown(
            al,
            bl,
            hs[k],
        )
    }
}

/// A diff and the texts it turns into each other.
spec fn fits(al: Seq<Seq<u8>>, bl: Seq<Seq<u8>>, hs: Seq<HunkView>, context: int) -> bool {
    turns(al, bl, hs, corner(al, bl)) && context >= 0
}

proof fn lemma_hunk_busy<T>(a: Seq<T>, b: Seq<T>, hs: Seq<HunkView>, p: Point, i: int)
    requires
        turns(a, b, hs, p),
        0 <= i < hs.len(),
    ensures
        hs[i].a_from < hs[i].a_to || hs[i].b_from < hs[i].b_to,
    decreases hs.len(),
{
    if i < hs.len() - 1 {
        let h = hs.last();
        lemma_hunk_busy(a, b, hs.drop_last(), Point { x: h.a_from, y: h.b_from }, i);
    }
}

/// The lines just before a hunk are the same in both texts.
proof fn lemma_before_hunk(al: Seq<Seq<u8>>, bl: Seq<Seq<u8>>, hs: Seq<HunkView>, k: int, n: int)
    requires
        turns(al, bl, hs, corner(al, bl)),
        0 <= k < hs.len(),
        0 <= n <= hs[k].a_from - (if k == 0 {
            0
        } else {
            hs[k - 1].a_to
        }),
    ensures
        0 <= hs[k].b_from - n,
        k > 0 ==> hs[k - 1].b_to <= hs[k].b_from - n,
        hs[k].a_from <= al.len(),
        hs[k].b_from <= bl.len(),
        al.subrange(hs[k].a_from - n, hs[k].a_from) == bl.subrange(hs[k].b_from - n, hs[k].b_from),
        k == 0 ==> hs[k].a_from == hs[k].b_from,
        k > 0 ==> hs[k].a_from - hs[k - 1].a_to == hs[k].b_from - hs[k - 1].b_to,
{
    let h = hs[k];
    lemma_between(al, bl, hs, corner(al, bl), k);
    if k > 0 {
        assert(hs.take(k).last() == hs[k - 1]);
    }
    let x = ends_at(hs.take(k), 0);
    let y = new_end(hs.take(k));
    let u = al.subrange(x, h.a_from);
    let v = bl.subrange(y, h.b_from);
    assert(u == v);
    assert(al.subrange(h.a_from - n, h.a_from) =~= u.subrange(u.len() - n, u.len() as int));
    assert(bl.subrange(h.b_from - n, h.b_from) =~= v.subrange(v.len() - n, v.len() as int));
}

/// The lines just behind a hunk are the same in both texts.
proof fn lemma_behind_hunk(al: Seq<Seq<u8>>, bl: Seq<Seq<u8>>, hs: Seq<HunkView>, k: int, x: int, y: int)
    requires
        turns(al, bl, hs, corner(al, bl)),
        0 <= k < hs.len(),
        0 <= x <= y <= (if k + 1 < hs.len() {
            hs[k + 1].a_from
        } else {
            al.len() as int
        }) - hs[k].a_to,
    ensures
        hs[k].a_to + y <= al.len(),
        hs[k].b_to + y <= bl.len(),
        al.subrange(hs[k].a_to + x, hs[k].a_to + y) == bl.subrange(hs[k].b_to + x, hs[k].b_to + y),
        k + 1 == hs.len() ==> al.len() - hs[k].a_to == bl.len() - hs[k].b_to,
        k + 1 < hs.len() ==> hs[k + 1].a_from - hs[k].a_to == hs[k + 1].b_from - hs[k].b_to,
{
    let h = hs[k];
    lemma_between(al, bl, hs, corner(al, bl), k + 1);
    assert(hs.take(k + 1).last() == h);
    lemma_turns_fit(al, bl, hs, corner(al, bl));
    let (ex, ey) = if k + 1 < hs.len() {
        (hs[k + 1].a_from, hs[k + 1].b_from)
    } else {
        (al.len() as int, bl.len() as int)
    };
    let u = al.subrange(h.a_to, ex);
    let v = bl.subrange(h.b_to, ey);
    assert(u == v);
    assert(al.subrange(h.a_to + x, h.a_to + y) =~= u.subrange(x, y));
    assert(bl.subrange(h.b_to + x, h.b_to + y) =~= v.subrange(x, y));
}

proof fn lemma_hunk_shown(al: Seq<Seq<u8>>, bl: Seq<Seq<u8>>, h: HunkView)
    requires
        0 <= h.a_from <= h.a_to <= al.len(),
        0 <= h.b_from <= h.b_to <= bl.len(),
    ensures
        old_lines(hunk_shown(al, bl, h)) == al.subrange(h.a_from, h.a_to),
        new_lines(hunk_shown(al, bl, h)) == bl.subrange(h.b_from, h.b_to),
        shown_text(hunk_shown(al, bl, h)) == changes(al, bl, h),
        hunk_shown(al, bl, h).len() == h.a_to - h.a_from + h.b_to - h.b_from,
        forall|k: int|
            0 <= k < hunk_shown(al, bl, h).len() ==> (#[trigger] hunk_shown(al, bl, h)[k]).mark == '-' || hunk_shown(
                al,
                bl,
                h,
            )[k].mark == '+',
{
    let x = al.subrange(h.a_from, h.a_to);
    let y = bl.subrange(h.b_from, h.b_to);
    lemma_show('-', x);
    lemma_show('+', y);
    lemma_shown_concat(show('-', x), show('+', y));
    assert(x + Seq::<Seq<u8>>::empty() =~= x);
    assert(Seq::<Seq<u8>>::empty() + y =~= y);
}

/// Marks are among the three, the last line is a change, and unchanged lines are near one.
spec fn laid_out(ls: Seq<Shown>, context: int) -> bool {
    &&& ls.len() > 0
    &&& ls.last().mark != ' '
    &&& forall|k: int| 0 <= k < ls.len() ==> (#[trigger] ls[k]).mark == ' ' || ls[k].mark == '-' || ls[k].mark == '+'
    &&& forall|k: int| 0 <= k < ls.len() && (#[trigger] ls[k]).mark == ' ' ==> near_change(ls, context, k)
}

/// Unchanged lines, not too many, and changes, behind a group's lines.
#[verifier::rlimit(60)]
proof fn lemma_laid_out_more(ls: Seq<Shown>, gap: Seq<Shown>, more: Seq<Shown>, context: int)
    requires
        ls.len() == 0 && gap.len() <= context || laid_out(ls, context) && gap.len() <= 2 * context,
        context >= 0,
        more.len() > 0,
        forall|k: int| 0 <= k < gap.len() ==> (#[trigger] gap[k]).mark == ' ',
        forall|k: int| 0 <= k < more.len() ==> (#[trigger] more[k]).mark == '-' || more[k].mark == '+',
    ensures
        laid_out(ls + gap + more, context),
{
    let all = ls + gap + more;
    let n = ls.len() as int;
    let m = gap.len() as int;
    assert forall|k: int| 0 <= k < all.len() implies (#[trigger] all[k]).mark == ' ' || all[k].mark == '-' || all[k].mark
        == '+' by {
        if k < n {
            assert(all[k] == ls[k]);
        } else if k < n + m {
            assert(all[k] == gap[k - n]);
        } else {
            assert(all[k] == more[k - n - m]);
        }
    }
    assert(all.last() == more[more.len() - 1]);
    assert forall|k: int| 0 <= k < all.len() && (#[trigger] all[k]).mark == ' ' implies near_change(all, context, k) by {
        if k < n {
            assert(all[k] == ls[k]);
            assert(near_change(ls, context, k));
            let j = choose|j: int| 0 <= j < ls.len() && (#[trigger] ls[j]).mark != ' ' && k - context <= j <= k + context;
            assert(all[j] == ls[j]);
        } else if k < n + m {
            if k + context >= n + m {
                assert(all[n + m] == more[0]);
            } else {
                assert(all[n - 1] == ls[n - 1]);
            }
        } else {
            assert(all[k] == more[k - n - m]);
        }
    }
}

/// What the hunks `i` to `k` of a group print, and what it shows of either text.
#[verifier::rlimit(60)]
proof fn lemma_group_shown(al: Seq<Seq<u8>>, bl: Seq<Seq<u8>>, hs: Seq<HunkView>, l: Layout, i: int, k: int)
    requires
        fits(al, bl, hs, l.context),
        0 <= i <= k < hs.len(),
        opens(hs, l.context, i),
        forall|j: int| i < j <= k ==> !#[trigger] opens(hs, l.context, j),
    ensures
        ({
            let ls = group_shown(al, bl, hs, l.context, i, k);
            let x = context_from(hs[i].a_from, l.context);
            let y = context_from(hs[i].b_from, l.context);
            &&& 0 <= x <= hs[k].a_to <= al.len()
            &&& 0 <= y <= hs[k].b_to <= bl.len()
            &&& old_lines(ls) == al.subrange(x, hs[k].a_to)
            &&& new_lines(ls) == bl.subrange(y, hs[k].b_to)
            &&& laid_out(ls, l.context)
            &&& forall|j: int| 0 <= j < ls.len() && (#[trigger] ls[j]).mark != ' ' ==> l.context <= j || x == 0
            &&& printed(al, bl, hs, l, k) + lead_in(al, bl, hs, l, k) + changes(al, bl, hs[k]) == printed(al, bl, hs, l, i)
                + header(al, bl, hs, l, i, group_last(hs, l.context, i)) + shown_text(ls)
        }),
    decreases k - i,
{
    let c = l.context;
    let h = hs[k];
    lemma_turns_fit(al, bl, hs, corner(al, bl));
    lemma_hunk_busy(al, bl, hs, corner(al, bl), k);
    lemma_hunk_shown(al, bl, h);
    let x = context_from(hs[i].a_from, c);
    let y = context_from(hs[i].b_from, c);
    let more = hunk_shown(al, bl, h);
    let ls = group_shown(al, bl, hs, c, i, k);
    let head = header(al, bl, hs, l, i, group_last(hs, c, i));
    if k == i {
        let n = h.a_from - x;
        if i > 0 {
            assert(n == c);
        }
        lemma_before_hunk(al, bl, hs, i, n);
        assert(y == h.b_from - n);
        let ctx = al.subrange(x, h.a_from);
        let gap = show(' ', ctx);
        lemma_show(' ', ctx);
        lemma_shown_concat(gap, more);
        assert(ls == gap + more);
        assert(al.subrange(x, h.a_to) =~= ctx + al.subrange(h.a_from, h.a_to));
        assert(bl.subrange(y, h.b_to) =~= ctx + bl.subrange(h.b_from, h.b_to));
        let none = Seq::<Shown>::empty();
        lemma_laid_out_more(none, gap, more, c);
        assert(none + gap + more =~= ls);
        assert forall|j: int| 0 <= j < ls.len() && (#[trigger] ls[j]).mark != ' ' implies c <= j || x == 0 by {
            if j < gap.len() {
                assert(ls[j] == gap[j]);
            }
        }
        let before = printed(al, bl, hs, l, i);
        assert(before + (head + marked(' ', ctx)) + changes(al, bl, h) =~= before + head + (marked(' ', ctx) + changes(
            al,
            bl,
            h,
        )));
    } else {
        lemma_group_shown(al, bl, hs, l, i, k - 1);
        let g = hs[k - 1];
        assert(g.a_to < h.a_from);
        let ctx = al.subrange(g.a_to, h.a_from);
        lemma_before_hunk(al, bl, hs, k, h.a_from - g.a_to);
        let gap = show(' ', ctx);
        lemma_show(' ', ctx);
        let ls0 = group_shown(al, bl, hs, c, i, k - 1);
        lemma_shown_concat(ls0, gap);
        lemma_shown_concat(ls0 + gap, more);
        assert(al.subrange(x, h.a_to) =~= al.subrange(x, g.a_to) + ctx + al.subrange(h.a_from, h.a_to));
        assert(bl.subrange(y, h.b_to) =~= bl.subrange(y, g.b_to) + ctx + bl.subrange(h.b_from, h.b_to));
        assert(!opens(hs, c, k));
        lemma_laid_out_more(ls0, gap, more, c);
        assert forall|j: int| 0 <= j < ls.len() && (#[trigger] ls[j]).mark != ' ' implies c <= j || x == 0 by {
            let n = ls0.len() as int;
            if j < n {
                assert(ls[j] == ls0[j]);
            } else {
                assert(ls0[n - 1].mark != ' ');
            }
        }
        let before = printed(al, bl, hs, l, i);
        let old = printed(al, bl, hs, l, k - 1) + lead_in(al, bl, hs, l, k - 1) + changes(al, bl, g);
        assert(lead_out(al, hs, c, k - 1) =~= Seq::<char>::empty());
        assert(printed(al, bl, hs, l, k) =~= old);
        assert(lead_in(al, bl, hs, l, k) == marked(' ', ctx));
        assert(before + head + shown_text(ls0) + marked(' ', ctx) + changes(al, bl, h) =~= before + head + (shown_text(ls0)
            + marked(' ', ctx) + changes(al, bl, h)));
    }
}

/// The hunk that opens the group of hunk `k`.
spec fn group_first(hs: Seq<HunkView>, context: int, k: int) -> int
    decreases k,
{
    if k <= 0 || opens(hs, context, k) {
        k
    } else {
        group_first(hs, context, k - 1)
    }
}

proof fn lemma_group_first(hs: Seq<HunkView>, context: int, k: int)
    requires
        0 <= k < hs.len(),
    ensures
        0 <= group_first(hs, context, k) <= k,
        opens(hs, context, group_first(hs, context, k)),
        forall|j: int| group_first(hs, context, k) < j <= k ==> !#[trigger] opens(hs, context, j),
        group_last(hs, context, group_first(hs, context, k)) == group_last(hs, context, k),
    decreases k,
{
    if k > 0 && !opens(hs, context, k) {
        lemma_group_first(hs, context, k - 1);
        assert(group_last(hs, context, k - 1) == group_last(hs, context, k));
    }
}

/// Where the context of hunk `n` begins; the end of the text behind the last hunk.
spec fn edge(hs: Seq<HunkView>, context: int, n: int, al: Seq<Seq<u8>>, bl: Seq<Seq<u8>>) -> Point {
    if n < hs.len() {
        Point { x: context_from(hs[n].a_from, context), y: context_from(hs[n].b_from, context) }
    } else {
        corner(al, bl)
    }
}

/// The group of hunks `i` to `j`.
#[verifier::rlimit(60)]
proof fn lemma_whole_group(al: Seq<Seq<u8>>, bl: Seq<Seq<u8>>, hs: Seq<HunkView>, l: Layout, i: int, j: int) -> (g: Group)
    requires
        fits(al, bl, hs, l.context),
        0 <= i <= j < hs.len(),
        opens(hs, l.context, i),
        j + 1 < hs.len() ==> opens(hs, l.context, j + 1),
        group_last(hs, l.context, i) == j,
        forall|k: int| i < k <= j ==> !#[trigger] opens(hs, l.context, k),
    ensures
        g.a_from == context_from(hs[i].a_from, l.context),
        g.b_from == context_from(hs[i].b_from, l.context),
        g.a_to == context_to(hs[j].a_to, l.context, al.len() as int),
        g.a_to - hs[j].a_to == g.b_to - hs[j].b_to,
        g.a_to <= (if j + 1 < hs.len() {
            hs[j + 1].a_from
        } else {
            al.len() as int
        }),
        faithful(al, bl, g),
        framed(al, g, l.context),
        printed(al, bl, hs, l, j + 1) == printed(al, bl, hs, l, i) + announced(g, l.a_base, l.b_base) + shown_text(g.lines),
{
    let c = l.context;
    lemma_turns_fit(al, bl, hs, corner(al, bl));
    let h = hs[j];
    lemma_group_shown(al, bl, hs, l, i, j);
    let ls = group_shown(al, bl, hs, c, i, j);
    let a_end = context_to(h.a_to, c, al.len() as int);
    let b_end = context_to(h.b_to, c, bl.len() as int);
    let t = a_end - h.a_to;
    lemma_behind_hunk(al, bl, hs, j, 0, t);
    assert(b_end == h.b_to + t);
    let ctx = al.subrange(h.a_to, a_end);
    let tail = show(' ', ctx);
    lemma_show(' ', ctx);
    lemma_shown_concat(ls, tail);
    let x = context_from(hs[i].a_from, c);
    let y = context_from(hs[i].b_from, c);
    let all = ls + tail;
    let g = Group { a_from: x, a_to: a_end, b_from: y, b_to: b_end, lines: all };
    assert(al.subrange(x, a_end) =~= al.subrange(x, h.a_to) + ctx);
    assert(bl.subrange(y, b_end) =~= bl.subrange(y, h.b_to) + ctx);
    let m = ls.len() as int;
    assert forall|k: int| 0 <= k < all.len() implies (#[trigger] all[k]).mark == ' ' || all[k].mark == '-' || all[k].mark
        == '+' by {
        if k < m {
            assert(all[k] == ls[k]);
        }
    }
    assert(faithful(al, bl, g));
    assert forall|k: int| 0 <= k < all.len() && (#[trigger] all[k]).mark != ' ' implies (c <= k || g.a_from == 0) && (k + c
        < all.len() || g.a_to == al.len()) by {
        if k < m {
            assert(all[k] == ls[k]);
        } else {
            assert(all[k] == tail[k - m]);
        }
    }
    assert forall|k: int| 0 <= k < all.len() && (#[trigger] all[k]).mark == ' ' implies near_change(all, c, k) by {
        if k < m {
            assert(all[k] == ls[k]);
            assert(near_change(ls, c, k));
            let z = choose|z: int| 0 <= z < ls.len() && (#[trigger] ls[z]).mark != ' ' && k - c <= z <= k + c;
            assert(all[z] == ls[z]);
        } else {
            assert(all[m - 1] == ls[m - 1]);
        }
    }
    assert(framed(al, g, c));
    let old = printed(al, bl, hs, l, j) + lead_in(al, bl, hs, l, j) + changes(al, bl, h);
    let head = header(al, bl, hs, l, i, j);
    assert(head == announced(g, l.a_base, l.b_base));
    assert(printed(al, bl, hs, l, j + 1) == old + marked(' ', ctx));
    assert(printed(al, bl, hs, l, i) + head + shown_text(ls) + marked(' ', ctx) =~= printed(al, bl, hs, l, i) + head + (
    shown_text(ls) + marked(' ', ctx)));
    g
}

/// What lies between the context of hunk `j` and that of the next is the same in both texts.
#[verifier::rlimit(60)]
proof fn lemma_unshown(al: Seq<Seq<u8>>, bl: Seq<Seq<u8>>, hs: Seq<HunkView>, c: int, j: int)
    requires
        fits(al, bl, hs, c),
        0 <= j < hs.len(),
        j + 1 < hs.len() ==> opens(hs, c, j + 1),
    ensures
        ({
            let e = edge(hs, c, j + 1, al, bl);
            let x = context_to(hs[j].a_to, c, al.len() as int);
            let y = hs[j].b_to + (x - hs[j].a_to);
            &&& 0 <= x <= e.x <= al.len()
            &&& 0 <= y <= e.y <= bl.len()
            &&& al.subrange(x, e.x) == bl.subrange(y, e.y)
            &&& j + 1 < hs.len() ==> x < e.x
        }),
{
    let e = edge(hs, c, j + 1, al, bl);
    lemma_turns_fit(al, bl, hs, corner(al, bl));
    let h = hs[j];
    let x = context_to(h.a_to, c, al.len() as int);
    if j + 1 < hs.len() {
        assert(hs[j + 1].a_from > h.a_to + 2 * c);
    }
    lemma_behind_hunk(al, bl, hs, j, x - h.a_to, x - h.a_to);
    lemma_behind_hunk(al, bl, hs, j, x - h.a_to, e.x - h.a_to);
}

/// Before the first hunk both texts are the same.
proof fn lemma_first_edge(al: Seq<Seq<u8>>, bl: Seq<Seq<u8>>, hs: Seq<HunkView>, c: int)
    requires
        fits(al, bl, hs, c),
    ensures
        al.take(edge(hs, c, 0, al, bl).x) == bl.take(edge(hs, c, 0, al, bl).y),
{
    let e = edge(hs, c, 0, al, bl);
    lemma_between(al, bl, hs, corner(al, bl), 0);
    assert(hs.take(0) =~= Seq::empty());
    let (tx, ty) = if hs.len() > 0 { (hs[0].a_from, hs[0].b_from) } else { (al.len() as int, bl.len() as int) };
    assert(al.subrange(0, tx) == bl.subrange(0, ty));
    assert(al.take(e.x) =~= al.subrange(0, tx).take(e.x));
    assert(bl.take(e.y) =~= bl.subrange(0, ty).take(e.y));
}

/// One more group behind others.
#[verifier::rlimit(60)]
proof fn lemma_group_more(al: Seq<Seq<u8>>, bl: Seq<Seq<u8>>, gs: Seq<Group>, g: Group, c: int, e: Point)
    requires
        forall|k: int| 0 <= k < gs.len() ==> faithful(al, bl, #[trigger] gs[k]) && framed(al, gs[k], c),
        separate(gs),
        faithful(al, bl, g),
        framed(al, g, c),
        gs.len() > 0 ==> gs.last().a_to < g.a_from,
        patched(al, gs, g.a_from) == bl.take(g.b_from),
        g.a_to <= e.x <= al.len(),
        g.b_to <= e.y <= bl.len(),
        al.subrange(g.a_to, e.x) == bl.subrange(g.b_to, e.y),
    ensures
        forall|k: int| 0 <= k < gs.push(g).len() ==> faithful(al, bl, #[trigger] gs.push(g)[k]) && framed(al, gs.push(g)[k], c),
        separate(gs.push(g)),
        patched(al, gs.push(g), e.x) == bl.take(e.y),
{
    let all = gs.push(g);
    assert(all.drop_last() =~= gs);
    assert forall|k: int| 0 <= k < all.len() implies faithful(al, bl, #[trigger] all[k]) && framed(al, all[k], c) by {
        if k < gs.len() {
            assert(all[k] == gs[k]);
        }
    }
    assert forall|k: int| 0 < k < all.len() implies all[k - 1].a_to < (#[trigger] all[k]).a_from by {
        if k < gs.len() {
            assert(all[k] == gs[k] && all[k - 1] == gs[k - 1]);
        } else {
            assert(all[k - 1] == gs.last());
        }
    }
    assert(bl.take(e.y) =~= bl.take(g.b_from) + bl.subrange(g.b_from, g.b_to) + bl.subrange(g.b_to, e.y));
}

/// The groups of the first `n` hunks.
#[verifier::rlimit(60)]
proof fn lemma_groups(al: Seq<Seq<u8>>, bl: Seq<Seq<u8>>, hs: Seq<HunkView>, l: Layout, n: int) -> (gs: Seq<Group>)
    requires
        fits(al, bl, hs, l.context),
        0 <= n <= hs.len(),
        n < hs.len() ==> opens(hs, l.context, n),
    ensures
        printed(al, bl, hs, l, n) == groups_text(gs, l.a_base, l.b_base),
        forall|k: int| 0 <= k < gs.len() ==> faithful(al, bl, #[trigger] gs[k]) && framed(al, gs[k], l.context),
        separate(gs),
        gs.len() > 0 && n < hs.len() ==> gs.last().a_to < edge(hs, l.context, n, al, bl).x,
        patched(al, gs, edge(hs, l.context, n, al, bl).x) == bl.take(edge(hs, l.context, n, al, bl).y),
    decreases n,
{
    let c = l.context;
    if n == 0 {
        lemma_first_edge(al, bl, hs, c);
        Seq::empty()
    } else {
        let j = n - 1;
        lemma_group_first(hs, c, j);
        let i = group_first(hs, c, j);
        assert(group_last(hs, c, j) == j);
        let gs0 = lemma_groups(al, bl, hs, l, i);
        let g = lemma_whole_group(al, bl, hs, l, i, j);
        lemma_unshown(al, bl, hs, c, j);
        lemma_group_more(al, bl, gs0, g, c, edge(hs, c, n, al, bl));
        let gs = gs0.push(g);
        assert(gs.drop_last() =~= gs0);
        assert(gs.last() == g);
        gs
    }
}

/// A unified diff is made of groups. Each announces a range of lines of either text, and shows,
/// in order, exactly the old text's lines there marked ` ` or `-` and the new text's marked ` ` or
/// `+`. A group shows `context` lines around each change and no unchanged line further away, and
/// something is left out between groups. Applied to the old text, the groups give the new one.
pub proof fn law_unified_applies(a: Seq<u8>, b: Seq<u8>, context: nat, a_base: int, b_base: int)
    ensures
        exists|gs: Seq<Group>|
            {
                &&& unified_text(a, b, Layout { context: context as int, a_base, b_base }) == #[trigger] groups_text(
                    gs,
                    a_base,
                    b_base,
                )
                &&& forall|k: int| 0 <= k < gs.len() ==> faithful(lines_of(a), lines_of(b), #[trigger] gs[k])
                &&& forall|k: int| 0 <= k < gs.len() ==> framed(lines_of(a), #[trigger] gs[k], context as int)
                &&& separate(gs)
                &&& patched(lines_of(a), gs, lines_of(a).len() as int) == lines_of(b)
            },
{
    let al = lines_of(a);
    let bl = lines_of(b);
    let hs = text_hunks(a, b);
    let l = Layout { context: context as int, a_base, b_base };
    lemma_text_hunks(a, b);
    let gs = lemma_groups(al, bl, hs, l, hs.len() as int);
    assert(bl.take(bl.len() as int) =~= bl);
    assert(unified_text(a, b, l) == groups_text(gs, a_base, b_base));
}

/// Groups of a part of two texts, as groups of the whole.
spec fn moved(gs: Seq<Group>, x: int, y: int) -> Seq<Group> {
    Seq::new(
        gs.len(),
        |i: int|
            Group {
                a_from: gs[i].a_from + x,
                a_to: gs[i].a_to + x,
                b_from: gs[i].b_from + y,
                b_to: gs[i].b_to + y,
                lines: gs[i].lines,
            },
    )
}

proof fn lemma_moved_text(front: Seq<Group>, gs: Seq<Group>, x: int, y: int)
    ensures
        groups_text(front + moved(gs, x, y), 1, 1) == groups_text(front, 1, 1) + groups_text(gs, x + 1, y + 1),
    decreases gs.len(),
{
    let all = front + moved(gs, x, y);
    if gs.len() == 0 {
        assert(all =~= front);
        assert(groups_text(front, 1, 1) + Seq::<char>::empty() =~= groups_text(front, 1, 1));
    } else {
        lemma_moved_text(front, gs.drop_last(), x, y);
        assert(all.drop_last() =~= front + moved(gs.drop_last(), x, y));
        let g = gs.last();
        let h = all.last();
        assert(h.lines == g.lines);
        assert(announced(h, 1, 1) == announced(g, x + 1, y + 1));
        assert(groups_text(all, 1, 1) =~= groups_text(front, 1, 1) + groups_text(gs, x + 1, y + 1));
    }
}

/// Groups of a part, behind others, change that part alone.
#[verifier::rlimit(60)]
proof fn lemma_moved_patch(la: Seq<Seq<u8>>, al: Seq<Seq<u8>>, front: Seq<Group>, gs: Seq<Group>, x: int, y: int, u: int)
    requires
        0 <= x <= x + al.len() <= la.len(),
        la.subrange(x, x + al.len()) == al,
        front.len() > 0 ==> 0 <= front.last().a_to <= x,
        forall|k: int| 0 <= k < gs.len() ==> 0 <= (#[trigger] gs[k]).a_from <= gs[k].a_to <= al.len(),
        separate(gs),
        0 <= u <= al.len(),
        gs.len() > 0 ==> gs.last().a_to <= u,
    ensures
        patched(la, front + moved(gs, x, y), x + u) == patched(la, front, x) + patched(al, gs, u),
    decreases gs.len(),
{
    let all = front + moved(gs, x, y);
    if gs.len() == 0 {
        assert(all =~= front);
        assert(al.take(u) =~= la.subrange(x, x + u));
        if front.len() == 0 {
            assert(la.take(x + u) =~= la.take(x) + la.subrange(x, x + u));
        } else {
            let g = front.last();
            assert(la.subrange(g.a_to, x + u) =~= la.subrange(g.a_to, x) + la.subrange(x, x + u));
            assert(patched(la, front, x + u) =~= patched(la, front, x) + la.subrange(x, x + u));
        }
    } else {
        let g = gs.last();
        let rest = gs.drop_last();
        assert(gs[gs.len() - 1] == g);
        assert forall|k: int| 0 <= k < rest.len() implies 0 <= (#[trigger] rest[k]).a_from <= rest[k].a_to <= al.len() by {
            assert(rest[k] == gs[k]);
        }
        assert forall|k: int| 0 < k < rest.len() implies rest[k - 1].a_to < (#[trigger] rest[k]).a_from by {
            assert(rest[k] == gs[k] && rest[k - 1] == gs[k - 1]);
        }
        if rest.len() > 0 {
            assert(gs[gs.len() - 1 - 1].a_to < gs[gs.len() - 1].a_from);
            assert(rest.last() == gs[gs.len() - 2]);
        }
        lemma_moved_patch(la, al, front, rest, x, y, g.a_from);
        assert(all.drop_last() =~= front + moved(rest, x, y));
        let h = all.last();
        assert(la.subrange(h.a_to, x + u) =~= al.subrange(g.a_to, u));
        assert(patched(la, all, x + u) =~= patched(la, front, x) + patched(al, gs, u));
    }
}

/// The groups of a region stand for lines of the whole texts.
proof fn lemma_moved_faithful(pl: Region, gs: Seq<Group>)
    requires
        pl.ok(),
        forall|k: int| 0 <= k < gs.len() ==> faithful(pl.al(), pl.bl(), #[trigger] gs[k]),
    ensures
        ({
            let x = lines_before(pl.a, pl.r.a_from);
            let y = lines_before(pl.b, pl.r.b_from);
            forall|k: int| 0 <= k < gs.len() ==> faithful(lines_of(pl.a), lines_of(pl.b), #[trigger] moved(gs, x, y)[k])
        }),
{
    let x = lines_before(pl.a, pl.r.a_from);
    let y = lines_before(pl.b, pl.r.b_from);
    let la = lines_of(pl.a);
    let lb = lines_of(pl.b);
    pl.lemma_lines();
    assert forall|k: int| 0 <= k < gs.len() implies faithful(la, lb, #[trigger] moved(gs, x, y)[k]) by {
        let g = gs[k];
        assert(faithful(pl.al(), pl.bl(), g));
        assert(la.subrange(g.a_from + x, g.a_to + x) =~= pl.al().subrange(g.a_from, g.a_to));
        assert(lb.subrange(g.b_from + y, g.b_to + y) =~= pl.bl().subrange(g.b_from, g.b_to));
    }
}

/// The groups of some regions.
#[verifier::rlimit(60)]
proof fn lemma_region_groups(a: Seq<u8>, b: Seq<u8>, rs: Seq<HunkView>, x: int, y: int, context: nat) -> (gs: Seq<Group>)
    requires
        rewrites(a, b, rs, x, y),
        whole_lines(a, b, rs),
        aligned(a, x),
        aligned(b, y),
    ensures
        all_unified(a, b, rs, context as int) == groups_text(gs, 1, 1),
        forall|k: int| 0 <= k < gs.len() ==> faithful(lines_of(a), lines_of(b), #[trigger] gs[k]),
        gs.len() > 0 ==> gs.last().a_to <= lines_before(a, x),
        patched(lines_of(a), gs, lines_before(a, x)) == lines_of(b).take(lines_before(b, y)),
    decreases rs.len(),
{
    let la = lines_of(a);
    let lb = lines_of(b);
    lemma_lines_between(a, x, x);
    lemma_lines_between(b, y, y);
    if rs.len() == 0 {
        lemma_lines_between(a, 0, x);
        lemma_lines_between(b, 0, y);
        assert(a.subrange(0, x) =~= a.take(x));
        assert(b.subrange(0, y) =~= b.take(y));
        assert(a.take(0) =~= Seq::empty());
        assert(b.take(0) =~= Seq::empty());
        assert(la.take(lines_before(a, x)) =~= la.subrange(0, lines_before(a, x)));
        assert(lb.take(lines_before(b, y)) =~= lb.subrange(0, lines_before(b, y)));
        Seq::empty()
    } else {
        let r = rs.last();
        let f = rs.drop_last();
        assert(r == rs[rs.len() - 1]);
        let pl = Region { a, b, r };
        assert(pl.ok());
        assert forall|i: int| 0 <= i < f.len() implies (Region { a, b, r: #[trigger] f[i] }).ok() by {
            assert(f[i] == rs[i]);
        }
        let front = lemma_region_groups(a, b, f, r.a_from, r.b_from, context);
        pl.lemma_lines();
        let px = lines_before(a, r.a_from);
        let py = lines_before(b, r.b_from);
        let at = clip(a, r.a_from, r.a_to);
        let bt = clip(b, r.b_from, r.b_to);
        law_unified_applies(at, bt, context, px + 1, py + 1);
        let gs = choose|gs: Seq<Group>|
            {
                &&& unified_text(at, bt, Layout { context: context as int, a_base: px + 1, b_base: py + 1 })
                    == #[trigger] groups_text(gs, px + 1, py + 1)
                &&& forall|k: int| 0 <= k < gs.len() ==> faithful(lines_of(at), lines_of(bt), #[trigger] gs[k])
                &&& forall|k: int| 0 <= k < gs.len() ==> framed(lines_of(at), #[trigger] gs[k], context as int)
                &&& separate(gs)
                &&& patched(lines_of(at), gs, lines_of(at).len() as int) == lines_of(bt)
            };
        let all = front + moved(gs, px, py);
        lemma_moved_text(front, gs, px, py);
        lemma_moved_faithful(pl, gs);
        assert forall|k: int| 0 <= k < all.len() implies faithful(la, lb, #[trigger] all[k]) by {
            if k < front.len() {
                assert(all[k] == front[k]);
            } else {
                assert(all[k] == moved(gs, px, py)[k - front.len()]);
            }
        }
        if front.len() > 0 {
            assert(faithful(la, lb, front[front.len() - 1]));
        }
        let n = pl.al().len() as int;
        assert forall|k: int| 0 <= k < gs.len() implies 0 <= (#[trigger] gs[k]).a_from <= gs[k].a_to <= n by {
            assert(faithful(pl.al(), pl.bl(), gs[k]));
        }
        if gs.len() > 0 {
            assert(gs[gs.len() - 1].a_to <= n);
        }
        lemma_moved_patch(la, pl.al(), front, gs, px, py, n);
        lemma_lines_between(a, r.a_to, x);
        lemma_lines_between(b, r.b_to, y);
        let qx = lines_before(a, r.a_to);
        let qy = lines_before(b, r.b_to);
        lemma_patched_more(la, all, qx, lines_before(a, x));
        assert(lb.take(qy) =~= lb.take(py) + lb.subrange(py, qy));
        assert(lb.take(lines_before(b, y)) =~= lb.take(qy) + lb.subrange(qy, lines_before(b, y)));
        all
    }
}

/// Lines behind all groups stay as they are.
proof fn lemma_patched_more(la: Seq<Seq<u8>>, gs: Seq<Group>, x: int, y: int)
    requires
        0 <= x <= y <= la.len(),
        gs.len() > 0 ==> 0 <= gs.last().a_to <= x,
    ensures
        patched(la, gs, y) == patched(la, gs, x) + la.subrange(x, y),
{
    if gs.len() == 0 {
        assert(la.take(y) =~= la.take(x) + la.subrange(x, y));
    } else {
        let g = gs.last();
        assert(la.subrange(g.a_to, y) =~= la.subrange(g.a_to, x) + la.subrange(x, y));
        assert(patched(la, gs, y) =~= patched(la, gs, x) + la.subrange(x, y));
    }
}

/// The diff that is printed of two documents is made of groups that show exactly the lines they
/// announce, numbered from 1 in the whole documents, and turn the one document into the other.
pub proof fn law_document_diff_applies(st: Store, a: Seq<u8>, b: Seq<u8>, context: nat)
    requires
        sound(st),
        st.nodes.contains_key(a),
        st.nodes.contains_key(b),
    ensures
        exists|gs: Seq<Group>|
            {
                &&& all_unified(doc(st, a), doc(st, b), regions_between(st, a, b), context as int) == #[trigger] groups_text(
                    gs,
                    1,
                    1,
                )
                &&& forall|k: int| 0 <= k < gs.len() ==> faithful(lines_of(doc(st, a)), lines_of(doc(st, b)), #[trigger] gs[k])
                &&& patched(lines_of(doc(st, a)), gs, lines_of(doc(st, a)).len() as int) == lines_of(doc(st, b))
            },
{
    let ta = doc(st, a);
    let tb = doc(st, b);
    law_runs_turn(st, a, b);
    law_regions_turn(st, a, b);
    let x = ta.len() as int;
    let y = tb.len() as int;
    lemma_whole_lines(ta, tb, runs_between(st, a, b), x, y);
    let gs = lemma_region_groups(ta, tb, regions_between(st, a, b), x, y, context);
    assert(ta.take(x) =~= ta);
    assert(tb.take(y) =~= tb);
    let lb = lines_of(tb);
    assert(lb.take(lb.len() as int) =~= lb);
    assert(all_unified(ta, tb, regions_between(st, a, b), context as int) == groups_text(gs, 1, 1));
}

/// What a line is printed as ends the line it stands on, and tells the line's text and whether it
/// ended in a newline, where the text has no newline before its end.
#[verifier::rlimit(60)]
pub proof fn law_rendered_line(x: Seq<u8>, y: Seq<u8>)
    requires
        forall|k: int|
            0 <= k < crate::text::utf8_lossy(x).len() - 1 ==> #[trigger] crate::text::utf8_lossy(x)[k] != '\n',
        forall|k: int|
            0 <= k < crate::text::utf8_lossy(y).len() - 1 ==> #[trigger] crate::text::utf8_lossy(y)[k] != '\n',
    ensures
        rendered(x).len() > 0,
        rendered(x).last() == '\n',
        rendered(x) == rendered(y) ==> crate::text::utf8_lossy(x) == crate::text::utf8_lossy(y),
        crate::text::utf8_lossy(x).len() <= rendered(x).len(),
        rendered(x).take(crate::text::utf8_lossy(x).len() as int) == crate::text::utf8_lossy(x),
        rendered(x).len() == crate::text::utf8_lossy(x).len() <==> crate::text::utf8_lossy(x).len() > 0
            && crate::text::utf8_lossy(x).last() == '\n',
        rendered(x).len() != crate::text::utf8_lossy(x).len() ==> rendered(x) == crate::text::utf8_lossy(x)
            + "\n\\ No newline at end of file\n"@,
{
    reveal_strlit("\n\\ No newline at end of file\n");
    let s = crate::text::utf8_lossy(x);
    let t = crate::text::utf8_lossy(y);
    let tail = "\n\\ No newline at end of file\n"@;
    let (rx, ry) = (rendered(x), rendered(y));
    assert(rx.take(s.len() as int) =~= s);
    assert(ry.take(t.len() as int) =~= t);
    if rx == ry {
        let whole_s = s.len() > 0 && s.last() == '\n';
        let whole_t = t.len() > 0 && t.last() == '\n';
        if whole_s && !whole_t {
            assert(s == t + tail);
            assert(s[t.len() as int] == '\n');
        } else if whole_t && !whole_s {
            assert(t == s + tail);
            assert(t[s.len() as int] == '\n');
        } else if !whole_s && !whole_t {
            assert(s.len() == t.len());
        }
    }
}

} // verus!
