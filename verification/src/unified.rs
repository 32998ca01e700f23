//! Line diffs printed in the unified format.

use vstd::prelude::*;
use vstd::string::*;
use crate::lines::{lines_of, slice_views, split_lines};
use crate::myers::{corner, hunk_views, lemma_text_hunks, lemma_turns_fit, line_diff, text_hunks, Hunk, HunkView};
use crate::text::{chars_of, dec, decimal, lossy_text, utf8_lossy};

verus! {

/// A line as it is printed.
pub open spec fn rendered(line: Seq<u8>) -> Seq<char> {
    let s = utf8_lossy(line);
    if s.len() > 0 && s.last() == '\n' {
        s
    } else {
        s + "\n\\ No newline at end of file\n"@
    }
}

/// Some lines, each behind its mark.
pub open spec fn marked(mark: char, lines: Seq<Seq<u8>>) -> Seq<char>
    decreases lines.len(),
{
    if lines.len() == 0 {
        Seq::empty()
    } else {
        marked(mark, lines.drop_last()) + seq![mark] + rendered(lines.last())
    }
}

/// Does hunk `i` begin a group, its context apart from that of the hunk before?
pub open spec fn opens(hs: Seq<HunkView>, context: int, i: int) -> bool {
    i == 0 || hs[i].a_from > hs[i - 1].a_to + 2 * context
}

/// The last hunk of the group that hunk `i` is in.
pub open spec fn group_last(hs: Seq<HunkView>, context: int, i: int) -> int
    decreases hs.len() - i,
{
    if i + 1 >= hs.len() || opens(hs, context, i + 1) {
        i
    } else {
        group_last(hs, context, i + 1)
    }
}

/// Where the context before a hunk begins.
pub open spec fn context_from(at: int, context: int) -> int {
    if at <= context {
        0
    } else {
        at - context
    }
}

/// Where the context behind a hunk ends.
pub open spec fn context_to(at: int, context: int, len: int) -> int {
    if at + context >= len {
        len
    } else {
        at + context
    }
}

/// Which lines a group covers, their number counted from the given bases.
pub struct Layout {
    pub context: int,
    pub a_base: int,
    pub b_base: int,
}

/// The line that announces the group of hunks `i` to `j`.
pub open spec fn header(al: Seq<Seq<u8>>, bl: Seq<Seq<u8>>, hs: Seq<HunkView>, l: Layout, i: int, j: int) -> Seq<char> {
    let a_start = context_from(hs[i].a_from, l.context);
    let a_end = context_to(hs[j].a_to, l.context, al.len() as int);
    let b_start = context_from(hs[i].b_from, l.context);
    let b_end = context_to(hs[j].b_to, l.context, bl.len() as int);
    "@@ -"@ + dec((a_start + l.a_base) as nat) + ","@ + dec((a_end - a_start) as nat) + " +"@ + dec(
        (b_start + l.b_base) as nat,
    ) + ","@ + dec((b_end - b_start) as nat) + " @@\n"@
}

/// What stands before the changes of hunk `i`.
pub open spec fn lead_in(al: Seq<Seq<u8>>, bl: Seq<Seq<u8>>, hs: Seq<HunkView>, l: Layout, i: int) -> Seq<char> {
    let h = hs[i];
    if opens(hs, l.context, i) {
        header(al, bl, hs, l, i, group_last(hs, l.context, i)) + marked(
            ' ',
            al.subrange(context_from(h.a_from, l.context), h.a_from),
        )
    } else {
        marked(' ', al.subrange(hs[i - 1].a_to, h.a_from))
    }
}

/// The deleted and the inserted lines of hunk `i`.
pub open spec fn changes(al: Seq<Seq<u8>>, bl: Seq<Seq<u8>>, h: HunkView) -> Seq<char> {
    marked('-', al.subrange(h.a_from, h.a_to)) + marked('+', bl.subrange(h.b_from, h.b_to))
}

/// What stands behind the changes of hunk `i`: the context, when it ends its group.
pub open spec fn lead_out(al: Seq<Seq<u8>>, hs: Seq<HunkView>, context: int, i: int) -> Seq<char> {
    if i + 1 >= hs.len() || opens(hs, context, i + 1) {
        marked(' ', al.subrange(hs[i].a_to, context_to(hs[i].a_to, context, al.len() as int)))
    } else {
        Seq::empty()
    }
}

/// The first `n` hunks, printed.
pub open spec fn printed(al: Seq<Seq<u8>>, bl: Seq<Seq<u8>>, hs: Seq<HunkView>, l: Layout, n: int) -> Seq<char>
    decreases n,
{
    if n <= 0 {
        Seq::empty()
    } else {
        printed(al, bl, hs, l, n - 1) + lead_in(al, bl, hs, l, n - 1) + changes(al, bl, hs[n - 1]) + lead_out(
            al,
            hs,
            l.context,
            n - 1,
        )
    }
}

/// The unified diff that turns `a` into `b`.
pub open spec fn unified_text(a: Seq<u8>, b: Seq<u8>, l: Layout) -> Seq<char> {
    let hs = text_hunks(a, b);
    printed(lines_of(a), lines_of(b), hs, l, hs.len() as int)
}

/// Appends `lines[from..to]`, each behind `mark`.
fn push_marked<'a>(out: &mut String, mark: char, lines: &Vec<&'a [u8]>, from: usize, to: usize)
    requires
        from <= to <= lines@.len(),
    ensures
        final(out)@ == old(out)@ + marked(mark, slice_views(lines@).subrange(from as int, to as int)),
{
    let ghost ls = slice_views(lines@);
    let ghost start = out@;
    let mut i: usize = from;
    assert(ls.subrange(from as int, i as int) =~= Seq::empty());
    assert(out@ =~= start + marked(mark, ls.subrange(from as int, i as int)));
    while i < to
        invariant
            from <= i <= to <= lines@.len(),
            ls == slice_views(lines@),
            out@ == start + marked(mark, ls.subrange(from as int, i as int)),
        decreases to - i,
    {
        let s = lossy_text(lines[i]);
        let cs = chars_of(s.as_str());
        out.push(mark);
        out.append(s.as_str());
        if cs.len() == 0 || cs[cs.len() - 1] != '\n' {
            out.append("\n\\ No newline at end of file\n");
        }
        proof {
            let more = ls.subrange(from as int, i + 1);
            assert(more.drop_last() =~= ls.subrange(from as int, i as int));
            assert(more.last() == lines@[i as int]@);
            assert(out@ =~= start + marked(mark, more));
        }
        i += 1;
    }
}

fn push_number(out: &mut String, n: usize)
    ensures
        final(out)@ == old(out)@ + dec(n as nat),
{
    let s = decimal(n as u64);
    out.append(s.as_str());
}

fn begin_context(at: usize, context: usize) -> (r: usize)
    ensures
        r == context_from(at as int, context as int),
{
    if at <= context {
        0
    } else {
        at - context
    }
}

fn end_context(at: usize, context: usize, len: usize) -> (r: usize)
    requires
        at <= len,
    ensures
        r == context_to(at as int, context as int, len as int),
{
    if len - at <= context {
        len
    } else {
        at + context
    }
}

/// Does the hunk behind one that ended at `end` begin a group of its own?
fn apart(end: usize, next: usize, context: usize) -> (r: bool)
    requires
        end <= next,
    ensures
        r == (next > end + 2 * context),
{
    let gap: usize = next - end;
    gap > context && gap - context > context
}

/// Appends the line that announces a group.
fn push_header(out: &mut String, first: &Hunk, last: &Hunk, lens: (usize, usize), context: usize, bases: (usize, usize))
    requires
        first.a_from <= last.a_to <= lens.0,
        first.b_from <= last.b_to <= lens.1,
        lens.0 + bases.0 <= usize::MAX,
        lens.1 + bases.1 <= usize::MAX,
    ensures
        ({
            let c = context as int;
            let a_start = context_from(first.a_from as int, c);
            let a_end = context_to(last.a_to as int, c, lens.0 as int);
            let b_start = context_from(first.b_from as int, c);
            let b_end = context_to(last.b_to as int, c, lens.1 as int);
            final(out)@ == old(out)@ + ("@@ -"@ + dec((a_start + bases.0) as nat) + ","@ + dec(
                (a_end - a_start) as nat,
            ) + " +"@ + dec((b_start + bases.1) as nat) + ","@ + dec((b_end - b_start) as nat) + " @@\n"@)
        }),
{
    let ghost start = out@;
    let a_start: usize = begin_context(first.a_from, context);
    let a_end: usize = end_context(last.a_to, context, lens.0);
    let b_start: usize = begin_context(first.b_from, context);
    let b_end: usize = end_context(last.b_to, context, lens.1);
    out.append("@@ -");
    push_number(out, a_start + bases.0);
    out.append(",");
    push_number(out, a_end - a_start);
    out.append(" +");
    push_number(out, b_start + bases.1);
    out.append(",");
    push_number(out, b_end - b_start);
    out.append(" @@\n");
    proof {
        let x1 = dec((a_start + bases.0) as nat);
        let x2 = dec((a_end - a_start) as nat);
        let x3 = dec((b_start + bases.1) as nat);
        let x4 = dec((b_end - b_start) as nat);
        assert(out@ =~= start + ("@@ -"@ + x1 + ","@ + x2 + " +"@ + x3 + ","@ + x4 + " @@\n"@));
    }
}

/// The hunk that ends the group of hunk `i`.
fn find_group_last(hunks: &Vec<Hunk>, context: usize, i: usize) -> (r: usize)
    requires
        i < hunks@.len(),
        forall|j: int, k: int| 0 <= j < k < hunks@.len() ==> (#[trigger] hunks@[j]).a_to <= (#[trigger] hunks@[k]).a_from,
    ensures
        i <= r < hunks@.len(),
        r == group_last(hunk_views(hunks@), context as int, i as int),
{
    let mut j: usize = i;
    let ghost hs = hunk_views(hunks@);
    while hunks.len() - 1 > j
        invariant_except_break
            i <= j < hunks@.len(),
            hs == hunk_views(hunks@),
            group_last(hs, context as int, i as int) == group_last(hs, context as int, j as int),
            forall|j: int, k: int|
                0 <= j < k < hunks@.len() ==> (#[trigger] hunks@[j]).a_to <= (#[trigger] hunks@[k]).a_from,
        ensures
            i <= j < hunks@.len(),
            j == group_last(hs, context as int, i as int),
        decreases hunks@.len() - j,
    {
        assert(hs[j + 1] == hunks@[j + 1]@ && hs[j as int] == hunks@[j as int]@);
        if apart(hunks[j].a_to, hunks[j + 1].a_from, context) {
            break;
        }
        j += 1;
    }
    j
}

/// Unified-diff style rendering of the line diff between two texts, with `context` lines
/// around each group of hunks. Lines are numbered from the given bases.
pub fn unified(a: &[u8], b: &[u8], context: usize, a_line_base: usize, b_line_base: usize) -> (out: String)
    requires
        lines_of(a@).len() + a_line_base <= usize::MAX,
        lines_of(b@).len() + b_line_base <= usize::MAX,
    ensures
        out@ == unified_text(
            a@,
            b@,
            (Layout { context: context as int, a_base: a_line_base as int, b_base: b_line_base as int }),
        ),
{
    let al = split_lines(a);
    let bl = split_lines(b);
    let ghost la = lines_of(a@);
    let ghost lb = lines_of(b@);
    let ghost l = Layout { context: context as int, a_base: a_line_base as int, b_base: b_line_base as int };
    let hunks = line_diff(&al, &bl);
    let ghost hs = hunk_views(hunks@);
    proof {
        lemma_text_hunks(a@, b@);
        lemma_turns_fit(la, lb, hs, corner(la, lb));
        assert forall|j: int, k: int| 0 <= j < k < hunks@.len() implies (#[trigger] hunks@[j]).a_to <= (#[trigger] hunks@[k]).a_from
            && hunks@[j].b_to <= hunks@[k].b_from by {
            assert(hs[j] == hunks@[j]@ && hs[k] == hunks@[k]@);
        }
        assert forall|k: int| 0 <= k < hunks@.len() implies (#[trigger] hunks@[k]).a_from <= hunks@[k].a_to <= la.len()
            && hunks@[k].b_from <= hunks@[k].b_to <= lb.len() by {
            assert(hs[k] == hunks@[k]@);
        }
    }
    let mut out = String::new();
    assert(out@ =~= printed(la, lb, hs, l, 0));
    let mut i: usize = 0;
    while i < hunks.len()
        invariant
            i <= hunks@.len(),
            hs == hunk_views(hunks@),
            slice_views(al@) == la,
            slice_views(bl@) == lb,
            la.len() + a_line_base <= usize::MAX,
            lb.len() + b_line_base <= usize::MAX,
            l == (Layout { context: context as int, a_base: a_line_base as int, b_base: b_line_base as int }),
            forall|j: int, k: int|
                0 <= j < k < hunks@.len() ==> (#[trigger] hunks@[j]).a_to <= (#[trigger] hunks@[k]).a_from
                    && hunks@[j].b_to <= hunks@[k].b_from,
            forall|k: int|
                0 <= k < hunks@.len() ==> (#[trigger] hunks@[k]).a_from <= hunks@[k].a_to <= la.len()
                    && hunks@[k].b_from <= hunks@[k].b_to <= lb.len(),
            out@ == printed(la, lb, hs, l, i as int),
        decreases hunks@.len() - i,
    {
        let h: Hunk = hunks[i];
        let ghost before = out@;
        let ghost g = hs[i as int];
        assert(g == h@);
        assert(al@.len() == la.len() && bl@.len() == lb.len());
        assert(forall|k: int| 0 <= k < hs.len() ==> #[trigger] hs[k] == hunks@[k]@);
        let open: bool = i == 0 || apart(hunks[i - 1].a_to, h.a_from, context);
        if open {
            let j: usize = find_group_last(&hunks, context, i);
            let last: Hunk = hunks[j];
            assert(h.b_from <= last.b_to && h.a_from <= last.a_to);
            push_header(&mut out, &h, &last, (al.len(), bl.len()), context, (a_line_base, b_line_base));
            push_marked(&mut out, ' ', &al, begin_context(h.a_from, context), h.a_from);
        } else {
            push_marked(&mut out, ' ', &al, hunks[i - 1].a_to, h.a_from);
        }
        proof {
            assert(out@ =~= before + lead_in(la, lb, hs, l, i as int));
        }
        push_marked(&mut out, '-', &al, h.a_from, h.a_to);
        push_marked(&mut out, '+', &bl, h.b_from, h.b_to);
        proof {
            assert(out@ =~= before + lead_in(la, lb, hs, l, i as int) + changes(la, lb, g));
        }
        let ends: bool = i + 1 == hunks.len() || apart(h.a_to, hunks[i + 1].a_from, context);
        if ends {
            push_marked(&mut out, ' ', &al, h.a_to, end_context(h.a_to, context, al.len()));
        }
        proof {
            assert(out@ =~= printed(la, lb, hs, l, i + 1));
        }
        i += 1;
    }
    out
}

} // verus!
