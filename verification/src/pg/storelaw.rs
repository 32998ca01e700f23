//! What replacements, line ranges and reverts do to a document.

use vstd::prelude::*;
use vstd::string::*;
use crate::chunker::joined;
use crate::linelaw::{aligned, lemma_count_lines, lemma_lines_between, lines_before};
use crate::lines::{lemma_lines, lines_of};
use crate::patch::{forward, EditView};
use crate::pg::bulk::{bytes_at, places, substituted};
use crate::pg::changes::{folded, place_of, version_in, writes, Change, Item};
use crate::pg::ranges::{replacing, Lines};
use crate::pg::revert::{span_of, undone, written_later, NodeAt, Step};
use crate::tree::starts_line;

verus! {

/// Place `j` is in one of some spans of `n` bytes.
pub open spec fn covered(ps: Seq<int>, n: int, j: int) -> bool {
    exists|k: int| 0 <= k < ps.len() && (#[trigger] ps[k]) <= j < ps[k] + n
}

/// Occurrences of a text from place `i` on that do not overlap, in order, with which each occurrence
/// overlaps.
pub open spec fn occurrences(text: Seq<u8>, pat: Seq<u8>, i: int, ps: Seq<int>) -> bool {
    &&& forall|k: int| 0 <= k < ps.len() ==> i <= #[trigger] ps[k] && bytes_at(text, pat, ps[k])
    &&& forall|x: int, y: int| 0 <= x < y < ps.len() ==> #[trigger] ps[x] + pat.len() <= #[trigger] ps[y]
    &&& forall|j: int| #[trigger] covered(ps, pat.len() as int, j) || j < i || !bytes_at(text, pat, j)
}

/// The places at which a text is replaced are occurrences of it that do not overlap, in order, and
/// each occurrence overlaps one of them.
pub proof fn law_places_are_occurrences(text: Seq<u8>, pat: Seq<u8>, i: int)
    requires
        pat.len() > 0,
        0 <= i,
    ensures
        occurrences(text, pat, i, places(text, pat, i)),
    decreases text.len() - i,
{
    let ps = places(text, pat, i);
    let n = pat.len() as int;
    if i + n <= text.len() {
        if bytes_at(text, pat, i) {
            law_places_are_occurrences(text, pat, i + n);
            lemma_one_more_place(text, pat, i, places(text, pat, i + n));
        } else {
            law_places_are_occurrences(text, pat, i + 1);
            assert forall|j: int| #[trigger] covered(ps, n, j) || j < i || !bytes_at(text, pat, j) by {}
        }
    }
}

proof fn lemma_one_more_place(text: Seq<u8>, pat: Seq<u8>, i: int, rest: Seq<int>)
    requires
        pat.len() > 0,
        0 <= i,
        bytes_at(text, pat, i),
        occurrences(text, pat, i + pat.len(), rest),
    ensures
        occurrences(text, pat, i, seq![i] + rest),
{
    let n = pat.len() as int;
    let ps = seq![i] + rest;
    assert forall|k: int| 0 <= k < ps.len() implies i <= #[trigger] ps[k] && bytes_at(text, pat, ps[k]) by {
        if k > 0 {
            assert(ps[k] == rest[k - 1]);
        }
    }
    assert forall|x: int, y: int| 0 <= x < y < ps.len() implies #[trigger] ps[x] + n <= #[trigger] ps[y] by {
        assert(ps[y] == rest[y - 1]);
        if x > 0 {
            assert(ps[x] == rest[x - 1]);
        }
    }
    assert forall|j: int| #[trigger] covered(ps, n, j) || j < i || !bytes_at(text, pat, j) by {
        if i <= j < i + n {
            assert(ps[0] == i);
        } else if i + n <= j && bytes_at(text, pat, j) {
            assert(covered(rest, n, j));
            let k = choose|k: int| 0 <= k < rest.len() && (#[trigger] rest[k]) <= j < rest[k] + n;
            assert(ps[k + 1] == rest[k]);
        }
    }
}

/// The edits that put `new` at some places.
pub open spec fn edits_at(ps: Seq<int>, n: int, new: Seq<u8>) -> Seq<EditView> {
    Seq::new(ps.len(), |k: int| EditView { from: ps[k], to: ps[k] + n, text: new })
}

/// Edits from a place on, read forward.
spec fn from_place(text: Seq<u8>, es: Seq<EditView>, i: int) -> Seq<u8>
    decreases es.len(),
{
    if es.len() == 0 {
        text.skip(i)
    } else {
        text.subrange(i, es[0].from) + es[0].text + from_place(text, es.skip(1), es[0].to)
    }
}

proof fn lemma_from_place(text: Seq<u8>, pat: Seq<u8>, new: Seq<u8>, i: int)
    requires
        pat.len() > 0,
        0 <= i <= text.len(),
    ensures
        substituted(text, pat, new, i) == from_place(text, edits_at(places(text, pat, i), pat.len() as int, new), i),
    decreases text.len() - i,
{
    let n = pat.len() as int;
    let ps = places(text, pat, i);
    let es = edits_at(ps, n, new);
    if i + n > text.len() {
        assert(es.len() == 0);
    } else if bytes_at(text, pat, i) {
        lemma_from_place(text, pat, new, i + n);
        let rest = places(text, pat, i + n);
        assert(es[0] == (EditView { from: i, to: i + n, text: new }));
        assert(es.skip(1) =~= edits_at(rest, n, new));
        assert(text.subrange(i, i) + new =~= new);
    } else {
        lemma_from_place(text, pat, new, i + 1);
        law_places_are_occurrences(text, pat, i + 1);
        if es.len() == 0 {
            assert(seq![text[i]] + text.skip(i + 1) =~= text.skip(i));
        } else {
            let e = es[0];
            assert(e.from == ps[0]);
            assert(i + 1 <= ps[0]);
            assert(seq![text[i]] + text.subrange(i + 1, e.from) =~= text.subrange(i, e.from));
            let tail = from_place(text, es.skip(1), e.to);
            assert(seq![text[i]] + (text.subrange(i + 1, e.from) + e.text + tail) =~= seq![text[i]] + text.subrange(
                i + 1,
                e.from,
            ) + e.text + tail);
        }
    }
}

/// Reading edits from the front or from the back is the same.
proof fn lemma_forward_from(text: Seq<u8>, es: Seq<EditView>, i: int)
    requires
        0 <= i <= text.len(),
        forall|k: int| 0 <= k < es.len() ==> i <= (#[trigger] es[k]).from <= es[k].to <= text.len(),
        forall|x: int, y: int| 0 <= x < y < es.len() ==> (#[trigger] es[x]).to <= (#[trigger] es[y]).from,
    ensures
        text.take(i) + from_place(text, es, i) == forward(text, es, text.len() as int),
    decreases es.len(),
{
    let n = text.len() as int;
    if es.len() == 0 {
        assert(text.take(i) + text.skip(i) =~= text.take(n));
    } else {
        let e = es[0];
        let rest = es.skip(1);
        assert forall|k: int| 0 <= k < rest.len() implies e.to <= (#[trigger] rest[k]).from <= rest[k].to <= n by {
            assert(rest[k] == es[k + 1]);
        }
        assert forall|x: int, y: int| 0 <= x < y < rest.len() implies (#[trigger] rest[x]).to <= (#[trigger] rest[y]).from by {
            assert(rest[x] == es[x + 1] && rest[y] == es[y + 1]);
        }
        lemma_forward_from(text, rest, e.to);
        lemma_forward_first(text, es, n);
        let tail = from_place(text, rest, e.to);
        assert(forward(text, rest, n) == text.take(e.to) + tail);
        assert((text.take(e.to) + tail).skip(e.to) =~= tail);
        assert(text.take(i) + (text.subrange(i, e.from) + e.text + tail) =~= text.take(e.from) + e.text + tail);
    }
}

/// The first edit is made in front of the others.
proof fn lemma_forward_first(text: Seq<u8>, es: Seq<EditView>, upto: int)
    requires
        es.len() > 0,
        0 <= es[0].from <= es[0].to,
        upto <= text.len(),
        forall|k: int| 0 <= k < es.len() ==> (#[trigger] es[k]).from <= es[k].to <= upto,
        forall|x: int, y: int| 0 <= x < y < es.len() ==> (#[trigger] es[x]).to <= (#[trigger] es[y]).from,
    ensures
        ({
            let rest = forward(text, es.skip(1), upto);
            &&& es[0].to <= rest.len()
            &&& rest.take(es[0].to) == text.take(es[0].to)
            &&& forward(text, es, upto) == text.take(es[0].from) + es[0].text + rest.skip(es[0].to)
        }),
    decreases es.len(),
{
    let a = es[0];
    let tail = es.skip(1);
    if es.len() == 1 {
        reveal_with_fuel(forward, 2);
        assert(es.drop_last() =~= Seq::empty());
        assert(tail =~= Seq::empty());
        assert(text.take(upto).skip(a.to) =~= text.subrange(a.to, upto));
        assert(text.take(upto).take(a.to) =~= text.take(a.to));
    } else {
        let z = es.last();
        let front = es.drop_last();
        assert(es[es.len() - 1] == z);
        assert(front[0] == a);
        assert forall|k: int| 0 <= k < front.len() implies (#[trigger] front[k]).from <= front[k].to <= z.from by {
            assert(front[k] == es[k]);
        }
        assert forall|x: int, y: int| 0 <= x < y < front.len() implies (#[trigger] front[x]).to <= (#[trigger] front[y]).from by {
            assert(front[x] == es[x] && front[y] == es[y]);
        }
        lemma_forward_first(text, front, z.from);
        assert(tail.last() == z);
        assert(tail.drop_last() =~= front.skip(1));
        let r = forward(text, front.skip(1), z.from);
        let whole = r + z.text + text.subrange(z.to, upto);
        assert(forward(text, tail, upto) == whole);
        assert(whole.take(a.to) =~= r.take(a.to));
        assert(whole.skip(a.to) =~= r.skip(a.to) + z.text + text.subrange(z.to, upto));
        let head = text.take(a.from) + a.text;
        assert(head + r.skip(a.to) + z.text + text.subrange(z.to, upto) =~= head + (r.skip(a.to) + z.text + text.subrange(
            z.to,
            upto,
        )));
    }
}

/// Replacing a text puts the new one in place of each occurrence that is counted, and leaves all
/// else as it was.
pub proof fn law_replacement_replaces_places(text: Seq<u8>, pat: Seq<u8>, new: Seq<u8>)
    requires
        pat.len() > 0,
    ensures
        substituted(text, pat, new, 0) == forward(
            text,
            edits_at(places(text, pat, 0), pat.len() as int, new),
            text.len() as int,
        ),
{
    let n = pat.len() as int;
    let ps = places(text, pat, 0);
    let es = edits_at(ps, n, new);
    law_places_are_occurrences(text, pat, 0);
    lemma_from_place(text, pat, new, 0);
    assert forall|k: int| 0 <= k < es.len() implies 0 <= (#[trigger] es[k]).from <= es[k].to <= text.len() by {
        assert(bytes_at(text, pat, ps[k]));
    }
    assert forall|x: int, y: int| 0 <= x < y < es.len() implies (#[trigger] es[x]).to <= (#[trigger] es[y]).from by {
        assert(ps[x] + n <= ps[y]);
    }
    lemma_forward_from(text, es, 0);
    assert(text.take(0) + from_place(text, es, 0) =~= from_place(text, es, 0));
}

/// A line starts behind the lines before it.
proof fn lemma_line_split(t: Seq<u8>, line: int, o: int)
    requires
        starts_line(t, line, o),
    ensures
        0 <= line <= lines_of(t).len(),
        t.take(o) == joined(lines_of(t).take(line)),
        t.skip(o) == joined(lines_of(t).skip(line)),
{
    let ls = lines_of(t);
    let h = t.take(o);
    assert(o > 0 ==> h.last() == 10);
    lemma_count_lines(h);
    assert(aligned(t, o));
    assert(aligned(t, 0));
    assert(aligned(t, t.len() as int));
    lemma_lines_between(t, 0, o);
    lemma_lines_between(t, o, t.len() as int);
    assert(t.take(0) =~= Seq::empty());
    assert(t.subrange(0, o) =~= h);
    assert(t.take(t.len() as int) =~= t);
    assert(t.subrange(o, t.len() as int) =~= t.skip(o));
    assert(lines_before(t, o) == line);
    assert(ls.take(line) =~= ls.subrange(0, line));
    assert(ls.skip(line) =~= ls.subrange(line, ls.len() as int));
    lemma_lines(h);
    lemma_lines(t.skip(o));
}

/// Replacing lines `from` to `to` of a text, counted from one, leaves the lines before and behind
/// them as they were, and puts the new text between them; with `to` before `from` nothing is taken
/// away.
pub proof fn law_range_replaces_lines(t: Seq<u8>, r: Lines, a: int, b: int)
    requires
        1 <= r.from <= r.to + 1,
        starts_line(t, r.from - 1, a),
        starts_line(t, r.to as int, b),
    ensures
        ({
            let e = replacing(t, r, Some(a), Some(b));
            let ls = lines_of(t);
            forward(t, seq![e], t.len() as int) == joined(ls.take(r.from - 1)) + r.text + joined(ls.skip(r.to as int))
        }),
{
    let e = replacing(t, r, Some(a), Some(b));
    lemma_line_split(t, r.from - 1, a);
    lemma_line_split(t, r.to as int, b);
    if r.to < r.from {
        crate::tree::law_line_start_unique(t, r.to as int, a, b);
    }
    let one = seq![e];
    assert(one.last() == e);
    assert(one.drop_last() =~= Seq::empty());
    reveal_with_fuel(forward, 2);
    assert(t.subrange(e.to, t.len() as int) =~= t.skip(e.to));
}

/// The span of a batch is from the least to the greatest version of a file that it wrote; there is
/// none exactly if it wrote none.
pub proof fn law_span_holds_versions(cs: Seq<Change>, n: int, id: i64)
    requires
        0 <= n <= cs.len(),
    ensures
        span_of(cs, n, id) is None <==> forall|i: int| 0 <= i < n && writes(#[trigger] cs[i]) ==> cs[i].node_id != id,
        span_of(cs, n, id) matches Some(p) ==> {
            &&& forall|i: int|
                0 <= i < n && writes(#[trigger] cs[i]) && cs[i].node_id == id ==> p.0 <= version_in(cs[i]) <= p.1
            &&& exists|i: int| 0 <= i < n && writes(#[trigger] cs[i]) && cs[i].node_id == id && version_in(cs[i]) == p.0
            &&& exists|i: int| 0 <= i < n && writes(#[trigger] cs[i]) && cs[i].node_id == id && version_in(cs[i]) == p.1
        },
    decreases n,
{
    if n > 0 {
        law_span_holds_versions(cs, n - 1, id);
        let c = cs[n - 1];
        if writes(c) && c.node_id == id {
            let p = span_of(cs, n, id)->0;
            if p.0 == version_in(c) {
                assert(writes(cs[n - 1]) && version_in(cs[n - 1]) == p.0);
            } else {
                let i = choose|i: int|
                    0 <= i < n - 1 && writes(#[trigger] cs[i]) && cs[i].node_id == id && version_in(cs[i]) == p.0;
                assert(writes(cs[i]) && version_in(cs[i]) == p.0);
            }
            if p.1 == version_in(c) {
                assert(writes(cs[n - 1]) && version_in(cs[n - 1]) == p.1);
            } else {
                let i = choose|i: int|
                    0 <= i < n - 1 && writes(#[trigger] cs[i]) && cs[i].node_id == id && version_in(cs[i]) == p.1;
                assert(writes(cs[i]) && version_in(cs[i]) == p.1);
            }
        } else if span_of(cs, n, id) is Some {
            let p = span_of(cs, n, id)->0;
            let i = choose|i: int|
                0 <= i < n - 1 && writes(#[trigger] cs[i]) && cs[i].node_id == id && version_in(cs[i]) == p.0;
            assert(writes(cs[i]) && version_in(cs[i]) == p.0);
            let j = choose|j: int|
                0 <= j < n - 1 && writes(#[trigger] cs[j]) && cs[j].node_id == id && version_in(cs[j]) == p.1;
            assert(writes(cs[j]) && version_in(cs[j]) == p.1);
        }
    }
}

/// The operations are told apart.
proof fn lemma_ops_differ()
    ensures
        "move"@ != "delete"@,
        "create"@ != "move"@,
        "commit"@ != "move"@,
        "create"@ != "delete"@,
        "commit"@ != "delete"@,
{
    reveal_strlit("move");
    reveal_strlit("delete");
    reveal_strlit("create");
    reveal_strlit("commit");
    assert("create"@[0] == 'c');
    assert("commit"@[0] == 'c');
    assert("move"@[0] == 'm');
    assert("delete"@[0] == 'd');
}

/// A revert takes a file back to the version just before the batch's first, or away if the batch had
/// made it, and only where the file is live and still at the last version that the batch wrote.
pub proof fn law_revert_restores_before_batch(cs: Seq<Change>, i: int, n: NodeAt, taken: bool)
    requires
        0 <= i < cs.len(),
        writes(cs[i]),
        !written_later(cs, i),
        !n.deleted,
    ensures
        span_of(cs, cs.len() as int, cs[i].node_id) matches Some(p) && (match undone(cs, i, Some(n), taken) {
            Step::Restore { path, version } => path == n.path && version + 1 == p.0 && p.0 > 1 && n.version == p.1,
            Step::Remove(path) => path == n.path && p.0 <= 1 && n.version == p.1,
            Step::Skip(_) => n.version != p.1,
            _ => false,
        }),
{
    lemma_ops_differ();
    law_span_holds_versions(cs, cs.len() as int, cs[i].node_id);
}

/// A move is undone by moving the node back where it came from, only if it is live and still where it
/// was moved to and nothing is there.
pub proof fn law_revert_moves_back(cs: Seq<Change>, i: int, node: Option<NodeAt>, taken: bool, old: Seq<char>)
    requires
        0 <= i < cs.len(),
        cs[i].op == "move"@,
        cs[i].old_path == Some(old),
    ensures
        undone(cs, i, node, taken) is Move <==> (node matches Some(n) && !n.deleted && n.path == cs[i].path && !taken),
        undone(cs, i, node, taken) matches Step::Move { from, to } ==> from == cs[i].path && to == old,
{
}

/// Change `f` is the first of the feed to write a file.
pub open spec fn first_write(cs: Seq<Change>, f: int, id: i64) -> bool {
    &&& 0 <= f < cs.len() && writes(cs[f]) && cs[f].node_id == id
    &&& forall|j: int| 0 <= j < f && writes(#[trigger] cs[j]) ==> cs[j].node_id != id
}

/// Change `l` is the last of the first `n` to write a file.
pub open spec fn last_write(cs: Seq<Change>, n: int, l: int, id: i64) -> bool {
    &&& 0 <= l < n <= cs.len() && writes(cs[l]) && cs[l].node_id == id
    &&& forall|j: int| l < j < n && writes(#[trigger] cs[j]) ==> cs[j].node_id != id
}

/// An item tells all that the first `n` changes wrote to a file: from the version before the first to
/// the last.
pub open spec fn tells_writes(cs: Seq<Change>, n: int, id: i64, it: Item) -> bool {
    exists|f: int, l: int| #[trigger]
        first_write(cs, f, id) && #[trigger] last_write(cs, n, l, id) && it.path == cs[f].path && it.from_version == Some(
            version_in(cs[f]) - 1,
        ) && it.to_version == Some(version_in(cs[l]))
}

/// Each file has one item, which tells its writes.
pub open spec fn each_file_told(cs: Seq<Change>, n: int, items: Seq<Item>, files: Seq<(i64, usize)>) -> bool {
    &&& forall|k: int|
        0 <= k < files.len() ==> (#[trigger] files[k]).1 < items.len() && tells_writes(
            cs,
            n,
            files[k].0,
            items[files[k].1 as int],
        )
    &&& forall|x: int, y: int|
        0 <= x < y < files.len() ==> (#[trigger] files[x]).0 != (#[trigger] files[y]).0 && files[x].1 != files[y].1
    &&& forall|i: int| 0 <= i < n && writes(#[trigger] cs[i]) ==> place_of(files, cs[i].node_id) < files.len()
}

proof fn lemma_place(files: Seq<(i64, usize)>, id: i64)
    ensures
        0 <= place_of(files, id) <= files.len(),
        place_of(files, id) < files.len() ==> files[place_of(files, id)].0 == id,
        place_of(files, id) == files.len() ==> forall|k: int| 0 <= k < files.len() ==> (#[trigger] files[k]).0 != id,
    decreases files.len(),
{
    if files.len() > 0 && files[0].0 != id {
        let rest = files.skip(1);
        lemma_place(rest, id);
        if place_of(files, id) == files.len() {
            assert forall|k: int| 0 <= k < files.len() implies (#[trigger] files[k]).0 != id by {
                if k > 0 {
                    assert(rest[k - 1] == files[k]);
                }
            }
        }
    }
}

/// A file that has a place keeps one.
proof fn lemma_place_kept(files: Seq<(i64, usize)>, more: (i64, usize), id: i64)
    ensures
        place_of(files, id) < files.len() ==> place_of(files.push(more), id) < files.len(),
        more.0 == id ==> place_of(files.push(more), id) < files.len() + 1,
{
    lemma_place(files, id);
    let all = files.push(more);
    lemma_place(all, id);
    if more.0 == id {
        assert(all[files.len() as int].0 == id);
    }
    if place_of(files, id) < files.len() {
        lemma_place_front(files, more, id);
    }
}

proof fn lemma_place_front(files: Seq<(i64, usize)>, more: (i64, usize), id: i64)
    requires
        place_of(files, id) < files.len(),
    ensures
        place_of(files.push(more), id) == place_of(files, id),
    decreases files.len(),
{
    let all = files.push(more);
    assert(all[0] == files[0]);
    if files[0].0 != id {
        assert(all.skip(1) =~= files.skip(1).push(more));
        lemma_place_front(files.skip(1), more, id);
    }
}

/// What was told of a file stays true when a change does not write it.
proof fn lemma_still_told(cs: Seq<Change>, n: int, id: i64, it: Item)
    requires
        0 < n <= cs.len(),
        tells_writes(cs, n - 1, id, it),
        !(writes(cs[n - 1]) && cs[n - 1].node_id == id),
    ensures
        tells_writes(cs, n, id, it),
{
    let (f, l) = choose|f: int, l: int| #[trigger]
        first_write(cs, f, id) && #[trigger] last_write(cs, n - 1, l, id) && it.path == cs[f].path && it.from_version == Some(
            version_in(cs[f]) - 1,
        ) && it.to_version == Some(version_in(cs[l]));
    assert(last_write(cs, n, l, id)) by {
        assert forall|j: int| l < j < n && writes(#[trigger] cs[j]) implies cs[j].node_id != id by {}
    }
}

/// The changes of a feed are told with one item for each file that was written: at the path of its first
/// write, from the version before that to the last.
#[verifier::rlimit(60)]
pub proof fn law_writes_are_told_once(cs: Seq<Change>, n: int)
    requires
        0 <= n <= cs.len(),
        cs.len() <= usize::MAX,
    ensures
        each_file_told(cs, n, folded(cs, n).0, folded(cs, n).1),
        folded(cs, n).0.len() <= n,
    decreases n,
{
    if n > 0 {
        law_writes_are_told_once(cs, n - 1);
        let (items, files) = folded(cs, n - 1);
        let (out, all) = folded(cs, n);
        let c = cs[n - 1];
        let id = c.node_id;
        lemma_place(files, id);
        let k = place_of(files, id);
        if writes(c) {
            if k < files.len() {
                let at = files[k].1 as int;
                assert(all == files);
                assert(tells_writes(cs, n - 1, id, items[at]));
                let (f, l) = choose|f: int, l: int| #[trigger]
                    first_write(cs, f, id) && #[trigger] last_write(cs, n - 1, l, id) && items[at].path == cs[f].path
                        && items[at].from_version == Some(version_in(cs[f]) - 1) && items[at].to_version == Some(
                        version_in(cs[l]),
                    );
                assert(last_write(cs, n, n - 1, id));
                assert(tells_writes(cs, n, id, out[at]));
                assert forall|x: int| 0 <= x < all.len() implies (#[trigger] all[x]).1 < out.len() && tells_writes(
                    cs,
                    n,
                    all[x].0,
                    out[all[x].1 as int],
                ) by {
                    if x != k {
                        if x < k {
                            assert(files[x].0 != files[k].0 && files[x].1 != files[k].1);
                        } else {
                            assert(files[k].0 != files[x].0 && files[k].1 != files[x].1);
                        }
                        lemma_still_told(cs, n, files[x].0, items[files[x].1 as int]);
                    }
                }
            } else {
                let one = (id, items.len() as usize);
                assert(all == files.push(one));
                assert(forall|j: int| 0 <= j < n - 1 && writes(#[trigger] cs[j]) ==> cs[j].node_id != id);
                assert(first_write(cs, n - 1, id));
                assert(last_write(cs, n, n - 1, id));
                assert(tells_writes(cs, n, id, out[items.len() as int]));
                assert forall|x: int| 0 <= x < all.len() implies (#[trigger] all[x]).1 < out.len() && tells_writes(
                    cs,
                    n,
                    all[x].0,
                    out[all[x].1 as int],
                ) by {
                    if x < files.len() {
                        assert(all[x] == files[x]);
                        lemma_still_told(cs, n, files[x].0, items[files[x].1 as int]);
                    }
                }
                assert forall|i: int| 0 <= i < n && writes(#[trigger] cs[i]) implies place_of(all, cs[i].node_id) < all.len() by {
                    lemma_place_kept(files, one, cs[i].node_id);
                }
            }
        } else {
            assert(all == files);
            assert forall|x: int| 0 <= x < all.len() implies (#[trigger] all[x]).1 < out.len() && tells_writes(
                cs,
                n,
                all[x].0,
                out[all[x].1 as int],
            ) by {
                lemma_still_told(cs, n, files[x].0, items[files[x].1 as int]);
            }
        }
    }
}

} // verus!
