//! What is read from a wikilink, and which links a move rewrites.

use vstd::prelude::*;
use vstd::string::*;
use vstd::utf8::encode_utf8;
use crate::chars::{find_from, lemma_next_at, next_at, stands_at, trim_white, trim_white_start, white_space};
use crate::md::events::FORM_INLINE;
use crate::md::links::{
    cut_at, dest_places, in_code, last_from, markdown_found, percent_decoded, unless_empty, white_at, wiki_found, wiki_links,
    wiki_target, Found,
};
use crate::md::offsets::{byte_at, lemma_byte_at_order, line_number, place_at};
use crate::md::resolve::{retargeted, Lookup};
use crate::patch::EditView;
use crate::pg::links::{partner, rewriting, Pointer, Source};
use crate::pg::store::lacks;
use crate::text::utf8_lossy;

verus! {

/// Text without white space at its ends.
pub open spec fn tidy(s: Seq<char>) -> bool {
    s.len() > 0 && !white_space(s[0]) && !white_space(s.last())
}

/// The inside of a wikilink: a target, a heading behind `#` and another text to show behind `|`.
pub open spec fn wiki_inside(target: Seq<char>, anchor: Option<Seq<char>>, alias: Option<Seq<char>>) -> Seq<char> {
    target + (match anchor {
        Some(a) => seq!['#'] + a,
        None => Seq::empty(),
    }) + (match alias {
        Some(a) => seq!['|'] + a,
        None => Seq::empty(),
    })
}

/// Parts that can be told apart.
pub open spec fn wiki_writable(target: Seq<char>, anchor: Option<Seq<char>>, alias: Option<Seq<char>>) -> bool {
    &&& tidy(target) && lacks(target, '#') && lacks(target, '|') && target.last() != '\\'
    &&& anchor matches Some(a) ==> tidy(a) && lacks(a, '|') && a.last() != '\\'
    &&& alias matches Some(a) ==> tidy(a)
}

proof fn lemma_next_behind(x: Seq<char>, c: char, y: Seq<char>)
    requires
        lacks(x, c),
    ensures
        next_at(x + (seq![c] + y), c, 0) == x.len(),
        next_at(x, c, 0) == x.len(),
{
    let s = x + (seq![c] + y);
    lemma_next_at(s, c, 0);
    lemma_next_at(x, c, 0);
    assert(s[x.len() as int] == c);
    let i = next_at(s, c, 0);
    if i < x.len() {
        assert(s[i] == x[i]);
    }
}

proof fn lemma_tidy(s: Seq<char>)
    requires
        tidy(s),
    ensures
        trim_white(s) == s,
        trim_white_start(s) == s,
{
}

/// A wikilink is read as its parts: the target, which is all that its range covers, the heading and
/// the text to show.
pub proof fn law_wiki_parts(t: Seq<char>, i: int, target: Seq<char>, anchor: Option<Seq<char>>, alias: Option<Seq<char>>)
    requires
        wiki_writable(target, anchor, alias),
        2 <= i,
        stands_at(t, wiki_inside(target, anchor, alias), i),
    ensures
        ({
            let f = wiki_found(t, i, i + wiki_inside(target, anchor, alias).len());
            &&& f.target == target
            &&& f.anchor == anchor
            &&& f.alias == alias
            &&& f.range == Some((byte_at(t, i), byte_at(t, i + target.len())))
            &&& f.kind == if i > 2 && t[i - 3] == '!' {
                "embed"@
            } else {
                "wiki"@
            }
        }),
{
    let inner = wiki_inside(target, anchor, alias);
    let head = target + (match anchor {
        Some(a) => seq!['#'] + a,
        None => Seq::empty(),
    });
    let j = i + inner.len();
    assert(t.subrange(i, j) == inner);
    assert(forall|k: int| 0 <= k < inner.len() ==> #[trigger] t.subrange(i, j)[k] == t[i + k]);
    assert forall|k: int| 0 <= k < head.len() implies head[k] != '|' by {
        if k < target.len() {
            assert(head[k] == target[k]);
        } else if k > target.len() {
            assert(head[k] == anchor->0[k - target.len() - 1]);
        }
    }
    assert(lacks(head, '|'));
    let p = next_at(inner, '|', 0);
    match alias {
        Some(a) => {
            lemma_next_behind(head, '|', a);
            assert(inner =~= head + (seq!['|'] + a));
            assert(inner.skip(p + 1) =~= a);
            lemma_tidy(a);
        },
        None => {
            lemma_next_behind(head, '|', Seq::empty());
            assert(inner =~= head);
        },
    }
    assert(p == head.len());
    let e = i + p;
    assert(t[i + (p - 1)] == inner[p - 1]);
    assert(inner[p - 1] == head[p - 1]);
    assert(head.last() != '\\') by {
        if anchor is Some {
            assert(head.last() == anchor->0.last());
        } else {
            assert(head =~= target);
        }
    }
    let before = t.subrange(i, e);
    assert(before =~= head) by {
        assert forall|k: int| 0 <= k < p implies before[k] == head[k] by {
            assert(t.subrange(i, j)[k] == t[i + k]);
            assert(inner[k] == head[k]);
        }
    }
    let h = next_at(before, '#', 0);
    match anchor {
        Some(a) => {
            lemma_next_behind(target, '#', a);
            assert(before =~= target + (seq!['#'] + a));
            assert(before.skip(h + 1) =~= a);
            lemma_tidy(a);
        },
        None => {
            lemma_next_behind(target, '#', Seq::empty());
            assert(before =~= target);
        },
    }
    assert(h == target.len());
    assert(before.take(h) =~= target);
    lemma_tidy(target);
    let w = wiki_target(t, i, i + p);
    assert(w.from == i && w.to == i + target.len());
    assert(t.subrange(w.from, w.to) =~= target) by {
        assert forall|k: int| 0 <= k < target.len() implies t.subrange(w.from, w.to)[k] == target[k] by {
            assert(before[k] == t[i + k]);
        }
    }
}

proof fn lemma_scan_past(t: Seq<char>, code: Seq<(int, int)>, i: int, n: int)
    requires
        0 <= i <= n,
        n + 2 <= t.len(),
        forall|k: int| i <= k < n ==> t[k] != '[',
    ensures
        wiki_links(t, code, i) == wiki_links(t, code, n),
    decreases n - i,
{
    reveal_strlit("[[");
    if i < n {
        if stands_at(t, "[["@, i) {
            assert(t.subrange(i, i + 2)[0] == t[i]);
        }
        lemma_scan_past(t, code, i + 1, n);
    }
}

proof fn lemma_find_end(t: Seq<char>, i: int, e: int)
    requires
        0 <= i <= e,
        stands_at(t, "]]"@, e),
        forall|k: int| i <= k < e ==> t[k] != ']',
    ensures
        find_from(t, "]]"@, i) == Some(e),
    decreases e - i,
{
    reveal_strlit("]]");
    if i < e {
        if stands_at(t, "]]"@, i) {
            assert(t.subrange(i, i + 2)[0] == t[i]);
        }
        lemma_find_end(t, i + 1, e);
    }
}

/// A wikilink in a text is found, and the search goes on behind it: one that begins outside code,
/// behind text without an opening bracket, and is closed on its line.
pub proof fn law_wiki_link_is_found(t: Seq<char>, code: Seq<(int, int)>, from: int, at: int, inside: Seq<char>)
    requires
        0 <= from <= at,
        forall|k: int| from <= k < at ==> t[k] != '[',
        stands_at(t, "[["@ + inside + "]]"@, at),
        inside.len() > 0,
        lacks(inside, ']'),
        lacks(inside, '\n'),
        !in_code(code, byte_at(t, at)),
    ensures
        wiki_links(t, code, from) == seq![wiki_found(t, at + 2, at + 2 + inside.len())] + wiki_links(
            t,
            code,
            at + inside.len() + 4,
        ),
{
    reveal_strlit("[[");
    reveal_strlit("]]");
    let whole = "[["@ + inside + "]]"@;
    let n = inside.len() as int;
    let all = t.subrange(at, at + whole.len());
    assert(forall|k: int| 0 <= k < whole.len() ==> #[trigger] whole[k] == t[at + k]) by {
        assert(forall|k: int| 0 <= k < whole.len() ==> #[trigger] all[k] == t[at + k]);
    }
    lemma_scan_past(t, code, from, at);
    assert(whole[0] == t[at + 0] && whole[1] == t[at + 1]);
    assert(t.subrange(at, at + 2) =~= "[["@);
    let e = at + 2 + n;
    assert(whole[2 + n] == t[at + (2 + n)] && whole[3 + n] == t[at + (3 + n)]);
    assert(t.subrange(e, e + 2) =~= "]]"@);
    assert forall|k: int| at + 2 <= k < e implies t[k] != ']' by {
        assert(whole[k - at] == t[at + (k - at)]);
        assert(whole[k - at] == inside[k - at - 2]);
    }
    lemma_find_end(t, at + 2, e);
    let got = t.subrange(at + 2, e);
    assert(got =~= inside) by {
        assert forall|k: int| 0 <= k < n implies got[k] == inside[k] by {
            assert(whole[k + 2] == t[at + (k + 2)]);
        }
    }
    assert(!got.contains('\n'));
}

/// The edit `e` writes the link `f` of a document again for the row `j` that stands for it: it
/// replaces exactly the link's target, by what the row's file is called from there.
pub open spec fn rewrites_link<L: Lookup>(l: &L, s: Source, f: Found, j: int, e: EditView) -> bool {
    &&& 0 <= j < s.links.len()
    &&& f.range == Some((e.from, e.to))
    &&& s.links[j].kind == f.kind
    &&& s.links[j].target == f.target
    &&& s.links[j].line == line_number(s.doc, f.offset)
    &&& s.targets[j] matches Some(target) && e.text == encode_utf8(
        retargeted(l, f.kind, utf8_lossy(s.doc.subrange(e.from, e.to)), f.angle, s.path, target),
    )
}

/// Row `id` is written again by edit `e`.
pub open spec fn rewritten_by<L: Lookup>(l: &L, s: Source, found: Seq<Found>, id: i64, e: EditView) -> bool {
    exists|x: int, j: int| 0 <= x < found.len() && #[trigger] rewrites_link(l, s, found[x], j, e) && s.links[j].id == id
}

/// No id occurs twice.
pub open spec fn no_id_twice(ids: Seq<i64>) -> bool {
    forall|x: int, y: int| 0 <= x < y < ids.len() ==> (#[trigger] ids[x]) != (#[trigger] ids[y])
}

proof fn lemma_partner(links: Seq<Pointer>, f: Found, line: int, paired: Seq<i64>, i: int)
    requires
        0 <= i,
    ensures
        i < links.len() ==> i <= partner(links, f, line, paired, i) <= links.len(),
        partner(links, f, line, paired, i) < links.len() ==> ({
            let p = links[partner(links, f, line, paired, i)];
            p.line == line && p.kind == f.kind && p.target == f.target && !paired.contains(p.id)
        }),
    decreases links.len() - i,
{
    if i < links.len() {
        lemma_partner(links, f, line, paired, i + 1);
    }
}

/// After a move each link is written again at most once, by an edit of its own: no row stands for two
/// links of the text, and each edit replaces the target of a link, on the line and with the kind and
/// target of its row, by the way to the row's file.
#[verifier::rlimit(60)]
pub proof fn law_links_are_rewritten_once<L: Lookup>(l: &L, s: Source, found: Seq<Found>, n: int)
    requires
        0 <= n <= found.len(),
        s.targets.len() == s.links.len(),
    ensures
        ({
            let w = rewriting(l, s, found, n);
            &&& w.edits.len() == w.rewritten.len()
            &&& no_id_twice(w.paired)
            &&& forall|k: int| 0 <= k < w.rewritten.len() ==> w.paired.contains(#[trigger] w.rewritten[k])
            &&& forall|k: int|
                0 <= k < w.edits.len() ==> rewritten_by(l, s, found, w.rewritten[k], #[trigger] w.edits[k])
        }),
    decreases n,
{
    if n > 0 {
        law_links_are_rewritten_once(l, s, found, n - 1);
        let w0 = rewriting(l, s, found, n - 1);
        let w = rewriting(l, s, found, n);
        let f = found[n - 1];
        if f.range is Some {
            let (from, to) = f.range->0;
            let line = line_number(s.doc, f.offset) as int;
            let k = partner(s.links, f, line, w0.paired, 0);
            lemma_partner(s.links, f, line, w0.paired, 0);
            if k < s.links.len() {
                let id = s.links[k].id;
                assert(w.paired == w0.paired.push(id));
                assert forall|x: int, y: int| 0 <= x < y < w.paired.len() implies (#[trigger] w.paired[x]) != (
                #[trigger] w.paired[y]) by {
                    if y == w0.paired.len() {
                        assert(w0.paired.contains(w0.paired[x]));
                    } else {
                        assert(w0.paired[x] != w0.paired[y]);
                    }
                }
                assert forall|x: int| 0 <= x < w.rewritten.len() implies w.paired.contains(#[trigger] w.rewritten[x]) by {
                    if x < w0.rewritten.len() {
                        assert(w0.paired.contains(w0.rewritten[x]));
                        let y = choose|y: int| 0 <= y < w0.paired.len() && w0.paired[y] == w0.rewritten[x];
                        assert(w.paired[y] == w.rewritten[x]);
                    } else {
                        assert(w.paired[w0.paired.len() as int] == id);
                    }
                }
                assert forall|x: int| 0 <= x < w.edits.len() implies rewritten_by(l, s, found, w.rewritten[x], #[trigger] w.edits[x]) by {
                    if x < w0.edits.len() {
                        assert(w.edits[x] == w0.edits[x]);
                        assert(rewritten_by(l, s, found, w0.rewritten[x], w0.edits[x]));
                    } else {
                        assert(rewrites_link(l, s, found[n - 1], k, w.edits[x]));
                    }
                }
            }
        }
    }
}

/// A place of a text is found by its byte.
proof fn lemma_place_at(t: Seq<char>, i: int)
    requires
        0 <= i <= t.len(),
    ensures
        place_at(t, byte_at(t, i)) == Some(i),
{
    let b = byte_at(t, i);
    assert(exists|k: int| 0 <= k <= t.len() && #[trigger] byte_at(t, k) == b);
    let k = choose|k: int| 0 <= k <= t.len() && #[trigger] byte_at(t, k) == b;
    if k < i {
        lemma_byte_at_order(t, k, i);
    } else if i < k {
        lemma_byte_at_order(t, i, k);
    }
}

/// The last place of a text is where nothing of it is found behind.
proof fn lemma_last_from(s: Seq<char>, p: Seq<char>, i: int, k: int)
    requires
        0 <= k <= i,
        stands_at(s, p, k),
        forall|j: int| k < j <= i ==> !stands_at(s, p, j),
    ensures
        last_from(s, p, i) == k,
    decreases i - k,
{
    if i > k {
        lemma_last_from(s, p, i - 1, k);
    }
}

proof fn lemma_white_at(s: Seq<char>, i: int)
    requires
        0 <= i <= s.len(),
        forall|k: int| i <= k < s.len() ==> !white_space(#[trigger] s[k]),
    ensures
        white_at(s, i) == s.len(),
    decreases s.len() - i,
{
    if i < s.len() {
        lemma_white_at(s, i + 1);
    }
}

proof fn lemma_cut_at(path: Seq<char>, tail: Seq<char>, i: int)
    requires
        0 <= i <= path.len(),
        lacks(path, '#'),
        lacks(path, '?'),
        tail.len() == 0 || tail[0] == '#' || tail[0] == '?',
    ensures
        cut_at(path + tail, i) == path.len(),
    decreases path.len() - i,
{
    let s = path + tail;
    if i < path.len() {
        assert(s[i] == path[i]);
        lemma_cut_at(path, tail, i + 1);
    } else if tail.len() > 0 {
        assert(s[i] == tail[0]);
    }
}

/// The source of an inline link.
pub open spec fn inline_source(label: Seq<char>, dest: Seq<char>) -> Seq<char> {
    seq!['['] + label + seq![']', '('] + dest + seq![')']
}

/// A destination that is written as it is: a path, and what follows it from `#` or `?` on.
pub open spec fn plain_dest(path: Seq<char>, tail: Seq<char>) -> bool {
    &&& path.len() > 0
    &&& path[0] != '<'
    &&& lacks(path, '#') && lacks(path, '?')
    &&& tail.len() == 0 || tail[0] == '#' || tail[0] == '?'
    &&& lacks(path + tail, ']')
    &&& forall|k: int| 0 <= k < (path + tail).len() ==> !white_space(#[trigger] (path + tail)[k])
}

/// Where an inline link's destination stands.
#[verifier::rlimit(60)]
proof fn lemma_dest_places(t: Seq<char>, a: int, label: Seq<char>, path: Seq<char>, tail: Seq<char>)
    requires
        plain_dest(path, tail),
        stands_at(t, inline_source(label, path + tail), a),
    ensures
        ({
            let dest = path + tail;
            let b = a + inline_source(label, dest).len();
            let start = a + label.len() + 3;
            &&& dest_places(t, a, b) == Some(((start, start + dest.len()), false))
            &&& t.subrange(start, start + dest.len()) == dest
            &&& last_from(t.subrange(a, b), "]("@, t.subrange(a, b).len() as int) == label.len() + 1
        }),
{
    reveal_strlit("](");
    let dest = path + tail;
    let src = inline_source(label, dest);
    let n = src.len() as int;
    let b = a + n;
    let m = label.len() as int;
    let d = dest.len() as int;
    assert(t.subrange(a, b) == src);
    assert(n == m + d + 4);
    assert(src[m + 1] == ']' && src[m + 2] == '(');
    assert(src.subrange(m + 1, m + 3) =~= "]("@);
    assert(src.last() == ')');
    assert forall|j: int| m + 1 < j <= n implies !stands_at(src, "]("@, j) by {
        if stands_at(src, "]("@, j) {
            assert(src.subrange(j, j + 2)[0] == src[j]);
            if j >= m + 3 && j < m + 3 + d {
                assert(src[j] == dest[j - m - 3]);
            }
        }
    }
    lemma_last_from(src, "]("@, n, m + 1);
    let inner = src.subrange(m + 3, n - 1);
    assert(inner =~= dest);
    assert(dest[0] == path[0]);
    assert(!white_space(dest[0]));
    assert(trim_white_start(inner) == inner);
    let start = a + m + 3;
    let rest = t.subrange(start, b - 1);
    assert(rest =~= dest) by {
        assert forall|k: int| 0 <= k < d implies rest[k] == dest[k] by {
            assert(t.subrange(a, b)[m + 3 + k] == t[a + (m + 3 + k)]);
            assert(src[m + 3 + k] == dest[k]);
        }
    }
    lemma_white_at(rest, 0);
}

/// An inline link is read as its parts: the target, which its range covers without what follows it from
/// `#` or `?` on, and the text it shows.
pub proof fn law_markdown_parts(t: Seq<char>, a: int, label: Seq<char>, path: Seq<char>, tail: Seq<char>, kind: Seq<char>)
    requires
        plain_dest(path, tail),
        tidy(label),
        stands_at(t, inline_source(label, path + tail), a),
    ensures
        ({
            let dest = path + tail;
            let b = a + inline_source(label, dest).len();
            let start = a + label.len() + 3;
            markdown_found(t, byte_at(t, a), byte_at(t, b), FORM_INLINE, dest, kind) matches Some(f) && {
                &&& f.kind == kind
                &&& f.target == percent_decoded(path)
                &&& f.alias == Some(label)
                &&& f.range == Some((byte_at(t, start), byte_at(t, start + path.len())))
                &&& !f.angle
                &&& t.subrange(start, start + path.len()) == path
                &&& f.offset == byte_at(t, a)
                &&& tail.len() == 0 ==> f.anchor is None
                &&& tail.len() > 1 && tail[0] == '#' ==> f.anchor == unless_empty(percent_decoded(tail.skip(1)))
            }
        }),
{
    let dest = path + tail;
    let src = inline_source(label, dest);
    let b = a + src.len();
    let m = label.len() as int;
    let start = a + m + 3;
    lemma_dest_places(t, a, label, path, tail);
    lemma_place_at(t, a);
    lemma_place_at(t, b);
    lemma_cut_at(path, tail, 0);
    assert(dest.take(path.len() as int) =~= path);
    assert(t.subrange(start, start + path.len()) =~= t.subrange(start, start + dest.len()).take(path.len() as int));
    assert(dest.skip(path.len() as int) =~= tail);
    lemma_next_at(tail, '#', 0);
    let s = t.subrange(a, b);
    assert(s == src);
    lemma_next_at(s, '[', 0);
    assert(s[0] == '[');
    assert(s.subrange(1, m + 1) =~= label);
    lemma_tidy(label);
}

} // verus!
