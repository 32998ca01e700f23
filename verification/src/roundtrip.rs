//! What an account reads and saves again is what the store holds: rewriting links to a view's
//! paths and back gives the document.

use vstd::prelude::*;
use vstd::string::*;
use vstd::utf8::*;
use crate::access::{
    alias_fault, by_alias_order, first_segment, holder_from, lemma_named, plain_path, Account, Namespace, Place, Share,
};
use crate::chars::{ascii_lower, ascii_lowered, begins, ends, next_at, trim_start, without_suffix};
use crate::edit::replaced;
use crate::projection::{
    all_rewritten, back_to_front, from_root, looks_rooted, markdown, opt_text, place_back, projection, projections,
    rewritten, unprojection, unprojections, written_like, Projected, TargetSpan,
};

verus! {

/// Links in document order, apart from one another.
pub open spec fn in_order(text: Seq<u8>, links: Seq<TargetSpan>) -> bool {
    &&& forall|i: int| 0 <= i < links.len() ==> (#[trigger] links[i]).from < links[i].to <= text.len()
    &&& forall|i: int, j: int| 0 <= i < j < links.len() ==> (#[trigger] links[i]).to <= (#[trigger] links[j]).from
}

/// Where link `i` begins; behind the last, where the text ends.
pub open spec fn bound(text: Seq<u8>, links: Seq<TargetSpan>, i: int) -> int {
    if i < links.len() {
        links[i].from as int
    } else {
        text.len() as int
    }
}

/// What stands at link `i` after it was rewritten.
pub open spec fn piece(text: Seq<u8>, links: Seq<TargetSpan>, new: Seq<Option<Seq<char>>>, i: int) -> Seq<u8> {
    match new[i] {
        Some(s) => encode_utf8(s),
        None => text.subrange(links[i].from as int, links[i].to as int),
    }
}

/// The rewritten text before link `i`.
pub open spec fn front(text: Seq<u8>, links: Seq<TargetSpan>, new: Seq<Option<Seq<char>>>, i: int) -> Seq<u8>
    decreases i,
{
    if i <= 0 {
        text.take(bound(text, links, 0))
    } else {
        front(text, links, new, i - 1) + piece(text, links, new, i - 1) + text.subrange(
            links[i - 1].to as int,
            bound(text, links, i),
        )
    }
}

/// The rewritten text from link `i` on.
spec fn rest(text: Seq<u8>, links: Seq<TargetSpan>, new: Seq<Option<Seq<char>>>, i: int) -> Seq<u8>
    decreases links.len() - i,
{
    if i < 0 || i >= links.len() {
        Seq::empty()
    } else {
        piece(text, links, new, i) + text.subrange(links[i].to as int, bound(text, links, i + 1)) + rest(
            text,
            links,
            new,
            i + 1,
        )
    }
}

proof fn lemma_place_first(links: Seq<TargetSpan>, order: Seq<int>, k: int)
    requires
        forall|i: int| 0 <= i < order.len() ==> links[#[trigger] order[i]].from < links[k].from,
    ensures
        place_back(links, order, k) == seq![k] + order,
    decreases order.len(),
{
    if order.len() > 0 {
        let f = order.drop_last();
        assert forall|i: int| 0 <= i < f.len() implies links[#[trigger] f[i]].from < links[k].from by {
            assert(f[i] == order[i]);
        }
        assert(order[order.len() - 1] == order.last());
        lemma_place_first(links, f, k);
        assert((seq![k] + f).push(order.last()) =~= seq![k] + order);
    } else {
        assert(order.push(k) =~= seq![k] + order);
    }
}

/// Links in document order are rewritten from the last to the first.
proof fn lemma_last_first(text: Seq<u8>, links: Seq<TargetSpan>, n: int)
    requires
        in_order(text, links),
        0 <= n <= links.len(),
    ensures
        back_to_front(links, n) == Seq::new(n as nat, |i: int| n - 1 - i),
    decreases n,
{
    if n > 0 {
        lemma_last_first(text, links, n - 1);
        let order = back_to_front(links, n - 1);
        assert forall|i: int| 0 <= i < order.len() implies links[#[trigger] order[i]].from < links[n - 1].from by {
            assert(links[order[i]].to <= links[n - 1].from);
        }
        lemma_place_first(links, order, n - 1);
        assert(seq![n - 1] + order =~= Seq::new(n as nat, |i: int| n - 1 - i));
    } else {
        assert(back_to_front(links, n) =~= Seq::new(0 as nat, |i: int| n - 1 - i));
    }
}

/// After the last `k` links were rewritten.
#[verifier::rlimit(50)]
proof fn lemma_rewritten_back(text: Seq<u8>, links: Seq<TargetSpan>, new: Seq<Option<Seq<char>>>, k: int)
    requires
        in_order(text, links),
        new.len() == links.len(),
        0 <= k <= links.len(),
    ensures
        ({
            let n = links.len() as int;
            all_rewritten(text, links, back_to_front(links, n).take(k), new) == text.take(bound(text, links, n - k)) + rest(
                text,
                links,
                new,
                n - k,
            )
        }),
    decreases k,
{
    let n = links.len() as int;
    let order = back_to_front(links, n);
    lemma_last_first(text, links, n);
    if k == 0 {
        assert(order.take(0) =~= Seq::<int>::empty());
        assert(text.take(text.len() as int) + Seq::<u8>::empty() =~= text);
    } else {
        lemma_rewritten_back(text, links, new, k - 1);
        let j = n - k;
        assert(order.take(k).drop_last() =~= order.take(k - 1));
        assert(order.take(k).last() == j);
        let l = links[j];
        let b = bound(text, links, j + 1);
        assert(l.to <= b <= text.len()) by {
            if j + 1 < n {
                assert(links[j].to <= links[j + 1].from);
            }
        }
        let prev = text.take(b) + rest(text, links, new, j + 1);
        assert(text.take(b) =~= text.take(l.from as int) + text.subrange(l.from as int, l.to as int) + text.subrange(
            l.to as int,
            b,
        ));
        let want = text.take(l.from as int) + rest(text, links, new, j);
        match new[j] {
            Some(s) => {
                assert(prev.take(l.from as int) =~= text.take(l.from as int));
                assert(prev.skip(l.to as int) =~= text.subrange(l.to as int, b) + rest(text, links, new, j + 1));
                assert(replaced(prev, l.from as int, l.to as int, encode_utf8(s)) =~= want);
            },
            None => {
                assert(prev =~= want);
            },
        }
    }
}

proof fn lemma_front_rest(text: Seq<u8>, links: Seq<TargetSpan>, new: Seq<Option<Seq<char>>>, i: int)
    requires
        0 <= i <= links.len(),
    ensures
        front(text, links, new, 0) + rest(text, links, new, 0) == front(text, links, new, i) + rest(text, links, new, i),
    decreases i,
{
    if i > 0 {
        lemma_front_rest(text, links, new, i - 1);
        assert(front(text, links, new, i - 1) + rest(text, links, new, i - 1) =~= front(text, links, new, i) + rest(
            text,
            links,
            new,
            i,
        ));
    }
}

/// All links rewritten.
spec fn all_new(text: Seq<u8>, links: Seq<TargetSpan>, new: Seq<Option<Seq<char>>>) -> Seq<u8> {
    all_rewritten(text, links, back_to_front(links, links.len() as int), new)
}

proof fn lemma_all_new(text: Seq<u8>, links: Seq<TargetSpan>, new: Seq<Option<Seq<char>>>)
    requires
        in_order(text, links),
        new.len() == links.len(),
    ensures
        all_new(text, links, new) == front(text, links, new, 0) + rest(text, links, new, 0),
{
    let n = links.len() as int;
    lemma_last_first(text, links, n);
    lemma_rewritten_back(text, links, new, n);
    assert(back_to_front(links, n).take(n) =~= back_to_front(links, n));
}

/// The links `back` stand where the rewritten links do.
pub open spec fn found_again(
    text: Seq<u8>,
    links: Seq<TargetSpan>,
    new: Seq<Option<Seq<char>>>,
    back: Seq<TargetSpan>,
) -> bool {
    &&& back.len() == links.len()
    &&& forall|i: int|
        0 <= i < links.len() ==> (#[trigger] back[i]).from == front(text, links, new, i).len() && back[i].to == back[i].from
            + piece(text, links, new, i).len()
}

/// Rewriting links and rewriting them back where they then stand gives the text.
proof fn lemma_there_and_back(
    text: Seq<u8>,
    links: Seq<TargetSpan>,
    new: Seq<Option<Seq<char>>>,
    back: Seq<TargetSpan>,
    old_new: Seq<Option<Seq<char>>>,
)
    requires
        in_order(text, links),
        new.len() == links.len(),
        old_new.len() == links.len(),
        found_again(text, links, new, back),
        forall|i: int| 0 <= i < links.len() ==> (#[trigger] piece(text, links, new, i)).len() > 0,
        forall|i: int|
            0 <= i < links.len() ==> match (#[trigger] old_new[i]) {
                Some(s) => encode_utf8(s) == text.subrange(links[i].from as int, links[i].to as int),
                None => new[i] is None,
            },
    ensures
        all_new(all_new(text, links, new), back, old_new) == text,
{
    let n = links.len() as int;
    let p = all_new(text, links, new);
    lemma_all_new(text, links, new);
    lemma_front_rest(text, links, new, n);
    assert(p =~= front(text, links, new, n));
    lemma_back_in_order(text, links, new, back, p);
    lemma_all_new(p, back, old_new);
    if n == 0 {
        assert(front(p, back, old_new, 0) =~= p);
        assert(front(text, links, new, 0) =~= text);
        assert(p + Seq::<u8>::empty() =~= text);
    } else {
        lemma_rest_back(text, links, new, back, old_new, p, 0);
        assert(back[0].from == front(text, links, new, 0).len());
        assert(front(text, links, new, 0).len() == links[0].from);
        assert(front(p, back, old_new, 0) =~= text.take(links[0].from as int)) by {
            lemma_front_rest(text, links, new, 0);
            assert(p == front(text, links, new, 0) + rest(text, links, new, 0));
        }
        assert(text =~= text.take(links[0].from as int) + text.skip(links[0].from as int));
    }
}

proof fn lemma_front_len(text: Seq<u8>, links: Seq<TargetSpan>, new: Seq<Option<Seq<char>>>, i: int, j: int)
    requires
        in_order(text, links),
        0 <= i < j <= links.len(),
    ensures
        front(text, links, new, i).len() + piece(text, links, new, i).len() <= front(text, links, new, j).len(),
    decreases j - i,
{
    if i + 1 < j {
        lemma_front_len(text, links, new, i, j - 1);
    }
}

proof fn lemma_back_in_order(text: Seq<u8>, links: Seq<TargetSpan>, new: Seq<Option<Seq<char>>>, back: Seq<TargetSpan>, p: Seq<u8>)
    requires
        in_order(text, links),
        new.len() == links.len(),
        found_again(text, links, new, back),
        forall|i: int| 0 <= i < links.len() ==> (#[trigger] piece(text, links, new, i)).len() > 0,
        p == front(text, links, new, links.len() as int),
    ensures
        in_order(p, back),
{
    assert forall|i: int| 0 <= i < back.len() implies (#[trigger] back[i]).from < back[i].to <= p.len() by {
        assert(piece(text, links, new, i).len() > 0);
        lemma_front_len(text, links, new, i, links.len() as int);
    }
    assert forall|i: int, j: int| 0 <= i < j < back.len() implies (#[trigger] back[i]).to <= (#[trigger] back[j]).from by {
        lemma_front_len(text, links, new, i, j);
    }
}

proof fn lemma_rest_back(
    text: Seq<u8>,
    links: Seq<TargetSpan>,
    new: Seq<Option<Seq<char>>>,
    back: Seq<TargetSpan>,
    old_new: Seq<Option<Seq<char>>>,
    p: Seq<u8>,
    i: int,
)
    requires
        in_order(text, links),
        in_order(p, back),
        new.len() == links.len(),
        old_new.len() == links.len(),
        found_again(text, links, new, back),
        p == front(text, links, new, 0) + rest(text, links, new, 0),
        0 <= i < links.len(),
        forall|i: int|
            0 <= i < links.len() ==> match (#[trigger] old_new[i]) {
                Some(s) => encode_utf8(s) == text.subrange(links[i].from as int, links[i].to as int),
                None => new[i] is None,
            },
    ensures
        rest(p, back, old_new, i) == text.skip(links[i].from as int),
    decreases links.len() - i,
{
    let n = links.len() as int;
    let f = front(text, links, new, i);
    let x = piece(text, links, new, i);
    let l = links[i];
    let b = bound(text, links, i + 1);
    assert(l.to <= b <= text.len()) by {
        if i + 1 < n {
            assert(links[i].to <= links[i + 1].from);
        }
    }
    lemma_front_rest(text, links, new, i + 1);
    let gap = text.subrange(l.to as int, b);
    let more = rest(text, links, new, i + 1);
    assert(front(text, links, new, i + 1) == f + x + gap);
    assert(p == f + x + gap + more);
    assert(back[i].from == f.len());
    assert(back[i].to == f.len() + x.len());
    let b2 = bound(p, back, i + 1);
    assert(b2 == f.len() + x.len() + gap.len()) by {
        if i + 1 < n {
            assert(back[i + 1].from == front(text, links, new, i + 1).len());
        } else {
            assert(more =~= Seq::<u8>::empty());
        }
    }
    assert(p.subrange(back[i].to as int, b2) =~= gap);
    let orig = text.subrange(l.from as int, l.to as int);
    assert(piece(p, back, old_new, i) =~= orig) by {
        match old_new[i] {
            Some(s) => {},
            None => {
                assert(new[i] is None);
                assert(p.subrange(back[i].from as int, back[i].to as int) =~= x);
            },
        }
    }
    if i + 1 < n {
        lemma_rest_back(text, links, new, back, old_new, p, i + 1);
        assert(rest(p, back, old_new, i) =~= orig + gap + text.skip(b));
        assert(orig + gap + text.skip(b) =~= text.skip(l.from as int));
    } else {
        assert(rest(p, back, old_new, i + 1) =~= Seq::<u8>::empty());
        assert(orig + gap =~= text.skip(l.from as int));
    }
}

/// A target with the slashes it needs and no others: one before a markdown path, none before a
/// wiki path.
pub open spec fn plainly_written(kind: Seq<char>, target: Seq<char>) -> bool {
    if markdown(kind) {
        target == from_root(target)
    } else {
        "/"@ + target == from_root(target)
    }
}

/// A path in which no slash follows another and none is last.
pub open spec fn tidy(p: Seq<char>) -> bool {
    &&& p.len() > 0 && p.last() != '/'
    &&& forall|i: int| 0 <= i < p.len() - 1 && p[i] == '/' ==> #[trigger] p[i + 1] != '/'
}

/// The path a root link is for: the file it resolved to, or the path it spells.
pub open spec fn meant(l: TargetSpan) -> Seq<char> {
    match opt_text(l.resolved) {
        Some(r) => r,
        None => from_root(l.target@),
    }
}

/// Does a target end with `.md`, in any case?
pub open spec fn says_md(target: Seq<char>) -> bool {
    ends(ascii_lowered(target), ".md"@)
}

/// A link whose path comes back: it is plainly written, spells the path it is for with or without
/// `.md`, and that path is below a share the account has a proper name for.
pub open spec fn keeps(a: Account, l: TargetSpan) -> bool {
    let w = from_root(l.target@);
    let p = meant(l);
    let k = holder_from(a.rows, p, 0);
    &&& !a.is_owner()
    &&& by_alias_order(a.rows)
    &&& plainly_written(l.kind@, l.target@)
    &&& tidy(w)
    &&& p == w || p == w + ".md"@ && !says_md(l.target@)
    &&& k < a.rows.len()
    &&& p != a.rows[k].store_path
    &&& a.ns == Namespace::Aliased ==> alias_fault(a.rows[k].alias) is None
    &&& a.ns == Namespace::SingleRoot ==> a.rows.len() == 1
}

/// What a path below a share is called names it.
proof fn lemma_named_below(a: Account, i: int, tail: Seq<char>)
    requires
        !a.is_owner(),
        by_alias_order(a.rows),
        0 <= i < a.rows.len(),
        a.rows[i].is_live(),
        tail.len() > 1,
        tail[0] == '/',
        tail.last() != '/',
        a.ns == Namespace::Aliased ==> alias_fault(a.rows[i].alias) is None,
        a.ns == Namespace::SingleRoot ==> a.rows.len() == 1,
    ensures
        ({
            let w = if a.ns == Namespace::Aliased { "/"@ + a.rows[i].alias + tail } else { tail };
            a.place(w) matches Place::In { store_path, .. } && store_path == a.rows[i].store_path + tail
        }),
{
    reveal_strlit("/");
    let g = a.rows[i];
    match a.ns {
        Namespace::SingleRoot => {
            assert(plain_path(tail) == tail);
            if tail == "/"@ {
                assert(tail.len() == 1);
            }
        },
        Namespace::Aliased => {
            let m = g.alias.len() as int;
            let w = "/"@ + g.alias + tail;
            assert(w.last() == tail.last());
            assert(plain_path(w) == w);
            assert(w[0] == '/');
            assert(w.subrange(1, 1 + m) =~= g.alias);
            assert(w.skip(1 + m) =~= tail);
            assert(w[1 + m] == tail[0]);
            assert forall|k: int| 1 <= k < 1 + m implies w[k] != '/' by {
                assert(w[k] == g.alias[k - 1]);
                assert(g.alias.contains(g.alias[k - 1]));
            }
            lemma_next_is(w, '/', 1, 1 + m);
            assert(first_segment(w) =~= g.alias);
            lemma_named(a.rows, i);
            if w == "/"@ {
                assert(w.len() == 1);
            }
        },
    }
}

proof fn lemma_next_is(s: Seq<char>, c: char, i: int, j: int)
    requires
        0 <= i <= j < s.len(),
        forall|k: int| i <= k < j ==> s[k] != c,
        s[j] == c,
    ensures
        next_at(s, c, i) == j,
    decreases j - i,
{
    if i < j {
        lemma_next_is(s, c, i + 1, j);
    }
}

proof fn lemma_first_holder(rows: Seq<Share>, path: Seq<char>, i: int)
    requires
        0 <= i <= rows.len(),
    ensures
        i <= holder_from(rows, path, i) <= rows.len(),
        holder_from(rows, path, i) < rows.len() ==> crate::access::under(
            rows[holder_from(rows, path, i)].store_path,
            path,
        ) && rows[holder_from(rows, path, i)].is_live(),
    decreases rows.len() - i,
{
    if i < rows.len() && !(crate::access::under(rows[i].store_path, path) && rows[i].is_live()) {
        lemma_first_holder(rows, path, i + 1);
    }
}

/// The share that holds the path a link is for.
spec fn share_of(a: Account, l: TargetSpan) -> Share {
    a.rows[holder_from(a.rows, meant(l), 0)]
}

/// What a link's target spells behind the root of the share.
spec fn tail_of(a: Account, l: TargetSpan) -> Seq<char> {
    from_root(l.target@).skip(share_of(a, l).store_path.len() as int)
}

/// What stands in place of the root of the share.
spec fn prefix_of(a: Account, l: TargetSpan) -> Seq<char> {
    if a.ns == Namespace::Aliased {
        "/"@ + share_of(a, l).alias
    } else {
        Seq::empty()
    }
}

/// The path a link is for lies in a live share, and its target spells it from there.
#[verifier::rlimit(60)]
proof fn lemma_tail(a: Account, l: TargetSpan)
    requires
        keeps(a, l),
        a.seen(meant(l)) is Some,
    ensures
        ({
            let g = share_of(a, l);
            let t = tail_of(a, l);
            let w = from_root(l.target@);
            &&& g.is_live()
            &&& t.len() > 1
            &&& t[0] == '/'
            &&& t.last() != '/'
            &&& w == g.store_path + t
            &&& a.seen(meant(l)) == Some(prefix_of(a, l) + t + (if meant(l) == w { Seq::<char>::empty() } else { ".md"@ }))
        }),
{
    reveal_strlit("/");
    reveal_strlit(".md");
    let w = from_root(l.target@);
    let p = meant(l);
    let k = holder_from(a.rows, p, 0);
    lemma_first_holder(a.rows, p, 0);
    let g = a.rows[k];
    assert(a.holder(p) == Some(g));
    let n = g.store_path.len() as int;
    let tail = p.skip(n);
    assert(p.take(n) == g.store_path);
    assert(p =~= g.store_path + tail);
    assert(p[n] == '/');
    let m = w.len() as int;
    if p != w {
        assert(p[m] == '.');
        assert(p[m + 1] == 'm');
        assert(p[m + 2] == 'd');
    }
    assert(n < m);
    let t = tail_of(a, l);
    assert(p.take(m) =~= w);
    assert(t[0] == p[n]);
    assert(w =~= g.store_path + t);
    assert(t.last() == w.last());
    if t.len() == 1 {
        assert(t.last() == t[0]);
    }
    let end = if p == w {
        Seq::<char>::empty()
    } else {
        ".md"@
    };
    assert(tail =~= t + end);
    if a.ns == Namespace::Aliased {
        assert("/"@ + g.alias + tail =~= prefix_of(a, l) + t + end);
    } else {
        assert(tail =~= prefix_of(a, l) + t + end);
    }
}

/// What an account reads in place of a link's target.
proof fn lemma_read(a: Account, l: TargetSpan)
    requires
        keeps(a, l),
        projection(a, l) matches Some(p) && p.0 == Projected::Path,
    ensures
        a.seen(meant(l)) is Some,
        ({
            let v = prefix_of(a, l) + tail_of(a, l);
            (projection(a, l)->0).1 == if markdown(l.kind@) {
                v
            } else {
                v.skip(1)
            }
        }),
        ({
            let v = prefix_of(a, l) + tail_of(a, l);
            v.len() > 1 && v[0] == '/' && v[1] != '/'
        }),
{
    reveal_strlit("/");
    reveal_strlit(".md");
    let md = markdown(l.kind@);
    let w = from_root(l.target@);
    let p = meant(l);
    assert(a.seen(p) is Some);
    lemma_tail(a, l);
    let g = share_of(a, l);
    let t = tail_of(a, l);
    let v = prefix_of(a, l) + t;
    let n = g.store_path.len() as int;
    assert(v[0] == '/');
    assert(v[1] != '/') by {
        if a.ns == Namespace::Aliased {
            assert(v[1] == g.alias[0]);
            assert(g.alias.contains(g.alias[0]));
        } else {
            assert(v[1] == t[1]);
            assert(w[n] == t[0]);
            assert(w[n + 1] == t[1]);
        }
    }
    lemma_one_slash(v);
    lemma_tidy_slash(w, l);
    lemma_suffix_kept(l.target@, w, prefix_of(a, l), g.store_path, t);
    let seen = a.seen(p)->0;
    let shown = if says_md(l.target@) {
        seen
    } else {
        without_suffix(seen, ".md"@)
    };
    if p == w {
        assert(seen =~= v);
    } else {
        assert(seen =~= v + ".md"@);
        assert(seen.skip(seen.len() - 3) =~= ".md"@);
        assert(seen.take(seen.len() - 3) =~= v);
    }
    assert(shown == v);
    assert((projection(a, l)->0).1 == written_like(l.target@, seen, md));
}

/// A link that is projected to a path of the account's is written back as it was.
pub proof fn law_link_comes_back(a: Account, l: TargetSpan, seen: TargetSpan, at: Option<Seq<char>>)
    requires
        keeps(a, l),
        projection(a, l) matches Some(p) && p.0 == Projected::Path && p.1 == seen.target@,
        seen.kind@ == l.kind@,
        looks_rooted(l.kind@, seen.target@),
        !begins(seen.target@, "textdb:"@),
    ensures
        unprojection(a, seen, at) == Some(l.target@),
{
    reveal_strlit("/");
    let md = markdown(l.kind@);
    let w = from_root(l.target@);
    let g = share_of(a, l);
    let t = tail_of(a, l);
    let prefix = prefix_of(a, l);
    let v = prefix + t;
    lemma_read(a, l);
    lemma_tail(a, l);
    lemma_first_holder(a.rows, meant(l), 0);
    lemma_named_below(a, holder_from(a.rows, meant(l), 0), t);
    lemma_one_slash(v);
    lemma_tidy_slash(w, l);
    lemma_suffix_kept(l.target@, w, prefix, g.store_path, t);
    assert("/"@ + v.skip(1) =~= v);
    assert(from_root(seen.target@) == v) by {
        if !md {
            assert(v.skip(1)[0] == v[1]);
            assert(trim_start(v.skip(1), '/') == v.skip(1));
        }
    }
    assert(v == if a.ns == Namespace::Aliased { "/"@ + g.alias + t } else { t }) by {
        assert(v =~= if a.ns == Namespace::Aliased { "/"@ + g.alias + t } else { t });
    }
    assert(says_md(seen.target@) == says_md(l.target@));
    assert(written_like(seen.target@, w, md) == l.target@) by {
        if !md {
            assert(w.skip(1) =~= l.target@);
        }
    }
}

/// Only one slash is taken off.
proof fn lemma_one_slash(v: Seq<char>)
    requires
        v.len() > 1,
        v[0] == '/',
        v[1] != '/',
    ensures
        trim_start(v, '/') == v.skip(1),
{
    reveal_with_fuel(trim_start, 2);
    assert(v.skip(1)[0] == v[1]);
}

proof fn lemma_tidy_slash(w: Seq<char>, l: TargetSpan)
    requires
        w == from_root(l.target@),
        tidy(w),
    ensures
        w.len() > 1,
        w[0] == '/',
        trim_start(w, '/') == w.skip(1),
{
    reveal_strlit("/");
    assert(w[0] == '/');
    if w.len() == 1 {
        assert(w.last() == w[0]);
    }
    let i: int = 0;
    assert(w[i + 1] != '/');
    lemma_one_slash(w);
}

/// The last three characters say whether a text ends with `.md`.
proof fn lemma_says_md(x: Seq<char>)
    ensures
        says_md(x) <==> x.len() >= 3 && ascii_lower(x[x.len() - 3]) == '.' && ascii_lower(x[x.len() - 2]) == 'm'
            && ascii_lower(x[x.len() - 1]) == 'd',
        ends(x, ".md"@) ==> says_md(x),
{
    reveal_strlit(".md");
    let low = ascii_lowered(x);
    let n = x.len() as int;
    if n >= 3 {
        let e = low.skip(n - 3);
        assert(e[0] == low[n - 3] && e[1] == low[n - 2] && e[2] == low[n - 1]);
        if ascii_lower(x[n - 3]) == '.' && ascii_lower(x[n - 2]) == 'm' && ascii_lower(x[n - 1]) == 'd' {
            assert(e =~= ".md"@);
        }
        if ends(x, ".md"@) {
            let f = x.skip(n - 3);
            assert(f[0] == x[n - 3] && f[1] == x[n - 2] && f[2] == x[n - 1]);
        }
    }
}

/// A path ends with `.md` as the target that spells it does, and so does what it is called: the
/// letters stand behind its last slash.
proof fn lemma_suffix_kept(target: Seq<char>, w: Seq<char>, prefix: Seq<char>, base: Seq<char>, t: Seq<char>)
    requires
        target == w || "/"@ + target == w,
        w[0] == '/',
        w == base + t,
        t.len() > 1,
        t[0] == '/',
        prefix.len() > 0 ==> prefix[0] == '/',
    ensures
        says_md(prefix + t) == says_md(target),
        says_md((prefix + t).skip(1)) == says_md(target),
        ends(prefix + t, ".md"@) ==> says_md(target),
        ends(w, ".md"@) ==> says_md(target),
{
    reveal_strlit("/");
    let v = prefix + t;
    let s = v.skip(1);
    lemma_says_md(target);
    lemma_says_md(w);
    lemma_says_md(v);
    lemma_says_md(s);
    let n = v.len() as int;
    let m = w.len() as int;
    let k = t.len() as int;
    assert(v[0] == '/');
    assert(v[n - 1] == t[k - 1] && w[m - 1] == t[k - 1]);
    assert(v[n - 2] == t[k - 2] && w[m - 2] == t[k - 2]);
    if k >= 3 {
        assert(v[n - 3] == t[k - 3] && w[m - 3] == t[k - 3]);
    } else {
        assert(t[k - 2] == '/');
    }
    if "/"@ + target == w {
        let j = target.len() as int;
        assert(m == j + 1);
        if j >= 3 {
            assert(w[m - 3] == target[j - 3] && w[m - 2] == target[j - 2] && w[m - 1] == target[j - 1]);
        }
    }
    if s.len() >= 3 {
        let j = s.len() as int;
        assert(v[n - 3] == s[j - 3] && v[n - 2] == s[j - 2] && v[n - 1] == s[j - 1]);
    }
}

/// A link whose place in the text comes back: one that is projected to a path of the account's
/// and keeps it, or one that neither projecting nor writing back touches.
pub open spec fn comes_back(a: Account, l: TargetSpan, seen: TargetSpan, at: Option<Seq<char>>) -> bool {
    &&& seen.kind@ == l.kind@
    &&& match projection(a, l) {
        Some(p) => {
            &&& p.0 == Projected::Path
            &&& seen.target@ == p.1
            &&& keeps(a, l)
            &&& looks_rooted(l.kind@, p.1)
            &&& !begins(p.1, "textdb:"@)
        },
        None => unprojection(a, seen, at) is None,
    }
}

/// Writing a document back from an account's paths is the inverse of showing it in them: where the
/// links in the text are as written and each of them comes back, the document the account saves
/// unchanged is the one the store holds. `back` are the links as they are found in what the
/// account reads.
pub proof fn law_unproject_inverts(a: Account, text: Seq<u8>, links: Seq<TargetSpan>, back: Seq<TargetSpan>, at: Seq<Option<String>>)
    requires
        in_order(text, links),
        forall|i: int|
            0 <= i < links.len() ==> text.subrange((#[trigger] links[i]).from as int, links[i].to as int) == encode_utf8(
                links[i].target@,
            ),
        at.len() == links.len(),
        found_again(text, links, projections(a, links), back),
        forall|i: int| 0 <= i < links.len() ==> comes_back(a, links[i], #[trigger] back[i], opt_text(at[i])),
    ensures
        ({
            let n = links.len() as int;
            let read = all_rewritten(text, links, back_to_front(links, n), projections(a, links));
            all_rewritten(read, back, back_to_front(back, n), unprojections(a, back, at)) == text
        }),
{
    let new = projections(a, links);
    let old_new = unprojections(a, back, at);
    assert forall|i: int| 0 <= i < links.len() implies match (#[trigger] old_new[i]) {
        Some(s) => encode_utf8(s) == text.subrange(links[i].from as int, links[i].to as int),
        None => new[i] is None,
    } by {
        let l = links[i];
        let s = back[i];
        assert(comes_back(a, l, s, opt_text(at[i])));
        match projection(a, l) {
            Some(p) => {
                law_link_comes_back(a, l, s, opt_text(at[i]));
            },
            None => {},
        }
    }
    assert forall|i: int| 0 <= i < links.len() implies (#[trigger] piece(text, links, new, i)).len() > 0 by {
        let l = links[i];
        assert(comes_back(a, l, back[i], opt_text(at[i])));
        match projection(a, l) {
            Some(p) => {
                assert(new[i] == Some(p.1));
                lemma_rooted_long(l.kind@, p.1);
                lemma_encoded_long(p.1);
            },
            None => {},
        }
    }
    lemma_there_and_back(text, links, new, back, old_new);
}

proof fn lemma_rooted_long(kind: Seq<char>, target: Seq<char>)
    requires
        looks_rooted(kind, target),
    ensures
        target.len() > 0,
{
    reveal_strlit("/");
    if !markdown(kind) {
        let i = choose|i: int| 0 <= i < target.len() && target[i] == '/';
        assert(target[i] == '/');
    }
}

proof fn lemma_encoded_long(s: Seq<char>)
    requires
        s.len() > 0,
    ensures
        encode_utf8(s).len() > 0,
{
    crate::md::offsets::lemma_text_bytes(s);
    crate::md::offsets::lemma_byte_len_take(s, s.len() - 1);
    assert(s.take(s.len() as int) =~= s);
    char_is_scalar(s[s.len() - 1]);
}

} // verus!
