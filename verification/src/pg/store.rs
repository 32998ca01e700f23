//! Paths, node rows, and the walk that reads a document's leaves level by level.

use vstd::prelude::*;
use vstd::string::*;
use crate::chars::{
    after_last, char_views, has_char, join_with, joined_with, lemma_next_at, next_at, past_last, split_at, split_on,
};
use crate::error::TextdbError;
use crate::hash::same_hash;
use crate::md::resolve::parent;
use crate::model::{expand, level_ok, Store};
use crate::node::{entries_of, Child, Entry, Node};
use crate::pg::bulk::{absent, refused};
use crate::storage::Result;
use crate::text::{chars_of, same_text, string_of};

verus! {

/// Hashes per batched lookup.
///
/// The point is to stop paying per row, and one round of planning amortised over a few
/// hundred rows already does that; a single unbounded array would instead build one huge
/// parameter for a document with a hundred thousand leaves.
pub const FETCH_BATCH: usize = 512;

/// Below this many leaves, read the chunks one query at a time.
pub const BATCH_FLOOR: usize = 8;

/// A hash as the database gives it back.
pub fn to_hash(v: &[u8]) -> (r: Result<crate::hash::Hash>)
    ensures
        r is Ok <==> v@.len() == 32,
        r matches Ok(h) ==> h@ == v@,
        r matches Err(e) ==> e matches TextdbError::Storage(m) && m@ == "bad hash length"@,
{
    if v.len() != 32 {
        return Err(TextdbError::Storage(String::from_str("bad hash length")));
    }
    let mut h = [0u8; 32];
    let mut i: usize = 0;
    while i < 32
        invariant
            i <= 32,
            v@.len() == 32,
            h@.len() == 32,
            forall|k: int| 0 <= k < i ==> h@[k] == v@[k],
        decreases 32 - i,
    {
        h[i] = v[i];
        i += 1;
    }
    proof {
        assert(h@ =~= v@);
    }
    Ok(h)
}

/// The segments of a path that are not empty.
pub open spec fn segments(parts: Seq<Seq<char>>) -> Seq<Seq<char>>
    decreases parts.len(),
{
    if parts.len() == 0 {
        Seq::empty()
    } else {
        let front = segments(parts.drop_last());
        if parts.last().len() == 0 {
            front
        } else {
            front.push(parts.last())
        }
    }
}

/// A segment that no path may have.
pub open spec fn bad_segment(s: Seq<char>) -> bool {
    s == "."@ || s == ".."@
}

/// The first bad segment.
pub open spec fn first_bad(parts: Seq<Seq<char>>, i: int) -> bool {
    &&& 0 <= i < parts.len()
    &&& bad_segment(parts[i])
    &&& forall|k: int| 0 <= k < i ==> !bad_segment(#[trigger] parts[k])
}

/// A path in normal form: one slash before each segment.
pub open spec fn normal(p: Seq<char>) -> Seq<char> {
    "/"@ + joined_with(segments(split_at(p, '/')), "/"@)
}

/// Can the path be brought into normal form?
pub open spec fn sayable(p: Seq<char>) -> bool {
    &&& forall|i: int| 0 <= i < p.len() ==> p[i] != '\0'
    &&& forall|i: int| 0 <= i < split_at(p, '/').len() ==> !bad_segment(#[trigger] split_at(p, '/')[i])
}

/// The sentence that refuses a segment.
pub open spec fn bad_segment_text(seg: Seq<char>, p: Seq<char>) -> Seq<char> {
    "invalid path segment '"@ + seg + "' in "@ + p
}

/// A path in normal form. It may not hold a NUL character or the segments `.` and `..`.
pub fn normalize_path(p: &str) -> (r: Result<String>)
    ensures
        r is Ok <==> sayable(p@),
        r matches Ok(s) ==> s@ == normal(p@),
        r is Err && (exists|i: int| 0 <= i < p@.len() && p@[i] == '\0') ==> refused(r, "path contains NUL"@),
        r is Err && (forall|i: int| 0 <= i < p@.len() ==> p@[i] != '\0') ==> exists|i: int| #[trigger]
            first_bad(split_at(p@, '/'), i) && refused(r, bad_segment_text(split_at(p@, '/')[i], p@)),
{
    let cs: Vec<char> = chars_of(p);
    if has_char(cs.as_slice(), '\0') {
        return Err(TextdbError::InvalidEdit(String::from_str("path contains NUL")));
    }
    let parts: Vec<&[char]> = split_on(cs.as_slice(), '/');
    let ghost all = char_views(parts@);
    let mut segs: Vec<&[char]> = Vec::new();
    let mut i: usize = 0;
    proof {
        assert(char_views(segs@) =~= segments(all.take(0)));
    }
    while i < parts.len()
        invariant
            i <= parts@.len(),
            cs@ == p@,
            all == char_views(parts@),
            all == split_at(p@, '/'),
            forall|i: int| 0 <= i < p@.len() ==> p@[i] != '\0',
            forall|k: int| 0 <= k < i ==> !bad_segment(#[trigger] all[k]),
            char_views(segs@) == segments(all.take(i as int)),
        decreases parts@.len() - i,
    {
        let seg = parts[i];
        let ghost before = char_views(segs@);
        proof {
            assert(all[i as int] == seg@);
            assert(all.take(i + 1).drop_last() =~= all.take(i as int));
            assert(all.take(i + 1).last() == seg@);
            reveal_strlit(".");
            reveal_strlit("..");
        }
        if seg.len() > 0 {
            let s = string_of(seg);
            if same_text(s.as_str(), ".") || same_text(s.as_str(), "..") {
                let mut m = String::from_str("invalid path segment '");
                m.append(s.as_str());
                m.append("' in ");
                m.append(p);
                let e: Result<String> = Err(TextdbError::InvalidEdit(m));
                proof {
                    assert(first_bad(all, i as int));
                    assert(refused(e, bad_segment_text(all[i as int], p@)));
                }
                return e;
            }
            segs.push(seg);
            proof {
                assert(char_views(segs@) =~= before.push(seg@));
            }
        }
        i += 1;
    }
    proof {
        assert(all.take(i as int) =~= all);
    }
    let slash: Vec<char> = chars_of("/");
    let body: Vec<char> = join_with(&segs, slash.as_slice());
    Ok(String::from_str("/").concat(string_of(body.as_slice()).as_str()))
}

/// The folder a path is in.
pub fn parent_of<'a>(path: &'a str) -> (r: &'a str)
    ensures
        r@ == crate::md::resolve::parent_of(path@),
{
    parent(path)
}

/// The last segment of a path.
pub fn name_of<'a>(path: &'a str) -> (r: &'a str)
    ensures
        r@ == path@.skip(past_last(path@, '/')),
{
    let cs: Vec<char> = chars_of(path);
    let at: usize = after_last(cs.as_slice(), '/');
    let name = path.substring_char(at, cs.len());
    proof {
        assert(name@ =~= path@.skip(past_last(path@, '/')));
    }
    name
}

/// A node of the store: a folder (kind 0) or a file (kind 1).
#[derive(Clone, Debug, PartialEq, Eq)]
pub struct NodeRow {
    pub id: i64,
    pub kind: i16,
    pub path: String,
    pub root: Option<crate::hash::Hash>,
    pub version: i64,
}

/// The file at a path, from the live node the store has there.
pub fn file_at(path: &str, node: Option<NodeRow>) -> (r: Result<NodeRow>)
    ensures
        r is Ok <==> node is Some && node->0.kind == 1,
        r matches Ok(n) ==> node == Some(n),
        node is Some && node->0.kind != 1 ==> refused(r, path@ + " is a folder"@),
        node is None ==> absent(r, path@),
{
    match node {
        Some(n) => if n.kind == 1 {
            Ok(n)
        } else {
            Err(TextdbError::InvalidEdit(String::from_str(path).concat(" is a folder")))
        },
        None => Err(TextdbError::NotFound(String::from_str(path))),
    }
}

/// The children of the node with a hash, among some nodes; the last such node counts.
pub open spec fn children_in(nodes: Seq<(crate::hash::Hash, Node)>, h: Seq<u8>) -> Option<Seq<Entry>>
    decreases nodes.len(),
{
    if nodes.len() == 0 {
        None
    } else if nodes.last().0@ == h {
        Some(nodes.last().1@)
    } else {
        children_in(nodes.drop_last(), h)
    }
}

/// The children of some entries, one level down; none if some entry's node is missing.
pub open spec fn level_below(nodes: Seq<(crate::hash::Hash, Node)>, es: Seq<Entry>) -> Option<Seq<Entry>>
    decreases es.len(),
{
    if es.len() == 0 {
        Some(Seq::empty())
    } else {
        match (level_below(nodes, es.drop_last()), children_in(nodes, es.last().hash)) {
            (Some(a), Some(b)) => Some(a + b),
            _ => None,
        }
    }
}

fn find_node<'a>(nodes: &'a Vec<(crate::hash::Hash, Node)>, h: &crate::hash::Hash) -> (r: Option<&'a Node>)
    ensures
        match r {
            Some(n) => children_in(nodes@, h@) == Some(n@),
            None => children_in(nodes@, h@) is None,
        },
{
    let mut i: usize = nodes.len();
    proof {
        assert(nodes@.take(i as int) =~= nodes@);
    }
    while i > 0
        invariant
            i <= nodes@.len(),
            children_in(nodes@, h@) == children_in(nodes@.take(i as int), h@),
        decreases i,
    {
        i -= 1;
        proof {
            assert(nodes@.take(i + 1).drop_last() =~= nodes@.take(i as int));
            assert(nodes@.take(i + 1).last() == nodes@[i as int]);
        }
        if same_hash(&nodes[i].0, h) {
            return Some(&nodes[i].1);
        }
    }
    None
}

/// The children of a level, in the order of the level and not in whatever order the nodes came
/// back, or the document would be assembled out of order.
pub fn below(level: &Vec<Child>, nodes: &Vec<(crate::hash::Hash, Node)>) -> (r: Option<Vec<Child>>)
    ensures
        match r {
            Some(v) => level_below(nodes@, entries_of(level@)) == Some(entries_of(v@)),
            None => level_below(nodes@, entries_of(level@)) is None,
        },
{
    let ghost es = entries_of(level@);
    let mut out: Vec<Child> = Vec::new();
    let mut i: usize = 0;
    proof {
        assert(entries_of(out@) =~= Seq::<Entry>::empty());
    }
    while i < level.len()
        invariant
            i <= level@.len(),
            es == entries_of(level@),
            level_below(nodes@, es.take(i as int)) == Some(entries_of(out@)),
        decreases level@.len() - i,
    {
        proof {
            assert(es.take(i + 1).drop_last() =~= es.take(i as int));
            assert(es.take(i + 1).last() == level@[i as int]@);
        }
        match find_node(nodes, &level[i].hash) {
            Some(n) => {
                let ghost before = out@;
                append_children(&mut out, &n.children);
                proof {
                    assert(entries_of(out@) =~= entries_of(before) + n@);
                }
            },
            None => {
                proof {
                    lemma_below_prefix(nodes@, es, i + 1);
                }
                return None;
            },
        }
        i += 1;
    }
    proof {
        assert(es.take(i as int) =~= es);
    }
    Some(out)
}

fn append_children(out: &mut Vec<Child>, more: &Vec<Child>)
    ensures
        entries_of(final(out)@) == entries_of(old(out)@) + entries_of(more@),
{
    let ghost before = out@;
    let mut i: usize = 0;
    proof {
        assert(entries_of(out@) =~= entries_of(before) + entries_of(more@).take(0));
    }
    while i < more.len()
        invariant
            i <= more@.len(),
            entries_of(out@) == entries_of(before) + entries_of(more@).take(i as int),
        decreases more@.len() - i,
    {
        let c = &more[i];
        let ghost mid = out@;
        out.push(Child { hash: c.hash, nbytes: c.nbytes, nlines: c.nlines, is_leaf: c.is_leaf });
        proof {
            assert(entries_of(out@) =~= entries_of(mid).push(c@));
            assert(entries_of(more@).take(i + 1) =~= entries_of(more@).take(i as int).push(c@));
        }
        i += 1;
    }
    proof {
        assert(entries_of(more@).take(i as int) =~= entries_of(more@));
    }
}

proof fn lemma_below_prefix(nodes: Seq<(crate::hash::Hash, Node)>, es: Seq<Entry>, k: int)
    requires
        0 <= k <= es.len(),
        level_below(nodes, es.take(k)) is None,
    ensures
        level_below(nodes, es) is None,
    decreases es.len() - k,
{
    if k < es.len() {
        assert(es.take(k + 1).drop_last() =~= es.take(k));
        lemma_below_prefix(nodes, es, k + 1);
    } else {
        assert(es.take(k) =~= es);
    }
}

/// Are the entries of a level leaves, or nodes? A tree with both at one level would interleave
/// wrongly; none is ever built, and this declines rather than assumes.
pub fn leaves_or_nodes(level: &Vec<Child>) -> (r: Option<bool>)
    ensures
        r == Some(true) <==> forall|i: int| 0 <= i < level@.len() ==> (#[trigger] level@[i]).is_leaf,
        r == Some(false) <==> level@.len() > 0 && forall|i: int| 0 <= i < level@.len() ==> !(#[trigger] level@[i]).is_leaf,
{
    if level.len() == 0 {
        return Some(true);
    }
    let leaf: bool = level[0].is_leaf;
    let mut i: usize = 1;
    while i < level.len()
        invariant
            1 <= i <= level@.len(),
            leaf == level@[0].is_leaf,
            forall|k: int| 0 <= k < i ==> (#[trigger] level@[k]).is_leaf == leaf,
        decreases level@.len() - i,
    {
        if level[i].is_leaf != leaf {
            proof {
                assert(level@[0].is_leaf == leaf);
                assert(level@[i as int].is_leaf != leaf);
            }
            return None;
        }
        i += 1;
    }
    proof {
        assert(level@[0].is_leaf == leaf);
    }
    Some(leaf)
}

/// The walk stays on the tree: where the nodes are those of the store, a level of a complete tree
/// is followed by the level below it.
pub proof fn law_walk_descends(st: Store, nodes: Seq<(crate::hash::Hash, Node)>, es: Seq<Entry>, d: nat)
    requires
        d > 1,
        level_ok(st, es, d),
        forall|i: int|
            0 <= i < es.len() ==> children_in(nodes, (#[trigger] es[i]).hash) == Some(st.nodes[es[i].hash]),
    ensures
        level_below(nodes, es) == Some(expand(st, es)),
        level_ok(st, expand(st, es), (d - 1) as nat),
{
    lemma_below_is(st, nodes, es);
}

proof fn lemma_below_is(st: Store, nodes: Seq<(crate::hash::Hash, Node)>, es: Seq<Entry>)
    requires
        forall|i: int|
            0 <= i < es.len() ==> children_in(nodes, (#[trigger] es[i]).hash) == Some(st.nodes[es[i].hash]),
    ensures
        level_below(nodes, es) == Some(expand(st, es)),
    decreases es.len(),
{
    if es.len() > 0 {
        let front = es.drop_last();
        assert forall|i: int| 0 <= i < front.len() implies children_in(nodes, (#[trigger] front[i]).hash) == Some(
            st.nodes[front[i].hash],
        ) by {
            assert(front[i] == es[i]);
        }
        lemma_below_is(st, nodes, front);
        assert(es[es.len() - 1] == es.last());
    }
}


pub open spec fn lacks(s: Seq<char>, c: char) -> bool {
    forall|i: int| 0 <= i < s.len() ==> s[i] != c
}

pub(crate) proof fn lemma_split_first(x: Seq<char>, y: Seq<char>, c: char)
    requires
        lacks(x, c),
    ensures
        split_at(x.push(c) + y, c) == seq![x] + split_at(y, c),
{
    let s = x.push(c) + y;
    lemma_next_at(s, c, 0);
    let i = next_at(s, c, 0);
    assert(s[x.len() as int] == c);
    if i < x.len() {
        assert(s[i] == x[i]);
    }
    assert(s.take(i) =~= x);
    assert(s.skip(i + 1) =~= y);
}

pub(crate) proof fn lemma_split_lacks(s: Seq<char>, c: char, d: char)
    requires
        lacks(s, d) || c == d,
    ensures
        forall|k: int| 0 <= k < split_at(s, c).len() ==> lacks(#[trigger] split_at(s, c)[k], d),
    decreases s.len(),
{
    lemma_next_at(s, c, 0);
    let i = next_at(s, c, 0);
    if i < s.len() {
        lemma_split_lacks(s.skip(i + 1), c, d);
        let rest = split_at(s.skip(i + 1), c);
        assert forall|k: int| 0 <= k < split_at(s, c).len() implies lacks(#[trigger] split_at(s, c)[k], d) by {
            if k > 0 {
                assert(split_at(s, c)[k] == rest[k - 1]);
            }
        }
    }
}

/// The segments are parts, and none is empty.
proof fn lemma_segments(parts: Seq<Seq<char>>)
    ensures
        forall|k: int|
            0 <= k < segments(parts).len() ==> (#[trigger] segments(parts)[k]).len() > 0 && parts.contains(
                segments(parts)[k],
            ),
    decreases parts.len(),
{
    if parts.len() > 0 {
        let front = parts.drop_last();
        lemma_segments(front);
        assert forall|k: int| 0 <= k < segments(parts).len() implies (#[trigger] segments(parts)[k]).len() > 0
            && parts.contains(segments(parts)[k]) by {
            if k < segments(front).len() {
                let x = segments(front)[k];
                assert(segments(parts)[k] == x);
                let j = choose|j: int| 0 <= j < front.len() && front[j] == x;
                assert(parts[j] == x);
            } else {
                assert(parts[parts.len() - 1] == parts.last());
            }
        }
    }
}

proof fn lemma_segments_kept(parts: Seq<Seq<char>>, segs: Seq<Seq<char>>)
    requires
        forall|k: int| 0 <= k < segs.len() ==> (#[trigger] segs[k]).len() > 0,
        parts == seq![Seq::<char>::empty()] + segs,
    ensures
        segments(parts) == segs,
    decreases segs.len(),
{
    if segs.len() == 0 {
        assert(parts.drop_last() =~= Seq::<Seq<char>>::empty());
        assert(parts.last().len() == 0);
        assert(segs =~= Seq::<Seq<char>>::empty());
        assert(segments(parts.drop_last()) =~= Seq::<Seq<char>>::empty());
    } else {
        let front = segs.drop_last();
        assert(parts.drop_last() =~= seq![Seq::<char>::empty()] + front);
        assert(parts.last() == segs.last());
        assert(segs[segs.len() - 1] == segs.last());
        assert forall|k: int| 0 <= k < front.len() implies (#[trigger] front[k]).len() > 0 by {
            assert(front[k] == segs[k]);
        }
        lemma_segments_kept(parts.drop_last(), front);
        assert(front.push(segs.last()) =~= segs);
    }
}

/// What a join begins with.
pub(crate) proof fn lemma_joined_first(parts: Seq<Seq<char>>, sep: Seq<char>)
    requires
        parts.len() > 1,
    ensures
        joined_with(parts, sep) == parts[0] + sep + joined_with(parts.skip(1), sep),
    decreases parts.len(),
{
    if parts.len() == 2 {
        assert(parts.drop_last()[0] == parts[0]);
        assert(parts.skip(1)[0] == parts[1]);
        assert(joined_with(parts.skip(1), sep) == parts[1]);
        assert(joined_with(parts.drop_last(), sep) == parts[0]);
    } else {
        lemma_joined_first(parts.drop_last(), sep);
        assert(parts.drop_last().skip(1) =~= parts.skip(1).drop_last());
        assert(parts.skip(1).last() == parts.last());
        assert(joined_with(parts, sep) =~= parts[0] + sep + joined_with(parts.skip(1), sep));
    }
}

pub(crate) proof fn lemma_split_joined(segs: Seq<Seq<char>>)
    requires
        segs.len() > 0,
        forall|k: int| 0 <= k < segs.len() ==> lacks(#[trigger] segs[k], '/'),
    ensures
        split_at(joined_with(segs, "/"@), '/') == segs,
    decreases segs.len(),
{
    reveal_strlit("/");
    let j = joined_with(segs, "/"@);
    if segs.len() == 1 {
        lemma_next_at(segs[0], '/', 0);
        assert(split_at(j, '/') =~= segs);
    } else {
        let rest = segs.skip(1);
        lemma_joined_first(segs, "/"@);
        assert forall|k: int| 0 <= k < rest.len() implies lacks(#[trigger] rest[k], '/') by {
            assert(rest[k] == segs[k + 1]);
        }
        lemma_split_joined(rest);
        assert(j =~= segs[0].push('/') + joined_with(rest, "/"@));
        lemma_split_first(segs[0], joined_with(rest, "/"@), '/');
        assert(seq![segs[0]] + rest =~= segs);
    }
}

proof fn lemma_joined_lacks(parts: Seq<Seq<char>>, sep: Seq<char>, d: char)
    requires
        lacks(sep, d),
        forall|k: int| 0 <= k < parts.len() ==> lacks(#[trigger] parts[k], d),
    ensures
        lacks(joined_with(parts, sep), d),
    decreases parts.len(),
{
    if parts.len() > 1 {
        let front = parts.drop_last();
        assert forall|k: int| 0 <= k < front.len() implies lacks(#[trigger] front[k], d) by {
            assert(front[k] == parts[k]);
        }
        lemma_joined_lacks(front, sep, d);
        assert(parts[parts.len() - 1] == parts.last());
    }
}

/// A path in normal form is in normal form: bringing it there again changes nothing.
pub proof fn law_normal_is_stable(p: Seq<char>)
    requires
        sayable(p),
    ensures
        sayable(normal(p)),
        normal(normal(p)) == normal(p),
{
    reveal_strlit("/");
    reveal_strlit(".");
    reveal_strlit("..");
    let parts = split_at(p, '/');
    let segs = segments(parts);
    let n = normal(p);
    lemma_segments(parts);
    lemma_split_lacks(p, '/', '/');
    lemma_split_lacks(p, '/', '\0');
    assert forall|k: int| 0 <= k < segs.len() implies lacks(#[trigger] segs[k], '/') && lacks(segs[k], '\0')
        && !bad_segment(segs[k]) by {
        let j = choose|j: int| 0 <= j < parts.len() && parts[j] == segs[k];
        assert(parts[j] == segs[k]);
    }
    lemma_joined_lacks(segs, "/"@, '\0');
    let again = split_at(n, '/');
    let none = Seq::<char>::empty();
    let body = joined_with(segs, "/"@);
    assert(n =~= none.push('/') + body);
    lemma_split_first(none, body, '/');
    if segs.len() > 0 {
        lemma_split_joined(segs);
        assert(again == seq![none] + segs);
        lemma_segments_kept(again, segs);
        assert forall|i: int| 0 <= i < again.len() implies !bad_segment(#[trigger] again[i]) by {
            if i > 0 {
                assert(again[i] == segs[i - 1]);
            }
        }
    } else {
        assert(body =~= none);
        assert(split_at(none, '/') == seq![none]);
        assert(again =~= seq![none, none]);
        reveal_with_fuel(segments, 3);
        assert(again.drop_last() =~= seq![none]);
        assert(segments(again) =~= segs);
    }
}

} // verus!
