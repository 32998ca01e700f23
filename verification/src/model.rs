//! What a store holds, seen as mathematics: chunks and nodes by hash, the level sequences
//! under a node, and the text they spell.

use vstd::prelude::*;
use crate::chunker::{lemma_newlines_bound, lemma_newlines_concat, newlines};
use crate::node::{lemma_sums_concat, sum_bytes, sum_lines, Entry};

verus! {

/// The contents of a store.
#[verifier::ext_equal]
pub struct Store {
    /// Chunk bytes by hash.
    pub chunks: Map<Seq<u8>, Seq<u8>>,
    /// Children of each node by hash.
    pub nodes: Map<Seq<u8>, Seq<Entry>>,
    /// Root hash and version of each file.
    pub roots: Map<u64, (Seq<u8>, u64)>,
}

/// Everything `a` holds, `b` holds too.
pub open spec fn grows(a: Store, b: Store) -> bool {
    &&& forall|h: Seq<u8>| #[trigger]
        a.chunks.contains_key(h) ==> b.chunks.contains_key(h) && b.chunks[h] == a.chunks[h]
    &&& forall|h: Seq<u8>| #[trigger]
        a.nodes.contains_key(h) ==> b.nodes.contains_key(h) && b.nodes[h] == a.nodes[h]
}

/// The children of a sequence of node entries, one level down.
pub open spec fn expand(st: Store, es: Seq<Entry>) -> Seq<Entry>
    decreases es.len(),
{
    if es.len() == 0 {
        Seq::empty()
    } else {
        expand(st, es.drop_last()) + st.nodes[es.last().hash]
    }
}

/// A leaf entry whose chunk is stored and has the totals the entry says.
pub open spec fn leaf_ok(st: Store, e: Entry) -> bool {
    &&& e.is_leaf
    &&& st.chunks.contains_key(e.hash)
    &&& st.chunks[e.hash].len() == e.nbytes
    &&& newlines(st.chunks[e.hash]) == e.nlines
    &&& e.nbytes > 0
}

/// A node entry whose node is stored, is not empty, and has the totals the entry says.
pub open spec fn node_ok(st: Store, e: Entry) -> bool {
    &&& !e.is_leaf
    &&& st.nodes.contains_key(e.hash)
    &&& st.nodes[e.hash].len() > 0
    &&& sum_bytes(st.nodes[e.hash]) == e.nbytes
    &&& sum_lines(st.nodes[e.hash]) == e.nlines
}

/// A whole level sequence `d` levels above the chunks (`d == 1`: leaf entries).
pub open spec fn level_ok(st: Store, es: Seq<Entry>, d: nat) -> bool
    decreases d,
{
    if d == 0 {
        false
    } else if d == 1 {
        forall|i: int| 0 <= i < es.len() ==> leaf_ok(st, #[trigger] es[i])
    } else {
        &&& forall|i: int| 0 <= i < es.len() ==> node_ok(st, #[trigger] es[i])
        &&& level_ok(st, expand(st, es), (d - 1) as nat)
    }
}

/// The leaf entries under a level sequence.
pub open spec fn leaf_level(st: Store, es: Seq<Entry>, d: nat) -> Seq<Entry>
    decreases d,
{
    if d <= 1 {
        es
    } else {
        leaf_level(st, expand(st, es), (d - 1) as nat)
    }
}

/// The text of a sequence of leaf entries.
pub open spec fn leaf_text(st: Store, es: Seq<Entry>) -> Seq<u8>
    decreases es.len(),
{
    if es.len() == 0 {
        Seq::empty()
    } else {
        leaf_text(st, es.drop_last()) + st.chunks[es.last().hash]
    }
}

/// The text under a level sequence.
pub open spec fn level_text(st: Store, es: Seq<Entry>, d: nat) -> Seq<u8> {
    leaf_text(st, leaf_level(st, es, d))
}

/// How far a level sequence is above the chunks.
pub open spec fn height(st: Store, es: Seq<Entry>) -> nat {
    choose|d: nat| level_ok(st, es, d)
}

/// The children of a node that heads a complete tree: totals that fit the machine, and
/// every node and chunk below it stored.
pub open spec fn tree_ok(st: Store, es: Seq<Entry>) -> bool {
    &&& sum_bytes(es) <= usize::MAX
    &&& sum_lines(es) <= usize::MAX
    &&& es.len() > 0 ==> level_ok(st, es, height(st, es))
}

/// A store all of whose nodes head complete trees.
pub open spec fn sound(st: Store) -> bool {
    forall|h: Seq<u8>| #[trigger] st.nodes.contains_key(h) ==> tree_ok(st, st.nodes[h])
}

/// The text of the tree whose root node has these children.
pub open spec fn tree_text(st: Store, es: Seq<Entry>) -> Seq<u8> {
    if es.len() == 0 {
        Seq::empty()
    } else {
        level_text(st, es, height(st, es))
    }
}

/// The text of the document with this root.
pub open spec fn doc(st: Store, root: Seq<u8>) -> Seq<u8> {
    tree_text(st, st.nodes[root])
}

pub proof fn lemma_expand_concat(st: Store, a: Seq<Entry>, b: Seq<Entry>)
    ensures
        expand(st, a + b) == expand(st, a) + expand(st, b),
    decreases b.len(),
{
    if b.len() == 0 {
        assert(a + b =~= a);
        assert(expand(st, a) + expand(st, b) =~= expand(st, a));
    } else {
        lemma_expand_concat(st, a, b.drop_last());
        assert((a + b).drop_last() =~= a + b.drop_last());
        assert(expand(st, a + b) =~= expand(st, a) + expand(st, b));
    }
}

pub proof fn lemma_expand_one(st: Store, e: Entry)
    ensures
        expand(st, seq![e]) == st.nodes[e.hash],
{
    reveal_with_fuel(expand, 2);
    assert(seq![e].drop_last() =~= Seq::<Entry>::empty());
    assert(expand(st, seq![e]) =~= st.nodes[e.hash]);
}

pub proof fn lemma_level_concat(st: Store, a: Seq<Entry>, b: Seq<Entry>, d: nat)
    requires
        d >= 1,
    ensures
        level_ok(st, a + b, d) <==> level_ok(st, a, d) && level_ok(st, b, d),
        leaf_level(st, a + b, d) == leaf_level(st, a, d) + leaf_level(st, b, d),
    decreases d,
{
    let c = a + b;
    assert forall|i: int| 0 <= i < a.len() implies #[trigger] c[i] == a[i] by {}
    assert forall|i: int| 0 <= i < b.len() implies c[a.len() + i] == #[trigger] b[i] by {}
    if d > 1 {
        lemma_expand_concat(st, a, b);
        lemma_level_concat(st, expand(st, a), expand(st, b), (d - 1) as nat);
    }
    if level_ok(st, c, d) {
        if d == 1 {
            assert forall|i: int| 0 <= i < a.len() implies leaf_ok(st, #[trigger] a[i]) by {
                assert(c[i] == a[i]);
            }
            assert forall|i: int| 0 <= i < b.len() implies leaf_ok(st, #[trigger] b[i]) by {
                assert(c[a.len() + i] == b[i]);
            }
        } else {
            assert forall|i: int| 0 <= i < a.len() implies node_ok(st, #[trigger] a[i]) by {
                assert(c[i] == a[i]);
            }
            assert forall|i: int| 0 <= i < b.len() implies node_ok(st, #[trigger] b[i]) by {
                assert(c[a.len() + i] == b[i]);
            }
        }
    }
    if level_ok(st, a, d) && level_ok(st, b, d) {
        if d == 1 {
            assert forall|i: int| 0 <= i < c.len() implies leaf_ok(st, #[trigger] c[i]) by {
                if i >= a.len() {
                    assert(c[i] == b[i - a.len()]);
                }
            }
        } else {
            assert forall|i: int| 0 <= i < c.len() implies node_ok(st, #[trigger] c[i]) by {
                if i >= a.len() {
                    assert(c[i] == b[i - a.len()]);
                }
            }
        }
    }
}

pub proof fn lemma_leaf_text_concat(st: Store, a: Seq<Entry>, b: Seq<Entry>)
    ensures
        leaf_text(st, a + b) == leaf_text(st, a) + leaf_text(st, b),
    decreases b.len(),
{
    if b.len() == 0 {
        assert(a + b =~= a);
        assert(leaf_text(st, a) + leaf_text(st, b) =~= leaf_text(st, a));
    } else {
        lemma_leaf_text_concat(st, a, b.drop_last());
        assert((a + b).drop_last() =~= a + b.drop_last());
        assert(leaf_text(st, a + b) =~= leaf_text(st, a) + leaf_text(st, b));
    }
}

pub proof fn lemma_level_text_concat(st: Store, a: Seq<Entry>, b: Seq<Entry>, d: nat)
    requires
        d >= 1,
    ensures
        level_text(st, a + b, d) == level_text(st, a, d) + level_text(st, b, d),
{
    lemma_level_concat(st, a, b, d);
    lemma_leaf_text_concat(st, leaf_level(st, a, d), leaf_level(st, b, d));
}

/// The text of one entry.
pub open spec fn entry_text(st: Store, e: Entry, d: nat) -> Seq<u8> {
    if d <= 1 {
        st.chunks[e.hash]
    } else {
        level_text(st, st.nodes[e.hash], (d - 1) as nat)
    }
}

pub proof fn lemma_level_one(st: Store, e: Entry, d: nat)
    requires
        d >= 1,
        level_ok(st, seq![e], d),
    ensures
        d == 1 ==> leaf_ok(st, e),
        d > 1 ==> node_ok(st, e) && level_ok(st, st.nodes[e.hash], (d - 1) as nat),
        level_text(st, seq![e], d) == entry_text(st, e, d),
{
    let s = seq![e];
    assert(s[0] == e);
    if d == 1 {
        reveal_with_fuel(leaf_text, 2);
        assert(s.drop_last() =~= Seq::<Entry>::empty());
        assert(leaf_text(st, s) =~= st.chunks[e.hash]);
    } else {
        lemma_expand_one(st, e);
    }
}

/// What a level holds at one index, and the text before it.
pub proof fn lemma_level_at(st: Store, es: Seq<Entry>, d: nat, i: int)
    requires
        level_ok(st, es, d),
        0 <= i < es.len(),
    ensures
        d >= 1,
        d == 1 ==> leaf_ok(st, es[i]),
        d > 1 ==> node_ok(st, es[i]) && level_ok(st, st.nodes[es[i].hash], (d - 1) as nat),
        level_text(st, es.take(i + 1), d) == level_text(st, es.take(i), d) + entry_text(st, es[i], d),
        level_text(st, es, d) == level_text(st, es.take(i), d) + entry_text(st, es[i], d) + level_text(st, es.skip(i + 1), d),
        level_ok(st, es.take(i), d),
        level_ok(st, es.take(i + 1), d),
        level_ok(st, es.skip(i + 1), d),
        level_ok(st, es.skip(i), d),
{
    let a = es.take(i);
    let e = seq![es[i]];
    let b = es.skip(i + 1);
    assert(es =~= (a + e) + b);
    assert(es.take(i + 1) =~= a + e);
    assert(es.skip(i) =~= e + b);
    lemma_level_concat(st, a + e, b, d);
    lemma_level_concat(st, a, e, d);
    lemma_level_concat(st, e, b, d);
    lemma_level_text_concat(st, a + e, b, d);
    lemma_level_text_concat(st, a, e, d);
    lemma_level_one(st, es[i], d);
}

pub proof fn lemma_expand_sums(st: Store, es: Seq<Entry>)
    requires
        forall|i: int| 0 <= i < es.len() ==> node_ok(st, #[trigger] es[i]),
    ensures
        sum_bytes(expand(st, es)) == sum_bytes(es),
        sum_lines(expand(st, es)) == sum_lines(es),
        expand(st, es).len() >= es.len(),
    decreases es.len(),
{
    if es.len() > 0 {
        let front = es.drop_last();
        assert forall|i: int| 0 <= i < front.len() implies node_ok(st, #[trigger] front[i]) by {
            assert(front[i] == es[i]);
        }
        lemma_expand_sums(st, front);
        assert(node_ok(st, es[es.len() - 1]));
        lemma_sums_concat(expand(st, front), st.nodes[es.last().hash]);
    }
}

pub proof fn lemma_leaf_sums(st: Store, es: Seq<Entry>)
    requires
        forall|i: int| 0 <= i < es.len() ==> leaf_ok(st, #[trigger] es[i]),
    ensures
        sum_bytes(es) == leaf_text(st, es).len(),
        sum_lines(es) == newlines(leaf_text(st, es)),
        leaf_text(st, es).len() >= es.len(),
    decreases es.len(),
{
    if es.len() > 0 {
        let front = es.drop_last();
        assert forall|i: int| 0 <= i < front.len() implies leaf_ok(st, #[trigger] front[i]) by {
            assert(front[i] == es[i]);
        }
        lemma_leaf_sums(st, front);
        assert(leaf_ok(st, es[es.len() - 1]));
        lemma_newlines_concat(leaf_text(st, front), st.chunks[es.last().hash]);
    }
}

/// The totals of a level are those of its text.
pub proof fn lemma_level_sums(st: Store, es: Seq<Entry>, d: nat)
    requires
        level_ok(st, es, d),
    ensures
        sum_bytes(es) == level_text(st, es, d).len(),
        sum_lines(es) == newlines(level_text(st, es, d)),
        sum_lines(es) <= sum_bytes(es),
        es.len() <= level_text(st, es, d).len(),
    decreases d,
{
    if d == 1 {
        lemma_leaf_sums(st, es);
        lemma_newlines_bound(leaf_text(st, es));
    } else {
        lemma_expand_sums(st, es);
        lemma_level_sums(st, expand(st, es), (d - 1) as nat);
    }
}

/// The totals of an entry are those of its text.
pub proof fn lemma_entry_sums(st: Store, es: Seq<Entry>, d: nat, i: int)
    requires
        level_ok(st, es, d),
        0 <= i < es.len(),
    ensures
        entry_text(st, es[i], d).len() == es[i].nbytes,
        newlines(entry_text(st, es[i], d)) == es[i].nlines,
        es[i].nbytes > 0,
        es[i].nlines <= es[i].nbytes,
{
    lemma_level_at(st, es, d, i);
    if d > 1 {
        lemma_level_sums(st, st.nodes[es[i].hash], (d - 1) as nat);
    } else {
        lemma_newlines_bound(st.chunks[es[i].hash]);
    }
}

/// A level that is not empty is at one height only.
pub proof fn lemma_height_unique(st: Store, es: Seq<Entry>, d1: nat, d2: nat)
    requires
        level_ok(st, es, d1),
        level_ok(st, es, d2),
        es.len() > 0,
    ensures
        d1 == d2,
    decreases d1,
{
    let e = es[0];
    if d1 == 1 {
        assert(leaf_ok(st, es[0]));
        if d2 > 1 {
            assert(node_ok(st, es[0]));
        }
    } else {
        assert(node_ok(st, es[0]));
        if d2 == 1 {
            assert(leaf_ok(st, es[0]));
        } else {
            lemma_expand_sums(st, es);
            lemma_height_unique(st, expand(st, es), (d1 - 1) as nat, (d2 - 1) as nat);
        }
    }
}

pub proof fn lemma_height_is(st: Store, es: Seq<Entry>, d: nat)
    requires
        level_ok(st, es, d),
        es.len() > 0,
    ensures
        height(st, es) == d,
        level_ok(st, es, height(st, es)),
        tree_text(st, es) == level_text(st, es, d),
{
    lemma_height_unique(st, es, height(st, es), d);
}

pub proof fn lemma_expand_grows(a: Store, b: Store, es: Seq<Entry>)
    requires
        grows(a, b),
        forall|i: int| 0 <= i < es.len() ==> a.nodes.contains_key((#[trigger] es[i]).hash),
    ensures
        expand(a, es) == expand(b, es),
    decreases es.len(),
{
    if es.len() > 0 {
        let front = es.drop_last();
        assert forall|i: int| 0 <= i < front.len() implies a.nodes.contains_key((#[trigger] front[i]).hash) by {
            assert(front[i] == es[i]);
        }
        lemma_expand_grows(a, b, front);
        assert(a.nodes.contains_key(es[es.len() - 1].hash));
    }
}

pub proof fn lemma_leaf_text_grows(a: Store, b: Store, es: Seq<Entry>)
    requires
        grows(a, b),
        forall|i: int| 0 <= i < es.len() ==> a.chunks.contains_key((#[trigger] es[i]).hash),
    ensures
        leaf_text(a, es) == leaf_text(b, es),
    decreases es.len(),
{
    if es.len() > 0 {
        let front = es.drop_last();
        assert forall|i: int| 0 <= i < front.len() implies a.chunks.contains_key((#[trigger] front[i]).hash) by {
            assert(front[i] == es[i]);
        }
        lemma_leaf_text_grows(a, b, front);
        assert(a.chunks.contains_key(es[es.len() - 1].hash));
    }
}

/// A store that only grows keeps every level and its text.
pub proof fn lemma_level_grows(a: Store, b: Store, es: Seq<Entry>, d: nat)
    requires
        grows(a, b),
        level_ok(a, es, d),
    ensures
        level_ok(b, es, d),
        leaf_level(a, es, d) == leaf_level(b, es, d),
        level_text(a, es, d) == level_text(b, es, d),
    decreases d,
{
    if d == 1 {
        assert forall|i: int| 0 <= i < es.len() implies leaf_ok(b, #[trigger] es[i]) by {
            assert(leaf_ok(a, es[i]));
        }
        assert forall|i: int| 0 <= i < es.len() implies a.chunks.contains_key((#[trigger] es[i]).hash) by {
            assert(leaf_ok(a, es[i]));
        }
        lemma_leaf_text_grows(a, b, es);
    } else {
        assert forall|i: int| 0 <= i < es.len() implies node_ok(b, #[trigger] es[i]) by {
            assert(node_ok(a, es[i]));
        }
        assert forall|i: int| 0 <= i < es.len() implies a.nodes.contains_key((#[trigger] es[i]).hash) by {
            assert(node_ok(a, es[i]));
        }
        lemma_expand_grows(a, b, es);
        lemma_level_grows(a, b, expand(a, es), (d - 1) as nat);
    }
}

pub proof fn lemma_tree_grows(a: Store, b: Store, es: Seq<Entry>)
    requires
        grows(a, b),
        tree_ok(a, es),
    ensures
        tree_ok(b, es),
        tree_text(a, es) == tree_text(b, es),
        es.len() > 0 ==> height(a, es) == height(b, es),
{
    if es.len() > 0 {
        lemma_level_grows(a, b, es, height(a, es));
        lemma_height_is(b, es, height(a, es));
    }
}

/// A store that only grows keeps every document it holds.
pub proof fn law_documents_are_kept(a: Store, b: Store, root: Seq<u8>)
    requires
        grows(a, b),
        sound(a),
        a.nodes.contains_key(root),
    ensures
        b.nodes.contains_key(root),
        tree_ok(b, b.nodes[root]),
        doc(b, root) == doc(a, root),
{
    lemma_tree_grows(a, b, a.nodes[root]);
}

/// Storing one more complete node keeps a store sound.
pub proof fn lemma_sound_insert(a: Store, b: Store, h: Seq<u8>, es: Seq<Entry>)
    requires
        sound(a),
        grows(a, b),
        tree_ok(a, es),
        b.nodes == a.nodes.insert(h, es),
    ensures
        sound(b),
{
    lemma_tree_grows(a, b, es);
    assert forall|k: Seq<u8>| #[trigger] b.nodes.contains_key(k) implies tree_ok(b, b.nodes[k]) by {
        if k != h {
            assert(a.nodes.contains_key(k));
            lemma_tree_grows(a, b, a.nodes[k]);
        }
    }
}

/// Storing one more chunk keeps a store sound.
pub proof fn lemma_sound_chunks(a: Store, b: Store)
    requires
        sound(a),
        grows(a, b),
        b.nodes == a.nodes,
    ensures
        sound(b),
{
    assert forall|k: Seq<u8>| #[trigger] b.nodes.contains_key(k) implies tree_ok(b, b.nodes[k]) by {
        assert(a.nodes.contains_key(k));
        lemma_tree_grows(a, b, a.nodes[k]);
    }
}

} // verus!
