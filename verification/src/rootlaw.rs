//! What the root of a tree tells of its leaves and its text.

use vstd::prelude::*;
use crate::chunker::ChunkParams;
use crate::cursor::{lemma_leaf_row, lemma_row_level, row};
use crate::edit::lemma_tower_rows;
use crate::levels::{held, is_top, lemma_lift_narrows, lift, root_hash, up};
use crate::model::{doc, grows, height, law_documents_are_kept, leaf_ok, node_ok, sound, tree_ok, Store};
use crate::node::{as_entry, hash_entries, Entry};
use crate::rebuild::{canonical_rows, spliced};
use crate::tree::{built_up, canonical, doc_leaves, tree_held};

verus! {

/// No hash stands for two things in the two stores.
pub open spec fn agree(a: Store, b: Store) -> bool {
    &&& forall|h: Seq<u8>| #[trigger]
        a.chunks.contains_key(h) && b.chunks.contains_key(h) ==> a.chunks[h] == b.chunks[h]
    &&& forall|h: Seq<u8>| #[trigger]
        a.nodes.contains_key(h) && b.nodes.contains_key(h) ==> a.nodes[h] == b.nodes[h]
}

/// A root that two stores have stands for one text, unless some hash they both hold has two
/// contents.
pub proof fn law_root_tells_text(a: Store, b: Store, root: Seq<u8>)
    requires
        sound(a),
        sound(b),
        agree(a, b),
        a.nodes.contains_key(root),
        b.nodes.contains_key(root),
    ensures
        doc(a, root) == doc(b, root),
{
    let both = Store {
        chunks: a.chunks.union_prefer_right(b.chunks),
        nodes: a.nodes.union_prefer_right(b.nodes),
        roots: a.roots,
    };
    assert(grows(a, both)) by {
        assert forall|h: Seq<u8>| #[trigger] a.chunks.contains_key(h) implies both.chunks.contains_key(h) && both.chunks[h]
            == a.chunks[h] by {}
        assert forall|h: Seq<u8>| #[trigger] a.nodes.contains_key(h) implies both.nodes.contains_key(h) && both.nodes[h]
            == a.nodes[h] by {}
    }
    assert(grows(b, both));
    law_documents_are_kept(a, both, root);
    law_documents_are_kept(b, both, root);
}

/// Of two documents that were built, in whatever stores, the roots are equal exactly when the texts
/// are, unless some hash that both stores hold has two contents.
pub proof fn law_equal_roots_equal_texts(a: Store, b: Store, p: ChunkParams, x: Seq<u8>, y: Seq<u8>)
    requires
        sound(a),
        sound(b),
        agree(a, b),
        a.nodes.contains_key(x),
        b.nodes.contains_key(y),
        canonical(a, p, x, doc(a, x)),
        canonical(b, p, y, doc(b, y)),
    ensures
        x == y <==> doc(a, x) == doc(b, y),
{
    if x == y {
        law_root_tells_text(a, b, x);
    }
}

/// The leaves of a stored tree are the entries it was built over.
pub(crate) proof fn lemma_held_leaves(st: Store, es: Seq<Entry>, root: Seq<u8>)
    requires
        sound(st),
        tree_held(st, es, root),
        forall|i: int| 0 <= i < es.len() ==> (#[trigger] es[i]).is_leaf,
    ensures
        doc_leaves(st, st.nodes[root]) == es,
        st.nodes[root].len() > 0 ==> canonical_rows(st, es, st.nodes[root]),
{
    reveal(tree_held);
    let top = st.nodes[root];
    let k = choose|k: nat| #[trigger] is_top(es, k) && held(st, es, k) && st.nodes[root] == lift(es, k) && root
        == hash_entries(lift(es, k));
    assert(tree_ok(st, top));
    lemma_lift_narrows(es, 0, k);
    assert(lift(es, 0) == es);
    if top.len() == 0 {
        assert(es =~= Seq::empty());
    } else {
        let d = height(st, top);
        if d - 1 < k {
            let i = (d - 1) as nat;
            lemma_row_level(st, top, d, i);
            lemma_tower_rows(st, es, top, k, i);
            let r = row(st, top, i);
            let below = lift(es, (k - i - 1) as nat);
            lemma_lift_narrows(es, 0, (k - i) as nat);
            assert(lift(es, (k - i) as nat) == up(below));
            assert(r[0] == as_entry(crate::levels::groups(below)[0]));
            assert(leaf_ok(st, r[0]));
        } else if d - 1 > k {
            lemma_row_level(st, top, d, k);
            lemma_tower_rows(st, es, top, k, k);
            let r = row(st, top, k);
            assert(r[0] == es[0]);
            assert(node_ok(st, r[0]));
        }
        assert(d == k + 1);
        lemma_tower_rows(st, es, top, k, k);
        lemma_leaf_row(st, top, d, k);
    }
}

/// Replacing leaves of a tree that was built gives the root that building over the new row of
/// leaves gives, and a tree with just that row. Here `h` is what the replacement gives for the tree
/// under `root`, and `g` what building does.
pub proof fn law_replace_is_rebuild(
    st: Store,
    root: Seq<u8>,
    i: int,
    new: Seq<Entry>,
    j: int,
    fin: Store,
    h: Seq<u8>,
    a: Store,
    b: Store,
    g: Seq<u8>,
)
    requires
        sound(st),
        tree_held(st, doc_leaves(st, st.nodes[root]), root),
        forall|n: int|
            0 <= n < doc_leaves(st, st.nodes[root]).len() ==> (#[trigger] doc_leaves(st, st.nodes[root])[n]).is_leaf,
        0 <= i <= j <= doc_leaves(st, st.nodes[root]).len(),
        forall|n: int| 0 <= n < new.len() ==> (#[trigger] new[n]).is_leaf,
        sound(fin),
        ({
            let t = spliced(doc_leaves(st, st.nodes[root]), i, new, j);
            &&& tree_held(fin, t, h) && h == root_hash(t)
            &&& built_up(a, b, t, g)
        }),
    ensures
        st.nodes[root].len() > 0 ==> canonical_rows(st, doc_leaves(st, st.nodes[root]), st.nodes[root]),
        h == g,
        doc_leaves(fin, fin.nodes[h]) == spliced(doc_leaves(st, st.nodes[root]), i, new, j),
{
    let leaves = doc_leaves(st, st.nodes[root]);
    let t = spliced(leaves, i, new, j);
    lemma_held_leaves(st, leaves, root);
    assert forall|n: int| 0 <= n < t.len() implies (#[trigger] t[n]).is_leaf by {
        if n < i {
            assert(t[n] == leaves[n]);
        } else if n < i + new.len() {
            assert(t[n] == new[n - i]);
        } else {
            assert(t[n] == leaves[n - i - new.len() + j]);
        }
    }
    lemma_held_leaves(fin, t, h);
}

} // verus!
