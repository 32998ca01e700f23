//! How a level of entries is grouped into nodes, and the tower of levels above it.

use vstd::prelude::*;
use crate::model::{expand, grows, level_ok, node_ok, Store};
use crate::node::{as_entry, hash_entries, lemma_sums_concat, sum_bytes, sum_lines, Entry};

verus! {

/// Does the node end after an entry with this hash? One hash in 32 says so.
pub open spec fn boundary(h: Seq<u8>) -> bool {
    h[4] % 32 == 0
}

/// A run of entries that makes a full node: its last entry is a boundary, or it has the
/// greatest width.
pub open spec fn closes(run: Seq<Entry>) -> bool {
    run.len() > 0 && (boundary(run.last().hash) || run.len() >= 512)
}

/// Grouping a level from the left: the full nodes so far, and the run still open.
pub open spec fn grouped(es: Seq<Entry>) -> (Seq<Seq<Entry>>, Seq<Entry>)
    decreases es.len(),
{
    if es.len() == 0 {
        (Seq::empty(), Seq::empty())
    } else {
        let (full, open) = grouped(es.drop_last());
        let run = open.push(es.last());
        if closes(run) {
            (full.push(run), Seq::empty())
        } else {
            (full, run)
        }
    }
}

/// The nodes a level of entries is grouped into.
pub open spec fn groups(es: Seq<Entry>) -> Seq<Seq<Entry>> {
    let (full, open) = grouped(es);
    if open.len() > 0 {
        full.push(open)
    } else {
        full
    }
}

/// The entries of a sequence of nodes.
pub open spec fn up_of(nodes: Seq<Seq<Entry>>) -> Seq<Entry> {
    Seq::new(nodes.len(), |i: int| as_entry(nodes[i]))
}

/// The level above.
pub open spec fn up(es: Seq<Entry>) -> Seq<Entry> {
    up_of(groups(es))
}

/// The level `k` steps above.
pub open spec fn lift(es: Seq<Entry>, k: nat) -> Seq<Entry>
    decreases k,
{
    if k == 0 {
        es
    } else {
        up(lift(es, (k - 1) as nat))
    }
}

/// The tower over `es` ends at level `k`: the first one that is a single node.
pub open spec fn is_top(es: Seq<Entry>, k: nat) -> bool {
    &&& groups(lift(es, k)).len() <= 1
    &&& forall|j: nat| j < k ==> (#[trigger] groups(lift(es, j))).len() > 1
}

/// The hash of the root of the tree over the leaf entries `es`.
pub open spec fn root_hash(es: Seq<Entry>) -> Seq<u8> {
    hash_entries(lift(es, choose|k: nat| is_top(es, k)))
}

/// The tower over `es` ends within `n` levels.
#[verifier::opaque]
pub open spec fn ends_within(es: Seq<Entry>, n: nat) -> bool {
    exists|k: nat| k < n && #[trigger] is_top(es, k)
}

/// `g` is a node of the tree over `es`.
pub open spec fn is_tree_node(es: Seq<Entry>, g: Seq<Entry>) -> bool {
    ||| es.len() == 0 && g == es
    ||| exists|j: nat| #[trigger] groups(lift(es, j)).contains(g)
}

/// The store has another node under the hash of a node of the tree over `es`.
#[verifier::opaque]
pub open spec fn node_clash(st: Store, es: Seq<Entry>) -> bool {
    exists|g: Seq<Entry>| #[trigger] is_tree_node(es, g) && st.nodes.contains_key(hash_entries(g))
        && st.nodes[hash_entries(g)] != g
}

/// Every node in `gs` is stored under its hash.
pub open spec fn nodes_held(st: Store, gs: Seq<Seq<Entry>>) -> bool {
    forall|i: int|
        0 <= i < gs.len() ==> st.nodes.contains_key(hash_entries(#[trigger] gs[i]))
            && st.nodes[hash_entries(gs[i])] == gs[i]
}

/// The nodes of the tree over `es` are stored, up to level `k`.
pub open spec fn held(st: Store, es: Seq<Entry>, k: nat) -> bool {
    forall|j: nat| j <= k ==> nodes_held(st, #[trigger] groups(lift(es, j)))
}

/// The entries of some nodes one after the other.
pub open spec fn flat(nodes: Seq<Seq<Entry>>) -> Seq<Entry>
    decreases nodes.len(),
{
    if nodes.len() == 0 {
        Seq::empty()
    } else {
        flat(nodes.drop_last()) + nodes.last()
    }
}

pub proof fn lemma_flat_concat(a: Seq<Seq<Entry>>, b: Seq<Seq<Entry>>)
    ensures
        flat(a + b) == flat(a) + flat(b),
    decreases b.len(),
{
    if b.len() == 0 {
        assert(a + b =~= a);
        assert(flat(a) + flat(b) =~= flat(a));
    } else {
        lemma_flat_concat(a, b.drop_last());
        assert((a + b).drop_last() =~= a + b.drop_last());
        assert(flat(a + b) =~= flat(a) + flat(b));
    }
}

/// Grouping loses nothing, makes no empty node, and every full node closes.
pub proof fn lemma_grouped(es: Seq<Entry>)
    ensures
        flat(grouped(es).0) + grouped(es).1 == es,
        forall|i: int| 0 <= i < grouped(es).0.len() ==> closes(#[trigger] grouped(es).0[i]),
        grouped(es).0.len() + grouped(es).1.len() <= es.len(),
        grouped(es).1.len() > 0 ==> !closes(grouped(es).1),
        es.len() > 0 ==> grouped(es).0.len() + grouped(es).1.len() > 0,
    decreases es.len(),
{
    if es.len() > 0 {
        let front = es.drop_last();
        lemma_grouped(front);
        let (full, open) = grouped(front);
        let run = open.push(es.last());
        assert(full.push(run).drop_last() =~= full);
        if closes(run) {
            assert(flat(full.push(run)) + Seq::<Entry>::empty() =~= (flat(full) + open).push(es.last()));
        } else {
            assert(flat(full) + run =~= (flat(full) + open).push(es.last()));
        }
        assert(front.push(es.last()) =~= es);
        assert forall|i: int| 0 <= i < grouped(es).0.len() implies closes(#[trigger] grouped(es).0[i]) by {
            if i < full.len() {
                assert(grouped(es).0[i] == full[i]);
            }
        }
    }
}

pub proof fn lemma_groups(es: Seq<Entry>)
    ensures
        flat(groups(es)) == es,
        forall|i: int| 0 <= i < groups(es).len() ==> (#[trigger] groups(es)[i]).len() > 0,
        groups(es).len() <= es.len(),
        es.len() > 0 ==> groups(es).len() > 0,
        es.len() == 0 ==> groups(es).len() == 0,
{
    lemma_grouped(es);
    let (full, open) = grouped(es);
    assert(full.push(open).drop_last() =~= full);
    if open.len() == 0 {
        assert(flat(full) + open =~= flat(full));
    }
    assert forall|i: int| 0 <= i < groups(es).len() implies (#[trigger] groups(es)[i]).len() > 0 by {
        if i < full.len() {
            assert(groups(es)[i] == full[i]);
            assert(closes(full[i]));
        }
    }
}

/// Where the grouping of a prefix leaves no open run, the rest is grouped on its own.
pub proof fn lemma_grouped_concat(a: Seq<Entry>, b: Seq<Entry>)
    requires
        grouped(a).1.len() == 0,
    ensures
        grouped(a + b).0 == grouped(a).0 + grouped(b).0,
        grouped(a + b).1 == grouped(b).1,
    decreases b.len(),
{
    if b.len() == 0 {
        assert(a + b =~= a);
        assert(grouped(a).0 + grouped(b).0 =~= grouped(a).0);
        assert(grouped(a).1 =~= grouped(b).1);
    } else {
        let bb = b.drop_last();
        lemma_grouped_concat(a, bb);
        assert((a + b).drop_last() =~= a + bb);
        let (full, open) = grouped(bb);
        let run = open.push(b.last());
        if closes(run) {
            assert((grouped(a).0 + full).push(run) =~= grouped(a).0 + full.push(run));
        }
    }
}

pub proof fn lemma_groups_concat(a: Seq<Entry>, b: Seq<Entry>)
    requires
        grouped(a).1.len() == 0,
    ensures
        groups(a + b) == groups(a) + groups(b),
{
    lemma_grouped_concat(a, b);
    let (full, open) = grouped(b);
    if open.len() > 0 {
        assert((grouped(a).0 + full).push(open) =~= grouped(a).0 + full.push(open));
    }
}

/// The first `p` full nodes of a level are the grouping of their own entries.
pub proof fn lemma_grouped_prefix(es: Seq<Entry>, p: int)
    requires
        0 <= p <= grouped(es).0.len(),
    ensures
        grouped(flat(grouped(es).0.take(p))).0 == grouped(es).0.take(p),
        grouped(flat(grouped(es).0.take(p))).1.len() == 0,
    decreases es.len(),
{
    let full = grouped(es).0;
    if es.len() == 0 {
        assert(full.take(p) =~= Seq::empty());
    } else {
        let front = es.drop_last();
        let (f0, o0) = grouped(front);
        if p <= f0.len() {
            lemma_grouped_prefix(front, p);
            assert(full.take(p) =~= f0.take(p));
        } else {
            lemma_grouped(es);
            assert(full.take(p) =~= full);
            assert(flat(full) + grouped(es).1 =~= flat(full));
        }
    }
}

/// The nodes of a level from node `p` on are the grouping of their own entries, and
/// the nodes before `p` leave no open run.
pub proof fn lemma_groups_split(es: Seq<Entry>, p: int)
    requires
        0 <= p < groups(es).len() || (p == groups(es).len() && grouped(es).1.len() == 0),
    ensures
        grouped(flat(groups(es).take(p))).1.len() == 0,
        groups(flat(groups(es).take(p))) == groups(es).take(p),
        groups(flat(groups(es).skip(p))) == groups(es).skip(p),
{
    let gs = groups(es);
    let a = flat(gs.take(p));
    let b = flat(gs.skip(p));
    let full = grouped(es).0;
    assert(gs.take(p) =~= full.take(p));
    lemma_grouped_prefix(es, p);
    lemma_groups(es);
    assert(gs =~= gs.take(p) + gs.skip(p));
    lemma_flat_concat(gs.take(p), gs.skip(p));
    lemma_groups_concat(a, b);
    assert(groups(a) =~= gs.take(p));
    assert(groups(b) =~= (groups(a) + groups(b)).skip(p));
    assert(groups(b) =~= gs.skip(p));
}

pub proof fn lemma_up_of_concat(a: Seq<Seq<Entry>>, b: Seq<Seq<Entry>>)
    ensures
        up_of(a + b) == up_of(a) + up_of(b),
{
    assert(up_of(a + b) =~= up_of(a) + up_of(b));
}

/// Going up and back down again gives the level back.
pub proof fn lemma_expand_up(st: Store, gs: Seq<Seq<Entry>>)
    requires
        nodes_held(st, gs),
    ensures
        expand(st, up_of(gs)) == flat(gs),
    decreases gs.len(),
{
    if gs.len() == 0 {
        assert(up_of(gs) =~= Seq::empty());
    } else {
        let front = gs.drop_last();
        assert forall|i: int| 0 <= i < front.len() implies st.nodes.contains_key(hash_entries(#[trigger] front[i]))
            && st.nodes[hash_entries(front[i])] == front[i] by {
            assert(front[i] == gs[i]);
        }
        lemma_expand_up(st, front);
        assert(up_of(gs).drop_last() =~= up_of(front));
        let last = gs[gs.len() - 1];
        assert(up_of(gs).last() == as_entry(last));
        assert(st.nodes[hash_entries(last)] == last);
    }
}

pub proof fn lemma_flat_sums(gs: Seq<Seq<Entry>>, i: int)
    requires
        0 <= i < gs.len(),
    ensures
        sum_bytes(gs[i]) <= sum_bytes(flat(gs)),
        sum_lines(gs[i]) <= sum_lines(flat(gs)),
{
    let a = gs.take(i);
    let b = gs.skip(i + 1);
    assert(gs =~= a.push(gs[i]) + b);
    lemma_flat_concat(a.push(gs[i]), b);
    assert(a.push(gs[i]).drop_last() =~= a);
    lemma_sums_concat(flat(a), gs[i]);
    lemma_sums_concat(flat(a) + gs[i], flat(b));
}

/// A level whose nodes are stored can be read from one level further up.
pub proof fn lemma_up_level(st: Store, es: Seq<Entry>, gs: Seq<Seq<Entry>>, d: nat)
    requires
        level_ok(st, es, d),
        flat(gs) == es,
        nodes_held(st, gs),
        forall|i: int| 0 <= i < gs.len() ==> (#[trigger] gs[i]).len() > 0,
        sum_bytes(es) <= u64::MAX,
        sum_lines(es) <= u64::MAX,
    ensures
        level_ok(st, up_of(gs), d + 1),
        expand(st, up_of(gs)) == es,
        sum_bytes(up_of(gs)) == sum_bytes(es),
        sum_lines(up_of(gs)) == sum_lines(es),
{
    let us = up_of(gs);
    lemma_expand_up(st, gs);
    assert forall|i: int| 0 <= i < us.len() implies node_ok(st, #[trigger] us[i]) by {
        assert(us[i] == as_entry(gs[i]));
        lemma_flat_sums(gs, i);
    }
    crate::model::lemma_expand_sums(st, us);
}

/// Levels never widen going up.
pub proof fn lemma_lift_narrows(es: Seq<Entry>, i: nat, j: nat)
    requires
        i <= j,
    ensures
        lift(es, j).len() <= lift(es, i).len(),
        lift(es, i).len() > 0 ==> lift(es, j).len() > 0,
    decreases j,
{
    if i < j {
        lemma_lift_narrows(es, i, (j - 1) as nat);
        lemma_groups(lift(es, (j - 1) as nat));
    }
}

pub proof fn lemma_lift_lift(es: Seq<Entry>, a: nat, b: nat)
    ensures
        lift(lift(es, a), b) == lift(es, a + b),
    decreases b,
{
    if b > 0 {
        lemma_lift_lift(es, a, (b - 1) as nat);
        assert((a + b - 1) as nat == a + (b - 1) as nat);
    }
}

pub proof fn lemma_top_unique(es: Seq<Entry>, a: nat, b: nat)
    requires
        is_top(es, a),
        is_top(es, b),
    ensures
        a == b,
        root_hash(es) == hash_entries(lift(es, a)),
{
    if a < b {
        assert(groups(lift(es, a)).len() > 1);
    } else if b < a {
        assert(groups(lift(es, b)).len() > 1);
    }
    let k = choose|k: nat| is_top(es, k);
    assert(is_top(es, k));
    if a < k {
        assert(groups(lift(es, a)).len() > 1);
    } else if k < a {
        assert(groups(lift(es, k)).len() > 1);
    }
}

pub proof fn lemma_nodes_held_grows(a: Store, b: Store, gs: Seq<Seq<Entry>>)
    requires
        grows(a, b),
        nodes_held(a, gs),
    ensures
        nodes_held(b, gs),
{
    assert forall|i: int| 0 <= i < gs.len() implies b.nodes.contains_key(hash_entries(#[trigger] gs[i]))
        && b.nodes[hash_entries(gs[i])] == gs[i] by {
        assert(a.nodes.contains_key(hash_entries(gs[i])));
    }
}

pub proof fn lemma_held_grows(a: Store, b: Store, es: Seq<Entry>, k: nat)
    requires
        grows(a, b),
        held(a, es, k),
    ensures
        held(b, es, k),
{
    assert forall|j: nat| j <= k implies nodes_held(b, #[trigger] groups(lift(es, j))) by {
        lemma_nodes_held_grows(a, b, groups(lift(es, j)));
    }
}

} // verus!
