//! What two trees share at their front and back, and the leaves in a byte range.

use vstd::prelude::*;
use crate::model::{
    height, leaf_level, lemma_expand_one, lemma_height_unique, lemma_level_at, lemma_level_concat, lemma_level_one,
    level_ok, sound, tree_ok, Store,
};
use crate::hash::same_hash;
use crate::node::{copy_children, entries_of, lemma_sums_concat, lemma_sums_take, sum_bytes, sum_lines, Child, Entry, Node};
use crate::storage::{plain_failure, Result, Storage};
use crate::tree::{doc_leaves, lemma_child_leaf, lemma_child_tree, lemma_level_leaf_sums, reads, LeafRef};

verus! {

/// Do two entries name the same chunk or the same node?
pub open spec fn same_child(a: Entry, b: Entry) -> bool {
    a.hash == b.hash && a.is_leaf == b.is_leaf
}

/// Bytes under the subtrees that two levels share at their front. The subtrees are compared
/// whole; where two differ, their children are.
pub open spec fn prefix_len(st: Store, ac: Seq<Entry>, da: nat, bc: Seq<Entry>, db: nat) -> nat
    decreases da + db, ac.len(),
{
    if ac.len() == 0 || bc.len() == 0 {
        0
    } else if same_child(ac[0], bc[0]) {
        ac[0].nbytes as nat + prefix_len(st, ac.skip(1), da, bc.skip(1), db)
    } else if da > 1 && db > 1 {
        prefix_len(st, st.nodes[ac[0].hash], (da - 1) as nat, st.nodes[bc[0].hash], (db - 1) as nat)
    } else if da > 1 {
        prefix_len(st, st.nodes[ac[0].hash], (da - 1) as nat, bc, db)
    } else if db > 1 {
        prefix_len(st, ac, da, st.nodes[bc[0].hash], (db - 1) as nat)
    } else {
        0
    }
}

/// Bytes under the subtrees that two levels share at their back, as far as they fit `budget`.
pub open spec fn suffix_len(st: Store, ac: Seq<Entry>, da: nat, bc: Seq<Entry>, db: nat, budget: int) -> nat
    decreases da + db, ac.len(),
{
    if ac.len() == 0 || bc.len() == 0 {
        0
    } else {
        let x = ac.last();
        let y = bc.last();
        if same_child(x, y) && x.nbytes <= budget {
            x.nbytes as nat + suffix_len(st, ac.drop_last(), da, bc.drop_last(), db, budget - x.nbytes)
        } else if da > 1 && db > 1 {
            suffix_len(st, st.nodes[x.hash], (da - 1) as nat, st.nodes[y.hash], (db - 1) as nat, budget)
        } else if da > 1 {
            suffix_len(st, st.nodes[x.hash], (da - 1) as nat, bc, db, budget)
        } else if db > 1 {
            suffix_len(st, ac, da, st.nodes[y.hash], (db - 1) as nat, budget)
        } else {
            0
        }
    }
}

/// Two entries of sound levels that name the same child are the same.
proof fn lemma_same_child(st: Store, x: Entry, da: nat, y: Entry, db: nat)
    requires
        level_ok(st, seq![x], da),
        level_ok(st, seq![y], db),
        same_child(x, y),
    ensures
        x == y,
        da == db,
{
    lemma_level_one(st, x, da);
    lemma_level_one(st, y, db);
    if da > 1 {
        lemma_height_unique(st, st.nodes[x.hash], (da - 1) as nat, (db - 1) as nat);
    }
}

/// A level is its first entry and the others.
proof fn lemma_level_head(st: Store, es: Seq<Entry>, d: nat)
    requires
        level_ok(st, es, d),
        es.len() > 0,
    ensures
        d >= 1,
        level_ok(st, seq![es[0]], d),
        level_ok(st, es.skip(1), d),
        leaf_level(st, es, d) == leaf_level(st, seq![es[0]], d) + leaf_level(st, es.skip(1), d),
        sum_bytes(leaf_level(st, seq![es[0]], d)) == es[0].nbytes,
        sum_bytes(es) == es[0].nbytes + sum_bytes(es.skip(1)),
        es[0].is_leaf == (d == 1),
        d > 1 ==> st.nodes.contains_key(es[0].hash) && st.nodes[es[0].hash].len() > 0 && level_ok(
            st,
            st.nodes[es[0].hash],
            (d - 1) as nat,
        ) && leaf_level(st, seq![es[0]], d) == leaf_level(st, st.nodes[es[0].hash], (d - 1) as nat) && sum_bytes(
            st.nodes[es[0].hash],
        ) == es[0].nbytes,
{
    let one = seq![es[0]];
    assert(es =~= one + es.skip(1));
    lemma_level_concat(st, one, es.skip(1), d);
    lemma_sums_concat(one, es.skip(1));
    lemma_level_one(st, es[0], d);
    lemma_level_leaf_sums(st, one, d);
    assert(one.drop_last() =~= Seq::<Entry>::empty());
    reveal_with_fuel(sum_bytes, 2);
    if d > 1 {
        lemma_expand_one(st, es[0]);
    }
}

/// A level is its last entry and the others.
proof fn lemma_level_tail(st: Store, es: Seq<Entry>, d: nat)
    requires
        level_ok(st, es, d),
        es.len() > 0,
    ensures
        d >= 1,
        level_ok(st, seq![es.last()], d),
        level_ok(st, es.drop_last(), d),
        leaf_level(st, es, d) == leaf_level(st, es.drop_last(), d) + leaf_level(st, seq![es.last()], d),
        sum_bytes(leaf_level(st, seq![es.last()], d)) == es.last().nbytes,
        es.last().is_leaf == (d == 1),
        d > 1 ==> st.nodes.contains_key(es.last().hash) && level_ok(st, st.nodes[es.last().hash], (d - 1) as nat)
            && leaf_level(st, seq![es.last()], d) == leaf_level(st, st.nodes[es.last().hash], (d - 1) as nat) && sum_bytes(
            st.nodes[es.last().hash],
        ) == es.last().nbytes,
{
    let one = seq![es.last()];
    assert(es =~= es.drop_last() + one);
    lemma_level_concat(st, es.drop_last(), one, d);
    lemma_level_one(st, es.last(), d);
    lemma_level_leaf_sums(st, one, d);
    assert(one.drop_last() =~= Seq::<Entry>::empty());
    reveal_with_fuel(sum_bytes, 2);
    if d > 1 {
        lemma_expand_one(st, es.last());
    }
}

/// Do two rows of leaves share their first `k`, which hold `p` bytes?
pub open spec fn shared_front(ra: Seq<Entry>, rb: Seq<Entry>, k: int, p: int) -> bool {
    &&& 0 <= k <= ra.len()
    &&& k <= rb.len()
    &&& ra.take(k) == rb.take(k)
    &&& sum_bytes(ra.take(k)) == p
}

/// Do two rows of leaves share their last `k`, which hold `p` bytes?
pub open spec fn shared_back(ra: Seq<Entry>, rb: Seq<Entry>, k: int, p: int) -> bool {
    &&& 0 <= k <= ra.len()
    &&& k <= rb.len()
    &&& ra.skip(ra.len() - k) == rb.skip(rb.len() - k)
    &&& sum_bytes(ra.skip(ra.len() - k)) == p
}

/// The shared front of two levels is a front of leaves that both have.
pub proof fn lemma_prefix(st: Store, ac: Seq<Entry>, da: nat, bc: Seq<Entry>, db: nat) -> (k: int)
    requires
        level_ok(st, ac, da),
        level_ok(st, bc, db),
    ensures
        shared_front(leaf_level(st, ac, da), leaf_level(st, bc, db), k, prefix_len(st, ac, da, bc, db) as int),
    decreases da + db, ac.len(),
{
    let ra = leaf_level(st, ac, da);
    let rb = leaf_level(st, bc, db);
    if ac.len() == 0 || bc.len() == 0 {
        assert(ra.take(0) =~= rb.take(0));
        0
    } else {
        lemma_level_head(st, ac, da);
        lemma_level_head(st, bc, db);
        let ha = leaf_level(st, seq![ac[0]], da);
        let hb = leaf_level(st, seq![bc[0]], db);
        if same_child(ac[0], bc[0]) {
            lemma_same_child(st, ac[0], da, bc[0], db);
            let k = lemma_prefix(st, ac.skip(1), da, bc.skip(1), db);
            let ta = leaf_level(st, ac.skip(1), da);
            let tb = leaf_level(st, bc.skip(1), db);
            assert(ra.take(ha.len() + k) =~= ha + ta.take(k));
            assert(rb.take(ha.len() + k) =~= hb + tb.take(k));
            lemma_sums_concat(ha, ta.take(k));
            ha.len() + k
        } else if da > 1 && db > 1 {
            let k = lemma_prefix(st, st.nodes[ac[0].hash], (da - 1) as nat, st.nodes[bc[0].hash], (db - 1) as nat);
            assert(ra.take(k) =~= ha.take(k));
            assert(rb.take(k) =~= hb.take(k));
            k
        } else if da > 1 {
            let k = lemma_prefix(st, st.nodes[ac[0].hash], (da - 1) as nat, bc, db);
            assert(ra.take(k) =~= ha.take(k));
            k
        } else if db > 1 {
            let k = lemma_prefix(st, ac, da, st.nodes[bc[0].hash], (db - 1) as nat);
            assert(rb.take(k) =~= hb.take(k));
            k
        } else {
            assert(ra.take(0) =~= rb.take(0));
            0
        }
    }
}

/// The shared back of two levels is a back of leaves that both have.
pub proof fn lemma_suffix(st: Store, ac: Seq<Entry>, da: nat, bc: Seq<Entry>, db: nat, budget: int) -> (k: int)
    requires
        level_ok(st, ac, da),
        level_ok(st, bc, db),
        budget >= 0,
    ensures
        shared_back(leaf_level(st, ac, da), leaf_level(st, bc, db), k, suffix_len(st, ac, da, bc, db, budget) as int),
        suffix_len(st, ac, da, bc, db, budget) <= budget,
    decreases da + db, ac.len(),
{
    let ra = leaf_level(st, ac, da);
    let rb = leaf_level(st, bc, db);
    let n = ra.len() as int;
    let m = rb.len() as int;
    if ac.len() == 0 || bc.len() == 0 {
        assert(ra.skip(n) =~= rb.skip(m));
        0
    } else {
        lemma_level_tail(st, ac, da);
        lemma_level_tail(st, bc, db);
        let x = ac.last();
        let y = bc.last();
        let ha = leaf_level(st, seq![x], da);
        let hb = leaf_level(st, seq![y], db);
        if same_child(x, y) && x.nbytes <= budget {
            lemma_same_child(st, x, da, y, db);
            let k = lemma_suffix(st, ac.drop_last(), da, bc.drop_last(), db, budget - x.nbytes);
            let ta = leaf_level(st, ac.drop_last(), da);
            let tb = leaf_level(st, bc.drop_last(), db);
            assert(ra.skip(n - ha.len() - k) =~= ta.skip(ta.len() - k) + ha);
            assert(rb.skip(m - ha.len() - k) =~= tb.skip(tb.len() - k) + hb);
            lemma_sums_concat(ta.skip(ta.len() - k), ha);
            ha.len() + k
        } else if da > 1 && db > 1 {
            let k = lemma_suffix(st, st.nodes[x.hash], (da - 1) as nat, st.nodes[y.hash], (db - 1) as nat, budget);
            assert(ra.skip(n - k) =~= ha.skip(ha.len() - k));
            assert(rb.skip(m - k) =~= hb.skip(hb.len() - k));
            k
        } else if da > 1 {
            let k = lemma_suffix(st, st.nodes[x.hash], (da - 1) as nat, bc, db, budget);
            assert(ra.skip(n - k) =~= ha.skip(ha.len() - k));
            k
        } else if db > 1 {
            let k = lemma_suffix(st, ac, da, st.nodes[y.hash], (db - 1) as nat, budget);
            assert(rb.skip(m - k) =~= hb.skip(hb.len() - k));
            k
        } else {
            assert(ra.skip(n) =~= rb.skip(m));
            0
        }
    }
}

/// The height at which the children of a root stand; an empty root is a row of no leaves.
pub open spec fn root_height(st: Store, es: Seq<Entry>) -> nat {
    if es.len() == 0 {
        1
    } else {
        height(st, es)
    }
}

/// The children of a node of a sound level.
fn children_of<S: Storage + ?Sized>(storage: &S, h: &crate::hash::Hash) -> (r: Result<Vec<Child>>)
    requires
        storage.store().nodes.contains_key(h@),
    ensures
        plain_failure(r),
        storage.local() ==> r is Ok,
        r matches Ok(v) ==> entries_of(v@) == storage.store().nodes[h@],
{
    match storage.node(h) {
        Ok(n) => Ok(n.children),
        Err(e) => Err(e),
    }
}

/// Bytes of the shared front of two trees.
pub(crate) fn common_prefix<S: Storage + ?Sized>(storage: &S, a: &Node, b: &Node) -> (r: Result<u64>)
    requires
        sound(storage.store()),
        tree_ok(storage.store(), a@),
        tree_ok(storage.store(), b@),
    ensures
        plain_failure(r),
        storage.local() ==> r is Ok,
        r matches Ok(n) ==> n == prefix_len(
            storage.store(),
            a@,
            root_height(storage.store(), a@),
            b@,
            root_height(storage.store(), b@),
        ),
{
    let ghost st = storage.store();
    let ghost mut da = root_height(st, a@);
    let ghost mut db = root_height(st, b@);
    let ghost total = prefix_len(st, a@, da, b@, db);
    let mut off: u64 = 0;
    let mut ac: Vec<Child> = copy_children(a.children.as_slice());
    let mut bc: Vec<Child> = copy_children(b.children.as_slice());
    let mut ai: usize = 0;
    let mut bi: usize = 0;
    proof {
        assert(entries_of(ac@) =~= a@);
        assert(entries_of(bc@) =~= b@);
        assert(a@.skip(0) =~= a@);
        assert(b@.skip(0) =~= b@);
    }
    loop
        invariant
            st == storage.store(),
            total == prefix_len(st, a@, root_height(st, a@), b@, root_height(st, b@)),
            ai <= ac@.len(),
            bi <= bc@.len(),
            level_ok(st, entries_of(ac@).skip(ai as int), da),
            level_ok(st, entries_of(bc@).skip(bi as int), db),
            off + sum_bytes(entries_of(ac@).skip(ai as int)) <= usize::MAX,
            total == off + prefix_len(st, entries_of(ac@).skip(ai as int), da, entries_of(bc@).skip(bi as int), db),
        decreases da + db, ac@.len() - ai,
    {
        let ghost xa = entries_of(ac@).skip(ai as int);
        let ghost xb = entries_of(bc@).skip(bi as int);
        if ai >= ac.len() || bi >= bc.len() {
            return Ok(off);
        }
        let x: Child = ac[ai];
        let y: Child = bc[bi];
        proof {
            assert(xa[0] == x@ && xb[0] == y@);
            lemma_level_head(st, xa, da);
            lemma_level_head(st, xb, db);
            assert(entries_of(ac@).skip(ai + 1) =~= xa.skip(1));
            assert(entries_of(bc@).skip(bi + 1) =~= xb.skip(1));
        }
        if same_hash(&x.hash, &y.hash) && x.is_leaf == y.is_leaf {
            off = off + x.nbytes;
            ai += 1;
            bi += 1;
        } else if x.is_leaf && y.is_leaf {
            return Ok(off);
        } else {
            if !x.is_leaf {
                ac = match children_of(storage, &x.hash) {
                    Ok(v) => v,
                    Err(e) => {
                        return Err(e);
                    },
                };
                ai = 0;
                proof {
                    da = (da - 1) as nat;
                    assert(entries_of(ac@).skip(0) =~= entries_of(ac@));
                }
            }
            if !y.is_leaf {
                bc = match children_of(storage, &y.hash) {
                    Ok(v) => v,
                    Err(e) => {
                        return Err(e);
                    },
                };
                bi = 0;
                proof {
                    db = (db - 1) as nat;
                    assert(entries_of(bc@).skip(0) =~= entries_of(bc@));
                }
            }
        }
    }
}

/// Bytes of the shared back of two trees, not exceeding `budget`.
pub(crate) fn common_suffix<S: Storage + ?Sized>(storage: &S, a: &Node, b: &Node, budget: u64) -> (r: Result<u64>)
    requires
        sound(storage.store()),
        tree_ok(storage.store(), a@),
        tree_ok(storage.store(), b@),
    ensures
        plain_failure(r),
        storage.local() ==> r is Ok,
        r matches Ok(n) ==> n == suffix_len(
            storage.store(),
            a@,
            root_height(storage.store(), a@),
            b@,
            root_height(storage.store(), b@),
            budget as int,
        ),
{
    let ghost st = storage.store();
    let ghost mut da = root_height(st, a@);
    let ghost mut db = root_height(st, b@);
    let ghost total = suffix_len(st, a@, da, b@, db, budget as int);
    let mut suf: u64 = 0;
    let mut ac: Vec<Child> = copy_children(a.children.as_slice());
    let mut bc: Vec<Child> = copy_children(b.children.as_slice());
    proof {
        assert(entries_of(ac@) =~= a@);
        assert(entries_of(bc@) =~= b@);
    }
    loop
        invariant
            st == storage.store(),
            total == suffix_len(st, a@, root_height(st, a@), b@, root_height(st, b@), budget as int),
            level_ok(st, entries_of(ac@), da),
            level_ok(st, entries_of(bc@), db),
            suf <= budget,
            total == suf + suffix_len(st, entries_of(ac@), da, entries_of(bc@), db, budget - suf),
        decreases da + db, ac@.len(),
    {
        let ghost xa = entries_of(ac@);
        let ghost xb = entries_of(bc@);
        if ac.len() == 0 || bc.len() == 0 {
            return Ok(suf);
        }
        let x: Child = ac[ac.len() - 1];
        let y: Child = bc[bc.len() - 1];
        proof {
            assert(xa.last() == x@ && xb.last() == y@);
            lemma_level_tail(st, xa, da);
            lemma_level_tail(st, xb, db);
        }
        if same_hash(&x.hash, &y.hash) && x.is_leaf == y.is_leaf && x.nbytes <= budget - suf {
            suf = suf + x.nbytes;
            ac.pop();
            bc.pop();
            proof {
                assert(entries_of(ac@) =~= xa.drop_last());
                assert(entries_of(bc@) =~= xb.drop_last());
            }
        } else if x.is_leaf && y.is_leaf {
            return Ok(suf);
        } else {
            if !x.is_leaf {
                ac = match children_of(storage, &x.hash) {
                    Ok(v) => v,
                    Err(e) => {
                        return Err(e);
                    },
                };
                proof {
                    da = (da - 1) as nat;
                }
            }
            if !y.is_leaf {
                bc = match children_of(storage, &y.hash) {
                    Ok(v) => v,
                    Err(e) => {
                        return Err(e);
                    },
                };
                proof {
                    db = (db - 1) as nat;
                }
            }
        }
    }
}

/// A leaf and where it begins.
#[verifier::ext_equal]
pub struct Spot {
    pub leaf: Entry,
    pub byte_off: int,
    pub line_off: int,
}

pub open spec fn spot_of(l: LeafRef) -> Spot {
    Spot {
        leaf: Entry { hash: l.hash@, nbytes: l.nbytes, nlines: l.nlines, is_leaf: true },
        byte_off: l.byte_off as int,
        line_off: l.line_off as int,
    }
}

pub open spec fn spots_of(ls: Seq<LeafRef>) -> Seq<Spot> {
    Seq::new(ls.len(), |i: int| spot_of(ls[i]))
}

/// The leaves of a row that hold a byte of `[from, to)`, counted from byte `boff` and line `loff`.
pub open spec fn picked(row: Seq<Entry>, from: int, to: int, boff: int, loff: int) -> Seq<Spot>
    decreases row.len(),
{
    if row.len() == 0 {
        Seq::empty()
    } else {
        let front = row.drop_last();
        let at = boff + sum_bytes(front);
        let rest = picked(front, from, to, boff, loff);
        if at + row.last().nbytes > from && at < to {
            rest.push(Spot { leaf: row.last(), byte_off: at, line_off: loff + sum_lines(front) })
        } else {
            rest
        }
    }
}

pub proof fn lemma_picked_concat(a: Seq<Entry>, b: Seq<Entry>, from: int, to: int, boff: int, loff: int)
    ensures
        picked(a + b, from, to, boff, loff) == picked(a, from, to, boff, loff) + picked(
            b,
            from,
            to,
            boff + sum_bytes(a),
            loff + sum_lines(a),
        ),
    decreases b.len(),
{
    if b.len() == 0 {
        assert(a + b =~= a);
        assert(picked(a, from, to, boff, loff) + Seq::<Spot>::empty() =~= picked(a, from, to, boff, loff));
    } else {
        lemma_picked_concat(a, b.drop_last(), from, to, boff, loff);
        assert((a + b).drop_last() =~= a + b.drop_last());
        lemma_sums_concat(a, b.drop_last());
        assert(picked(a + b, from, to, boff, loff) =~= picked(a, from, to, boff, loff) + picked(
            b,
            from,
            to,
            boff + sum_bytes(a),
            loff + sum_lines(a),
        ));
    }
}

/// A row that ends by `from`, or begins at `to` or later, has no leaf in between.
pub proof fn lemma_picked_none(row: Seq<Entry>, from: int, to: int, boff: int, loff: int)
    requires
        boff + sum_bytes(row) <= from || boff >= to,
    ensures
        picked(row, from, to, boff, loff) == Seq::<Spot>::empty(),
    decreases row.len(),
{
    if row.len() > 0 {
        lemma_picked_none(row.drop_last(), from, to, boff, loff);
    }
}

/// Leaves of `root` overlapping `[from, to)`.
pub(crate) fn leaves_in<S: Storage + ?Sized>(storage: &S, root: &crate::hash::Hash, from: u64, to: u64) -> (r: Result<
    Vec<LeafRef>,
>)
    requires
        sound(storage.store()),
    ensures
        plain_failure(r),
        reads(storage.local(), storage.store(), root@, r),
        r matches Ok(v) ==> spots_of(v@) == picked(
            doc_leaves(storage.store(), storage.store().nodes[root@]),
            from as int,
            to as int,
            0,
            0,
        ),
{
    let n = match storage.node(root) {
        Ok(n) => n,
        Err(e) => {
            return Err(e);
        },
    };
    let mut out: Vec<LeafRef> = Vec::new();
    match collect_leaves(storage, &n, 0, 0, from, to, &mut out) {
        Ok(_) => {
            assert(spots_of(out@) =~= picked(doc_leaves(storage.store(), n@), from as int, to as int, 0, 0));
            Ok(out)
        },
        Err(e) => Err(e),
    }
}

/// What one more child adds to the leaves picked.
proof fn lemma_picked_child(st: Store, es: Seq<Entry>, d: nat, i: int, from: int, to: int, boff: int, loff: int)
    requires
        sound(st),
        tree_ok(st, es),
        d == height(st, es),
        0 <= i < es.len(),
        boff + sum_bytes(es.take(i)) < to,
    ensures
        level_ok(st, es.take(i + 1), d),
        sum_bytes(es.take(i)) + es[i].nbytes <= sum_bytes(es),
        sum_lines(es.take(i)) + es[i].nlines <= sum_lines(es),
        sum_bytes(es.take(i + 1)) == sum_bytes(es.take(i)) + es[i].nbytes,
        sum_lines(es.take(i + 1)) == sum_lines(es.take(i)) + es[i].nlines,
        ({
            let b = boff + sum_bytes(es.take(i));
            let l = loff + sum_lines(es.take(i));
            let lb = leaf_level(st, seq![es[i]], d);
            let new = picked(lb, from, to, b, l);
            &&& picked(leaf_level(st, es.take(i + 1), d), from, to, boff, loff) == picked(
                leaf_level(st, es.take(i), d),
                from,
                to,
                boff,
                loff,
            ) + new
            &&& b + es[i].nbytes <= from ==> new == Seq::<Spot>::empty()
            &&& b + es[i].nbytes > from && es[i].is_leaf ==> new == seq![Spot { leaf: es[i], byte_off: b, line_off: l }]
            &&& !es[i].is_leaf ==> {
                let child = st.nodes[es[i].hash];
                &&& st.nodes.contains_key(es[i].hash)
                &&& tree_ok(st, child)
                &&& height(st, child) < height(st, es)
                &&& lb == doc_leaves(st, child)
                &&& sum_bytes(child) == es[i].nbytes
                &&& sum_lines(child) == es[i].nlines
            }
        }),
{
    let one = seq![es[i]];
    let b = boff + sum_bytes(es.take(i));
    let l = loff + sum_lines(es.take(i));
    let la = leaf_level(st, es.take(i), d);
    let lb = leaf_level(st, one, d);
    lemma_level_at(st, es, d, i);
    lemma_sums_take(es, i);
    lemma_sums_take(es, i + 1);
    lemma_level_leaf_sums(st, es.take(i), d);
    assert(es.take(i + 1) =~= es.take(i) + one);
    lemma_level_concat(st, es.take(i), one, d);
    lemma_level_leaf_sums(st, one, d);
    assert(one.drop_last() =~= Seq::<Entry>::empty());
    assert(sum_bytes(one) == es[i].nbytes && sum_lines(one) == es[i].nlines) by {
        reveal_with_fuel(sum_bytes, 2);
        reveal_with_fuel(sum_lines, 2);
    }
    lemma_picked_concat(la, lb, from, to, boff, loff);
    if b + es[i].nbytes <= from {
        lemma_picked_none(lb, from, to, b, l);
    }
    if es[i].is_leaf {
        lemma_child_leaf(st, es, i);
        if b + es[i].nbytes > from {
            reveal_with_fuel(picked, 2);
            assert(picked(one, from, to, b, l) =~= seq![Spot { leaf: es[i], byte_off: b, line_off: l }]);
        }
    } else {
        lemma_child_tree(st, es, i);
        lemma_expand_one(st, es[i]);
    }
}

fn collect_leaves<S: Storage + ?Sized>(
    storage: &S,
    node: &Node,
    boff: u64,
    loff: u64,
    from: u64,
    to: u64,
    out: &mut Vec<LeafRef>,
) -> (r: Result<()>)
    requires
        sound(storage.store()),
        tree_ok(storage.store(), node@),
        boff + sum_bytes(node@) <= usize::MAX,
        loff + sum_lines(node@) <= usize::MAX,
    ensures
        plain_failure(r),
        storage.local() ==> r is Ok,
        r is Ok ==> spots_of(final(out)@) == spots_of(old(out)@) + picked(
            doc_leaves(storage.store(), node@),
            from as int,
            to as int,
            boff as int,
            loff as int,
        ),
    decreases height(storage.store(), node@),
{
    let ghost st = storage.store();
    let ghost es = node@;
    let ghost d = height(st, es);
    let ghost start = spots_of(out@);
    let mut b: u64 = boff;
    let mut l: u64 = loff;
    let mut i: usize = 0;
    if node.children.len() == 0 {
        assert(spots_of(out@) =~= start + picked(doc_leaves(st, es), from as int, to as int, boff as int, loff as int));
        return Ok(());
    }
    proof {
        lemma_level_at(st, es, d, 0);
        lemma_level_concat(st, es.take(0), es.take(0), d);
        assert(es.take(0) + es.take(0) =~= es.take(0));
        assert(leaf_level(st, es.take(0), d).len() == 0);
        assert(spots_of(out@) =~= start + picked(
            leaf_level(st, es.take(0), d),
            from as int,
            to as int,
            boff as int,
            loff as int,
        ));
    }
    while i < node.children.len() && b < to
        invariant
            i <= node.children@.len(),
            st == storage.store(),
            es == node@,
            d == height(st, es),
            sound(st),
            tree_ok(st, es),
            es.len() > 0,
            boff + sum_bytes(es) <= usize::MAX,
            loff + sum_lines(es) <= usize::MAX,
            start == spots_of(old(out)@),
            b == boff + sum_bytes(es.take(i as int)),
            l == loff + sum_lines(es.take(i as int)),
            level_ok(st, es.take(i as int), d),
            spots_of(out@) == start + picked(
                leaf_level(st, es.take(i as int), d),
                from as int,
                to as int,
                boff as int,
                loff as int,
            ),
        decreases node.children@.len() - i,
    {
        let c = node.children[i];
        assert(es[i as int] == c@);
        let ghost before = spots_of(out@);
        let ghost lb = leaf_level(st, seq![es[i as int]], d);
        let ghost new = picked(lb, from as int, to as int, b as int, l as int);
        proof {
            lemma_picked_child(st, es, d, i as int, from as int, to as int, boff as int, loff as int);
        }
        if b + c.nbytes > from {
            if c.is_leaf {
                let x = LeafRef { hash: c.hash, byte_off: b, line_off: l, nbytes: c.nbytes, nlines: c.nlines };
                out.push(x);
                proof {
                    assert(new == seq![spot_of(x)]);
                    assert(spots_of(out@) =~= before + new);
                }
            } else {
                match storage.node(&c.hash) {
                    Ok(child) => {
                        assert(lb == doc_leaves(st, child@));
                        match collect_leaves(storage, &child, b, l, from, to, out) {
                            Ok(_) => {},
                            Err(e) => {
                                return Err(e);
                            },
                        }
                    },
                    Err(e) => {
                        return Err(e);
                    },
                }
            }
        } else {
            assert(spots_of(out@) =~= before + new);
        }
        assert(spots_of(out@) == before + new);
        b = b + c.nbytes;
        l = l + c.nlines;
        i += 1;
        assert(spots_of(out@) =~= start + picked(
            leaf_level(st, es.take(i as int), d),
            from as int,
            to as int,
            boff as int,
            loff as int,
        ));
    }
    proof {
        let la = leaf_level(st, es.take(i as int), d);
        let lb = leaf_level(st, es.skip(i as int), d);
        assert(es =~= es.take(i as int) + es.skip(i as int));
        lemma_level_concat(st, es.take(i as int), es.skip(i as int), d);
        lemma_level_leaf_sums(st, es.take(i as int), d);
        lemma_picked_concat(la, lb, from as int, to as int, boff as int, loff as int);
        if i == node.children@.len() {
            assert(es.take(i as int) =~= es);
        } else {
            lemma_picked_none(lb, from as int, to as int, b as int, l as int);
            assert(picked(la, from as int, to as int, boff as int, loff as int) + Seq::<Spot>::empty()
                =~= picked(la, from as int, to as int, boff as int, loff as int));
        }
    }
    Ok(())
}

} // verus!
