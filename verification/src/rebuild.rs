//! Rebuilding a tree after entries of one level were replaced.

use vstd::prelude::*;
use crate::cursor::{
    cursor_ok, frame_entry, lemma_path_at, lemma_path_end, lemma_path_top, lemma_row_level, node_pos, pos, row, row_of,
    Cursor, FrameView,
};
use crate::levels::{
    closes, ends_within, flat, grouped, groups, held, is_top, is_tree_node, lemma_expand_up, lemma_flat_concat,
    lemma_groups, lemma_groups_concat, lemma_groups_split, lemma_lift_lift, lemma_lift_narrows, lemma_nodes_held_grows,
    lemma_top_unique, lemma_up_level, lemma_up_of_concat, lift, node_clash, nodes_held, root_hash, up, up_of,
};
use crate::model::{
    doc, expand, grows, height, leaf_ok, lemma_expand_concat, lemma_height_is, lemma_level_at, lemma_level_concat,
    lemma_level_grows, lemma_tree_grows, level_ok, level_text, sound, tree_ok, Store,
};
use crate::node::{as_entry, entries_of, hash_entries, lemma_sums_concat, sum_bytes, sum_lines, Child, Entry, Node};
use crate::storage::{plain_failure, Result, Storage};
use crate::tree::{
    build_up, built_up, chain, collapses, normalize_root, only_nodes, push_entry, put_nodes, single, tree_held, views,
    MAX_LEVELS,
};

verus! {

/// Where the kept suffix of a level begins: at the cursor `k`, or at the end.
pub open spec fn suffix_pos(st: Store, k: Option<Seq<FrameView>>, len: int) -> int {
    match k {
        Some(c) => pos(st, c),
        None => len,
    }
}

/// Where the kept suffix of a level begins, given where it begins one level up.
pub open spec fn suffix_below(st: Store, above: Seq<Entry>, k: Option<Seq<FrameView>>, len: int) -> int {
    match k {
        Some(c) => expand(st, above.take(pos(st, c))).len() as int,
        None => len,
    }
}

pub open spec fn opt_view(k: Option<Cursor>) -> Option<Seq<FrameView>> {
    match k {
        Some(c) => Some(c@),
        None => None,
    }
}

/// Two cursors into one level of one tree, `b` not before `a`.
pub open spec fn in_order(st: Store, a: Seq<FrameView>, b: Option<Seq<FrameView>>) -> bool {
    match b {
        Some(c) => cursor_ok(st, c) && c.len() == a.len() && c[0].node == a[0].node && pos(st, a) <= pos(st, c),
        None => true,
    }
}

/// The entries that are grouped anew: those of `a`'s node before `a`, the new ones, and the
/// old ones from `q` up to `e`.
pub open spec fn regrouped(row: Seq<Entry>, np: int, p: int, new: Seq<Entry>, q: int, e: int) -> Seq<Entry> {
    row.subrange(np, p) + new + row.subrange(q, e)
}

proof fn lemma_grouped_push(run: Seq<Entry>, e: Entry)
    ensures
        ({
            let (full, open) = grouped(run);
            let next = open.push(e);
            grouped(run.push(e)) == if closes(next) {
                (full.push(next), Seq::<Entry>::empty())
            } else {
                (full, next)
            }
        }),
{
    assert(run.push(e).drop_last() =~= run);
}

/// One level of the rebuild. Returns the new nodes replacing the affected old nodes and
/// the replaced range `[a', k')` one level up (`a' == None` when the parent was the root).
#[verifier::rlimit(60)]
fn rebuild_level<S: Storage + ?Sized>(storage: &S, a: &Cursor, k: Option<Cursor>, new_entries: &[Child]) -> (r: Result<
    (Vec<Node>, Option<Cursor>, Option<Cursor>),
>)
    requires
        sound(storage.store()),
        cursor_ok(storage.store(), a@),
        in_order(storage.store(), a@, opt_view(k)),
    ensures
        plain_failure(r),
        storage.local() ==> r is Ok,
        r matches Ok(x) ==> {
            let st = storage.store();
            let row = row_of(st, a@);
            let q = suffix_pos(st, opt_view(k), row.len() as int);
            &&& x.1 is None <==> a@.len() == 1
            &&& a@.len() == 1 ==> x.2 is None
            &&& x.1 matches Some(up) ==> up@ == a@.drop_last() && cursor_ok(st, up@)
            &&& a@.len() > 1 ==> in_order(st, a@.drop_last(), opt_view(x.2))
            &&& ({
                let e = suffix_below(st, row_of(st, a@.drop_last()), opt_view(x.2), row.len() as int);
                let run = regrouped(row, node_pos(st, a@), pos(st, a@), entries_of(new_entries@), q, e);
                &&& q <= e <= row.len()
                &&& views(x.0@) == groups(run)
                &&& x.2 is Some ==> grouped(run).1.len() == 0 && pos(st, a@.drop_last()) < pos(
                    st,
                    opt_view(x.2)->Some_0,
                )
            })
        },
{
    let ghost st = storage.store();
    let ghost row = row_of(st, a@);
    let ghost p = pos(st, a@);
    let ghost np = node_pos(st, a@);
    let ghost q = suffix_pos(st, opt_view(k), row.len() as int);
    let ghost new = entries_of(new_entries@);
    let ghost k0 = opt_view(k);
    proof {
        lemma_path_at(st, a@);
        lemma_path_top(st, a@);
        if let Some(c) = k0 {
            lemma_path_at(st, c);
        }
    }
    let parent_is_root: bool = a.depth() == 1;
    let mut nodes: Vec<Node> = Vec::new();
    let mut cur: Vec<Child> = Vec::new();
    // Prefix: entries of the node containing `a` that precede `a`.
    let a_node = a.node();
    let a_idx: usize = a.idx();
    let mut i: usize = 0;
    assert(views(nodes@) =~= Seq::empty());
    assert(entries_of(cur@) =~= Seq::empty());
    assert(row.subrange(np, np) =~= Seq::empty());
    while i < a_idx
        invariant
            i <= a_idx,
            a_idx < a_node.children@.len(),
            a_node@ == a@.last().node,
            0 <= np,
            np + a_node@.len() <= row.len(),
            row.subrange(np, np + a_node@.len()) == a_node@,
            views(nodes@) == grouped(row.subrange(np, np + i)).0,
            entries_of(cur@) == grouped(row.subrange(np, np + i)).1,
        decreases a_idx - i,
    {
        proof {
            assert(row[np + i] == row.subrange(np, np + a_node@.len())[i as int]);
            assert(a_node@[i as int] == a_node.children@[i as int]@);
            lemma_grouped_push(row.subrange(np, np + i), row[np + i]);
            assert(row.subrange(np, np + i + 1) =~= row.subrange(np, np + i).push(row[np + i]));
        }
        push_entry(&mut nodes, &mut cur, a_node.children[i]);
        i += 1;
    }
    let ghost head = row.subrange(np, p);
    let mut j: usize = 0;
    assert(head + new.take(0) =~= head);
    while j < new_entries.len()
        invariant
            j <= new_entries@.len(),
            new == entries_of(new_entries@),
            views(nodes@) == grouped(head + new.take(j as int)).0,
            entries_of(cur@) == grouped(head + new.take(j as int)).1,
        decreases new_entries@.len() - j,
    {
        proof {
            assert(new[j as int] == new_entries@[j as int]@);
            lemma_grouped_push(head + new.take(j as int), new[j as int]);
            assert(head + new.take(j + 1) =~= (head + new.take(j as int)).push(new[j as int]));
        }
        push_entry(&mut nodes, &mut cur, new_entries[j]);
        j += 1;
    }
    assert(new.take(j as int) =~= new);
    // Suffix: old entries from `k` onward until the node split resynchronises.
    let mut k_up: Option<Cursor> = None;
    let ghost mut e: int = row.len() as int;
    match k {
        None => {
            assert(row.subrange(q, q) =~= Seq::empty());
            assert(regrouped(row, np, p, new, q, q) =~= head + new);
        },
        Some(first) => {
            let mut c = first;
            let ghost mut t: int = q;
            assert(row.subrange(q, q) =~= Seq::empty());
            assert(regrouped(row, np, p, new, q, q) =~= head + new);
            loop
                invariant_except_break
                    st == storage.store(),
                    sound(st),
                    cursor_ok(st, a@),
                    row == row_of(st, a@),
                    cursor_ok(st, c@),
                    c@.len() == a@.len(),
                    c@[0].node == a@[0].node,
                    parent_is_root == (a@.len() == 1),
                    pos(st, c@) == t,
                    0 <= np <= p <= q <= t < row.len(),
                    p == pos(st, a@),
                    np == node_pos(st, a@),
                    views(nodes@) == grouped(regrouped(row, np, p, new, q, t)).0,
                    entries_of(cur@) == grouped(regrouped(row, np, p, new, q, t)).1,
                    k_up is None,
                    e == row.len(),
                ensures
                    q <= e <= row.len(),
                    views(nodes@) == grouped(regrouped(row, np, p, new, q, e)).0,
                    entries_of(cur@) == grouped(regrouped(row, np, p, new, q, e)).1,
                    parent_is_root ==> k_up is None,
                    k_up is None ==> e == row.len(),
                    a@.len() > 1 ==> in_order(st, a@.drop_last(), opt_view(k_up)),
                    k_up is Some ==> grouped(regrouped(row, np, p, new, q, e)).1.len() == 0 && pos(
                        st,
                        a@.drop_last(),
                    ) < pos(st, opt_view(k_up)->Some_0) && e == expand(
                        st,
                        row_of(st, a@.drop_last()).take(pos(st, opt_view(k_up)->Some_0)),
                    ).len(),
                decreases row.len() - t,
            {
                let x = c.entry();
                proof {
                    lemma_path_at(st, c@);
                    assert(x@ == row[t]);
                    lemma_grouped_push(regrouped(row, np, p, new, q, t), row[t]);
                    assert(regrouped(row, np, p, new, q, t + 1) =~= regrouped(row, np, p, new, q, t).push(row[t]));
                }
                push_entry(&mut nodes, &mut cur, x);
                if cur.len() == 0 && !parent_is_root && c.is_last_in_node() {
                    // New boundary coincides with an old node end: everything after is shared.
                    let mut above = c.parent().unwrap();
                    let ghost cu = above@;
                    let ghost au = a@.drop_last();
                    proof {
                        assert(cu == c@.drop_last());
                        assert(cu[0] == c@[0] && au[0] == a@[0]);
                        lemma_path_at(st, cu);
                        lemma_path_at(st, au);
                        lemma_path_at(st, a@);
                        lemma_node_order(st, a@, c@);
                    }
                    match above.advance(storage) {
                        Ok(true) => {
                            proof {
                                crate::cursor::lemma_expand_at(st, row_of(st, cu), pos(st, cu));
                                e = t + 1;
                            }
                            k_up = Some(above);
                        },
                        Ok(false) => {
                            proof {
                                lemma_path_end(st, c@);
                                e = t + 1;
                            }
                        },
                        Err(err) => {
                            return Err(err);
                        },
                    }
                    break;
                }
                match c.advance(storage) {
                    Ok(true) => {
                        proof {
                            lemma_path_at(st, c@);
                            t = t + 1;
                        }
                    },
                    Ok(false) => {
                        break;
                    },
                    Err(err) => {
                        return Err(err);
                    },
                }
            }
        },
    }
    let ghost run = regrouped(row, np, p, new, q, e);
    if cur.len() > 0 {
        let ghost n0 = nodes@;
        let ghost open = entries_of(cur@);
        nodes.push(Node::new(cur));
        assert(views(nodes@) =~= views(n0).push(open));
    }
    if parent_is_root {
        return Ok((nodes, None, None));
    }
    let a_up = a.parent();
    proof {
        assert(a@.drop_last()[0] == a@[0]);
    }
    Ok((nodes, a_up, k_up))
}

/// A later entry is in no earlier node.
proof fn lemma_node_order(st: Store, a: Seq<FrameView>, c: Seq<FrameView>)
    requires
        cursor_ok(st, a),
        cursor_ok(st, c),
        a.len() == c.len(),
        a.len() > 1,
        a[0].node == c[0].node,
        pos(st, a) <= pos(st, c),
    ensures
        pos(st, a.drop_last()) <= pos(st, c.drop_last()),
{
    let au = a.drop_last();
    let cu = c.drop_last();
    assert(au[0] == a[0] && cu[0] == c[0]);
    lemma_path_at(st, a);
    lemma_path_at(st, c);
    lemma_path_at(st, au);
    lemma_path_at(st, cu);
    let r = row_of(st, au);
    let x = pos(st, au);
    let y = pos(st, cu);
    if y < x {
        crate::cursor::lemma_expand_at(st, r, y);
        lemma_expand_concat(st, r.take(y + 1), r.subrange(y + 1, x));
        assert(r.take(x) =~= r.take(y + 1) + r.subrange(y + 1, x));
    }
}

/// A level with the entries `[p, q)` replaced.
pub open spec fn spliced(row: Seq<Entry>, p: int, new: Seq<Entry>, q: int) -> Seq<Entry> {
    row.take(p) + new + row.skip(q)
}

/// The entries of a level with some replaced, by the nodes above that hold them.
#[verifier::rlimit(50)]
proof fn lemma_splice_parts(st: Store, above: Seq<Entry>, pu: int, qu: int, p: int, new: Seq<Entry>, q: int)
    requires
        0 <= pu <= qu <= above.len(),
        ({
            let np = expand(st, above.take(pu)).len() as int;
            let e = expand(st, above.take(qu)).len() as int;
            np <= p <= q <= e
        }),
    ensures
        ({
            let row = expand(st, above);
            let np = expand(st, above.take(pu)).len() as int;
            let e = expand(st, above.take(qu)).len() as int;
            spliced(row, p, new, q) == expand(st, above.take(pu)) + regrouped(row, np, p, new, q, e) + expand(
                st,
                above.skip(qu),
            )
        }),
{
    let row = expand(st, above);
    let np = expand(st, above.take(pu)).len() as int;
    let e = expand(st, above.take(qu)).len() as int;
    assert(above =~= above.take(pu) + above.skip(pu));
    lemma_expand_concat(st, above.take(pu), above.skip(pu));
    assert(above =~= above.take(qu) + above.skip(qu));
    lemma_expand_concat(st, above.take(qu), above.skip(qu));
    assert(row.take(np) =~= expand(st, above.take(pu)));
    assert(row.skip(e) =~= expand(st, above.skip(qu)));
    lemma_regroup(row, np, p, new, q, e);
}

proof fn lemma_regroup(row: Seq<Entry>, np: int, p: int, new: Seq<Entry>, q: int, e: int)
    requires
        0 <= np <= p <= q <= e <= row.len(),
    ensures
        spliced(row, p, new, q) == row.take(np) + regrouped(row, np, p, new, q, e) + row.skip(e),
{
    assert(row.take(p) =~= row.take(np) + row.subrange(np, p));
    assert(row.skip(q) =~= row.subrange(q, e) + row.skip(e));
    assert(spliced(row, p, new, q) =~= row.take(np) + regrouped(row, np, p, new, q, e) + row.skip(e));
}

/// The front and the back of a level are levels.
proof fn lemma_level_parts(st: Store, above: Seq<Entry>, d: nat, pu: int, qu: int)
    requires
        0 <= pu <= qu <= above.len(),
        level_ok(st, above, d),
        d > 0,
    ensures
        level_ok(st, above.take(pu), d),
        level_ok(st, above.skip(qu), d),
{
    assert(above =~= above.take(pu) + above.skip(pu));
    lemma_level_concat(st, above.take(pu), above.skip(pu), d);
    assert(above =~= above.take(qu) + above.skip(qu));
    lemma_level_concat(st, above.take(qu), above.skip(qu), d);
}

/// Replacing nodes one level up replaces the entries they hold.
#[verifier::rlimit(50)]
proof fn lemma_splice_up(
    st: Store,
    above: Seq<Entry>,
    d: nat,
    pu: int,
    qu: int,
    p: int,
    new: Seq<Entry>,
    q: int,
    gs: Seq<Seq<Entry>>,
)
    requires
        0 <= pu <= qu <= above.len(),
        level_ok(st, above, d + 1),
        d >= 1,
        ({
            let row = expand(st, above);
            let np = expand(st, above.take(pu)).len() as int;
            let e = expand(st, above.take(qu)).len() as int;
            &&& np <= p <= q <= e
            &&& flat(gs) == regrouped(row, np, p, new, q, e)
            &&& level_ok(st, spliced(row, p, new, q), d)
            &&& sum_bytes(spliced(row, p, new, q)) <= usize::MAX
            &&& sum_lines(spliced(row, p, new, q)) <= usize::MAX
        }),
        nodes_held(st, gs),
        forall|i: int| 0 <= i < gs.len() ==> (#[trigger] gs[i]).len() > 0,
    ensures
        ({
            let row = expand(st, above);
            let t = spliced(row, p, new, q);
            let tu = spliced(above, pu, up_of(gs), qu);
            &&& expand(st, tu) == t
            &&& level_ok(st, tu, d + 1)
            &&& level_text(st, tu, d + 1) == level_text(st, t, d)
            &&& sum_bytes(tu) == sum_bytes(t)
            &&& sum_lines(tu) == sum_lines(t)
        }),
{
    let row = expand(st, above);
    let t = spliced(row, p, new, q);
    let run = flat(gs);
    let front = above.take(pu);
    let back = above.skip(qu);
    let a = expand(st, front);
    let b = expand(st, back);
    let tu = spliced(above, pu, up_of(gs), qu);
    lemma_splice_parts(st, above, pu, qu, p, new, q);
    assert(t == a + run + b);
    lemma_level_concat(st, a + run, b, d);
    lemma_level_concat(st, a, run, d);
    lemma_sums_concat(a + run, b);
    lemma_sums_concat(a, run);
    lemma_up_level(st, run, gs, d);
    lemma_level_parts(st, above, d + 1, pu, qu);
    lemma_level_concat(st, front, up_of(gs), d + 1);
    lemma_level_concat(st, front + up_of(gs), back, d + 1);
    lemma_expand_concat(st, front + up_of(gs), back);
    lemma_expand_concat(st, front, up_of(gs));
    assert(expand(st, tu) == t);
    crate::model::lemma_expand_sums(st, tu);
}


/// Where the level above is the grouping of this one, so it is after the replacement.
#[verifier::rlimit(50)]
proof fn lemma_splice_groups(
    st: Store,
    row: Seq<Entry>,
    pu: int,
    qu: int,
    p: int,
    new: Seq<Entry>,
    q: int,
    gs: Seq<Seq<Entry>>,
)
    requires
        nodes_held(st, groups(row)),
        0 <= pu < qu <= groups(row).len(),
        ({
            let above = up(row);
            let np = expand(st, above.take(pu)).len() as int;
            let e = expand(st, above.take(qu)).len() as int;
            let run = regrouped(row, np, p, new, q, e);
            &&& np <= p <= q <= e
            &&& gs == groups(run)
            &&& qu < groups(row).len() ==> grouped(run).1.len() == 0
        }),
    ensures
        groups(spliced(row, p, new, q)) == groups(row).take(pu) + gs + groups(row).skip(qu),
        up(spliced(row, p, new, q)) == spliced(up(row), pu, up_of(gs), qu),
        nodes_held(st, gs) ==> nodes_held(st, groups(spliced(row, p, new, q))),
{
    let all = groups(row);
    let above = up(row);
    let np = expand(st, above.take(pu)).len() as int;
    let e = expand(st, above.take(qu)).len() as int;
    let run = regrouped(row, np, p, new, q, e);
    let t = spliced(row, p, new, q);
    lemma_groups(row);
    lemma_held_part(st, all, 0, pu);
    lemma_held_part(st, all, 0, qu);
    assert(all.subrange(0, pu) =~= all.take(pu));
    assert(all.subrange(0, qu) =~= all.take(qu));
    assert(above.take(pu) =~= up_of(all.take(pu)));
    assert(above.take(qu) =~= up_of(all.take(qu)));
    lemma_expand_up(st, all.take(pu));
    lemma_expand_up(st, all.take(qu));
    let a = flat(all.take(pu));
    let b = flat(all.skip(qu));
    assert(all =~= all.take(pu) + all.skip(pu));
    lemma_flat_concat(all.take(pu), all.skip(pu));
    assert(all =~= all.take(qu) + all.skip(qu));
    lemma_flat_concat(all.take(qu), all.skip(qu));
    assert(row.take(np) =~= a);
    assert(row.skip(e) =~= b);
    assert(t =~= a + (run + b));
    lemma_groups_split(row, pu);
    lemma_groups_concat(a, run + b);
    if qu < all.len() {
        lemma_groups_split(row, qu);
        lemma_groups_concat(run, b);
    } else {
        assert(all.skip(qu) =~= Seq::empty());
        assert(b =~= Seq::empty());
        assert(run + b =~= run);
        assert(gs + all.skip(qu) =~= gs);
    }
    assert(groups(t) =~= all.take(pu) + gs + all.skip(qu));
    lemma_up_of_concat(all.take(pu) + gs, all.skip(qu));
    lemma_up_of_concat(all.take(pu), gs);
    assert(up_of(all.skip(qu)) =~= above.skip(qu));
    assert(up(t) =~= spliced(above, pu, up_of(gs), qu));
    if nodes_held(st, gs) {
        assert forall|i: int| 0 <= i < groups(t).len() implies st.nodes.contains_key(
            hash_entries(#[trigger] groups(t)[i]),
        ) && st.nodes[hash_entries(groups(t)[i])] == groups(t)[i] by {
            if i < pu {
                assert(groups(t)[i] == all[i]);
            } else if i < pu + gs.len() {
                assert(groups(t)[i] == gs[i - pu]);
            } else {
                assert(groups(t)[i] == all[i - pu - gs.len() + qu]);
            }
        }
    }
}

proof fn lemma_held_part(st: Store, gs: Seq<Seq<Entry>>, a: int, b: int)
    requires
        nodes_held(st, gs),
        0 <= a <= b <= gs.len(),
    ensures
        nodes_held(st, gs.subrange(a, b)),
{
    assert forall|i: int| 0 <= i < b - a implies st.nodes.contains_key(
        hash_entries(#[trigger] gs.subrange(a, b)[i]),
    ) && st.nodes[hash_entries(gs.subrange(a, b)[i])] == gs.subrange(a, b)[i] by {
        assert(gs.subrange(a, b)[i] == gs[a + i]);
    }
}

/// Following single children down the tower of levels over `es`.
proof fn lemma_chain_lift(st: Store, es: Seq<Entry>, j: nat, cur: Seq<u8>, h: Seq<u8>, n: nat)
    requires
        level_ok(st, es, 1),
        es.len() > 0,
        forall|i: nat| i < j ==> nodes_held(st, #[trigger] groups(lift(es, i))),
        st.nodes[cur] == lift(es, j),
        chain(st, cur, h, n),
    ensures
        n <= j,
        st.nodes[h] == lift(es, (j - n) as nat),
        n > 0 ==> st.nodes.contains_key(h) && h == hash_entries(lift(es, (j - n) as nat)) && lift(
            es,
            (j - n + 1) as nat,
        ).len() == 1,
    decreases n,
{
    if n > 0 {
        let top = lift(es, j);
        assert(single(top));
        if j == 0 {
            assert(leaf_ok(st, es[0]));
        } else {
            let below = lift(es, (j - 1) as nat);
            lemma_groups(below);
            assert(groups(below).len() == 1);
            crate::tree::lemma_single_group(below);
            assert(nodes_held(st, groups(lift(es, (j - 1) as nat))));
            assert(st.nodes[hash_entries(groups(below)[0])] == groups(below)[0]);
            let next = top[0].hash;
            assert(next == hash_entries(below));
            lemma_chain_lift(st, es, (j - 1) as nat, next, h, (n - 1) as nat);
        }
    }
}

/// What building upward from level `d` of the tower over `es` and collapsing the result
/// stores is the tree over `es`.
proof fn lemma_tower(a: Store, st: Store, es: Seq<Entry>, d: nat, root: Seq<u8>, h: Seq<u8>)
    requires
        d >= 1,
        level_ok(st, es, 1),
        forall|i: nat| i < d ==> nodes_held(st, #[trigger] groups(lift(es, i))),
        built_up(a, st, lift(es, d), root),
        st.nodes.contains_key(h),
        collapses(st, root, h),
    ensures
        tree_held(st, es, h),
        h == root_hash(es),
{
    reveal(tree_held);
    let next = lift(es, d);
    let k2 = choose|k: nat| #[trigger] is_top(next, k) && held(st, next, k) && st.nodes[root] == lift(next, k) && root == hash_entries(lift(next, k));
    lemma_lift_lift(es, d, k2);
    let n = choose|n: nat| chain(st, root, h, n);
    assert(chain(st, root, h, n));
    if es.len() == 0 {
        lemma_empty_lift(es, d);
        lemma_empty_lift(es, d + k2);
        assert(lift(next, k2) =~= es);
        assert(n == 0);
        lemma_groups(es);
        assert(lift(es, 0) == es);
        assert(is_top(es, 0));
        assert(held(st, es, 0)) by {
            assert forall|j: nat| j <= 0 implies nodes_held(st, #[trigger] groups(lift(es, j))) by {
                assert(j == 0);
            }
        }
        lemma_top_unique(es, 0, 0);
    } else {
        lemma_lift_narrows(es, 0, d);
        if next.len() > 1 {
            let kk = d + k2;
            if k2 > 0 {
                assert(groups(lift(next, (k2 - 1) as nat)).len() > 1);
            }
            assert(lift(next, k2).len() > 1);
            assert(n == 0);
            assert forall|j: nat| j < kk implies (#[trigger] groups(lift(es, j))).len() > 1 by {
                if j < d {
                    lemma_lift_narrows(es, j + 1, d);
                } else {
                    lemma_lift_lift(es, d, (j - d) as nat);
                    assert(groups(lift(next, (j - d) as nat)).len() > 1);
                }
            }
            assert(is_top(es, kk));
            assert forall|j: nat| j <= kk implies nodes_held(st, #[trigger] groups(lift(es, j))) by {
                if j >= d {
                    lemma_lift_lift(es, d, (j - d) as nat);
                    assert(nodes_held(st, groups(lift(next, (j - d) as nat))));
                }
            }
            lemma_top_unique(es, kk, kk);
        } else {
            lemma_groups(next);
            assert(groups(lift(next, 0)).len() <= 1);
            if k2 > 0 {
                assert(groups(lift(next, 0)).len() > 1);
            }
            assert(k2 == 0);
            assert(next[0] == as_entry(groups(lift(es, (d - 1) as nat))[0]));
            assert(single(next));
            lemma_chain_lift(st, es, d, root, h, n);
            assert(n > 0);
            let j = (d - n) as nat;
            lemma_groups(lift(es, j));
            assert(lift(es, j + 1) == up(lift(es, j)));
            assert(groups(lift(es, j)).len() == 1);
            lemma_lift_narrows(es, 0, j);
            if j > 0 {
                assert(lift(es, j)[0] == as_entry(groups(lift(es, (j - 1) as nat))[0]));
                assert(lift(es, j).len() > 1);
            }
            assert forall|i: nat| i < j implies (#[trigger] groups(lift(es, i))).len() > 1 by {
                lemma_lift_narrows(es, i + 1, j);
            }
            assert(is_top(es, j));
            assert(held(st, es, j));
            lemma_top_unique(es, j, j);
        }
    }
}

proof fn lemma_empty_lift(es: Seq<Entry>, k: nat)
    requires
        es.len() == 0,
    ensures
        lift(es, k) == es,
    decreases k,
{
    if k > 0 {
        lemma_empty_lift(es, (k - 1) as nat);
        lemma_groups(es);
        assert(up(es) =~= es);
    }
}

/// A tree whose levels are the groupings of one another: what building it directly gives.
pub open spec fn canonical_rows(st: Store, leaves: Seq<Entry>, top: Seq<Entry>) -> bool {
    let d = height(st, top);
    &&& leaves == row(st, top, (d - 1) as nat)
    &&& top == lift(leaves, (d - 1) as nat)
    &&& held(st, leaves, (d - 1) as nat)
}

/// Rows of such a tree, counted from the top and from the leaves.
proof fn lemma_rows(st: Store, leaves: Seq<Entry>, top: Seq<Entry>, m: nat)
    requires
        canonical_rows(st, leaves, top),
        m < height(st, top),
    ensures
        row(st, top, m) == lift(leaves, (height(st, top) - 1 - m) as nat),
    decreases m,
{
    if m > 0 {
        let d = height(st, top);
        lemma_rows(st, leaves, top, (m - 1) as nat);
        let j = (d - 1 - m) as nat;
        assert(lift(leaves, j + 1) == up(lift(leaves, j)));
        assert(nodes_held(st, groups(lift(leaves, j))));
        lemma_expand_up(st, groups(lift(leaves, j)));
        lemma_groups(lift(leaves, j));
    }
}

pub proof fn lemma_row_grows(a: Store, b: Store, top: Seq<Entry>, m: nat)
    requires
        grows(a, b),
        top.len() > 0,
        tree_ok(a, top),
        m < height(a, top),
    ensures
        row(a, top, m) == row(b, top, m),
    decreases m,
{
    if m > 0 {
        let d = height(a, top);
        lemma_row_grows(a, b, top, (m - 1) as nat);
        lemma_row_level(a, top, d, (m - 1) as nat);
        let r = row(a, top, (m - 1) as nat);
        assert forall|i: int| 0 <= i < r.len() implies a.nodes.contains_key((#[trigger] r[i]).hash) by {
            lemma_level_at(a, r, (d - (m - 1)) as nat, i);
        }
        crate::model::lemma_expand_grows(a, b, r);
    }
}

/// A store that only grows keeps cursors and their positions.
pub proof fn lemma_cursor_grows(a: Store, b: Store, p: Seq<FrameView>)
    requires
        grows(a, b),
        cursor_ok(a, p),
    ensures
        cursor_ok(b, p),
        row_of(b, p) == row_of(a, p),
        pos(b, p) == pos(a, p),
        node_pos(b, p) == node_pos(a, p),
        height(b, p[0].node) == height(a, p[0].node),
    decreases p.len(),
{
    let top = p[0].node;
    lemma_path_top(a, p);
    lemma_tree_grows(a, b, top);
    lemma_row_grows(a, b, top, (p.len() - 1) as nat);
    if p.len() > 1 {
        let up = p.drop_last();
        assert(up[0] == p[0]);
        lemma_cursor_grows(a, b, up);
        lemma_path_at(a, up);
        let r = row_of(a, up);
        let q = pos(a, up);
        let d = height(a, top);
        lemma_row_level(a, top, d, (up.len() - 1) as nat);
        assert forall|i: int| 0 <= i < r.take(q).len() implies a.nodes.contains_key((#[trigger] r.take(q)[i]).hash) by {
            lemma_level_at(a, r, (d - (up.len() - 1)) as nat, i);
        }
        crate::model::lemma_expand_grows(a, b, r.take(q));
        assert(a.nodes.contains_key(frame_entry(up.last()).hash));
    }
}

proof fn lemma_run_level(st: Store, row: Seq<Entry>, np: int, p: int, new: Seq<Entry>, q: int, e: int, d: nat)
    requires
        0 <= np <= p <= q <= e <= row.len(),
        d >= 1,
        level_ok(st, spliced(row, p, new, q), d),
    ensures
        level_ok(st, regrouped(row, np, p, new, q, e), d),
        sum_bytes(regrouped(row, np, p, new, q, e)) <= sum_bytes(spliced(row, p, new, q)),
        sum_lines(regrouped(row, np, p, new, q, e)) <= sum_lines(spliced(row, p, new, q)),
        np == 0 && e == row.len() ==> regrouped(row, np, p, new, q, e) == spliced(row, p, new, q),
{
    let run = regrouped(row, np, p, new, q, e);
    assert(spliced(row, p, new, q) =~= row.take(np) + run + row.skip(e));
    lemma_level_concat(st, row.take(np) + run, row.skip(e), d);
    lemma_level_concat(st, row.take(np), run, d);
    lemma_sums_concat(row.take(np) + run, row.skip(e));
    lemma_sums_concat(row.take(np), run);
    if np == 0 && e == row.len() {
        assert(run =~= spliced(row, p, new, q));
    }
}

proof fn lemma_tree_node_up(es: Seq<Entry>, d: nat, st: Store)
    ensures
        node_clash(st, lift(es, d)) ==> node_clash(st, es),
        ends_within(es, MAX_LEVELS as nat) ==> ends_within(lift(es, d), MAX_LEVELS as nat),
{
    reveal(node_clash);
    reveal(ends_within);
    let next = lift(es, d);
    if node_clash(st, next) {
        let g = choose|g: Seq<Entry>| #[trigger] is_tree_node(next, g) && st.nodes.contains_key(hash_entries(g))
            && st.nodes[hash_entries(g)] != g;
        if next.len() == 0 && g == next {
            if es.len() > 0 {
                lemma_lift_narrows(es, 0, d);
            }
            assert(es =~= next);
            assert(is_tree_node(es, g));
        } else {
            let j = choose|j: nat| #[trigger] groups(lift(next, j)).contains(g);
            lemma_lift_lift(es, d, j);
            assert(groups(lift(es, d + j)).contains(g));
            assert(is_tree_node(es, g));
        }
    }
    if ends_within(es, MAX_LEVELS as nat) {
        let k = choose|k: nat| k < MAX_LEVELS && #[trigger] is_top(es, k);
        if k >= d {
            let j = (k - d) as nat;
            lemma_lift_lift(es, d, j);
            assert forall|i: nat| i < j implies (#[trigger] groups(lift(next, i))).len() > 1 by {
                lemma_lift_lift(es, d, i);
                assert(groups(lift(es, d + i)).len() > 1);
            }
            assert(is_top(next, j));
        } else {
            lemma_lift_narrows(es, k + 1, d);
            assert(lift(es, k + 1) == up(lift(es, k)));
            lemma_groups(next);
            assert(lift(next, 0) == next);
            assert(is_top(next, 0));
        }
    }
}

/// A cursor into a tree that was complete in an earlier store was one already there.
pub proof fn lemma_cursor_shrinks(a: Store, b: Store, p: Seq<FrameView>)
    requires
        grows(a, b),
        cursor_ok(b, p),
        tree_ok(a, p[0].node),
        p.len() <= height(a, p[0].node),
    ensures
        cursor_ok(a, p),
    decreases p.len(),
{
    let top = p[0].node;
    lemma_path_top(b, p);
    if p.len() > 1 {
        let up = p.drop_last();
        assert(up[0] == p[0]);
        lemma_cursor_shrinks(a, b, up);
        lemma_path_at(a, up);
        let d = height(a, top);
        lemma_row_level(a, top, d, (up.len() - 1) as nat);
        lemma_level_at(a, row_of(a, up), (d - (up.len() - 1)) as nat, pos(a, up));
    }
}

/// What stays the same while a replacement works its way up: the old tree with its root
/// children `top` in the store `st0`, the new lowest level `t0` at height `d0`, its text, and
/// whether the old tree was what building it directly gives.
pub struct Plan {
    pub st0: Store,
    pub top: Seq<Entry>,
    pub row0: Seq<Entry>,
    pub t0: Seq<Entry>,
    pub d0: nat,
    pub can: bool,
}

impl Plan {
    pub open spec fn d(self) -> nat {
        height(self.st0, self.top)
    }

    pub open spec fn text(self) -> Seq<u8> {
        level_text(self.st0, self.t0, self.d0)
    }

    pub open spec fn ok(self) -> bool {
        &&& sound(self.st0)
        &&& self.top.len() > 0
        &&& tree_ok(self.st0, self.top)
        &&& self.d0 >= 1
        &&& level_ok(self.st0, self.t0, self.d0)
        &&& self.can ==> self.d0 == 1 && canonical_rows(self.st0, self.row0, self.top)
    }

    /// The level being rebuilt, with its entries `[a, k)` replaced by `new`.
    pub open spec fn level(self, a: Seq<FrameView>, k: Option<Seq<FrameView>>, new: Seq<Entry>) -> Seq<Entry> {
        let row = row_of(self.st0, a);
        spliced(row, pos(self.st0, a), new, suffix_pos(self.st0, k, row.len() as int))
    }

    /// The height of the level `a` is in.
    pub open spec fn level_height(self, a: Seq<FrameView>) -> nat {
        (self.d() - a.len() + 1) as nat
    }

    /// Half way up: the levels below `a`'s are stored.
    pub open spec fn at(self, st: Store, a: Seq<FrameView>, k: Option<Seq<FrameView>>, new: Seq<Entry>) -> bool {
        let t = self.level(a, k, new);
        let dm = self.level_height(a);
        &&& grows(self.st0, st)
        &&& cursor_ok(self.st0, a)
        &&& in_order(self.st0, a, k)
        &&& a[0].node == self.top
        &&& level_ok(st, t, dm)
        &&& level_text(st, t, dm) == self.text()
        &&& sum_bytes(t) <= usize::MAX
        &&& sum_lines(t) <= usize::MAX
        &&& self.can ==> t == lift(self.t0, (dm - 1) as nat)
        &&& self.can ==> forall|i: nat| i < dm - 1 ==> nodes_held(st, #[trigger] groups(lift(self.t0, i)))
    }

    /// The entries that are grouped anew on this level, given where the level above goes on.
    pub open spec fn run(
        self,
        st: Store,
        a: Seq<FrameView>,
        k: Option<Seq<FrameView>>,
        new: Seq<Entry>,
        ku: Option<Seq<FrameView>>,
    ) -> Seq<Entry> {
        let row = row_of(st, a);
        regrouped(
            row,
            node_pos(st, a),
            pos(st, a),
            new,
            suffix_pos(st, k, row.len() as int),
            suffix_below(st, row_of(st, a.drop_last()), ku, row.len() as int),
        )
    }
}

/// Positions mean the same in the later store.
proof fn lemma_at_later(pl: Plan, st: Store, a: Seq<FrameView>, k: Option<Seq<FrameView>>, new: Seq<Entry>)
    requires
        pl.ok(),
        pl.at(st, a, k, new),
    ensures
        cursor_ok(st, a),
        in_order(st, a, k),
        row_of(st, a) == row_of(pl.st0, a),
        pos(st, a) == pos(pl.st0, a),
        node_pos(st, a) == node_pos(pl.st0, a),
        suffix_pos(st, k, row_of(st, a).len() as int) == suffix_pos(pl.st0, k, row_of(st, a).len() as int),
        0 <= node_pos(st, a) <= pos(st, a) <= suffix_pos(st, k, row_of(st, a).len() as int) <= row_of(st, a).len(),
{
    lemma_cursor_grows(pl.st0, st, a);
    lemma_path_at(st, a);
    if let Some(c) = k {
        lemma_cursor_grows(pl.st0, st, c);
        lemma_path_at(st, c);
    }
}

/// What `rebuild_level` returned, in words of the plan.
pub open spec fn rebuilt(
    pl: Plan,
    st: Store,
    a: Seq<FrameView>,
    k: Option<Seq<FrameView>>,
    new: Seq<Entry>,
    ku: Option<Seq<FrameView>>,
    gs: Seq<Seq<Entry>>,
) -> bool {
    let row = row_of(st, a);
    let e = suffix_below(st, row_of(st, a.drop_last()), ku, row.len() as int);
    let run = pl.run(st, a, k, new, ku);
    &&& a.len() == 1 ==> ku is None
    &&& a.len() > 1 ==> in_order(st, a.drop_last(), ku)
    &&& suffix_pos(st, k, row.len() as int) <= e <= row.len()
    &&& gs == groups(run)
    &&& ku is Some ==> grouped(run).1.len() == 0 && pos(st, a.drop_last()) < pos(st, ku->Some_0)
}

/// The rebuilt nodes can be stored.
proof fn lemma_can_put(
    pl: Plan,
    st: Store,
    a: Seq<FrameView>,
    k: Option<Seq<FrameView>>,
    new: Seq<Entry>,
    ku: Option<Seq<FrameView>>,
    gs: Seq<Seq<Entry>>,
)
    requires
        pl.ok(),
        pl.at(st, a, k, new),
        rebuilt(pl, st, a, k, new, ku, gs),
    ensures
        level_ok(st, flat(gs), pl.level_height(a)),
        sum_bytes(flat(gs)) <= usize::MAX,
        sum_lines(flat(gs)) <= usize::MAX,
        forall|i: int| 0 <= i < gs.len() ==> (#[trigger] gs[i]).len() > 0,
        a.len() == 1 ==> flat(gs) == pl.level(a, k, new) && gs == groups(pl.level(a, k, new)),
{
    lemma_at_later(pl, st, a, k, new);
    let row = row_of(st, a);
    let e = suffix_below(st, row_of(st, a.drop_last()), ku, row.len() as int);
    lemma_groups(pl.run(st, a, k, new, ku));
    lemma_run_level(
        st,
        row,
        node_pos(st, a),
        pos(st, a),
        new,
        suffix_pos(st, k, row.len() as int),
        e,
        pl.level_height(a),
    );
}

/// Places in the level above, for the plan's old tree.
proof fn lemma_above(
    pl: Plan,
    st: Store,
    a: Seq<FrameView>,
    k: Option<Seq<FrameView>>,
    new: Seq<Entry>,
    ku: Option<Seq<FrameView>>,
    gs: Seq<Seq<Entry>>,
)
    requires
        pl.ok(),
        pl.at(st, a, k, new),
        rebuilt(pl, st, a, k, new, ku, gs),
        a.len() > 1,
    ensures
        ({
            let au = a.drop_last();
            let above = row_of(pl.st0, au);
            let pu = pos(pl.st0, au);
            let qu = suffix_pos(pl.st0, ku, above.len() as int);
            &&& cursor_ok(pl.st0, au)
            &&& in_order(pl.st0, au, ku)
            &&& au[0].node == pl.top
            &&& 0 <= pu < qu <= above.len()
            &&& level_ok(pl.st0, above, pl.level_height(a) + 1)
            &&& row_of(pl.st0, a) == expand(pl.st0, above)
            &&& expand(st, above) == expand(pl.st0, above)
            &&& expand(st, above.take(pu)).len() == node_pos(st, a)
            &&& expand(st, above.take(qu)).len() == suffix_below(st, row_of(st, au), ku, row_of(st, a).len() as int)
            &&& forall|i: int| 0 <= i < above.len() ==> pl.st0.nodes.contains_key((#[trigger] above[i]).hash)
            &&& ku is None ==> qu == above.len()
            &&& qu < above.len() ==> ku is Some
        }),
{
    let st0 = pl.st0;
    let au = a.drop_last();
    assert(au[0] == a[0]);
    lemma_at_later(pl, st, a, k, new);
    lemma_cursor_grows(st0, st, au);
    lemma_path_at(st, a);
    lemma_path_at(st0, au);
    let above = row_of(st0, au);
    let m = a.len();
    lemma_row_level(st0, pl.top, pl.d(), (m - 2) as nat);
    assert forall|i: int| 0 <= i < above.len() implies st0.nodes.contains_key((#[trigger] above[i]).hash) by {
        lemma_level_at(st0, above, pl.level_height(a) + 1, i);
    }
    crate::model::lemma_expand_grows(st0, st, above);
    if let Some(c) = ku {
        assert(c[0].node == pl.top);
        lemma_cursor_shrinks(st0, st, c);
        lemma_cursor_grows(st0, st, c);
        lemma_path_at(st0, c);
    } else {
        assert(above.take(above.len() as int) =~= above);
    }
}

proof fn lemma_expand_part(a: Store, b: Store, es: Seq<Entry>, n: int)
    requires
        grows(a, b),
        0 <= n <= es.len(),
        forall|i: int| 0 <= i < es.len() ==> a.nodes.contains_key((#[trigger] es[i]).hash),
    ensures
        expand(a, es.take(n)) == expand(b, es.take(n)),
{
    assert forall|i: int| 0 <= i < n implies a.nodes.contains_key((#[trigger] es.take(n)[i]).hash) by {
        assert(es.take(n)[i] == es[i]);
    }
    crate::model::lemma_expand_grows(a, b, es.take(n));
}

/// In a tree that building directly gives, the rebuilt nodes are nodes of the new tree.
proof fn lemma_canonical_groups(
    pl: Plan,
    st: Store,
    a: Seq<FrameView>,
    k: Option<Seq<FrameView>>,
    new: Seq<Entry>,
    ku: Option<Seq<FrameView>>,
    gs: Seq<Seq<Entry>>,
    st2: Store,
)
    requires
        pl.ok(),
        pl.can,
        pl.at(st, a, k, new),
        rebuilt(pl, st, a, k, new, ku, gs),
        grows(st, st2),
    ensures
        forall|i: int| 0 <= i < gs.len() ==> groups(lift(pl.t0, (pl.level_height(a) - 1) as nat)).contains(#[trigger] gs[i]),
        nodes_held(st2, gs) ==> nodes_held(st2, groups(lift(pl.t0, (pl.level_height(a) - 1) as nat))),
        a.len() > 1 ==> ({
            let au = a.drop_last();
            up(pl.level(a, k, new)) == pl.level(au, ku, up_of(gs))
        }),
{
    lemma_at_later(pl, st, a, k, new);
    lemma_can_put(pl, st, a, k, new, ku, gs);
    let st0 = pl.st0;
    let row = row_of(st0, a);
    let t = pl.level(a, k, new);
    let j = (pl.level_height(a) - 1) as nat;
    assert(t == lift(pl.t0, j));
    if a.len() == 1 {
        assert forall|i: int| 0 <= i < gs.len() implies groups(lift(pl.t0, j)).contains(#[trigger] gs[i]) by {
            assert(groups(t)[i] == gs[i]);
        }
    } else {
        lemma_above(pl, st, a, k, new, ku, gs);
        let au = a.drop_last();
        let above = row_of(st0, au);
        let pu = pos(st0, au);
        let qu = suffix_pos(st0, ku, above.len() as int);
        let m = a.len();
        lemma_rows(st0, pl.row0, pl.top, (m - 1) as nat);
        lemma_rows(st0, pl.row0, pl.top, (m - 2) as nat);
        assert(row == lift(pl.row0, j));
        assert(above == lift(pl.row0, j + 1));
        assert(above == up(row));
        assert(nodes_held(st0, groups(lift(pl.row0, j))));
        lemma_nodes_held_grows(st0, st2, groups(row));
        lemma_expand_part(st0, st, above, pu);
        lemma_expand_part(st0, st2, above, pu);
        lemma_expand_part(st0, st, above, qu);
        lemma_expand_part(st0, st2, above, qu);
        lemma_splice_groups(
            st2,
            row,
            pu,
            qu,
            pos(st0, a),
            new,
            suffix_pos(st0, k, row.len() as int),
            gs,
        );
        assert forall|i: int| 0 <= i < gs.len() implies groups(lift(pl.t0, j)).contains(#[trigger] gs[i]) by {
            assert(groups(t)[pu + i] == gs[i]);
        }
    }
}

/// One level further up.
proof fn lemma_step_up(
    pl: Plan,
    st: Store,
    a: Seq<FrameView>,
    k: Option<Seq<FrameView>>,
    new: Seq<Entry>,
    ku: Option<Seq<FrameView>>,
    gs: Seq<Seq<Entry>>,
    st2: Store,
)
    requires
        pl.ok(),
        pl.at(st, a, k, new),
        rebuilt(pl, st, a, k, new, ku, gs),
        grows(st, st2),
        nodes_held(st2, gs),
        a.len() > 1,
    ensures
        pl.at(st2, a.drop_last(), ku, up_of(gs)),
{
    let st0 = pl.st0;
    let au = a.drop_last();
    lemma_at_later(pl, st, a, k, new);
    lemma_can_put(pl, st, a, k, new, ku, gs);
    lemma_above(pl, st, a, k, new, ku, gs);
    let row = row_of(st0, a);
    let above = row_of(st0, au);
    let pu = pos(st0, au);
    let qu = suffix_pos(st0, ku, above.len() as int);
    let dm = pl.level_height(a);
    let t = pl.level(a, k, new);
    lemma_level_grows(st, st2, t, dm);
    lemma_level_grows(st0, st2, above, dm + 1);
    crate::model::lemma_expand_grows(st0, st2, above);
    lemma_expand_part(st0, st, above, pu);
    lemma_expand_part(st0, st2, above, pu);
    lemma_expand_part(st0, st, above, qu);
    lemma_expand_part(st0, st2, above, qu);
    lemma_groups(pl.run(st, a, k, new, ku));
    lemma_splice_up(st2, above, dm, pu, qu, pos(st0, a), new, suffix_pos(st0, k, row.len() as int), gs);
    if pl.can {
        lemma_canonical_groups(pl, st, a, k, new, ku, gs, st2);
        let j = (dm - 1) as nat;
        assert(lift(pl.t0, j + 1) == up(lift(pl.t0, j)));
        assert forall|i: nat| i < j + 1 implies nodes_held(st2, #[trigger] groups(lift(pl.t0, i))) by {
            if i < j {
                lemma_nodes_held_grows(st, st2, groups(lift(pl.t0, i)));
            }
        }
    }
}

/// The end of a replacement: the new top-level nodes are stored, their entries are `next`.
fn finish_root<S: Storage + ?Sized>(
    storage: &mut S,
    next: Vec<Child>,
    Ghost(pl): Ghost<Plan>,
    Ghost(t): Ghost<Seq<Entry>>,
) -> (r: Result<crate::hash::Hash>)
    requires
        pl.ok(),
        sound(old(storage).store()),
        grows(pl.st0, old(storage).store()),
        entries_of(next@) == up(t),
        level_ok(old(storage).store(), t, pl.d()),
        level_text(old(storage).store(), t, pl.d()) == pl.text(),
        sum_bytes(t) <= usize::MAX,
        sum_lines(t) <= usize::MAX,
        nodes_held(old(storage).store(), groups(t)),
        pl.can ==> t == lift(pl.t0, (pl.d() - 1) as nat),
        pl.can ==> forall|i: nat| i < pl.d() ==> nodes_held(old(storage).store(), #[trigger] groups(lift(pl.t0, i))),
    ensures
        plain_failure(r),
        final(storage).local() == old(storage).local(),
        grows(old(storage).store(), final(storage).store()),
        sound(final(storage).store()),
        old(storage).local() ==> only_nodes(old(storage).store(), final(storage).store()),
        r matches Ok(h) ==> {
            &&& final(storage).store().nodes.contains_key(h@)
            &&& doc(final(storage).store(), h@) == pl.text()
            &&& pl.can ==> tree_held(final(storage).store(), pl.t0, h@) && h@ == root_hash(pl.t0)
        },
        r is Err && pl.can && old(storage).local() ==> node_clash(final(storage).store(), pl.t0) || !ends_within(
            pl.t0,
            MAX_LEVELS as nat,
        ),
{
    let ghost st2 = storage.store();
    let ghost d = pl.d();
    proof {
        lemma_groups(t);
        lemma_up_level(st2, t, groups(t), d);
        if up(t).len() > 0 {
            lemma_height_is(st2, up(t), d + 1);
        } else {
            crate::model::lemma_level_sums(st2, t, d);
            assert(pl.text() =~= Seq::empty());
        }
        if pl.can {
            assert(up(t) == lift(pl.t0, d));
        }
    }
    let root = match build_up(storage, next) {
        Ok(h) => h,
        Err(err) => {
            proof {
                if pl.can {
                    lemma_tree_node_up(pl.t0, d, storage.store());
                }
            }
            return Err(err);
        },
    };
    let ghost st3 = storage.store();
    let h = match normalize_root(storage, root) {
        Ok(h) => h,
        Err(err) => {
            return Err(err);
        },
    };
    proof {
        if pl.can {
            assert forall|i: nat| i < d implies nodes_held(st3, #[trigger] groups(lift(pl.t0, i))) by {
                lemma_nodes_held_grows(st2, st3, groups(lift(pl.t0, i)));
            }
            lemma_level_grows(pl.st0, st3, pl.t0, 1);
            lemma_tower(st2, st3, pl.t0, d, root@, h@);
        }
    }
    Ok(h)
}

/// Replace the entries `[a, k)` at the level of `a` with `new_entries`, then rebuild all
/// ancestors and return the new root. `k == None` means "to end of sequence".
///
/// Every node written is recorded in storage. Untouched subtrees are shared.
pub fn replace_entries<S: Storage + ?Sized>(
    storage: &mut S,
    a: Cursor,
    k: Option<Cursor>,
    new_entries: Vec<Child>,
) -> (r: Result<crate::hash::Hash>)
    requires
        sound(old(storage).store()),
        cursor_ok(old(storage).store(), a@),
        in_order(old(storage).store(), a@, opt_view(k)),
        ({
            let st = old(storage).store();
            let row = row_of(st, a@);
            let q = suffix_pos(st, opt_view(k), row.len() as int);
            let t = spliced(row, pos(st, a@), entries_of(new_entries@), q);
            let d = height(st, a@[0].node);
            &&& level_ok(st, t, (d - a@.len() + 1) as nat)
            &&& sum_bytes(t) <= usize::MAX
            &&& sum_lines(t) <= usize::MAX
        }),
    ensures
        plain_failure(r),
        final(storage).local() == old(storage).local(),
        grows(old(storage).store(), final(storage).store()),
        sound(final(storage).store()),
        old(storage).local() ==> only_nodes(old(storage).store(), final(storage).store()),
        ({
            let st = old(storage).store();
            let row = row_of(st, a@);
            let q = suffix_pos(st, opt_view(k), row.len() as int);
            let t = spliced(row, pos(st, a@), entries_of(new_entries@), q);
            let d = height(st, a@[0].node);
            let canonical = a@.len() == d && canonical_rows(st, row, a@[0].node);
            &&& r matches Ok(h) ==> {
                &&& final(storage).store().nodes.contains_key(h@)
                &&& doc(final(storage).store(), h@) == level_text(st, t, (d - a@.len() + 1) as nat)
                &&& canonical ==> tree_held(final(storage).store(), t, h@) && h@ == root_hash(t)
            }
            &&& r is Err && canonical && old(storage).local() ==> node_clash(final(storage).store(), t)
                || !ends_within(t, MAX_LEVELS as nat)
        }),
{
    let ghost st0 = storage.store();
    let ghost top = a@[0].node;
    let ghost row0 = row_of(st0, a@);
    let ghost q0 = suffix_pos(st0, opt_view(k), row0.len() as int);
    let ghost pl = Plan {
        st0,
        top,
        row0,
        t0: spliced(row0, pos(st0, a@), entries_of(new_entries@), q0),
        d0: (height(st0, top) - a@.len() + 1) as nat,
        can: a@.len() == height(st0, top) && canonical_rows(st0, row0, top),
    };
    let mut ca = a;
    let mut ck = k;
    let mut entries = new_entries;
    proof {
        lemma_path_top(st0, a@);
        assert(lift(pl.t0, 0) == pl.t0);
        assert(pl.at(st0, ca@, opt_view(ck), entries_of(entries@)));
    }
    let ghost local = storage.local();
    loop
        invariant
            storage.local() == local,
            local == old(storage).local(),
            st0 == old(storage).store(),
            st0 == pl.st0,
            grows(st0, storage.store()),
            sound(storage.store()),
            local ==> only_nodes(st0, storage.store()),
            pl.ok(),
            pl.at(storage.store(), ca@, opt_view(ck), entries_of(entries@)),
            pl.can == (a@.len() == height(st0, a@[0].node) && canonical_rows(st0, row0, a@[0].node)),
            row0 == row_of(st0, a@),
            q0 == suffix_pos(st0, opt_view(k), row0.len() as int),
            pl.t0 == spliced(row0, pos(st0, a@), entries_of(new_entries@), q0),
            pl.d0 == (height(st0, a@[0].node) - a@.len() + 1) as nat,
        decreases ca@.len(),
    {
        let ghost st = storage.store();
        let ghost va = ca@;
        let ghost vk = opt_view(ck);
        let ghost new = entries_of(entries@);
        proof {
            lemma_at_later(pl, st, va, vk, new);
        }
        let (nodes, a_up, k_up) = match rebuild_level(storage, &ca, ck, entries.as_slice()) {
            Ok(x) => x,
            Err(e) => {
                return Err(e);
            },
        };
        let ghost ku = opt_view(k_up);
        let ghost gs = views(nodes@);
        proof {
            assert(rebuilt(pl, st, va, vk, new, ku, gs));
            lemma_can_put(pl, st, va, vk, new, ku, gs);
        }
        let next: Vec<Child> = match put_nodes(storage, &nodes, Ghost(pl.level_height(va))) {
            Ok(v) => v,
            Err(err) => {
                proof {
                    reveal(node_clash);
                    if local && pl.can {
                        let fin = storage.store();
                        lemma_canonical_groups(pl, st, va, vk, new, ku, gs, fin);
                        let i = choose|i: int|
                            0 <= i < gs.len() && fin.nodes.contains_key(hash_entries(#[trigger] gs[i]))
                                && fin.nodes[hash_entries(gs[i])] != gs[i];
                        assert(groups(lift(pl.t0, (pl.level_height(va) - 1) as nat)).contains(gs[i]));
                        assert(is_tree_node(pl.t0, gs[i]));
                    }
                }
                return Err(err);
            },
        };
        let ghost st2 = storage.store();
        match a_up {
            None => {
                // `a` was inside the root: `nodes` are the new top-level nodes.
                let ghost t = pl.level(va, vk, new);
                proof {
                    lemma_level_grows(st, st2, t, pl.d());
                    if pl.can {
                        lemma_canonical_groups(pl, st, va, vk, new, ku, gs, st2);
                        assert forall|i: nat| i < pl.d() implies nodes_held(st2, #[trigger] groups(lift(pl.t0, i))) by {
                            if i < pl.d() - 1 {
                                lemma_nodes_held_grows(st, st2, groups(lift(pl.t0, i)));
                            }
                        }
                    }
                }
                return finish_root(storage, next, Ghost(pl), Ghost(t));
            },
            Some(up) => {
                proof {
                    lemma_step_up(pl, st, va, vk, new, ku, gs, st2);
                }
                ca = up;
                ck = k_up;
                entries = next;
            },
        }
    }
}

} // verus!
