//! A position in the entry sequence of some level of a tree.

use vstd::prelude::*;
use crate::model::{
    expand, height, leaf_level, lemma_expand_concat, lemma_expand_one, lemma_expand_sums, lemma_level_at, level_ok,
    level_text, sound, tree_ok, Store,
};
use crate::node::{lemma_sums_concat, lemma_sums_take, sum_bytes, Child, Entry, Node};
use crate::storage::{plain_failure, Result, Storage};
use crate::tree::{doc_leaves, lemma_child_leaf, lemma_child_tree, reads};

verus! {

#[derive(Debug)]
pub struct Frame {
    pub node: Node,
    pub idx: usize,
}

/// A frame as a mathematical value.
#[verifier::ext_equal]
pub struct FrameView {
    pub node: Seq<Entry>,
    pub idx: int,
}

impl View for Frame {
    type V = FrameView;

    open spec fn view(&self) -> FrameView {
        FrameView { node: self.node@, idx: self.idx as int }
    }
}

impl Clone for Frame {
    fn clone(&self) -> (r: Self)
        ensures
            r@ == self@,
    {
        Frame { node: self.node.clone(), idx: self.idx }
    }
}

/// A position in the entry sequence of some level: a path of `(node, index)` frames
/// from the root down to the node containing the entry.
#[derive(Debug)]
pub struct Cursor {
    pub path: Vec<Frame>,
}

pub open spec fn frames(path: Seq<Frame>) -> Seq<FrameView> {
    Seq::new(path.len(), |i: int| path[i]@)
}

impl View for Cursor {
    type V = Seq<FrameView>;

    open spec fn view(&self) -> Seq<FrameView> {
        frames(self.path@)
    }
}

fn copy_frames(path: &[Frame], n: usize) -> (out: Vec<Frame>)
    requires
        n <= path@.len(),
    ensures
        frames(out@) == frames(path@).take(n as int),
{
    let mut out: Vec<Frame> = Vec::new();
    let mut i: usize = 0;
    assert(frames(out@) =~= frames(path@).take(0));
    while i < n
        invariant
            i <= n <= path@.len(),
            frames(out@) == frames(path@).take(i as int),
        decreases n - i,
    {
        let ghost before = out@;
        let f = path[i].clone();
        out.push(f);
        i += 1;
        assert(frames(out@) =~= frames(before).push(f@));
        assert(frames(path@).take(i as int) =~= frames(path@).take(i - 1).push(path@[i - 1]@));
    }
    out
}

impl Clone for Cursor {
    fn clone(&self) -> (r: Self)
        ensures
            r@ == self@,
    {
        let n: usize = self.path.len();
        let path = copy_frames(self.path.as_slice(), n);
        assert(self@.take(n as int) =~= self@);
        Cursor { path }
    }
}

/// The entry a frame is at.
pub open spec fn frame_entry(f: FrameView) -> Entry {
    f.node[f.idx]
}

/// A path into the tree whose root node has the children `p[0].node`.
pub open spec fn path_ok(st: Store, p: Seq<FrameView>) -> bool
    decreases p.len(),
{
    &&& p.len() > 0
    &&& 0 <= p.last().idx < p.last().node.len()
    &&& p.len() > 1 ==> {
        let up = p.drop_last();
        &&& path_ok(st, up)
        &&& st.nodes.contains_key(frame_entry(up.last()).hash)
        &&& p.last().node == st.nodes[frame_entry(up.last()).hash]
    }
}

/// The level sequence `m` levels below the root's children.
pub open spec fn row(st: Store, top: Seq<Entry>, m: nat) -> Seq<Entry>
    decreases m,
{
    if m == 0 {
        top
    } else {
        expand(st, row(st, top, (m - 1) as nat))
    }
}

/// The level sequence a path points into.
pub open spec fn row_of(st: Store, p: Seq<FrameView>) -> Seq<Entry> {
    row(st, p[0].node, (p.len() - 1) as nat)
}

/// Index of the path's entry in its level sequence.
pub open spec fn pos(st: Store, p: Seq<FrameView>) -> int
    decreases p.len(),
{
    if p.len() <= 1 {
        p.last().idx
    } else {
        let up = p.drop_last();
        expand(st, row_of(st, up).take(pos(st, up))).len() + p.last().idx
    }
}

/// Index, in the path's level sequence, of the first entry of the node the path is in.
pub open spec fn node_pos(st: Store, p: Seq<FrameView>) -> int {
    pos(st, p) - p.last().idx
}

/// A path into a complete tree, not deeper than the tree.
pub open spec fn cursor_ok(st: Store, p: Seq<FrameView>) -> bool {
    &&& path_ok(st, p)
    &&& tree_ok(st, p[0].node)
    &&& p.len() <= height(st, p[0].node)
}

pub proof fn lemma_expand_at(st: Store, r: Seq<Entry>, q: int)
    requires
        0 <= q < r.len(),
    ensures
        expand(st, r.take(q + 1)) == expand(st, r.take(q)) + st.nodes[r[q].hash],
        expand(st, r) == expand(st, r.take(q)) + st.nodes[r[q].hash] + expand(st, r.skip(q + 1)),
{
    let a = r.take(q);
    let e = seq![r[q]];
    let b = r.skip(q + 1);
    assert(r =~= (a + e) + b);
    assert(r.take(q + 1) =~= a + e);
    lemma_expand_concat(st, a + e, b);
    lemma_expand_concat(st, a, e);
    lemma_expand_one(st, r[q]);
}

/// A path's entry is the one at its position, and its node lies around it.
pub proof fn lemma_path_at(st: Store, p: Seq<FrameView>)
    requires
        path_ok(st, p),
    ensures
        0 <= pos(st, p) < row_of(st, p).len(),
        row_of(st, p)[pos(st, p)] == frame_entry(p.last()),
        0 <= node_pos(st, p),
        node_pos(st, p) + p.last().node.len() <= row_of(st, p).len(),
        row_of(st, p).subrange(node_pos(st, p), node_pos(st, p) + p.last().node.len()) == p.last().node,
        p.len() > 1 ==> node_pos(st, p) == expand(
            st,
            row_of(st, p.drop_last()).take(pos(st, p.drop_last())),
        ).len(),
    decreases p.len(),
{
    if p.len() > 1 {
        let up = p.drop_last();
        lemma_path_at(st, up);
        let r = row_of(st, up);
        let q = pos(st, up);
        assert(up[0] == p[0]);
        assert(row_of(st, p) == expand(st, r));
        lemma_expand_at(st, r, q);
        let before = expand(st, r.take(q));
        let whole = expand(st, r);
        let node = p.last().node;
        assert(whole.subrange(before.len() as int, (before.len() + node.len()) as int) =~= node);
        assert(whole[before.len() + p.last().idx] == node[p.last().idx]);
    } else {
        assert(p.last() == p[0]);
        assert(row_of(st, p).subrange(0, p.last().node.len() as int) =~= p.last().node);
    }
}

/// The rows of a complete tree are levels, all with the same text.
pub proof fn lemma_row_level(st: Store, top: Seq<Entry>, d: nat, m: nat)
    requires
        level_ok(st, top, d),
        m < d,
    ensures
        level_ok(st, row(st, top, m), (d - m) as nat),
        level_text(st, row(st, top, m), (d - m) as nat) == level_text(st, top, d),
        sum_bytes(row(st, top, m)) == sum_bytes(top),
        crate::node::sum_lines(row(st, top, m)) == crate::node::sum_lines(top),
    decreases m,
{
    if m > 0 {
        lemma_row_level(st, top, d, (m - 1) as nat);
        lemma_expand_sums(st, row(st, top, (m - 1) as nat));
    }
}

/// The root a path starts from is not empty.
pub proof fn lemma_path_top(st: Store, p: Seq<FrameView>)
    requires
        path_ok(st, p),
    ensures
        p[0].node.len() > 0,
    decreases p.len(),
{
    if p.len() > 1 {
        lemma_path_top(st, p.drop_last());
    }
}

/// Bytes before a node are the same counted one level up.
pub proof fn lemma_bytes_before(st: Store, p: Seq<FrameView>)
    requires
        cursor_ok(st, p),
    ensures
        p.len() > 1 ==> sum_bytes(row_of(st, p).take(node_pos(st, p))) == sum_bytes(
            row_of(st, p.drop_last()).take(pos(st, p.drop_last())),
        ),
        sum_bytes(row_of(st, p).take(pos(st, p))) == sum_bytes(row_of(st, p).take(node_pos(st, p))) + sum_bytes(
            p.last().node.take(p.last().idx),
        ),
{
    lemma_path_at(st, p);
    lemma_path_top(st, p);
    let r = row_of(st, p);
    let a = node_pos(st, p);
    let i = p.last().idx;
    let node = p.last().node;
    assert(r.take(a + i) =~= r.take(a) + r.subrange(a, a + node.len()).take(i));
    lemma_sums_concat(r.take(a), node.take(i));
    if p.len() > 1 {
        let up = p.drop_last();
        assert(up[0] == p[0]);
        lemma_path_at(st, up);
        let ru = row_of(st, up);
        let q = pos(st, up);
        let d = height(st, p[0].node);
        lemma_row_level(st, p[0].node, d, (p.len() - 2) as nat);
        let dl = (d - (p.len() - 2)) as nat;
        assert(dl >= 2);
        lemma_level_at(st, ru, dl, q);
        lemma_expand_sums(st, ru.take(q));
        lemma_expand_at(st, ru, q);
        assert(r.take(a) =~= expand(st, ru.take(q)));
    }
}

impl Cursor {
    pub fn depth(&self) -> (r: usize)
        ensures
            r == self@.len(),
    {
        self.path.len()
    }

    pub fn frame(&self) -> (r: &Frame)
        requires
            self@.len() > 0,
        ensures
            r@ == self@.last(),
    {
        &self.path[self.path.len() - 1]
    }

    pub fn entry(&self) -> (r: Child)
        requires
            self@.len() > 0,
            0 <= self@.last().idx < self@.last().node.len(),
        ensures
            r@ == frame_entry(self@.last()),
    {
        let f = self.frame();
        f.node.children[f.idx]
    }

    pub fn is_last_in_node(&self) -> (r: bool)
        requires
            self@.len() > 0,
            0 <= self@.last().idx < self@.last().node.len(),
        ensures
            r == (self@.last().idx + 1 == self@.last().node.len()),
    {
        let f = self.frame();
        assert(f.node@.len() == f.node.children@.len());
        f.idx == f.node.children.len() - 1
    }

    /// Cursor to the entry one level up (the node containing this entry). `None` at the root.
    pub fn parent(&self) -> (r: Option<Cursor>)
        ensures
            r is Some <==> self@.len() > 1,
            r matches Some(c) ==> c@ == self@.drop_last(),
    {
        if self.path.len() <= 1 {
            return None;
        }
        let path = copy_frames(self.path.as_slice(), self.path.len() - 1);
        assert(self@.take(self@.len() - 1) =~= self@.drop_last());
        Some(Cursor { path })
    }

    /// The node containing the current entry.
    pub fn node(&self) -> (r: &Node)
        requires
            self@.len() > 0,
        ensures
            r@ == self@.last().node,
    {
        &self.frame().node
    }

    pub fn idx(&self) -> (r: usize)
        requires
            self@.len() > 0,
        ensures
            r == self@.last().idx,
    {
        self.frame().idx
    }

    /// Advance to the next entry at the same level. Returns `false` at end of sequence.
    pub fn advance<S: Storage + ?Sized>(&mut self, storage: &S) -> (r: Result<bool>)
        requires
            sound(storage.store()),
            cursor_ok(storage.store(), old(self)@),
        ensures
        plain_failure(r),
            storage.local() ==> r is Ok,
            r matches Ok(b) ==> b == (pos(storage.store(), old(self)@) + 1 < row_of(
                storage.store(),
                old(self)@,
            ).len()),
            r matches Ok(true) ==> {
                &&& cursor_ok(storage.store(), final(self)@)
                &&& final(self)@.len() == old(self)@.len()
                &&& final(self)@[0].node == old(self)@[0].node
                &&& pos(storage.store(), final(self)@) == pos(storage.store(), old(self)@) + 1
            },
    {
        advance_path(&mut self.path, storage)
    }

    /// Cursor at the leaf entry containing `off` (the last leaf when `off == len`).
    /// Also returns the leaf's start offset. `None` for an empty document.
    pub fn at_byte<S: Storage + ?Sized>(storage: &S, root: &crate::hash::Hash, off: u64) -> (r: Result<
        Option<(Cursor, u64)>,
    >)
        requires
            sound(storage.store()),
        ensures
        plain_failure(r),
            reads(storage.local(), storage.store(), root@, r),
            r matches Ok(o) ==> (o is None <==> storage.store().nodes[root@].len() == 0),
            r matches Ok(Some(x)) ==> at_leaf(
                storage.store(),
                x.0@,
                storage.store().nodes[root@],
                x.1 as int,
                off as int,
            ),
    {
        let ghost st = storage.store();
        let ghost top = st.nodes[root@];
        let mut node = match storage.node(root) {
            Ok(n) => n,
            Err(e) => {
                return Err(e);
            },
        };
        if node.children.len() == 0 {
            return Ok(None);
        }
        let mut path: Vec<Frame> = Vec::new();
        let mut start: u64 = 0;
        let ghost d = height(st, top);
        assert(node@.len() == node.children@.len());
        loop
            invariant
                st == storage.store(),
                sound(st),
                st.nodes.contains_key(root@),
                top == st.nodes[root@],
                top.len() > 0,
                tree_ok(st, top),
                d == height(st, top),
                tree_ok(st, node@),
                node@.len() > 0,
                node@.len() == node.children@.len(),
                height(st, node@) + path@.len() == d,
                start <= off,
                start + sum_bytes(node@) <= usize::MAX,
                path@.len() == 0 ==> node@ == top && start == 0,
                path@.len() > 0 ==> {
                    let p = frames(path@);
                    &&& cursor_ok(st, p)
                    &&& p[0].node == top
                    &&& st.nodes.contains_key(frame_entry(p.last()).hash)
                    &&& node@ == st.nodes[frame_entry(p.last()).hash]
                    &&& start == sum_bytes(row_of(st, p).take(pos(st, p)))
                    &&& off < start + sum_bytes(node@) || pos(st, p) + 1 == row_of(st, p).len()
                },
            decreases height(st, node@),
        {
            let ghost es = node@;
            let mut idx: usize = 0;
            let mut acc: u64 = start;
            assert(es.take(0) =~= Seq::empty());
            let last: usize = node.children.len() - 1;
            while idx < last && off - acc >= node.children[idx].nbytes
                invariant
                    idx < node.children@.len(),
                    last == node.children@.len() - 1,
                    es == node@,
                    start + sum_bytes(es) <= usize::MAX,
                    acc == start + sum_bytes(es.take(idx as int)),
                    acc <= off,
                decreases node.children@.len() - idx,
            {
                proof {
                    assert(es[idx as int] == node.children@[idx as int]@);
                    lemma_sums_take(es, idx as int);
                    lemma_sums_take(es, idx + 1);
                }
                acc = acc + node.children[idx].nbytes;
                idx += 1;
            }
            let child = node.children[idx];
            let ghost p0 = frames(path@);
            let ghost start0 = start;
            start = acc;
            path.push(Frame { node, idx });
            let ghost p = frames(path@);
            proof {
                assert(es[idx as int] == child@);
                assert(p.drop_last() =~= p0);
                assert(p.last() == FrameView { node: es, idx: idx as int });
                lemma_sums_take(es, idx as int);
                lemma_sums_take(es, idx + 1);
                if p0.len() > 0 {
                    assert(p[0] == p0[0]);
                    lemma_path_at(st, p0);
                } else {
                    assert(p[0] == p.last());
                }
                assert(path_ok(st, p));
                assert(cursor_ok(st, p));
                lemma_path_at(st, p);
                lemma_bytes_before(st, p);
                if p0.len() > 0 {
                    lemma_expand_at(st, row_of(st, p0), pos(st, p0));
                }
                if p.len() == 1 {
                    assert(row_of(st, p).take(node_pos(st, p)) =~= Seq::empty());
                }
                assert(start == sum_bytes(row_of(st, p).take(pos(st, p))));
                if off >= start + child.nbytes {
                    assert(idx + 1 == es.len());
                    assert(es.take(es.len() as int) =~= es);
                    if p0.len() > 0 {
                        assert(pos(st, p0) + 1 == row_of(st, p0).len());
                        assert(row_of(st, p0).skip(pos(st, p0) + 1) =~= Seq::empty());
                    }
                    assert(pos(st, p) + 1 == row_of(st, p).len());
                }
            }
            if child.is_leaf {
                proof {
                    lemma_child_leaf(st, es, idx as int);
                }
                return Ok(Some((Cursor { path }, start)));
            }
            proof {
                lemma_child_tree(st, es, idx as int);
                crate::model::lemma_entry_sums(st, es, height(st, es), idx as int);
                crate::tree::lemma_doc_sums(st, st.nodes[child.hash@]);
            }
            node = match storage.node(&child.hash) {
                Ok(n) => n,
                Err(e) => {
                    return Err(e);
                },
            };
            assert(node@.len() == node.children@.len());
        }
    }
}

/// A cursor at the leaf of the tree with root children `top` that covers byte `off` (the
/// last leaf when none does); the leaf begins at byte `start`.
pub open spec fn at_leaf(st: Store, p: Seq<FrameView>, top: Seq<Entry>, start: int, off: int) -> bool {
    &&& cursor_ok(st, p)
    &&& p[0].node == top
    &&& p.len() == height(st, top)
    &&& start == sum_bytes(row_of(st, p).take(pos(st, p)))
    &&& start <= off
    &&& off < start + frame_entry(p.last()).nbytes || pos(st, p) + 1 == row_of(st, p).len()
}

/// The path one entry further in the same node.
#[verifier::rlimit(40)]
#[verifier::spinoff_prover]
proof fn lemma_path_sibling(st: Store, p: Seq<FrameView>, q: Seq<FrameView>)
    requires
        cursor_ok(st, p),
        p.last().idx + 1 < p.last().node.len(),
        q == p.drop_last().push(FrameView { node: p.last().node, idx: p.last().idx + 1 }),
    ensures
        cursor_ok(st, q),
        q[0].node == p[0].node,
        pos(st, q) == pos(st, p) + 1,
        pos(st, p) + 1 < row_of(st, p).len(),
{
    lemma_path_at(st, p);
    assert(q.drop_last() =~= p.drop_last());
    if p.len() > 1 {
        assert(q[0] == p[0]);
    }
    assert(path_ok(st, q));
    lemma_path_at(st, q);
}

/// The path to the first entry of the next node.
proof fn lemma_path_next(st: Store, p: Seq<FrameView>, up2: Seq<FrameView>, q: Seq<FrameView>)
    requires
        cursor_ok(st, p),
        p.len() > 1,
        p.last().idx + 1 == p.last().node.len(),
        cursor_ok(st, up2),
        up2.len() == p.len() - 1,
        up2[0].node == p[0].node,
        pos(st, up2) == pos(st, p.drop_last()) + 1,
        q == up2.push(FrameView { node: st.nodes[frame_entry(up2.last()).hash], idx: 0 }),
    ensures
        st.nodes.contains_key(frame_entry(up2.last()).hash),
        cursor_ok(st, q),
        q[0].node == p[0].node,
        pos(st, q) == pos(st, p) + 1,
        pos(st, p) + 1 < row_of(st, p).len(),
{
    let up = p.drop_last();
    let top = p[0].node;
    let d = height(st, top);
    assert(up[0] == p[0]);
    lemma_path_top(st, p);
    lemma_path_at(st, p);
    lemma_path_at(st, up);
    lemma_path_at(st, up2);
    lemma_row_level(st, top, d, (up.len() - 1) as nat);
    let r = row_of(st, up);
    let q0 = pos(st, up);
    let dl = (d - (up.len() - 1)) as nat;
    lemma_expand_at(st, r, q0);
    lemma_level_at(st, r, dl, q0 + 1);
    assert(q.drop_last() =~= up2);
    assert(q[0] == up2[0]);
    assert(path_ok(st, q));
    lemma_path_at(st, q);
}

pub proof fn lemma_path_end(st: Store, p: Seq<FrameView>)
    requires
        cursor_ok(st, p),
        p.len() > 1,
        p.last().idx + 1 == p.last().node.len(),
        pos(st, p.drop_last()) + 1 == row_of(st, p.drop_last()).len(),
    ensures
        pos(st, p) + 1 == row_of(st, p).len(),
{
    let up = p.drop_last();
    assert(up[0] == p[0]);
    lemma_path_at(st, p);
    lemma_path_at(st, up);
    let r = row_of(st, up);
    let q0 = pos(st, up);
    lemma_expand_at(st, r, q0);
    assert(r.skip(q0 + 1) =~= Seq::empty());
}

fn advance_path<S: Storage + ?Sized>(path: &mut Vec<Frame>, storage: &S) -> (r: Result<bool>)
    requires
        sound(storage.store()),
        cursor_ok(storage.store(), frames(old(path)@)),
    ensures
        plain_failure(r),
        storage.local() ==> r is Ok,
        r matches Ok(b) ==> b == (pos(storage.store(), frames(old(path)@)) + 1 < row_of(
            storage.store(),
            frames(old(path)@),
        ).len()),
        r matches Ok(true) ==> {
            &&& cursor_ok(storage.store(), frames(final(path)@))
            &&& final(path)@.len() == old(path)@.len()
            &&& frames(final(path)@)[0].node == frames(old(path)@)[0].node
            &&& pos(storage.store(), frames(final(path)@)) == pos(storage.store(), frames(old(path)@)) + 1
        },
    decreases old(path)@.len(),
{
    let ghost st = storage.store();
    let ghost p = frames(path@);
    let mut f = path.pop().unwrap();
    let ghost up = frames(path@);
    assert(up =~= p.drop_last());
    assert(f@ == p.last());
    assert(f.node@.len() == f.node.children@.len());
    if f.idx < f.node.children.len() - 1 {
        f.idx = f.idx + 1;
        let ghost g = f@;
        path.push(f);
        proof {
            assert(frames(path@) =~= up.push(g));
            lemma_path_sibling(st, p, frames(path@));
        }
        return Ok(true);
    }
    if path.len() == 0 {
        assert(p[0] == p.last());
        return Ok(false);
    }
    assert(up[0] == p[0]);
    match advance_path(path, storage) {
        Ok(true) => {
            let ghost up2 = frames(path@);
            let n: usize = path.len();
            assert(up2.last() == path@[n - 1]@);
            let last = &path[n - 1];
            let h = last.node.children[last.idx].hash;
            assert(h@ == frame_entry(up2.last()).hash);
            proof {
                lemma_path_next(
                    st,
                    p,
                    up2,
                    up2.push(FrameView { node: st.nodes[frame_entry(up2.last()).hash], idx: 0 }),
                );
            }
            let node = match storage.node(&h) {
                Ok(m) => m,
                Err(e) => {
                    return Err(e);
                },
            };
            let fresh = Frame { node, idx: 0 };
            let ghost g = fresh@;
            path.push(fresh);
            assert(frames(path@) =~= up2.push(g));
            Ok(true)
        },
        Ok(false) => {
            proof {
                lemma_path_at(st, up);
                lemma_path_end(st, p);
            }
            Ok(false)
        },
        Err(e) => Err(e),
    }
}

/// The last row of a complete tree are its leaves.
pub(crate) proof fn lemma_leaf_row(st: Store, top: Seq<Entry>, d: nat, m: nat)
    requires
        m < d,
    ensures
        leaf_level(st, row(st, top, m), (d - m) as nat) == leaf_level(st, top, d),
    decreases m,
{
    if m > 0 {
        lemma_leaf_row(st, top, d, (m - 1) as nat);
    }
}

/// The leaf `k` of a document covers byte `off`, or is the last and `off` is behind it.
pub open spec fn covers(row: Seq<Entry>, k: int, off: int) -> bool {
    &&& 0 <= k < row.len()
    &&& sum_bytes(row.take(k)) <= off
    &&& off < sum_bytes(row.take(k)) + row[k].nbytes || k + 1 == row.len()
}

/// What is told of the leaf `k` that covers byte `off`.
pub open spec fn located(row: Seq<Entry>, k: int, off: int, x: (crate::hash::Hash, u64, u64)) -> bool {
    &&& covers(row, k, off)
    &&& x.0@ == row[k].hash
    &&& x.2 == sum_bytes(row.take(k))
    &&& x.1 == off - x.2
}

/// One leaf of the document covers byte `off`, and this is what is told of it.
pub open spec fn located_in(row: Seq<Entry>, off: int, x: (crate::hash::Hash, u64, u64)) -> bool {
    exists|k: int| #[trigger] located(row, k, off, x)
}

/// Locate the leaf containing byte offset `off`.
/// Returns `(leaf_hash, offset_in_leaf, leaf_start)`. `off == len` selects the last leaf.
pub fn locate_byte<S: Storage + ?Sized>(storage: &S, root: &crate::hash::Hash, off: u64) -> (r: Result<
    Option<(crate::hash::Hash, u64, u64)>,
>)
    requires
        sound(storage.store()),
    ensures
        plain_failure(r),
        reads(storage.local(), storage.store(), root@, r),
        r matches Ok(o) ==> (o is None <==> storage.store().nodes[root@].len() == 0),
        r matches Ok(Some(x)) ==> located_in(
            doc_leaves(storage.store(), storage.store().nodes[root@]),
            off as int,
            x,
        ),
{
    let ghost st = storage.store();
    let ghost top = st.nodes[root@];
    match Cursor::at_byte(storage, root, off) {
        Ok(Some((c, start))) => {
            proof {
                lemma_path_at(st, c@);
                lemma_leaf_row(st, top, height(st, top), (c@.len() - 1) as nat);
                let row = doc_leaves(st, top);
                assert(row == row_of(st, c@));
                let k = pos(st, c@);
                assert(covers(row, k, off as int));
            }
            let e = c.entry();
            let x: (crate::hash::Hash, u64, u64) = (e.hash, off - start, start);
            proof {
                let row = doc_leaves(st, top);
                let k = pos(st, c@);
                assert(located(row, k, off as int, x));
                assert(located_in(row, off as int, x));
            }
            Ok(Some(x))
        },
        Ok(None) => Ok(None),
        Err(e) => Err(e),
    }
}

} // verus!
