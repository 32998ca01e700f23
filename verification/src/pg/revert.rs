//! Undoing a batch: what to do about each of its changes, newest first, so each is undone on top
//! of the state it left. Anything changed since is left alone and reported.

use vstd::prelude::*;
use vstd::string::*;
use crate::chars::{begins, begins_with, joined_with, signed_dec, signed_decimal, texts};
use crate::error::TextdbError;
use crate::pg::bulk::{absent, refused};
use crate::pg::changes::{feed, version_in, writes, Change, ChangeRec};
use crate::storage::Result;
use crate::text::{chars_of, same_text};

verus! {

/// A node by id, deleted or not.
#[derive(Clone, Debug, PartialEq, Eq)]
pub struct AnyNode {
    pub kind: i16,
    pub path: String,
    pub version: i64,
    pub deleted: bool,
}

/// A node as a mathematical value.
pub struct NodeAt {
    pub kind: i16,
    pub path: Seq<char>,
    pub version: i64,
    pub deleted: bool,
}

impl View for AnyNode {
    type V = NodeAt;

    open spec fn view(&self) -> NodeAt {
        NodeAt { kind: self.kind, path: self.path@, version: self.version, deleted: self.deleted }
    }
}

pub open spec fn node_at(n: Option<&AnyNode>) -> Option<NodeAt> {
    match n {
        Some(n) => Some(n@),
        None => None,
    }
}

/// The least and the greatest version of a file that the first `n` changes wrote.
pub open spec fn span_of(cs: Seq<Change>, n: int, id: i64) -> Option<(int, int)>
    decreases n,
{
    if n <= 0 {
        None
    } else {
        let before = span_of(cs, n - 1, id);
        let c = cs[n - 1];
        if writes(c) && c.node_id == id {
            let v = version_in(c);
            match before {
                None => Some((v, v)),
                Some((lo, hi)) => Some((
                    if v < lo {
                        v
                    } else {
                        lo
                    },
                    if v > hi {
                        v
                    } else {
                        hi
                    },
                )),
            }
        } else {
            before
        }
    }
}

/// The least and the greatest version of a file that the changes wrote.
pub fn span(recs: &Vec<ChangeRec>, id: i64) -> (r: Option<(i64, i64)>)
    ensures
        match r {
            Some(p) => span_of(feed(recs@), recs@.len() as int, id) == Some((p.0 as int, p.1 as int)),
            None => span_of(feed(recs@), recs@.len() as int, id) is None,
        },
{
    let mut out: Option<(i64, i64)> = None;
    let mut n: usize = 0;
    while n < recs.len()
        invariant
            n <= recs@.len(),
            match out {
                Some(p) => span_of(feed(recs@), n as int, id) == Some((p.0 as int, p.1 as int)),
                None => span_of(feed(recs@), n as int, id) is None,
            },
        decreases recs@.len() - n,
    {
        let r = &recs[n];
        proof {
            assert(feed(recs@)[n as int] == r@);
        }
        if wrote(r) && r.node_id == id {
            let v: i64 = match r.version {
                Some(v) => v,
                None => 0,
            };
            out = match out {
                None => Some((v, v)),
                Some((lo, hi)) => Some((if v < lo { v } else { lo }, if v > hi { v } else { hi })),
            };
        }
        n += 1;
    }
    out
}

fn wrote(r: &ChangeRec) -> (b: bool)
    ensures
        b == writes(r@),
{
    same_text(r.op.as_str(), "create") || same_text(r.op.as_str(), "commit")
}

/// One of the changes deleted the path, or a folder it is in.
pub open spec fn deleted_in(cs: Seq<Change>, path: Seq<char>) -> bool {
    exists|i: int|
        0 <= i < cs.len() && (#[trigger] cs[i]).op == "delete"@ && (path == cs[i].path || begins(path, cs[i].path.push('/')))
}

/// One of the changes deleted the path, or a folder it is in.
pub fn deleted_by(recs: &Vec<ChangeRec>, path: &str) -> (r: bool)
    ensures
        r == deleted_in(feed(recs@), path@),
{
    let ghost cs = feed(recs@);
    let p: Vec<char> = chars_of(path);
    let mut i: usize = 0;
    while i < recs.len()
        invariant
            i <= recs@.len(),
            cs == feed(recs@),
            p@ == path@,
            forall|k: int|
                0 <= k < i ==> !((#[trigger] cs[k]).op == "delete"@ && (path@ == cs[k].path || begins(
                    path@,
                    cs[k].path.push('/'),
                ))),
        decreases recs@.len() - i,
    {
        let r = &recs[i];
        proof {
            assert(cs[i as int] == r@);
        }
        if same_text(r.op.as_str(), "delete") {
            let mut d: Vec<char> = chars_of(r.path.as_str());
            d.push('/');
            if same_text(path, r.path.as_str()) || begins_with(p.as_slice(), d.as_slice()) {
                return true;
            }
        }
        i += 1;
    }
    false
}

/// A later change of the batch wrote the same file.
pub open spec fn written_later(cs: Seq<Change>, i: int) -> bool {
    exists|j: int| i < j < cs.len() && writes(#[trigger] cs[j]) && cs[j].node_id == cs[i].node_id
}

fn rewritten_later(recs: &Vec<ChangeRec>, i: usize) -> (r: bool)
    requires
        i < recs@.len(),
    ensures
        r == written_later(feed(recs@), i as int),
{
    let ghost cs = feed(recs@);
    assert(i < recs.len());
    let mut j: usize = i + 1;
    while j < recs.len()
        invariant
            i < j <= recs@.len(),
            cs == feed(recs@),
            forall|k: int| i < k < j ==> !(writes(#[trigger] cs[k]) && cs[k].node_id == cs[i as int].node_id),
        decreases recs@.len() - j,
    {
        proof {
            assert(cs[j as int] == recs@[j as int]@);
            assert(cs[i as int] == recs@[i as int]@);
        }
        if wrote(&recs[j]) && recs[j].node_id == recs[i].node_id {
            return true;
        }
        j += 1;
    }
    false
}

/// What undoing one change takes.
#[derive(Debug, PartialEq, Eq)]
pub enum Undo {
    Nothing,
    /// Leave it, and say why.
    Skip(String),
    Move { from: String, to: String },
    /// Bring back what the delete took.
    BringBack,
    /// Delete the file, which the batch created.
    Remove(String),
    /// Write the file's content as it was at a version before the batch.
    Restore { path: String, version: i64 },
}

/// What undoing one change takes, as a mathematical value.
pub enum Step {
    Nothing,
    Skip(Seq<char>),
    Move { from: Seq<char>, to: Seq<char> },
    BringBack,
    Remove(Seq<char>),
    Restore { path: Seq<char>, version: int },
}

impl View for Undo {
    type V = Step;

    open spec fn view(&self) -> Step {
        match self {
            Undo::Nothing => Step::Nothing,
            Undo::Skip(s) => Step::Skip(s@),
            Undo::Move { from, to } => Step::Move { from: from@, to: to@ },
            Undo::BringBack => Step::BringBack,
            Undo::Remove(p) => Step::Remove(p@),
            Undo::Restore { path, version } => Step::Restore { path: path@, version: *version as int },
        }
    }
}

/// Undoing a move: back to the old path, if the node is still where it was moved to and nothing
/// has taken the old path.
pub open spec fn move_undone(c: Change, node: Option<NodeAt>, taken: bool) -> Step {
    match c.old_path {
        None => Step::Nothing,
        Some(old) => if node is Some && !node->0.deleted && node->0.path == c.path {
            if taken {
                Step::Skip(c.path + " not moved back: "@ + old + " exists"@)
            } else {
                Step::Move { from: c.path, to: old }
            }
        } else {
            Step::Skip(c.path + " not moved back to "@ + old + ": moved or deleted since"@)
        },
    }
}

/// Undoing a delete.
pub open spec fn delete_undone(c: Change, node: Option<NodeAt>) -> Step {
    match node {
        None => Step::Nothing,
        Some(n) => if n.deleted {
            Step::BringBack
        } else {
            Step::Skip(c.path + " not restored: no longer deleted"@)
        },
    }
}

/// Undoing all that the batch wrote to a file, at its newest write.
pub open spec fn write_undone(cs: Seq<Change>, i: int, node: Option<NodeAt>) -> Step {
    let (first, last) = span_of(cs, cs.len() as int, cs[i].node_id)->0;
    if written_later(cs, i) || node is None {
        Step::Nothing
    } else {
        let n = node->0;
        if n.deleted {
            if deleted_in(cs, n.path) {
                Step::Nothing
            } else {
                Step::Skip(n.path + " not restored: deleted since the batch"@)
            }
        } else if n.version != last {
            Step::Skip(
                n.path + " not restored: changed since the batch (v"@ + signed_dec(last) + ", now v"@ + signed_dec(
                    n.version as int,
                ) + ")"@,
            )
        } else if first <= 1 {
            Step::Remove(n.path)
        } else {
            Step::Restore { path: n.path, version: first - 1 }
        }
    }
}

/// What undoing change number `i` takes, given its node as it now is and whether a live node
/// has the path it was moved from.
pub open spec fn undone(cs: Seq<Change>, i: int, node: Option<NodeAt>, taken: bool) -> Step {
    let c = cs[i];
    if c.op == "move"@ {
        move_undone(c, node, taken)
    } else if c.op == "delete"@ {
        delete_undone(c, node)
    } else if writes(c) {
        write_undone(cs, i, node)
    } else {
        Step::Nothing
    }
}

fn undo_move(c: &ChangeRec, node: Option<&AnyNode>, taken: bool) -> (r: Undo)
    ensures
        r@ == move_undone(c@, node_at(node), taken),
{
    match &c.old_path {
        None => Undo::Nothing,
        Some(old) => {
            let there: bool = match node {
                Some(n) => !n.deleted && same_text(n.path.as_str(), c.path.as_str()),
                None => false,
            };
            let mut m = c.path.clone();
            if there && !taken {
                Undo::Move { from: m, to: old.clone() }
            } else if there {
                m.append(" not moved back: ");
                m.append(old.as_str());
                m.append(" exists");
                Undo::Skip(m)
            } else {
                m.append(" not moved back to ");
                m.append(old.as_str());
                m.append(": moved or deleted since");
                Undo::Skip(m)
            }
        },
    }
}

proof fn lemma_span_some(cs: Seq<Change>, n: int, i: int)
    requires
        0 <= i < n <= cs.len(),
        writes(cs[i]),
    ensures
        span_of(cs, n, cs[i].node_id) is Some,
    decreases n,
{
    if i < n - 1 {
        lemma_span_some(cs, n - 1, i);
    }
}

fn undo_write(recs: &Vec<ChangeRec>, i: usize, node: Option<&AnyNode>) -> (r: Undo)
    requires
        i < recs@.len(),
        writes(recs@[i as int]@),
    ensures
        r@ == write_undone(feed(recs@), i as int, node_at(node)),
{
    proof {
        assert(feed(recs@)[i as int] == recs@[i as int]@);
        lemma_span_some(feed(recs@), recs@.len() as int, i as int);
    }
    if rewritten_later(recs, i) {
        return Undo::Nothing;
    }
    match (node, span(recs, recs[i].node_id)) {
        (Some(n), Some((first, last))) => {
            let mut m = n.path.clone();
            if n.deleted {
                if deleted_by(recs, n.path.as_str()) {
                    Undo::Nothing
                } else {
                    m.append(" not restored: deleted since the batch");
                    Undo::Skip(m)
                }
            } else if n.version != last {
                m.append(" not restored: changed since the batch (v");
                m.append(signed_decimal(last).as_str());
                m.append(", now v");
                m.append(signed_decimal(n.version).as_str());
                m.append(")");
                Undo::Skip(m)
            } else if first <= 1 {
                Undo::Remove(m)
            } else {
                Undo::Restore { path: m, version: first - 1 }
            }
        },
        _ => Undo::Nothing,
    }
}

/// What undoing change number `i` takes, given its node as it now is and whether a live node
/// has the path it was moved from.
pub fn undo(recs: &Vec<ChangeRec>, i: usize, node: Option<&AnyNode>, taken: bool) -> (r: Undo)
    requires
        i < recs@.len(),
    ensures
        r@ == undone(feed(recs@), i as int, node_at(node), taken),
{
    let c = &recs[i];
    proof {
        assert(feed(recs@)[i as int] == c@);
        reveal_strlit("move");
        reveal_strlit("delete");
        reveal_strlit("create");
        reveal_strlit("commit");
    }
    if same_text(c.op.as_str(), "move") {
        undo_move(c, node, taken)
    } else if same_text(c.op.as_str(), "delete") {
        match node {
            None => Undo::Nothing,
            Some(n) => if n.deleted {
                Undo::BringBack
            } else {
                Undo::Skip(c.path.clone().concat(" not restored: no longer deleted"))
            },
        }
    } else if wrote(c) {
        undo_write(recs, i, node)
    } else {
        Undo::Nothing
    }
}

/// What bringing one deleted file back takes.
#[derive(Debug, PartialEq, Eq)]
pub enum Revival {
    Nothing,
    Skip(String),
    /// Create it with its content at a version.
    AtVersion(i64),
    /// Create it with the content it had.
    AsItWas,
}

/// What bringing one deleted file back takes, as a mathematical value.
pub enum Back {
    Nothing,
    Skip(Seq<char>),
    AtVersion(int),
    AsItWas,
}

impl View for Revival {
    type V = Back;

    open spec fn view(&self) -> Back {
        match self {
            Revival::Nothing => Back::Nothing,
            Revival::Skip(s) => Back::Skip(s@),
            Revival::AtVersion(v) => Back::AtVersion(*v as int),
            Revival::AsItWas => Back::AsItWas,
        }
    }
}

/// What bringing back a file takes that a delete of the batch took: nothing if the batch had
/// created it, its content from before the batch if the batch wrote it, else what it held.
pub open spec fn revived(cs: Seq<Change>, id: i64, path: Seq<char>, has_root: bool, taken: bool) -> Back {
    if taken {
        Back::Skip(path + " not restored: the path is taken"@)
    } else {
        match span_of(cs, cs.len() as int, id) {
            Some((first, _)) => if first <= 1 {
                Back::Nothing
            } else {
                Back::AtVersion(first - 1)
            },
            None => if has_root {
                Back::AsItWas
            } else {
                Back::Nothing
            },
        }
    }
}

/// What bringing back a file takes that a delete of the batch took.
pub fn revive(recs: &Vec<ChangeRec>, id: i64, path: &str, has_root: bool, taken: bool) -> (r: Revival)
    ensures
        r@ == revived(feed(recs@), id, path@, has_root, taken),
{
    if taken {
        return Revival::Skip(String::from_str(path).concat(" not restored: the path is taken"));
    }
    match span(recs, id) {
        Some((first, _)) => if first <= 1 {
            Revival::Nothing
        } else {
            Revival::AtVersion(first - 1)
        },
        None => if has_root {
            Revival::AsItWas
        } else {
            Revival::Nothing
        },
    }
}

/// A folder that was deleted with no file in it is made again, unless its path is taken.
pub fn remakes_folder(kind: i16, files: usize, taken: bool) -> (r: bool)
    ensures
        r == (kind == 0 && files == 0 && !taken),
{
    kind == 0 && files == 0 && !taken
}

/// What a revert did.
#[derive(Debug, PartialEq, Eq)]
pub struct Report {
    /// Files that hold what they held before the batch, and the version that does.
    pub restored: Vec<(String, i64)>,
    pub removed: Vec<String>,
    pub moved_back: Vec<(String, String)>,
    pub recreated: Vec<String>,
    pub skipped: Vec<String>,
}

pub open spec fn pairs(v: Seq<(String, String)>) -> Seq<(Seq<char>, Seq<char>)> {
    Seq::new(v.len(), |i: int| (v[i].0@, v[i].1@))
}

impl Report {
    pub fn new() -> (r: Self)
        ensures
            r.restored@.len() == 0,
            r.removed@.len() == 0,
            r.moved_back@.len() == 0,
            r.recreated@.len() == 0,
            r.skipped@.len() == 0,
    {
        Report {
            restored: Vec::new(),
            removed: Vec::new(),
            moved_back: Vec::new(),
            recreated: Vec::new(),
            skipped: Vec::new(),
        }
    }

    /// Note a step: a move, a removal and a reason to skip are kept as they are; what is restored
    /// or brought back is noted once it is done.
    pub fn note(&mut self, u: &Undo)
        ensures
            final(self).restored == old(self).restored,
            final(self).recreated == old(self).recreated,
            texts(final(self).skipped@) == match u@ {
                Step::Skip(m) => texts(old(self).skipped@).push(m),
                _ => texts(old(self).skipped@),
            },
            texts(final(self).removed@) == match u@ {
                Step::Remove(p) => texts(old(self).removed@).push(p),
                _ => texts(old(self).removed@),
            },
            pairs(final(self).moved_back@) == match u@ {
                Step::Move { from, to } => pairs(old(self).moved_back@).push((from, to)),
                _ => pairs(old(self).moved_back@),
            },
    {
        let ghost before = *self;
        match u {
            Undo::Skip(m) => {
                self.skipped.push(m.clone());
                proof {
                    assert(texts(self.skipped@) =~= texts(before.skipped@).push(m@));
                }
            },
            Undo::Remove(p) => {
                self.removed.push(p.clone());
                proof {
                    assert(texts(self.removed@) =~= texts(before.removed@).push(p@));
                }
            },
            Undo::Move { from, to } => {
                self.moved_back.push((from.clone(), to.clone()));
                proof {
                    assert(pairs(self.moved_back@) =~= pairs(before.moved_back@).push((from@, to@)));
                }
            },
            _ => {},
        }
    }
}

/// The sentence that says there is no such batch.
pub open spec fn no_batch(batch: Seq<char>) -> Seq<char> {
    "no changes recorded under batch "@ + batch
}

/// A batch to undo has changes.
pub fn check_batch(batch: &str, recs: &Vec<ChangeRec>) -> (r: Result<()>)
    ensures
        r is Ok <==> recs@.len() > 0,
        r is Err ==> absent(r, no_batch(batch@)),
{
    if recs.len() == 0 {
        Err(TextdbError::NotFound(String::from_str("no changes recorded under batch ").concat(batch)))
    } else {
        Ok(())
    }
}

/// The message of the commits that undo a batch.
pub fn revert_message(batch: &str) -> (r: String)
    ensures
        r@ == "revert batch "@ + batch@,
{
    String::from_str("revert batch ").concat(batch)
}

/// The reasons, one behind the other.
fn join_reasons(v: &Vec<String>) -> (s: String)
    ensures
        s@ == joined_with(texts(v@), "; "@),
{
    let ghost all = texts(v@);
    let mut s = String::new();
    let mut i: usize = 0;
    proof {
        assert(s@ =~= joined_with(all.take(0), "; "@));
    }
    while i < v.len()
        invariant
            i <= v@.len(),
            all == texts(v@),
            s@ == joined_with(all.take(i as int), "; "@),
        decreases v@.len() - i,
    {
        proof {
            assert(all.take(i + 1).drop_last() =~= all.take(i as int));
            assert(all.take(i + 1).last() == v@[i as int]@);
        }
        if i > 0 {
            s.append("; ");
        }
        s.append(v[i].as_str());
        proof {
            if i == 0 {
                assert(s@ =~= v@[0]@);
                assert(all.take(1)[0] == v@[0]@);
            }
        }
        i += 1;
    }
    proof {
        assert(all.take(i as int) =~= all);
    }
    s
}

/// The sentence that says why a batch was not undone.
pub open spec fn not_clean(batch: Seq<char>, skipped: Seq<Seq<char>>) -> Seq<char> {
    "batch "@ + batch + " cannot be reverted cleanly, so nothing was changed: "@ + joined_with(skipped, "; "@)
        + ". Revert the rest with --skip-changed"@
}

/// The outcome of a revert: anything that had to be skipped fails it, unless `skip_changed`.
pub fn outcome(batch: &str, skip_changed: bool, report: Report) -> (r: Result<Report>)
    ensures
        r is Ok <==> skip_changed || report.skipped@.len() == 0,
        r matches Ok(x) ==> x == report,
        r is Err ==> refused(r, not_clean(batch@, texts(report.skipped@))),
{
    if !skip_changed && report.skipped.len() > 0 {
        let mut m = String::from_str("batch ");
        m.append(batch);
        m.append(" cannot be reverted cleanly, so nothing was changed: ");
        m.append(join_reasons(&report.skipped).as_str());
        m.append(". Revert the rest with --skip-changed");
        return Err(TextdbError::InvalidEdit(m));
    }
    Ok(report)
}


/// Of two undos of writes to one file, only that of the newest does anything.
pub proof fn law_writes_undone_once(cs: Seq<Change>, i: int, j: int, node: Option<NodeAt>, taken: bool)
    requires
        0 <= i < j < cs.len(),
        writes(cs[i]),
        writes(cs[j]),
        cs[i].node_id == cs[j].node_id,
    ensures
        undone(cs, i, node, taken) == Step::Nothing,
{
    reveal_strlit("move");
    reveal_strlit("delete");
    reveal_strlit("create");
    reveal_strlit("commit");
    assert("create"@[0] == 'c');
    assert("commit"@[0] == 'c');
    assert("move"@[0] == 'm');
    assert("delete"@[0] == 'd');
    assert(written_later(cs, i));
}

} // verus!
