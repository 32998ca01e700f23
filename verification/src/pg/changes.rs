//! The changes a batch or a statement made, a file's commits folded into one item with a diff.

use vstd::prelude::*;
use vstd::slice::slice_subrange;
use vstd::string::*;
use crate::chars::{signed_dec, signed_decimal};
use crate::diff::{reads_both, unified_diff};
use crate::error::TextdbError;
use crate::model::{doc, sound, Store};
use crate::pg::bulk::{absent, refused};
use crate::regions::{all_unified, regions_between};
use crate::storage::{Result, Storage};
use crate::terms::{line_spans, text_lines};
use crate::text::{chars_of, dec, decimal, lossy_text, same_text, string_of, utf8_lossy};
use crate::tree::{materialize, reads};

verus! {

/// A row of the change feed.
#[derive(Clone, Debug, PartialEq, Eq)]
pub struct ChangeRec {
    pub op: String,
    pub node_id: i64,
    pub path: String,
    pub old_path: Option<String>,
    pub version: Option<i64>,
}

/// A row of the change feed as a mathematical value.
#[verifier::ext_equal]
pub struct Change {
    pub op: Seq<char>,
    pub node_id: i64,
    pub path: Seq<char>,
    pub old_path: Option<Seq<char>>,
    pub version: Option<i64>,
}

pub open spec fn some_text(s: Option<String>) -> Option<Seq<char>> {
    match s {
        Some(s) => Some(s@),
        None => None,
    }
}

impl View for ChangeRec {
    type V = Change;

    open spec fn view(&self) -> Change {
        Change {
            op: self.op@,
            node_id: self.node_id,
            path: self.path@,
            old_path: some_text(self.old_path),
            version: self.version,
        }
    }
}

pub open spec fn feed(recs: Seq<ChangeRec>) -> Seq<Change> {
    Seq::new(recs.len(), |i: int| recs[i]@)
}

/// One change as it is told: what happened to which path, between which versions.
#[derive(Debug, PartialEq, Eq)]
pub struct ChangeItem {
    pub op: String,
    pub path: String,
    pub old_path: Option<String>,
    pub from_version: Option<i64>,
    pub to_version: Option<i64>,
}

/// A told change as a mathematical value.
#[verifier::ext_equal]
pub struct Item {
    pub op: Seq<char>,
    pub path: Seq<char>,
    pub old_path: Option<Seq<char>>,
    pub from_version: Option<int>,
    pub to_version: Option<int>,
}

pub open spec fn number(v: Option<i64>) -> Option<int> {
    match v {
        Some(v) => Some(v as int),
        None => None,
    }
}

impl View for ChangeItem {
    type V = Item;

    open spec fn view(&self) -> Item {
        Item {
            op: self.op@,
            path: self.path@,
            old_path: some_text(self.old_path),
            from_version: number(self.from_version),
            to_version: number(self.to_version),
        }
    }
}

pub open spec fn told(items: Seq<ChangeItem>) -> Seq<Item> {
    Seq::new(items.len(), |i: int| items[i]@)
}

/// The change wrote a version of a file.
pub open spec fn writes(c: Change) -> bool {
    c.op == "create"@ || c.op == "commit"@
}

/// The version a change wrote.
pub open spec fn version_in(c: Change) -> int {
    match c.version {
        Some(v) => v as int,
        None => 0,
    }
}

/// A version that has one before it.
pub open spec fn follows(c: Change) -> bool {
    version_in(c) > i64::MIN
}

/// The place of the first pair with an id; the length if there is none.
pub open spec fn place_of(files: Seq<(i64, usize)>, id: i64) -> int
    decreases files.len(),
{
    if files.len() == 0 {
        0
    } else if files[0].0 == id {
        0
    } else {
        1 + place_of(files.skip(1), id)
    }
}

/// The first `n` changes, told: the items, and for each file the item that tells its commits.
pub open spec fn folded(cs: Seq<Change>, n: int) -> (Seq<Item>, Seq<(i64, usize)>)
    decreases n,
{
    if n <= 0 {
        (Seq::empty(), Seq::empty())
    } else {
        let (items, files) = folded(cs, n - 1);
        let c = cs[n - 1];
        if writes(c) {
            let v = version_in(c);
            let k = place_of(files, c.node_id);
            if k < files.len() {
                let i = files[k].1 as int;
                (items.update(i, Item { to_version: Some(v), ..items[i] }), files)
            } else {
                (
                    items.push(
                        Item {
                            op: if v <= 1 {
                                "create"@
                            } else {
                                "edit"@
                            },
                            path: c.path,
                            old_path: None,
                            from_version: Some(v - 1),
                            to_version: Some(v),
                        },
                    ),
                    files.push((c.node_id, items.len() as usize)),
                )
            }
        } else if c.op == "move"@ || c.op == "delete"@ || c.op == "mkdir"@ {
            (
                items.push(
                    Item { op: c.op, path: c.path, old_path: c.old_path, from_version: None, to_version: None },
                ),
                files,
            )
        } else {
            (items, files)
        }
    }
}

proof fn lemma_place_of(files: Seq<(i64, usize)>, id: i64)
    ensures
        0 <= place_of(files, id) <= files.len(),
        place_of(files, id) < files.len() ==> files[place_of(files, id)].0 == id,
    decreases files.len(),
{
    if files.len() > 0 && files[0].0 != id {
        lemma_place_of(files.skip(1), id);
    }
}

fn find_file(files: &Vec<(i64, usize)>, id: i64) -> (k: usize)
    ensures
        k == place_of(files@, id),
        k <= files@.len(),
{
    let mut k: usize = 0;
    proof {
        assert(files@.skip(0) =~= files@);
    }
    while k < files.len()
        invariant
            k <= files@.len(),
            place_of(files@, id) == k + place_of(files@.skip(k as int), id),
        decreases files@.len() - k,
    {
        proof {
            assert(files@.skip(k as int).skip(1) =~= files@.skip(k + 1));
        }
        if files[k].0 == id {
            return k;
        }
        k += 1;
    }
    k
}

/// The changes, a file's commits folded into one item: the items, and the id of each file with the
/// place of its item. With a batch there must be a change.
pub fn changes(batch: Option<&str>, recs: &Vec<ChangeRec>) -> (r: Result<(Vec<ChangeItem>, Vec<(i64, usize)>)>)
    requires
        forall|i: int| 0 <= i < recs@.len() ==> follows(#[trigger] recs@[i]@),
    ensures
        batch is Some && recs@.len() == 0 ==> absent(r, "no changes recorded under batch "@ + (batch->0)@),
        batch is None || recs@.len() > 0 ==> {
            &&& r is Ok
            &&& told((r->Ok_0).0@) == folded(feed(recs@), recs@.len() as int).0
            &&& (r->Ok_0).1@ == folded(feed(recs@), recs@.len() as int).1
            &&& forall|k: int| 0 <= k < (r->Ok_0).1@.len() ==> (#[trigger] (r->Ok_0).1@[k]).1 < (r->Ok_0).0@.len()
        },
{
    match batch {
        Some(b) => {
            if recs.len() == 0 {
                return Err(TextdbError::NotFound(String::from_str("no changes recorded under batch ").concat(b)));
            }
        },
        None => {},
    }
    let ghost cs = feed(recs@);
    let mut items: Vec<ChangeItem> = Vec::new();
    let mut files: Vec<(i64, usize)> = Vec::new();
    let mut n: usize = 0;
    proof {
        assert(told(items@) =~= Seq::<Item>::empty());
    }
    while n < recs.len()
        invariant
            n <= recs@.len(),
            cs == feed(recs@),
            forall|i: int| 0 <= i < recs@.len() ==> follows(#[trigger] recs@[i]@),
            told(items@) == folded(cs, n as int).0,
            files@ == folded(cs, n as int).1,
            forall|k: int| 0 <= k < files@.len() ==> (#[trigger] files@[k]).1 < items@.len(),
        decreases recs@.len() - n,
    {
        let r = &recs[n];
        let ghost before = told(items@);
        let ghost items0 = items@;
        proof {
            assert(cs[n as int] == r@);
        }
        if same_text(r.op.as_str(), "create") || same_text(r.op.as_str(), "commit") {
            let v: i64 = match r.version {
                Some(v) => v,
                None => 0,
            };
            let k: usize = find_file(&files, r.node_id);
            proof {
                lemma_place_of(files@, r.node_id);
            }
            if k < files.len() {
                let i: usize = files[k].1;
                let last = ChangeItem {
                    op: items[i].op.clone(),
                    path: items[i].path.clone(),
                    old_path: items[i].old_path.clone(),
                    from_version: items[i].from_version,
                    to_version: Some(v),
                };
                items.set(i, last);
                proof {
                    assert(told(items@) =~= before.update(
                        i as int,
                        Item { to_version: Some(v as int), ..before[i as int] },
                    ));
                }
            } else {
                files.push((r.node_id, items.len()));
                items.push(
                    ChangeItem {
                        op: String::from_str(if v <= 1 { "create" } else { "edit" }),
                        path: r.path.clone(),
                        old_path: None,
                        from_version: Some(v - 1),
                        to_version: Some(v),
                    },
                );
                proof {
                    assert(told(items@) =~= before.push(items@.last()@));
                }
            }
        } else if same_text(r.op.as_str(), "move") || same_text(r.op.as_str(), "delete") || same_text(r.op.as_str(), "mkdir") {
            items.push(
                ChangeItem {
                    op: r.op.clone(),
                    path: r.path.clone(),
                    old_path: r.old_path.clone(),
                    from_version: None,
                    to_version: None,
                },
            );
            proof {
                assert(told(items@) =~= before.push(items@.last()@));
            }
        }
        n += 1;
    }
    Ok((items, files))
}

/// Lines, each with a plus before it.
pub open spec fn added_lines(lines: Seq<Seq<char>>, n: int) -> Seq<char>
    decreases n,
{
    if n <= 0 {
        Seq::empty()
    } else {
        added_lines(lines, n - 1) + "+"@ + lines[n - 1] + "\n"@
    }
}

/// A new file as a unified diff against nothing.
pub open spec fn created_text(path: Seq<char>, version: int, content: Seq<u8>) -> Seq<char> {
    let lines = text_lines(utf8_lossy(content));
    "--- /dev/null\n+++ "@ + path + "@"@ + signed_dec(version) + "\n@@ -0,0 +1,"@ + dec(lines.len()) + " @@\n"@
        + added_lines(lines, lines.len() as int)
}

/// A new file as a unified diff against nothing.
pub fn created_diff(path: &str, version: i64, content: &[u8]) -> (r: String)
    ensures
        r@ == created_text(path@, version as int, content@),
{
    let cs: Vec<char> = chars_of(lossy_text(content).as_str());
    let spans = line_spans(cs.as_slice());
    let ghost lines = text_lines(cs@);
    let mut s = String::from_str("--- /dev/null\n+++ ");
    s.append(path);
    s.append("@");
    s.append(signed_decimal(version).as_str());
    s.append("\n@@ -0,0 +1,");
    s.append(decimal(spans.len() as u64).as_str());
    s.append(" @@\n");
    let ghost head = s@;
    let mut i: usize = 0;
    proof {
        assert(head + added_lines(lines, 0) =~= head);
    }
    while i < spans.len()
        invariant
            i <= spans@.len(),
            lines == text_lines(cs@),
            crate::terms::cuts(cs@, spans@, lines),
            s@ == head + added_lines(lines, i as int),
        decreases spans@.len() - i,
    {
        let l = string_of(slice_subrange(cs.as_slice(), spans[i].from, spans[i].to));
        proof {
            assert(l@ == lines[i as int]);
        }
        s.append("+");
        s.append(l.as_str());
        s.append("\n");
        proof {
            assert(s@ =~= head + (added_lines(lines, i as int) + "+"@ + lines[i as int] + "\n"@));
        }
        i += 1;
    }
    s
}

/// A diff with the names of the two versions above it; nothing if there is no difference.
pub open spec fn headed_diff(path: Seq<char>, from: int, to: int, body: Seq<char>) -> Seq<char> {
    if body.len() == 0 {
        Seq::empty()
    } else {
        "--- "@ + path + "@"@ + signed_dec(from) + "\n+++ "@ + path + "@"@ + signed_dec(to) + "\n"@ + body
    }
}

/// A diff with the names of the two versions above it.
pub fn headed(path: &str, from: i64, to: i64, body: &str) -> (r: String)
    ensures
        r@ == headed_diff(path@, from as int, to as int, body@),
{
    if body.unicode_len() == 0 {
        return String::new();
    }
    let mut s = String::from_str("--- ");
    s.append(path);
    s.append("@");
    s.append(signed_decimal(from).as_str());
    s.append("\n+++ ");
    s.append(path);
    s.append("@");
    s.append(signed_decimal(to).as_str());
    s.append("\n");
    s.append(body);
    s
}

/// What a file's item shows: all of a file that was created, else what changed between the two
/// versions.
pub open spec fn item_text(st: Store, path: Seq<char>, from: int, to: int, a: Seq<u8>, b: Seq<u8>) -> Seq<char> {
    if from <= 0 {
        created_text(path, to, doc(st, b))
    } else {
        headed_diff(path, from, to, all_unified(doc(st, a), doc(st, b), regions_between(st, a, b), 3))
    }
}

/// The diff of a file's item. `a` is the root of version `from` and is not read for a file that
/// was created; `b` is the root of version `to`.
pub fn item_diff<S: Storage + ?Sized>(
    storage: &S,
    path: &str,
    from: i64,
    to: i64,
    a: &crate::hash::Hash,
    b: &crate::hash::Hash,
) -> (r: Result<String>)
    requires
        sound(storage.store()),
        storage.store().nodes.contains_key(a@) ==> doc(storage.store(), a@).len() < usize::MAX,
        storage.store().nodes.contains_key(b@) ==> doc(storage.store(), b@).len() < usize::MAX,
    ensures
        from <= 0 ==> reads(storage.local(), storage.store(), b@, r),
        from > 0 && a@ != b@ ==> reads_both(storage.local(), storage.store(), a@, b@, r),
        from > 0 && a@ == b@ ==> r is Ok,
        r matches Ok(s) ==> s@ == item_text(storage.store(), path@, from as int, to as int, a@, b@),
{
    if from <= 0 {
        match materialize(storage, b) {
            Ok(content) => Ok(created_diff(path, to, content.as_slice())),
            Err(e) => Err(e),
        }
    } else {
        match unified_diff(storage, a, b, 3) {
            Ok(body) => Ok(headed(path, from, to, body.as_str())),
            Err(e) => Err(e),
        }
    }
}


/// Which changes are asked for: those of a batch, else those after a change number.
#[derive(Debug, PartialEq, Eq)]
pub enum Since {
    Batch(String),
    Number(i64),
}

/// Which changes are asked for; a batch wins over a change number, and one of them must be given.
pub fn change_filter(seq: Option<i64>, batch: Option<&str>) -> (r: Result<Since>)
    ensures
        match (batch, seq) {
            (Some(b), _) => r matches Ok(Since::Batch(s)) && s@ == b@,
            (None, Some(n)) => r matches Ok(Since::Number(k)) && k == n,
            (None, None) => refused(r, "give a change number or a batch"@),
        },
{
    match batch {
        Some(b) => Ok(Since::Batch(String::from_str(b))),
        None => match seq {
            Some(n) => Ok(Since::Number(n)),
            None => Err(TextdbError::InvalidEdit(String::from_str("give a change number or a batch"))),
        },
    }
}

} // verus!
