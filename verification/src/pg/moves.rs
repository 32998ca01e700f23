//! Folders, moves, deletes, and the versions that are read.

use vstd::prelude::*;
use vstd::string::*;
use crate::chars::{begins, begins_with};
use crate::diff::{line_hunks, reads_both, LineHunk};
use crate::error::TextdbError;
use crate::lines::{lines_of, split_lines};
use crate::model::{doc, sound, Store};
use crate::pg::bulk::{absent, refused};
use crate::pg::store::NodeRow;
use crate::regions::{all_region_hunks, line_hunk_views, regions_between, LineHunkView};
use crate::storage::{Result, Storage};
use crate::text::{chars_of, lossy_text, same_text, utf8_lossy};
use crate::tree::{is_lines, lines, materialize, reads};

verus! {

/// What has to be done to have a folder at a path, given the live node there: nothing, if it is a
/// folder; its parent and it are to be made, if there is no node.
pub fn folder_step(path: &str, node: Option<&NodeRow>) -> (r: Result<Option<i64>>)
    ensures
        node matches Some(n) && n.kind == 0 ==> r == Ok::<Option<i64>, TextdbError>(Some((node->0).id)),
        node matches Some(n) && n.kind != 0 ==> refused(r, path@ + " is a file"@),
        node is None && path@ == "/"@ ==> (r matches Err(TextdbError::Storage(m)) && m@ == "root folder missing"@),
        node is None && path@ != "/"@ ==> r == Ok::<Option<i64>, TextdbError>(None),
{
    match node {
        Some(n) => if n.kind == 0 {
            Ok(Some(n.id))
        } else {
            Err(TextdbError::InvalidEdit(String::from_str(path).concat(" is a file")))
        },
        None => if same_text(path, "/") {
            Err(TextdbError::Storage(String::from_str("root folder missing")))
        } else {
            Ok(None)
        },
    }
}

/// A file can be created where there is no node.
pub fn check_create(path: &str, taken: bool) -> (r: Result<()>)
    ensures
        r is Ok <==> !taken,
        r is Err ==> refused(r, path@ + " already exists"@),
{
    if taken {
        Err(TextdbError::InvalidEdit(String::from_str(path).concat(" already exists")))
    } else {
        Ok(())
    }
}

/// A path is another one or below it.
pub open spec fn inside(outer: Seq<char>, path: Seq<char>) -> bool {
    path == outer || begins(path, outer + "/"@)
}

/// Can a node be moved? `there` says whether a live node is at `from`, `taken` whether one is at
/// `to`.
pub fn check_move(from: &str, to: &str, there: bool, taken: bool) -> (r: Result<()>)
    ensures
        ({
            let root = from@ == "/"@ || to@ == "/"@;
            &&& root ==> refused(r, "cannot move the root"@)
            &&& !root && !there ==> absent(r, from@)
            &&& !root && there && inside(from@, to@) ==> refused(r, "cannot move "@ + from@ + " into itself"@)
            &&& !root && there && !inside(from@, to@) && taken ==> refused(r, to@ + " already exists"@)
            &&& !root && there && !inside(from@, to@) && !taken ==> r is Ok
        }),
{
    if same_text(from, "/") || same_text(to, "/") {
        return Err(TextdbError::InvalidEdit(String::from_str("cannot move the root")));
    }
    if !there {
        return Err(TextdbError::NotFound(String::from_str(from)));
    }
    let below: Vec<char> = chars_of(String::from_str(from).concat("/").as_str());
    if same_text(to, from) || begins_with(chars_of(to).as_slice(), below.as_slice()) {
        return Err(TextdbError::InvalidEdit(String::from_str("cannot move ").concat(from).concat(" into itself")));
    }
    if taken {
        return Err(TextdbError::InvalidEdit(String::from_str(to).concat(" already exists")));
    }
    Ok(())
}

/// Can the node at a path be deleted?
pub fn check_delete(path: &str, there: bool) -> (r: Result<()>)
    ensures
        path@ == "/"@ ==> refused(r, "cannot delete the root"@),
        path@ != "/"@ && !there ==> absent(r, path@),
        path@ != "/"@ && there ==> r is Ok,
{
    if same_text(path, "/") {
        Err(TextdbError::InvalidEdit(String::from_str("cannot delete the root")))
    } else if !there {
        Err(TextdbError::NotFound(String::from_str(path)))
    } else {
        Ok(())
    }
}

/// A number, zero if it is below.
pub open spec fn not_below_zero(n: int) -> int {
    if n < 0 {
        0
    } else {
        n
    }
}

/// The versions to compare: the second is the current one unless given, the first the one before
/// the second. Version 0 is the empty document.
pub fn compared_versions(v1: Option<i64>, v2: Option<i64>, head: i64) -> (r: (u64, u64))
    ensures
        ({
            let b = match v2 {
                Some(b) => b as int,
                None => head as int,
            };
            let a = match v1 {
                Some(a) => a as int,
                None => b - 1,
            };
            r.0 == not_below_zero(a) && r.1 == not_below_zero(b)
        }),
{
    let b: i64 = match v2 {
        Some(b) => b,
        None => head,
    };
    let second: u64 = if b < 0 {
        0
    } else {
        b as u64
    };
    let first: u64 = match v1 {
        Some(a) => if a < 0 {
            0
        } else {
            a as u64
        },
        None => if second == 0 {
            0
        } else {
            second - 1
        },
    };
    (first, second)
}

/// A whole document as one hunk, added or taken away; an empty one has none.
pub open spec fn whole_hunk(text: Seq<u8>, added: bool) -> Seq<LineHunkView> {
    if text.len() == 0 {
        Seq::empty()
    } else {
        let n = lines_of(text).len() as int;
        seq![
            LineHunkView {
                old_from: 0,
                old_count: if added {
                    0
                } else {
                    n
                },
                new_from: 0,
                new_count: if added {
                    n
                } else {
                    0
                },
                old_text: if added {
                    Seq::empty()
                } else {
                    text
                },
                new_text: if added {
                    text
                } else {
                    Seq::empty()
                },
            },
        ]
    }
}

/// The hunks between two versions whose roots are `a` and `b`. Version 0 is the empty document,
/// for which no root is stored.
pub open spec fn version_hunks(st: Store, v1: u64, v2: u64, a: Seq<u8>, b: Seq<u8>) -> Seq<LineHunkView> {
    if v1 == v2 {
        Seq::empty()
    } else if v1 == 0 {
        whole_hunk(doc(st, b), true)
    } else if v2 == 0 {
        whole_hunk(doc(st, a), false)
    } else {
        all_region_hunks(doc(st, a), doc(st, b), regions_between(st, a, b))
    }
}

/// The hunks between two versions whose roots are `a` and `b`; the root of version 0 is not read.
pub fn hunks_between<S: Storage + ?Sized>(
    storage: &S,
    v1: u64,
    v2: u64,
    a: &crate::hash::Hash,
    b: &crate::hash::Hash,
) -> (r: Result<Vec<LineHunk>>)
    requires
        sound(storage.store()),
    ensures
        v1 == v2 ==> r is Ok,
        v1 != v2 && v1 == 0 ==> reads(storage.local(), storage.store(), b@, r),
        v1 != v2 && v2 == 0 ==> reads(storage.local(), storage.store(), a@, r),
        v1 != v2 && v1 != 0 && v2 != 0 && a@ != b@ ==> reads_both(storage.local(), storage.store(), a@, b@, r),
        v1 != v2 && v1 != 0 && v2 != 0 && a@ == b@ ==> r is Ok,
        r matches Ok(v) ==> line_hunk_views(v@) == version_hunks(storage.store(), v1, v2, a@, b@),
{
    let mut out: Vec<LineHunk> = Vec::new();
    proof {
        assert(line_hunk_views(out@) =~= Seq::<LineHunkView>::empty());
    }
    if v1 == v2 {
        return Ok(out);
    }
    if v1 != 0 && v2 != 0 {
        return line_hunks(storage, a, b);
    }
    let added: bool = v1 == 0;
    let root: &crate::hash::Hash = if added {
        b
    } else {
        a
    };
    let text: Vec<u8> = match materialize(storage, root) {
        Ok(t) => t,
        Err(e) => {
            return Err(e);
        },
    };
    if text.len() == 0 {
        return Ok(out);
    }
    let count: u64 = {
        let ls = split_lines(text.as_slice());
        proof {
            assert(ls@.len() == crate::lines::slice_views(ls@).len());
        }
        ls.len() as u64
    };
    let ghost t = text@;
    let hunk = if added {
        LineHunk { old_from: 0, old_count: 0, new_from: 0, new_count: count, old_text: Vec::new(), new_text: text }
    } else {
        LineHunk { old_from: 0, old_count: count, new_from: 0, new_count: 0, old_text: text, new_text: Vec::new() }
    };
    proof {
        assert(hunk@ =~= whole_hunk(t, added)[0]);
    }
    out.push(hunk);
    proof {
        assert(line_hunk_views(out@) =~= whole_hunk(t, added));
    }
    Ok(out)
}

/// Lines `[from, to]`, 1-based and inclusive, as text; nothing where there are no such lines.
pub fn lines_text<S: Storage + ?Sized>(storage: &S, root: &crate::hash::Hash, from: i64, to: i64) -> (r: Result<String>)
    requires
        sound(storage.store()),
    ensures
        from <= 0 || to < from ==> r is Ok && r->Ok_0@.len() == 0,
        from > 0 && to >= from ==> reads(storage.local(), storage.store(), root@, r),
        from > 0 && to >= from ==> (r matches Ok(s) ==> exists|b: Seq<u8>|
            s@ == utf8_lossy(b) && #[trigger] is_lines(doc(storage.store(), root@), from - 1, to - 1, b)),
{
    if from <= 0 || to < from {
        return Ok(String::new());
    }
    match lines(storage, root, (from - 1) as u64, (to - 1) as u64) {
        Ok(b) => Ok(lossy_text(b.as_slice())),
        Err(e) => Err(e),
    }
}

} // verus!
