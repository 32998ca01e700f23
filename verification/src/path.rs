//! Path history: renames, moves and deletes, recorded next to a file's versions.
//!
//! A version is a change of content. A path event is a change of where a file or folder is,
//! or of whether it is there at all; it does not create a version, so version `v` is still
//! content `v - 1` plus one commit. Backends record one event per node an operation touched —
//! the node it named, and every node below a folder — so a file's history stays complete
//! when only its folder was renamed, moved or deleted.
//!
//! Recording is a store setting, [`PATH_HISTORY_SETTING`], on unless turned off.

use vstd::prelude::*;
use vstd::slice::slice_subrange;
use vstd::string::*;
use crate::chars::{
    after_last, ascii_lowered, past_last, same_chars, texts, to_ascii_lowered, trim_both_white, trim_end, trim_end_char,
    trim_white, lemma_past_last,
};
use crate::text::{chars_of, same_text, string_of};

verus! {

/// What happened to a node's path.
#[derive(Clone, Copy, Debug, PartialEq, Eq, Structural)]
pub enum PathOp {
    /// A new name in the same folder.
    Rename,
    /// Into another folder, with or without a new name.
    Move,
    /// Deleted (to the trash, where backends keep one).
    Delete,
}

/// The folder of a path; `/` for a path right below the root.
pub open spec fn folder_of(path: Seq<char>) -> Seq<char> {
    let p = trim_end(path, '/');
    let i = past_last(p, '/');
    if i <= 1 {
        "/"@
    } else {
        path.take(i - 1)
    }
}

impl PathOp {
    /// `Rename` when `from` and `to` are in the same folder, `Move` otherwise.
    pub fn classify(from: &str, to: &str) -> (r: PathOp)
        ensures
            r == if folder_of(from@) == folder_of(to@) {
                PathOp::Rename
            } else {
                PathOp::Move
            },
    {
        let a = chars_of(from);
        let b = chars_of(to);
        let pa = parent(a.as_slice());
        let pb = parent(b.as_slice());
        if same_chars(pa.as_slice(), pb.as_slice()) {
            PathOp::Rename
        } else {
            PathOp::Move
        }
    }

    /// How the event is written.
    pub open spec fn spelled(self) -> Seq<char> {
        match self {
            PathOp::Rename => "rename"@,
            PathOp::Move => "move"@,
            PathOp::Delete => "delete"@,
        }
    }

    /// Lower-case name, as recorded in path event rows.
    pub fn as_str(self) -> (r: &'static str)
        ensures
            r@ == self.spelled(),
    {
        match self {
            PathOp::Rename => "rename",
            PathOp::Move => "move",
            PathOp::Delete => "delete",
        }
    }

    pub fn parse(s: &str) -> (r: Option<PathOp>)
        ensures
            r == op_named(s@),
    {
        if same_text(s, "rename") {
            Some(PathOp::Rename)
        } else if same_text(s, "move") {
            Some(PathOp::Move)
        } else if same_text(s, "delete") {
            Some(PathOp::Delete)
        } else {
            None
        }
    }
}

/// The event a name is for.
pub open spec fn op_named(s: Seq<char>) -> Option<PathOp> {
    if s == "rename"@ {
        Some(PathOp::Rename)
    } else if s == "move"@ {
        Some(PathOp::Move)
    } else if s == "delete"@ {
        Some(PathOp::Delete)
    } else {
        None
    }
}

/// The name an event is written with names it.
pub proof fn law_op_round_trip(op: PathOp)
    ensures
        op_named(op.spelled()) == Some(op),
{
    reveal_strlit("rename");
    reveal_strlit("move");
    reveal_strlit("delete");
    assert("rename"@.len() == 6);
    assert("move"@.len() == 4);
    assert("delete"@.len() == 6);
    assert("rename"@[0] == 'r');
    assert("delete"@[0] == 'd');
}

/// The folder of a path.
pub(crate) fn parent(path: &[char]) -> (r: Vec<char>)
    ensures
        r@ == folder_of(path@),
{
    let p = trim_end_char(path, '/');
    let i = after_last(p, '/');
    if i <= 1 {
        chars_of("/")
    } else {
        let f = slice_subrange(path, 0, i - 1);
        assert(f@ =~= path@.take(i - 1));
        vstd::slice::slice_to_vec(f)
    }
}

/// The folders above a path, from the nearest up to the root. The root has none.
pub open spec fn folders_above(path: Seq<char>) -> Seq<Seq<char>>
    decreases path.len(),
{
    let i = past_last(path, '/');
    if path == "/"@ || i <= 0 || i > path.len() {
        Seq::empty()
    } else if i == 1 {
        seq!["/"@]
    } else {
        seq![path.take(i - 1)] + folders_above(path.take(i - 1))
    }
}

/// The folders above a path, from the nearest up to the root.
pub fn ancestors(path: &str) -> (out: Vec<String>)
    ensures
        texts(out@) == folders_above(path@),
{
    let root = chars_of("/");
    let mut out: Vec<String> = Vec::new();
    let mut p = chars_of(path);
    let ghost all = folders_above(path@);
    proof {
        assert(texts(out@) + folders_above(p@) =~= all);
    }
    loop
        invariant_except_break
            all == texts(out@) + folders_above(p@),
        invariant
            root@ == "/"@,
        ensures
            texts(out@) == all,
        decreases p@.len(),
    {
        proof {
            lemma_past_last(p@, '/');
        }
        let i = after_last(p.as_slice(), '/');
        if same_chars(p.as_slice(), root.as_slice()) || i == 0 {
            assert(texts(out@) + Seq::<Seq<char>>::empty() =~= texts(out@));
            break;
        }
        let ghost before = out@;
        if i == 1 {
            out.push(String::from_str("/"));
            assert(texts(out@) =~= texts(before) + seq!["/"@]);
            break;
        }
        let f = slice_subrange(p.as_slice(), 0, i - 1);
        assert(f@ =~= p@.take(i - 1));
        let s = string_of(f);
        out.push(s);
        proof {
            assert(texts(out@) =~= texts(before).push(f@));
            assert(texts(before) + (seq![f@] + folders_above(f@)) =~= texts(out@) + folders_above(f@));
        }
        p = vstd::slice::slice_to_vec(f);
    }
    out
}

/// The store setting that turns path history on or off.
pub const PATH_HISTORY_SETTING: &'static str = "path_history";

/// Path history is recorded unless a store or session turns it off.
pub const PATH_HISTORY_DEFAULT: bool = true;

/// What a switch is set to.
pub open spec fn switch(value: Seq<char>) -> Option<bool> {
    let v = ascii_lowered(trim_white(value));
    if v == "on"@ || v == "true"@ || v == "yes"@ || v == "1"@ {
        Some(true)
    } else if v == "off"@ || v == "false"@ || v == "no"@ || v == "0"@ {
        Some(false)
    } else {
        None
    }
}

/// An on/off setting value: `on`, `true`, `yes`, `1` and `off`, `false`, `no`, `0`, in any case.
pub fn parse_switch(value: &str) -> (r: Option<bool>)
    ensures
        r == switch(value@),
{
    let c = chars_of(value);
    let low = string_of(to_ascii_lowered(trim_both_white(c.as_slice())).as_slice());
    let v = low.as_str();
    if same_text(v, "on") || same_text(v, "true") || same_text(v, "yes") || same_text(v, "1") {
        Some(true)
    } else if same_text(v, "off") || same_text(v, "false") || same_text(v, "no") || same_text(v, "0") {
        Some(false)
    } else {
        None
    }
}

} // verus!
