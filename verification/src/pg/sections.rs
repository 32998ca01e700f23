//! Headings from heading paths.
//!
//! A heading path is a lossy join: a heading may itself contain `" / "`. The components are still
//! recoverable exactly: a section's parent comes before it in document order and its path is this
//! one's prefix, so the heading is what remains after the longest earlier path in the same file
//! that this one continues.

use vstd::prelude::*;
use vstd::slice::slice_subrange;
use vstd::string::*;
use crate::chars::{begins, begins_with};
use crate::text::{chars_of, string_of};

verus! {

/// Does a path continue another, with a heading behind it?
pub open spec fn continues(path: Seq<char>, above: Seq<char>) -> bool {
    begins(path, above + " / "@) && path.len() > above.len() + 3
}

/// The length of the longest of the first `n` paths that `path` continues.
pub open spec fn parent_len(path: Seq<char>, above: Seq<Seq<char>>, n: int) -> Option<int>
    decreases n,
{
    if n <= 0 {
        None
    } else {
        let before = parent_len(path, above, n - 1);
        let a = above[n - 1];
        if continues(path, a) && (before is None || before->0 <= a.len()) {
            Some(a.len() as int)
        } else {
            before
        }
    }
}

/// The last component of a path, given the paths of the sections before it in the same file.
pub open spec fn leaf_text(path: Seq<char>, above: Seq<Seq<char>>) -> Seq<char> {
    match parent_len(path, above, above.len() as int) {
        Some(n) => path.skip(n + 3),
        None => path,
    }
}

proof fn lemma_parent_len(path: Seq<char>, above: Seq<Seq<char>>, n: int)
    requires
        0 <= n <= above.len(),
    ensures
        parent_len(path, above, n) matches Some(k) ==> 0 <= k && k + 3 < path.len(),
    decreases n,
{
    if n > 0 {
        lemma_parent_len(path, above, n - 1);
    }
}

/// The last component of `path` given the paths of the sections before it in the same file.
///
/// The longest path before it that `path` continues is its parent, so whatever follows it is the
/// heading — separator characters inside the heading included.
fn leaf_of(path: &[char], rows: &Vec<(i64, String)>, from: usize, to: usize) -> (r: String)
    requires
        from <= to <= rows@.len(),
    ensures
        r@ == leaf_text(path@, heading_paths(rows@).subrange(from as int, to as int)),
{
    let ghost above = heading_paths(rows@).subrange(from as int, to as int);
    let sep: Vec<char> = chars_of(" / ");
    let mut best: Option<usize> = None;
    let mut i: usize = from;
    while i < to
        invariant
            from <= i <= to <= rows@.len(),
            above == heading_paths(rows@).subrange(from as int, to as int),
            sep@ == " / "@,
            match best {
                Some(k) => parent_len(path@, above, i - from) == Some(k as int),
                None => parent_len(path@, above, i - from) is None,
            },
        decreases to - i,
    {
        let mut a: Vec<char> = chars_of(rows[i].1.as_str());
        let n: usize = a.len();
        proof {
            assert(above[i - from] == rows@[i as int].1@);
            reveal_strlit(" / ");
        }
        crate::chars::push_chars(&mut a, sep.as_slice());
        if begins_with(path, a.as_slice()) && path.len() > a.len() {
            let longer: bool = match best {
                Some(k) => k <= n,
                None => true,
            };
            if longer {
                best = Some(n);
            }
        }
        i += 1;
    }
    proof {
        assert(above.len() == to - from);
        lemma_parent_len(path@, above, above.len() as int);
    }
    match best {
        Some(k) => {
            assert(k + 3 < path.len());
            let rest = slice_subrange(path, k + 3, path.len());
            proof {
                assert(rest@ =~= path@.skip(k + 3));
            }
            string_of(rest)
        },
        None => string_of(path),
    }
}

pub open spec fn heading_paths(rows: Seq<(i64, String)>) -> Seq<Seq<char>> {
    Seq::new(rows.len(), |i: int| rows[i].1@)
}

/// Where the run of rows of one file begins that row `i` is in.
pub open spec fn file_start(rows: Seq<(i64, String)>, i: int) -> int
    decreases i,
{
    if i <= 0 || rows[i - 1].0 != rows[i].0 {
        i
    } else {
        file_start(rows, i - 1)
    }
}

/// The heading of row `i`.
pub open spec fn heading_at(rows: Seq<(i64, String)>, i: int) -> Seq<char> {
    leaf_text(rows[i].1@, heading_paths(rows).subrange(file_start(rows, i), i))
}

/// The headings of some sections, from their file and heading path, file by file in document
/// order.
pub fn headings_of(rows: &Vec<(i64, String)>) -> (out: Vec<String>)
    ensures
        out@.len() == rows@.len(),
        forall|i: int| 0 <= i < out@.len() ==> (#[trigger] out@[i])@ == heading_at(rows@, i),
{
    let mut out: Vec<String> = Vec::new();
    let mut start: usize = 0;
    let mut i: usize = 0;
    while i < rows.len()
        invariant
            start <= i <= rows@.len(),
            i > 0 ==> start == file_start(rows@, i - 1),
            out@.len() == i,
            forall|k: int| 0 <= k < i ==> (#[trigger] out@[k])@ == heading_at(rows@, k),
        decreases rows@.len() - i,
    {
        if i == 0 || rows[i - 1].0 != rows[i].0 {
            start = i;
        }
        assert(start == file_start(rows@, i as int));
        let path: Vec<char> = chars_of(rows[i].1.as_str());
        let h = leaf_of(path.as_slice(), rows, start, i);
        out.push(h);
        i += 1;
    }
    out
}

/// The heading is the last component: behind the path of a section that the path continues, or
/// the whole path.
pub proof fn law_heading_ends_path(path: Seq<char>, above: Seq<Seq<char>>)
    ensures
        ({
            let h = leaf_text(path, above);
            h == path || exists|i: int|
                0 <= i < above.len() && continues(path, #[trigger] above[i]) && path == above[i] + " / "@ + h
        }),
{
    reveal_strlit(" / ");
    lemma_parent_from(path, above, above.len() as int);
    match parent_len(path, above, above.len() as int) {
        Some(n) => {
            let i = choose|i: int|
                0 <= i < above.len() && continues(path, #[trigger] above[i]) && above[i].len() == n;
            let p = above[i] + " / "@;
            assert(path =~= path.take(p.len() as int) + path.skip(p.len() as int));
        },
        None => {},
    }
}

proof fn lemma_parent_from(path: Seq<char>, above: Seq<Seq<char>>, n: int)
    requires
        0 <= n <= above.len(),
    ensures
        parent_len(path, above, n) matches Some(k) ==> exists|i: int|
            0 <= i < above.len() && continues(path, #[trigger] above[i]) && above[i].len() == k,
    decreases n,
{
    if n > 0 {
        lemma_parent_from(path, above, n - 1);
        if continues(path, above[n - 1]) {
            assert(above[n - 1].len() >= 0);
        }
    }
}

} // verus!
