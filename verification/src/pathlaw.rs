//! Folders of a path.

use vstd::prelude::*;
use vstd::string::*;
use crate::chars::{joined_with, lemma_past_last, past_last, trim_end};
use crate::md::relative::{absolute, normal_parts};
use crate::path::{folder_of, folders_above};
use crate::pg::store::lacks;

verus! {

/// The last slash of a path is the one before its last part.
proof fn lemma_last_slash(folder: Seq<char>, name: Seq<char>)
    requires
        lacks(name, '/'),
    ensures
        past_last(folder.push('/') + name, '/') == folder.len() + 1,
{
    let s = folder.push('/') + name;
    lemma_past_last(s, '/');
    let i = past_last(s, '/');
    let n = folder.len() as int;
    assert(s[n] == '/');
    if i > n + 1 {
        assert(s[i - 1] == name[i - 1 - n - 1]);
    }
}

/// The folder of a path is what stands before its last part: a move within one folder is a rename.
pub proof fn law_folder_of_child(folder: Seq<char>, name: Seq<char>)
    requires
        lacks(name, '/'),
        name.len() > 0,
    ensures
        folder_of(folder.push('/') + name) == if folder.len() == 0 {
            "/"@
        } else {
            folder
        },
{
    let s = folder.push('/') + name;
    assert(s.last() == name.last());
    assert(trim_end(s, '/') == s);
    lemma_last_slash(folder, name);
    assert(s.take(folder.len() as int) =~= folder);
}

/// The folders above a path are those of its first parts, one part fewer each, down to the root.
pub proof fn law_folders_above(parts: Seq<Seq<char>>)
    requires
        normal_parts(parts),
        parts.len() > 0,
    ensures
        folders_above(absolute(parts)).len() == parts.len(),
        forall|k: int|
            0 <= k < parts.len() ==> #[trigger] folders_above(absolute(parts))[k] == absolute(parts.take(parts.len() - 1 - k)),
    decreases parts.len(),
{
    reveal_strlit("/");
    let path = absolute(parts);
    let n = parts.len() as int;
    let front = parts.drop_last();
    let name = parts.last();
    assert(parts[n - 1] == name);
    let above = folders_above(path);
    assert(parts.take(n - 1) =~= front);
    if n == 1 {
        let none = Seq::<char>::empty();
        assert(path =~= none.push('/') + name);
        lemma_last_slash(none, name);
        assert(path.len() > 1);
        assert(absolute(front) =~= "/"@) by {
            assert(joined_with(front, "/"@) =~= none);
        }
        assert(above =~= seq!["/"@]);
    } else {
        let folder = absolute(front);
        assert(path =~= folder.push('/') + name);
        lemma_last_slash(folder, name);
        assert(path.take(folder.len() as int) =~= folder);
        assert(path.len() > 1);
        assert forall|i: int| 0 <= i < front.len() implies (#[trigger] front[i]).len() > 0 && front[i] != "."@ && front[i]
            != ".."@ && lacks(front[i], '/') by {
            assert(front[i] == parts[i]);
        }
        law_folders_above(front);
        let rest = folders_above(folder);
        assert(above == seq![folder] + rest);
        assert forall|k: int| 0 <= k < n implies #[trigger] above[k] == absolute(parts.take(n - 1 - k)) by {
            if k > 0 {
                assert(above[k] == rest[k - 1]);
                assert(front.take(front.len() - 1 - (k - 1)) =~= parts.take(n - 1 - k));
            }
        }
    }
}

} // verus!
