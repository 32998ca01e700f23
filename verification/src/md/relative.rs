//! A path relative to a folder leads from the folder to the path.

use vstd::prelude::*;
use vstd::string::*;
use crate::chars::{begins, joined_with, split_at};
use crate::md::resolve::{joined_path, path_parts, relative_path, shared_parts, walked};
use crate::pg::store::{lacks, lemma_joined_first, lemma_split_first, lemma_split_joined, lemma_split_lacks};

verus! {

/// The parts of a path in normal form: none is empty, `.` or `..`, and none holds a slash.
pub open spec fn normal_parts(parts: Seq<Seq<char>>) -> bool {
    forall|i: int|
        0 <= i < parts.len() ==> (#[trigger] parts[i]).len() > 0 && parts[i] != "."@ && parts[i] != ".."@ && lacks(parts[i], '/')
}

/// The path with these parts, from the root.
pub open spec fn absolute(parts: Seq<Seq<char>>) -> Seq<char> {
    "/"@ + joined_with(parts, "/"@)
}

/// How many parts lead up.
pub open spec fn ups(parts: Seq<Seq<char>>) -> nat
    decreases parts.len(),
{
    if parts.len() == 0 {
        0
    } else {
        ups(parts.drop_last()) + if parts.last() == ".."@ {
            1nat
        } else {
            0
        }
    }
}

/// The first `n` parts lead up, and no others do.
pub open spec fn ups_in_front(parts: Seq<Seq<char>>, n: int) -> bool {
    forall|i: int| 0 <= i < parts.len() ==> (#[trigger] parts[i] == ".."@ <==> i < n)
}

proof fn lemma_parts_kept(parts: Seq<Seq<char>>)
    requires
        normal_parts(parts),
    ensures
        path_parts(parts) == parts,
    decreases parts.len(),
{
    if parts.len() > 0 {
        let front = parts.drop_last();
        assert forall|i: int| 0 <= i < front.len() implies (#[trigger] front[i]).len() > 0 && front[i] != "."@ && front[i]
            != ".."@ && lacks(front[i], '/') by {
            assert(front[i] == parts[i]);
        }
        lemma_parts_kept(front);
        assert(parts[parts.len() - 1] == parts.last());
        assert(front.push(parts.last()) =~= parts);
    }
}

proof fn lemma_parts_behind_empty(parts: Seq<Seq<char>>)
    ensures
        path_parts(seq![Seq::<char>::empty()] + parts) == path_parts(parts),
    decreases parts.len(),
{
    let none = Seq::<char>::empty();
    let all = seq![none] + parts;
    if parts.len() == 0 {
        reveal_with_fuel(path_parts, 2);
        assert(all.drop_last() =~= Seq::empty());
    } else {
        lemma_parts_behind_empty(parts.drop_last());
        assert(all.drop_last() =~= seq![none] + parts.drop_last());
        assert(all.last() == parts.last());
    }
}

/// The parts of an absolute path are read back from it.
proof fn lemma_absolute(parts: Seq<Seq<char>>)
    requires
        normal_parts(parts),
    ensures
        path_parts(split_at(absolute(parts), '/')) == parts,
{
    reveal_strlit("/");
    let none = Seq::<char>::empty();
    let body = joined_with(parts, "/"@);
    assert(absolute(parts) =~= none.push('/') + body);
    lemma_split_first(none, body, '/');
    lemma_parts_behind_empty(split_at(body, '/'));
    if parts.len() > 0 {
        assert forall|k: int| 0 <= k < parts.len() implies lacks(#[trigger] parts[k], '/') by {}
        lemma_split_joined(parts);
        lemma_parts_kept(parts);
    } else {
        assert(body =~= none);
        assert(split_at(none, '/') =~= seq![none]);
        reveal_with_fuel(path_parts, 2);
        assert(seq![none].drop_last() =~= Seq::empty());
        assert(parts =~= Seq::empty());
    }
}

proof fn lemma_shared(a: Seq<Seq<char>>, b: Seq<Seq<char>>, i: int)
    requires
        0 <= i <= a.len(),
        i <= b.len(),
        a.take(i) == b.take(i),
    ensures
        i <= shared_parts(a, b, i) <= a.len(),
        shared_parts(a, b, i) <= b.len(),
        a.take(shared_parts(a, b, i)) == b.take(shared_parts(a, b, i)),
        shared_parts(a, b, i) < a.len() && shared_parts(a, b, i) < b.len() ==> a[shared_parts(a, b, i)]
            != b[shared_parts(a, b, i)],
    decreases a.len() - i,
{
    if i < a.len() && i < b.len() && a[i] == b[i] {
        assert(a.take(i + 1) =~= a.take(i).push(a[i]));
        assert(b.take(i + 1) =~= b.take(i).push(b[i]));
        lemma_shared(a, b, i + 1);
    }
}

proof fn lemma_walk_up(a: Seq<Seq<char>>, n: int)
    requires
        0 <= n <= a.len(),
    ensures
        walked(a, Seq::new(n as nat, |i: int| ".."@)) == Some(a.take(a.len() - n)),
    decreases n,
{
    reveal_strlit(".");
    reveal_strlit("..");
    let up = Seq::new(n as nat, |i: int| ".."@);
    if n == 0 {
        assert(a.take(a.len() as int) =~= a);
    } else {
        lemma_walk_up(a, n - 1);
        assert(up.drop_last() =~= Seq::new((n - 1) as nat, |i: int| ".."@));
        assert(a.take(a.len() - n + 1).drop_last() =~= a.take(a.len() - n));
        assert("."@.len() == 1 && ".."@.len() == 2);
    }
}

pub(crate) proof fn lemma_walk_down(a: Seq<Seq<char>>, head: Seq<Seq<char>>, at: Seq<Seq<char>>, tail: Seq<Seq<char>>)
    requires
        walked(a, head) == Some(at),
        normal_parts(tail),
    ensures
        walked(a, head + tail) == Some(at + tail),
    decreases tail.len(),
{
    if tail.len() == 0 {
        assert(head + tail =~= head);
        assert(at + tail =~= at);
    } else {
        let front = tail.drop_last();
        assert forall|i: int| 0 <= i < front.len() implies (#[trigger] front[i]).len() > 0 && front[i] != "."@ && front[i]
            != ".."@ && lacks(front[i], '/') by {
            assert(front[i] == tail[i]);
        }
        lemma_walk_down(a, head, at, front);
        assert((head + tail).drop_last() =~= head + front);
        assert(tail[tail.len() - 1] == tail.last());
        assert((at + front).push(tail.last()) =~= at + tail);
    }
}

/// A walk keeps what it does not go up from.
proof fn lemma_walk_keeps(a: Seq<Seq<char>>, parts: Seq<Seq<char>>)
    ensures
        walked(a, parts) matches Some(b) ==> a.len() - ups(parts) <= b.len() && forall|i: int|
            0 <= i < a.len() - ups(parts) ==> #[trigger] b[i] == a[i],
    decreases parts.len(),
{
    reveal_strlit(".");
    reveal_strlit("..");
    if parts.len() > 0 {
        lemma_walk_keeps(a, parts.drop_last());
        assert("."@.len() == 1 && ".."@.len() == 2);
    }
}

proof fn lemma_walk_normal(a: Seq<Seq<char>>, parts: Seq<Seq<char>>)
    requires
        normal_parts(a),
        forall|i: int| 0 <= i < parts.len() ==> lacks(#[trigger] parts[i], '/'),
    ensures
        walked(a, parts) matches Some(b) ==> normal_parts(b),
    decreases parts.len(),
{
    if parts.len() > 0 {
        let front = parts.drop_last();
        assert forall|i: int| 0 <= i < front.len() implies lacks(#[trigger] front[i], '/') by {
            assert(front[i] == parts[i]);
        }
        lemma_walk_normal(a, front);
        assert(parts[parts.len() - 1] == parts.last());
    }
}

/// The relative path of a target, as parts: as many up as the folder has parts that the target
/// does not share, and the rest of the target down.
spec fn way(a: Seq<Seq<char>>, b: Seq<Seq<char>>) -> (int, Seq<Seq<char>>) {
    let same = shared_parts(a, b, 0);
    let common = if same < b.len() - 1 { same } else { b.len() - 1 };
    (a.len() - common, Seq::new((a.len() - common) as nat, |i: int| ".."@) + b.skip(common))
}

proof fn lemma_way(a: Seq<Seq<char>>, b: Seq<Seq<char>>)
    requires
        normal_parts(a),
        normal_parts(b),
        b.len() > 0,
    ensures
        relative_path(absolute(a), absolute(b)) == joined_with(way(a, b).1, "/"@),
        split_at(joined_with(way(a, b).1, "/"@), '/') == way(a, b).1,
        walked(a, way(a, b).1) == Some(b),
        ups_in_front(way(a, b).1, way(a, b).0),
        0 <= way(a, b).0 <= a.len(),
        way(a, b).1.len() > 0,
        way(a, b).1[0].len() > 0 && lacks(way(a, b).1[0], '/'),
{
    reveal_strlit("..");
    lemma_absolute(a);
    lemma_absolute(b);
    assert(a.take(0) =~= b.take(0));
    lemma_shared(a, b, 0);
    let (n, parts) = way(a, b);
    let common = a.len() - n;
    let up = Seq::new(n as nat, |i: int| ".."@);
    let down = b.skip(common);
    assert forall|i: int| 0 <= i < down.len() implies (#[trigger] down[i]).len() > 0 && down[i] != "."@ && down[i] != ".."@
        && lacks(down[i], '/') by {
        assert(down[i] == b[common + i]);
    }
    assert forall|k: int| 0 <= k < parts.len() implies lacks(#[trigger] parts[k], '/') && parts[k].len() > 0 && (parts[k]
        == ".."@ <==> k < n) by {
        if k < n {
            assert(parts[k] == ".."@);
        } else {
            assert(parts[k] == down[k - n]);
        }
    }
    lemma_split_joined(parts);
    lemma_walk_up(a, n);
    lemma_walk_down(a, up, a.take(common), down);
    let same = shared_parts(a, b, 0);
    assert(a.take(common) =~= a.take(same).take(common));
    assert(b.take(common) =~= b.take(same).take(common));
    assert(b.take(common) + down =~= b);
}

/// From a folder, the path of a target relative to it leads to the target. It is a relative path,
/// and goes up in its first parts only.
pub proof fn law_relative_leads_there(folder: Seq<Seq<char>>, target: Seq<Seq<char>>)
    requires
        normal_parts(folder),
        normal_parts(target),
        target.len() > 0,
    ensures
        ({
            let rel = relative_path(absolute(folder), absolute(target));
            &&& joined_path(absolute(folder), rel) == Some(absolute(target))
            &&& !begins(rel, "/"@)
            &&& exists|n: int| 0 <= n <= folder.len() && #[trigger] ups_in_front(split_at(rel, '/'), n)
        }),
{
    reveal_strlit("/");
    lemma_way(folder, target);
    lemma_absolute(folder);
    let (n, parts) = way(folder, target);
    let rel = joined_with(parts, "/"@);
    if parts.len() > 1 {
        lemma_joined_first(parts, "/"@);
    }
    assert(rel[0] == parts[0][0]);
    if begins(rel, "/"@) {
        assert(rel.take(1)[0] == "/"@[0]);
    }
    assert(ups_in_front(split_at(rel, '/'), n));
}

/// No relative path that leads from a folder to a target goes up less often, unless the target is
/// the folder or above it.
pub proof fn law_relative_goes_up_least(folder: Seq<Seq<char>>, target: Seq<Seq<char>>, rel: Seq<char>)
    requires
        normal_parts(folder),
        normal_parts(target),
        target.len() > 0,
        !(target.len() <= folder.len() && folder.take(target.len() as int) == target),
        !begins(rel, "/"@),
        joined_path(absolute(folder), rel) == Some(absolute(target)),
    ensures
        ups(split_at(relative_path(absolute(folder), absolute(target)), '/')) <= ups(split_at(rel, '/')),
{
    reveal_strlit("/");
    lemma_absolute(folder);
    lemma_split_lacks(rel, '/', '/');
    lemma_walk_normal(folder, split_at(rel, '/'));
    let end = walked(folder, split_at(rel, '/'))->0;
    lemma_absolute(end);
    lemma_absolute(target);
    assert(end == target);
    lemma_way(folder, target);
    lemma_walk_keeps(folder, split_at(rel, '/'));
    let (n, parts) = way(folder, target);
    lemma_count_ups(parts, n);
    assert(folder.take(0) =~= target.take(0));
    lemma_shared(folder, target, 0);
    let same = shared_parts(folder, target, 0);
    if same == target.len() {
        assert(target.take(same) =~= target);
    }
    let k = folder.len() - ups(split_at(rel, '/'));
    if same < k {
        assert(target[same] == folder[same]);
    }
}

proof fn lemma_count_ups(parts: Seq<Seq<char>>, n: int)
    requires
        ups_in_front(parts, n),
        0 <= n,
    ensures
        ups(parts) <= n,
        ups(parts) <= parts.len(),
    decreases parts.len(),
{
    if parts.len() > 0 {
        let front = parts.drop_last();
        assert forall|i: int| 0 <= i < front.len() implies (#[trigger] front[i] == ".."@ <==> i < n) by {
            assert(front[i] == parts[i]);
        }
        lemma_count_ups(front, n);
        assert(parts[parts.len() - 1] == parts.last());
    }
}

} // verus!
