//! Which lines a section has, and which headings it stands under.

use vstd::prelude::*;
use vstd::string::*;
use crate::chars::{joined_with, lower_case, trim_white};
use crate::md::counts::headings_in_order;
use crate::md::extract::{
    above, by_heading, by_path, last_line, lineage, named_section, next_peer, section_of, title_texts, Title,
};
use crate::md::frontmatter::{closes_at, closing, frontmatter_of, newline_at};
use crate::md::resolve::last_heading;
use crate::structure::Part;

verus! {

proof fn lemma_peer(hs: Seq<Title>, level: u32, i: int)
    requires
        0 <= i <= hs.len(),
    ensures
        i <= next_peer(hs, level, i) <= hs.len(),
        forall|k: int| i <= k < next_peer(hs, level, i) ==> (#[trigger] hs[k]).level > level,
        next_peer(hs, level, i) < hs.len() ==> hs[next_peer(hs, level, i)].level <= level,
    decreases hs.len() - i,
{
    if i < hs.len() && hs[i].level > level {
        lemma_peer(hs, level, i + 1);
    }
}

/// A section begins at its heading. All headings in it are deeper than its own, and it ends just
/// before a heading that is not deeper, or with the document.
pub proof fn law_section_spans(doc: Seq<u8>, hs: Seq<Title>, i: int)
    requires
        headings_in_order(doc, hs),
        0 <= i < hs.len(),
    ensures
        ({
            let p = section_of(doc, hs, i);
            &&& p.from == hs[i].line
            &&& p.level == hs[i].level
            &&& p.heading == hs[i].text
            &&& p.from <= p.to <= last_line(doc)
            &&& forall|j: int| i < j < hs.len() && (#[trigger] hs[j]).line <= p.to ==> hs[j].level > hs[i].level
            &&& p.to == last_line(doc) || exists|j: int|
                i < j < hs.len() && (#[trigger] hs[j]).line == p.to + 1 && hs[j].level <= hs[i].level
        }),
{
    let p = section_of(doc, hs, i);
    lemma_peer(hs, hs[i].level, i + 1);
    let k = next_peer(hs, hs[i].level, i + 1);
    assert(hs[i].line <= last_line(doc));
    if k < hs.len() {
        assert(hs[i].line < hs[k].line);
        assert(hs[k].line <= last_line(doc));
        assert(hs[k].line == p.to + 1);
        assert forall|j: int| i < j < hs.len() && (#[trigger] hs[j]).line <= p.to implies hs[j].level > hs[i].level by {
            if j >= k {
                if j > k {
                    assert(hs[k].line < hs[j].line);
                }
            }
        }
    }
}

/// Heading `i` stands under heading `j`, or is it: all headings behind `j` up to it are deeper.
pub open spec fn under(hs: Seq<Title>, i: int, j: int) -> bool {
    0 <= j <= i && forall|k: int| j < k <= i ==> (#[trigger] hs[k]).level > hs[j].level
}

/// The headings at some places.
pub open spec fn titles_at(hs: Seq<Title>, at: Seq<int>) -> Seq<Title> {
    Seq::new(at.len(), |k: int| hs[at[k]])
}

/// Places in order that are exactly those of the headings that heading `i` stands under, and its own.
pub open spec fn ancestry(hs: Seq<Title>, i: int, at: Seq<int>) -> bool {
    &&& forall|x: int, y: int| 0 <= x < y < at.len() ==> (#[trigger] at[x]) < (#[trigger] at[y])
    &&& forall|x: int| 0 <= x < at.len() ==> under(hs, i, #[trigger] at[x])
    &&& forall|j: int| #[trigger] under(hs, i, j) ==> at.contains(j)
}

/// Taking headings off that are not above a level.
proof fn lemma_above(hs: Seq<Title>, at: Seq<int>, level: u32, n: int)
    requires
        0 <= n <= at.len(),
        forall|x: int, y: int|
            0 <= x < y < at.len() ==> hs[#[trigger] at[x]].level < hs[#[trigger] at[y]].level,
    ensures
        exists|m: int|
            0 <= m <= n && above(titles_at(hs, at).take(n), level) == #[trigger] titles_at(hs, at).take(m) && (forall|x: int|
                0 <= x < m ==> hs[#[trigger] at[x]].level < level) && (forall|x: int|
                m <= x < n ==> hs[#[trigger] at[x]].level >= level),
    decreases n,
{
    let all = titles_at(hs, at);
    let t = all.take(n);
    if n > 0 && t.last().level >= level {
        assert(t.drop_last() =~= all.take(n - 1));
        lemma_above(hs, at, level, n - 1);
        let m = choose|m: int|
            0 <= m <= n - 1 && above(all.take(n - 1), level) == #[trigger] all.take(m) && (forall|x: int|
                0 <= x < m ==> hs[#[trigger] at[x]].level < level) && (forall|x: int|
                m <= x < n - 1 ==> hs[#[trigger] at[x]].level >= level);
        assert(t.last() == hs[at[n - 1]]);
        assert(above(t, level) == all.take(m));
    } else {
        if n > 0 {
            assert(t.last() == hs[at[n - 1]]);
            assert forall|x: int| 0 <= x < n implies hs[#[trigger] at[x]].level < level by {
                if x < n - 1 {
                    assert(hs[at[x]].level < hs[at[n - 1]].level);
                }
            }
        }
        assert(above(t, level) == all.take(n));
    }
}

#[verifier::rlimit(60)]
proof fn lemma_lineage(hs: Seq<Title>, i: int) -> (at: Seq<int>)
    requires
        0 <= i < hs.len(),
    ensures
        ancestry(hs, i, at),
        lineage(hs, i) == titles_at(hs, at),
        at.len() > 0,
        at.last() == i,
    decreases i,
{
    let level = hs[i].level;
    let before = if i == 0 {
        Seq::<int>::empty()
    } else {
        lemma_lineage(hs, i - 1)
    };
    let all = titles_at(hs, before);
    assert(lineage(hs, i - 1) =~= all);
    assert forall|x: int, y: int| 0 <= x < y < before.len() implies hs[#[trigger] before[x]].level < hs[#[trigger] before[y]].level by {
        assert(under(hs, i - 1, before[x]));
        assert(under(hs, i - 1, before[y]));
        assert(before[x] < before[y] <= i - 1);
    }
    let n = before.len() as int;
    assert(all.take(n) =~= all);
    lemma_above(hs, before, level, n);
    let m = choose|m: int|
        0 <= m <= n && above(all.take(n), level) == #[trigger] all.take(m) && (forall|x: int|
            0 <= x < m ==> hs[#[trigger] before[x]].level < level) && (forall|x: int|
            m <= x < n ==> hs[#[trigger] before[x]].level >= level);
    let at = before.take(m).push(i);
    assert(lineage(hs, i) =~= titles_at(hs, at)) by {
        assert(all.take(m).push(hs[i]) =~= titles_at(hs, at));
    }
    assert forall|x: int| 0 <= x < at.len() implies under(hs, i, #[trigger] at[x]) by {
        if x < m {
            assert(at[x] == before[x]);
            assert(under(hs, i - 1, before[x]));
            assert(hs[before[x]].level < level);
        }
    }
    assert forall|x: int, y: int| 0 <= x < y < at.len() implies (#[trigger] at[x]) < (#[trigger] at[y]) by {
        assert(at[x] == before[x]);
        assert(under(hs, i - 1, before[x]));
        if y < m {
            assert(at[y] == before[y]);
        }
    }
    assert forall|j: int| #[trigger] under(hs, i, j) implies at.contains(j) by {
        if j == i {
            assert(at[m] == i);
        } else {
            assert(under(hs, i - 1, j));
            let x = choose|x: int| 0 <= x < before.len() && before[x] == j;
            assert(hs[i].level > hs[j].level);
            assert(x < m);
            assert(at[x] == j);
        }
    }
    at
}

/// The path of a section names, from the top, exactly the headings that its heading stands under,
/// and its own at the end.
pub proof fn law_section_path(doc: Seq<u8>, hs: Seq<Title>, i: int)
    requires
        0 <= i < hs.len(),
    ensures
        exists|at: Seq<int>|
            {
                &&& #[trigger] ancestry(hs, i, at)
                &&& at.len() > 0 && at.last() == i
                &&& section_of(doc, hs, i).path == joined_with(title_texts(titles_at(hs, at)), " / "@)
            },
{
    let at = lemma_lineage(hs, i);
    assert(ancestry(hs, i, at));
}

proof fn lemma_by_path(ss: Seq<Part>, path: Seq<char>, i: int)
    requires
        0 <= i,
    ensures
        by_path(ss, path, i) is None ==> forall|k: int| i <= k < ss.len() ==> (#[trigger] ss[k]).path != path,
        by_path(ss, path, i) matches Some(p) ==> exists|k: int|
            i <= k < ss.len() && #[trigger] ss[k] == p && p.path == path && forall|j: int|
                i <= j < k ==> (#[trigger] ss[j]).path != path,
    decreases ss.len() - i,
{
    if i < ss.len() && ss[i].path != path {
        lemma_by_path(ss, path, i + 1);
        if by_path(ss, path, i + 1) is Some {
            let p = by_path(ss, path, i + 1)->0;
            let k = choose|k: int|
                i + 1 <= k < ss.len() && #[trigger] ss[k] == p && p.path == path && forall|j: int|
                    i + 1 <= j < k ==> (#[trigger] ss[j]).path != path;
            assert(ss[k] == p);
        }
    } else if i < ss.len() {
        assert(ss[i] == by_path(ss, path, i)->0);
    }
}

proof fn lemma_by_heading(ss: Seq<Part>, low: Seq<char>, i: int)
    requires
        0 <= i,
    ensures
        by_heading(ss, low, i) is None ==> forall|k: int|
            i <= k < ss.len() ==> lower_case(last_heading((#[trigger] ss[k]).path)) != low,
        by_heading(ss, low, i) matches Some(p) ==> exists|k: int|
            i <= k < ss.len() && #[trigger] ss[k] == p && lower_case(last_heading(p.path)) == low && forall|j: int|
                i <= j < k ==> lower_case(last_heading((#[trigger] ss[j]).path)) != low,
    decreases ss.len() - i,
{
    if i < ss.len() && lower_case(last_heading(ss[i].path)) != low {
        lemma_by_heading(ss, low, i + 1);
        if by_heading(ss, low, i + 1) is Some {
            let p = by_heading(ss, low, i + 1)->0;
            let k = choose|k: int|
                i + 1 <= k < ss.len() && #[trigger] ss[k] == p && lower_case(last_heading(p.path)) == low && forall|j: int|
                    i + 1 <= j < k ==> lower_case(last_heading((#[trigger] ss[j]).path)) != low;
            assert(ss[k] == p);
        }
    } else if i < ss.len() {
        assert(ss[i] == by_heading(ss, low, i)->0);
    }
}

/// A section is found by its path; only if none has that path, by its own heading in any case. The
/// first such section is taken, and none is found exactly if there is none.
pub proof fn law_section_is_found(ss: Seq<Part>, heading: Seq<char>)
    ensures
        ({
            let h = trim_white(heading);
            if exists|k: int| 0 <= k < ss.len() && (#[trigger] ss[k]).path == h {
                named_section(ss, heading) matches Some(p) && exists|k: int|
                    0 <= k < ss.len() && #[trigger] ss[k] == p && p.path == h && forall|j: int|
                        0 <= j < k ==> (#[trigger] ss[j]).path != h
            } else if exists|k: int| 0 <= k < ss.len() && lower_case(last_heading((#[trigger] ss[k]).path)) == lower_case(h) {
                named_section(ss, heading) matches Some(p) && exists|k: int|
                    0 <= k < ss.len() && #[trigger] ss[k] == p && lower_case(last_heading(p.path)) == lower_case(h) && forall|
                        j: int,
                    | 0 <= j < k ==> lower_case(last_heading((#[trigger] ss[j]).path)) != lower_case(h)
            } else {
                named_section(ss, heading) is None
            }
        }),
{
    let h = trim_white(heading);
    lemma_by_path(ss, h, 0);
    lemma_by_heading(ss, lower_case(h), 0);
}

proof fn lemma_newline(s: Seq<u8>, i: int)
    requires
        0 <= i <= s.len(),
    ensures
        i <= newline_at(s, i) <= s.len(),
        newline_at(s, i) < s.len() ==> s[newline_at(s, i)] == 10,
        forall|k: int| i <= k < newline_at(s, i) ==> s[k] != 10,
    decreases s.len() - i,
{
    if i < s.len() && s[i] != 10 {
        lemma_newline(s, i + 1);
    }
}

/// Does a line that begins at `p` begin with three dashes or three dots?
pub open spec fn like_fence(s: Seq<u8>, p: int) -> bool {
    p + 3 <= s.len() && (s[p] == 45 && s[p + 1] == 45 && s[p + 2] == 45 || s[p] == 46 && s[p + 1] == 46 && s[p + 2] == 46)
}

/// The block of front matter is passed over line by line.
proof fn lemma_block_lines(s: Seq<u8>, yaml: Seq<u8>, c: u8, p: int)
    requires
        c == 45 || c == 46,
        4 + yaml.len() + 4 <= s.len(),
        s.subrange(4, 4 + yaml.len() as int) == yaml,
        s.subrange(4 + yaml.len() as int, 4 + yaml.len() as int + 4) == seq![c, c, c, 10u8],
        yaml.len() == 0 || yaml.last() == 10,
        0 <= p <= yaml.len(),
        p == 0 || yaml[p - 1] == 10,
        forall|k: int| 0 <= k < yaml.len() && (k == 0 || yaml[k - 1] == 10) ==> !#[trigger] like_fence(yaml, k),
    ensures
        closes_at(s, 4 + p) == Some((4 + yaml.len() as int, 4 + yaml.len() as int + 4)),
    decreases yaml.len() - p,
{
    let n = yaml.len() as int;
    let i = 4 + p;
    let fence = s.subrange(4 + n, 4 + n + 4);
    assert(fence[0] == s[4 + n] && fence[1] == s[4 + n + 1] && fence[2] == s[4 + n + 2] && fence[3] == s[4 + n + 3]);
    assert(forall|k: int| 0 <= k < n ==> #[trigger] yaml[k] == s[4 + k]) by {
        assert(forall|k: int| 0 <= k < n ==> #[trigger] s.subrange(4, 4 + n)[k] == s[4 + k]);
    }
    lemma_newline(s, i);
    let e = newline_at(s, i);
    if p == n {
        assert(e == i + 3);
        assert(closing(s, i, e));
    } else {
        assert(yaml[n - 1] == s[4 + (n - 1)]);
        assert(e <= 4 + n - 1);
        assert(!like_fence(yaml, p));
        if closing(s, i, e) {
            let end = if e > i && s[e - 1] == 13 {
                e - 1
            } else {
                e
            };
            assert(end - i == 3);
            assert(yaml[p] == s[4 + p] && yaml[p + 1] == s[4 + (p + 1)] && yaml[p + 2] == s[4 + (p + 2)]);
            assert(like_fence(yaml, p));
        }
        assert(yaml[e - 4] == s[4 + (e - 4)]);
        lemma_block_lines(s, yaml, c, e - 4 + 1);
    }
}

/// Front matter between a line of three dashes at the start of a document and one of three dashes or
/// dots is split off whole, and the body begins behind the second line, if no line of the front matter
/// looks like one.
pub proof fn law_front_matter_is_split_off(yaml: Seq<u8>, body: Seq<u8>, c: u8)
    requires
        c == 45 || c == 46,
        yaml.len() == 0 || yaml.last() == 10,
        forall|k: int| 0 <= k < yaml.len() && (k == 0 || yaml[k - 1] == 10) ==> !#[trigger] like_fence(yaml, k),
    ensures
        ({
            let doc = seq![45u8, 45, 45, 10] + yaml + seq![c, c, c, 10u8] + body;
            &&& frontmatter_of(doc) == Some((yaml, yaml.len() as int + 8))
            &&& doc.skip(yaml.len() as int + 8) == body
        }),
{
    let doc = seq![45u8, 45, 45, 10] + yaml + seq![c, c, c, 10u8] + body;
    let n = yaml.len() as int;
    lemma_newline(doc, 0);
    assert(doc[0] == 45 && doc[1] == 45 && doc[2] == 45 && doc[3] == 10);
    assert(newline_at(doc, 0) == 3);
    assert(doc.subrange(4, 4 + n) =~= yaml);
    assert(doc.subrange(4 + n, 4 + n + 4) =~= seq![c, c, c, 10u8]);
    lemma_block_lines(doc, yaml, c, 0);
    assert(doc.skip(n + 8) =~= body);
}

/// A document that does not begin with a line of three dashes has no front matter.
pub proof fn law_no_front_matter(doc: Seq<u8>)
    requires
        !(doc.len() >= 3 && doc[0] == 45 && doc[1] == 45 && doc[2] == 45),
    ensures
        frontmatter_of(doc) is None,
{
}

} // verus!
