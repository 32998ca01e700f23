//! Replacing line ranges: all numbered as in one version, checked, and turned into edits.

use vstd::prelude::*;
use vstd::string::*;
use crate::edit::Edit;
use crate::error::TextdbError;
use crate::model::{doc, sound};
use crate::patch::{edit_views, EditView};
use crate::pg::bulk::{get_member, member, refused};
use crate::storage::{Result, Storage};
use crate::text::{dec, decimal};
use crate::chunker::{lemma_newlines_bound, newlines};
use crate::tree::{clip, locate_line, materialize_range, starts_line, totals};
use crate::value::Value;

verus! {

/// Lines `from` to `to` (1-based, inclusive) and the text to put in their place. `to = from - 1`
/// inserts in front of `from`; `from` one past the last line appends.
#[derive(Debug, PartialEq, Eq)]
pub struct LineRange {
    pub from: u64,
    pub to: u64,
    pub text: Vec<u8>,
}

/// A line range as a mathematical value.
#[verifier::ext_equal]
pub struct Lines {
    pub from: int,
    pub to: int,
    pub text: Seq<u8>,
}

impl View for LineRange {
    type V = Lines;

    open spec fn view(&self) -> Lines {
        Lines { from: self.from as int, to: self.to as int, text: self.text@ }
    }
}

pub open spec fn line_ranges(v: Seq<LineRange>) -> Seq<Lines> {
    Seq::new(v.len(), |i: int| v[i]@)
}

/// A whole number, none below zero.
pub open spec fn number_in(v: Option<Value>) -> Option<int> {
    match v {
        Some(Value::Int(n)) => Some(
            if n < 0 {
                0
            } else {
                n as int
            },
        ),
        _ => None,
    }
}

/// What one item `{"from": n, "to": n, "text": "…"}` asks for.
pub open spec fn range_asked(v: Value) -> Option<Lines> {
    match v {
        Value::Object(o) => match (
            number_in(member(o@, "from"@)),
            number_in(member(o@, "to"@)),
            crate::pg::bulk::text_in(member(o@, "text"@)),
        ) {
            (Some(from), Some(to), Some(text)) => Some(Lines { from, to, text: vstd::utf8::encode_utf8(text) }),
            _ => None,
        },
        _ => None,
    }
}

fn as_number(v: Option<&Value>) -> (r: Option<u64>)
    ensures
        ({
            let o = match v {
                Some(x) => Some(*x),
                None => None,
            };
            match r {
                Some(n) => number_in(o) == Some(n as int),
                None => number_in(o) is None,
            }
        }),
{
    match v {
        Some(Value::Int(n)) => Some(if *n < 0 { 0 } else { *n as u64 }),
        _ => None,
    }
}

fn parse_range(v: &Value) -> (r: Option<LineRange>)
    ensures
        match r {
            Some(x) => range_asked(*v) == Some(x@),
            None => range_asked(*v) is None,
        },
{
    match v {
        Value::Object(o) => match (
            as_number(get_member(o, "from")),
            as_number(get_member(o, "to")),
            get_member(o, "text"),
        ) {
            (Some(from), Some(to), Some(Value::Text(s))) => Some(
                LineRange { from, to, text: s.as_str().as_bytes_vec() },
            ),
            _ => None,
        },
        _ => None,
    }
}

/// The sentence that says what ranges look like.
pub open spec fn ranges_usage() -> Seq<char> {
    "ranges must be a JSON array of {\"from\": n, \"to\": n, \"text\": \"\u{2026}\"}"@
}

/// `[{"from": n, "to": n, "text": "…"}, …]`.
pub fn parse_ranges(v: &Value) -> (r: Result<Vec<LineRange>>)
    ensures
        match r {
            Ok(rs) => {
                &&& v matches Value::List(items) && rs@.len() == items@.len() && forall|i: int|
                    0 <= i < items@.len() ==> range_asked(#[trigger] items@[i]) == Some(rs@[i]@)
            },
            Err(_) => {
                &&& refused(r, ranges_usage())
                &&& v matches Value::List(items) ==> exists|i: int|
                    0 <= i < items@.len() && range_asked(#[trigger] items@[i]) is None
            },
        },
{
    let usage: &str = "ranges must be a JSON array of {\"from\": n, \"to\": n, \"text\": \"\u{2026}\"}";
    match v {
        Value::List(items) => {
            let mut out: Vec<LineRange> = Vec::new();
            let mut i: usize = 0;
            while i < items.len()
                invariant
                    i <= items@.len(),
                    out@.len() == i,
                    usage@ == ranges_usage(),
                    *v == Value::List(*items),
                    forall|k: int| 0 <= k < i ==> range_asked(#[trigger] items@[k]) == Some(out@[k]@),
                decreases items@.len() - i,
            {
                match parse_range(&items[i]) {
                    Some(x) => {
                        out.push(x);
                    },
                    None => {
                        return Err(TextdbError::InvalidEdit(String::from_str(usage)));
                    },
                }
                i += 1;
            }
            Ok(out)
        },
        _ => Err(TextdbError::InvalidEdit(String::from_str(usage))),
    }
}

/// The place behind all ranges that begin no later than line `from`.
pub open spec fn place_for(rs: Seq<Lines>, from: int) -> int
    decreases rs.len(),
{
    if rs.len() == 0 || rs.last().from <= from {
        rs.len() as int
    } else {
        place_for(rs.drop_last(), from)
    }
}

/// The first `n` ranges by the line they begin at; those that begin at one line stay in order.
pub open spec fn by_line(rs: Seq<Lines>, n: int) -> Seq<Lines>
    decreases n,
{
    if n <= 0 {
        Seq::empty()
    } else {
        let before = by_line(rs, n - 1);
        before.insert(place_for(before, rs[n - 1].from), rs[n - 1])
    }
}

proof fn lemma_place_for(rs: Seq<Lines>, from: int)
    ensures
        0 <= place_for(rs, from) <= rs.len(),
    decreases rs.len(),
{
    if rs.len() > 0 && rs.last().from > from {
        lemma_place_for(rs.drop_last(), from);
    }
}

/// The ranges by the line they begin at, as places in the list.
fn sort_ranges(ranges: &Vec<LineRange>) -> (out: Vec<usize>)
    ensures
        out@.len() == ranges@.len(),
        forall|i: int| 0 <= i < out@.len() ==> (#[trigger] out@[i]) < ranges@.len(),
        picked(ranges@, out@) == by_line(line_ranges(ranges@), ranges@.len() as int),
{
    let ghost rs = line_ranges(ranges@);
    let mut out: Vec<usize> = Vec::new();
    let mut n: usize = 0;
    proof {
        assert(picked(ranges@, out@) =~= by_line(rs, 0));
    }
    while n < ranges.len()
        invariant
            n <= ranges@.len(),
            out@.len() == n,
            rs == line_ranges(ranges@),
            forall|i: int| 0 <= i < out@.len() ==> (#[trigger] out@[i]) < ranges@.len(),
            picked(ranges@, out@) == by_line(rs, n as int),
        decreases ranges@.len() - n,
    {
        let from: u64 = ranges[n].from;
        let ghost sorted = picked(ranges@, out@);
        let mut i: usize = out.len();
        proof {
            assert(sorted.take(i as int) =~= sorted);
            lemma_place_for(sorted, from as int);
        }
        while i > 0 && ranges[out[i - 1]].from > from
            invariant
                i <= out@.len(),
                sorted == picked(ranges@, out@),
                forall|i: int| 0 <= i < out@.len() ==> (#[trigger] out@[i]) < ranges@.len(),
                place_for(sorted, from as int) == place_for(sorted.take(i as int), from as int),
            decreases i,
        {
            proof {
                assert(sorted.take(i as int).last() == ranges@[out@[i - 1] as int]@);
                assert(sorted.take(i as int).drop_last() =~= sorted.take(i - 1));
            }
            i -= 1;
        }
        proof {
            if i > 0 {
                assert(sorted.take(i as int).last() == ranges@[out@[i - 1] as int]@);
            }
            assert(place_for(sorted, from as int) == i);
        }
        let ghost out0 = out@;
        out.insert(i, n);
        proof {
            assert(out@ =~= out0.insert(i as int, n));
            assert(picked(ranges@, out@) =~= sorted.insert(i as int, rs[n as int]));
            assert forall|k: int| 0 <= k < out@.len() implies (#[trigger] out@[k]) < ranges@.len() by {
                if k < i {
                    assert(out@[k] == out0[k]);
                } else if k > i {
                    assert(out@[k] == out0[k - 1]);
                }
            }
        }
        n += 1;
    }
    out
}

pub open spec fn picked(v: Seq<LineRange>, at: Seq<usize>) -> Seq<Lines> {
    Seq::new(at.len(), |i: int| v[at[i] as int]@)
}

/// Is a range one that no document has?
pub open spec fn bad_range(r: Lines) -> bool {
    r.from == 0 || r.to + 1 < r.from
}

/// Do two ranges that follow each other overlap, or begin at one line?
pub open spec fn overlap(a: Lines, b: Lines) -> bool {
    b.from <= a.to || b.from == a.from
}

/// How lines are written in a sentence.
pub open spec fn span_text(r: Lines) -> Seq<char> {
    dec(r.from as nat) + "-"@ + dec(r.to as nat)
}

/// The first bad range.
pub open spec fn first_bad(rs: Seq<Lines>, i: int) -> bool {
    &&& 0 <= i < rs.len()
    &&& bad_range(rs[i])
    &&& forall|k: int| 0 <= k < i ==> !bad_range(#[trigger] rs[k])
}

/// The first pair that overlaps.
pub open spec fn first_overlap(rs: Seq<Lines>, i: int) -> bool {
    &&& 0 <= i < rs.len() - 1
    &&& overlap(rs[i], rs[i + 1])
    &&& forall|k: int| 0 <= k < i ==> !overlap(#[trigger] rs[k], rs[k + 1])
}

/// Ranges that can be replaced at once.
pub open spec fn apart(rs: Seq<Lines>) -> bool {
    &&& rs.len() > 0
    &&& forall|k: int| 0 <= k < rs.len() ==> !bad_range(#[trigger] rs[k])
    &&& forall|k: int| 0 <= k < rs.len() - 1 ==> !overlap(#[trigger] rs[k], rs[k + 1])
}

/// What is said of ranges that cannot be replaced at once.
pub open spec fn apart_fault<T>(rs: Seq<Lines>, r: Result<T>) -> bool {
    if rs.len() == 0 {
        refused(r, "no line ranges"@)
    } else if exists|i: int| first_bad(rs, i) {
        exists|i: int| #[trigger] first_bad(rs, i) && refused(r, "invalid line range "@ + span_text(rs[i]))
    } else {
        exists|i: int| #[trigger]
            first_overlap(rs, i) && refused(
                r,
                "line ranges "@ + span_text(rs[i]) + " and "@ + span_text(rs[i + 1]) + " overlap"@,
            )
    }
}

fn push_span(m: &mut String, r: &LineRange)
    ensures
        final(m)@ == old(m)@ + span_text(r@),
{
    m.append(decimal(r.from).as_str());
    m.append("-");
    m.append(decimal(r.to).as_str());
    proof {
        assert(m@ =~= old(m)@ + span_text(r@));
    }
}

fn check_ranges(ranges: &Vec<LineRange>, order: &Vec<usize>) -> (r: Result<()>)
    requires
        forall|i: int| 0 <= i < order@.len() ==> (#[trigger] order@[i]) < ranges@.len(),
    ensures
        r is Ok <==> apart(picked(ranges@, order@)),
        r is Err ==> apart_fault(picked(ranges@, order@), r),
{
    let ghost rs = picked(ranges@, order@);
    if order.len() == 0 {
        return Err(TextdbError::InvalidEdit(String::from_str("no line ranges")));
    }
    let mut i: usize = 0;
    while i < order.len()
        invariant
            i <= order@.len(),
            rs == picked(ranges@, order@),
            rs.len() > 0,
            forall|i: int| 0 <= i < order@.len() ==> (#[trigger] order@[i]) < ranges@.len(),
            forall|k: int| 0 <= k < i ==> !bad_range(#[trigger] rs[k]),
        decreases order@.len() - i,
    {
        let r = &ranges[order[i]];
        proof {
            assert(rs[i as int] == r@);
        }
        if r.from == 0 || r.to < r.from - 1 {
            let mut m = String::from_str("invalid line range ");
            push_span(&mut m, r);
            let e: Result<()> = Err(TextdbError::InvalidEdit(m));
            proof {
                assert(first_bad(rs, i as int));
                assert(refused(e, "invalid line range "@ + span_text(rs[i as int])));
            }
            return e;
        }
        i += 1;
    }
    proof {
        assert forall|k: int| !first_bad(rs, k) by {
            if first_bad(rs, k) {
                assert(!bad_range(rs[k]));
            }
        }
    }
    let mut i: usize = 1;
    while i < order.len()
        invariant
            1 <= i <= order@.len(),
            rs == picked(ranges@, order@),
            forall|i: int| 0 <= i < order@.len() ==> (#[trigger] order@[i]) < ranges@.len(),
            forall|k: int| 0 <= k < rs.len() ==> !bad_range(#[trigger] rs[k]),
            forall|k: int| !first_bad(rs, k),
            forall|k: int| 0 <= k < i - 1 ==> !overlap(#[trigger] rs[k], rs[k + 1]),
        decreases order@.len() - i,
    {
        let a = &ranges[order[i - 1]];
        let b = &ranges[order[i]];
        proof {
            assert(rs[i - 1] == a@);
            assert(rs[i as int] == b@);
        }
        if b.from <= a.to || b.from == a.from {
            let mut m = String::from_str("line ranges ");
            push_span(&mut m, a);
            m.append(" and ");
            push_span(&mut m, b);
            m.append(" overlap");
            let e: Result<()> = Err(TextdbError::InvalidEdit(m));
            proof {
                let j = i - 1;
                assert(overlap(rs[j], rs[j + 1]));
                assert(first_overlap(rs, j));
                assert(refused(e, "line ranges "@ + span_text(rs[j]) + " and "@ + span_text(rs[j + 1]) + " overlap"@));
            }
            return e;
        }
        i += 1;
    }
    Ok(())
}

/// Can line ranges be replaced at once? They may come in any order but must not overlap or start at
/// the same line.
pub fn check_line_ranges(ranges: &Vec<LineRange>) -> (r: Result<()>)
    ensures
        r is Ok <==> apart(by_line(line_ranges(ranges@), ranges@.len() as int)),
        r is Err ==> apart_fault(by_line(line_ranges(ranges@), ranges@.len() as int), r),
{
    let order: Vec<usize> = sort_ranges(ranges);
    check_ranges(ranges, &order)
}

/// How many lines a text has; the last may lack its newline.
pub open spec fn line_total(t: Seq<u8>) -> int {
    newlines(t) as int + if t.len() > 0 && t.last() != 10 {
        1int
    } else {
        0int
    }
}

/// Does a range lie outside a text?
pub open spec fn outside(t: Seq<u8>, r: Lines) -> bool {
    r.from - 1 > line_total(t) || r.to > line_total(t)
}

/// Where a line begins; behind the last line, nowhere.
pub open spec fn begins_at(t: Seq<u8>, line: int, o: Option<int>) -> bool {
    match o {
        Some(x) => starts_line(t, line, x),
        None => newlines(t) < line,
    }
}

/// The edit replaces the lines of a range. Appending after a last line with no newline supplies
/// one, or the new text would run on from that line instead of following it.
pub open spec fn replaces(t: Seq<u8>, r: Lines, e: EditView) -> bool {
    exists|a: Option<int>, b: Option<int>|
        #![trigger begins_at(t, r.from - 1, a), begins_at(t, r.to, b)]
        begins_at(t, r.from - 1, a) && begins_at(t, r.to, b) && e == replacing(t, r, a, b)
}

/// The edit for a range whose first line begins at `a`, and the line behind it at `b`.
pub open spec fn replacing(t: Seq<u8>, r: Lines, a: Option<int>, b: Option<int>) -> EditView {
    let from = match a {
        Some(o) => o,
        None => t.len() as int,
    };
    EditView {
        from,
        to: if r.to < r.from {
            from
        } else {
            match b {
                Some(o) => o,
                None => t.len() as int,
            }
        },
        text: if a is None {
            seq![10u8] + r.text
        } else {
            r.text
        },
    }
}

/// The sentence that says a range is outside a document.
pub open spec fn outside_text(t: Seq<u8>, r: Lines, path: Seq<char>, version: nat) -> Seq<char> {
    "lines "@ + span_text(r) + " are outside "@ + path + ", which has "@ + dec(line_total(t) as nat) + " lines at version "@
        + dec(version)
}

/// The first range outside a text.
pub open spec fn first_outside(t: Seq<u8>, rs: Seq<Lines>, i: int) -> bool {
    &&& 0 <= i < rs.len()
    &&& outside(t, rs[i])
    &&& forall|k: int| 0 <= k < i ==> !outside(t, #[trigger] rs[k])
}

/// What turns ranges into edits, on a text.
pub open spec fn range_result(t: Seq<u8>, rs: Seq<Lines>, path: Seq<char>, version: nat, r: Result<Vec<Edit>>) -> bool {
    match r {
        Ok(es) => {
            &&& es@.len() == rs.len()
            &&& forall|i: int| 0 <= i < rs.len() ==> !outside(t, #[trigger] rs[i])
            &&& forall|i: int| 0 <= i < rs.len() ==> replaces(t, #[trigger] rs[i], edit_views(es@)[i])
        },
        Err(_) => exists|i: int| #[trigger] first_outside(t, rs, i) && refused(r, outside_text(t, rs[i], path, version)),
    }
}

/// Where a line begins.
fn line_begin<S: Storage + ?Sized>(storage: &S, root: &crate::hash::Hash, line: u64) -> (r: Result<Option<u64>>)
    requires
        sound(storage.store()),
        storage.store().nodes.contains_key(root@),
    ensures
        storage.local() ==> r is Ok,
        r matches Ok(o) ==> begins_at(
            doc(storage.store(), root@),
            line as int,
            match o {
                Some(x) => Some(x as int),
                None => None,
            },
        ),
        r matches Ok(Some(o)) ==> o <= doc(storage.store(), root@).len(),
{
    let ghost t = doc(storage.store(), root@);
    proof {
        assert(t.take(0) =~= Seq::<u8>::empty());
    }
    locate_line(storage, root, line)
}

/// The edits that replace line ranges of a document, all numbered as in one version of it. They may
/// come in any order but must not overlap or start at the same line.
pub fn range_edits<S: Storage + ?Sized>(
    storage: &S,
    root: &crate::hash::Hash,
    path: &str,
    version: u64,
    ranges: &Vec<LineRange>,
) -> (r: Result<Vec<Edit>>)
    requires
        sound(storage.store()),
    ensures
        ({
            let rs = by_line(line_ranges(ranges@), ranges@.len() as int);
            let st = storage.store();
            &&& !apart(rs) ==> r is Err && apart_fault(rs, r)
            &&& apart(rs) && r is Ok ==> st.nodes.contains_key(root@)
            &&& apart(rs) && (r is Ok || storage.local() && st.nodes.contains_key(root@)) ==> range_result(
                doc(st, root@),
                rs,
                path@,
                version as nat,
                r,
            )
            &&& apart(rs) && storage.local() && !st.nodes.contains_key(root@) ==> crate::storage::missing_node(r, root@)
        }),
{
    let order: Vec<usize> = sort_ranges(ranges);
    let ghost rs = by_line(line_ranges(ranges@), ranges@.len() as int);
    match check_ranges(ranges, &order) {
        Ok(_) => {},
        Err(e) => {
            let r: Result<Vec<Edit>> = Err(e);
            proof {
                lemma_fault_kept(rs, Err::<(), TextdbError>(e), r);
            }
            return r;
        },
    }
    let (len, newline_count): (u64, u64) = match totals(storage, root) {
        Ok(p) => p,
        Err(e) => {
            return Err(e);
        },
    };
    let ghost t = doc(storage.store(), root@);
    proof {
        lemma_newlines_bound(t);
    }
    let mut unterminated: bool = false;
    if len > 0 {
        match materialize_range(storage, root, len - 1, len) {
            Ok(b) => {
                unterminated = !(b.len() == 1 && b[0] == 10);
                proof {
                    assert(clip(t, len - 1, len as int) =~= seq![t.last()]);
                }
            },
            Err(e) => {
                return Err(e);
            },
        }
    }
    let mut nlines: u64 = newline_count;
    if unterminated {
        proof {
            lemma_newlines_short(t);
        }
        nlines = nlines + 1;
    }
    let mut edits: Vec<Edit> = Vec::new();
    let mut i: usize = 0;
    while i < order.len()
        invariant
            i <= order@.len(),
            sound(storage.store()),
            storage.store().nodes.contains_key(root@),
            t == doc(storage.store(), root@),
            len == t.len(),
            nlines == line_total(t),
            rs == picked(ranges@, order@),
            rs == by_line(line_ranges(ranges@), ranges@.len() as int),
            apart(rs),
            forall|i: int| 0 <= i < order@.len() ==> (#[trigger] order@[i]) < ranges@.len(),
            edits@.len() == i,
            forall|k: int| 0 <= k < i ==> !outside(t, #[trigger] rs[k]),
            forall|k: int| 0 <= k < i ==> replaces(t, #[trigger] rs[k], edit_views(edits@)[k]),
        decreases order@.len() - i,
    {
        let r = &ranges[order[i]];
        let ghost l = rs[i as int];
        proof {
            assert(l == r@);
            assert(!bad_range(l));
        }
        if r.from - 1 > nlines || r.to > nlines {
            let mut m = String::from_str("lines ");
            push_span(&mut m, r);
            m.append(" are outside ");
            m.append(path);
            m.append(", which has ");
            m.append(decimal(nlines).as_str());
            m.append(" lines at version ");
            m.append(decimal(version).as_str());
            let e: Result<Vec<Edit>> = Err(TextdbError::InvalidEdit(m));
            proof {
                assert(first_outside(t, rs, i as int));
                assert(refused(e, outside_text(t, rs[i as int], path@, version as nat)));
            }
            return e;
        }
        let first: Option<u64> = match line_begin(storage, root, r.from - 1) {
            Ok(o) => o,
            Err(e) => {
                return Err(e);
            },
        };
        let behind: Option<u64> = match line_begin(storage, root, r.to) {
            Ok(o) => o,
            Err(e) => {
                return Err(e);
            },
        };
        let ghost a = match first {
            Some(x) => Some(x as int),
            None => None,
        };
        let ghost b = match behind {
            Some(x) => Some(x as int),
            None => None,
        };
        let mut text: Vec<u8> = Vec::new();
        let start: u64 = match first {
            Some(o) => o,
            None => {
                text.push(10);
                len
            },
        };
        text.extend_from_slice(r.text.as_slice());
        let end: u64 = if r.to < r.from {
            start
        } else {
            match behind {
                Some(o) => o,
                None => len,
            }
        };
        let ghost e0 = edits@;
        edits.push(Edit::new(start, end, text));
        proof {
            let v = replacing(t, l, a, b);
            assert(text@ =~= v.text);
            assert(edit_views(edits@)[i as int] == v);
            assert(begins_at(t, l.from - 1, a) && begins_at(t, l.to, b));
            assert(replaces(t, l, v));
            assert forall|k: int| 0 <= k < i + 1 implies replaces(t, #[trigger] rs[k], edit_views(edits@)[k]) by {
                if k < i {
                    assert(edit_views(edits@)[k] == edit_views(e0)[k]);
                }
            }
        }
        i += 1;
    }
    Ok(edits)
}

proof fn lemma_fault_kept(rs: Seq<Lines>, a: Result<()>, b: Result<Vec<Edit>>)
    requires
        apart_fault(rs, a),
        a is Err,
        b is Err,
        a->Err_0 == b->Err_0,
    ensures
        apart_fault(rs, b),
{
    if rs.len() == 0 {
    } else if exists|i: int| first_bad(rs, i) {
        let i = choose|i: int| #[trigger] first_bad(rs, i) && refused(a, "invalid line range "@ + span_text(rs[i]));
        assert(first_bad(rs, i) && refused(b, "invalid line range "@ + span_text(rs[i])));
    } else {
        let i = choose|i: int| #[trigger]
            first_overlap(rs, i) && refused(
                a,
                "line ranges "@ + span_text(rs[i]) + " and "@ + span_text(rs[i + 1]) + " overlap"@,
            );
        assert(first_overlap(rs, i) && refused(
            b,
            "line ranges "@ + span_text(rs[i]) + " and "@ + span_text(rs[i + 1]) + " overlap"@,
        ));
    }
}

/// A text that does not end with a newline has fewer newlines than bytes.
proof fn lemma_newlines_short(t: Seq<u8>)
    requires
        t.len() > 0,
        t.last() != 10,
    ensures
        newlines(t) < t.len(),
{
    lemma_newlines_bound(t.drop_last());
}

} // verus!
