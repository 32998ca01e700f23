//! Several text replacements in one version.

use vstd::prelude::*;
use vstd::slice::slice_subrange;
use vstd::string::*;
use vstd::utf8::*;
use crate::error::TextdbError;
use crate::storage::Result;
use crate::text::{chars_of, dec, decimal, lossy_text, same_bytes, same_text, string_of, utf8_lossy, utf8_text};
use crate::value::Value;

verus! {

/// What `format!` writes for a text with `{:?}`.
pub uninterp spec fn debug_text(s: Seq<char>) -> Seq<char>;

/// `format!` with `{:?}`: the text in quotes, with escapes. Which characters are escaped, and how,
/// depends on the text alone, and is only named.
#[verifier::external_body]
pub(crate) fn quoted_text(s: &str) -> (r: String)
    ensures
        r@ == debug_text(s@),
{
    format!("{:?}", s)
}

/// The call was refused, with a reason.
pub open spec fn refused<T>(r: Result<T>, why: Seq<char>) -> bool {
    r matches Err(TextdbError::InvalidEdit(m)) && m@ == why
}

/// The call did not find what it was asked for.
pub open spec fn absent<T>(r: Result<T>, what: Seq<char>) -> bool {
    r matches Err(TextdbError::NotFound(m)) && m@ == what
}

/// Replace every occurrence of `old` with `new`. With `expected`, the file must hold exactly that
/// many occurrences; without, at least one.
#[derive(Debug, PartialEq, Eq)]
pub struct Replacement {
    pub old: Vec<u8>,
    pub new: Vec<u8>,
    pub expected: Option<usize>,
}

/// A replacement as a mathematical value.
pub struct Swap {
    pub old: Seq<u8>,
    pub new: Seq<u8>,
    pub expected: Option<usize>,
}

impl View for Replacement {
    type V = Swap;

    open spec fn view(&self) -> Swap {
        Swap { old: self.old@, new: self.new@, expected: self.expected }
    }
}

pub open spec fn swaps(rs: Seq<Replacement>) -> Seq<Swap> {
    Seq::new(rs.len(), |i: int| rs[i]@)
}

/// The value of the first member with a key.
pub open spec fn member(o: Seq<(String, Value)>, key: Seq<char>) -> Option<Value>
    decreases o.len(),
{
    if o.len() == 0 {
        None
    } else if o[0].0@ == key {
        Some(o[0].1)
    } else {
        member(o.skip(1), key)
    }
}

pub fn get_member<'a>(o: &'a Vec<(String, Value)>, key: &str) -> (r: Option<&'a Value>)
    ensures
        match r {
            Some(v) => member(o@, key@) == Some(*v),
            None => member(o@, key@) is None,
        },
{
    let mut i: usize = 0;
    proof {
        assert(o@.skip(0) =~= o@);
    }
    while i < o.len()
        invariant
            i <= o@.len(),
            member(o@, key@) == member(o@.skip(i as int), key@),
        decreases o@.len() - i,
    {
        if same_text(o[i].0.as_str(), key) {
            return Some(&o[i].1);
        }
        proof {
            assert(o@.skip(i as int).skip(1) =~= o@.skip(i + 1));
        }
        i += 1;
    }
    None
}

/// A value that is a text.
pub open spec fn text_in(v: Option<Value>) -> Option<Seq<char>> {
    match v {
        Some(Value::Text(s)) => Some(s@),
        _ => None,
    }
}

/// A count that may be left out: none, or a number that is not below zero.
pub open spec fn count_in(v: Option<Value>) -> Option<Option<usize>> {
    match v {
        None => Some(None),
        Some(Value::Null) => Some(None),
        Some(Value::Int(n)) => if n >= 0 {
            Some(Some(n as usize))
        } else {
            None
        },
        _ => None,
    }
}

/// What one item asks for: `[old, new]`, `[old, new, count]` or `{"old", "new", "count"}`.
pub open spec fn swap_asked(v: Value) -> Option<Swap> {
    let (old, new, count) = match v {
        Value::List(a) => if a@.len() == 2 {
            (text_in(Some(a@[0])), text_in(Some(a@[1])), None)
        } else if a@.len() == 3 {
            (text_in(Some(a@[0])), text_in(Some(a@[1])), Some(a@[2]))
        } else {
            (None, None, None)
        },
        Value::Object(o) => (
            text_in(member(o@, "old"@)),
            text_in(member(o@, "new"@)),
            member(o@, "count"@),
        ),
        _ => (None, None, None),
    };
    if old is Some && new is Some && count_in(count) is Some {
        Some(
            Swap {
                old: encode_utf8(old->0),
                new: encode_utf8(new->0),
                expected: count_in(count)->0,
            },
        )
    } else {
        None
    }
}

/// The sentence that says what replacements look like.
pub open spec fn swaps_usage() -> Seq<char> {
    "replacements must be a JSON array of [old, new], [old, new, expected_count] or {\"old\", \"new\", \"count\"}"@
}

fn as_text<'a>(v: Option<&'a Value>) -> (r: Option<&'a String>)
    ensures
        match (v, r) {
            (Some(v), Some(s)) => text_in(Some(*v)) == Some(s@),
            (Some(v), None) => text_in(Some(*v)) is None,
            (None, r) => r is None,
        },
{
    match v {
        Some(Value::Text(s)) => Some(s),
        _ => None,
    }
}

fn replacement_of(old: Option<&Value>, new: Option<&Value>, count: Option<&Value>) -> (r: Option<Replacement>)
    ensures
        ({
            let o = match old {
                Some(v) => Some(*v),
                None => None,
            };
            let n = match new {
                Some(v) => Some(*v),
                None => None,
            };
            let c = match count {
                Some(v) => Some(*v),
                None => None,
            };
            match r {
                Some(x) => {
                    &&& text_in(o) is Some
                    &&& text_in(n) is Some
                    &&& count_in(c) is Some
                    &&& x.old@ == encode_utf8(text_in(o)->0)
                    &&& x.new@ == encode_utf8(text_in(n)->0)
                    &&& x.expected == count_in(c)->0
                },
                None => text_in(o) is None || text_in(n) is None || count_in(c) is None,
            }
        }),
{
    let expected: Option<usize> = match count {
        None => None,
        Some(Value::Null) => None,
        Some(Value::Int(n)) => {
            if *n < 0 {
                return None;
            }
            Some(*n as usize)
        },
        Some(_) => {
            return None;
        },
    };
    match (as_text(old), as_text(new)) {
        (Some(o), Some(n)) => Some(
            Replacement { old: o.as_str().as_bytes_vec(), new: n.as_str().as_bytes_vec(), expected },
        ),
        _ => None,
    }
}

fn parse_replacement(v: &Value) -> (r: Option<Replacement>)
    ensures
        match r {
            Some(x) => swap_asked(*v) == Some(x@),
            None => swap_asked(*v) is None,
        },
{
    match v {
        Value::List(a) => {
            if a.len() == 2 {
                replacement_of(Some(&a[0]), Some(&a[1]), None)
            } else if a.len() == 3 {
                replacement_of(Some(&a[0]), Some(&a[1]), Some(&a[2]))
            } else {
                None
            }
        },
        Value::Object(o) => replacement_of(get_member(o, "old"), get_member(o, "new"), get_member(o, "count")),
        _ => None,
    }
}

/// `[[old, new], [old, new, expected_count], {"old", "new", "count"}, …]`.
pub fn parse_replacements(v: &Value) -> (r: Result<Vec<Replacement>>)
    ensures
        match r {
            Ok(rs) => {
                &&& v matches Value::List(items) && rs@.len() == items@.len() && forall|i: int|
                    0 <= i < items@.len() ==> swap_asked(#[trigger] items@[i]) == Some(rs@[i]@)
            },
            Err(_) => {
                &&& refused(r, swaps_usage())
                &&& v matches Value::List(items) ==> exists|i: int|
                    0 <= i < items@.len() && swap_asked(#[trigger] items@[i]) is None
            },
        },
{
    let usage: &str =
        "replacements must be a JSON array of [old, new], [old, new, expected_count] or {\"old\", \"new\", \"count\"}";
    match v {
        Value::List(items) => {
            let mut out: Vec<Replacement> = Vec::new();
            let mut i: usize = 0;
            while i < items.len()
                invariant
                    i <= items@.len(),
                    out@.len() == i,
                    usage@ == swaps_usage(),
                    *v == Value::List(*items),
                    forall|k: int| 0 <= k < i ==> swap_asked(#[trigger] items@[k]) == Some(out@[k]@),
                decreases items@.len() - i,
            {
                match parse_replacement(&items[i]) {
                    Some(x) => {
                        out.push(x);
                    },
                    None => {
                        return Err(TextdbError::InvalidEdit(String::from_str(usage)));
                    },
                }
                i += 1;
            }
            Ok(out)
        },
        _ => Err(TextdbError::InvalidEdit(String::from_str(usage))),
    }
}

/// Does `pat` stand in `text` at place `i`?
pub open spec fn bytes_at(text: Seq<u8>, pat: Seq<u8>, i: int) -> bool {
    0 <= i && i + pat.len() <= text.len() && text.subrange(i, i + pat.len()) == pat
}

/// Where `pat` occurs in `text` from place `i` on: the first occurrence, then the first behind
/// that one, and so on.
pub open spec fn places(text: Seq<u8>, pat: Seq<u8>, i: int) -> Seq<int>
    decreases text.len() - i,
{
    if pat.len() == 0 || i < 0 || i + pat.len() > text.len() {
        Seq::empty()
    } else if bytes_at(text, pat, i) {
        seq![i] + places(text, pat, i + pat.len())
    } else {
        places(text, pat, i + 1)
    }
}

/// `text` from place `i` on, with `new` for each of these occurrences.
pub open spec fn substituted(text: Seq<u8>, pat: Seq<u8>, new: Seq<u8>, i: int) -> Seq<u8>
    decreases text.len() - i,
{
    if pat.len() == 0 || i < 0 || i + pat.len() > text.len() {
        text.skip(i)
    } else if bytes_at(text, pat, i) {
        new + substituted(text, pat, new, i + pat.len())
    } else {
        seq![text[i]] + substituted(text, pat, new, i + 1)
    }
}

pub open spec fn indices(at: Seq<usize>) -> Seq<int> {
    Seq::new(at.len(), |i: int| at[i] as int)
}

/// Where `pat` occurs in `text`.
pub fn occurrences(text: &[u8], pat: &[u8]) -> (at: Vec<usize>)
    requires
        pat@.len() > 0,
    ensures
        indices(at@) == places(text@, pat@, 0),
{
    let mut at: Vec<usize> = Vec::new();
    let mut i: usize = 0;
    proof {
        assert(indices(at@) + places(text@, pat@, 0) =~= places(text@, pat@, 0));
    }
    while i <= text.len() && pat.len() <= text.len() - i
        invariant
            i <= text@.len(),
            pat@.len() > 0,
            indices(at@) + places(text@, pat@, i as int) == places(text@, pat@, 0),
        decreases text@.len() - i,
    {
        let ghost before = indices(at@);
        if same_bytes(slice_subrange(text, i, i + pat.len()), pat) {
            at.push(i);
            proof {
                assert(indices(at@) =~= before.push(i as int));
                assert(before + (seq![i as int] + places(text@, pat@, i + pat@.len())) =~= before.push(i as int) + places(
                    text@,
                    pat@,
                    i + pat@.len(),
                ));
            }
            i = i + pat.len();
        } else {
            i = i + 1;
        }
    }
    proof {
        assert(places(text@, pat@, i as int) =~= Seq::<int>::empty());
        assert(indices(at@) + Seq::<int>::empty() =~= indices(at@));
    }
    at
}

/// The text with `new` put in place of each occurrence of `old`.
fn substitute(text: &[u8], old: &[u8], new: &[u8]) -> (out: Vec<u8>)
    requires
        old@.len() > 0,
    ensures
        out@ == substituted(text@, old@, new@, 0),
{
    let mut out: Vec<u8> = Vec::new();
    let mut i: usize = 0;
    proof {
        assert(out@ + substituted(text@, old@, new@, 0) =~= substituted(text@, old@, new@, 0));
    }
    while i <= text.len() && old.len() <= text.len() - i
        invariant
            i <= text@.len(),
            old@.len() > 0,
            out@ + substituted(text@, old@, new@, i as int) == substituted(text@, old@, new@, 0),
        decreases text@.len() - i,
    {
        let ghost before = out@;
        if same_bytes(slice_subrange(text, i, i + old.len()), old) {
            out.extend_from_slice(new);
            proof {
                let rest = substituted(text@, old@, new@, i + old@.len());
                assert(out@ =~= before + new@);
                assert(before + (new@ + rest) =~= out@ + rest);
            }
            i = i + old.len();
        } else {
            out.push(text[i]);
            proof {
                let rest = substituted(text@, old@, new@, i + 1);
                assert(before + (seq![text@[i as int]] + rest) =~= out@ + rest);
            }
            i = i + 1;
        }
    }
    let ghost before = out@;
    out.extend_from_slice(slice_subrange(text, i, text.len()));
    proof {
        assert(text@.subrange(i as int, text@.len() as int) =~= text@.skip(i as int));
        assert(out@ =~= before + text@.skip(i as int));
    }
    out
}

/// A text as errors show it: its first characters.
pub open spec fn shown_text(b: Seq<u8>) -> Seq<char> {
    let s = utf8_lossy(b);
    if s.len() > 60 {
        s.take(59).push('\u{2026}')
    } else {
        s
    }
}

fn shown(b: &[u8]) -> (r: String)
    ensures
        r@ == shown_text(b@),
{
    let s = lossy_text(b);
    let cs: Vec<char> = chars_of(s.as_str());
    if cs.len() > 60 {
        let mut out = string_of(slice_subrange(cs.as_slice(), 0, 59));
        out.push('\u{2026}');
        proof {
            assert(s@.subrange(0, 59) =~= s@.take(59));
        }
        out
    } else {
        s
    }
}

/// Why replacement number `i` cannot be made in `text`, if so.
pub open spec fn swap_fault(path: Seq<char>, text: Seq<u8>, r: Swap, i: int) -> Option<Seq<char>> {
    let n = places(text, r.old, 0).len();
    if r.old.len() == 0 {
        Some("replacement "@ + dec((i + 1) as nat) + ": the old text is empty"@)
    } else if r.expected matches Some(e) && e != n {
        Some(
            path + ": expected "@ + dec(r.expected->0 as nat) + " occurrence"@ + (if r.expected->0 == 1 {
                ""@
            } else {
                "s"@
            }) + " of "@ + debug_text(shown_text(r.old)) + ", found "@ + dec(n),
        )
    } else if r.expected is None && n == 0 {
        Some(path + ": "@ + debug_text(shown_text(r.old)) + " not found"@)
    } else {
        None
    }
}

/// The text after the first `k` replacements.
pub open spec fn swapped(text: Seq<u8>, rs: Seq<Swap>, k: int) -> Seq<u8>
    decreases k,
{
    if k <= 0 {
        text
    } else {
        substituted(swapped(text, rs, k - 1), rs[k - 1].old, rs[k - 1].new, 0)
    }
}

/// Replacement number `i` is the first that cannot be made.
pub open spec fn first_fault(path: Seq<char>, text: Seq<u8>, rs: Seq<Swap>, i: int) -> bool {
    &&& 0 <= i < rs.len()
    &&& swap_fault(path, swapped(text, rs, i), rs[i], i) is Some
    &&& forall|k: int| 0 <= k < i ==> swap_fault(path, #[trigger] swapped(text, rs, k), rs[k], k) is None
}

/// The call was refused at the first replacement that cannot be made.
pub open spec fn stopped<T>(r: Result<T>, path: Seq<char>, text: Seq<u8>, rs: Seq<Swap>) -> bool {
    exists|i: int| #[trigger]
        first_fault(path, text, rs, i) && refused(r, swap_fault(path, swapped(text, rs, i), rs[i], i)->0)
}

fn check_swap(path: &str, count: usize, r: &Replacement, i: usize, Ghost(text): Ghost<Seq<u8>>) -> (o: Option<String>)
    requires
        r.old@.len() > 0,
        count == places(text, r.old@, 0).len(),
    ensures
        match o {
            Some(m) => swap_fault(path@, text, r@, i as int) == Some(m@),
            None => swap_fault(path@, text, r@, i as int) is None,
        },
{
    match r.expected {
        Some(e) => {
            if e == count {
                return None;
            }
            let mut m = String::from_str(path);
            m.append(": expected ");
            m.append(decimal(e as u64).as_str());
            m.append(" occurrence");
            m.append(if e == 1 { "" } else { "s" });
            m.append(" of ");
            m.append(quoted_text(shown(r.old.as_slice()).as_str()).as_str());
            m.append(", found ");
            m.append(decimal(count as u64).as_str());
            Some(m)
        },
        None => {
            if count > 0 {
                return None;
            }
            let mut m = String::from_str(path);
            m.append(": ");
            m.append(quoted_text(shown(r.old.as_slice()).as_str()).as_str());
            m.append(" not found");
            Some(m)
        },
    }
}

/// `text` with `replacements` applied in order; a count that does not match fails.
pub fn apply_replacements(path: &str, text: Vec<u8>, replacements: &[Replacement]) -> (r: Result<Vec<u8>>)
    ensures
        match r {
            Ok(t) => {
                &&& t@ == swapped(text@, swaps(replacements@), replacements@.len() as int)
                &&& forall|k: int|
                    0 <= k < replacements@.len() ==> swap_fault(
                        path@,
                        #[trigger] swapped(text@, swaps(replacements@), k),
                        replacements@[k]@,
                        k,
                    ) is None
            },
            Err(_) => stopped(r, path@, text@, swaps(replacements@)),
        },
{
    let ghost start = text@;
    let ghost rs = swaps(replacements@);
    let mut cur: Vec<u8> = text;
    let mut i: usize = 0;
    while i < replacements.len()
        invariant
            i <= replacements@.len(),
            rs == swaps(replacements@),
            start == text@,
            cur@ == swapped(start, rs, i as int),
            forall|k: int| 0 <= k < i ==> swap_fault(path@, #[trigger] swapped(start, rs, k), rs[k], k) is None,
        decreases replacements@.len() - i,
    {
        let r = &replacements[i];
        if r.old.len() == 0 {
            let mut m = String::from_str("replacement ");
            m.append(decimal(i as u64 + 1).as_str());
            m.append(": the old text is empty");
            let e: Result<Vec<u8>> = Err(TextdbError::InvalidEdit(m));
            proof {
                assert(first_fault(path@, start, rs, i as int));
                assert(refused(e, swap_fault(path@, swapped(start, rs, i as int), rs[i as int], i as int)->0));
            }
            return e;
        }
        let at: Vec<usize> = occurrences(cur.as_slice(), r.old.as_slice());
        match check_swap(path, at.len(), r, i, Ghost(cur@)) {
            Some(m) => {
                let e: Result<Vec<u8>> = Err(TextdbError::InvalidEdit(m));
                proof {
                    assert(first_fault(path@, start, rs, i as int));
                    assert(refused(e, swap_fault(path@, swapped(start, rs, i as int), rs[i as int], i as int)->0));
                }
                return e;
            },
            None => {},
        }
        cur = substitute(cur.as_slice(), r.old.as_slice(), r.new.as_slice());
        i += 1;
    }
    Ok(cur)
}


/// `content` with replacements applied, as text: there must be a replacement, and what comes out
/// must be text.
pub fn replace_text(path: &str, content: Vec<u8>, replacements: &[Replacement]) -> (r: Result<String>)
    ensures
        ({
            let rs = swaps(replacements@);
            let n = replacements@.len() as int;
            let out = swapped(content@, rs, n);
            &&& n == 0 ==> refused(r, "no replacements given"@)
            &&& n > 0 && (exists|i: int| first_fault(path@, content@, rs, i)) ==> stopped(r, path@, content@, rs)
            &&& n > 0 && !(exists|i: int| first_fault(path@, content@, rs, i)) ==> if valid_utf8(out) {
                r matches Ok(s) && s@ == decode_utf8(out)
            } else {
                refused(r, path@ + ": the replaced content is not valid UTF-8"@)
            }
        }),
{
    if replacements.len() == 0 {
        return Err(TextdbError::InvalidEdit(String::from_str("no replacements given")));
    }
    let ghost rs = swaps(replacements@);
    let done = apply_replacements(path, content, replacements);
    match done {
        Ok(text) => {
            proof {
                assert forall|i: int| !first_fault(path@, content@, rs, i) by {
                    if first_fault(path@, content@, rs, i) {
                        assert(swap_fault(path@, swapped(content@, rs, i), replacements@[i]@, i) is None);
                    }
                }
            }
            match utf8_text(text) {
                Some(s) => Ok(s),
                None => Err(
                    TextdbError::InvalidEdit(
                        String::from_str(path).concat(": the replaced content is not valid UTF-8"),
                    ),
                ),
            }
        },
        Err(e) => {
            let r: Result<String> = Err(e);
            proof {
                let d = Err::<Vec<u8>, TextdbError>(e);
                let i = choose|i: int| #[trigger]
                    first_fault(path@, content@, rs, i) && refused(
                        d,
                        swap_fault(path@, swapped(content@, rs, i), rs[i], i)->0,
                    );
                assert(first_fault(path@, content@, rs, i) && refused(
                    r,
                    swap_fault(path@, swapped(content@, rs, i), rs[i], i)->0,
                ));
            }
            r
        },
    }
}

} // verus!
