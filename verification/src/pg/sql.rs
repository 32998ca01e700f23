//! Predicates over the store's tables: ranges that hold a subtree or a prefix, and the conditions
//! that outlines and link lists are read by.

use vstd::prelude::*;
use vstd::string::*;
use vstd::utf8::is_scalar;
use crate::chars::{begins, lower_case, lowered, signed_dec, signed_decimal, text_below, texts};
use crate::error::TextdbError;
use crate::pg::bulk::refused;
use crate::pg::property::{escape_like, like_escaped};
use crate::storage::Result;
use crate::text::{chars_of, dec, decimal, same_text, string_of};

verus! {

/// The character with the next code, if there is one.
pub open spec fn next_char(c: char) -> char {
    ((c as u32 + 1) as u32) as char
}

proof fn lemma_next_char(c: char)
    ensures
        is_scalar((c as u32 + 1) as u32) ==> next_char(c) as u32 == c as u32 + 1 && c < next_char(c),
{
    vstd::utf8::char_is_scalar(c);
    let u = (c as u32 + 1) as u32;
    if is_scalar(u) {
        assert(u == c as u32 + 1);
        assert((u as char) as u32 == u);
    }
}

/// What comes behind every text with a prefix: the prefix up to its last character that has a
/// successor, and that successor.
pub open spec fn prefix_end(p: Seq<char>) -> Option<Seq<char>>
    decreases p.len(),
{
    if p.len() == 0 {
        None
    } else if is_scalar((p.last() as u32 + 1) as u32) {
        Some(p.drop_last().push(next_char(p.last())))
    } else {
        prefix_end(p.drop_last())
    }
}

/// `[lo, hi)` covering everything that starts with `p`, so a prefix match reads an index
/// range. For the empty prefix both are empty.
pub fn prefix_range(p: &str) -> (r: (String, String))
    ensures
        match prefix_end(p@) {
            Some(hi) => r.0@ == p@ && r.1@ == hi,
            None => r.0@.len() == 0 && r.1@.len() == 0,
        },
{
    let mut hi: Vec<char> = chars_of(p);
    while hi.len() > 0
        invariant
            prefix_end(p@) == prefix_end(hi@),
        decreases hi@.len(),
    {
        let ghost before = hi@;
        match hi.pop() {
            Some(c) => {
                proof {
                    assert(before.drop_last() =~= hi@);
                    vstd::utf8::char_is_scalar(c);
                }
                let next: u32 = c as u32 + 1;
                match char::from_u32(next) {
                    Some(n) => {
                        hi.push(n);
                        proof {
                            vstd::utf8::char_u32_cast(n, next);
                            assert(hi@ =~= before.drop_last().push(next_char(before.last())));
                        }
                        return (String::from_str(p), string_of(hi.as_slice()));
                    },
                    None => {},
                }
            },
            None => {},
        }
    }
    (String::new(), String::new())
}

/// Texts with a common beginning are ordered as what follows it.
proof fn lemma_below_common(q: Seq<char>, a: Seq<char>, b: Seq<char>)
    ensures
        text_below(q + a, q + b) == text_below(a, b),
    decreases q.len(),
{
    if q.len() == 0 {
        assert(q + a =~= a);
        assert(q + b =~= b);
    } else {
        lemma_below_common(q.skip(1), a, b);
        assert((q + a).skip(1) =~= q.skip(1) + a);
        assert((q + b).skip(1) =~= q.skip(1) + b);
        assert((q + a)[0] == (q + b)[0]);
    }
}

/// The range of a prefix covers every text that starts with it.
pub proof fn law_prefix_covered(p: Seq<char>, x: Seq<char>)
    requires
        begins(x, p),
        prefix_end(p) is Some,
    ensures
        !text_below(x, p),
        text_below(x, prefix_end(p)->0),
    decreases p.len(),
{
    assert(x =~= p + x.skip(p.len() as int));
    assert(p =~= p + Seq::<char>::empty());
    lemma_below_common(p, x.skip(p.len() as int), Seq::empty());
    let q = p.drop_last();
    assert(begins(x, q)) by {
        assert(x.take(q.len() as int) =~= p.take(q.len() as int));
        assert(p.take(q.len() as int) =~= q);
    }
    let c = p.last();
    vstd::utf8::char_is_scalar(c);
    if is_scalar((c as u32 + 1) as u32) {
        let n = next_char(c);
        let rest = x.skip(q.len() as int);
        assert(x[q.len() as int] == c) by {
            assert(x.take(p.len() as int)[q.len() as int] == p[q.len() as int]);
        }
        assert(x =~= q + rest);
        assert(q.push(n) =~= q + seq![n]);
        lemma_below_common(q, rest, seq![n]);
        lemma_next_char(c);
        assert(rest[0] == c);
        assert(c < n);
        assert(text_below(rest, seq![n]));
        assert(prefix_end(p) == Some(q.push(n)));
    } else {
        law_prefix_covered(q, x);
    }
}

/// Where the last character of a prefix has a successor, its range holds nothing else.
pub proof fn law_prefix_exact(p: Seq<char>, x: Seq<char>)
    requires
        p.len() > 0,
        is_scalar((p.last() as u32 + 1) as u32),
        !text_below(x, p),
        text_below(x, prefix_end(p)->0),
    ensures
        begins(x, p),
{
    let q = p.drop_last();
    let c = p.last();
    let n = next_char(c);
    vstd::utf8::char_is_scalar(c);
    lemma_next_char(c);
    assert(p =~= q + seq![c]);
    assert(q.push(n) =~= q + seq![n]);
    lemma_between(q, c, n, x);
}

proof fn lemma_between(q: Seq<char>, c: char, n: char, x: Seq<char>)
    requires
        n as u32 == c as u32 + 1,
        !text_below(x, q + seq![c]),
        text_below(x, q + seq![n]),
    ensures
        begins(x, q + seq![c]),
    decreases q.len(),
{
    if q.len() == 0 {
        assert(q + seq![c] =~= seq![c]);
        assert(q + seq![n] =~= seq![n]);
        if x.len() > 0 {
            vstd::utf8::char_is_scalar(x[0]);
            if x[0] == n {
                assert(seq![n].skip(1) =~= Seq::<char>::empty());
                assert(!text_below(x.skip(1), seq![n].skip(1)));
                assert(seq![n][0] == x[0]);
            }
            assert(x[0] != n);
            assert(x[0] < n);
            assert(!(x[0] < c));
            assert(x[0] as u32 == c as u32);
            lemma_same_char(x[0], c);
            assert(x.take(1) =~= seq![c]);
        }
    } else {
        assert((q + seq![c]).skip(1) =~= q.skip(1) + seq![c]);
        assert((q + seq![n]).skip(1) =~= q.skip(1) + seq![n]);
        assert((q + seq![c])[0] == q[0]);
        assert((q + seq![n])[0] == q[0]);
        if x.len() > 0 {
            if x[0] == q[0] {
                lemma_between(q.skip(1), c, n, x.skip(1));
                let p1 = q.skip(1) + seq![c];
                let p = q + seq![c];
                assert(p =~= seq![q[0]] + p1);
                assert(x.take(p.len() as int) =~= seq![x[0]] + x.skip(1).take(p1.len() as int));
            }
        }
    }
}

proof fn lemma_same_char(a: char, b: char)
    ensures
        a as u32 == b as u32 ==> a == b,
{
}

/// The half-open path range that holds everything under `path`, as `[path/, path0)`.
pub open spec fn bounds_of(path: Seq<char>) -> (Seq<char>, Seq<char>) {
    if path == "/"@ {
        ("/"@, "0"@)
    } else {
        (path + "/"@, path + "0"@)
    }
}

/// The half-open path range that holds everything under `path`, as `[path/, path0)`.
///
/// `/` sorts just below every character a path segment can start with and `0` is its
/// successor, so the range is exact: nothing sorts between them. The root has no bound,
/// and takes the range that holds every path.
pub fn subtree_bounds(path: &str) -> (r: (String, String))
    ensures
        (r.0@, r.1@) == bounds_of(path@),
{
    if same_text(path, "/") {
        return (String::from_str("/"), String::from_str("0"));
    }
    (String::from_str(path).concat("/"), String::from_str(path).concat("0"))
}

/// The range of a folder holds exactly the paths below it.
pub proof fn law_bounds_hold_subtree(path: Seq<char>, x: Seq<char>)
    ensures
        ({
            let (lo, hi) = bounds_of(path);
            begins(x, lo) <==> !text_below(x, lo) && text_below(x, hi)
        }),
{
    reveal_strlit("/");
    reveal_strlit("0");
    let (lo, hi) = bounds_of(path);
    assert(lo.last() == '/');
    assert(('/' as u32 + 1) as u32 == '0' as u32);
    assert(next_char('/') == '0');
    assert(is_scalar('0' as u32));
    assert(prefix_end(lo) == Some(lo.drop_last().push('0')));
    assert(lo.drop_last().push('0') =~= hi);
    if begins(x, lo) {
        law_prefix_covered(lo, x);
    } else if !text_below(x, lo) && text_below(x, hi) {
        law_prefix_exact(lo, x);
    }
}

/// What a prefix means for a query: one document, or everything under a folder.
#[derive(Debug, PartialEq, Eq)]
pub enum Scope {
    File(i64),
    Subtree(String, String),
}

/// A scope as a mathematical value.
pub enum Reach {
    File(i64),
    Subtree(Seq<char>, Seq<char>),
}

impl View for Scope {
    type V = Reach;

    open spec fn view(&self) -> Reach {
        match self {
            Scope::File(id) => Reach::File(*id),
            Scope::Subtree(lo, hi) => Reach::Subtree(lo@, hi@),
        }
    }
}

/// The condition of a scope, with `n` values bound before it, and the values it binds.
pub open spec fn reach_text(s: Reach, n: nat) -> (Seq<char>, Seq<Seq<char>>) {
    match s {
        Reach::File(id) => ("n.id = "@ + signed_dec(id as int), Seq::empty()),
        Reach::Subtree(lo, hi) => (
            "n.path >= $"@ + dec(n + 1) + " AND n.path < $"@ + dec(n + 2),
            seq![lo, hi],
        ),
    }
}

fn push_text(args: &mut Vec<String>, s: String)
    ensures
        texts(final(args)@) == texts(old(args)@).push(s@),
        final(args)@.len() == old(args)@.len() + 1,
{
    let ghost before = args@;
    args.push(s);
    proof {
        assert(texts(args@) =~= texts(before).push(s@));
    }
}

fn push_slot(s: &mut String, n: usize)
    ensures
        final(s)@ == old(s)@ + dec(n as nat),
{
    s.append(decimal(n as u64).as_str());
}

impl Scope {
    /// A file is addressed by id. Anything else — a folder, the root, a path that is not there —
    /// takes the range that holds everything below it.
    pub fn of(path: &str, file: Option<i64>) -> (r: Scope)
        ensures
            r@ == match file {
                Some(id) => Reach::File(id),
                None => Reach::Subtree(bounds_of(path@).0, bounds_of(path@).1),
            },
    {
        match file {
            Some(id) => Scope::File(id),
            None => {
                let (lo, hi) = subtree_bounds(path);
                Scope::Subtree(lo, hi)
            },
        }
    }

    /// The predicate, appending its bound values to `args`.
    pub fn sql(&self, args: &mut Vec<String>) -> (s: String)
        ensures
            s@ == reach_text(self@, old(args)@.len()).0,
            texts(final(args)@) == texts(old(args)@) + reach_text(self@, old(args)@.len()).1,
    {
        let ghost before = texts(args@);
        match self {
            // An id comes from the database and is an integer, so it is written in.
            Scope::File(id) => {
                proof {
                    assert(before + Seq::<Seq<char>>::empty() =~= before);
                }
                String::from_str("n.id = ").concat(signed_decimal(*id).as_str())
            },
            Scope::Subtree(lo, hi) => {
                let mut s = String::from_str("n.path >= $");
                push_text(args, lo.clone());
                push_slot(&mut s, args.len());
                s.append(" AND n.path < $");
                push_text(args, hi.clone());
                push_slot(&mut s, args.len());
                proof {
                    assert(texts(args@) =~= before + seq![lo@, hi@]);
                }
                s
            },
        }
    }
}

/// The condition on a heading in lower case, with `n` values bound before it, and what it binds.
pub open spec fn heading_text(h: Seq<char>, mode: Seq<char>, n: nat) -> (Seq<char>, Seq<Seq<char>>) {
    if mode == "prefix"@ {
        let (lo, hi) = match prefix_end(h) {
            Some(hi) => (h, hi),
            None => (Seq::empty(), Seq::empty()),
        };
        (" AND s.heading_lc >= $"@ + dec(n + 1) + " AND s.heading_lc < $"@ + dec(n + 2), seq![lo, hi])
    } else if mode == "contains"@ {
        (" AND s.heading_lc LIKE $"@ + dec(n + 1) + " ESCAPE '\\'"@, seq!["%"@ + like_escaped(h) + "%"@])
    } else {
        (" AND s.heading_lc = $"@ + dec(n + 1), seq![h])
    }
}

/// The condition of an outline and the values it binds: its scope, a heading if one is asked for,
/// matched folded, and the deepest level if one is given.
pub open spec fn outline_text(scope: Reach, heading: Option<Seq<char>>, mode: Seq<char>, max_level: Option<i64>) -> (
    Seq<char>,
    Seq<Seq<char>>,
) {
    let (sql, args) = reach_text(scope, 0);
    let (sql1, args1) = match heading {
        Some(h) => {
            let (more, bound) = heading_text(lower_case(h), mode, args.len());
            (sql + more, args + bound)
        },
        None => (sql, args),
    };
    match max_level {
        Some(l) => (sql1 + " AND s.level <= $"@ + dec(args1.len() + 1) + "::int"@, args1.push(signed_dec(l as int))),
        None => (sql1, args1),
    }
}

fn heading_where(h: &str, mode: &str, args: &mut Vec<String>) -> (s: String)
    ensures
        s@ == heading_text(h@, mode@, old(args)@.len()).0,
        texts(final(args)@) == texts(old(args)@) + heading_text(h@, mode@, old(args)@.len()).1,
{
    let ghost before = texts(args@);
    if same_text(mode, "prefix") {
        let (lo, hi) = prefix_range(h);
        proof {
            if prefix_end(h@) is None {
                assert(lo@ =~= Seq::<char>::empty());
                assert(hi@ =~= Seq::<char>::empty());
            }
        }
        let ghost bound = seq![lo@, hi@];
        let mut s = String::from_str(" AND s.heading_lc >= $");
        push_text(args, lo);
        push_slot(&mut s, args.len());
        s.append(" AND s.heading_lc < $");
        push_text(args, hi);
        push_slot(&mut s, args.len());
        proof {
            assert(texts(args@) =~= before + bound);
        }
        s
    } else if same_text(mode, "contains") {
        let mut s = String::from_str(" AND s.heading_lc LIKE $");
        let pattern = String::from_str("%").concat(escape_like(h).as_str()).concat("%");
        let ghost bound = seq![pattern@];
        push_text(args, pattern);
        push_slot(&mut s, args.len());
        s.append(" ESCAPE '\\'");
        proof {
            assert(texts(args@) =~= before + bound);
        }
        s
    } else {
        let mut s = String::from_str(" AND s.heading_lc = $");
        push_text(args, String::from_str(h));
        push_slot(&mut s, args.len());
        proof {
            assert(texts(args@) =~= before + seq![h@]);
        }
        s
    }
}

pub open spec fn asked_text(s: Option<&str>) -> Option<Seq<char>> {
    match s {
        Some(s) => Some(s@),
        None => None,
    }
}

/// The condition of an outline and the values it binds. Every part is built only when it applies,
/// and the placeholders are numbered as the parts are appended.
pub fn outline_where(scope: &Scope, heading: Option<&str>, mode: &str, max_level: Option<i64>) -> (r: (String, Vec<String>))
    ensures
        (r.0@, texts(r.1@)) == outline_text(scope@, asked_text(heading), mode@, max_level),
{
    let mut args: Vec<String> = Vec::new();
    proof {
        assert(texts(args@) =~= Seq::<Seq<char>>::empty());
    }
    let mut sql = scope.sql(&mut args);
    proof {
        assert(texts(args@) =~= reach_text(scope@, 0).1);
        assert(args@.len() == texts(args@).len());
    }
    match heading {
        Some(h) => {
            let folded = lowered(h);
            let more = heading_where(folded.as_str(), mode, &mut args);
            sql.append(more.as_str());
        },
        None => {},
    }
    proof {
        assert(args@.len() == texts(args@).len());
    }
    match max_level {
        Some(l) => {
            push_text(&mut args, signed_decimal(l));
            sql.append(" AND s.level <= $");
            push_slot(&mut sql, args.len());
            sql.append("::int");
        },
        None => {},
    }
    (sql, args)
}

/// The statuses a link row can have that lists are asked for.
pub open spec fn known_status(s: Seq<char>) -> bool {
    s == "ok"@ || s == "ambiguous"@ || s == "anchor-missing"@ || s == "broken"@ || s == "not-in-store"@ || s
        == "external"@
}

/// Where links to a path are found, the path bound first and then the range below it. An asset is
/// linked by its own name; the node that exists is the pointer beside it.
pub open spec fn incoming_text() -> Seq<char> {
    "l.target_path <> '' AND l.resolved_id IN (SELECT id FROM kb.node WHERE kind = 1 AND deleted_at IS NULL AND (path = $1 OR path = $1 || '.tdbasset' OR (path >= $2 AND path < $3)))"@
}

/// The condition of a list of links and the values it binds: links written under a path, or links
/// that point at it; of one status if one is given.
pub open spec fn links_text(path: Seq<char>, file: Option<i64>, status: Seq<char>, incoming: bool) -> (
    Seq<char>,
    Seq<Seq<char>>,
) {
    let (lo, hi) = bounds_of(path);
    let (sql, args) = if incoming {
        (incoming_text(), seq![path, lo, hi])
    } else {
        reach_text(
            match file {
                Some(id) => Reach::File(id),
                None => Reach::Subtree(lo, hi),
            },
            0,
        )
    };
    if status.len() == 0 {
        (sql, args)
    } else {
        (sql + " AND l.status = $"@ + dec(args.len() + 1), args.push(status))
    }
}

/// The condition of a list of links and the values it binds. `file` is the id of the file at
/// `path`, if a file is there.
pub fn links_where(path: &str, file: Option<i64>, status: &str, incoming: bool) -> (r: Result<(String, Vec<String>)>)
    ensures
        match r {
            Ok(p) => (status@.len() == 0 || known_status(status@)) && (p.0@, texts(p.1@)) == links_text(
                path@,
                file,
                status@,
                incoming,
            ),
            Err(_) => status@.len() > 0 && !known_status(status@) && refused(r, "unknown link status: "@ + status@),
        },
{
    let mut args: Vec<String> = Vec::new();
    let mut sql: String;
    proof {
        assert(texts(args@) =~= Seq::<Seq<char>>::empty());
    }
    if incoming {
        sql = String::from_str(
            "l.target_path <> '' AND l.resolved_id IN (SELECT id FROM kb.node WHERE kind = 1 AND deleted_at IS NULL AND (path = $1 OR path = $1 || '.tdbasset' OR (path >= $2 AND path < $3)))",
        );
        let (lo, hi) = subtree_bounds(path);
        let ghost bound = seq![path@, lo@, hi@];
        push_text(&mut args, String::from_str(path));
        push_text(&mut args, lo);
        push_text(&mut args, hi);
        proof {
            assert(texts(args@) =~= bound);
        }
    } else {
        let scope = Scope::of(path, file);
        sql = scope.sql(&mut args);
        proof {
            assert(texts(args@) =~= reach_text(scope@, 0).1);
        }
    }
    proof {
        assert(args@.len() == texts(args@).len());
    }
    if status.unicode_len() > 0 {
        if !(same_text(status, "ok") || same_text(status, "ambiguous") || same_text(status, "anchor-missing") || same_text(
            status,
            "broken",
        ) || same_text(status, "not-in-store") || same_text(status, "external")) {
            return Err(TextdbError::InvalidEdit(String::from_str("unknown link status: ").concat(status)));
        }
        push_text(&mut args, String::from_str(status));
        sql.append(" AND l.status = $");
        push_slot(&mut sql, args.len());
    }
    Ok((sql, args))
}

/// The pattern of the paths below a folder, its own wildcards escaped, so a folder named
/// `100%_done` selects itself and not `100XXXdone`.
pub fn subtree_pattern(folder: &str) -> (r: String)
    ensures
        r@ == like_escaped(folder@) + "/%"@,
{
    escape_like(folder).concat("/%")
}

} // verus!
