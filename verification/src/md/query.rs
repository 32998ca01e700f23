//! Front-matter properties: how they flatten for indexing, and the query language that asks
//! about them.
//!
//! Both bindings keep the same shape — one row per (document, property path, value) — so one
//! query text means the same thing on SQLite and on Postgres. This module owns the two halves
//! neither binding should have its own version of: turning parsed front matter into those
//! rows, and turning a query string into a tree the bindings compile to SQL.

use vstd::prelude::*;
use vstd::slice::slice_subrange;
use vstd::string::*;
use crate::chars::{
    ascii_lowered, begins, begins_with, find_char, next_at, push_chars, same_chars, signed_dec, signed_decimal,
    to_ascii_lowered,
};
use crate::md::offsets::{byte_at, byte_offsets};
use crate::md::yaml::{bounded, decimal_number, is_decimal_number, unsigned};
use crate::text::{chars_of, dec, decimal, string_of};
use crate::value::{holds, Data, Value};

verus! {

/// One indexable property value.
///
/// A list becomes one `Prop` per element, keeping its position in `ord`, so "does `tags`
/// contain `telco`" is an ordinary equality against a row rather than a scan inside a JSON
/// array. A nested object flattens to dotted paths (`project.name`), which is what people
/// already type in Obsidian and in `json_extract`.
#[derive(Clone, Debug, PartialEq, Eq)]
pub struct Prop {
    pub key: String,
    /// The value as text; a number as it was written.
    pub text: Option<String>,
    /// Whether the value is a number, so `priority > 3` compares numerically rather than
    /// lexically (where "10" sorts before "9").
    pub numeric: bool,
    /// Position within a list; 0 for a scalar.
    pub ord: i64,
}

/// A property value as a mathematical value.
#[verifier::ext_equal]
pub struct Row {
    pub key: Seq<char>,
    pub text: Option<Seq<char>>,
    pub numeric: bool,
    pub ord: i64,
}

impl View for Prop {
    type V = Row;

    open spec fn view(&self) -> Row {
        Row {
            key: self.key@,
            text: match self.text {
                Some(s) => Some(s@),
                None => None,
            },
            numeric: self.numeric,
            ord: self.ord,
        }
    }
}

pub open spec fn rows(v: Seq<Prop>) -> Seq<Row> {
    Seq::new(v.len(), |i: int| v[i]@)
}

/// A position as a row keeps it.
pub open spec fn position(i: int) -> i64 {
    if i <= i64::MAX {
        i as i64
    } else {
        i64::MAX
    }
}

/// The rows of one value.
pub open spec fn flat(key: Seq<char>, d: Data, ord: i64) -> Seq<Row>
    decreases d, 0int,
{
    match d {
        Data::List(s) => flat_list(key, s, s.len() as int),
        Data::Object(m) => flat_object(key + "."@, m, m.len() as int, ord),
        Data::Text(s) => seq![Row { key, text: Some(s), numeric: false, ord }],
        Data::Int(n) => seq![Row { key, text: Some(signed_dec(n)), numeric: true, ord }],
        Data::Decimal(s) => seq![Row { key, text: Some(s), numeric: true, ord }],
        Data::Bool(b) => seq![Row { key, text: Some(if b { "true"@ } else { "false"@ }), numeric: false, ord }],
        Data::Null => seq![Row { key, text: None, numeric: false, ord }],
    }
}

/// The rows of the first `n` elements of a list.
pub open spec fn flat_list(key: Seq<char>, s: Seq<Data>, n: int) -> Seq<Row>
    decreases s, n,
{
    if n <= 0 || n > s.len() {
        Seq::empty()
    } else {
        flat_list(key, s, n - 1) + flat(key, s[n - 1], position(n - 1))
    }
}

/// The rows of the first `n` members of an object, their keys behind `prefix`.
pub open spec fn flat_object(prefix: Seq<char>, m: Seq<(Seq<char>, Data)>, n: int, ord: i64) -> Seq<Row>
    decreases m, n,
{
    if n <= 0 || n > m.len() {
        Seq::empty()
    } else {
        flat_object(prefix, m, n - 1, ord) + flat(prefix + m[n - 1].0, m[n - 1].1, ord)
    }
}

/// The rows that front matter is indexed by.
pub open spec fn flattened(d: Data) -> Seq<Row> {
    match d {
        Data::Object(m) => flat_object(Seq::empty(), m, m.len() as int, 0),
        _ => Seq::empty(),
    }
}

/// Flatten front matter into the rows that get indexed.
///
/// Scalars keep their type: a bool is stored as `true`/`false` text so it can be searched by
/// name, a number is marked as one so `year:2026` and `year:>2000` both work. `null` is
/// recorded with no text, which still lets `has:key` find it — a property present but empty is
/// a real state in a vault and hiding it would be wrong.
pub fn flatten(data: &Value) -> (out: Vec<Prop>)
    ensures
        forall|d: Data| #[trigger] holds(*data, d) ==> rows(out@) == flattened(d),
{
    let mut out: Vec<Prop> = Vec::new();
    assert(rows(out@) =~= Seq::empty());
    match data {
        Value::Object(m) => {
            let none: Vec<char> = Vec::new();
            walk_members(none.as_slice(), m, 0, &mut out);
            proof {
                assert forall|d: Data| #[trigger] holds(*data, d) implies rows(out@) == flattened(d) by {
                    assert(none@ =~= Seq::empty());
                    let mm = d->Object_0;
                    assert(members_told(m@, mm));
                    assert(rows(out@) =~= flat_object(none@, mm, mm.len() as int, 0));
                }
            }
        },
        _ => {},
    }
    out
}

/// Members that hold the given data.
spec fn members_told(v: Seq<(String, Value)>, m: Seq<(Seq<char>, Data)>) -> bool {
    &&& v.len() == m.len()
    &&& forall|i: int| #![trigger v[i]] 0 <= i < v.len() ==> v[i].0@ == m[i].0 && holds(v[i].1, m[i].1)
}

fn walk_members(prefix: &[char], m: &Vec<(String, Value)>, ord: i64, out: &mut Vec<Prop>)
    ensures
        forall|mm: Seq<(Seq<char>, Data)>| #[trigger]
            members_told(m@, mm) ==> rows(final(out)@) == rows(old(out)@) + flat_object(prefix@, mm, mm.len() as int, ord),
    decreases m, 1int,
{
    let ghost start = rows(out@);
    let mut i: usize = 0;
    proof {
        assert forall|mm: Seq<(Seq<char>, Data)>| #[trigger] members_told(m@, mm) implies rows(out@) == start + flat_object(
            prefix@,
            mm,
            0,
            ord,
        ) by {
            assert(start + Seq::<Row>::empty() =~= start);
        }
    }
    while i < m.len()
        invariant
            i <= m@.len(),
            forall|mm: Seq<(Seq<char>, Data)>| #[trigger]
                members_told(m@, mm) ==> rows(out@) == start + flat_object(prefix@, mm, i as int, ord),
        decreases m@.len() - i,
    {
        let mut key: Vec<char> = vstd::slice::slice_to_vec(prefix);
        push_chars(&mut key, chars_of(m[i].0.as_str()).as_slice());
        let ghost before = rows(out@);
        proof {
            assert(decreases_to!(m => m@[i as int]));
            assert(decreases_to!(m@[i as int] => m@[i as int].1));
        }
        walk(key.as_slice(), &m[i].1, ord, out);
        proof {
            assert forall|mm: Seq<(Seq<char>, Data)>| #[trigger] members_told(m@, mm) implies rows(out@) == start + flat_object(
                prefix@,
                mm,
                i + 1,
                ord,
            ) by {
                assert(m@[i as int].0@ == mm[i as int].0);
                assert(holds(m@[i as int].1, mm[i as int].1));
                assert(key@ =~= prefix@ + mm[i as int].0);
                let new = flat(key@, mm[i as int].1, ord);
                assert(rows(out@) == before + new);
                assert(start + flat_object(prefix@, mm, i as int, ord) + new =~= start + (flat_object(prefix@, mm, i as int, ord)
                    + new));
            }
        }
        i += 1;
    }
}

fn walk(key: &[char], v: &Value, ord: i64, out: &mut Vec<Prop>)
    ensures
        forall|d: Data| #[trigger] holds(*v, d) ==> rows(final(out)@) == rows(old(out)@) + flat(key@, d, ord),
    decreases v, 0int,
{
    let ghost start = out@;
    let text: Option<String>;
    let mut numeric: bool = false;
    match v {
        Value::List(items) => {
            walk_items(key, items, out);
            proof {
                assert forall|d: Data| #[trigger] holds(*v, d) implies rows(out@) == rows(start) + flat(key@, d, ord) by {
                    assert(items_told(items@, d->List_0));
                }
            }
            return;
        },
        Value::Object(m) => {
            let mut prefix: Vec<char> = vstd::slice::slice_to_vec(key);
            push_chars(&mut prefix, chars_of(".").as_slice());
            walk_members(prefix.as_slice(), m, ord, out);
            proof {
                assert forall|d: Data| #[trigger] holds(*v, d) implies rows(out@) == rows(start) + flat(key@, d, ord) by {
                    assert(members_told(m@, d->Object_0));
                }
            }
            return;
        },
        Value::Text(s) => {
            text = Some(String::from_str(s.as_str()));
        },
        Value::Int(n) => {
            text = Some(signed_decimal(*n));
            numeric = true;
        },
        Value::Decimal(s) => {
            text = Some(String::from_str(s.as_str()));
            numeric = true;
        },
        Value::Bool(b) => {
            text = Some(
                if *b {
                    String::from_str("true")
                } else {
                    String::from_str("false")
                },
            );
        },
        Value::Null => {
            text = None;
        },
    }
    let p = Prop { key: string_of(key), text, numeric, ord };
    out.push(p);
    proof {
        assert forall|d: Data| #[trigger] holds(*v, d) implies rows(out@) == rows(start) + flat(key@, d, ord) by {
            assert(flat(key@, d, ord) == seq![p@]);
            assert(rows(out@) =~= rows(start) + seq![p@]);
        }
    }
}

spec fn items_told(v: Seq<Value>, s: Seq<Data>) -> bool {
    &&& v.len() == s.len()
    &&& forall|i: int| #![trigger v[i]] 0 <= i < v.len() ==> holds(v[i], s[i])
}

fn walk_items(key: &[char], items: &Vec<Value>, out: &mut Vec<Prop>)
    ensures
        forall|s: Seq<Data>| #[trigger]
            items_told(items@, s) ==> rows(final(out)@) == rows(old(out)@) + flat_list(key@, s, s.len() as int),
    decreases items, 1int,
{
    let ghost start = rows(out@);
    let mut i: usize = 0;
    proof {
        assert forall|s: Seq<Data>| #[trigger] items_told(items@, s) implies rows(out@) == start + flat_list(key@, s, 0) by {
            assert(start + Seq::<Row>::empty() =~= start);
        }
    }
    while i < items.len()
        invariant
            i <= items@.len(),
            forall|s: Seq<Data>| #[trigger] items_told(items@, s) ==> rows(out@) == start + flat_list(key@, s, i as int),
        decreases items@.len() - i,
    {
        let at: i64 = if i as u64 <= 9223372036854775807 {
            i as i64
        } else {
            i64::MAX
        };
        let ghost before = rows(out@);
        proof {
            assert(decreases_to!(items => items@[i as int]));
        }
        walk(key, &items[i], at, out);
        proof {
            assert forall|s: Seq<Data>| #[trigger] items_told(items@, s) implies rows(out@) == start + flat_list(key@, s, i + 1) by {
                assert(holds(items@[i as int], s[i as int]));
                let new = flat(key@, s[i as int], at);
                assert(rows(out@) == before + new);
                assert(start + flat_list(key@, s, i as int) + new =~= start + (flat_list(key@, s, i as int) + new));
            }
        }
        i += 1;
    }
}

/// How a term compares.
#[derive(Clone, Copy, Debug, PartialEq, Eq, Structural)]
pub enum Op {
    /// `key:value` — equal, case-insensitively, which is how people expect a vault to behave.
    Eq,
    /// `key:!=value`
    Ne,
    Lt,
    Le,
    Gt,
    Ge,
    /// `key:*` or `has:key` — the property is present, whatever it holds.
    Exists,
    /// `key:val*` — the value starts with this.
    Prefix,
    /// `key:~text` — the value contains this.
    Contains,
}

/// One comparison against one property.
#[derive(Clone, Debug, PartialEq, Eq)]
pub struct Term {
    pub key: String,
    pub op: Op,
    pub value: String,
    /// Whether `value` reads as a number.
    pub numeric: bool,
}

/// A parsed query.
#[derive(Debug, PartialEq, Eq)]
pub enum Expr {
    Term(Term),
    And(Vec<Expr>),
    Or(Vec<Expr>),
    Not(Box<Expr>),
    /// Matches every document that has any front matter — what an empty query means.
    All,
}

#[derive(Debug, PartialEq, Eq)]
pub struct QueryError {
    pub message: String,
    /// Byte offset in the query where it went wrong, for an editor to point at.
    pub at: usize,
}

impl QueryError {
    /// The sentence shown for the error.
    pub fn sentence(&self) -> (r: String)
        ensures
            r@ == self.message@ + " (at "@ + dec(self.at as nat) + ")"@,
    {
        let mut out = String::from_str(self.message.as_str());
        out.append(" (at ");
        out.append(decimal(self.at as u64).as_str());
        out.append(")");
        out
    }
}

/// A comparison as a mathematical value.
#[verifier::ext_equal]
pub struct Filter {
    pub key: Seq<char>,
    pub op: Op,
    pub value: Seq<char>,
    pub numeric: bool,
}

impl View for Term {
    type V = Filter;

    open spec fn view(&self) -> Filter {
        Filter { key: self.key@, op: self.op, value: self.value@, numeric: self.numeric }
    }
}

/// A query as a mathematical value.
pub enum Ask {
    Term(Filter),
    And(Seq<Ask>),
    Or(Seq<Ask>),
    Not(Box<Ask>),
    All,
}

/// The expression `e` asks `a`.
pub open spec fn asks(e: Expr, a: Ask) -> bool
    decreases e,
{
    match (e, a) {
        (Expr::Term(t), Ask::Term(f)) => t@ == f,
        (Expr::And(x), Ask::And(y)) => {
            &&& x@.len() == y.len()
            &&& forall|i: int| #![trigger x@[i]] 0 <= i < x@.len() ==> asks(x@[i], y[i])
        },
        (Expr::Or(x), Ask::Or(y)) => {
            &&& x@.len() == y.len()
            &&& forall|i: int| #![trigger x@[i]] 0 <= i < x@.len() ==> asks(x@[i], y[i])
        },
        (Expr::Not(x), Ask::Not(y)) => asks(*x, *y),
        (Expr::All, Ask::All) => true,
        _ => false,
    }
}

spec fn all_ask(v: Seq<Expr>, s: Seq<Ask>) -> bool {
    &&& v.len() == s.len()
    &&& forall|i: int| #![trigger v[i]] 0 <= i < v.len() ==> asks(v[i], s[i])
}

/// What is wrong with a query, and where.
#[verifier::ext_equal]
pub struct Fault {
    pub message: Seq<char>,
    pub at: int,
}

impl View for QueryError {
    type V = Fault;

    open spec fn view(&self) -> Fault {
        Fault { message: self.message@, at: self.at as int }
    }
}

/// One word, keyword or bracket of a query, and the byte it begins at.
#[verifier::ext_equal]
pub enum Token {
    Word { s: Seq<char>, quoted: bool, at: int },
    And(int),
    Or(int),
    Not(int),
    Open(int),
    Close(int),
}

impl Token {
    pub open spec fn at(self) -> int {
        match self {
            Token::Word { at, .. } => at,
            Token::And(at) => at,
            Token::Or(at) => at,
            Token::Not(at) => at,
            Token::Open(at) => at,
            Token::Close(at) => at,
        }
    }

    pub open spec fn described(self) -> Seq<char> {
        match self {
            Token::Word { s, .. } => "`"@ + s + "`"@,
            Token::And(_) => "AND"@,
            Token::Or(_) => "OR"@,
            Token::Not(_) => "NOT"@,
            Token::Open(_) => "("@,
            Token::Close(_) => ")"@,
        }
    }
}

enum Tok {
    Word { s: String, quoted: bool, at: usize },
    And(usize),
    Or(usize),
    Not(usize),
    Open(usize),
    Close(usize),
}

impl View for Tok {
    type V = Token;

    closed spec fn view(&self) -> Token {
        match self {
            Tok::Word { s, quoted, at } => Token::Word { s: s@, quoted: *quoted, at: *at as int },
            Tok::And(at) => Token::And(*at as int),
            Tok::Or(at) => Token::Or(*at as int),
            Tok::Not(at) => Token::Not(*at as int),
            Tok::Open(at) => Token::Open(*at as int),
            Tok::Close(at) => Token::Close(*at as int),
        }
    }
}

impl Tok {
    fn at(&self) -> (r: usize)
        ensures
            r == self@.at(),
    {
        match self {
            Tok::Word { s, quoted, at } => *at,
            Tok::And(at) => *at,
            Tok::Or(at) => *at,
            Tok::Not(at) => *at,
            Tok::Open(at) => *at,
            Tok::Close(at) => *at,
        }
    }

    fn describe(&self) -> (r: String)
        ensures
            r@ == self@.described(),
    {
        match self {
            Tok::Word { s, quoted, at } => {
                let mut out = String::from_str("`");
                out.append(s.as_str());
                out.append("`");
                out
            },
            Tok::And(_) => String::from_str("AND"),
            Tok::Or(_) => String::from_str("OR"),
            Tok::Not(_) => String::from_str("NOT"),
            Tok::Open(_) => String::from_str("("),
            Tok::Close(_) => String::from_str(")"),
        }
    }
}

/// White space between words.
pub open spec fn gap(c: char) -> bool {
    c == ' ' || c == '\t' || c == '\n' || c == '\u{c}' || c == '\r'
}

fn is_gap(c: char) -> (r: bool)
    ensures
        r == gap(c),
{
    c == ' ' || c == '\t' || c == '\n' || c == '\u{c}' || c == '\r'
}

/// A word as far as it has been read: its text, whether part of it was quoted, and where what
/// follows begins. Without one, a quote was not closed, and this is where.
pub struct Spelled {
    pub s: Seq<char>,
    pub quoted: bool,
    pub end: int,
    pub unclosed: Option<int>,
}

/// The word at place `i`. It runs to white space or a bracket, except inside quotes, and a quoted
/// run may sit in the middle of one so `key:"two words"` is a single word.
pub open spec fn word_from(t: Seq<char>, i: int, s: Seq<char>, quoted: bool) -> Spelled
    decreases t.len() - i,
{
    if i < 0 || i >= t.len() || gap(t[i]) || t[i] == '(' || t[i] == ')' {
        Spelled { s, quoted, end: i, unclosed: None }
    } else if t[i] == '"' {
        let j = next_at(t, '"', i + 1);
        if j >= t.len() || j <= i {
            Spelled { s, quoted: true, end: i, unclosed: Some(i) }
        } else {
            word_from(t, j + 1, s + t.subrange(i + 1, j), true)
        }
    } else {
        word_from(t, i + 1, s.push(t[i]), quoted)
    }
}

/// A word, or the keyword that it is.
pub open spec fn word_token(s: Seq<char>, quoted: bool, at: int) -> Token {
    let low = ascii_lowered(s);
    if !quoted && low == "and"@ {
        Token::And(at)
    } else if !quoted && low == "or"@ {
        Token::Or(at)
    } else if !quoted && low == "not"@ {
        Token::Not(at)
    } else {
        Token::Word { s, quoted, at }
    }
}

/// The tokens of a query from place `i` on, behind those before.
pub open spec fn lexed(t: Seq<char>, i: int, acc: Seq<Token>) -> std::result::Result<Seq<Token>, Fault>
    decreases t.len() - i,
{
    if i < 0 || i >= t.len() {
        Ok(acc)
    } else if gap(t[i]) {
        lexed(t, i + 1, acc)
    } else if t[i] == '(' {
        lexed(t, i + 1, acc.push(Token::Open(byte_at(t, i))))
    } else if t[i] == ')' {
        lexed(t, i + 1, acc.push(Token::Close(byte_at(t, i))))
    } else if t[i] == '-' && i + 1 < t.len() && !gap(t[i + 1]) {
        lexed(t, i + 1, acc.push(Token::Not(byte_at(t, i))))
    } else {
        let w = word_from(t, i, Seq::empty(), false);
        match w.unclosed {
            Some(q) => Err(Fault { message: "unclosed quote"@, at: byte_at(t, q) }),
            None => if w.end <= i || w.end > t.len() {
                Ok(acc)
            } else {
                lexed(t, w.end, acc.push(word_token(w.s, w.quoted, byte_at(t, i))))
            },
        }
    }
}

spec fn tokens(v: Seq<Tok>) -> Seq<Token> {
    Seq::new(v.len(), |i: int| v[i]@)
}

/// Reads the word at place `i`: its text, whether part of it was quoted, and where what follows
/// begins; or where a quote begins that is not closed.
fn read_word(t: &[char], i: usize) -> (r: std::result::Result<(Vec<char>, bool, usize), usize>)
    requires
        i < t@.len(),
        !gap(t@[i as int]),
        t@[i as int] != '(',
        t@[i as int] != ')',
    ensures
        ({
            let w = word_from(t@, i as int, Seq::empty(), false);
            match r {
                Ok(p) => w.unclosed is None && p.0@ == w.s && p.1 == w.quoted && p.2 == w.end && i < p.2 <= t@.len(),
                Err(q) => w.unclosed == Some(q as int) && q < t@.len(),
            }
        }),
{
    let n: usize = t.len();
    let mut s: Vec<char> = Vec::new();
    let mut quoted: bool = false;
    let mut k: usize = i;
    let ghost w = word_from(t@, i as int, Seq::empty(), false);
    assert(s@ =~= Seq::empty());
    while k < n && !is_gap(t[k]) && t[k] != '(' && t[k] != ')'
        invariant
            n == t@.len(),
            i <= k <= n,
            i < n,
            k == i ==> !gap(t@[i as int]) && t@[i as int] != '(' && t@[i as int] != ')',
            w == word_from(t@, k as int, s@, quoted),
            w == word_from(t@, i as int, Seq::empty(), false),
        decreases n - k,
    {
        if t[k] == '"' {
            let j = find_char(t, '"', k + 1);
            if j >= n {
                return Err(k);
            }
            let part = slice_subrange(t, k + 1, j);
            push_chars(&mut s, part);
            quoted = true;
            k = j + 1;
        } else {
            s.push(t[k]);
            k += 1;
        }
    }
    Ok((s, quoted, k))
}

fn lex(input: &str) -> (r: std::result::Result<Vec<Tok>, QueryError>)
    ensures
        match r {
            Ok(v) => lexed(input@, 0, Seq::empty()) == Ok::<Seq<Token>, Fault>(tokens(v@)),
            Err(e) => lexed(input@, 0, Seq::empty()) == Err::<Seq<Token>, Fault>(e@),
        },
{
    let t = chars_of(input);
    let offs = byte_offsets(input, &t);
    let n: usize = t.len();
    let mut out: Vec<Tok> = Vec::new();
    let mut i: usize = 0;
    assert(tokens(out@) =~= Seq::empty());
    while i < n
        invariant
            n == t@.len(),
            t@ == input@,
            i <= n,
            offs@.len() == n + 1,
            forall|k: int| 0 <= k <= n ==> (#[trigger] offs@[k]) == byte_at(t@, k),
            lexed(t@, 0, Seq::empty()) == lexed(t@, i as int, tokens(out@)),
        decreases n - i,
    {
        let c = t[i];
        let at: usize = offs[i];
        let ghost before = out@;
        if is_gap(c) {
            i += 1;
        } else if c == '(' {
            let x = Tok::Open(at);
            out.push(x);
            assert(tokens(out@) =~= tokens(before).push(x@));
            i += 1;
        } else if c == ')' {
            let x = Tok::Close(at);
            out.push(x);
            assert(tokens(out@) =~= tokens(before).push(x@));
            i += 1;
        } else if c == '-' && n - i > 1 && !is_gap(t[i + 1]) {
            // Obsidian's `-term`. A bare `-` is just text (a value may legitimately be one).
            let x = Tok::Not(at);
            out.push(x);
            assert(tokens(out@) =~= tokens(before).push(x@));
            i += 1;
        } else {
            match read_word(t.as_slice(), i) {
                Ok((s, quoted, end)) => {
                    let low = to_ascii_lowered(s.as_slice());
                    let x = if !quoted && same_chars(low.as_slice(), chars_of("and").as_slice()) {
                        Tok::And(at)
                    } else if !quoted && same_chars(low.as_slice(), chars_of("or").as_slice()) {
                        Tok::Or(at)
                    } else if !quoted && same_chars(low.as_slice(), chars_of("not").as_slice()) {
                        Tok::Not(at)
                    } else {
                        Tok::Word { s: string_of(s.as_slice()), quoted, at }
                    };
                    out.push(x);
                    assert(tokens(out@) =~= tokens(before).push(x@));
                    i = end;
                },
                Err(q) => {
                    return Err(QueryError { message: String::from_str("unclosed quote"), at: offs[q] });
                },
            }
        }
    }
    Ok(out)
}

/// What an unquoted value asks for, by the sign before or the star behind it.
pub open spec fn value_op(raw: Seq<char>) -> (Op, Seq<char>) {
    if raw == "*"@ {
        (Op::Exists, Seq::empty())
    } else if begins(raw, ">="@) {
        (Op::Ge, raw.skip(2))
    } else if begins(raw, "<="@) {
        (Op::Le, raw.skip(2))
    } else if begins(raw, "!="@) {
        (Op::Ne, raw.skip(2))
    } else if raw.len() > 0 && raw[0] == '>' {
        (Op::Gt, raw.skip(1))
    } else if raw.len() > 0 && raw[0] == '<' {
        (Op::Lt, raw.skip(1))
    } else if raw.len() > 0 && raw[0] == '~' {
        (Op::Contains, raw.skip(1))
    } else if raw.len() > 0 && raw.last() == '*' {
        (Op::Prefix, raw.drop_last())
    } else {
        (Op::Eq, raw)
    }
}

/// Does a text read as a floating-point number?
pub open spec fn float_text(s: Seq<char>) -> bool {
    let low = ascii_lowered(unsigned(s));
    decimal_number(s) || low == "inf"@ || low == "infinity"@ || low == "nan"@
}

/// What one word of a query filters by.
pub open spec fn filter_of(word: Seq<char>, quoted: bool, at: int) -> std::result::Result<Filter, Fault> {
    let colon = next_at(word, ':', 0);
    let key = word.take(colon);
    let raw = word.skip(colon + 1);
    if begins(word, "has:"@) || begins(word, "HAS:"@) {
        let rest = word.skip(4);
        if rest.len() == 0 {
            Err(Fault { message: "has: needs a property name"@, at })
        } else {
            Ok(Filter { key: rest, op: Op::Exists, value: Seq::empty(), numeric: false })
        }
    } else if colon >= word.len() {
        Err(Fault { message: "`"@ + word + "` is not a property filter — write key:value, or has:key"@, at })
    } else if key.len() == 0 {
        Err(Fault { message: "a filter needs a property name before the colon"@, at })
    } else {
        let (op, value) = if quoted { (Op::Eq, raw) } else { value_op(raw) };
        if value.len() == 0 && op != Op::Exists {
            Err(
                Fault {
                    message: "`"@ + word + "` has no value — write "@ + key + ":something, or "@ + key + ":* for any"@,
                    at,
                },
            )
        } else {
            Ok(Filter { key, op, value, numeric: float_text(value) })
        }
    }
}

fn is_float_text(s: &[char]) -> (r: bool)
    ensures
        r == float_text(s@),
{
    if is_decimal_number(s) {
        return true;
    }
    let from: usize = if s.len() > 0 && (s[0] == '+' || s[0] == '-') {
        1
    } else {
        0
    };
    let t = slice_subrange(s, from, s.len());
    assert(t@ =~= unsigned(s@));
    let low = to_ascii_lowered(t);
    let l = low.as_slice();
    same_chars(l, chars_of("inf").as_slice()) || same_chars(l, chars_of("infinity").as_slice()) || same_chars(
        l,
        chars_of("nan").as_slice(),
    )
}

fn tail_from(s: &[char], n: usize) -> (r: &[char])
    requires
        n <= s@.len(),
    ensures
        r@ == s@.skip(n as int),
{
    let t = slice_subrange(s, n, s.len());
    assert(t@ =~= s@.skip(n as int));
    t
}

fn read_value<'a>(raw: &'a [char]) -> (r: (Op, &'a [char]))
    ensures
        (r.0, r.1@) == value_op(raw@),
{
    let n: usize = raw.len();
    proof {
        reveal_strlit(">=");
        reveal_strlit("<=");
        reveal_strlit("!=");
    }
    if same_chars(raw, chars_of("*").as_slice()) {
        let e = slice_subrange(raw, 0, 0);
        assert(e@ =~= Seq::empty());
        (Op::Exists, e)
    } else if begins_with(raw, chars_of(">=").as_slice()) {
        (Op::Ge, tail_from(raw, 2))
    } else if begins_with(raw, chars_of("<=").as_slice()) {
        (Op::Le, tail_from(raw, 2))
    } else if begins_with(raw, chars_of("!=").as_slice()) {
        (Op::Ne, tail_from(raw, 2))
    } else if n > 0 && raw[0] == '>' {
        (Op::Gt, tail_from(raw, 1))
    } else if n > 0 && raw[0] == '<' {
        (Op::Lt, tail_from(raw, 1))
    } else if n > 0 && raw[0] == '~' {
        (Op::Contains, tail_from(raw, 1))
    } else if n > 0 && raw[n - 1] == '*' {
        let h = slice_subrange(raw, 0, n - 1);
        assert(h@ =~= raw@.drop_last());
        (Op::Prefix, h)
    } else {
        (Op::Eq, raw)
    }
}

fn term(word: &str, quoted: bool, at: usize) -> (r: std::result::Result<Term, QueryError>)
    ensures
        match r {
            Ok(t) => filter_of(word@, quoted, at as int) == Ok::<Filter, Fault>(t@),
            Err(e) => filter_of(word@, quoted, at as int) == Err::<Filter, Fault>(e@),
        },
{
    let w = chars_of(word);
    let s = w.as_slice();
    proof {
        reveal_strlit("has:");
        reveal_strlit("HAS:");
    }
    // `has:key` reads better than `key:*` and Obsidian users type both.
    if begins_with(s, chars_of("has:").as_slice()) || begins_with(s, chars_of("HAS:").as_slice()) {
        let rest = tail_from(s, 4);
        if rest.len() == 0 {
            return Err(QueryError { message: String::from_str("has: needs a property name"), at });
        }
        let t = Term { key: string_of(rest), op: Op::Exists, value: String::new(), numeric: false };
        assert(t@ =~= (Filter { key: rest@, op: Op::Exists, value: Seq::empty(), numeric: false }));
        return Ok(t);
    }
    let colon = find_char(s, ':', 0);
    if colon >= s.len() {
        let mut m = String::from_str("`");
        m.append(word);
        m.append("` is not a property filter — write key:value, or has:key");
        return Err(QueryError { message: m, at });
    }
    let key = slice_subrange(s, 0, colon);
    assert(key@ =~= s@.take(colon as int));
    if key.len() == 0 {
        return Err(QueryError { message: String::from_str("a filter needs a property name before the colon"), at });
    }
    let raw = tail_from(s, colon + 1);
    let (op, value): (Op, &[char]) = if quoted {
        (Op::Eq, raw)
    } else {
        read_value(raw)
    };
    if value.len() == 0 && op != Op::Exists {
        let k = string_of(key);
        let mut m = String::from_str("`");
        m.append(word);
        m.append("` has no value — write ");
        m.append(k.as_str());
        m.append(":something, or ");
        m.append(k.as_str());
        m.append(":* for any");
        return Err(QueryError { message: m, at });
    }
    let numeric = is_float_text(value);
    Ok(Term { key: string_of(key), op, value: string_of(value), numeric })
}

/// An expression read from some tokens, and the place of the next one.
pub type Read = std::result::Result<(Ask, int), Fault>;

/// Several parts in one; a single one stands for itself.
pub open spec fn joined_or(parts: Seq<Ask>) -> Ask {
    if parts.len() == 1 {
        parts[0]
    } else {
        Ask::Or(parts)
    }
}

pub open spec fn joined_and(parts: Seq<Ask>) -> Ask {
    if parts.len() == 1 {
        parts[0]
    } else {
        Ask::And(parts)
    }
}

/// A place that is not before `i`, and not behind the end unless `i` is.
pub open spec fn onward(j: int, i: int, n: int) -> int {
    if n < i {
        i
    } else {
        bounded(j, i, n)
    }
}

/// Alternatives, separated by `OR`.
pub open spec fn read_or(ts: Seq<Token>, i: int) -> Read
    decreases ts.len() - i, 4int,
{
    match read_and(ts, i) {
        Err(e) => Err(e),
        Ok((e, j)) => more_or(ts, onward(j, i, ts.len() as int), seq![e]),
    }
}

pub open spec fn more_or(ts: Seq<Token>, i: int, parts: Seq<Ask>) -> Read
    decreases ts.len() - i, 3int,
{
    if 0 <= i < ts.len() && ts[i] is Or {
        match read_and(ts, i + 1) {
            Err(e) => Err(e),
            Ok((e, j)) => more_or(ts, bounded(j, i + 1, ts.len() as int), parts.push(e)),
        }
    } else {
        Ok((joined_or(parts), i))
    }
}

/// Terms that all hold. `AND` is also implicit: two terms side by side mean both, as they do in
/// Obsidian.
pub open spec fn read_and(ts: Seq<Token>, i: int) -> Read
    decreases ts.len() - i, 3int,
{
    match read_unary(ts, i) {
        Err(e) => Err(e),
        Ok((e, j)) => more_and(ts, onward(j, i, ts.len() as int), seq![e]),
    }
}

pub open spec fn more_and(ts: Seq<Token>, i: int, parts: Seq<Ask>) -> Read
    decreases ts.len() - i, 2int,
{
    if 0 <= i < ts.len() && (ts[i] is And || ts[i] is Word || ts[i] is Not || ts[i] is Open) {
        match read_unary(ts, if ts[i] is And { i + 1 } else { i }) {
            Err(e) => Err(e),
            Ok((e, j)) => more_and(ts, bounded(j, i + 1, ts.len() as int), parts.push(e)),
        }
    } else {
        Ok((joined_and(parts), i))
    }
}

/// A term, or what it negates.
pub open spec fn read_unary(ts: Seq<Token>, i: int) -> Read
    decreases ts.len() - i, 1int,
{
    if 0 <= i < ts.len() && ts[i] is Not {
        match read_unary(ts, i + 1) {
            Err(e) => Err(e),
            Ok((e, j)) => Ok((Ask::Not(Box::new(e)), j)),
        }
    } else {
        read_atom(ts, i)
    }
}

/// A term, or an expression in brackets.
pub open spec fn read_atom(ts: Seq<Token>, i: int) -> Read
    decreases ts.len() - i, 0int,
{
    if i < 0 || i >= ts.len() {
        Err(Fault { message: "the query ends early"@, at: if ts.len() > 0 { ts.last().at() } else { 0 } })
    } else {
        match ts[i] {
            Token::Open(at) => match read_or(ts, i + 1) {
                Err(e) => Err(e),
                Ok((e, j)) => if 0 <= j < ts.len() && ts[j] is Close {
                    Ok((e, j + 1))
                } else {
                    Err(Fault { message: "unclosed ("@, at })
                },
            },
            Token::Word { s, quoted, at } => match filter_of(s, quoted, at) {
                Ok(f) => Ok((Ask::Term(f), i + 1)),
                Err(e) => Err(e),
            },
            t => Err(Fault { message: "expected a term, found "@ + t.described(), at: t.at() }),
        }
    }
}

/// What a query asks.
pub open spec fn asked(input: Seq<char>) -> std::result::Result<Ask, Fault> {
    match lexed(input, 0, Seq::empty()) {
        Err(e) => Err(e),
        Ok(ts) => if ts.len() == 0 {
            Ok(Ask::All)
        } else {
            match read_or(ts, 0) {
                Err(e) => Err(e),
                Ok((e, j)) => if j < ts.len() {
                    Err(Fault { message: "unexpected "@ + ts[j].described(), at: ts[j].at() })
                } else {
                    Ok(e)
                },
            }
        },
    }
}

/// An expression that was read, behind at least one token.
spec fn read_told(r: std::result::Result<(Expr, usize), QueryError>, want: Read, i: int, n: int) -> bool {
    match r {
        Ok(p) => want matches Ok(w) && asks(p.0, w.0) && p.1 == w.1 && i < p.1 <= n,
        Err(e) => want == Err::<(Ask, int), Fault>(e@),
    }
}

fn parse_or(ts: &Vec<Tok>, i: usize) -> (r: std::result::Result<(Expr, usize), QueryError>)
    requires
        i <= ts@.len(),
    ensures
        read_told(r, read_or(tokens(ts@), i as int), i as int, ts@.len() as int),
    decreases ts@.len() - i, 4int,
{
    let ghost tv = tokens(ts@);
    let n: usize = ts.len();
    let mut parts: Vec<Expr> = Vec::new();
    let (first, next): (Expr, usize) = match parse_and(ts, i) {
        Ok(p) => p,
        Err(e) => {
            return Err(e);
        },
    };
    let ghost mut told = seq![(read_and(tv, i as int)->Ok_0).0];
    parts.push(first);
    let mut j: usize = next;
    while j < n && is_or(&ts[j])
        invariant
            n == ts@.len(),
            i < j <= n,
            tv == tokens(ts@),
            all_ask(parts@, told),
            parts@.len() > 0,
            read_or(tv, i as int) == more_or(tv, j as int, told),
        decreases n - j,
    {
        assert(tv[j as int] == ts@[j as int]@);
        let ghost before = parts@;
        let ghost told0 = told;
        let (e, k): (Expr, usize) = match parse_and(ts, j + 1) {
            Ok(p) => p,
            Err(e) => {
                return Err(e);
            },
        };
        proof {
            told = told0.push((read_and(tv, j + 1)->Ok_0).0);
        }
        parts.push(e);
        proof {
            lemma_all_ask_push(before, told0, e, (read_and(tv, j + 1)->Ok_0).0);
        }
        j = k;
    }
    proof {
        if j < n {
            assert(tv[j as int] == ts@[j as int]@);
        }
    }
    if parts.len() == 1 {
        let e = parts.pop().unwrap();
        Ok((e, j))
    } else {
        Ok((Expr::Or(parts), j))
    }
}

proof fn lemma_all_ask_push(v: Seq<Expr>, s: Seq<Ask>, e: Expr, a: Ask)
    requires
        all_ask(v, s),
        asks(e, a),
    ensures
        all_ask(v.push(e), s.push(a)),
{
    let w = v.push(e);
    let t = s.push(a);
    assert forall|i: int| #![trigger w[i]] 0 <= i < w.len() implies asks(w[i], t[i]) by {
        if i < v.len() {
            assert(w[i] == v[i]);
        }
    }
}

fn is_or(t: &Tok) -> (r: bool)
    ensures
        r == (t@ is Or),
{
    match t {
        Tok::Or(_) => true,
        _ => false,
    }
}

fn is_and(t: &Tok) -> (r: bool)
    ensures
        r == (t@ is And),
{
    match t {
        Tok::And(_) => true,
        _ => false,
    }
}

fn begins_term(t: &Tok) -> (r: bool)
    ensures
        r == (t@ is Word || t@ is Not || t@ is Open),
{
    match t {
        Tok::Word { s, quoted, at } => true,
        Tok::Not(_) => true,
        Tok::Open(_) => true,
        _ => false,
    }
}

fn parse_and(ts: &Vec<Tok>, i: usize) -> (r: std::result::Result<(Expr, usize), QueryError>)
    requires
        i <= ts@.len(),
    ensures
        read_told(r, read_and(tokens(ts@), i as int), i as int, ts@.len() as int),
    decreases ts@.len() - i, 3int,
{
    let ghost tv = tokens(ts@);
    let n: usize = ts.len();
    let mut parts: Vec<Expr> = Vec::new();
    let (first, next): (Expr, usize) = match parse_unary(ts, i) {
        Ok(p) => p,
        Err(e) => {
            return Err(e);
        },
    };
    let ghost mut told = seq![(read_unary(tv, i as int)->Ok_0).0];
    parts.push(first);
    let mut j: usize = next;
    while j < n && (is_and(&ts[j]) || begins_term(&ts[j]))
        invariant
            n == ts@.len(),
            i < j <= n,
            tv == tokens(ts@),
            all_ask(parts@, told),
            parts@.len() > 0,
            read_and(tv, i as int) == more_and(tv, j as int, told),
        decreases n - j,
    {
        assert(tv[j as int] == ts@[j as int]@);
        let ghost before = parts@;
        let ghost told0 = told;
        let from: usize = if is_and(&ts[j]) {
            j + 1
        } else {
            j
        };
        let (e, k): (Expr, usize) = match parse_unary(ts, from) {
            Ok(p) => p,
            Err(e) => {
                return Err(e);
            },
        };
        proof {
            told = told0.push((read_unary(tv, from as int)->Ok_0).0);
        }
        parts.push(e);
        proof {
            lemma_all_ask_push(before, told0, e, (read_unary(tv, from as int)->Ok_0).0);
        }
        j = k;
    }
    proof {
        if j < n {
            assert(tv[j as int] == ts@[j as int]@);
        }
    }
    if parts.len() == 1 {
        let e = parts.pop().unwrap();
        Ok((e, j))
    } else {
        Ok((Expr::And(parts), j))
    }
}

fn parse_unary(ts: &Vec<Tok>, i: usize) -> (r: std::result::Result<(Expr, usize), QueryError>)
    requires
        i <= ts@.len(),
    ensures
        read_told(r, read_unary(tokens(ts@), i as int), i as int, ts@.len() as int),
    decreases ts@.len() - i, 1int,
{
    if i < ts.len() {
        assert(tokens(ts@)[i as int] == ts@[i as int]@);
        match &ts[i] {
            Tok::Not(_) => {
                return match parse_unary(ts, i + 1) {
                    Ok((e, j)) => Ok((Expr::Not(Box::new(e)), j)),
                    Err(e) => Err(e),
                };
            },
            _ => {},
        }
    }
    parse_atom(ts, i)
}

fn parse_atom(ts: &Vec<Tok>, i: usize) -> (r: std::result::Result<(Expr, usize), QueryError>)
    requires
        i <= ts@.len(),
    ensures
        read_told(r, read_atom(tokens(ts@), i as int), i as int, ts@.len() as int),
    decreases ts@.len() - i, 0int,
{
    let ghost tv = tokens(ts@);
    let n: usize = ts.len();
    if i >= n {
        let at: usize = if n > 0 {
            assert(tv.last() == ts@[n - 1]@);
            ts[n - 1].at()
        } else {
            0
        };
        return Err(QueryError { message: String::from_str("the query ends early"), at });
    }
    assert(tv[i as int] == ts@[i as int]@);
    match &ts[i] {
        Tok::Open(at) => {
            let (e, j): (Expr, usize) = match parse_or(ts, i + 1) {
                Ok(p) => p,
                Err(e) => {
                    return Err(e);
                },
            };
            if j < n {
                assert(tv[j as int] == ts@[j as int]@);
                match &ts[j] {
                    Tok::Close(_) => {
                        return Ok((e, j + 1));
                    },
                    _ => {},
                }
            }
            Err(QueryError { message: String::from_str("unclosed ("), at: *at })
        },
        Tok::Word { s, quoted, at } => {
            match term(s.as_str(), *quoted, *at) {
                Ok(t) => Ok((Expr::Term(t), i + 1)),
                Err(e) => Err(e),
            }
        },
        t => {
            let mut m = String::from_str("expected a term, found ");
            m.append(t.describe().as_str());
            Err(QueryError { message: m, at: t.at() })
        },
    }
}

/// Parse a query.
///
/// Deliberately the shape people already type in Obsidian rather than something new:
///
/// ```text
/// status:draft                     a property equals a value
/// tags:telco                       a list contains a value — lists are rows, so this is Eq
/// project.name:atlas               nested properties are dotted
/// title:"quarterly review"         quote a value with spaces
/// priority:>3   due:<=2026-10-01   comparisons; numeric when both sides are numbers
/// has:budget    budget:*           the property exists at all
/// name:proj*    notes:~telco       starts with, contains
/// status:draft tags:telco          space means AND
/// status:draft OR status:review    explicit OR
/// -status:archived                 NOT, either as `-` or as the word
/// (a OR b) AND NOT c               grouping
/// ```
///
/// An empty query is [`Expr::All`] rather than an error: the UI asks with an empty box first,
/// and "everything" is the honest answer to "no filter".
pub fn parse(input: &str) -> (r: std::result::Result<Expr, QueryError>)
    ensures
        match r {
            Ok(e) => asked(input@) matches Ok(a) && asks(e, a),
            Err(e) => asked(input@) == Err::<Ask, Fault>(e@),
        },
{
    let ts = match lex(input) {
        Ok(v) => v,
        Err(e) => {
            return Err(e);
        },
    };
    if ts.len() == 0 {
        return Ok(Expr::All);
    }
    let (e, j): (Expr, usize) = match parse_or(&ts, 0) {
        Ok(p) => p,
        Err(e) => {
            return Err(e);
        },
    };
    if j < ts.len() {
        assert(tokens(ts@)[j as int] == ts@[j as int]@);
        let mut m = String::from_str("unexpected ");
        m.append(ts[j].describe().as_str());
        return Err(QueryError { message: m, at: ts[j].at() });
    }
    Ok(e)
}


/// Every expression asks something, so what is said of what an expression asks is said of every
/// expression.
pub proof fn law_expr_asks(e: Expr)
    ensures
        exists|a: Ask| asks(e, a),
    decreases e,
{
    match e {
        Expr::Term(t) => {
            assert(asks(e, Ask::Term(t@)));
        },
        Expr::And(x) => {
            assert forall|i: int| 0 <= i < x@.len() implies exists|a: Ask| asks(#[trigger] x@[i], a) by {
                assert(decreases_to!(x => x@[i]));
                law_expr_asks(x@[i]);
            }
            let s = Seq::new(x@.len(), |i: int| choose|a: Ask| asks(x@[i], a));
            assert(asks(e, Ask::And(s)));
        },
        Expr::Or(x) => {
            assert forall|i: int| 0 <= i < x@.len() implies exists|a: Ask| asks(#[trigger] x@[i], a) by {
                assert(decreases_to!(x => x@[i]));
                law_expr_asks(x@[i]);
            }
            let s = Seq::new(x@.len(), |i: int| choose|a: Ask| asks(x@[i], a));
            assert(asks(e, Ask::Or(s)));
        },
        Expr::Not(x) => {
            law_expr_asks(*x);
            let a = choose|a: Ask| asks(*x, a);
            assert(asks(e, Ask::Not(Box::new(a))));
        },
        Expr::All => {
            assert(asks(e, Ask::All));
        },
    }
}

} // verus!
