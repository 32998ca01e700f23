//! A query that is written down is read as what it says.

use vstd::prelude::*;
use vstd::string::*;
use crate::chars::{
    ascii_lowered, begins, is_digit, law_number_reads_back, lemma_next_at, next_at, signed_dec, stands_at,
};
use crate::md::query::{
    asked, filter_of, float_text, gap, joined_and, joined_or, lexed, more_and, more_or, onward, read_and, read_or,
    read_unary, value_op, word_from, word_token, Ask, Fault, Filter, Op, Token,
};
use crate::md::yaml::{digit_run, unsigned};
use crate::pg::store::lacks;
use crate::text::dec;

verus! {

/// A character that stands for itself in a word.
pub open spec fn word_char(c: char) -> bool {
    !gap(c) && c != '(' && c != ')' && c != '"'
}

/// Text that needs no quotes.
pub open spec fn bare(s: Seq<char>) -> bool {
    forall|i: int| 0 <= i < s.len() ==> word_char(#[trigger] s[i])
}

/// A property name that a filter can be written for. `has` before a colon asks for a property, and
/// a minus sign before a name is a negation.
pub open spec fn key_ok(k: Seq<char>) -> bool {
    k.len() > 0 && bare(k) && lacks(k, ':') && k[0] != '-' && k != "has"@ && k != "HAS"@
}

/// Text that does not begin like a comparison.
pub open spec fn unsigned_start(v: Seq<char>) -> bool {
    v.len() > 0 && v[0] != '<' && v[0] != '>' && v[0] != '~' && !begins(v, "!="@)
}

/// A value that means itself without quotes.
pub open spec fn plain_value(v: Seq<char>) -> bool {
    bare(v) && unsigned_start(v) && v.last() != '*'
}

/// A comparison that can be written.
pub open spec fn writable(f: Filter) -> bool {
    let v = f.value;
    &&& key_ok(f.key)
    &&& f.numeric == float_text(v)
    &&& match f.op {
        Op::Eq => v.len() > 0 && (plain_value(v) || lacks(v, '"')),
        Op::Ne | Op::Le | Op::Ge | Op::Contains => v.len() > 0 && bare(v),
        Op::Lt | Op::Gt => v.len() > 0 && bare(v) && v[0] != '=',
        Op::Prefix => bare(v) && unsigned_start(v),
        Op::Exists => v.len() == 0,
    }
}

/// A comparison as a word: the name, a colon, and the value with its sign before it or its star
/// behind it.
pub open spec fn term_word(f: Filter) -> Seq<char> {
    f.key + match f.op {
        Op::Eq => ":"@ + f.value,
        Op::Ne => ":!="@ + f.value,
        Op::Lt => ":<"@ + f.value,
        Op::Le => ":<="@ + f.value,
        Op::Gt => ":>"@ + f.value,
        Op::Ge => ":>="@ + f.value,
        Op::Exists => ":*"@,
        Op::Prefix => ":"@ + f.value + "*"@,
        Op::Contains => ":~"@ + f.value,
    }
}

/// Does a comparison take its value from quotes?
pub open spec fn needs_quotes(f: Filter) -> bool {
    f.op == Op::Eq && !plain_value(f.value)
}

/// A comparison as it is typed.
pub open spec fn term_spelling(f: Filter) -> Seq<char> {
    if needs_quotes(f) {
        f.key + ":\""@ + f.value + "\""@
    } else {
        term_word(f)
    }
}

/// The first colon of a word ends its key.
proof fn lemma_key_end(k: Seq<char>, rest: Seq<char>)
    requires
        key_ok(k),
    ensures
        ({
            let w = k + ":"@ + rest;
            &&& next_at(w, ':', 0) == k.len()
            &&& w.take(k.len() as int) == k
            &&& w.skip(k.len() as int + 1) == rest
            &&& !begins(w, "has:"@)
            &&& !begins(w, "HAS:"@)
            &&& k.len() < w.len()
        }),
{
    reveal_strlit(":");
    reveal_strlit("has:");
    reveal_strlit("HAS:");
    reveal_strlit("has");
    reveal_strlit("HAS");
    let w = k + ":"@ + rest;
    let n = k.len() as int;
    lemma_next_at(w, ':', 0);
    let i = next_at(w, ':', 0);
    assert(w[n] == ':');
    if i < n {
        assert(w[i] == k[i]);
    }
    assert(w.take(n) =~= k);
    assert(w.skip(n + 1) =~= rest);
    if begins(w, "has:"@) || begins(w, "HAS:"@) {
        let p = w.take(4);
        assert(p[0] == w[0] && p[1] == w[1] && p[2] == w[2] && p[3] == w[3]);
        assert(n == 3);
        if begins(w, "has:"@) {
            assert(k =~= "has"@);
        } else {
            assert(k =~= "HAS"@);
        }
    }
}

/// The sign before a value is the operator: `<` is below, `<=` below or equal, `>` above, `>=` above
/// or equal, `!=` different, `~` contains; a star behind it is a beginning, and a star alone any
/// value.
#[verifier::rlimit(60)]
pub proof fn law_signs_tell_operators(v: Seq<char>)
    requires
        v.len() > 0,
    ensures
        v[0] != '=' ==> value_op("<"@ + v) == (Op::Lt, v),
        value_op("<="@ + v) == (Op::Le, v),
        v[0] != '=' ==> value_op(">"@ + v) == (Op::Gt, v),
        value_op(">="@ + v) == (Op::Ge, v),
        value_op("!="@ + v) == (Op::Ne, v),
        value_op("~"@ + v) == (Op::Contains, v),
        unsigned_start(v) ==> value_op(v + "*"@) == (Op::Prefix, v),
        unsigned_start(v) && v.last() != '*' ==> value_op(v) == (Op::Eq, v),
        value_op("*"@) == (Op::Exists, Seq::<char>::empty()),
{
    reveal_strlit("<");
    reveal_strlit("<=");
    reveal_strlit(">");
    reveal_strlit(">=");
    reveal_strlit("!=");
    reveal_strlit("~");
    reveal_strlit("*");
    lemma_sign("<"@, v);
    lemma_sign("<="@, v);
    lemma_sign(">"@, v);
    lemma_sign(">="@, v);
    lemma_sign("!="@, v);
    lemma_sign("~"@, v);
    let p = v + "*"@;
    lemma_begins_two(p);
    lemma_begins_two(v);
    lemma_begins_two("<"@ + v);
    lemma_begins_two("<="@ + v);
    lemma_begins_two(">"@ + v);
    lemma_begins_two(">="@ + v);
    lemma_begins_two("!="@ + v);
    lemma_begins_two("~"@ + v);
    assert(p.drop_last() =~= v);
    assert(p[0] == v[0]);
    if v.len() > 1 {
        assert(p[1] == v[1]);
    }
    assert(p.len() == v.len() + 1);
    assert(p != "*"@);
    assert(v == "*"@ ==> v.last() == '*');
}

proof fn lemma_sign(sign: Seq<char>, v: Seq<char>)
    requires
        v.len() > 0,
    ensures
        (sign + v).skip(sign.len() as int) == v,
        forall|i: int| 0 <= i < sign.len() ==> (sign + v)[i] == sign[i],
        (sign + v)[sign.len() as int] == v[0],
        (sign + v).len() == sign.len() + v.len(),
{
    assert((sign + v).skip(sign.len() as int) =~= v);
}

/// What it is to begin with a sign of two characters.
proof fn lemma_begins_two(s: Seq<char>)
    ensures
        begins(s, ">="@) <==> s.len() >= 2 && s[0] == '>' && s[1] == '=',
        begins(s, "<="@) <==> s.len() >= 2 && s[0] == '<' && s[1] == '=',
        begins(s, "!="@) <==> s.len() >= 2 && s[0] == '!' && s[1] == '=',
{
    reveal_strlit("<=");
    reveal_strlit(">=");
    reveal_strlit("!=");
    if s.len() >= 2 {
        let t = s.take(2);
        assert(t[0] == s[0] && t[1] == s[1]);
        if s[0] == '>' && s[1] == '=' {
            assert(t =~= ">="@);
        }
        if s[0] == '<' && s[1] == '=' {
            assert(t =~= "<="@);
        }
        if s[0] == '!' && s[1] == '=' {
            assert(t =~= "!="@);
        }
    }
}

/// The word of a comparison is read as the comparison.
#[verifier::rlimit(60)]
proof fn lemma_term_read(f: Filter, at: int)
    requires
        writable(f),
    ensures
        filter_of(term_word(f), needs_quotes(f), at) == Ok::<Filter, Fault>(f),
{
    reveal_strlit(":");
    reveal_strlit(":!=");
    reveal_strlit(":<");
    reveal_strlit(":<=");
    reveal_strlit(":>");
    reveal_strlit(":>=");
    reveal_strlit(":~");
    reveal_strlit(":*");
    reveal_strlit("<");
    reveal_strlit("<=");
    reveal_strlit(">");
    reveal_strlit(">=");
    reveal_strlit("!=");
    reveal_strlit("~");
    reveal_strlit("*");
    let v = f.value;
    let rest = match f.op {
        Op::Eq => v,
        Op::Ne => "!="@ + v,
        Op::Lt => "<"@ + v,
        Op::Le => "<="@ + v,
        Op::Gt => ">"@ + v,
        Op::Ge => ">="@ + v,
        Op::Exists => "*"@,
        Op::Prefix => v + "*"@,
        Op::Contains => "~"@ + v,
    };
    assert(term_word(f) =~= f.key + ":"@ + rest);
    lemma_key_end(f.key, rest);
    if v.len() > 0 {
        law_signs_tell_operators(v);
    } else {
        let x = seq!['x'];
        law_signs_tell_operators(x);
        assert(v =~= Seq::empty());
    }
}

/// A property can also be asked for by `has:`.
pub proof fn law_has_asks_for_property(key: Seq<char>, quoted: bool, at: int)
    requires
        key.len() > 0,
    ensures
        filter_of("has:"@ + key, quoted, at) == Ok::<Filter, Fault>(
            Filter { key, op: Op::Exists, value: Seq::empty(), numeric: false },
        ),
{
    reveal_strlit("has:");
    let w = "has:"@ + key;
    assert(w.take(4) =~= "has:"@);
    assert(w.skip(4) =~= key);
}

/// A query that can be written: conjunctions and disjunctions have at least two parts.
pub open spec fn written(a: Ask) -> bool
    decreases a,
{
    match a {
        Ask::Term(f) => writable(f),
        Ask::Not(b) => written(*b),
        Ask::And(s) => s.len() >= 2 && forall|i: int| 0 <= i < s.len() ==> written(#[trigger] s[i]),
        Ask::Or(s) => s.len() >= 2 && forall|i: int| 0 <= i < s.len() ==> written(#[trigger] s[i]),
        Ask::All => false,
    }
}

/// What stands between parts.
pub enum Joiner {
    Blank,
    And,
    Or,
}

pub open spec fn joiner_text(j: Joiner) -> Seq<char> {
    match j {
        Joiner::Blank => " "@,
        Joiner::And => " AND "@,
        Joiner::Or => " OR "@,
    }
}

/// How conjunctions and negations are typed: with `AND` and `NOT`, or with a blank and a minus sign.
pub struct Style {
    pub words: bool,
}

impl Style {
    pub open spec fn both(self) -> Joiner {
        if self.words {
            Joiner::And
        } else {
            Joiner::Blank
        }
    }

    pub open spec fn negation(self) -> Seq<char> {
        if self.words {
            "NOT "@
        } else {
            "-"@
        }
    }
}

/// A query as it is typed where a disjunction may stand (`level` 0), a conjunction (1), or neither
/// (2): what may not stand there is in brackets.
pub open spec fn spelled(a: Ask, level: int, st: Style) -> Seq<char>
    decreases a, 0int,
{
    match a {
        Ask::Term(f) => term_spelling(f),
        Ask::Not(b) => st.negation() + spelled(*b, 2, st),
        Ask::And(s) => {
            let text = spelled_parts(s, s.len() as int, 2, st.both(), st);
            if level <= 1 {
                text
            } else {
                "("@ + text + ")"@
            }
        },
        Ask::Or(s) => {
            let text = spelled_parts(s, s.len() as int, 1, Joiner::Or, st);
            if level <= 0 {
                text
            } else {
                "("@ + text + ")"@
            }
        },
        Ask::All => Seq::empty(),
    }
}

/// The first `k` of some parts as they are typed.
pub open spec fn spelled_parts(s: Seq<Ask>, k: int, level: int, j: Joiner, st: Style) -> Seq<char>
    decreases s, k,
{
    if k <= 0 || k > s.len() {
        Seq::empty()
    } else if k == 1 {
        spelled(s[0], level, st)
    } else {
        spelled_parts(s, k - 1, level, j, st) + joiner_text(j) + spelled(s[k - 1], level, st)
    }
}

/// A token wherever it stands.
spec fn anywhere(t: Token) -> Token {
    match t {
        Token::Word { s, quoted, .. } => Token::Word { s, quoted, at: 0 },
        Token::And(_) => Token::And(0),
        Token::Or(_) => Token::Or(0),
        Token::Not(_) => Token::Not(0),
        Token::Open(_) => Token::Open(0),
        Token::Close(_) => Token::Close(0),
    }
}

spec fn all_anywhere(ts: Seq<Token>) -> Seq<Token> {
    Seq::new(ts.len(), |i: int| anywhere(ts[i]))
}

spec fn joiner_tokens(j: Joiner) -> Seq<Token> {
    match j {
        Joiner::Blank => seq![],
        Joiner::And => seq![Token::And(0)],
        Joiner::Or => seq![Token::Or(0)],
    }
}

/// The tokens of a query.
spec fn ask_tokens(a: Ask, level: int, st: Style) -> Seq<Token>
    decreases a, 0int,
{
    match a {
        Ask::Term(f) => seq![Token::Word { s: term_word(f), quoted: needs_quotes(f), at: 0 }],
        Ask::Not(b) => seq![Token::Not(0)] + ask_tokens(*b, 2, st),
        Ask::And(s) => {
            let ts = part_tokens(s, s.len() as int, 2, st.both(), st);
            if level <= 1 {
                ts
            } else {
                seq![Token::Open(0)] + ts + seq![Token::Close(0)]
            }
        },
        Ask::Or(s) => {
            let ts = part_tokens(s, s.len() as int, 1, Joiner::Or, st);
            if level <= 0 {
                ts
            } else {
                seq![Token::Open(0)] + ts + seq![Token::Close(0)]
            }
        },
        Ask::All => Seq::empty(),
    }
}

spec fn part_tokens(s: Seq<Ask>, k: int, level: int, j: Joiner, st: Style) -> Seq<Token>
    decreases s, k,
{
    if k <= 0 || k > s.len() {
        Seq::empty()
    } else if k == 1 {
        ask_tokens(s[0], level, st)
    } else {
        part_tokens(s, k - 1, level, j, st) + joiner_tokens(j) + ask_tokens(s[k - 1], level, st)
    }
}

proof fn lemma_anywhere_concat(a: Seq<Token>, b: Seq<Token>)
    ensures
        all_anywhere(a + b) == all_anywhere(a) + all_anywhere(b),
{
    assert(all_anywhere(a + b) =~= all_anywhere(a) + all_anywhere(b));
}

/// A run of word characters is read into the word.
proof fn lemma_word_run(t: Seq<char>, i: int, n: int, s: Seq<char>, quoted: bool)
    requires
        0 <= i <= i + n <= t.len(),
        0 <= n,
        bare(t.subrange(i, i + n)),
    ensures
        word_from(t, i, s, quoted) == word_from(t, i + n, s + t.subrange(i, i + n), quoted),
    decreases n,
{
    let run = t.subrange(i, i + n);
    if n == 0 {
        assert(s + run =~= s);
    } else {
        assert(word_char(run[0]));
        assert(run[0] == t[i]);
        let rest = t.subrange(i + 1, i + n);
        assert forall|k: int| 0 <= k < rest.len() implies word_char(#[trigger] rest[k]) by {
            assert(rest[k] == run[k + 1]);
        }
        lemma_word_run(t, i + 1, n - 1, s.push(t[i]), quoted);
        assert(s.push(t[i]) + rest =~= s + run);
    }
}

/// A word ends at place `i`.
spec fn ends_word(t: Seq<char>, i: int) -> bool {
    i == t.len() || 0 <= i < t.len() && (gap(t[i]) || t[i] == ')')
}

/// A word without quotes.
proof fn lemma_lex_word(t: Seq<char>, i: int, w: Seq<char>, acc: Seq<Token>) -> (tok: Token)
    requires
        0 <= i,
        stands_at(t, w, i),
        w.len() > 0,
        bare(w),
        w[0] != '-',
        ends_word(t, i + w.len()),
    ensures
        lexed(t, i, acc) == lexed(t, i + w.len(), acc.push(tok)),
        anywhere(tok) == anywhere(word_token(w, false, 0)),
{
    let n = w.len() as int;
    let run = t.subrange(i, i + n);
    assert(run[0] == t[i]);
    assert(word_char(w[0]));
    let none = Seq::<char>::empty();
    lemma_word_run(t, i, n, none, false);
    assert(none + run =~= w);
    let at = crate::md::offsets::byte_at(t, i);
    word_token(w, false, at)
}

/// A word with a part in quotes at its end.
#[verifier::rlimit(60)]
proof fn lemma_lex_quoted(t: Seq<char>, i: int, k: Seq<char>, v: Seq<char>, acc: Seq<Token>) -> (tok: Token)
    requires
        0 <= i,
        stands_at(t, k + ":\""@ + v + "\""@, i),
        key_ok(k),
        lacks(v, '"'),
        ends_word(t, i + k.len() + v.len() + 3),
    ensures
        lexed(t, i, acc) == lexed(t, i + k.len() + v.len() + 3, acc.push(tok)),
        anywhere(tok) == (Token::Word { s: k + ":"@ + v, quoted: true, at: 0 }),
{
    reveal_strlit(":\"");
    reveal_strlit("\"");
    reveal_strlit(":");
    let w = k + ":\""@ + v + "\""@;
    let n = k.len() as int;
    let all = t.subrange(i, i + w.len());
    assert(forall|x: int| 0 <= x < w.len() ==> #[trigger] w[x] == t[i + x]);
    let none = Seq::<char>::empty();
    let head = t.subrange(i, i + n + 1);
    assert(head =~= k + ":"@) by {
        assert(forall|x: int| 0 <= x < n ==> #[trigger] head[x] == w[x]);
        assert(head[n] == w[n]);
    }
    assert forall|x: int| 0 <= x < head.len() implies word_char(#[trigger] head[x]) by {
        if x < n {
            assert(head[x] == k[x]);
        }
    }
    assert(word_char(k[0]));
    assert(w[0] == t[i + 0]);
    lemma_word_run(t, i, n + 1, none, false);
    assert(none + head =~= head);
    let q = i + n + 1;
    assert(w[n + 1] == t[i + (n + 1)]);
    assert(t[q] == '"');
    let e = q + 1 + v.len();
    assert(w[w.len() - 1] == t[i + (w.len() - 1)]);
    assert(t[e] == '"');
    lemma_next_at(t, '"', q + 1);
    let j = next_at(t, '"', q + 1);
    if j < e {
        assert(w[j - i] == t[i + (j - i)]);
        assert(w[j - i] == v[j - q - 1]);
    }
    assert(j == e);
    assert(t.subrange(q + 1, j) =~= v) by {
        assert forall|x: int| 0 <= x < v.len() implies t.subrange(q + 1, j)[x] == v[x] by {
            assert(w[n + 2 + x] == t[i + (n + 2 + x)]);
        }
    }
    let s = head + v;
    assert(s =~= k + ":"@ + v);
    assert(w[0] == k[0]);
    assert(t[i] == k[0]);
    let got = word_from(t, i, none, false);
    assert(got == word_from(t, q, head, false));
    assert(got == word_from(t, e + 1, head + v, true));
    assert(got.end == e + 1 && got.s == s && got.quoted && got.unclosed is None);
    assert(word_token(s, true, 0) is Word);
    let at = crate::md::offsets::byte_at(t, i);
    Token::Word { s, quoted: true, at }
}

proof fn lemma_stands_part(t: Seq<char>, i: int, x: Seq<char>, y: Seq<char>)
    requires
        stands_at(t, x + y, i),
    ensures
        stands_at(t, x, i),
        stands_at(t, y, i + x.len()),
{
    let w = x + y;
    let all = t.subrange(i, i + w.len());
    assert(t.subrange(i, i + x.len()) =~= all.take(x.len() as int));
    assert(t.subrange(i + x.len(), i + x.len() + y.len()) =~= all.skip(x.len() as int));
    assert(w.take(x.len() as int) =~= x);
    assert(w.skip(x.len() as int) =~= y);
}

proof fn lemma_stands_first(t: Seq<char>, i: int, x: Seq<char>)
    requires
        stands_at(t, x, i),
        x.len() > 0,
    ensures
        0 <= i < t.len(),
        t[i] == x[0],
{
    assert(t.subrange(i, i + x.len())[0] == t[i]);
}

/// The keywords.
proof fn lemma_keywords()
    ensures
        word_token("AND"@, false, 0) == Token::And(0),
        word_token("OR"@, false, 0) == Token::Or(0),
        word_token("NOT"@, false, 0) == Token::Not(0),
        bare("AND"@) && bare("OR"@) && bare("NOT"@),
        "AND"@.len() == 3 && "OR"@.len() == 2 && "NOT"@.len() == 3,
        "AND"@[0] != '-' && "OR"@[0] != '-' && "NOT"@[0] != '-',
{
    reveal_strlit("AND");
    reveal_strlit("OR");
    reveal_strlit("NOT");
    reveal_strlit("and");
    reveal_strlit("or");
    reveal_strlit("not");
    assert(ascii_lowered("AND"@) =~= "and"@);
    assert(ascii_lowered("OR"@) =~= "or"@);
    assert(ascii_lowered("NOT"@) =~= "not"@);
    assert("or"@.len() != "and"@.len());
    assert("not"@[0] != "and"@[0]);
    assert("or"@.len() != "not"@.len());
}

/// A word of a comparison is no keyword.
proof fn lemma_no_keyword(k: Seq<char>, rest: Seq<char>, quoted: bool)
    ensures
        word_token(k + ":"@ + rest, quoted, 0) == (Token::Word { s: k + ":"@ + rest, quoted, at: 0 }),
{
    reveal_strlit(":");
    reveal_strlit("and");
    reveal_strlit("or");
    reveal_strlit("not");
    let w = k + ":"@ + rest;
    let n = k.len() as int;
    assert(w[n] == ':');
    let low = ascii_lowered(w);
    assert(low[n] == ':');
    assert(lacks("and"@, ':'));
    assert(lacks("or"@, ':'));
    assert(lacks("not"@, ':'));
}

/// What stands between parts is read as its token.
proof fn lemma_lex_joiner(t: Seq<char>, i: int, j: Joiner, acc: Seq<Token>) -> (toks: Seq<Token>)
    requires
        0 <= i,
        stands_at(t, joiner_text(j), i),
    ensures
        lexed(t, i, acc) == lexed(t, i + joiner_text(j).len(), acc + toks),
        all_anywhere(toks) == joiner_tokens(j),
        joiner_text(j).len() > 0,
        gap(joiner_text(j)[0]),
{
    reveal_strlit(" ");
    reveal_strlit(" AND ");
    reveal_strlit(" OR ");
    reveal_strlit("AND");
    reveal_strlit("OR");
    lemma_keywords();
    lemma_stands_first(t, i, joiner_text(j));
    match j {
        Joiner::Blank => {
            let none = Seq::<Token>::empty();
            assert(acc + none =~= acc);
            assert(all_anywhere(none) =~= joiner_tokens(j));
            none
        },
        Joiner::And => {
            assert(joiner_text(j) =~= " "@ + "AND"@ + " "@);
            lemma_stands_part(t, i, " "@ + "AND"@, " "@);
            lemma_stands_part(t, i, " "@, "AND"@);
            lemma_stands_first(t, i + 4, " "@);
            let tok = lemma_lex_word(t, i + 1, "AND"@, acc);
            let out = seq![tok];
            assert(acc + out =~= acc.push(tok));
            assert(all_anywhere(out) =~= joiner_tokens(j));
            out
        },
        Joiner::Or => {
            assert(joiner_text(j) =~= " "@ + "OR"@ + " "@);
            lemma_stands_part(t, i, " "@ + "OR"@, " "@);
            lemma_stands_part(t, i, " "@, "OR"@);
            lemma_stands_first(t, i + 3, " "@);
            let tok = lemma_lex_word(t, i + 1, "OR"@, acc);
            let out = seq![tok];
            assert(acc + out =~= acc.push(tok));
            assert(all_anywhere(out) =~= joiner_tokens(j));
            out
        },
    }
}

/// How a comparison begins, and that it is bare without quotes.
#[verifier::rlimit(60)]
proof fn lemma_term_starts(f: Filter)
    requires
        writable(f),
    ensures
        term_spelling(f).len() > 0,
        term_spelling(f)[0] == f.key[0],
        word_char(f.key[0]),
        !needs_quotes(f) ==> bare(term_word(f)),
        exists|rest: Seq<char>| term_word(f) == f.key + ":"@ + rest,
{
    reveal_strlit(":");
    reveal_strlit(":!=");
    reveal_strlit(":<");
    reveal_strlit(":<=");
    reveal_strlit(":>");
    reveal_strlit(":>=");
    reveal_strlit(":~");
    reveal_strlit(":*");
    reveal_strlit("<");
    reveal_strlit("<=");
    reveal_strlit(">");
    reveal_strlit(">=");
    reveal_strlit("!=");
    reveal_strlit("~");
    reveal_strlit("*");
    reveal_strlit(":\"");
    let v = f.value;
    let rest = match f.op {
        Op::Eq => v,
        Op::Ne => "!="@ + v,
        Op::Lt => "<"@ + v,
        Op::Le => "<="@ + v,
        Op::Gt => ">"@ + v,
        Op::Ge => ">="@ + v,
        Op::Exists => "*"@,
        Op::Prefix => v + "*"@,
        Op::Contains => "~"@ + v,
    };
    let w = f.key + ":"@ + rest;
    assert(term_word(f) =~= w);
    if !needs_quotes(f) {
        assert(bare(v));
        assert forall|i: int| 0 <= i < rest.len() implies word_char(#[trigger] rest[i]) by {
            match f.op {
                Op::Eq => {},
                Op::Prefix => {
                    if i < v.len() {
                        assert(rest[i] == v[i]);
                    }
                },
                Op::Exists => {},
                _ => {
                    let d = rest.len() - v.len();
                    if i >= d {
                        assert(rest[i] == v[i - d]);
                    }
                },
            }
        }
        assert forall|i: int| 0 <= i < w.len() implies word_char(#[trigger] w[i]) by {
            let n = f.key.len() as int;
            if i < n {
                assert(w[i] == f.key[i]);
            } else if i > n {
                assert(w[i] == rest[i - n - 1]);
            }
        }
    }
}

/// A query in brackets or a single term begins with a character that is no gap.
proof fn lemma_spelled_starts(a: Ask, st: Style)
    requires
        written(a),
    ensures
        spelled(a, 2, st).len() > 0,
        !gap(spelled(a, 2, st)[0]),
        ask_tokens(a, 2, st).len() > 0,
        ask_tokens(a, 2, st)[0] is Word || ask_tokens(a, 2, st)[0] is Not || ask_tokens(a, 2, st)[0] is Open,
{
    reveal_strlit("(");
    reveal_strlit("-");
    reveal_strlit("NOT ");
    match a {
        Ask::Term(f) => {
            lemma_term_starts(f);
        },
        _ => {},
    }
}

/// A query that is typed at some place is read as its tokens.
#[verifier::rlimit(60)]
proof fn lemma_lex(t: Seq<char>, i: int, a: Ask, level: int, st: Style, acc: Seq<Token>) -> (toks: Seq<Token>)
    requires
        written(a),
        0 <= i,
        0 <= level <= 2,
        stands_at(t, spelled(a, level, st), i),
        ends_word(t, i + spelled(a, level, st).len()),
    ensures
        lexed(t, i, acc) == lexed(t, i + spelled(a, level, st).len(), acc + toks),
        all_anywhere(toks) == ask_tokens(a, level, st),
    decreases a, 1int,
{
    let text = spelled(a, level, st);
    match a {
        Ask::Term(f) => lemma_lex_term(t, i, f, acc),
        Ask::Not(b) => {
            lemma_spelled_starts(*b, st);
            let inner = spelled(*b, 2, st);
            lemma_stands_part(t, i, st.negation(), inner);
            let tok = lemma_lex_negation(t, i, st, inner, acc);
            let toks = lemma_lex(t, i + st.negation().len(), *b, 2, st, acc.push(tok));
            let out = seq![tok] + toks;
            assert(acc.push(tok) + toks =~= acc + out);
            assert(all_anywhere(out) =~= seq![Token::Not(0)] + all_anywhere(toks));
            out
        },
        Ask::And(s) => {
            let inner = spelled_parts(s, s.len() as int, 2, st.both(), st);
            if level <= 1 {
                lemma_lex_parts(t, i, s, s.len() as int, 2, st.both(), st, acc)
            } else {
                let acc1 = lemma_lex_open(t, i, inner, acc);
                let toks = lemma_lex_parts(t, i + 1, s, s.len() as int, 2, st.both(), st, acc1);
                lemma_lex_close(t, i, inner, acc, acc1, toks)
            }
        },
        Ask::Or(s) => {
            let inner = spelled_parts(s, s.len() as int, 1, Joiner::Or, st);
            if level <= 0 {
                lemma_lex_parts(t, i, s, s.len() as int, 1, Joiner::Or, st, acc)
            } else {
                let acc1 = lemma_lex_open(t, i, inner, acc);
                let toks = lemma_lex_parts(t, i + 1, s, s.len() as int, 1, Joiner::Or, st, acc1);
                lemma_lex_close(t, i, inner, acc, acc1, toks)
            }
        },
        Ask::All => Seq::empty(),
    }
}

#[verifier::rlimit(60)]
proof fn lemma_lex_term(t: Seq<char>, i: int, f: Filter, acc: Seq<Token>) -> (toks: Seq<Token>)
    requires
        writable(f),
        0 <= i,
        stands_at(t, term_spelling(f), i),
        ends_word(t, i + term_spelling(f).len()),
    ensures
        lexed(t, i, acc) == lexed(t, i + term_spelling(f).len(), acc + toks),
        all_anywhere(toks) == seq![Token::Word { s: term_word(f), quoted: needs_quotes(f), at: 0 }],
{
    reveal_strlit(":\"");
    reveal_strlit("\"");
    lemma_term_starts(f);
    let rest = choose|rest: Seq<char>| term_word(f) == f.key + ":"@ + rest;
    lemma_no_keyword(f.key, rest, needs_quotes(f));
    let tok = if needs_quotes(f) {
        lemma_lex_quoted(t, i, f.key, f.value, acc)
    } else {
        assert(term_word(f)[0] == f.key[0]);
        lemma_lex_word(t, i, term_word(f), acc)
    };
    let out = seq![tok];
    assert(f.key + (":"@ + f.value) =~= f.key + ":"@ + f.value);
    assert(acc + out =~= acc.push(tok));
    assert(all_anywhere(out) =~= seq![Token::Word { s: term_word(f), quoted: needs_quotes(f), at: 0 }]);
    out
}

proof fn lemma_lex_negation(t: Seq<char>, i: int, st: Style, inner: Seq<char>, acc: Seq<Token>) -> (tok: Token)
    requires
        0 <= i,
        stands_at(t, st.negation(), i),
        stands_at(t, inner, i + st.negation().len()),
        inner.len() > 0,
        !gap(inner[0]),
    ensures
        lexed(t, i, acc) == lexed(t, i + st.negation().len(), acc.push(tok)),
        anywhere(tok) == Token::Not(0),
{
    reveal_strlit("-");
    reveal_strlit("NOT ");
    reveal_strlit("NOT");
    reveal_strlit(" ");
    lemma_keywords();
    lemma_stands_first(t, i, st.negation());
    lemma_stands_first(t, i + st.negation().len(), inner);
    if st.words {
        assert(st.negation() =~= "NOT"@ + " "@);
        lemma_stands_part(t, i, "NOT"@, " "@);
        lemma_stands_first(t, i + 3, " "@);
        lemma_lex_word(t, i, "NOT"@, acc)
    } else {
        Token::Not(crate::md::offsets::byte_at(t, i))
    }
}

/// An opening bracket before some text and a closing one behind it.
proof fn lemma_lex_open(t: Seq<char>, i: int, inner: Seq<char>, acc: Seq<Token>) -> (acc1: Seq<Token>)
    requires
        0 <= i,
        stands_at(t, "("@ + inner + ")"@, i),
    ensures
        lexed(t, i, acc) == lexed(t, i + 1, acc1),
        acc1 == acc.push(acc1.last()),
        anywhere(acc1.last()) == Token::Open(0),
        stands_at(t, inner, i + 1),
        ends_word(t, i + 1 + inner.len()),
        ("("@ + inner + ")"@).len() == inner.len() + 2,
{
    reveal_strlit("(");
    reveal_strlit(")");
    lemma_stands_part(t, i, "("@ + inner, ")"@);
    lemma_stands_part(t, i, "("@, inner);
    lemma_stands_first(t, i, "("@);
    lemma_stands_first(t, i + 1 + inner.len(), ")"@);
    acc.push(Token::Open(crate::md::offsets::byte_at(t, i)))
}

proof fn lemma_lex_close(
    t: Seq<char>,
    i: int,
    inner: Seq<char>,
    acc: Seq<Token>,
    acc1: Seq<Token>,
    toks: Seq<Token>,
) -> (out: Seq<Token>)
    requires
        0 <= i,
        stands_at(t, "("@ + inner + ")"@, i),
        acc1 == acc.push(acc1.last()),
        anywhere(acc1.last()) == Token::Open(0),
        lexed(t, i, acc) == lexed(t, i + 1, acc1),
        lexed(t, i + 1, acc1) == lexed(t, i + 1 + inner.len(), acc1 + toks),
    ensures
        lexed(t, i, acc) == lexed(t, i + ("("@ + inner + ")"@).len(), acc + out),
        all_anywhere(out) == seq![Token::Open(0)] + all_anywhere(toks) + seq![Token::Close(0)],
{
    reveal_strlit("(");
    reveal_strlit(")");
    lemma_stands_part(t, i, "("@ + inner, ")"@);
    let e = i + 1 + inner.len();
    lemma_stands_first(t, e, ")"@);
    let close = Token::Close(crate::md::offsets::byte_at(t, e));
    let out = seq![acc1.last()] + toks + seq![close];
    assert((acc1 + toks).push(close) =~= acc + out);
    assert(all_anywhere(out) =~= seq![Token::Open(0)] + all_anywhere(toks) + seq![Token::Close(0)]);
    out
}

#[verifier::rlimit(60)]
proof fn lemma_lex_parts(
    t: Seq<char>,
    i: int,
    s: Seq<Ask>,
    k: int,
    level: int,
    j: Joiner,
    st: Style,
    acc: Seq<Token>,
) -> (toks: Seq<Token>)
    requires
        1 <= k <= s.len(),
        forall|x: int| 0 <= x < s.len() ==> written(#[trigger] s[x]),
        0 <= i,
        0 <= level <= 2,
        stands_at(t, spelled_parts(s, k, level, j, st), i),
        ends_word(t, i + spelled_parts(s, k, level, j, st).len()),
    ensures
        lexed(t, i, acc) == lexed(t, i + spelled_parts(s, k, level, j, st).len(), acc + toks),
        all_anywhere(toks) == part_tokens(s, k, level, j, st),
    decreases s, k,
{
    if k == 1 {
        lemma_lex(t, i, s[0], level, st, acc)
    } else {
        let front = spelled_parts(s, k - 1, level, j, st);
        let last = spelled(s[k - 1], level, st);
        let sep = joiner_text(j);
        lemma_stands_part(t, i, front + sep, last);
        lemma_stands_part(t, i, front, sep);
        let at = i + front.len();
        let unused = lemma_lex_joiner(t, at, j, acc);
        lemma_stands_first(t, at, sep);
        let x = lemma_lex_parts(t, i, s, k - 1, level, j, st, acc);
        let y = lemma_lex_joiner(t, at, j, acc + x);
        let z = lemma_lex(t, at + sep.len(), s[k - 1], level, st, acc + x + y);
        let out = x + y + z;
        assert(acc + x + y + z =~= acc + out);
        lemma_anywhere_concat(x + y, z);
        lemma_anywhere_concat(x, y);
        out
    }
}

/// The tokens from place `i` on are the given ones, wherever they stood.
spec fn tokens_at(ts: Seq<Token>, i: int, want: Seq<Token>) -> bool {
    0 <= i && i + want.len() <= ts.len() && all_anywhere(ts.subrange(i, i + want.len())) == want
}

proof fn lemma_tokens_part(ts: Seq<Token>, i: int, x: Seq<Token>, y: Seq<Token>)
    requires
        tokens_at(ts, i, x + y),
    ensures
        tokens_at(ts, i, x),
        tokens_at(ts, i + x.len(), y),
{
    let w = x + y;
    let all = all_anywhere(ts.subrange(i, i + w.len()));
    assert(all_anywhere(ts.subrange(i, i + x.len())) =~= all.take(x.len() as int));
    assert(all_anywhere(ts.subrange(i + x.len(), i + x.len() + y.len())) =~= all.skip(x.len() as int));
    assert(w.take(x.len() as int) =~= x);
    assert(w.skip(x.len() as int) =~= y);
}

proof fn lemma_tokens_first(ts: Seq<Token>, i: int, x: Seq<Token>)
    requires
        tokens_at(ts, i, x),
        x.len() > 0,
    ensures
        0 <= i < ts.len(),
        anywhere(ts[i]) == x[0],
{
    let part = ts.subrange(i, i + x.len());
    assert(all_anywhere(part)[0] == anywhere(part[0]));
    assert(part[0] == ts[i]);
}

/// What may follow a query of a level.
spec fn follows(ts: Seq<Token>, i: int, level: int) -> bool {
    i == ts.len() || 0 <= i < ts.len() && (ts[i] is Close || level >= 1 && ts[i] is Or || level >= 2)
}

/// What is read at a level.
spec fn read_level(ts: Seq<Token>, i: int, level: int) -> crate::md::query::Read {
    if level <= 0 {
        read_or(ts, i)
    } else if level == 1 {
        read_and(ts, i)
    } else {
        read_unary(ts, i)
    }
}

/// The tokens of a query are read as the query.
#[verifier::rlimit(60)]
proof fn lemma_read(ts: Seq<Token>, i: int, a: Ask, level: int, st: Style)
    requires
        written(a),
        0 <= level <= 2,
        tokens_at(ts, i, ask_tokens(a, level, st)),
        follows(ts, i + ask_tokens(a, level, st).len(), level),
    ensures
        read_level(ts, i, level) == Ok::<(Ask, int), Fault>((a, i + ask_tokens(a, level, st).len())),
        ask_tokens(a, level, st).len() > 0,
    decreases a, 3 - level,
{
    let want = ask_tokens(a, level, st);
    let n = want.len() as int;
    match a {
        Ask::Or(s) => {
            let inner = part_tokens(s, s.len() as int, 1, Joiner::Or, st);
            if level == 0 {
                lemma_or_parts(ts, i, s, s.len() as int, st);
                assert(s.take(s.len() as int) =~= s);
            } else if level == 1 {
                lemma_read(ts, i, a, 2, st);
                lemma_single_and(ts, i, a, i + n);
            } else {
                lemma_tokens_part(ts, i, seq![Token::Open(0)] + inner, seq![Token::Close(0)]);
                lemma_tokens_part(ts, i, seq![Token::Open(0)], inner);
                lemma_tokens_first(ts, i, seq![Token::Open(0)]);
                lemma_tokens_first(ts, i + 1 + inner.len(), seq![Token::Close(0)]);
                lemma_or_parts(ts, i + 1, s, s.len() as int, st);
                assert(s.take(s.len() as int) =~= s);
                assert(read_or(ts, i + 1) == Ok::<(Ask, int), Fault>((a, i + 1 + inner.len())));
            }
        },
        Ask::And(s) => {
            let inner = part_tokens(s, s.len() as int, 2, st.both(), st);
            if level == 0 {
                lemma_read(ts, i, a, 1, st);
                lemma_single_or(ts, i, a, i + n);
            } else if level == 1 {
                lemma_and_parts(ts, i, s, s.len() as int, st);
                assert(s.take(s.len() as int) =~= s);
            } else {
                lemma_tokens_part(ts, i, seq![Token::Open(0)] + inner, seq![Token::Close(0)]);
                lemma_tokens_part(ts, i, seq![Token::Open(0)], inner);
                lemma_tokens_first(ts, i, seq![Token::Open(0)]);
                lemma_tokens_first(ts, i + 1 + inner.len(), seq![Token::Close(0)]);
                lemma_and_parts(ts, i + 1, s, s.len() as int, st);
                assert(s.take(s.len() as int) =~= s);
                assert(read_and(ts, i + 1) == Ok::<(Ask, int), Fault>((a, i + 1 + inner.len())));
                lemma_single_or(ts, i + 1, a, i + 1 + inner.len());
            }
        },
        Ask::Term(f) => {
            if level == 0 {
                lemma_read(ts, i, a, 1, st);
                lemma_single_or(ts, i, a, i + n);
            } else if level == 1 {
                lemma_read(ts, i, a, 2, st);
                lemma_single_and(ts, i, a, i + n);
            } else {
                lemma_tokens_first(ts, i, want);
                match ts[i] {
                    Token::Word { s, quoted, at } => {
                        lemma_term_read(f, at);
                    },
                    _ => {},
                }
            }
        },
        Ask::Not(b) => {
            if level == 0 {
                lemma_read(ts, i, a, 1, st);
                lemma_single_or(ts, i, a, i + n);
            } else if level == 1 {
                lemma_read(ts, i, a, 2, st);
                lemma_single_and(ts, i, a, i + n);
            } else {
                let inner = ask_tokens(*b, 2, st);
                lemma_tokens_part(ts, i, seq![Token::Not(0)], inner);
                lemma_tokens_first(ts, i, seq![Token::Not(0)]);
                lemma_read(ts, i + 1, *b, 2, st);
            }
        },
        Ask::All => {},
    }
}

/// One part, and no more.
proof fn lemma_single_and(ts: Seq<Token>, i: int, a: Ask, e: int)
    requires
        read_unary(ts, i) == Ok::<(Ask, int), Fault>((a, e)),
        0 <= i < e <= ts.len(),
        follows(ts, e, 1),
    ensures
        read_and(ts, i) == Ok::<(Ask, int), Fault>((a, e)),
{
    assert(onward(e, i, ts.len() as int) == e);
    assert(joined_and(seq![a]) == a);
}

proof fn lemma_single_or(ts: Seq<Token>, i: int, a: Ask, e: int)
    requires
        read_and(ts, i) == Ok::<(Ask, int), Fault>((a, e)),
        0 <= i < e <= ts.len(),
        follows(ts, e, 0),
    ensures
        read_or(ts, i) == Ok::<(Ask, int), Fault>((a, e)),
{
    assert(onward(e, i, ts.len() as int) == e);
    assert(joined_or(seq![a]) == a);
}

/// The parts of a conjunction are read one by one.
#[verifier::rlimit(60)]
proof fn lemma_and_parts(ts: Seq<Token>, i: int, s: Seq<Ask>, k: int, st: Style)
    requires
        1 <= k <= s.len(),
        forall|x: int| 0 <= x < s.len() ==> written(#[trigger] s[x]),
        tokens_at(ts, i, part_tokens(s, k, 2, st.both(), st)),
    ensures
        read_and(ts, i) == more_and(ts, i + part_tokens(s, k, 2, st.both(), st).len(), s.take(k)),
        part_tokens(s, k, 2, st.both(), st).len() > 0,
    decreases s, k,
{
    let j = st.both();
    if k == 1 {
        lemma_spelled_starts(s[0], st);
        lemma_read(ts, i, s[0], 2, st);
        assert(s.take(1) =~= seq![s[0]]);
    } else {
        let front = part_tokens(s, k - 1, 2, j, st);
        let sep = joiner_tokens(j);
        let last = ask_tokens(s[k - 1], 2, st);
        lemma_tokens_part(ts, i, front + sep, last);
        lemma_tokens_part(ts, i, front, sep);
        lemma_and_parts(ts, i, s, k - 1, st);
        lemma_spelled_starts(s[k - 1], st);
        let p = i + front.len();
        lemma_read(ts, p + sep.len(), s[k - 1], 2, st);
        if st.words {
            lemma_tokens_first(ts, p, sep);
        } else {
            lemma_tokens_first(ts, p, last);
        }
        assert(s.take(k) =~= s.take(k - 1).push(s[k - 1]));
    }
}

/// The parts of a disjunction are read one by one.
#[verifier::rlimit(60)]
proof fn lemma_or_parts(ts: Seq<Token>, i: int, s: Seq<Ask>, k: int, st: Style)
    requires
        1 <= k <= s.len(),
        forall|x: int| 0 <= x < s.len() ==> written(#[trigger] s[x]),
        tokens_at(ts, i, part_tokens(s, k, 1, Joiner::Or, st)),
        follows(ts, i + part_tokens(s, k, 1, Joiner::Or, st).len(), 1),
    ensures
        read_or(ts, i) == more_or(ts, i + part_tokens(s, k, 1, Joiner::Or, st).len(), s.take(k)),
        part_tokens(s, k, 1, Joiner::Or, st).len() > 0,
    decreases s, k,
{
    let j = Joiner::Or;
    if k == 1 {
        lemma_read(ts, i, s[0], 1, st);
        assert(s.take(1) =~= seq![s[0]]);
    } else {
        let front = part_tokens(s, k - 1, 1, j, st);
        let sep = joiner_tokens(j);
        let last = ask_tokens(s[k - 1], 1, st);
        lemma_tokens_part(ts, i, front + sep, last);
        lemma_tokens_part(ts, i, front, sep);
        let p = i + front.len();
        lemma_tokens_first(ts, p, sep);
        lemma_or_parts(ts, i, s, k - 1, st);
        lemma_read(ts, p + 1, s[k - 1], 1, st);
        assert(s.take(k) =~= s.take(k - 1).push(s[k - 1]));
    }
}

/// A query that is typed is read as what it asks: each comparison with the operator its sign stands
/// for, `OR` between alternatives, `AND` or nothing but a blank between what holds together, which
/// binds closer, `NOT` or a minus sign before what does not hold, and brackets around the rest.
pub proof fn law_query_reads_back(a: Ask, st: Style)
    requires
        written(a),
    ensures
        asked(spelled(a, 0, st)) == Ok::<Ask, Fault>(a),
{
    let t = spelled(a, 0, st);
    let none = Seq::<Token>::empty();
    assert(t.subrange(0, t.len() as int) =~= t);
    let ts = lemma_lex(t, 0, a, 0, st, none);
    assert(none + ts =~= ts);
    assert(ts.subrange(0, ts.len() as int) =~= ts);
    assert(all_anywhere(ts).len() == ts.len());
    lemma_read(ts, 0, a, 0, st);
}

/// A query of nothing but white space asks for everything.
pub proof fn law_blank_query_asks_all(t: Seq<char>)
    requires
        forall|i: int| 0 <= i < t.len() ==> gap(#[trigger] t[i]),
    ensures
        asked(t) == Ok::<Ask, Fault>(Ask::All),
{
    lemma_lex_blank(t, 0);
}

proof fn lemma_lex_blank(t: Seq<char>, i: int)
    requires
        forall|k: int| 0 <= k < t.len() ==> gap(#[trigger] t[k]),
        0 <= i,
    ensures
        lexed(t, i, Seq::empty()) == Ok::<Seq<Token>, Fault>(Seq::empty()),
    decreases t.len() - i,
{
    if i < t.len() {
        assert(gap(t[i]));
        lemma_lex_blank(t, i + 1);
    }
}

proof fn lemma_digit_run(s: Seq<char>, rest: Seq<char>)
    requires
        forall|i: int| 0 <= i < s.len() ==> is_digit(#[trigger] s[i]),
        rest.len() == 0 || !is_digit(rest[0]),
    ensures
        digit_run(s + rest) == s.len(),
    decreases s.len(),
{
    let t = s + rest;
    if s.len() == 0 {
        assert(t =~= rest);
    } else {
        assert(t[0] == s[0]);
        assert(is_digit(s[0]));
        let v = s.skip(1);
        assert forall|i: int| 0 <= i < v.len() implies is_digit(#[trigger] v[i]) by {
            assert(v[i] == s[i + 1]);
        }
        lemma_digit_run(v, rest);
        assert(t.skip(1) =~= v + rest);
    }
}

/// Whole numbers and numbers with a point compare as numbers; text that begins with a letter does not,
/// unless it names an infinity or no number.
pub proof fn law_numbers_compare_as_numbers(n: int, m: nat, v: Seq<char>)
    ensures
        float_text(signed_dec(n)),
        float_text(signed_dec(n) + "."@ + dec(m)),
        v.len() > 0 && !is_digit(v[0]) && v[0] != '+' && v[0] != '-' && v[0] != '.' && ascii_lowered(v) != "inf"@
            && ascii_lowered(v) != "infinity"@ && ascii_lowered(v) != "nan"@ ==> !float_text(v),
{
    reveal_strlit(".");
    let none = Seq::<char>::empty();
    law_number_reads_back(n);
    law_number_reads_back(m as int);
    let s = signed_dec(n);
    let d = unsigned(s);
    assert(forall|i: int| 0 <= i < d.len() ==> is_digit(#[trigger] d[i])) by {
        if n >= 0 {
            assert(is_digit(s[0]));
            assert(d == s);
        }
    }
    assert(d.len() > 0);
    lemma_digit_run(d, none);
    assert(d + none =~= d);
    assert(d.skip(d.len() as int) =~= none);
    let b = dec(m);
    let t = s + "."@ + b;
    let u = unsigned(t);
    let tail = "."@ + b;
    assert(u =~= d + tail) by {
        assert(t[0] == s[0]);
    }
    lemma_digit_run(d, tail);
    assert(u.skip(d.len() as int) =~= tail);
    assert(signed_dec(m as int) == b);
    lemma_digit_run(b, none);
    assert(b + none =~= b);
    assert(tail.skip(1) =~= b);
    assert(tail.skip(1 + b.len() as int) =~= none);
    if v.len() > 0 && !is_digit(v[0]) && v[0] != '+' && v[0] != '-' && v[0] != '.' {
        assert(unsigned(v) == v);
        assert(digit_run(v) == 0);
        assert(v.skip(0) =~= v);
    }
}

/// A word that is no comparison is refused, where it stands: one without a colon, without a name before
/// it, or without a value behind it or behind a sign.
pub proof fn law_no_comparison_is_refused(key: Seq<char>, v: Seq<char>, w: Seq<char>, quoted: bool, at: int)
    requires
        key_ok(key),
        lacks(w, ':'),
    ensures
        filter_of(w, quoted, at) matches Err(e) && e.at == at,
        filter_of(":"@ + v, quoted, at) matches Err(e) && e.at == at,
        filter_of("has:"@, quoted, at) matches Err(e) && e.at == at,
        filter_of(key + ":"@, quoted, at) matches Err(e) && e.at == at,
        filter_of(key + ":<"@, false, at) matches Err(e) && e.at == at,
        filter_of(key + ":>="@, false, at) matches Err(e) && e.at == at,
{
    reveal_strlit(":");
    reveal_strlit(":<");
    reveal_strlit(":>=");
    reveal_strlit("has:");
    reveal_strlit("HAS:");
    reveal_strlit("*");
    let none = Seq::<char>::empty();
    lemma_next_at(w, ':', 0);
    if begins(w, "has:"@) || begins(w, "HAS:"@) {
        assert(w.take(4)[3] == w[3]);
    }
    let c = ":"@ + v;
    assert(c[0] == ':');
    assert(next_at(c, ':', 0) == 0);
    if begins(c, "has:"@) || begins(c, "HAS:"@) {
        assert(c.take(4)[0] == c[0]);
    }
    assert("has:"@.take(4) =~= "has:"@);
    assert("has:"@.skip(4) =~= none);
    lemma_key_end(key, none);
    assert(key + ":"@ + none =~= key + ":"@);
    lemma_begins_two(none);
    let lt = seq!['<'];
    lemma_key_end(key, lt);
    assert(key + ":"@ + lt =~= key + ":<"@);
    lemma_begins_two(lt);
    assert(lt != "*"@) by {
        assert(lt[0] != "*"@[0]);
    }
    assert(lt.skip(1) =~= none);
    let ge = seq!['>', '='];
    lemma_key_end(key, ge);
    assert(key + ":"@ + ge =~= key + ":>="@);
    lemma_begins_two(ge);
    assert(ge != "*"@) by {
        assert(ge.len() != "*"@.len());
    }
    assert(ge.skip(2) =~= none);
    assert(none != "*"@);
}

} // verus!
