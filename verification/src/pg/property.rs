//! Front-matter properties on Postgres: the rows they are indexed by, and the predicate a query
//! is compiled to.

use vstd::prelude::*;
use vstd::string::*;
use crate::chars::{joined_with, lower_case, lowered};
use crate::md::query::{asks, flatten, flattened, rows, Ask, Expr, Filter, Op, Prop, QueryError, Row, Term};
use crate::text::{chars_of, dec, decimal};
use crate::value::{holds, Data, Value};

verus! {

/// Rows per statement when replacing a document's property set.
pub const ROW_BATCH: usize = 256;

/// One bound value, kept typed so the caller can hand Postgres the right thing.
#[derive(Clone, Debug, PartialEq, Eq)]
pub enum Arg {
    Text(String),
    /// A number, as it was written.
    Num(String),
}

/// A bound value as a mathematical value.
pub enum Given {
    Text(Seq<char>),
    Num(Seq<char>),
}

impl View for Arg {
    type V = Given;

    open spec fn view(&self) -> Given {
        match self {
            Arg::Text(s) => Given::Text(s@),
            Arg::Num(s) => Given::Num(s@),
        }
    }
}

pub open spec fn givens(v: Seq<Arg>) -> Seq<Given> {
    Seq::new(v.len(), |i: int| v[i]@)
}

/// `%` and `_` are wildcards in `LIKE`; a value that contains them means them.
pub open spec fn like_escaped(s: Seq<char>) -> Seq<char>
    decreases s.len(),
{
    if s.len() == 0 {
        Seq::empty()
    } else {
        let c = s.last();
        let front = like_escaped(s.drop_last());
        if c == '\\' || c == '%' || c == '_' {
            front.push('\\').push(c)
        } else {
            front.push(c)
        }
    }
}

/// `%` and `_` are wildcards in `LIKE`; a value that contains them means them.
pub fn escape_like(s: &str) -> (r: String)
    ensures
        r@ == like_escaped(s@),
{
    let cs: Vec<char> = chars_of(s);
    let mut out = String::new();
    let mut i: usize = 0;
    proof {
        assert(out@ =~= like_escaped(cs@.take(0)));
    }
    while i < cs.len()
        invariant
            i <= cs@.len(),
            out@ == like_escaped(cs@.take(i as int)),
        decreases cs@.len() - i,
    {
        let c: char = cs[i];
        proof {
            assert(cs@.take(i + 1).drop_last() =~= cs@.take(i as int));
        }
        if c == '\\' || c == '%' || c == '_' {
            out.push('\\');
        }
        out.push(c);
        i += 1;
    }
    proof {
        assert(cs@.take(i as int) =~= cs@);
    }
    out
}

/// The values a term binds behind its key.
pub open spec fn term_values(f: Filter) -> Seq<Given> {
    let low = lower_case(f.value);
    match f.op {
        Op::Exists => seq![],
        Op::Eq | Op::Ne => if f.numeric {
            seq![Given::Text(low), Given::Num(f.value)]
        } else {
            seq![Given::Text(low)]
        },
        Op::Lt | Op::Le | Op::Gt | Op::Ge => if f.numeric {
            seq![Given::Num(f.value)]
        } else {
            seq![Given::Text(low)]
        },
        Op::Prefix => seq![Given::Text(like_escaped(low) + "%"@)],
        Op::Contains => seq![Given::Text("%"@ + like_escaped(low) + "%"@)],
    }
}

/// How a comparison is written.
pub open spec fn op_sign(op: Op) -> Seq<char> {
    match op {
        Op::Lt => "<"@,
        Op::Le => "<="@,
        Op::Gt => ">"@,
        _ => ">="@,
    }
}

/// The condition on a value, its first bound value in slot `v`. A number matches as text or as a
/// number, and compares as a number, so 10 is above 9; anything else compares as text, which is
/// what makes ISO-8601 dates sort correctly.
pub open spec fn term_condition(f: Filter, v: nat) -> Seq<char> {
    match f.op {
        Op::Exists => Seq::empty(),
        Op::Eq | Op::Ne => if f.numeric {
            " AND (val_lc = $"@ + dec(v) + " OR val_num = $"@ + dec(v + 1) + ")"@
        } else {
            " AND val_lc = $"@ + dec(v)
        },
        Op::Lt | Op::Le | Op::Gt | Op::Ge => " AND "@ + (if f.numeric {
            "val_num"@
        } else {
            "val_lc"@
        }) + " "@ + op_sign(f.op) + " $"@ + dec(v),
        Op::Prefix | Op::Contains => " AND val_lc LIKE $"@ + dec(v) + " ESCAPE '\\'"@,
    }
}

/// A term as a predicate and the values it binds, with `n` values bound before it. `!=` means
/// "has the property, but not with this value" rather than "lacks it".
pub open spec fn term_text(f: Filter, n: nat) -> (Seq<char>, Seq<Given>) {
    let key = Given::Text(lower_case(f.key));
    if f.op == Op::Ne {
        (
            "(n.id IN (SELECT file_id FROM kb.property WHERE key_lc = $"@ + dec(n + 1)
                + ") AND n.id NOT IN (SELECT file_id FROM kb.property WHERE key_lc = $"@ + dec(n + 2) + term_condition(
                f,
                n + 3,
            ) + "))"@,
            seq![key, key] + term_values(f),
        )
    } else {
        (
            "n.id IN (SELECT file_id FROM kb.property WHERE key_lc = $"@ + dec(n + 1) + term_condition(f, n + 2) + ")"@,
            seq![key] + term_values(f),
        )
    }
}

/// A query as a predicate over nodes and the values it binds, with `n` values bound before it.
pub open spec fn query_text(a: Ask, n: nat) -> (Seq<char>, Seq<Given>)
    decreases a, 0int,
{
    match a {
        Ask::All => ("true"@, Seq::empty()),
        Ask::Not(b) => {
            let (sql, args) = query_text(*b, n);
            ("NOT ("@ + sql + ")"@, args)
        },
        Ask::And(s) => {
            let (parts, args) = parts_text(s, s.len() as int, n);
            ("("@ + joined_with(parts, " AND "@) + ")"@, args)
        },
        Ask::Or(s) => {
            let (parts, args) = parts_text(s, s.len() as int, n);
            ("("@ + joined_with(parts, " OR "@) + ")"@, args)
        },
        Ask::Term(f) => term_text(f, n),
    }
}

/// The first `k` of some queries, each behind the values the earlier ones bind.
pub open spec fn parts_text(s: Seq<Ask>, k: int, n: nat) -> (Seq<Seq<char>>, Seq<Given>)
    decreases s, k,
{
    if k <= 0 || k > s.len() {
        (Seq::empty(), Seq::empty())
    } else {
        let (parts, args) = parts_text(s, k - 1, n);
        let (sql, more) = query_text(s[k - 1], n + args.len());
        (parts.push(sql), args + more)
    }
}

/// A number that stands behind a dollar sign.
fn push_slot(s: &mut String, n: usize)
    ensures
        final(s)@ == old(s)@ + dec(n as nat),
{
    s.append(decimal(n as u64).as_str());
}

fn push_arg(args: &mut Vec<Arg>, a: Arg)
    ensures
        givens(final(args)@) == givens(old(args)@).push(a@),
        final(args)@.len() == old(args)@.len() + 1,
{
    let ghost before = args@;
    args.push(a);
    proof {
        assert(givens(args@) =~= givens(before).push(a@));
    }
}

/// The condition of a term; its values are bound on the way.
fn condition(t: &Term, args: &mut Vec<Arg>) -> (s: String)
    ensures
        s@ == term_condition(t@, old(args)@.len() + 1),
        givens(final(args)@) == givens(old(args)@) + term_values(t@),
        final(args)@.len() == old(args)@.len() + term_values(t@).len(),
{
    let ghost before = givens(args@);
    let mut s = String::new();
    let low = lowered(t.value.as_str());
    match t.op {
        Op::Exists => {},
        Op::Eq | Op::Ne => {
            push_arg(args, Arg::Text(low));
            if t.numeric {
                s.append(" AND (val_lc = $");
                push_slot(&mut s, args.len());
                push_arg(args, Arg::Num(t.value.clone()));
                s.append(" OR val_num = $");
                push_slot(&mut s, args.len());
                s.append(")");
            } else {
                s.append(" AND val_lc = $");
                push_slot(&mut s, args.len());
            }
        },
        Op::Lt | Op::Le | Op::Gt | Op::Ge => {
            push_arg(args, if t.numeric { Arg::Num(t.value.clone()) } else { Arg::Text(low) });
            s.append(" AND ");
            s.append(if t.numeric { "val_num" } else { "val_lc" });
            s.append(" ");
            s.append(
                match t.op {
                    Op::Lt => "<",
                    Op::Le => "<=",
                    Op::Gt => ">",
                    _ => ">=",
                },
            );
            s.append(" $");
            push_slot(&mut s, args.len());
        },
        Op::Prefix => {
            push_arg(args, Arg::Text(escape_like(low.as_str()).concat("%")));
            s.append(" AND val_lc LIKE $");
            push_slot(&mut s, args.len());
            s.append(" ESCAPE '\\'");
        },
        Op::Contains => {
            push_arg(args, Arg::Text(String::from_str("%").concat(escape_like(low.as_str()).as_str()).concat("%")));
            s.append(" AND val_lc LIKE $");
            push_slot(&mut s, args.len());
            s.append(" ESCAPE '\\'");
        },
    }
    proof {
        assert(s@ =~= term_condition(t@, old(args)@.len() + 1));
        assert(givens(args@) =~= before + term_values(t@));
    }
    s
}

fn term_sql(t: &Term, args: &mut Vec<Arg>) -> (s: String)
    ensures
        s@ == term_text(t@, old(args)@.len()).0,
        givens(final(args)@) == givens(old(args)@) + term_text(t@, old(args)@.len()).1,
{
    let ghost before = givens(args@);
    let ghost n = args@.len();
    let ghost key = Given::Text(lower_case(t.key@));
    push_arg(args, Arg::Text(lowered(t.key.as_str())));
    match t.op {
        Op::Ne => {
            let mut s = String::from_str("(n.id IN (SELECT file_id FROM kb.property WHERE key_lc = $");
            push_slot(&mut s, args.len());
            push_arg(args, Arg::Text(lowered(t.key.as_str())));
            s.append(") AND n.id NOT IN (SELECT file_id FROM kb.property WHERE key_lc = $");
            push_slot(&mut s, args.len());
            let cond = condition(t, args);
            s.append(cond.as_str());
            s.append("))");
            proof {
                assert(givens(args@) =~= before + (seq![key, key] + term_values(t@)));
                assert(s@ =~= term_text(t@, n).0);
            }
            s
        },
        _ => {
            let mut s = String::from_str("n.id IN (SELECT file_id FROM kb.property WHERE key_lc = $");
            push_slot(&mut s, args.len());
            let cond = condition(t, args);
            s.append(cond.as_str());
            s.append(")");
            proof {
                assert(givens(args@) =~= before + (seq![key] + term_values(t@)));
                assert(s@ =~= term_text(t@, n).0);
            }
            s
        },
    }
}

spec fn all_asked(v: Seq<Expr>, s: Seq<Ask>) -> bool {
    &&& v.len() == s.len()
    &&& forall|i: int| #![trigger v[i]] 0 <= i < v.len() ==> asks(v[i], s[i])
}

fn build_parts(parts: &Vec<Expr>, joiner: &str, args: &mut Vec<Arg>) -> (out: String)
    ensures
        forall|s: Seq<Ask>| #[trigger]
            all_asked(parts@, s) ==> {
                let (texts, more) = parts_text(s, s.len() as int, old(args)@.len());
                &&& out@ == "("@ + joined_with(texts, joiner@) + ")"@
                &&& givens(final(args)@) == givens(old(args)@) + more
            },
    decreases parts, 1int,
{
    let ghost before = givens(args@);
    let ghost n = args@.len();
    let mut out = String::from_str("(");
    let mut i: usize = 0;
    proof {
        assert forall|s: Seq<Ask>| #[trigger] all_asked(parts@, s) implies out@ == "("@ + joined_with(
            parts_text(s, 0, n).0,
            joiner@,
        ) && givens(args@) == before + parts_text(s, 0, n).1 by {
            assert(out@ =~= "("@ + joined_with(parts_text(s, 0, n).0, joiner@));
            assert(givens(args@) =~= before + parts_text(s, 0, n).1);
        }
    }
    while i < parts.len()
        invariant
            i <= parts@.len(),
            n == old(args)@.len(),
            before == givens(old(args)@),
            n == before.len(),
            forall|s: Seq<Ask>| #[trigger]
                all_asked(parts@, s) ==> {
                    let (texts, more) = parts_text(s, i as int, n);
                    &&& texts.len() == i
                    &&& out@ == "("@ + joined_with(texts, joiner@)
                    &&& givens(args@) == before + more
                },
        decreases parts@.len() - i,
    {
        let ghost out0 = out@;
        let ghost args0 = givens(args@);
        let ghost len0 = args@.len();
        if i > 0 {
            out.append(joiner);
        }
        proof {
            assert(decreases_to!(parts => parts@[i as int]));
        }
        let sql = build(&parts[i], args);
        out.append(sql.as_str());
        proof {
            assert forall|s: Seq<Ask>| #[trigger] all_asked(parts@, s) implies ({
                let (texts, more) = parts_text(s, i + 1, n);
                &&& texts.len() == i + 1
                &&& out@ == "("@ + joined_with(texts, joiner@)
                &&& givens(args@) == before + more
            }) by {
                let (texts0, more0) = parts_text(s, i as int, n);
                assert(asks(parts@[i as int], s[i as int]));
                assert(len0 == args0.len());
                assert(args0.len() == n + more0.len());
                let (q, more1) = query_text(s[i as int], n + more0.len());
                let (texts, more) = parts_text(s, i + 1, n);
                assert(texts == texts0.push(q));
                assert(texts.drop_last() =~= texts0);
                assert(givens(args@) =~= before + more);
                if i == 0 {
                    assert(texts[0] == q);
                    assert(texts0 =~= Seq::<Seq<char>>::empty());
                    assert(out@ =~= "("@ + joined_with(texts, joiner@));
                } else {
                    assert(out@ =~= "("@ + (joined_with(texts0, joiner@) + joiner@ + q));
                }
            }
        }
        i += 1;
    }
    out.append(")");
    out
}

fn build(e: &Expr, args: &mut Vec<Arg>) -> (out: String)
    ensures
        forall|a: Ask| #[trigger]
            asks(*e, a) ==> out@ == query_text(a, old(args)@.len()).0 && givens(final(args)@) == givens(old(args)@) + query_text(
                a,
                old(args)@.len(),
            ).1,
    decreases e, 0int,
{
    let ghost before = givens(args@);
    let ghost n = args@.len();
    match e {
        Expr::All => {
            proof {
                assert(before + Seq::<Given>::empty() =~= before);
            }
            String::from_str("true")
        },
        Expr::Not(inner) => {
            let mut out = String::from_str("NOT (");
            let sql = build(inner, args);
            out.append(sql.as_str());
            out.append(")");
            proof {
                assert forall|a: Ask| #[trigger] asks(*e, a) implies out@ == query_text(a, n).0 && givens(args@) == before + query_text(
                    a,
                    n,
                ).1 by {
                    assert(asks(**inner, *a->Not_0));
                }
            }
            out
        },
        Expr::And(parts) => {
            let out = build_parts(parts, " AND ", args);
            proof {
                assert forall|a: Ask| #[trigger] asks(*e, a) implies out@ == query_text(a, n).0 && givens(args@) == before + query_text(
                    a,
                    n,
                ).1 by {
                    assert(all_asked(parts@, a->And_0));
                }
            }
            out
        },
        Expr::Or(parts) => {
            let out = build_parts(parts, " OR ", args);
            proof {
                assert forall|a: Ask| #[trigger] asks(*e, a) implies out@ == query_text(a, n).0 && givens(args@) == before + query_text(
                    a,
                    n,
                ).1 by {
                    assert(all_asked(parts@, a->Or_0));
                }
            }
            out
        },
        Expr::Term(t) => term_sql(t, args),
    }
}

/// Compile a parsed query into a predicate over `kb.node n`.
///
/// Every term becomes `n.id IN (SELECT file_id FROM kb.property WHERE …)`: it seeks
/// `(key_lc, val_lc)` once per term instead of walking every node and probing by `file_id`.
pub fn compile(e: &Expr) -> (r: std::result::Result<(String, Vec<Arg>), QueryError>)
    ensures
        r is Ok,
        forall|a: Ask| #[trigger] asks(*e, a) ==> ((r->Ok_0).0@, givens((r->Ok_0).1@)) == query_text(a, 0),
{
    let mut args: Vec<Arg> = Vec::new();
    let sql = build(e, &mut args);
    proof {
        assert forall|a: Ask| #[trigger] asks(*e, a) implies (sql@, givens(args@)) == query_text(a, 0) by {
            assert(givens(args@) =~= query_text(a, 0).1);
        }
    }
    Ok((sql, args))
}

/// A property row as it is indexed: the row, its key and its text in lower case.
#[derive(Debug, PartialEq, Eq)]
pub struct IndexRow {
    pub prop: Prop,
    pub key_lc: String,
    pub val_lc: Option<String>,
}

/// The key and the text of the row stand beside it in lower case.
pub open spec fn indexed(r: IndexRow) -> bool {
    &&& r.key_lc@ == lower_case(r.prop.key@)
    &&& match (r.prop.text, r.val_lc) {
        (Some(t), Some(l)) => l@ == lower_case(t@),
        (None, None) => true,
        _ => false,
    }
}

pub open spec fn props_of(v: Seq<IndexRow>) -> Seq<Row> {
    Seq::new(v.len(), |i: int| v[i].prop@)
}

/// The rows that a document's front matter is indexed by; without front matter there are none.
pub fn index_rows(data: Option<&Value>) -> (out: Vec<IndexRow>)
    ensures
        data is None ==> out@.len() == 0,
        data matches Some(v) ==> forall|d: Data| #[trigger] holds(*v, d) ==> props_of(out@) == flattened(d),
        forall|i: int| 0 <= i < out@.len() ==> indexed(#[trigger] out@[i]),
{
    let mut out: Vec<IndexRow> = Vec::new();
    let props: Vec<Prop> = match data {
        None => Vec::new(),
        Some(v) => flatten(v),
    };
    let mut i: usize = 0;
    while i < props.len()
        invariant
            i <= props@.len(),
            props_of(out@) == rows(props@).take(i as int),
            forall|i: int| 0 <= i < out@.len() ==> indexed(#[trigger] out@[i]),
        decreases props@.len() - i,
    {
        let p = &props[i];
        let ghost before = props_of(out@);
        let prop = Prop { key: p.key.clone(), text: p.text.clone(), numeric: p.numeric, ord: p.ord };
        let val_lc: Option<String> = match &p.text {
            Some(t) => Some(lowered(t.as_str())),
            None => None,
        };
        out.push(IndexRow { prop, key_lc: lowered(p.key.as_str()), val_lc });
        proof {
            assert(props_of(out@) =~= before.push(p@));
            assert(rows(props@).take(i + 1) =~= rows(props@).take(i as int).push(p@));
        }
        i += 1;
    }
    proof {
        assert(rows(props@).take(i as int) =~= rows(props@));
        assert(out@.len() == props_of(out@).len());
    }
    out
}

} // verus!
