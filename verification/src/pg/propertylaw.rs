//! What the predicate of a property query asks of a row, and what rows front matter has.

use vstd::prelude::*;
use vstd::string::*;
use crate::chars::{begins, joined_with, lower_case, signed_dec, stands_at};
use crate::md::query::{flat, flat_list, flat_object, flattened, position, value_op, Ask, Filter, Op, Row};
use crate::pg::property::{like_escaped, parts_text, query_text, term_condition, term_values, Given};
use crate::text::dec;
use crate::value::Data;

verus! {

/// What `LIKE` with `\` for an escape matches: `%` any text, `_` any character, a character behind
/// `\` itself, and any other character itself.
pub open spec fn like(p: Seq<char>, t: Seq<char>) -> bool
    decreases p.len() + t.len(),
{
    if p.len() == 0 {
        t.len() == 0
    } else if p[0] == '%' {
        like(p.skip(1), t) || t.len() > 0 && like(p, t.skip(1))
    } else if p[0] == '_' {
        t.len() > 0 && like(p.skip(1), t.skip(1))
    } else if p[0] == '\\' && p.len() >= 2 {
        t.len() > 0 && t[0] == p[1] && like(p.skip(2), t.skip(1))
    } else {
        t.len() > 0 && t[0] == p[0] && like(p.skip(1), t.skip(1))
    }
}

/// One character, escaped where it must be.
spec fn escaped_one(c: char) -> Seq<char> {
    if c == '\\' || c == '%' || c == '_' {
        seq!['\\', c]
    } else {
        seq![c]
    }
}

proof fn lemma_escaped_first(v: Seq<char>)
    requires
        v.len() > 0,
    ensures
        like_escaped(v) == escaped_one(v[0]) + like_escaped(v.skip(1)),
    decreases v.len(),
{
    if v.len() == 1 {
        reveal_with_fuel(like_escaped, 2);
        assert(v.drop_last() =~= Seq::empty());
        assert(v.skip(1) =~= Seq::empty());
        assert(like_escaped(v) =~= escaped_one(v[0]) + like_escaped(v.skip(1)));
    } else {
        lemma_escaped_first(v.drop_last());
        assert(v.drop_last().skip(1) =~= v.skip(1).drop_last());
        assert(v.skip(1).last() == v.last());
        assert(like_escaped(v) =~= escaped_one(v[0]) + like_escaped(v.skip(1)));
    }
}

/// Escaped text matches itself and nothing else.
proof fn lemma_like_escaped(v: Seq<char>, q: Seq<char>, t: Seq<char>)
    ensures
        like(like_escaped(v) + q, t) <==> begins(t, v) && like(q, t.skip(v.len() as int)),
    decreases v.len(),
{
    let p = like_escaped(v) + q;
    if v.len() == 0 {
        assert(p =~= q);
        assert(t.skip(0) =~= t);
        assert(t.take(0) =~= v);
    } else {
        let c = v[0];
        let rest = v.skip(1);
        lemma_escaped_first(v);
        let one = escaped_one(c);
        assert(p[0] == one[0]);
        if one.len() == 2 {
            assert(p[1] == one[1]);
        }
        assert(p.skip(one.len() as int) =~= like_escaped(rest) + q);
        if t.len() > 0 {
            let u = t.skip(1);
            lemma_like_escaped(rest, q, u);
            if v.len() <= t.len() {
                assert(u.skip(rest.len() as int) =~= t.skip(v.len() as int));
            }
            if begins(t, v) {
                assert(t.take(v.len() as int)[0] == t[0]);
                assert(u.take(rest.len() as int) =~= t.take(v.len() as int).skip(1));
                assert(begins(u, rest));
            }
            if t[0] == c && begins(u, rest) {
                assert(t.take(v.len() as int) =~= seq![t[0]] + u.take(rest.len() as int));
                assert(seq![c] + rest =~= v);
            }
        }
    }
}

proof fn lemma_like_any(t: Seq<char>)
    ensures
        like("%"@, t),
    decreases t.len(),
{
    reveal_strlit("%");
    let none = Seq::<char>::empty();
    assert("%"@.skip(1) =~= none);
    if t.len() > 0 {
        lemma_like_any(t.skip(1));
    } else {
        assert(like(none, t));
    }
}

/// The pattern of `key:value*` matches exactly what begins with the value, whatever is in it.
pub proof fn law_prefix_pattern(f: Filter, t: Seq<char>)
    requires
        f.op == Op::Prefix,
    ensures
        term_values(f) matches s && s.len() == 1 && (s[0] matches Given::Text(p) && (like(p, t) <==> begins(
            t,
            lower_case(f.value),
        ))),
{
    let v = lower_case(f.value);
    lemma_like_escaped(v, "%"@, t);
    lemma_like_any(t.skip(v.len() as int));
}

/// The pattern of `key:~value` matches exactly what holds the value.
pub proof fn law_contains_pattern(f: Filter, t: Seq<char>)
    requires
        f.op == Op::Contains,
    ensures
        term_values(f) matches s && s.len() == 1 && (s[0] matches Given::Text(p) && (like(p, t) <==> exists|i: int|
            stands_at(t, lower_case(f.value), i))),
{
    let v = lower_case(f.value);
    let p = "%"@ + like_escaped(v) + "%"@;
    lemma_like_within(v, t);
    assert(p =~= "%"@ + (like_escaped(v) + "%"@));
}

proof fn lemma_like_within(v: Seq<char>, t: Seq<char>)
    ensures
        like("%"@ + (like_escaped(v) + "%"@), t) <==> exists|i: int| stands_at(t, v, i),
    decreases t.len(),
{
    reveal_strlit("%");
    let q = like_escaped(v) + "%"@;
    let p = "%"@ + q;
    assert(p[0] == '%');
    assert(p.skip(1) =~= q);
    lemma_like_escaped(v, "%"@, t);
    lemma_like_any(t.skip(v.len() as int));
    assert(begins(t, v) <==> stands_at(t, v, 0)) by {
        if v.len() <= t.len() {
            assert(t.take(v.len() as int) =~= t.subrange(0, v.len() as int));
        }
    }
    if t.len() > 0 {
        let u = t.skip(1);
        lemma_like_within(v, u);
        if like(p, u) {
            let i = choose|i: int| stands_at(u, v, i);
            assert(u.subrange(i, i + v.len()) =~= t.subrange(i + 1, i + 1 + v.len()));
            assert(stands_at(t, v, i + 1));
        }
        if exists|i: int| stands_at(t, v, i) {
            let i = choose|i: int| stands_at(t, v, i);
            if i > 0 {
                assert(u.subrange(i - 1, i - 1 + v.len()) =~= t.subrange(i, i + v.len()));
                assert(stands_at(u, v, i - 1));
            }
        }
    } else {
        if exists|i: int| stands_at(t, v, i) {
            let i = choose|i: int| stands_at(t, v, i);
            assert(i == 0);
        }
    }
}

/// A comparison asks the database with the sign it was typed with, of the number if the value is
/// one and of the text otherwise, and binds the value that was typed.
pub proof fn law_typed_sign_is_asked(key: Seq<char>, v: Seq<char>, numeric: bool, slot: nat)
    requires
        v.len() > 0,
        v[0] != '=',
    ensures
        ({
            let column = if numeric { "val_num"@ } else { "val_lc"@ };
            let f = |sign: Seq<char>| Filter { key, op: value_op(sign + v).0, value: value_op(sign + v).1, numeric };
            let bound = if numeric { seq![Given::Num(v)] } else { seq![Given::Text(lower_case(v))] };
            &&& term_condition(f("<"@), slot) == " AND "@ + column + " "@ + "<"@ + " $"@ + dec(slot)
            &&& term_condition(f("<="@), slot) == " AND "@ + column + " "@ + "<="@ + " $"@ + dec(slot)
            &&& term_condition(f(">"@), slot) == " AND "@ + column + " "@ + ">"@ + " $"@ + dec(slot)
            &&& term_condition(f(">="@), slot) == " AND "@ + column + " "@ + ">="@ + " $"@ + dec(slot)
            &&& term_values(f("<"@)) == bound
            &&& term_values(f("<="@)) == bound
            &&& term_values(f(">"@)) == bound
            &&& term_values(f(">="@)) == bound
        }),
{
    crate::md::querylaw::law_signs_tell_operators(v);
}

/// A negated query is the negation of what it negates, with the same values bound.
pub proof fn law_negation_negates(a: Ask, n: nat)
    ensures
        query_text(Ask::Not(Box::new(a)), n) == (
            "NOT ("@ + query_text(a, n).0 + ")"@,
            query_text(a, n).1,
        ),
{
}

/// What holds together is asked for together, and alternatives as such: the parts in their order in one
/// bracket, each behind the values that those before it bind.
pub proof fn law_parts_are_joined(a: Ask, b: Ask, n: nat)
    ensures
        ({
            let (x, u) = query_text(a, n);
            let (y, v) = query_text(b, n + u.len());
            &&& query_text(Ask::And(seq![a, b]), n) == ("("@ + x + " AND "@ + y + ")"@, u + v)
            &&& query_text(Ask::Or(seq![a, b]), n) == ("("@ + x + " OR "@ + y + ")"@, u + v)
            &&& query_text(Ask::All, n) == ("true"@, Seq::<Given>::empty())
        }),
{
    let s = seq![a, b];
    let (x, u) = query_text(a, n);
    let (y, v) = query_text(b, n + u.len());
    let none = Seq::<Given>::empty();
    assert(none + u =~= u);
    let empty = Seq::<Seq<char>>::empty();
    assert(parts_text(s, 0, n) == (empty, none));
    assert(parts_text(s, 1, n) == (empty.push(x), u));
    let two = empty.push(x).push(y);
    assert(parts_text(s, 2, n) == (two, u + v));
    assert(two.drop_last() =~= empty.push(x));
    assert(two.last() == y);
    assert("("@ + (x + " AND "@ + y) + ")"@ =~= "("@ + x + " AND "@ + y + ")"@);
    assert("("@ + (x + " OR "@ + y) + ")"@ =~= "("@ + x + " OR "@ + y + ")"@);
    assert(joined_with(two, " AND "@) == joined_with(empty.push(x), " AND "@) + " AND "@ + y);
    assert(joined_with(two, " OR "@) == joined_with(empty.push(x), " OR "@) + " OR "@ + y);
    assert(joined_with(empty.push(x), " AND "@) == x);
    assert(joined_with(empty.push(x), " OR "@) == x);
}

/// Data that one row holds.
pub open spec fn single(d: Data) -> bool {
    !(d is List) && !(d is Object)
}

/// Rows whose keys stand behind a prefix.
pub open spec fn prefixed(p: Seq<char>, rs: Seq<Row>) -> Seq<Row> {
    Seq::new(rs.len(), |i: int| Row { key: p + rs[i].key, text: rs[i].text, numeric: rs[i].numeric, ord: rs[i].ord })
}

proof fn lemma_prefixed_concat(p: Seq<char>, a: Seq<Row>, b: Seq<Row>)
    ensures
        prefixed(p, a + b) == prefixed(p, a) + prefixed(p, b),
{
    assert(prefixed(p, a + b) =~= prefixed(p, a) + prefixed(p, b));
}

/// The rows of data under a longer key are its rows with the keys prefixed.
proof fn lemma_flat_prefixed(p: Seq<char>, key: Seq<char>, d: Data, ord: i64)
    ensures
        flat(p + key, d, ord) == prefixed(p, flat(key, d, ord)),
    decreases d, 0int,
{
    match d {
        Data::List(s) => {
            lemma_list_prefixed(p, key, s, s.len() as int);
        },
        Data::Object(m) => {
            assert(p + key + "."@ =~= p + (key + "."@));
            lemma_object_prefixed(p, key + "."@, m, m.len() as int, ord);
        },
        _ => {
            assert(flat(p + key, d, ord) =~= prefixed(p, flat(key, d, ord)));
        },
    }
}

proof fn lemma_list_prefixed(p: Seq<char>, key: Seq<char>, s: Seq<Data>, n: int)
    ensures
        flat_list(p + key, s, n) == prefixed(p, flat_list(key, s, n)),
    decreases s, n,
{
    if n <= 0 || n > s.len() {
        assert(flat_list(p + key, s, n) =~= prefixed(p, flat_list(key, s, n)));
    } else {
        lemma_list_prefixed(p, key, s, n - 1);
        lemma_flat_prefixed(p, key, s[n - 1], position(n - 1));
        lemma_prefixed_concat(p, flat_list(key, s, n - 1), flat(key, s[n - 1], position(n - 1)));
    }
}

proof fn lemma_object_prefixed(p: Seq<char>, key: Seq<char>, m: Seq<(Seq<char>, Data)>, n: int, ord: i64)
    ensures
        flat_object(p + key, m, n, ord) == prefixed(p, flat_object(key, m, n, ord)),
    decreases m, n,
{
    if n <= 0 || n > m.len() {
        assert(flat_object(p + key, m, n, ord) =~= prefixed(p, flat_object(key, m, n, ord)));
    } else {
        lemma_object_prefixed(p, key, m, n - 1, ord);
        assert(p + key + m[n - 1].0 =~= p + (key + m[n - 1].0));
        lemma_flat_prefixed(p, key + m[n - 1].0, m[n - 1].1, ord);
        lemma_prefixed_concat(p, flat_object(key, m, n - 1, ord), flat(key + m[n - 1].0, m[n - 1].1, ord));
    }
}

/// Each member's rows are among those of its map.
proof fn lemma_member_rows(prefix: Seq<char>, m: Seq<(Seq<char>, Data)>, n: int, ord: i64, i: int, r: Row)
    requires
        0 <= i < n <= m.len(),
        flat(prefix + m[i].0, m[i].1, ord).contains(r),
    ensures
        flat_object(prefix, m, n, ord).contains(r),
    decreases n,
{
    let front = flat_object(prefix, m, n - 1, ord);
    let last = flat(prefix + m[n - 1].0, m[n - 1].1, ord);
    if i < n - 1 {
        lemma_member_rows(prefix, m, n - 1, ord, i, r);
        let k = choose|k: int| 0 <= k < front.len() && front[k] == r;
        assert((front + last)[k] == r);
    } else {
        let k = choose|k: int| 0 <= k < last.len() && last[k] == r;
        assert((front + last)[front.len() + k] == r);
    }
}

/// Nothing is lost when front matter is flattened: a plain value has a row under its key, present
/// but empty too; numbers are marked as such.
pub proof fn law_value_has_row(m: Seq<(Seq<char>, Data)>, i: int)
    requires
        0 <= i < m.len(),
        single(m[i].1),
    ensures
        flattened(Data::Object(m)).contains(
            Row {
                key: m[i].0,
                text: match m[i].1 {
                    Data::Text(s) => Some(s),
                    Data::Int(n) => Some(signed_dec(n)),
                    Data::Decimal(s) => Some(s),
                    Data::Bool(true) => Some("true"@),
                    Data::Bool(false) => Some("false"@),
                    _ => None,
                },
                numeric: m[i].1 is Int || m[i].1 is Decimal,
                ord: 0,
            },
        ),
{
    let none = Seq::<char>::empty();
    assert(none + m[i].0 =~= m[i].0);
    let rs = flat(m[i].0, m[i].1, 0);
    assert(rs.len() == 1);
    assert(rs.contains(rs[0]));
    lemma_member_rows(none, m, m.len() as int, 0, i, rs[0]);
}

/// An element of a list has a row under the list's key, with its place in the list.
pub proof fn law_element_has_row(m: Seq<(Seq<char>, Data)>, i: int, s: Seq<Data>, k: int, text: Seq<char>)
    requires
        0 <= i < m.len(),
        m[i].1 == Data::List(s),
        0 <= k < s.len(),
        k <= i64::MAX,
        s[k] == Data::Text(text),
    ensures
        flattened(Data::Object(m)).contains(Row { key: m[i].0, text: Some(text), numeric: false, ord: k as i64 }),
{
    let none = Seq::<char>::empty();
    assert(none + m[i].0 =~= m[i].0);
    let r = Row { key: m[i].0, text: Some(text), numeric: false, ord: k as i64 };
    let rs = flat(m[i].0, s[k], position(k));
    assert(rs =~= seq![r]);
    assert(rs[0] == r);
    lemma_element_rows(m[i].0, s, s.len() as int, k, r);
    lemma_member_rows(none, m, m.len() as int, 0, i, r);
}

proof fn lemma_element_rows(key: Seq<char>, s: Seq<Data>, n: int, k: int, r: Row)
    requires
        0 <= k < n <= s.len(),
        flat(key, s[k], position(k)).contains(r),
    ensures
        flat_list(key, s, n).contains(r),
    decreases n,
{
    let front = flat_list(key, s, n - 1);
    let last = flat(key, s[n - 1], position(n - 1));
    if k < n - 1 {
        lemma_element_rows(key, s, n - 1, k, r);
        let j = choose|j: int| 0 <= j < front.len() && front[j] == r;
        assert((front + last)[j] == r);
    } else {
        let j = choose|j: int| 0 <= j < last.len() && last[j] == r;
        assert((front + last)[front.len() + j] == r);
    }
}

/// What front matter has as rows by itself it has under a key too, the key and a dot before its own
/// keys.
pub proof fn law_nested_keys_are_dotted(m: Seq<(Seq<char>, Data)>, i: int, inner: Seq<(Seq<char>, Data)>, r: Row)
    requires
        0 <= i < m.len(),
        m[i].1 == Data::Object(inner),
        flattened(Data::Object(inner)).contains(r),
    ensures
        flattened(Data::Object(m)).contains(
            Row { key: m[i].0 + "."@ + r.key, text: r.text, numeric: r.numeric, ord: r.ord },
        ),
{
    let none = Seq::<char>::empty();
    let n = inner.len() as int;
    let p = m[i].0 + "."@;
    let own = flat_object(none, inner, n, 0);
    lemma_object_prefixed(p, none, inner, n, 0);
    assert(p + none =~= p);
    let k = choose|k: int| 0 <= k < own.len() && own[k] == r;
    let all = flat_object(p, inner, n, 0);
    let want = Row { key: p + r.key, text: r.text, numeric: r.numeric, ord: r.ord };
    assert(all[k] == want);
    assert(none + m[i].0 =~= m[i].0);
    assert(flat(m[i].0, m[i].1, 0).contains(want));
    lemma_member_rows(none, m, m.len() as int, 0, i, want);
}

} // verus!
