//! Front matter written from data reads back as that data.

use vstd::prelude::*;
use vstd::string::*;
use crate::chars::{
    all_digits, begins, find_from, is_digit, law_number_reads_back, lemma_below_chain, lemma_below_total, signed_dec,
    spelled_i64, stands_at, text_below, trim_white, trim_white_end, trim_white_start, white_space,
};
use crate::md::offsets::{byte_len, char_width};
use crate::md::yaml::{
    block, comment_at, indent_of, inline_members, key_slot, key_value, list_block, list_item, map_block, items_from,
    member_put, opens_quote, scalar_data, scalars, telling, telling_lines, undouble, unescape, unquoted,
    without_comment, yaml_data,
};
use crate::pg::store::lacks;
use crate::terms::text_lines;
use crate::value::Data;

verus! {

/// A character as it is written in double quotes.
pub open spec fn escaped_char(c: char) -> Seq<char> {
    if c == '"' {
        seq!['\\', '"']
    } else if c == '\\' {
        seq!['\\', '\\']
    } else if c == '\n' {
        seq!['\\', 'n']
    } else if c == '\r' {
        seq!['\\', 'r']
    } else if c == '\t' {
        seq!['\\', 't']
    } else {
        seq![c]
    }
}

pub open spec fn escaped(s: Seq<char>) -> Seq<char>
    decreases s.len(),
{
    if s.len() == 0 {
        Seq::empty()
    } else {
        escaped_char(s[0]) + escaped(s.skip(1))
    }
}

/// A text in double quotes.
pub open spec fn in_quotes(s: Seq<char>) -> Seq<char> {
    seq!['"'] + escaped(s) + seq!['"']
}

/// Data that stands on one line.
pub open spec fn one_line(d: Data) -> bool {
    match d {
        Data::Null | Data::Bool(_) | Data::Text(_) => true,
        Data::Int(n) => i64::MIN <= n <= i64::MAX,
        Data::List(s) => s.len() == 0,
        _ => false,
    }
}

/// Data on one line as it is written.
pub open spec fn scalar_text(d: Data) -> Seq<char> {
    match d {
        Data::Null => "null"@,
        Data::Bool(true) => "true"@,
        Data::Bool(false) => "false"@,
        Data::Int(n) => signed_dec(n),
        Data::Text(s) => in_quotes(s),
        _ => "[]"@,
    }
}

/// Text without white space at its ends is not trimmed.
proof fn lemma_trim_tight(s: Seq<char>)
    requires
        s.len() > 0,
        !white_space(s[0]),
        !white_space(s.last()),
    ensures
        trim_white_start(s) == s,
        trim_white_end(s) == s,
        trim_white(s) == s,
{
}

/// White space before text is trimmed.
proof fn lemma_trim_start(pad: Seq<char>, s: Seq<char>)
    requires
        forall|i: int| 0 <= i < pad.len() ==> white_space(#[trigger] pad[i]),
        s.len() == 0 || !white_space(s[0]),
    ensures
        trim_white_start(pad + s) == s,
    decreases pad.len(),
{
    if pad.len() == 0 {
        assert(pad + s =~= s);
    } else {
        assert(white_space(pad[0]));
        assert((pad + s)[0] == pad[0]);
        let rest = pad.skip(1);
        assert forall|i: int| 0 <= i < rest.len() implies white_space(#[trigger] rest[i]) by {
            assert(rest[i] == pad[i + 1]);
        }
        lemma_trim_start(rest, s);
        assert((pad + s).skip(1) =~= rest + s);
    }
}

proof fn lemma_unescape(s: Seq<char>)
    ensures
        unescape(escaped(s)) == s,
    decreases s.len(),
{
    let e = escaped(s);
    if s.len() == 0 {
        assert(unescape(e) =~= s);
    } else {
        let rest = s.skip(1);
        lemma_unescape(rest);
        let c = escaped_char(s[0]);
        assert(e == c + escaped(rest));
        assert(e[0] == c[0]);
        assert(e.skip(c.len() as int) =~= escaped(rest));
        if c.len() == 2 {
            assert(e[1] == c[1]);
        }
        assert(unescape(e) =~= seq![s[0]] + unescape(escaped(rest)));
        assert(seq![s[0]] + rest =~= s);
    }
}

/// A text in quotes is passed over in the search for a comment.
proof fn lemma_quoted_passed(v: Seq<char>, i: int, s: Seq<char>)
    requires
        0 < i,
        i + escaped(s).len() + 1 <= v.len(),
        v.subrange(i, i + escaped(s).len() + 1) == escaped(s).push('"'),
    ensures
        comment_at(v, i, Some('"')) == comment_at(v, i + escaped(s).len() + 1, None),
    decreases s.len(),
{
    let e = i + escaped(s).len() + 1;
    let tail = v.subrange(i, e);
    assert(tail[0] == v[i]);
    if s.len() == 0 {
        assert(v[i] == '"');
    } else {
        let c = escaped_char(s[0]);
        let n = c.len() as int;
        assert(escaped(s) == c + escaped(s.skip(1)));
        assert(v[i] == c[0]);
        if n == 2 {
            assert(tail[1] == v[i + 1]);
            assert(v[i + 1] == c[1]);
        }
        assert(v.subrange(i + n, e) =~= tail.skip(n));
        assert(tail.skip(n) =~= escaped(s.skip(1)).push('"'));
        lemma_quoted_passed(v, i + n, s.skip(1));
    }
}

/// Inside quotes no comment begins.
proof fn lemma_quoted_no_comment(v: Seq<char>, i: int, s: Seq<char>)
    requires
        0 < i,
        i + escaped(s).len() + 1 == v.len(),
        v.subrange(i, v.len() as int) == escaped(s).push('"'),
    ensures
        comment_at(v, i, Some('"')) is None,
{
    lemma_quoted_passed(v, i, s);
    assert(comment_at(v, v.len() as int, None) is None);
}

/// Without a number sign there is no comment.
proof fn lemma_no_comment(v: Seq<char>, i: int, q: Option<char>)
    requires
        0 <= i,
        lacks(v, '#'),
    ensures
        comment_at(v, i, q) is None,
    decreases v.len() + 1 - i,
{
    if i < v.len() {
        lemma_no_comment(v, i + 1, q);
        lemma_no_comment(v, i + 1, None);
        lemma_no_comment(v, i + 1, Some(v[i]));
        if i + 2 <= v.len() + 1 {
            lemma_no_comment(v, i + 2, q);
        }
    }
}

/// What data on one line begins and ends with.
spec fn tight(v: Seq<char>) -> bool {
    v.len() > 0 && !white_space(v[0]) && !white_space(v.last())
}

/// Data on one line is read back, and no comment is found in it.
#[verifier::rlimit(40)]
proof fn lemma_scalar(d: Data)
    requires
        one_line(d),
    ensures
        scalar_data(scalar_text(d)) == d,
        without_comment(scalar_text(d)) == scalar_text(d),
        tight(scalar_text(d)),
        lacks(scalar_text(d), '\n'),
        scalar_text(d)[0] != '#',
        key_value(scalar_text(d)) is None,
{
    reveal_strlit("null");
    reveal_strlit("true");
    reveal_strlit("false");
    reveal_strlit("~");
    reveal_strlit("[]");
    let v = scalar_text(d);
    match d {
        Data::Text(s) => {
            assert(v[0] == '"');
            assert(v.last() == '"');
            lemma_trim_tight(v);
            assert(v.subrange(1, v.len() as int) =~= escaped(s).push('"'));
            lemma_quoted_no_comment(v, 1, s);
            assert(comment_at(v, 0, None) is None);
            assert(v.subrange(1, v.len() - 1) =~= escaped(s));
            lemma_unescape(s);
            assert(v != "~"@ && v != "null"@ && v != "true"@ && v != "false"@) by {
                assert("~"@[0] != '"' && "null"@[0] != '"' && "true"@[0] != '"' && "false"@[0] != '"');
            }
            lemma_escaped_lines(s);
        },
        Data::Int(n) => {
            law_number_reads_back(n);
            lemma_number_text(n);
            lemma_trim_tight(v);
            lemma_no_comment(v, 0, None);
            assert(spelled_i64(v) == Some(n as i64));
            assert(unquoted(v) is None);
            lemma_no_colon(v);
        },
        Data::List(s) => {
            lemma_trim_tight(v);
            lemma_no_comment(v, 0, None);
            let inner = v.subrange(1, v.len() - 1);
            assert(inner =~= Seq::empty());
            assert(v[0] == '[' && v[1] == ']');
            assert(!crate::md::yaml::decimal_number(v)) by {
                reveal_with_fuel(crate::md::yaml::digit_run, 2);
            }
            assert(!all_digits(v)) by {
                assert(!is_digit(v[0]));
            }
            assert(s =~= Seq::empty());
        },
        _ => {
            lemma_trim_tight(v);
            lemma_no_comment(v, 0, None);
            lemma_no_colon(v);
        },
    }
}

proof fn lemma_escaped_lines(s: Seq<char>)
    ensures
        lacks(escaped(s), '\n'),
        lacks(in_quotes(s), '\n'),
    decreases s.len(),
{
    if s.len() > 0 {
        lemma_escaped_lines(s.skip(1));
        let c = escaped_char(s[0]);
        let e = escaped(s);
        assert forall|i: int| 0 <= i < e.len() implies e[i] != '\n' by {
            if i < c.len() {
                assert(e[i] == c[i]);
            } else {
                assert(e[i] == escaped(s.skip(1))[i - c.len()]);
            }
        }
    }
    let q = in_quotes(s);
    assert forall|i: int| 0 <= i < q.len() implies q[i] != '\n' by {
        if 0 < i < q.len() - 1 {
            assert(q[i] == escaped(s)[i - 1]);
        }
    }
}

/// What the spelling of a number holds.
proof fn lemma_number_text(n: int)
    ensures
        ({
            let v = signed_dec(n);
            &&& v.len() > 0
            &&& forall|i: int| 0 <= i < v.len() ==> is_digit(#[trigger] v[i]) || v[i] == '-'
        }),
{
    law_number_reads_back(n);
    let v = signed_dec(n);
    if n < 0 {
        assert forall|i: int| 0 <= i < v.len() implies is_digit(#[trigger] v[i]) || v[i] == '-' by {
            if i > 0 {
                assert(v.skip(1)[i - 1] == v[i]);
                assert(is_digit(v.skip(1)[i - 1]));
            }
        }
    }
}

/// Text without a colon is no member of a map.
proof fn lemma_no_colon(v: Seq<char>)
    requires
        lacks(v, ':'),
    ensures
        key_value(v) is None,
{
    reveal_strlit(": ");
    lemma_find_colon(v, 0, v.len() as int);
    if v.len() > 0 {
        assert(v.last() == v[v.len() - 1]);
    }
}

/// The first `: ` is not before the first colon.
proof fn lemma_find_colon(v: Seq<char>, i: int, n: int)
    requires
        0 <= i <= n <= v.len(),
        forall|k: int| i <= k < n ==> v[k] != ':',
    ensures
        n == v.len() ==> find_from(v, ": "@, i) is None,
        n + 1 < v.len() && v[n] == ':' && v[n + 1] == ' ' ==> find_from(v, ": "@, i) == Some(n),
        n + 1 == v.len() && v[n] == ':' ==> find_from(v, ": "@, i) is None,
    decreases n - i,
{
    reveal_strlit(": ");
    let p = ": "@;
    if i + 2 <= v.len() {
        let s = v.subrange(i, i + 2);
        assert(s[0] == v[i] && s[1] == v[i + 1]);
        if i < n {
            assert(s != p);
            lemma_find_colon(v, i + 1, n);
        } else if n < v.len() && v[n] == ':' && v[n + 1] == ' ' {
            assert(s =~= p);
        }
    }
}

/// A key that can be written.
pub open spec fn key_ok(k: Seq<char>) -> bool {
    &&& k.len() > 0
    &&& !white_space(k[0])
    &&& !white_space(k.last())
    &&& lacks(k, ':')
    &&& lacks(k, '\n')
    &&& lacks(k, '#')
    &&& lacks(k, '"')
    &&& lacks(k, '\'')
    &&& k[0] != '[' && k[0] != '{' && k[0] != '-'
}

/// Members in the order of their keys.
pub open spec fn sorted(m: Seq<(Seq<char>, Data)>) -> bool {
    forall|i: int, j: int| 0 <= i < j < m.len() ==> text_below((#[trigger] m[i]).0, (#[trigger] m[j]).0)
}

/// Data that can be written: members in the order of their keys, and no map without members.
pub open spec fn writable(d: Data) -> bool
    decreases d,
{
    match d {
        Data::List(s) => forall|i: int| 0 <= i < s.len() ==> writable(#[trigger] s[i]),
        Data::Object(m) => {
            &&& m.len() > 0
            &&& sorted(m)
            &&& forall|i: int| 0 <= i < m.len() ==> key_ok((#[trigger] m[i]).0) && writable(m[i].1)
        },
        _ => one_line(d),
    }
}

/// How front matter is laid out: by how much more what stands in a map or a list is indented, by how
/// much more a list below its key, and whether a map of plain members begins on the line of its
/// list item.
pub struct Form {
    pub step: nat,
    pub list_step: nat,
    pub inline: bool,
}

pub open spec fn pad(n: nat) -> Seq<char> {
    Seq::new(n, |i: int| ' ')
}

pub open spec fn member_text(k: Seq<char>, d: Data) -> Seq<char> {
    k + ": "@ + scalar_text(d)
}

/// A map whose members each stand on one line.
pub open spec fn flat_map(d: Data) -> bool {
    d matches Data::Object(m) && forall|i: int| 0 <= i < m.len() ==> one_line((#[trigger] m[i]).1)
}

/// The lines that data is written on.
pub open spec fn data_lines(d: Data, indent: nat, fm: Form) -> Seq<Seq<char>>
    decreases d, 0int,
{
    match d {
        Data::List(s) => list_lines(s, s.len() as int, indent, fm),
        Data::Object(m) => map_lines(m, m.len() as int, indent, fm),
        _ => Seq::empty(),
    }
}

/// The lines of the first `n` items of a list.
pub open spec fn list_lines(s: Seq<Data>, n: int, indent: nat, fm: Form) -> Seq<Seq<char>>
    decreases s, n,
{
    if n <= 0 || n > s.len() {
        Seq::empty()
    } else {
        list_lines(s, n - 1, indent, fm) + item_lines(s[n - 1], indent, fm)
    }
}

/// The lines of an item: `- ` and the item, or the item on the lines below.
pub open spec fn item_lines(d: Data, indent: nat, fm: Form) -> Seq<Seq<char>>
    decreases d, 1int,
{
    if one_line(d) {
        seq![pad(indent) + "- "@ + scalar_text(d)]
    } else if fm.inline && flat_map(d) {
        let m = d->Object_0;
        seq![pad(indent) + "- "@ + member_text(m[0].0, m[0].1)] + Seq::new(
            (m.len() - 1) as nat,
            |i: int| pad(indent + fm.step) + member_text(m[i + 1].0, m[i + 1].1),
        )
    } else {
        seq![pad(indent) + "- "@] + data_lines(d, indent + fm.step, fm)
    }
}

/// The lines of the first `n` members of a map.
pub open spec fn map_lines(m: Seq<(Seq<char>, Data)>, n: int, indent: nat, fm: Form) -> Seq<Seq<char>>
    decreases m, n,
{
    if n <= 0 || n > m.len() {
        Seq::empty()
    } else {
        map_lines(m, n - 1, indent, fm) + member_lines(m[n - 1].0, m[n - 1].1, indent, fm)
    }
}

/// The lines of a member: the key and a value on its line, or on the lines below.
pub open spec fn member_lines(k: Seq<char>, d: Data, indent: nat, fm: Form) -> Seq<Seq<char>>
    decreases d, 1int,
{
    if one_line(d) {
        seq![pad(indent) + member_text(k, d)]
    } else {
        seq![pad(indent) + (k + ":"@)] + data_lines(
            d,
            indent + if d is List {
                fm.list_step
            } else {
                fm.step
            },
            fm,
        )
    }
}

/// An indented line.
proof fn lemma_indented(n: nat, body: Seq<char>)
    requires
        body.len() > 0,
        !white_space(body[0]),
    ensures
        trim_white_start(pad(n) + body) == body,
        indent_of(pad(n) + body) == n,
        !white_space(body.last()) ==> trim_white(pad(n) + body) == body,
        trim_white(pad(n) + body) == trim_white_end(body),
{
    let p = pad(n);
    let l = p + body;
    lemma_trim_start(p, body);
    assert(l.take(l.len() - body.len()) =~= p);
    lemma_pad_bytes(n);
}

proof fn lemma_pad_bytes(n: nat)
    ensures
        byte_len(pad(n)) == n,
    decreases n,
{
    if n > 0 {
        let m = (n - 1) as nat;
        lemma_pad_bytes(m);
        assert(pad(n).drop_last() =~= pad(m));
        assert(char_width(' ') == 1) by {
            vstd::utf8::char_is_scalar(' ');
        }
    }
}

/// White space before a value changes nothing.
proof fn lemma_comment_blank(v: Seq<char>)
    requires
        tight(v),
    ensures
        without_comment(" "@ + v) == without_comment(v),
{
    reveal_strlit(" ");
    lemma_trim_start(" "@, v);
    lemma_trim_tight(v);
}

proof fn lemma_nothing_behind()
    ensures
        without_comment(" "@).len() == 0,
        without_comment(Seq::<char>::empty()).len() == 0,
{
    reveal_strlit(" ");
    let none = Seq::<char>::empty();
    lemma_trim_start(" "@, none);
    assert(" "@ + none =~= " "@);
    assert(trim_white_start(none) =~= none);
    assert(trim_white_end(none) =~= none);
    assert(comment_at(none, 0, None) is None);
}

/// A member on one line is read back.
#[verifier::rlimit(60)]
proof fn lemma_member_text(k: Seq<char>, d: Data)
    requires
        key_ok(k),
        one_line(d),
    ensures
        ({
            let body = member_text(k, d);
            &&& tight(body)
            &&& body[0] == k[0]
            &&& key_value(body) == Some((k, scalar_text(d)))
            &&& without_comment(body) == body
            &&& lacks(body, '\n')
            &&& body[0] != '#'
        }),
{
    reveal_strlit(": ");
    reveal_strlit(" ");
    let v = scalar_text(d);
    let body = member_text(k, d);
    let n = k.len() as int;
    lemma_scalar(d);
    assert(body[0] == k[0]);
    assert(body.last() == v.last());
    assert(body[n] == ':' && body[n + 1] == ' ');
    assert forall|i: int| 0 <= i < n implies body[i] != ':' by {
        assert(body[i] == k[i]);
    }
    lemma_find_colon(body, 0, n);
    assert(body.take(n) =~= k);
    lemma_trim_tight(k);
    assert(!k.contains('"')) by {
        if k.contains('"') {
            let i = choose|i: int| 0 <= i < k.len() && k[i] == '"';
        }
    }
    assert(body.skip(n + 1) =~= " "@ + v);
    lemma_comment_blank(v);
    lemma_trim_tight(body);
    lemma_key_no_comment(body, k, v, 0);
    assert(v.len() > 0);
    assert(body.subrange(n + 2, body.len() as int) =~= v);
    match d {
        Data::Text(t) => {
            assert(body[n + 2] == v[0]);
            assert(v.subrange(1, v.len() as int) =~= escaped(t).push('"'));
            assert(body.subrange(n + 3, body.len() as int) =~= v.subrange(1, v.len() as int));
            lemma_quoted_no_comment(body, n + 3, t);
        },
        _ => {
            lemma_plain_scalar(d);
            assert forall|i: int| 0 <= i < body.len() implies body[i] != '#' by {
                if i < n {
                    assert(body[i] == k[i]);
                } else if i >= n + 2 {
                    assert(body[i] == v[i - n - 2]);
                }
            }
            lemma_no_comment(body, 0, None);
        },
    }
    assert forall|i: int| 0 <= i < body.len() implies body[i] != '\n' by {
        if i < n {
            assert(body[i] == k[i]);
        } else if i >= n + 2 {
            assert(body[i] == v[i - n - 2]);
        }
    }
}

/// Data on one line that is no text holds no number sign.
proof fn lemma_plain_scalar(d: Data)
    requires
        one_line(d),
        !(d is Text),
    ensures
        lacks(scalar_text(d), '#'),
{
    reveal_strlit("null");
    reveal_strlit("true");
    reveal_strlit("false");
    reveal_strlit("[]");
    match d {
        Data::Int(n) => {
            lemma_number_text(n);
        },
        _ => {},
    }
}

/// A key holds neither a comment nor a quote.
proof fn lemma_key_no_comment(body: Seq<char>, k: Seq<char>, v: Seq<char>, i: int)
    requires
        key_ok(k),
        body == k + ": "@ + v,
        0 <= i <= k.len() + 2,
    ensures
        comment_at(body, i, None) == comment_at(body, k.len() as int + 2, None),
    decreases k.len() + 2 - i,
{
    reveal_strlit(": ");
    if i < k.len() + 2 {
        if i < k.len() {
            assert(body[i] == k[i]);
        }
        lemma_key_no_comment(body, k, v, i + 1);
    }
}

/// A key whose value stands below it.
#[verifier::rlimit(60)]
proof fn lemma_key_text(k: Seq<char>)
    requires
        key_ok(k),
    ensures
        ({
            let body = k + ":"@;
            &&& tight(body)
            &&& body[0] == k[0]
            &&& key_value(body) == Some((k, Seq::<char>::empty()))
            &&& lacks(body, '\n')
        }),
{
    reveal_strlit(": ");
    reveal_strlit(":");
    let body = k + ":"@;
    let n = k.len() as int;
    assert(body[0] == k[0]);
    assert(body[n] == ':');
    assert(body.last() == ':');
    assert forall|i: int| 0 <= i < n implies body[i] != ':' by {
        assert(body[i] == k[i]);
    }
    lemma_find_colon(body, 0, n);
    assert(body.take(n) =~= k);
    lemma_trim_tight(k);
    assert(!k.contains('"')) by {
        if k.contains('"') {
            let i = choose|i: int| 0 <= i < k.len() && k[i] == '"';
        }
    }
    assert(body.skip(n + 1) =~= Seq::empty());
    lemma_nothing_behind();
    assert(without_comment(body.skip(n + 1)) =~= Seq::<char>::empty());
    assert forall|i: int| 0 <= i < body.len() implies body[i] != '\n' by {
        if i < n {
            assert(body[i] == k[i]);
        }
    }
}

/// A line of a list item.
proof fn lemma_item_line(n: nat, rest: Seq<char>)
    ensures
        ({
            let l = pad(n) + "- "@ + rest;
            &&& indent_of(l) == n
            &&& trim_white_start(l) == "- "@ + rest
            &&& list_item(l)
            &&& begins(trim_white_start(l), "- "@)
            &&& trim_white_start(l).skip(1) == " "@ + rest
        }),
{
    reveal_strlit("- ");
    reveal_strlit(" ");
    let body = "- "@ + rest;
    assert(body[0] == '-');
    lemma_indented(n, body);
    assert(pad(n) + "- "@ + rest =~= pad(n) + body);
    assert(body.take(2) =~= "- "@);
    assert(body.skip(1) =~= " "@ + rest);
}

/// A line that begins with a key is no list item.
proof fn lemma_key_line(n: nat, body: Seq<char>)
    requires
        tight(body),
        body[0] != '-',
    ensures
        !list_item(pad(n) + body),
        indent_of(pad(n) + body) == n,
        trim_white(pad(n) + body) == body,
{
    reveal_strlit("- ");
    reveal_strlit("-");
    lemma_indented(n, body);
    if begins(body, "- "@) {
        assert(body.take(2)[0] == "- "@[0]);
    }
}

/// The lines from place `i` on are the given ones.
spec fn lines_at(ls: Seq<Seq<char>>, i: int, want: Seq<Seq<char>>) -> bool {
    0 <= i && i + want.len() <= ls.len() && ls.subrange(i, i + want.len()) == want
}

proof fn lemma_lines_part(ls: Seq<Seq<char>>, i: int, x: Seq<Seq<char>>, y: Seq<Seq<char>>)
    requires
        lines_at(ls, i, x + y),
    ensures
        lines_at(ls, i, x),
        lines_at(ls, i + x.len(), y),
{
    let w = x + y;
    let all = ls.subrange(i, i + w.len());
    assert(ls.subrange(i, i + x.len()) =~= w.take(x.len() as int)) by {
        assert(ls.subrange(i, i + x.len()) =~= all.take(x.len() as int));
    }
    assert(ls.subrange(i + x.len(), i + x.len() + y.len()) =~= all.skip(x.len() as int));
    assert(w.take(x.len() as int) =~= x);
    assert(w.skip(x.len() as int) =~= y);
}

proof fn lemma_line_at(ls: Seq<Seq<char>>, i: int, want: Seq<Seq<char>>, k: int)
    requires
        lines_at(ls, i, want),
        0 <= k < want.len(),
    ensures
        0 <= i + k < ls.len(),
        ls[i + k] == want[k],
{
    assert(ls.subrange(i, i + want.len())[k] == ls[i + k]);
}

/// What may follow the items of a list whose items stand at an indentation.
spec fn shallow(ls: Seq<Seq<char>>, e: int, indent: nat) -> bool {
    e == ls.len() || 0 <= e < ls.len() && indent_of(ls[e]) <= indent
}

/// What may follow a list, or the members of a map, at an indentation.
spec fn ends_list(ls: Seq<Seq<char>>, e: int, indent: nat) -> bool {
    e == ls.len() || 0 <= e < ls.len() && (indent_of(ls[e]) < indent || indent_of(ls[e]) == indent && !list_item(ls[e]))
}

/// What may follow data at an indentation.
spec fn ends_data(ls: Seq<Seq<char>>, e: int, indent: nat, d: Data) -> bool {
    if d is List {
        ends_list(ls, e, indent)
    } else {
        e == ls.len() || 0 <= e < ls.len() && indent_of(ls[e]) < indent
    }
}

proof fn lemma_slot_behind(m: Seq<(Seq<char>, Data)>, k: Seq<char>)
    requires
        forall|i: int| 0 <= i < m.len() ==> text_below((#[trigger] m[i]).0, k),
    ensures
        key_slot(m, k) == m.len(),
    decreases m.len(),
{
    if m.len() > 0 {
        let rest = m.skip(1);
        assert(text_below(m[0].0, k));
        assert forall|i: int| 0 <= i < rest.len() implies text_below((#[trigger] rest[i]).0, k) by {
            assert(rest[i] == m[i + 1]);
        }
        lemma_slot_behind(rest, k);
    }
}

/// The next member in order is put behind the others.
proof fn lemma_put_next(m: Seq<(Seq<char>, Data)>, k: int)
    requires
        sorted(m),
        0 <= k < m.len(),
    ensures
        member_put(m.take(k), m[k].0, m[k].1) == m.take(k + 1),
{
    let front = m.take(k);
    assert forall|i: int| 0 <= i < front.len() implies text_below((#[trigger] front[i]).0, m[k].0) by {
        assert(front[i] == m[i]);
        assert(text_below(m[i].0, m[k].0));
    }
    lemma_slot_behind(front, m[k].0);
    assert(m.take(k + 1) =~= front.insert(k, (m[k].0, m[k].1)));
}

/// How a list item and a member begin.
#[verifier::rlimit(60)]
proof fn lemma_first_lines(k: Seq<char>, d: Data, indent: nat, fm: Form)
    requires
        writable(d),
    ensures
        item_lines(d, indent, fm).len() > 0,
        indent_of(item_lines(d, indent, fm)[0]) == indent,
        list_item(item_lines(d, indent, fm)[0]),
        begins(trim_white_start(item_lines(d, indent, fm)[0]), "- "@),
        key_ok(k) ==> member_lines(k, d, indent, fm).len() > 0,
        key_ok(k) ==> indent_of(member_lines(k, d, indent, fm)[0]) == indent,
        key_ok(k) ==> !list_item(member_lines(k, d, indent, fm)[0]),
{
    if one_line(d) {
        lemma_item_line(indent, scalar_text(d));
        if key_ok(k) {
            lemma_member_text(k, d);
            lemma_key_line(indent, member_text(k, d));
        }
    } else {
        if fm.inline && flat_map(d) {
            let m = d->Object_0;
            lemma_item_line(indent, member_text(m[0].0, m[0].1));
        } else {
            let none = Seq::<char>::empty();
            lemma_item_line(indent, none);
            assert(pad(indent) + "- "@ + none =~= pad(indent) + "- "@);
        }
        if key_ok(k) {
            lemma_key_text(k);
            lemma_key_line(indent, k + ":"@);
        }
    }
}

/// How data begins.
proof fn lemma_data_starts(d: Data, indent: nat, fm: Form)
    requires
        writable(d),
        !one_line(d),
    ensures
        data_lines(d, indent, fm).len() > 0,
        indent_of(data_lines(d, indent, fm)[0]) == indent,
        d is List <==> list_item(data_lines(d, indent, fm)[0]),
        d is List ==> begins(trim_white_start(data_lines(d, indent, fm)[0]), "- "@),
{
    match d {
        Data::List(s) => {
            lemma_list_starts(s, s.len() as int, indent, fm);
        },
        Data::Object(m) => {
            lemma_map_starts(m, m.len() as int, indent, fm);
        },
        _ => {},
    }
}

proof fn lemma_list_starts(s: Seq<Data>, n: int, indent: nat, fm: Form)
    requires
        1 <= n <= s.len(),
        writable(s[0]),
    ensures
        list_lines(s, n, indent, fm).len() > 0,
        list_lines(s, n, indent, fm)[0] == item_lines(s[0], indent, fm)[0],
        indent_of(list_lines(s, n, indent, fm)[0]) == indent,
        list_item(list_lines(s, n, indent, fm)[0]),
        begins(trim_white_start(list_lines(s, n, indent, fm)[0]), "- "@),
    decreases n,
{
    lemma_first_lines(Seq::empty(), s[0], indent, fm);
    if n == 1 {
        assert(list_lines(s, 0, indent, fm) + item_lines(s[0], indent, fm) =~= item_lines(s[0], indent, fm));
    } else {
        lemma_list_starts(s, n - 1, indent, fm);
    }
}

proof fn lemma_map_starts(m: Seq<(Seq<char>, Data)>, n: int, indent: nat, fm: Form)
    requires
        1 <= n <= m.len(),
        writable(m[0].1),
        key_ok(m[0].0),
    ensures
        map_lines(m, n, indent, fm).len() > 0,
        map_lines(m, n, indent, fm)[0] == member_lines(m[0].0, m[0].1, indent, fm)[0],
        indent_of(map_lines(m, n, indent, fm)[0]) == indent,
        !list_item(map_lines(m, n, indent, fm)[0]),
    decreases n,
{
    lemma_first_lines(m[0].0, m[0].1, indent, fm);
    if n == 1 {
        assert(map_lines(m, 0, indent, fm) + member_lines(m[0].0, m[0].1, indent, fm) =~= member_lines(
            m[0].0,
            m[0].1,
            indent,
            fm,
        ));
    } else {
        lemma_map_starts(m, n - 1, indent, fm);
    }
}

/// The lines of data are read as the data.
#[verifier::rlimit(60)]
proof fn lemma_block(ls: Seq<Seq<char>>, i: int, d: Data, indent: nat, fm: Form)
    requires
        writable(d),
        !one_line(d),
        fm.step > 0,
        lines_at(ls, i, data_lines(d, indent, fm)),
        ends_data(ls, i + data_lines(d, indent, fm).len(), indent, d),
    ensures
        block(ls, i, indent) == (d, i + data_lines(d, indent, fm).len()),
    decreases d, 0int,
{
    let want = data_lines(d, indent, fm);
    lemma_data_starts(d, indent, fm);
    lemma_line_at(ls, i, want, 0);
    match d {
        Data::List(s) => {
            let n = s.len() as int;
            lemma_list(ls, i, s, n, indent, fm);
            assert(s.take(n) =~= s);
        },
        Data::Object(m) => {
            let n = m.len() as int;
            lemma_map(ls, i, m, n, indent, fm);
            assert(m.take(n) =~= m);
        },
        _ => {},
    }
}

/// The items of a list are read one by one.
proof fn lemma_list(ls: Seq<Seq<char>>, i: int, s: Seq<Data>, n: int, indent: nat, fm: Form)
    requires
        0 <= n <= s.len(),
        fm.step > 0,
        forall|k: int| 0 <= k < s.len() ==> writable(#[trigger] s[k]),
        lines_at(ls, i, list_lines(s, n, indent, fm)),
        shallow(ls, i + list_lines(s, n, indent, fm).len(), indent),
    ensures
        list_block(ls, i, indent, Seq::empty()) == list_block(
            ls,
            i + list_lines(s, n, indent, fm).len(),
            indent,
            s.take(n),
        ),
    decreases s, n,
{
    if n == 0 {
        assert(s.take(0) =~= Seq::empty());
    } else {
        let front = list_lines(s, n - 1, indent, fm);
        let d = s[n - 1];
        let last = item_lines(d, indent, fm);
        lemma_lines_part(ls, i, front, last);
        lemma_first_lines(Seq::empty(), d, indent, fm);
        let p = i + front.len();
        lemma_line_at(ls, p, last, 0);
        lemma_list(ls, i, s, n - 1, indent, fm);
        lemma_item(ls, p, d, indent, fm, s.take(n - 1));
        assert(s.take(n) =~= s.take(n - 1).push(d));
    }
}

/// An item is read as its data.
#[verifier::rlimit(60)]
proof fn lemma_item(ls: Seq<Seq<char>>, p: int, d: Data, indent: nat, fm: Form, acc: Seq<Data>)
    requires
        writable(d),
        fm.step > 0,
        lines_at(ls, p, item_lines(d, indent, fm)),
        shallow(ls, p + item_lines(d, indent, fm).len(), indent),
    ensures
        list_block(ls, p, indent, acc) == list_block(ls, p + item_lines(d, indent, fm).len(), indent, acc.push(d)),
    decreases d, 1int,
{
    let want = item_lines(d, indent, fm);
    lemma_first_lines(Seq::empty(), d, indent, fm);
    lemma_line_at(ls, p, want, 0);
    if one_line(d) {
        let v = scalar_text(d);
        lemma_item_line(indent, v);
        lemma_scalar(d);
        lemma_comment_blank(v);
    } else if fm.inline && flat_map(d) {
        let m = d->Object_0;
        let body = member_text(m[0].0, m[0].1);
        lemma_item_line(indent, body);
        lemma_member_text(m[0].0, m[0].1);
        lemma_comment_blank(body);
        lemma_scalar(m[0].1);
        let none = Seq::<(Seq<char>, Data)>::empty();
        lemma_put_next(m, 0);
        assert(m.take(0) =~= none);
        let e = p + want.len();
        assert forall|i: int| 1 <= i < m.len() implies ls[p + i] == pad(indent + fm.step) + member_text(
            (#[trigger] m[i]).0,
            m[i].1,
        ) by {
            lemma_line_at(ls, p, want, i);
        }
        lemma_inline(ls, p, m, indent, fm, 1);
        assert(m.take(m.len() as int) =~= m);
        assert(inline_members(ls, p + 1, indent, m.take(1)) == (m, e));
    } else {
        let none = Seq::<char>::empty();
        lemma_item_line(indent, none);
        assert(pad(indent) + "- "@ + none =~= pad(indent) + "- "@);
        assert(" "@ + none =~= " "@);
        lemma_nothing_behind();
        let below = data_lines(d, indent + fm.step, fm);
        lemma_lines_part(ls, p, seq![pad(indent) + "- "@], below);
        lemma_data_starts(d, indent + fm.step, fm);
        lemma_line_at(ls, p + 1, below, 0);
        lemma_block(ls, p + 1, d, indent + fm.step, fm);
    }
}

/// The further members of a map that begins in a list item.
proof fn lemma_inline(ls: Seq<Seq<char>>, p: int, m: Seq<(Seq<char>, Data)>, indent: nat, fm: Form, k: int)
    requires
        1 <= k <= m.len(),
        fm.step > 0,
        sorted(m),
        forall|i: int| 0 <= i < m.len() ==> key_ok((#[trigger] m[i]).0) && one_line(m[i].1),
        p >= 0,
        p + m.len() <= ls.len(),
        forall|i: int| 1 <= i < m.len() ==> ls[p + i] == pad(indent + fm.step) + member_text((#[trigger] m[i]).0, m[i].1),
        shallow(ls, p + m.len(), indent),
    ensures
        inline_members(ls, p + k, indent, m.take(k)) == (m.take(m.len() as int), p + m.len()),
    decreases m.len() - k,
{
    if k < m.len() {
        let body = member_text(m[k].0, m[k].1);
        lemma_member_text(m[k].0, m[k].1);
        lemma_key_line_at(indent + fm.step, m[k].0, body);
        lemma_scalar(m[k].1);
        lemma_put_next(m, k);
        lemma_inline(ls, p, m, indent, fm, k + 1);
    }
}

proof fn lemma_key_line_at(n: nat, k: Seq<char>, body: Seq<char>)
    requires
        key_ok(k),
        tight(body),
        body[0] == k[0],
    ensures
        !list_item(pad(n) + body),
        indent_of(pad(n) + body) == n,
        trim_white(pad(n) + body) == body,
{
    lemma_key_line(n, body);
}

/// The members of a map are read one by one.
proof fn lemma_map(ls: Seq<Seq<char>>, i: int, m: Seq<(Seq<char>, Data)>, n: int, indent: nat, fm: Form)
    requires
        0 <= n <= m.len(),
        fm.step > 0,
        sorted(m),
        forall|k: int| 0 <= k < m.len() ==> key_ok((#[trigger] m[k]).0) && writable(m[k].1),
        lines_at(ls, i, map_lines(m, n, indent, fm)),
        ends_list(ls, i + map_lines(m, n, indent, fm).len(), indent),
    ensures
        map_block(ls, i, indent, Seq::empty()) == map_block(ls, i + map_lines(m, n, indent, fm).len(), indent, m.take(n)),
    decreases m, n,
{
    if n == 0 {
        assert(m.take(0) =~= Seq::empty());
    } else {
        let front = map_lines(m, n - 1, indent, fm);
        let k = m[n - 1].0;
        let d = m[n - 1].1;
        let last = member_lines(k, d, indent, fm);
        lemma_lines_part(ls, i, front, last);
        lemma_first_lines(k, d, indent, fm);
        let p = i + front.len();
        lemma_line_at(ls, p, last, 0);
        lemma_map(ls, i, m, n - 1, indent, fm);
        lemma_member(ls, p, k, d, indent, fm, m.take(n - 1));
        lemma_put_next(m, n - 1);
    }
}

/// A member is read as its key and its data.
#[verifier::rlimit(60)]
proof fn lemma_member(ls: Seq<Seq<char>>, p: int, k: Seq<char>, d: Data, indent: nat, fm: Form, m: Seq<(Seq<char>, Data)>)
    requires
        writable(d),
        key_ok(k),
        fm.step > 0,
        lines_at(ls, p, member_lines(k, d, indent, fm)),
        ends_list(ls, p + member_lines(k, d, indent, fm).len(), indent),
    ensures
        map_block(ls, p, indent, m) == map_block(ls, p + member_lines(k, d, indent, fm).len(), indent, member_put(m, k, d)),
    decreases d, 1int,
{
    let want = member_lines(k, d, indent, fm);
    lemma_first_lines(k, d, indent, fm);
    lemma_line_at(ls, p, want, 0);
    if one_line(d) {
        lemma_member_text(k, d);
        lemma_key_line_at(indent, k, member_text(k, d));
        lemma_scalar(d);
    } else {
        lemma_key_text(k);
        lemma_key_line_at(indent, k, k + ":"@);
        let deeper = indent + if d is List {
            fm.list_step
        } else {
            fm.step
        };
        let below = data_lines(d, deeper, fm);
        lemma_lines_part(ls, p, seq![pad(indent) + (k + ":"@)], below);
        lemma_data_starts(d, deeper, fm);
        lemma_line_at(ls, p + 1, below, 0);
        lemma_block(ls, p + 1, d, deeper, fm);
    }
}

/// Lines as a text, each with a line feed behind it.
pub open spec fn text_of(ls: Seq<Seq<char>>) -> Seq<char>
    decreases ls.len(),
{
    if ls.len() == 0 {
        Seq::empty()
    } else {
        ls[0].push('\n') + text_of(ls.skip(1))
    }
}

/// A line that is kept as it is: it says something, and does not look like two.
spec fn whole(l: Seq<char>) -> bool {
    telling(l) && lacks(l, '\n') && l.last() != '\r'
}

spec fn all_whole(ls: Seq<Seq<char>>) -> bool {
    forall|i: int| 0 <= i < ls.len() ==> whole(#[trigger] ls[i])
}

proof fn lemma_text_lines(ls: Seq<Seq<char>>)
    requires
        all_whole(ls),
    ensures
        text_lines(text_of(ls)) == ls,
    decreases ls.len(),
{
    let t = text_of(ls);
    if ls.len() == 0 {
        assert(text_lines(t) =~= ls);
    } else {
        let l = ls[0];
        let rest = ls.skip(1);
        assert(whole(l));
        assert forall|i: int| 0 <= i < rest.len() implies whole(#[trigger] rest[i]) by {
            assert(rest[i] == ls[i + 1]);
        }
        lemma_text_lines(rest);
        let n = l.len() as int;
        assert(t[n] == '\n');
        crate::chars::lemma_next_at(t, '\n', 0);
        let i = crate::chars::next_at(t, '\n', 0);
        if i < n {
            assert(t[i] == l[i]);
        }
        assert(t.take(n) =~= l);
        assert(t.skip(n + 1) =~= text_of(rest));
        assert(seq![l] + rest =~= ls);
    }
}

proof fn lemma_telling_all(ls: Seq<Seq<char>>)
    requires
        all_whole(ls),
    ensures
        telling_lines(ls) == ls,
    decreases ls.len(),
{
    if ls.len() > 0 {
        let front = ls.drop_last();
        assert forall|i: int| 0 <= i < front.len() implies whole(#[trigger] front[i]) by {
            assert(front[i] == ls[i]);
        }
        lemma_telling_all(front);
        assert(whole(ls[ls.len() - 1]));
        assert(front.push(ls.last()) =~= ls);
    } else {
        assert(ls =~= Seq::empty());
    }
}

/// An indented line that ends in something is whole.
proof fn lemma_whole_line(n: nat, body: Seq<char>)
    requires
        body.len() > 0,
        !white_space(body[0]),
        body[0] != '#',
        lacks(body, '\n'),
        body.last() != '\r',
        trim_white_end(body).len() > 0,
    ensures
        whole(pad(n) + body),
{
    lemma_indented(n, body);
    let l = pad(n) + body;
    assert(l.last() == body.last());
    assert forall|i: int| 0 <= i < l.len() implies l[i] != '\n' by {
        if i >= n {
            assert(l[i] == body[i - n]);
        }
    }
}

proof fn lemma_whole_tight(n: nat, body: Seq<char>)
    requires
        tight(body),
        body[0] != '#',
        lacks(body, '\n'),
    ensures
        whole(pad(n) + body),
{
    lemma_trim_tight(body);
    assert(white_space('\r'));
    lemma_whole_line(n, body);
}

proof fn lemma_whole_concat(x: Seq<Seq<char>>, y: Seq<Seq<char>>)
    requires
        all_whole(x),
        all_whole(y),
    ensures
        all_whole(x + y),
{
    let w = x + y;
    assert forall|i: int| 0 <= i < w.len() implies whole(#[trigger] w[i]) by {
        if i < x.len() {
            assert(w[i] == x[i]);
        } else {
            assert(w[i] == y[i - x.len()]);
        }
    }
}

/// A list item and text behind its dash.
#[verifier::rlimit(60)]
proof fn lemma_whole_item(n: nat, rest: Seq<char>)
    requires
        rest.len() == 0 || tight(rest),
        lacks(rest, '\n'),
    ensures
        whole(pad(n) + "- "@ + rest),
{
    reveal_strlit("- ");
    let body = "- "@ + rest;
    assert(pad(n) + "- "@ + rest =~= pad(n) + body);
    assert(body[0] == '-');
    assert forall|i: int| 0 <= i < body.len() implies body[i] != '\n' by {
        if i >= 2 {
            assert(body[i] == rest[i - 2]);
        }
    }
    if rest.len() == 0 {
        assert(body =~= "- "@);
        assert(body.drop_last() =~= seq!['-']);
        assert(seq!['-'].last() == '-');
        assert(trim_white_end(seq!['-']) == seq!['-']);
        assert(white_space(body.last()));
        assert(trim_white_end(body) == trim_white_end(body.drop_last()));
        lemma_whole_line(n, body);
    } else {
        assert(body.last() == rest.last());
        lemma_whole_tight(n, body);
    }
}

proof fn lemma_data_whole(d: Data, indent: nat, fm: Form)
    requires
        writable(d),
    ensures
        all_whole(data_lines(d, indent, fm)),
    decreases d, 0int,
{
    match d {
        Data::List(s) => {
            lemma_list_whole(s, s.len() as int, indent, fm);
        },
        Data::Object(m) => {
            lemma_map_whole(m, m.len() as int, indent, fm);
        },
        _ => {},
    }
}

proof fn lemma_list_whole(s: Seq<Data>, n: int, indent: nat, fm: Form)
    requires
        0 <= n <= s.len(),
        forall|k: int| 0 <= k < s.len() ==> writable(#[trigger] s[k]),
    ensures
        all_whole(list_lines(s, n, indent, fm)),
    decreases s, n,
{
    if n > 0 {
        lemma_list_whole(s, n - 1, indent, fm);
        lemma_item_whole(s[n - 1], indent, fm);
        lemma_whole_concat(list_lines(s, n - 1, indent, fm), item_lines(s[n - 1], indent, fm));
    }
}

#[verifier::rlimit(60)]
proof fn lemma_item_whole(d: Data, indent: nat, fm: Form)
    requires
        writable(d),
    ensures
        all_whole(item_lines(d, indent, fm)),
    decreases d, 1int,
{
    let want = item_lines(d, indent, fm);
    if one_line(d) {
        lemma_scalar(d);
        lemma_whole_item(indent, scalar_text(d));
    } else if fm.inline && flat_map(d) {
        let m = d->Object_0;
        assert forall|i: int| 0 <= i < want.len() implies whole(#[trigger] want[i]) by {
            assert(key_ok(m[i].0) && one_line(m[i].1));
            lemma_member_text(m[i].0, m[i].1);
            if i == 0 {
                lemma_whole_item(indent, member_text(m[0].0, m[0].1));
            } else {
                lemma_whole_tight(indent + fm.step, member_text(m[i].0, m[i].1));
            }
        }
    } else {
        let none = Seq::<char>::empty();
        lemma_whole_item(indent, none);
        assert(pad(indent) + "- "@ + none =~= pad(indent) + "- "@);
        lemma_data_whole(d, indent + fm.step, fm);
        lemma_whole_concat(seq![pad(indent) + "- "@], data_lines(d, indent + fm.step, fm));
    }
}

proof fn lemma_map_whole(m: Seq<(Seq<char>, Data)>, n: int, indent: nat, fm: Form)
    requires
        0 <= n <= m.len(),
        forall|k: int| 0 <= k < m.len() ==> key_ok((#[trigger] m[k]).0) && writable(m[k].1),
    ensures
        all_whole(map_lines(m, n, indent, fm)),
    decreases m, n,
{
    if n > 0 {
        lemma_map_whole(m, n - 1, indent, fm);
        lemma_member_whole(m[n - 1].0, m[n - 1].1, indent, fm);
        lemma_whole_concat(map_lines(m, n - 1, indent, fm), member_lines(m[n - 1].0, m[n - 1].1, indent, fm));
    }
}

proof fn lemma_member_whole(k: Seq<char>, d: Data, indent: nat, fm: Form)
    requires
        writable(d),
        key_ok(k),
    ensures
        all_whole(member_lines(k, d, indent, fm)),
    decreases d, 1int,
{
    if one_line(d) {
        lemma_member_text(k, d);
        lemma_whole_tight(indent, member_text(k, d));
    } else {
        lemma_key_text(k);
        lemma_whole_tight(indent, k + ":"@);
        let deeper = indent + if d is List {
            fm.list_step
        } else {
            fm.step
        };
        lemma_data_whole(d, deeper, fm);
        lemma_whole_concat(seq![pad(indent) + (k + ":"@)], data_lines(d, deeper, fm));
    }
}

/// Front matter written from data reads back as that data, whatever the indentation: maps in maps
/// and lists, lists below their key at its indentation or deeper, and maps that begin on the line
/// of a list item. No member and no item is lost.
pub proof fn law_front_matter_reads_back(d: Data, indent: nat, fm: Form)
    requires
        writable(d),
        !one_line(d),
        fm.step > 0,
    ensures
        yaml_data(text_of(data_lines(d, indent, fm))) == d,
{
    let ls = data_lines(d, indent, fm);
    lemma_data_whole(d, indent, fm);
    lemma_text_lines(ls);
    lemma_telling_all(ls);
    lemma_data_starts(d, indent, fm);
    assert(ls.subrange(0, ls.len() as int) =~= ls);
    lemma_block(ls, 0, d, indent, fm);
}

/// Text that begins like nothing else, and without a comment in it, is kept as it is.
pub proof fn law_plain_text_is_kept(v: Seq<char>)
    requires
        v.len() > 0,
        !white_space(v[0]),
        !white_space(v.last()),
        lacks(v, '#'),
        !is_digit(v[0]),
        v[0] != '+' && v[0] != '-' && v[0] != '.' && v[0] != '\'' && v[0] != '"' && v[0] != '[' && v[0] != '~',
        v != "null"@,
        v != "true"@,
        v != "false"@,
    ensures
        scalar_data(v) == Data::Text(v),
{
    reveal_strlit("~");
    lemma_trim_tight(v);
    lemma_no_comment(v, 0, None);
    assert(!all_digits(v)) by {
        if all_digits(v) {
            assert(is_digit(v[0]));
        }
    }
    assert(v != "~"@);
    assert(crate::md::yaml::digit_run(v) == 0);
    assert(v.skip(0) =~= v);
    assert(!crate::md::yaml::decimal_number(v));
}

/// A text with each quote doubled.
pub open spec fn doubled(s: Seq<char>) -> Seq<char>
    decreases s.len(),
{
    if s.len() == 0 {
        Seq::empty()
    } else if s[0] == '\'' {
        seq!['\'', '\''] + doubled(s.skip(1))
    } else {
        seq![s[0]] + doubled(s.skip(1))
    }
}

proof fn lemma_undouble(s: Seq<char>)
    ensures
        undouble(doubled(s)) == s,
    decreases s.len(),
{
    let e = doubled(s);
    if s.len() == 0 {
        assert(undouble(e) =~= s);
    } else {
        let rest = s.skip(1);
        lemma_undouble(rest);
        assert(seq![s[0]] + rest =~= s);
        if s[0] == '\'' {
            assert(e[0] == '\'' && e[1] == '\'');
            assert(e.skip(2) =~= doubled(rest));
        } else {
            assert(e[0] == s[0]);
            assert(e.skip(1) =~= doubled(rest));
        }
    }
}

proof fn lemma_single_no_comment(v: Seq<char>, i: int, s: Seq<char>)
    requires
        0 < i,
        i + doubled(s).len() + 1 == v.len(),
        v.subrange(i, v.len() as int) == doubled(s).push('\''),
    ensures
        comment_at(v, i, Some('\'')) is None,
    decreases s.len(),
{
    let tail = v.subrange(i, v.len() as int);
    assert(tail[0] == v[i]);
    if s.len() == 0 {
        assert(v[i] == '\'');
        assert(comment_at(v, i + 1, None) is None);
    } else {
        let rest = s.skip(1);
        let n: int = if s[0] == '\'' {
            2
        } else {
            1
        };
        if n == 2 {
            assert(tail[1] == v[i + 1]);
            assert(doubled(s)[0] == '\'' && doubled(s)[1] == '\'');
        } else {
            assert(doubled(s)[0] == s[0]);
        }
        assert(v.subrange(i + n, v.len() as int) =~= tail.skip(n));
        assert(tail.skip(n) =~= doubled(rest).push('\''));
        lemma_single_no_comment(v, i + n, rest);
    }
}

/// A text in single quotes, its own quotes doubled, is read back: number signs, colons and brackets
/// in it mean nothing.
pub proof fn law_single_quotes_read_back(s: Seq<char>)
    ensures
        scalar_data(seq!['\''] + doubled(s) + seq!['\'']) == Data::Text(s),
{
    reveal_strlit("~");
    reveal_strlit("null");
    reveal_strlit("true");
    reveal_strlit("false");
    let v = seq!['\''] + doubled(s) + seq!['\''];
    assert(v[0] == '\'');
    assert(v.last() == '\'');
    lemma_trim_tight(v);
    assert(v.subrange(1, v.len() as int) =~= doubled(s).push('\''));
    lemma_single_no_comment(v, 1, s);
    assert(v.subrange(1, v.len() - 1) =~= doubled(s));
    lemma_undouble(s);
    assert("~"@[0] != '\'' && "null"@[0] != '\'' && "true"@[0] != '\'' && "false"@[0] != '\'');
}

/// What is read on one line is read back from its spelling, with a comment behind it or not.
pub proof fn law_comment_is_no_data(d: Data, comment: Seq<char>)
    requires
        one_line(d),
    ensures
        scalar_data(scalar_text(d)) == d,
        scalar_data(scalar_text(d) + " #"@ + comment) == d,
{
    reveal_strlit(" #");
    let v = scalar_text(d);
    let n = v.len() as int;
    lemma_scalar(d);
    let w = v + " #"@ + comment;
    let k = trim_white_end(w).len() as int;
    lemma_trim_end_keeps(w, n + 1);
    let t = trim_white(w);
    assert(w[0] == v[0]);
    assert(trim_white_start(w) == w);
    assert(t == w.take(k));
    assert(t[0] == v[0]);
    assert(t[n] == ' ' && t[n + 1] == '#') by {
        assert(w[n] == ' ' && w[n + 1] == '#');
    }
    assert(t.take(n) =~= v) by {
        assert(forall|i: int| 0 <= i < n ==> t.take(n)[i] == w[i]);
        assert(forall|i: int| 0 <= i < n ==> v[i] == #[trigger] w[i]);
    }
    assert(comment_at(t, 0, None) == Some(n + 1)) by {
        lemma_comment_behind(d, t);
    }
    let h = t.take(n + 1);
    assert(h =~= v.push(' '));
    assert(h.drop_last() =~= v);
    lemma_trim_tight(v);
    assert(white_space(' '));
    assert(trim_white_end(h) == trim_white_end(h.drop_last()));
    assert(without_comment(w) == v);
    lemma_scalar_trimmed(w, v, d);
}

/// Trimming at the end stops at something.
proof fn lemma_trim_end_keeps(s: Seq<char>, i: int)
    requires
        0 <= i < s.len(),
        !white_space(s[i]),
    ensures
        i < trim_white_end(s).len() <= s.len(),
        trim_white_end(s) == s.take(trim_white_end(s).len() as int),
    decreases s.len(),
{
    if white_space(s.last()) {
        let f = s.drop_last();
        assert(f[i] == s[i]);
        lemma_trim_end_keeps(f, i);
        let k = trim_white_end(f).len() as int;
        assert(f.take(k) =~= s.take(k));
    } else {
        assert(s.take(s.len() as int) =~= s);
    }
}

/// The comment behind data on one line is found.
proof fn lemma_comment_behind(d: Data, t: Seq<char>)
    requires
        one_line(d),
        scalar_text(d).len() + 2 <= t.len(),
        t.take(scalar_text(d).len() as int) == scalar_text(d),
        t[scalar_text(d).len() as int] == ' ',
        t[scalar_text(d).len() as int + 1] == '#',
    ensures
        comment_at(t, 0, None) == Some(scalar_text(d).len() as int + 1),
{
    reveal_strlit("null");
    reveal_strlit("true");
    reveal_strlit("false");
    reveal_strlit("[]");
    let v = scalar_text(d);
    let n = v.len() as int;
    assert(comment_at(t, n + 1, None) == Some(n + 1));
    assert(comment_at(t, n, None) == Some(n + 1));
    assert(forall|i: int| 0 <= i < n ==> #[trigger] t.take(n)[i] == t[i]);
    match d {
        Data::Text(s) => {
            assert(t.take(n)[0] == '"');
            assert(t[0] == '"');
            assert(t.subrange(1, n) =~= v.subrange(1, n));
            assert(v.subrange(1, n) =~= escaped(s).push('"'));
            lemma_quoted_passed(t, 1, s);
        },
        _ => {
            lemma_plain_scalar(d);
            lemma_unquoted_scalar(d);
            assert forall|k: int| 0 <= k < n implies t[k] != '"' && t[k] != '\'' && t[k] != '#' by {
                assert(t.take(n)[k] == t[k]);
            }
            lemma_plain_passed(t, 0, n);
        },
    }
}

proof fn lemma_unquoted_scalar(d: Data)
    requires
        one_line(d),
        !(d is Text),
    ensures
        lacks(scalar_text(d), '"'),
        lacks(scalar_text(d), '\''),
        lacks(scalar_text(d), ','),
{
    reveal_strlit("null");
    reveal_strlit("true");
    reveal_strlit("false");
    reveal_strlit("[]");
    match d {
        Data::Int(n) => {
            lemma_number_text(n);
        },
        _ => {},
    }
}

/// Characters that open neither a quote nor a comment are passed over.
proof fn lemma_plain_passed(t: Seq<char>, i: int, n: int)
    requires
        0 <= i <= n <= t.len(),
        forall|k: int| i <= k < n ==> t[k] != '"' && t[k] != '\'' && t[k] != '#',
    ensures
        comment_at(t, i, None) == comment_at(t, n, None),
    decreases n - i,
{
    if i < n {
        lemma_plain_passed(t, i + 1, n);
    }
}

/// What is read depends on the text without its comment alone.
proof fn lemma_scalar_trimmed(w: Seq<char>, v: Seq<char>, d: Data)
    requires
        one_line(d),
        v == scalar_text(d),
        without_comment(w) == v,
    ensures
        scalar_data(w) == d,
{
    lemma_scalar(d);
    match d {
        Data::List(s) => {
            reveal_strlit("[]");
            let inner = v.subrange(1, v.len() - 1);
            assert(inner =~= Seq::empty());
        },
        _ => {},
    }
}

/// Items of a list on one line, a comma and a blank between them.
pub open spec fn flow_inside(ds: Seq<Data>) -> Seq<char>
    decreases ds.len(),
{
    if ds.len() == 0 {
        Seq::empty()
    } else if ds.len() == 1 {
        scalar_text(ds[0])
    } else {
        scalar_text(ds[0]) + ", "@ + flow_inside(ds.skip(1))
    }
}

/// A list on one line.
pub open spec fn flow_text(ds: Seq<Data>) -> Seq<char> {
    seq!['['] + flow_inside(ds) + seq![']']
}

spec fn all_one_line(ds: Seq<Data>) -> bool {
    forall|i: int| 0 <= i < ds.len() ==> one_line(#[trigger] ds[i])
}

/// The items as they are cut out.
spec fn flow_cut(lead: Seq<char>, ds: Seq<Data>) -> Seq<Seq<char>> {
    Seq::new(ds.len(), |i: int| (if i == 0 { lead } else { " "@ }) + scalar_text(ds[i]))
}

/// A text in quotes is passed over in the search for commas.
proof fn lemma_items_quoted(s: Seq<char>, start: int, i: int, x: Seq<char>)
    requires
        0 <= start <= i,
        i + escaped(x).len() + 1 <= s.len(),
        s.subrange(i, i + escaped(x).len() + 1) == escaped(x).push('"'),
    ensures
        items_from(s, start, i, 0, Some('"')) == items_from(s, start, i + escaped(x).len() + 1, 0, None),
    decreases x.len(),
{
    let e = i + escaped(x).len() + 1;
    let tail = s.subrange(i, e);
    assert(tail[0] == s[i]);
    if x.len() == 0 {
        assert(s[i] == '"');
    } else {
        let c = escaped_char(x[0]);
        let n = c.len() as int;
        assert(escaped(x) == c + escaped(x.skip(1)));
        assert(s[i] == c[0]);
        if n == 2 {
            assert(tail[1] == s[i + 1]);
            assert(s[i + 1] == c[1]);
        }
        assert(s.subrange(i + n, e) =~= tail.skip(n));
        assert(tail.skip(n) =~= escaped(x.skip(1)).push('"'));
        lemma_items_quoted(s, start, i + n, x.skip(1));
    }
}

/// So are characters that mean nothing in a list.
proof fn lemma_items_plain(s: Seq<char>, start: int, i: int, n: int, depth: int)
    requires
        0 <= start <= i <= n <= s.len(),
        forall|k: int|
            i <= k < n ==> s[k] != '"' && s[k] != '\'' && s[k] != '[' && s[k] != ']' && s[k] != '{' && s[k] != '}' && s[k] != ',',
    ensures
        items_from(s, start, i, depth, None) == items_from(s, start, n, depth, None),
    decreases n - i,
{
    if i < n {
        lemma_items_plain(s, start, i + 1, n, depth);
    }
}

/// Data on one line is passed over.
proof fn lemma_items_scalar(s: Seq<char>, start: int, q: int, d: Data)
    requires
        one_line(d),
        0 <= start <= q,
        stands_at(s, scalar_text(d), q),
        forall|k: int| start <= k < q ==> s[k] == ' ',
    ensures
        items_from(s, start, q, 0, None) == items_from(s, start, q + scalar_text(d).len(), 0, None),
{
    reveal_strlit("null");
    reveal_strlit("true");
    reveal_strlit("false");
    reveal_strlit("[]");
    let v = scalar_text(d);
    let n = v.len() as int;
    let at = s.subrange(q, q + n);
    assert(at == v);
    assert(forall|k: int| 0 <= k < n ==> #[trigger] at[k] == s[q + k]);
    match d {
        Data::Text(x) => {
            let lead = s.subrange(start, q);
            let none = Seq::<char>::empty();
            assert forall|k: int| 0 <= k < lead.len() implies white_space(#[trigger] lead[k]) by {
                assert(lead[k] == s[start + k]);
            }
            lemma_trim_start(lead, none);
            assert(lead + none =~= lead);
            assert(trim_white(lead).len() == 0);
            assert(at[0] == '"');
            assert(s[q + 0] == '"');
            assert(s.subrange(q + 1, q + n) =~= v.subrange(1, n));
            assert(v.subrange(1, n) =~= escaped(x).push('"'));
            lemma_items_quoted(s, start, q + 1, x);
        },
        Data::List(_) => {
            assert(at[0] == '[' && at[1] == ']');
            assert(s[q + 0] == '[' && s[q + 1] == ']');
            assert(items_from(s, start, q + 1, 1, None) == items_from(s, start, q + 2, 0, None));
        },
        Data::Int(m) => {
            lemma_number_text(m);
            assert forall|k: int| q <= k < q + n implies s[k] != '"' && s[k] != '\'' && s[k] != '[' && s[k] != ']' && s[k] != '{'
                && s[k] != '}' && s[k] != ',' by {
                assert(at[k - q] == s[q + (k - q)]);
                assert(is_digit(v[k - q]) || v[k - q] == '-');
            }
            lemma_items_plain(s, start, q, q + n, 0);
        },
        _ => {
            assert forall|k: int| q <= k < q + n implies s[k] != '"' && s[k] != '\'' && s[k] != '[' && s[k] != ']' && s[k] != '{'
                && s[k] != '}' && s[k] != ',' by {
                assert(at[k - q] == s[q + (k - q)]);
            }
            lemma_items_plain(s, start, q, q + n, 0);
        },
    }
}

/// The items of a list are cut at the commas between them.
proof fn lemma_flow_cut(s: Seq<char>, start: int, lead: Seq<char>, ds: Seq<Data>)
    requires
        0 <= start <= s.len(),
        ds.len() > 0,
        all_one_line(ds),
        lead.len() == 0 || lead == " "@,
        s.skip(start) == lead + flow_inside(ds),
    ensures
        items_from(s, start, start, 0, None) == flow_cut(lead, ds),
    decreases ds.len(),
{
    reveal_strlit(" ");
    reveal_strlit(", ");
    let v = scalar_text(ds[0]);
    let q = start + lead.len();
    let e = q + v.len();
    let rest = ds.skip(1);
    let whole = s.skip(start);
    assert(forall|k: int| 0 <= k < whole.len() ==> #[trigger] whole[k] == s[start + k]);
    assert(s.subrange(q, e) =~= v) by {
        assert forall|k: int| 0 <= k < v.len() implies s.subrange(q, e)[k] == v[k] by {
            assert(whole[lead.len() + k] == s[start + (lead.len() + k)]);
            assert(whole[lead.len() + k] == flow_inside(ds)[k]);
        }
    }
    assert forall|k: int| start <= k < q implies s[k] == ' ' by {
        assert(whole[k - start] == s[start + (k - start)]);
        assert(whole[k - start] == lead[k - start]);
    }
    lemma_items_plain(s, start, start, q, 0);
    lemma_items_scalar(s, start, q, ds[0]);
    assert(s.subrange(start, e) =~= lead + v) by {
        assert forall|k: int| 0 <= k < lead.len() + v.len() implies s.subrange(start, e)[k] == (lead + v)[k] by {
            if k >= lead.len() {
                assert(s.subrange(q, e)[k - lead.len()] == s[start + k]);
            } else {
                assert(whole[k] == s[start + k]);
            }
        }
    }
    let cut = flow_cut(lead, ds);
    if ds.len() == 1 {
        assert(e == s.len());
        assert(s.skip(start) =~= lead + v);
        assert(cut =~= seq![lead + v]);
    } else {
        assert(whole[e - start] == s[start + (e - start)]);
        assert(whole[e - start] == flow_inside(ds)[v.len() as int]);
        assert(s[e] == ',');
        assert forall|i: int| 0 <= i < rest.len() implies one_line(#[trigger] rest[i]) by {
            assert(rest[i] == ds[i + 1]);
        }
        assert(s.skip(e + 1) =~= " "@ + flow_inside(rest)) by {
            assert forall|k: int| 0 <= k < s.len() - e - 1 implies s.skip(e + 1)[k] == (" "@ + flow_inside(rest))[k] by {
                assert(whole[e + 1 + k - start] == s[start + (e + 1 + k - start)]);
                assert(whole[e + 1 + k - start] == flow_inside(ds)[v.len() + 1 + k]);
            }
        }
        lemma_flow_cut(s, e + 1, " "@, rest);
        assert(seq![lead + v] + flow_cut(" "@, rest) =~= cut) by {
            assert forall|k: int| 0 <= k < ds.len() implies (seq![lead + v] + flow_cut(" "@, rest))[k] == cut[k] by {
                if k > 0 {
                    assert(rest[k - 1] == ds[k]);
                }
            }
        }
    }
}

/// No comment is found in a list on one line.
proof fn lemma_flow_comment(v: Seq<char>, p: int, ds: Seq<Data>)
    requires
        0 < p <= v.len(),
        ds.len() > 0,
        all_one_line(ds),
        opens_quote(v[p - 1]),
        v.skip(p) == flow_inside(ds) + seq![']'],
    ensures
        comment_at(v, p, None) is None,
    decreases ds.len(),
{
    reveal_strlit(", ");
    let d = ds[0];
    let x = scalar_text(d);
    let n = x.len() as int;
    let whole = v.skip(p);
    let inside = flow_inside(ds);
    assert(forall|k: int| 0 <= k < whole.len() ==> #[trigger] whole[k] == v[p + k]);
    lemma_scalar(d);
    lemma_flow_len(ds, 0);
    assert(whole.len() == inside.len() + 1);
    assert(p + n <= v.len());
    assert forall|k: int| 0 <= k < n implies v[p + k] == x[k] by {
        assert(whole[k] == inside[k]);
    }
    assert(comment_at(v, p, None) == comment_at(v, p + n, None)) by {
        match d {
            Data::Text(s) => {
                assert(x[0] == '"');
                assert(v[p + 0] == x[0]);
                let tail = x.subrange(1, n);
                assert(tail =~= escaped(s).push('"'));
                assert(p + n <= v.len());
                assert forall|k: int| 0 <= k < n - 1 implies v.subrange(p + 1, p + n)[k] == tail[k] by {
                    assert(v[p + (k + 1)] == x[k + 1]);
                }
                assert(v.subrange(p + 1, p + n) =~= tail);
                lemma_quoted_passed(v, p + 1, s);
            },
            _ => {
                lemma_plain_scalar(d);
                lemma_unquoted_scalar(d);
                assert forall|k: int| p <= k < p + n implies v[k] != '"' && v[k] != '\'' && v[k] != '#' by {
                    assert(v[p + (k - p)] == x[k - p]);
                }
                lemma_plain_passed(v, p, p + n);
            },
        }
    }
    if ds.len() == 1 {
        assert(whole[n] == ']');
        assert(v[p + n] == ']');
        assert(v.len() == p + n + 1);
        assert(comment_at(v, p + n + 1, None) is None);
    } else {
        let rest = ds.skip(1);
        assert(whole[n] == inside[n] && whole[n + 1] == inside[n + 1]);
        assert(v[p + n] == ',' && v[p + (n + 1)] == ' ');
        assert(comment_at(v, p + n, None) == comment_at(v, p + n + 1, None));
        assert(comment_at(v, p + n + 1, None) == comment_at(v, p + n + 2, None));
        assert forall|i: int| 0 <= i < rest.len() implies one_line(#[trigger] rest[i]) by {
            assert(rest[i] == ds[i + 1]);
        }
        assert(v.skip(p + n + 2) =~= flow_inside(rest) + seq![']']) by {
            assert forall|k: int| 0 <= k < v.len() - p - n - 2 implies v.skip(p + n + 2)[k] == (flow_inside(rest) + seq![']'])[k] by {
                assert(whole[n + 2 + k] == v[p + (n + 2 + k)]);
            }
        }
        lemma_flow_comment(v, p + n + 2, rest);
    }
}

proof fn lemma_scalars(items: Seq<Seq<char>>, n: nat)
    requires
        forall|k: int| 0 <= k < items.len() ==> (#[trigger] items[k]).len() < n,
    ensures
        scalars(items, n).len() == items.len(),
        forall|k: int| 0 <= k < items.len() ==> scalars(items, n)[k] == scalar_data(#[trigger] items[k]),
    decreases items.len(),
{
    if items.len() > 0 {
        let front = items.drop_last();
        assert forall|k: int| 0 <= k < front.len() implies (#[trigger] front[k]).len() < n by {
            assert(front[k] == items[k]);
        }
        lemma_scalars(front, n);
        assert(items[items.len() - 1] == items.last());
        assert forall|k: int| 0 <= k < items.len() implies scalars(items, n)[k] == scalar_data(#[trigger] items[k]) by {
            if k < front.len() {
                assert(front[k] == items[k]);
            }
        }
    }
}

/// No item is longer than the list.
proof fn lemma_flow_len(ds: Seq<Data>, i: int)
    requires
        0 <= i < ds.len(),
    ensures
        scalar_text(ds[i]).len() <= flow_inside(ds).len(),
        ds.len() > 1 ==> scalar_text(ds[i]).len() + 2 <= flow_inside(ds).len(),
    decreases ds.len(),
{
    reveal_strlit(", ");
    if i > 0 {
        assert(ds.skip(1)[i - 1] == ds[i]);
        lemma_flow_len(ds.skip(1), i - 1);
    }
}

/// The items that are cut out are read as the data they were written from.
proof fn lemma_flow_items(ds: Seq<Data>, n: nat)
    requires
        all_one_line(ds),
        ds.len() > 0,
        n >= flow_inside(ds).len() + 2,
    ensures
        scalars(items_from(flow_inside(ds), 0, 0, 0, None), n) == ds,
{
    reveal_strlit(" ");
    let inside = flow_inside(ds);
    let none = Seq::<char>::empty();
    assert(inside.skip(0) =~= none + inside);
    lemma_flow_cut(inside, 0, none, ds);
    let items = flow_cut(none, ds);
    assert forall|k: int| 0 <= k < items.len() implies (#[trigger] items[k]).len() < n by {
        lemma_flow_len(ds, k);
    }
    lemma_scalars(items, n);
    let got = scalars(items, n);
    assert forall|k: int| 0 <= k < ds.len() implies got[k] == ds[k] by {
        lemma_flow_item(none, ds, k);
        assert(got[k] == scalar_data(items[k]));
    }
    assert(got =~= ds);
}

proof fn lemma_flow_item(lead: Seq<char>, ds: Seq<Data>, k: int)
    requires
        all_one_line(ds),
        lead.len() == 0,
        0 <= k < ds.len(),
    ensures
        scalar_data(flow_cut(lead, ds)[k]) == ds[k],
{
    let x = scalar_text(ds[k]);
    let item = flow_cut(lead, ds)[k];
    lemma_scalar(ds[k]);
    if k == 0 {
        assert(item =~= x);
    } else {
        assert(item == " "@ + x);
        lemma_comment_blank(x);
        lemma_scalar_trimmed(item, x, ds[k]);
    }
}

/// Text in square brackets is nothing but a list.
proof fn lemma_brackets(v: Seq<char>)
    requires
        v.len() >= 2,
        v[0] == '[',
        v.last() == ']',
        without_comment(v) == v,
        trim_white(v.subrange(1, v.len() - 1)).len() > 0,
    ensures
        scalar_data(v) == Data::List(scalars(items_from(v.subrange(1, v.len() - 1), 0, 0, 0, None), v.len())),
{
    reveal_strlit("~");
    reveal_strlit("null");
    reveal_strlit("true");
    reveal_strlit("false");
    assert("~"@[0] != '[' && "null"@[0] != '[' && "true"@[0] != '[' && "false"@[0] != '[');
    assert(!all_digits(v)) by {
        if all_digits(v) {
            assert(is_digit(v[0]));
        }
    }
    assert(crate::md::yaml::digit_run(v) == 0);
    assert(v.skip(0) =~= v);
    assert(!crate::md::yaml::decimal_number(v));
}

/// A list on one line is read as the list of its items, whatever stands in their quotes: no item is
/// dropped and none is cut in two.
pub proof fn law_flow_list_reads_back(ds: Seq<Data>)
    requires
        forall|i: int| 0 <= i < ds.len() ==> one_line(#[trigger] ds[i]),
        ds.len() > 0,
    ensures
        scalar_data(flow_text(ds)) == Data::List(ds),
{
    let v = flow_text(ds);
    let inside = flow_inside(ds);
    assert(v[0] == '[');
    assert(v.last() == ']');
    lemma_trim_tight(v);
    assert(v.skip(1) =~= inside + seq![']']);
    lemma_flow_comment(v, 1, ds);
    assert(comment_at(v, 0, None) == comment_at(v, 1, None));
    assert(v.subrange(1, v.len() - 1) =~= inside);
    assert(one_line(ds[0]));
    lemma_scalar(ds[0]);
    lemma_flow_len(ds, 0);
    assert(inside[0] == scalar_text(ds[0])[0]);
    assert(trim_white_start(inside) == inside);
    lemma_trim_end_keeps(inside, 0);
    lemma_brackets(v);
    lemma_flow_items(ds, v.len());
}

/// What a map has under a key.
pub open spec fn member_of(m: Seq<(Seq<char>, Data)>, k: Seq<char>) -> Option<Data> {
    if exists|i: int| 0 <= i < m.len() && (#[trigger] m[i]).0 == k {
        Some(m[choose|i: int| 0 <= i < m.len() && (#[trigger] m[i]).0 == k].1)
    } else {
        None
    }
}

proof fn lemma_slot(m: Seq<(Seq<char>, Data)>, k: Seq<char>)
    requires
        sorted(m),
    ensures
        0 <= key_slot(m, k) <= m.len(),
        forall|i: int| 0 <= i < key_slot(m, k) ==> text_below((#[trigger] m[i]).0, k),
        forall|i: int| key_slot(m, k) <= i < m.len() ==> !text_below((#[trigger] m[i]).0, k),
    decreases m.len(),
{
    if m.len() > 0 {
        let rest = m.skip(1);
        assert forall|i: int, j: int| 0 <= i < j < rest.len() implies text_below((#[trigger] rest[i]).0, (#[trigger] rest[j]).0) by {
            assert(rest[i] == m[i + 1] && rest[j] == m[j + 1]);
        }
        lemma_slot(rest, k);
        if text_below(m[0].0, k) {
            assert forall|i: int| 0 <= i < key_slot(m, k) implies text_below((#[trigger] m[i]).0, k) by {
                if i > 0 {
                    assert(rest[i - 1] == m[i]);
                }
            }
            assert forall|i: int| key_slot(m, k) <= i < m.len() implies !text_below((#[trigger] m[i]).0, k) by {
                assert(rest[i - 1] == m[i]);
            }
        } else {
            assert forall|i: int| 0 <= i < m.len() implies !text_below((#[trigger] m[i]).0, k) by {
                if i > 0 && text_below(m[i].0, k) {
                    assert(text_below(m[0].0, m[i].0));
                    lemma_below_chain(m[0].0, m[i].0, k);
                }
            }
        }
    }
}

/// In a sorted map a key stands once.
proof fn lemma_member_at(m: Seq<(Seq<char>, Data)>, i: int)
    requires
        sorted(m),
        0 <= i < m.len(),
    ensures
        member_of(m, m[i].0) == Some(m[i].1),
{
    let k = m[i].0;
    let j = choose|j: int| 0 <= j < m.len() && (#[trigger] m[j]).0 == k;
    assert(m[i].0 == k);
    lemma_below_total(k, k);
    if j < i {
        assert(text_below(m[j].0, m[i].0));
    } else if i < j {
        assert(text_below(m[i].0, m[j].0));
    }
}

/// Putting a member into a map keeps it sorted by key, puts the value under its key, in place of one
/// that was there, and leaves what is under other keys.
#[verifier::rlimit(60)]
pub proof fn law_member_is_put(m: Seq<(Seq<char>, Data)>, k: Seq<char>, d: Data, other: Seq<char>)
    requires
        sorted(m),
    ensures
        sorted(member_put(m, k, d)),
        member_of(member_put(m, k, d), k) == Some(d),
        other != k ==> member_of(member_put(m, k, d), other) == member_of(m, other),
{
    let out = member_put(m, k, d);
    let s = key_slot(m, k);
    lemma_slot(m, k);
    let found = s < m.len() && m[s].0 == k;
    assert forall|i: int, j: int| 0 <= i < j < out.len() implies text_below((#[trigger] out[i]).0, (#[trigger] out[j]).0) by {
        let x = if found || i < s {
            i
        } else {
            i - 1
        };
        let y = if found || j < s {
            j
        } else {
            j - 1
        };
        if i == s {
            assert(out[i].0 == k);
            assert(out[j] == m[y]);
            if found {
                assert(text_below(m[s].0, m[j].0));
            } else {
                assert(!text_below(m[y].0, k));
                lemma_below_total(m[y].0, k);
                if m[y].0 == k {
                    lemma_below_total(m[s].0, k);
                    if y > s {
                        assert(text_below(m[s].0, m[y].0));
                    }
                }
            }
        } else if j == s {
            assert(out[i] == m[x]);
            assert(text_below(m[x].0, k));
        } else {
            assert(out[i] == m[x] && out[j] == m[y]);
            assert(text_below(m[x].0, m[y].0));
        }
    }
    assert(out[s] == (k, d));
    lemma_member_at(out, s);
    if other != k {
        if exists|i: int| 0 <= i < m.len() && (#[trigger] m[i]).0 == other {
            let i = choose|i: int| 0 <= i < m.len() && (#[trigger] m[i]).0 == other;
            lemma_member_at(m, i);
            let x = if found || i < s {
                i
            } else {
                i + 1
            };
            assert(out[x] == m[i]);
            lemma_member_at(out, x);
        } else if exists|i: int| 0 <= i < out.len() && (#[trigger] out[i]).0 == other {
            let i = choose|i: int| 0 <= i < out.len() && (#[trigger] out[i]).0 == other;
            let x = if found || i < s {
                i
            } else {
                i - 1
            };
            assert(m[x].0 == other);
        }
    }
}

/// The first `n` of some members, put into a map one by one.
pub open spec fn put_all(m: Seq<(Seq<char>, Data)>, n: int) -> Seq<(Seq<char>, Data)>
    decreases n,
{
    if n <= 0 {
        Seq::empty()
    } else {
        member_put(put_all(m, n - 1), m[n - 1].0, m[n - 1].1)
    }
}

/// What was put last under a key is there.
proof fn lemma_put_all(m: Seq<(Seq<char>, Data)>, n: int, i: int)
    requires
        0 <= i < n <= m.len(),
        forall|j: int| i < j < n ==> (#[trigger] m[j]).0 != m[i].0,
    ensures
        sorted(put_all(m, n)),
        member_of(put_all(m, n), m[i].0) == Some(m[i].1),
    decreases n,
{
    lemma_put_sorted(m, n - 1);
    let before = put_all(m, n - 1);
    law_member_is_put(before, m[n - 1].0, m[n - 1].1, m[i].0);
    if i < n - 1 {
        lemma_put_all(m, n - 1, i);
    }
}

proof fn lemma_put_sorted(m: Seq<(Seq<char>, Data)>, n: int)
    requires
        0 <= n <= m.len(),
    ensures
        sorted(put_all(m, n)),
    decreases n,
{
    if n > 0 {
        lemma_put_sorted(m, n - 1);
        law_member_is_put(put_all(m, n - 1), m[n - 1].0, m[n - 1].1, m[n - 1].0);
    }
}

/// Members in any order are read one by one.
proof fn lemma_map_any(ls: Seq<Seq<char>>, i: int, m: Seq<(Seq<char>, Data)>, n: int, indent: nat, fm: Form)
    requires
        0 <= n <= m.len(),
        fm.step > 0,
        forall|k: int| 0 <= k < m.len() ==> key_ok((#[trigger] m[k]).0) && writable(m[k].1),
        lines_at(ls, i, map_lines(m, n, indent, fm)),
        ends_list(ls, i + map_lines(m, n, indent, fm).len(), indent),
    ensures
        map_block(ls, i, indent, Seq::empty()) == map_block(ls, i + map_lines(m, n, indent, fm).len(), indent, put_all(m, n)),
    decreases n,
{
    if n > 0 {
        let front = map_lines(m, n - 1, indent, fm);
        let k = m[n - 1].0;
        let d = m[n - 1].1;
        let last = member_lines(k, d, indent, fm);
        lemma_lines_part(ls, i, front, last);
        lemma_first_lines(k, d, indent, fm);
        let p = i + front.len();
        lemma_line_at(ls, p, last, 0);
        lemma_map_any(ls, i, m, n - 1, indent, fm);
        lemma_member(ls, p, k, d, indent, fm, put_all(m, n - 1));
    }
}

/// Keys may stand in any order, and more than once: each key of front matter is read, with the value
/// that was written last for it.
pub proof fn law_every_key_is_read(m: Seq<(Seq<char>, Data)>, indent: nat, fm: Form, i: int)
    requires
        forall|k: int| 0 <= k < m.len() ==> key_ok((#[trigger] m[k]).0) && writable(m[k].1),
        0 <= i < m.len(),
        forall|j: int| i < j < m.len() ==> (#[trigger] m[j]).0 != m[i].0,
        fm.step > 0,
    ensures
        yaml_data(text_of(map_lines(m, m.len() as int, indent, fm))) matches Data::Object(out) && sorted(out) && member_of(
            out,
            m[i].0,
        ) == Some(m[i].1),
{
    let n = m.len() as int;
    let ls = map_lines(m, n, indent, fm);
    lemma_map_whole(m, n, indent, fm);
    lemma_text_lines(ls);
    lemma_telling_all(ls);
    lemma_map_starts(m, n, indent, fm);
    assert(ls.subrange(0, ls.len() as int) =~= ls);
    lemma_map_any(ls, 0, m, n, indent, fm);
    lemma_put_all(m, n, i);
}

} // verus!
