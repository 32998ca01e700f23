//! Minimal YAML subset for frontmatter: `key: value` maps, block lists (`- item`),
//! flow lists (`[a, b]`), quoted strings, numbers, booleans, null. Nested maps via
//! indentation. Anything unparseable is kept as a string so no document is rejected.

use vstd::prelude::*;
use vstd::slice::slice_subrange;
use vstd::string::*;
use vstd::utf8::*;
use crate::chars::{
    begins, begins_with, char_views, find_from, find_text, has_char, parse_i64, push_chars, same_chars, spelled_i64, text_below, trim_both_white,
    trim_end_white, trim_start_white, trim_white, trim_white_end, trim_white_start, white_prefix, is_below, is_digit,
};
use crate::md::offsets::{byte_len, width_of};
use crate::terms::{cuts, line_spans, text_lines};
use crate::text::{chars_of, string_of};
use crate::value::{holds, Data, Value};

verus! {

/// Where a comment begins: at a `#` behind a blank, outside quotes. Quotes open only at the
/// start of a value or item, so an apostrophe inside plain text (`don't`) is not one.
pub open spec fn comment_at(v: Seq<char>, i: int, quote: Option<char>) -> Option<int>
    decreases v.len() + 1 - i,
{
    if i >= v.len() {
        None
    } else {
        match quote {
            Some(q) => if q == '"' && v[i] == '\\' || q == '\'' && v[i] == '\'' && i + 1 < v.len() && v[i + 1] == '\'' {
                comment_at(v, i + 2, quote)
            } else if v[i] == q {
                comment_at(v, i + 1, None)
            } else {
                comment_at(v, i + 1, quote)
            },
            None => if (v[i] == '"' || v[i] == '\'') && (i == 0 || opens_quote(v[i - 1])) {
                comment_at(v, i + 1, Some(v[i]))
            } else if v[i] == '#' && i > 0 && blank(v[i - 1]) {
                Some(i)
            } else {
                comment_at(v, i + 1, None)
            },
        }
    }
}

pub open spec fn blank(c: char) -> bool {
    c == ' ' || c == '\t'
}

/// May a quote begin behind this character?
pub open spec fn opens_quote(c: char) -> bool {
    c == ' ' || c == '\t' || c == '[' || c == ','
}

/// A value trimmed, without a comment behind it.
pub open spec fn without_comment(v: Seq<char>) -> Seq<char> {
    let t = trim_white(v);
    if t.len() > 0 && t[0] == '#' {
        Seq::empty()
    } else {
        match comment_at(t, 0, None) {
            Some(i) => trim_white_end(t.take(i)),
            None => t,
        }
    }
}

fn find_comment(v: &[char]) -> (r: Option<usize>)
    ensures
        match r {
            Some(i) => comment_at(v@, 0, None) == Some(i as int) && i <= v@.len(),
            None => comment_at(v@, 0, None) is None,
        },
{
    let mut i: usize = 0;
    let mut quote: Option<char> = None;
    let n: usize = v.len();
    while i < n
        invariant
            n == v@.len(),
            comment_at(v@, 0, None) == comment_at(v@, i as int, quote),
        decreases n + 1 - i,
    {
        let c = v[i];
        match quote {
            Some(q) => {
                if q == '"' && c == '\\' || q == '\'' && c == '\'' && n - i > 1 && v[i + 1] == '\'' {
                    if n - i < 2 {
                        assert(comment_at(v@, i + 2, quote) is None);
                        return None;
                    }
                    i += 2;
                } else {
                    if c == q {
                        quote = None;
                    }
                    i += 1;
                }
            },
            None => {
                if (c == '"' || c == '\'') && (i == 0 || v[i - 1] == ' ' || v[i - 1] == '\t' || v[i - 1] == '[' || v[i - 1]
                    == ',') {
                    quote = Some(c);
                } else if c == '#' && i > 0 && (v[i - 1] == ' ' || v[i - 1] == '\t') {
                    return Some(i);
                }
                i += 1;
            },
        }
    }
    None
}

/// `v` trimmed, without a trailing `# comment`.
fn strip_comment<'a>(v: &'a [char]) -> (r: &'a [char])
    ensures
        r@ == without_comment(v@),
        r@.len() <= v@.len(),
{
    let t = trim_both_white(v);
    if t.len() > 0 && t[0] == '#' {
        let e = slice_subrange(t, 0, 0);
        assert(e@ =~= Seq::empty());
        return e;
    }
    match find_comment(t) {
        Some(i) => {
            let h = slice_subrange(t, 0, i);
            assert(h@ =~= t@.take(i as int));
            trim_end_white(h)
        },
        None => t,
    }
}

/// Two quotes in single quotes are one.
pub open spec fn undouble(s: Seq<char>) -> Seq<char>
    decreases s.len(),
{
    if s.len() == 0 {
        Seq::empty()
    } else if s.len() >= 2 && s[0] == '\'' && s[1] == '\'' {
        seq!['\''] + undouble(s.skip(2))
    } else {
        seq![s[0]] + undouble(s.skip(1))
    }
}

pub open spec fn hex_digit(c: char) -> Option<nat> {
    if '0' <= c && c <= '9' {
        Some((c as nat - 48) as nat)
    } else if 'a' <= c && c <= 'f' {
        Some((c as nat - 87) as nat)
    } else if 'A' <= c && c <= 'F' {
        Some((c as nat - 55) as nat)
    } else {
        None
    }
}

/// The number some hexadecimal digits spell.
pub open spec fn hex_value(s: Seq<char>) -> Option<nat>
    decreases s.len(),
{
    if s.len() == 0 {
        Some(0)
    } else {
        match (hex_value(s.drop_last()), hex_digit(s.last())) {
            (Some(n), Some(d)) => Some(n * 16 + d),
            _ => None,
        }
    }
}

/// The character that at most four hexadecimal digits name; a plus sign may stand before them.
pub open spec fn hex_char(s: Seq<char>) -> Option<char> {
    let d = if s.len() > 1 && s[0] == '+' { s.skip(1) } else { s };
    match hex_value(d) {
        Some(n) => if d.len() > 0 && (n < 0xd800 || 0xdfff < n) {
            Some(n as char)
        } else {
            None
        },
        None => None,
    }
}

/// The escapes of double quotes.
pub open spec fn unescape(s: Seq<char>) -> Seq<char>
    decreases s.len(),
{
    if s.len() == 0 {
        Seq::empty()
    } else if s[0] != '\\' {
        seq![s[0]] + unescape(s.skip(1))
    } else if s.len() == 1 {
        seq!['\\']
    } else {
        let c = s[1];
        let rest = s.skip(2);
        if c == 'n' {
            seq!['\n'] + unescape(rest)
        } else if c == 't' {
            seq!['\t'] + unescape(rest)
        } else if c == 'r' {
            seq!['\r'] + unescape(rest)
        } else if c == '0' {
            seq!['\0'] + unescape(rest)
        } else if c == 'u' {
            let n = if rest.len() < 4 { rest.len() as int } else { 4 };
            let hex = rest.take(n);
            match hex_char(hex) {
                Some(ch) => seq![ch] + unescape(rest.skip(n)),
                None => seq!['\\', 'u'] + hex + unescape(rest.skip(n)),
            }
        } else if c == '"' || c == '\\' || c == '/' || c == ' ' {
            seq![c] + unescape(rest)
        } else {
            seq!['\\', c] + unescape(rest)
        }
    }
}

/// The text of a quoted scalar.
pub open spec fn unquoted(v: Seq<char>) -> Option<Seq<char>> {
    if v.len() < 2 {
        None
    } else {
        let inner = v.subrange(1, v.len() - 1);
        if v[0] == '\'' && v.last() == '\'' {
            Some(undouble(inner))
        } else if v[0] == '"' && v.last() == '"' {
            Some(unescape(inner))
        } else {
            None
        }
    }
}

fn undouble_text(s: &[char]) -> (out: Vec<char>)
    ensures
        out@ == undouble(s@),
{
    let mut out: Vec<char> = Vec::new();
    let mut i: usize = 0;
    let n: usize = s.len();
    assert(s@.skip(0) =~= s@);
    assert(out@ + undouble(s@.skip(0)) =~= undouble(s@));
    while i < n
        invariant
            n == s@.len(),
            i <= n,
            undouble(s@) == out@ + undouble(s@.skip(i as int)),
        decreases n - i,
    {
        let ghost rest = s@.skip(i as int);
        let ghost before = out@;
        if n - i >= 2 && s[i] == '\'' && s[i + 1] == '\'' {
            out.push('\'');
            proof {
                assert(rest.skip(2) =~= s@.skip(i + 2));
                assert(before + (seq!['\''] + undouble(s@.skip(i + 2))) =~= out@ + undouble(s@.skip(i + 2)));
            }
            i += 2;
        } else {
            out.push(s[i]);
            proof {
                assert(rest.skip(1) =~= s@.skip(i + 1));
                assert(before + (seq![s@[i as int]] + undouble(s@.skip(i + 1))) =~= out@ + undouble(s@.skip(i + 1)));
            }
            i += 1;
        }
    }
    assert(s@.skip(i as int) =~= Seq::empty());
    assert(out@ + undouble(s@.skip(i as int)) =~= out@);
    out
}

fn digit_of(c: char) -> (r: Option<u32>)
    ensures
        match r {
            Some(d) => hex_digit(c) == Some(d as nat) && d < 16,
            None => hex_digit(c) is None,
        },
{
    if '0' <= c && c <= '9' {
        Some(c as u32 - 48)
    } else if 'a' <= c && c <= 'f' {
        Some(c as u32 - 87)
    } else if 'A' <= c && c <= 'F' {
        Some(c as u32 - 55)
    } else {
        None
    }
}

fn named_char(s: &[char]) -> (r: Option<char>)
    requires
        s@.len() <= 4,
    ensures
        r == hex_char(s@),
{
    let n: usize = s.len();
    let from: usize = if n > 1 && s[0] == '+' {
        1
    } else {
        0
    };
    let ghost d = if n > 1 && s@[0] == '+' { s@.skip(1) } else { s@ };
    if n == 0 {
        return None;
    }
    let mut v: u32 = 0;
    let mut k: usize = from;
    proof {
        assert(d =~= s@.skip(from as int));
        assert(d.take(0) =~= Seq::empty());
    }
    while k < n
        invariant
            n == s@.len(),
            n <= 4,
            from <= k <= n,
            d == s@.skip(from as int),
            d == (if s@.len() > 1 && s@[0] == '+' { s@.skip(1) } else { s@ }),
            hex_value(d.take(k - from)) == Some(v as nat),
            k - from == 0 ==> v == 0,
            k - from == 1 ==> v < 16,
            k - from == 2 ==> v < 256,
            k - from == 3 ==> v < 4096,
            k - from == 4 ==> v < 65536,
            from <= 1,
        decreases n - k,
    {
        proof {
            assert(d.take(k - from + 1).drop_last() =~= d.take(k - from));
            assert(d.take(k - from + 1).last() == s@[k as int]);
        }
        match digit_of(s[k]) {
            Some(x) => {
                v = v * 16 + x;
            },
            None => {
                proof {
                    lemma_hex_none(d, k - from + 1);
                }
                return None;
            },
        }
        k += 1;
    }
    assert(d.take(k - from) =~= d);
    if v < 0xd800 || v > 0xdfff {
        Some(char_of(v))
    } else {
        None
    }
}

/// If the first digits spell nothing, neither do all.
proof fn lemma_hex_none(s: Seq<char>, n: int)
    requires
        0 <= n <= s.len(),
        hex_value(s.take(n)) is None,
    ensures
        hex_value(s) is None,
    decreases s.len() - n,
{
    if n < s.len() {
        assert(s.take(n + 1).drop_last() =~= s.take(n));
        lemma_hex_none(s, n + 1);
    } else {
        assert(s.take(n) =~= s);
    }
}

/// The character with a code below the surrogates or above them.
fn char_of(v: u32) -> (c: char)
    requires
        v < 0x10000,
        v < 0xd800 || v > 0xdfff,
    ensures
        c == v as char,
{
    match char::from_u32(v) {
        Some(c) => {
            proof {
                char_u32_cast(c, v);
            }
            c
        },
        None => ' ',
    }
}

/// What the text at place `i` stands for, and how much of it does.
fn escape_at(s: &[char], i: usize) -> (r: (Vec<char>, usize))
    requires
        i < s@.len(),
    ensures
        1 <= r.1 <= s@.len() - i,
        unescape(s@.skip(i as int)) == r.0@ + unescape(s@.skip(i + r.1)),
{
    let n: usize = s.len();
    let ghost rest = s@.skip(i as int);
    let mut out: Vec<char> = Vec::new();
    assert(rest[0] == s@[i as int]);
    assert(rest.skip(1) =~= s@.skip(i + 1));
    if s[i] != '\\' {
        out.push(s[i]);
        assert(out@ =~= seq![s@[i as int]]);
        return (out, 1);
    }
    if n - i == 1 {
        out.push('\\');
        proof {
            assert(s@.skip(i + 1) =~= Seq::empty());
            assert(out@ + unescape(s@.skip(i + 1)) =~= seq!['\\']);
        }
        return (out, 1);
    }
    let c = s[i + 1];
    assert(rest[1] == c);
    assert(rest.skip(2) =~= s@.skip(i + 2));
    if c == 'u' {
        let k: usize = if n - i - 2 < 4 {
            n - i - 2
        } else {
            4
        };
        let hex = slice_subrange(s, i + 2, i + 2 + k);
        proof {
            assert(rest.skip(2).take(k as int) =~= hex@);
            assert(rest.skip(2).skip(k as int) =~= s@.skip(i + 2 + k));
        }
        match named_char(hex) {
            Some(ch) => {
                out.push(ch);
                assert(out@ =~= seq![ch]);
            },
            None => {
                out.push('\\');
                out.push('u');
                push_chars(&mut out, hex);
                assert(out@ =~= seq!['\\', 'u'] + hex@);
            },
        }
        return (out, 2 + k);
    }
    let plain: Option<char> = if c == 'n' {
        Some('\n')
    } else if c == 't' {
        Some('\t')
    } else if c == 'r' {
        Some('\r')
    } else if c == '0' {
        Some('\0')
    } else if c == '"' || c == '\\' || c == '/' || c == ' ' {
        Some(c)
    } else {
        None
    };
    match plain {
        Some(p) => {
            out.push(p);
            assert(out@ =~= seq![p]);
        },
        None => {
            out.push('\\');
            out.push(c);
            assert(out@ =~= seq!['\\', c]);
        },
    }
    (out, 2)
}

fn unescape_text(s: &[char]) -> (out: Vec<char>)
    ensures
        out@ == unescape(s@),
{
    let mut out: Vec<char> = Vec::new();
    let mut i: usize = 0;
    let n: usize = s.len();
    assert(s@.skip(0) =~= s@);
    assert(out@ + unescape(s@.skip(0)) =~= unescape(s@));
    while i < n
        invariant
            n == s@.len(),
            i <= n,
            unescape(s@) == out@ + unescape(s@.skip(i as int)),
        decreases n - i,
    {
        let ghost before = out@;
        let (piece, step): (Vec<char>, usize) = escape_at(s, i);
        push_chars(&mut out, piece.as_slice());
        proof {
            let rest = unescape(s@.skip(i + step));
            assert(before + (piece@ + rest) =~= out@ + rest);
        }
        i = i + step;
    }
    assert(s@.skip(i as int) =~= Seq::empty());
    assert(out@ + unescape(s@.skip(i as int)) =~= out@);
    out
}

/// The text of a quoted scalar: `''` is a quote in single quotes, backslash escapes work in
/// double quotes. `None` when `v` is not quoted.
fn unquote(v: &[char]) -> (r: Option<Vec<char>>)
    ensures
        match r {
            Some(t) => unquoted(v@) == Some(t@),
            None => unquoted(v@) is None,
        },
{
    let n: usize = v.len();
    if n < 2 {
        return None;
    }
    let inner = slice_subrange(v, 1, n - 1);
    if v[0] == '\'' && v[n - 1] == '\'' {
        Some(undouble_text(inner))
    } else if v[0] == '"' && v[n - 1] == '"' {
        Some(unescape_text(inner))
    } else {
        None
    }
}

/// How many digits a text begins with.
pub open spec fn digit_run(s: Seq<char>) -> int
    decreases s.len(),
{
    if s.len() > 0 && is_digit(s[0]) {
        1 + digit_run(s.skip(1))
    } else {
        0
    }
}

pub open spec fn unsigned(s: Seq<char>) -> Seq<char> {
    if s.len() > 0 && (s[0] == '+' || s[0] == '-') {
        s.skip(1)
    } else {
        s
    }
}

/// An exponent: `e`, and digits with or without a sign.
pub open spec fn exponent(s: Seq<char>) -> bool {
    let d = unsigned(s.skip(1));
    s.len() > 0 && (s[0] == 'e' || s[0] == 'E') && d.len() > 0 && digit_run(d) == d.len()
}

/// A number in decimal notation: digits with or without a point among them, a sign before and an
/// exponent behind them.
pub open spec fn decimal_number(s: Seq<char>) -> bool {
    let t = unsigned(s);
    let a = digit_run(t);
    let after = t.skip(a);
    let b = if after.len() > 0 && after[0] == '.' { digit_run(after.skip(1)) } else { 0 };
    let rest = if after.len() > 0 && after[0] == '.' { after.skip(1 + b) } else { after };
    a + b > 0 && (rest.len() == 0 || exponent(rest))
}

fn count_digits(s: &[char], from: usize) -> (n: usize)
    requires
        from <= s@.len(),
    ensures
        n == digit_run(s@.skip(from as int)),
        from + n <= s@.len(),
{
    let mut i: usize = from;
    while i < s.len() && '0' <= s[i] && s[i] <= '9'
        invariant
            from <= i <= s@.len(),
            digit_run(s@.skip(from as int)) == i - from + digit_run(s@.skip(i as int)),
        decreases s@.len() - i,
    {
        assert(s@.skip(i as int).skip(1) =~= s@.skip(i + 1));
        i += 1;
    }
    i - from
}

fn skip_sign(s: &[char], from: usize) -> (r: usize)
    requires
        from <= s@.len(),
    ensures
        from <= r <= s@.len(),
        s@.skip(r as int) == unsigned(s@.skip(from as int)),
{
    if from < s.len() && (s[from] == '+' || s[from] == '-') {
        assert(s@.skip(from as int).skip(1) =~= s@.skip(from + 1));
        from + 1
    } else {
        from
    }
}

/// Is a text a number in decimal notation?
pub fn is_decimal_number(s: &[char]) -> (r: bool)
    ensures
        r == decimal_number(s@),
{
    let n: usize = s.len();
    assert(s@.skip(0) =~= s@);
    let at = skip_sign(s, 0);
    let a: usize = count_digits(s, at);
    let ghost t = unsigned(s@);
    assert(t.skip(a as int) =~= s@.skip(at + a));
    let point: bool = at + a < n && s[at + a] == '.';
    let mut b: usize = 0;
    let mut rest: usize = at + a;
    if point {
        b = count_digits(s, at + a + 1);
        rest = at + a + 1 + b;
        proof {
            assert(t.skip(a as int).skip(1) =~= s@.skip(at + a + 1));
            assert(t.skip(a as int).skip(1 + b as int) =~= s@.skip(rest as int));
        }
    }
    if a == 0 && b == 0 {
        return false;
    }
    if rest == n {
        return true;
    }
    if s[rest] != 'e' && s[rest] != 'E' {
        return false;
    }
    assert(s@.skip(rest as int).skip(1) =~= s@.skip(rest + 1));
    let d = skip_sign(s, rest + 1);
    let k: usize = count_digits(s, d);
    d < n && k == n - d
}

/// The items of a flow list's inside from place `start` on, read up to place `i`: commas inside
/// quotes or nested brackets do not separate.
pub open spec fn items_from(s: Seq<char>, start: int, i: int, depth: int, quote: Option<char>) -> Seq<Seq<char>>
    decreases s.len() + 1 - i,
{
    if i >= s.len() {
        seq![s.skip(start)]
    } else {
        match quote {
            Some(q) => if q == '"' && s[i] == '\\' || q == '\'' && s[i] == '\'' && i + 1 < s.len() && s[i + 1] == '\'' {
                items_from(s, start, i + 2, depth, quote)
            } else if s[i] == q {
                items_from(s, start, i + 1, depth, None)
            } else {
                items_from(s, start, i + 1, depth, quote)
            },
            None => if (s[i] == '"' || s[i] == '\'') && trim_white(s.subrange(start, i)).len() == 0 {
                items_from(s, start, i + 1, depth, Some(s[i]))
            } else if s[i] == '[' || s[i] == '{' {
                items_from(s, start, i + 1, depth + 1, None)
            } else if s[i] == ']' || s[i] == '}' {
                items_from(s, start, i + 1, depth - 1, None)
            } else if s[i] == ',' && depth == 0 {
                seq![s.subrange(start, i)] + items_from(s, i + 1, i + 1, depth, None)
            } else {
                items_from(s, start, i + 1, depth, None)
            },
        }
    }
}

/// The items of a flow list's inside (`a, "b, c", [d]`): commas inside quotes or nested
/// brackets do not separate.
fn flow_items<'a>(s: &'a [char]) -> (out: Vec<&'a [char]>)
    ensures
        char_views(out@) == items_from(s@, 0, 0, 0, None),
        forall|k: int| 0 <= k < out@.len() ==> (#[trigger] out@[k])@.len() <= s@.len(),
{
    let n: usize = s.len();
    let mut out: Vec<&'a [char]> = Vec::new();
    let mut start: usize = 0;
    let mut depth: i128 = 0;
    let mut quote: Option<char> = None;
    let mut i: usize = 0;
    let ghost all = items_from(s@, 0, 0, 0, None);
    assert(char_views(out@) + all =~= all);
    while i < n
        invariant
            n == s@.len(),
            start <= i,
            start <= n,
            -i <= depth <= i,
            i <= n,
            all == char_views(out@) + items_from(s@, start as int, i as int, depth as int, quote),
            forall|k: int| 0 <= k < out@.len() ==> (#[trigger] out@[k])@.len() <= s@.len(),
        decreases n - i,
    {
        let c = s[i];
        let mut step: usize = 1;
        match quote {
            Some(q) => {
                if q == '"' && c == '\\' || q == '\'' && c == '\'' && n - i > 1 && s[i + 1] == '\'' {
                    step = 2;
                } else if c == q {
                    quote = None;
                }
            },
            None => {
                let so_far = slice_subrange(s, start, i);
                if (c == '"' || c == '\'') && trim_both_white(so_far).len() == 0 {
                    quote = Some(c);
                } else if c == '[' || c == '{' {
                    depth = depth + 1;
                } else if c == ']' || c == '}' {
                    depth = depth - 1;
                } else if c == ',' && depth == 0 {
                    let ghost before = out@;
                    out.push(so_far);
                    proof {
                        assert(char_views(out@) =~= char_views(before).push(so_far@));
                        let rest = items_from(s@, i + 1, i + 1, depth as int, None);
                        assert(char_views(before) + (seq![so_far@] + rest) =~= char_views(out@) + rest);
                    }
                    start = i + 1;
                }
            },
        }
        if step > n - i {
            assert(items_from(s@, start as int, i + 2, depth as int, quote) == items_from(
                s@,
                start as int,
                n as int,
                depth as int,
                quote,
            ));
            i = n;
        } else {
            i = i + step;
        }
    }
    let last = slice_subrange(s, start, n);
    assert(last@ =~= s@.skip(start as int));
    let ghost before = out@;
    out.push(last);
    assert(char_views(out@) =~= char_views(before) + seq![last@]);
    out
}

/// The members of an object, one put in, in place of one with its key.
pub open spec fn key_slot(m: Seq<(Seq<char>, Data)>, k: Seq<char>) -> int
    decreases m.len(),
{
    if m.len() > 0 && text_below(m[0].0, k) {
        1 + key_slot(m.skip(1), k)
    } else {
        0
    }
}

pub open spec fn member_put(m: Seq<(Seq<char>, Data)>, k: Seq<char>, d: Data) -> Seq<(Seq<char>, Data)> {
    let i = key_slot(m, k);
    if i < m.len() && m[i].0 == k {
        m.update(i, (k, d))
    } else {
        m.insert(i, (k, d))
    }
}

proof fn lemma_key_slot(m: Seq<(Seq<char>, Data)>, k: Seq<char>)
    ensures
        0 <= key_slot(m, k) <= m.len(),
    decreases m.len(),
{
    if m.len() > 0 && text_below(m[0].0, k) {
        lemma_key_slot(m.skip(1), k);
    }
}

/// Members that hold the given data.
spec fn members_hold(v: Seq<(String, Value)>, m: Seq<(Seq<char>, Data)>) -> bool {
    &&& v.len() == m.len()
    &&& forall|i: int| #![trigger v[i]] 0 <= i < v.len() ==> v[i].0@ == m[i].0 && holds(v[i].1, m[i].1)
}

spec fn items_hold(v: Seq<Value>, m: Seq<Data>) -> bool {
    &&& v.len() == m.len()
    &&& forall|i: int| #![trigger v[i]] 0 <= i < v.len() ==> holds(v[i], m[i])
}

fn put_member(v: &mut Vec<(String, Value)>, key: &[char], x: Value, m: Ghost<Seq<(Seq<char>, Data)>>, d: Ghost<Data>)
    requires
        members_hold(old(v)@, m@),
        holds(x, d@),
    ensures
        members_hold(final(v)@, member_put(m@, key@, d@)),
{
    let k = string_of(key);
    let mut i: usize = 0;
    let ghost mm = m@;
    proof {
        lemma_key_slot(mm, key@);
        assert(mm.skip(0) =~= mm);
    }
    while i < v.len() && is_below(chars_of(v[i].0.as_str()).as_slice(), key)
        invariant
            i <= v@.len(),
            mm == m@,
            members_hold(v@, mm),
            key_slot(mm, key@) == i + key_slot(mm.skip(i as int), key@),
        decreases v@.len() - i,
    {
        assert(mm.skip(i as int)[0] == mm[i as int]);
        assert(v@[i as int].0@ == mm[i as int].0);
        assert(mm.skip(i as int).skip(1) =~= mm.skip(i + 1));
        i += 1;
    }
    proof {
        if i < v@.len() {
            assert(mm.skip(i as int)[0] == mm[i as int]);
            assert(v@[i as int].0@ == mm[i as int].0);
        }
        assert(key_slot(mm, key@) == i);
    }
    let ghost before = v@;
    let found: bool = i < v.len() && same_chars(chars_of(v[i].0.as_str()).as_slice(), key);
    if found {
        v.set(i, (k, x));
    } else {
        v.insert(i, (k, x));
    }
    proof {
        let out = member_put(mm, key@, d@);
        assert forall|j: int| #![trigger v@[j]] 0 <= j < v@.len() implies v@[j].0@ == out[j].0 && holds(v@[j].1, out[j].1) by {
            if found {
                if j != i {
                    assert(v@[j] == before[j]);
                }
            } else if j < i {
                assert(v@[j] == before[j]);
            } else if j > i {
                assert(v@[j] == before[j - 1]);
            }
        }
    }
}

/// The JSON number that a text in decimal notation stands for, as it is printed; none if it is too
/// great for one.
pub uninterp spec fn json_number(s: Seq<char>) -> Option<Seq<char>>;

/// `serde_json::Number::from_f64`, of what `str::parse` reads the text as: the JSON number nearest to
/// it, as `serde_json` prints it, and none where the text is no number or the number is not finite.
/// The result depends on the text alone, and is only named.
#[verifier::external_body]
fn number_text(s: &str) -> (r: Option<String>)
    ensures
        match r {
            Some(t) => json_number(s@) == Some(t@),
            None => json_number(s@) is None,
        },
{
    match s.parse() {
        Ok(x) => serde_json::Number::from_f64(x).map(|n| n.to_string()),
        Err(_) => None,
    }
}

/// What a scalar is: null, a truth value, quoted text, a number, a flow list, or plain text.
pub open spec fn scalar_data(raw: Seq<char>) -> Data
    decreases 2 * raw.len() + 1, 0int,
{
    let v = without_comment(raw);
    let inner = v.subrange(1, v.len() - 1);
    if v.len() == 0 || v == "~"@ || v == "null"@ {
        Data::Null
    } else if v == "true"@ {
        Data::Bool(true)
    } else if v == "false"@ {
        Data::Bool(false)
    } else if unquoted(v) is Some {
        Data::Text(unquoted(v)->0)
    } else if spelled_i64(v) is Some {
        Data::Int(spelled_i64(v)->0 as int)
    } else if decimal_number(v) && json_number(v) is Some {
        Data::Decimal(json_number(v)->0)
    } else if v[0] == '[' && v.last() == ']' && v.len() >= 2 {
        if trim_white(inner).len() == 0 {
            Data::List(Seq::empty())
        } else {
            Data::List(scalars(items_from(inner, 0, 0, 0, None), raw.len()))
        }
    } else {
        Data::Text(v)
    }
}

/// What the items of a list of `n` characters are; each is shorter.
pub open spec fn scalars(items: Seq<Seq<char>>, n: nat) -> Seq<Data>
    decreases 2 * n, items.len() as int,
{
    if items.len() == 0 {
        Seq::empty()
    } else {
        scalars(items.drop_last(), n).push(
            if items.last().len() < n {
                scalar_data(items.last())
            } else {
                Data::Null
            },
        )
    }
}

fn is_text(v: &[char], s: &str) -> (r: bool)
    ensures
        r == (v@ == s@),
{
    same_chars(v, chars_of(s).as_slice())
}

fn scalar(raw: &[char]) -> (r: Value)
    ensures
        holds(r, scalar_data(raw@)),
    decreases raw@.len(),
{
    let v = strip_comment(raw);
    let n: usize = v.len();
    if n == 0 || is_text(v, "~") || is_text(v, "null") {
        return Value::Null;
    }
    if is_text(v, "true") {
        return Value::Bool(true);
    }
    if is_text(v, "false") {
        return Value::Bool(false);
    }
    match unquote(v) {
        Some(s) => {
            return Value::Text(string_of(s.as_slice()));
        },
        None => {},
    }
    match parse_i64(v) {
        Some(i) => {
            return Value::Int(i);
        },
        None => {},
    }
    if is_decimal_number(v) {
        match number_text(string_of(v).as_str()) {
            Some(t) => {
                return Value::Decimal(t);
            },
            None => {},
        }
    }
    if v[0] == '[' && v[n - 1] == ']' && n >= 2 {
        let inner = slice_subrange(v, 1, n - 1);
        let mut out: Vec<Value> = Vec::new();
        if trim_both_white(inner).len() == 0 {
            return Value::List(out);
        }
        let items = flow_items(inner);
        let ghost all = char_views(items@);
        let mut i: usize = 0;
        assert(all.take(0) =~= Seq::empty());
        while i < items.len()
            invariant
                i <= items@.len(),
                all == char_views(items@),
                inner@.len() + 2 == n,
                n <= raw@.len(),
                forall|k: int| 0 <= k < items@.len() ==> (#[trigger] items@[k])@.len() <= inner@.len(),
                items_hold(out@, scalars(all.take(i as int), raw@.len())),
            decreases items@.len() - i,
        {
            proof {
                assert(all.take(i + 1).drop_last() =~= all.take(i as int));
                assert(all.take(i + 1).last() == items@[i as int]@);
            }
            let ghost before = out@;
            let x = scalar(items[i]);
            out.push(x);
            proof {
                let m = scalars(all.take(i + 1), raw@.len());
                assert forall|k: int| #![trigger out@[k]] 0 <= k < out@.len() implies holds(out@[k], m[k]) by {
                    if k < before.len() {
                        assert(out@[k] == before[k]);
                    }
                }
            }
            i += 1;
        }
        assert(all.take(i as int) =~= all);
        return Value::List(out);
    }
    Value::Text(string_of(v))
}

/// `key: value` with the value's trailing comment removed.
pub open spec fn key_value(s: Seq<char>) -> Option<(Seq<char>, Seq<char>)> {
    if s.len() > 0 && (s[0] == '"' || s[0] == '\'' || s[0] == '[' || s[0] == '{') {
        None
    } else {
        match colon_at(s) {
            None => None,
            Some(p) => {
                let k = trim_white(s.take(p));
                if k.len() == 0 || k.contains(' ') && k.contains('"') {
                    None
                } else {
                    Some((k, without_comment(s.skip(p + 1))))
                }
            },
        }
    }
}

/// The colon between a key and its value: one with a blank behind it, or at the end.
pub open spec fn colon_at(s: Seq<char>) -> Option<int> {
    match find_from(s, ": "@, 0) {
        Some(i) => Some(i),
        None => if s.len() > 0 && s.last() == ':' {
            Some(s.len() - 1)
        } else {
            None
        },
    }
}

fn split_kv<'a>(s: &'a [char]) -> (r: Option<(&'a [char], &'a [char])>)
    ensures
        match r {
            Some(p) => key_value(s@) == Some((p.0@, p.1@)),
            None => key_value(s@) is None,
        },
{
    let n: usize = s.len();
    if n > 0 && (s[0] == '"' || s[0] == '\'' || s[0] == '[' || s[0] == '{') {
        return None;
    }
    let sep = chars_of(": ");
    proof {
        reveal_strlit(": ");
    }
    let p: usize = match find_text(s, sep.as_slice(), 0) {
        Some(i) => i,
        None => {
            if n > 0 && s[n - 1] == ':' {
                n - 1
            } else {
                return None;
            }
        },
    };
    let h = slice_subrange(s, 0, p);
    assert(h@ =~= s@.take(p as int));
    let k = trim_both_white(h);
    if k.len() == 0 || has_char(k, ' ') && has_char(k, '"') {
        return None;
    }
    let t = slice_subrange(s, p + 1, n);
    assert(t@ =~= s@.skip(p + 1));
    Some((k, strip_comment(t)))
}

/// How far a line is indented, in bytes.
pub open spec fn indent_of(l: Seq<char>) -> nat {
    byte_len(l.take(l.len() - trim_white_start(l).len()))
}

fn line_indent(l: &[char]) -> (n: u128)
    ensures
        n == indent_of(l@),
{
    let k: usize = white_prefix(l);
    let mut n: u128 = 0;
    let mut i: usize = 0;
    assert(l@.take(0) =~= Seq::empty());
    while i < k
        invariant
            i <= k <= l@.len(),
            k <= usize::MAX,
            n == byte_len(l@.take(i as int)),
            n <= 4 * i,
        decreases k - i,
    {
        proof {
            assert(l@.take(i + 1).drop_last() =~= l@.take(i as int));
        }
        n = n + width_of(l[i]) as u128;
        i += 1;
    }
    assert(l@.len() - trim_white_start(l@).len() == k);
    n
}

/// Is a line an item of a block list?
pub open spec fn list_item(l: Seq<char>) -> bool {
    begins(trim_white_start(l), "- "@) || trim_white(l) == "-"@
}

fn is_list_item(l: &[char]) -> (r: bool)
    ensures
        r == list_item(l@),
{
    begins_with(trim_start_white(l), chars_of("- ").as_slice()) || is_text(trim_both_white(l), "-")
}

pub open spec fn bounded(j: int, lo: int, hi: int) -> int {
    if j < lo {
        lo
    } else if j > hi {
        hi
    } else {
        j
    }
}

/// What the lines from `i` on say at an indentation, and the first line behind that.
pub open spec fn block(ls: Seq<Seq<char>>, i: int, indent: nat) -> (Data, int)
    decreases ls.len() - i, 2int,
{
    if i >= ls.len() {
        (Data::Null, i)
    } else if list_item(ls[i]) {
        let r = list_block(ls, i, indent, Seq::empty());
        (Data::List(r.0), r.1)
    } else {
        let r = map_block(ls, i, indent, Seq::empty());
        (Data::Object(r.0), r.1)
    }
}

/// The items of a block list.
pub open spec fn list_block(ls: Seq<Seq<char>>, i: int, indent: nat, acc: Seq<Data>) -> (Seq<Data>, int)
    decreases ls.len() - i, 1int,
{
    if !(0 <= i < ls.len() && indent_of(ls[i]) == indent && list_item(ls[i])) {
        (acc, i)
    } else {
        let item = without_comment(trim_white_start(ls[i]).skip(1));
        if item.len() == 0 {
            if i + 1 < ls.len() && indent_of(ls[i + 1]) > indent {
                let (d, j) = block(ls, i + 1, indent_of(ls[i + 1]));
                list_block(ls, bounded(j, i + 1, ls.len() as int), indent, acc.push(d))
            } else {
                list_block(ls, i + 1, indent, acc.push(Data::Null))
            }
        } else {
            match key_value(item) {
                Some((k, v)) => {
                    let (m, j) = inline_members(ls, i + 1, indent, member_put(Seq::empty(), k, scalar_data(v)));
                    list_block(ls, bounded(j, i + 1, ls.len() as int), indent, acc.push(Data::Object(m)))
                },
                None => list_block(ls, i + 1, indent, acc.push(scalar_data(item))),
            }
        }
    }
}

/// The further members of a map that begins in a list item: the lines indented deeper.
pub open spec fn inline_members(ls: Seq<Seq<char>>, i: int, indent: nat, m: Seq<(Seq<char>, Data)>) -> (
    Seq<(Seq<char>, Data)>,
    int,
)
    decreases ls.len() - i,
{
    if !(0 <= i < ls.len() && indent_of(ls[i]) > indent) {
        (m, i)
    } else {
        match key_value(trim_white(ls[i])) {
            Some((k, v)) => inline_members(ls, i + 1, indent, member_put(m, k, scalar_data(v))),
            None => inline_members(ls, i + 1, indent, m),
        }
    }
}

/// The members of a map.
pub open spec fn map_block(ls: Seq<Seq<char>>, i: int, indent: nat, m: Seq<(Seq<char>, Data)>) -> (
    Seq<(Seq<char>, Data)>,
    int,
)
    decreases ls.len() - i, 1int,
{
    if !(0 <= i < ls.len()) || indent_of(ls[i]) < indent {
        (m, i)
    } else if indent_of(ls[i]) > indent {
        map_block(ls, i + 1, indent, m)
    } else {
        match key_value(trim_white(ls[i])) {
            None => map_block(ls, i + 1, indent, m),
            Some((k, v)) => if v.len() > 0 {
                map_block(ls, i + 1, indent, member_put(m, k, scalar_data(v)))
            } else if i + 1 < ls.len() && indent_of(ls[i + 1]) > indent {
                let (d, j) = block(ls, i + 1, indent_of(ls[i + 1]));
                map_block(ls, bounded(j, i + 1, ls.len() as int), indent, member_put(m, k, d))
            } else if i + 1 < ls.len() && indent_of(ls[i + 1]) == indent && begins(trim_white_start(ls[i + 1]), "- "@) {
                let (d, j) = block(ls, i + 1, indent);
                map_block(ls, bounded(j, i + 1, ls.len() as int), indent, member_put(m, k, d))
            } else {
                map_block(ls, i + 1, indent, member_put(m, k, Data::Null))
            },
        }
    }
}

fn parse_block<'a>(lines: &Vec<&'a [char]>, i: usize, indent: u128) -> (r: (Value, usize))
    requires
        i <= lines@.len(),
    ensures
        ({
            let b = block(char_views(lines@), i as int, indent as nat);
            holds(r.0, b.0) && r.1 == b.1
        }),
        i <= r.1 <= lines@.len(),
    decreases lines@.len() - i, 2int,
{
    if i >= lines.len() {
        return (Value::Null, i);
    }
    assert(char_views(lines@)[i as int] == lines@[i as int]@);
    if is_list_item(lines[i]) {
        let (items, j) = parse_list(lines, i, indent);
        (Value::List(items), j)
    } else {
        let (members, j) = parse_map(lines, i, indent);
        (Value::Object(members), j)
    }
}

fn parse_list<'a>(lines: &Vec<&'a [char]>, from: usize, indent: u128) -> (r: (Vec<Value>, usize))
    requires
        from <= lines@.len(),
    ensures
        ({
            let b = list_block(char_views(lines@), from as int, indent as nat, Seq::empty());
            items_hold(r.0@, b.0) && r.1 == b.1
        }),
        from <= r.1 <= lines@.len(),
    decreases lines@.len() - from, 1int,
{
    let ghost ls = char_views(lines@);
    let mut out: Vec<Value> = Vec::new();
    let ghost mut acc: Seq<Data> = Seq::empty();
    let mut i: usize = from;
    let n: usize = lines.len();
    while i < n && line_indent(lines[i]) == indent && is_list_item(lines[i])
        invariant
            n == lines@.len(),
            from <= i <= n,
            ls == char_views(lines@),
            items_hold(out@, acc),
            list_block(ls, from as int, indent as nat, Seq::empty()) == list_block(ls, i as int, indent as nat, acc),
        decreases n - i,
    {
        let ghost before = out@;
        let ghost acc0 = acc;
        assert(ls[i as int] == lines@[i as int]@);
        assert(i + 1 < n ==> ls[i + 1] == lines@[i + 1]@);
        let t = trim_start_white(lines[i]);
        proof {
            reveal_strlit("- ");
            reveal_strlit("-");
            lemma_item_starts(ls[i as int]);
        }
        let tail = slice_subrange(t, 1, t.len());
        assert(tail@ =~= t@.skip(1));
        let item = strip_comment(tail);
        if item.len() == 0 {
            if n - i > 1 && line_indent(lines[i + 1]) > indent {
                let (v, j): (Value, usize) = parse_block(lines, i + 1, line_indent(lines[i + 1]));
                proof {
                    let d = block(ls, i + 1, indent_of(ls[i + 1])).0;
                    acc = acc0.push(d);
                }
                out.push(v);
                i = j;
            } else {
                proof {
                    acc = acc0.push(Data::Null);
                }
                out.push(Value::Null);
                i = i + 1;
            }
        } else {
            match split_kv(item) {
                Some((k, v)) => {
                    let mut m: Vec<(String, Value)> = Vec::new();
                    let x = scalar(v);
                    let ghost m0 = Seq::<(Seq<char>, Data)>::empty();
                    put_member(&mut m, k, x, Ghost(m0), Ghost(scalar_data(v@)));
                    let (m, j) = parse_inline(lines, i + 1, indent, m, Ghost(member_put(m0, k@, scalar_data(v@))));
                    proof {
                        let all = inline_members(ls, i + 1, indent as nat, member_put(m0, k@, scalar_data(v@))).0;
                        acc = acc0.push(Data::Object(all));
                    }
                    out.push(Value::Object(m));
                    i = j;
                },
                None => {
                    let x = scalar(item);
                    proof {
                        acc = acc0.push(scalar_data(item@));
                    }
                    out.push(x);
                    i = i + 1;
                },
            }
        }
        proof {
            assert forall|k: int| #![trigger out@[k]] 0 <= k < out@.len() implies holds(out@[k], acc[k]) by {
                if k < before.len() {
                    assert(out@[k] == before[k]);
                }
            }
        }
    }
    proof {
        if i < n {
            assert(ls[i as int] == lines@[i as int]@);
        }
    }
    (out, i)
}

/// A list item has a character to take off.
proof fn lemma_item_starts(l: Seq<char>)
    requires
        list_item(l),
        "- "@.len() == 2,
        "-"@.len() == 1,
    ensures
        trim_white_start(l).len() >= 1,
{
    if !begins(trim_white_start(l), "- "@) {
        if trim_white_start(l).len() == 0 {
            assert(trim_white(l).len() == 0);
        }
    }
}

fn parse_inline<'a>(
    lines: &Vec<&'a [char]>,
    from: usize,
    indent: u128,
    members: Vec<(String, Value)>,
    m: Ghost<Seq<(Seq<char>, Data)>>,
) -> (r: (Vec<(String, Value)>, usize))
    requires
        from <= lines@.len(),
        members_hold(members@, m@),
    ensures
        ({
            let b = inline_members(char_views(lines@), from as int, indent as nat, m@);
            members_hold(r.0@, b.0) && r.1 == b.1
        }),
        from <= r.1 <= lines@.len(),
{
    let ghost ls = char_views(lines@);
    let mut out = members;
    let ghost mut acc = m@;
    let mut i: usize = from;
    let n: usize = lines.len();
    while i < n && line_indent(lines[i]) > indent
        invariant
            n == lines@.len(),
            from <= i <= n,
            ls == char_views(lines@),
            members_hold(out@, acc),
            inline_members(ls, from as int, indent as nat, m@) == inline_members(ls, i as int, indent as nat, acc),
        decreases n - i,
    {
        assert(ls[i as int] == lines@[i as int]@);
        match split_kv(trim_both_white(lines[i])) {
            Some((k, v)) => {
                let x = scalar(v);
                put_member(&mut out, k, x, Ghost(acc), Ghost(scalar_data(v@)));
                proof {
                    acc = member_put(acc, k@, scalar_data(v@));
                }
            },
            None => {},
        }
        i += 1;
    }
    proof {
        if i < n {
            assert(ls[i as int] == lines@[i as int]@);
        }
    }
    (out, i)
}

fn parse_map<'a>(lines: &Vec<&'a [char]>, from: usize, indent: u128) -> (r: (Vec<(String, Value)>, usize))
    requires
        from <= lines@.len(),
    ensures
        ({
            let b = map_block(char_views(lines@), from as int, indent as nat, Seq::empty());
            members_hold(r.0@, b.0) && r.1 == b.1
        }),
        from <= r.1 <= lines@.len(),
    decreases lines@.len() - from, 1int,
{
    let ghost ls = char_views(lines@);
    let mut out: Vec<(String, Value)> = Vec::new();
    let ghost mut acc: Seq<(Seq<char>, Data)> = Seq::empty();
    let mut i: usize = from;
    let n: usize = lines.len();
    while i < n && line_indent(lines[i]) >= indent
        invariant
            n == lines@.len(),
            from <= i <= n,
            ls == char_views(lines@),
            members_hold(out@, acc),
            map_block(ls, from as int, indent as nat, Seq::empty()) == map_block(ls, i as int, indent as nat, acc),
        decreases n - i,
    {
        assert(ls[i as int] == lines@[i as int]@);
        assert(i + 1 < n ==> ls[i + 1] == lines@[i + 1]@);
        if line_indent(lines[i]) > indent {
            i += 1;
        } else {
            match split_kv(trim_both_white(lines[i])) {
                None => {
                    i += 1;
                },
                Some((k, v)) => {
                    let dash = chars_of("- ");
                    if v.len() > 0 {
                        let x = scalar(v);
                        put_member(&mut out, k, x, Ghost(acc), Ghost(scalar_data(v@)));
                        proof {
                            acc = member_put(acc, k@, scalar_data(v@));
                        }
                        i += 1;
                    } else if n - i > 1 && line_indent(lines[i + 1]) > indent {
                        let (x, j): (Value, usize) = parse_block(lines, i + 1, line_indent(lines[i + 1]));
                        let ghost d = block(ls, i + 1, indent_of(ls[i + 1])).0;
                        put_member(&mut out, k, x, Ghost(acc), Ghost(d));
                        proof {
                            acc = member_put(acc, k@, d);
                        }
                        i = j;
                    } else if n - i > 1 && line_indent(lines[i + 1]) == indent && begins_with(
                        trim_start_white(lines[i + 1]),
                        dash.as_slice(),
                    ) {
                        let (x, j): (Value, usize) = parse_block(lines, i + 1, indent);
                        let ghost d = block(ls, i + 1, indent as nat).0;
                        put_member(&mut out, k, x, Ghost(acc), Ghost(d));
                        proof {
                            acc = member_put(acc, k@, d);
                        }
                        i = j;
                    } else {
                        put_member(&mut out, k, Value::Null, Ghost(acc), Ghost(Data::Null));
                        proof {
                            acc = member_put(acc, k@, Data::Null);
                        }
                        i += 1;
                    }
                },
            }
        }
    }
    proof {
        if i < n {
            assert(ls[i as int] == lines@[i as int]@);
        }
    }
    (out, i)
}

/// Does a line say something? Blank lines and comments do not.
pub open spec fn telling(l: Seq<char>) -> bool {
    let t = trim_white_start(l);
    trim_white(l).len() > 0 && !(t.len() > 0 && t[0] == '#')
}

pub open spec fn telling_lines(ls: Seq<Seq<char>>) -> Seq<Seq<char>>
    decreases ls.len(),
{
    if ls.len() == 0 {
        Seq::empty()
    } else if telling(ls.last()) {
        telling_lines(ls.drop_last()).push(ls.last())
    } else {
        telling_lines(ls.drop_last())
    }
}

/// What a block of front matter says.
pub open spec fn yaml_data(text: Seq<char>) -> Data {
    let ls = telling_lines(text_lines(text));
    if ls.len() == 0 {
        Data::Object(Seq::empty())
    } else {
        block(ls, 0, indent_of(ls[0])).0
    }
}

/// Reads a block of front matter. No text is rejected: what cannot be read otherwise is kept as a
/// string.
pub fn parse(text: &str) -> (r: Option<Value>)
    ensures
        r matches Some(v) && holds(v, yaml_data(text@)),
{
    let c = chars_of(text);
    let spans = line_spans(c.as_slice());
    let ghost all = text_lines(text@);
    let mut lines: Vec<&[char]> = Vec::new();
    let mut i: usize = 0;
    assert(all.take(0) =~= Seq::empty());
    assert(char_views(lines@) =~= Seq::empty());
    while i < spans.len()
        invariant
            i <= spans@.len(),
            c@ == text@,
            all == text_lines(text@),
            cuts(c@, spans@, all),
            char_views(lines@) == telling_lines(all.take(i as int)),
        decreases spans@.len() - i,
    {
        let l = slice_subrange(c.as_slice(), spans[i].from, spans[i].to);
        let ghost before = lines@;
        proof {
            assert(l@ == all[i as int]);
            assert(all.take(i + 1).drop_last() =~= all.take(i as int));
            assert(all.take(i + 1).last() == l@);
        }
        let t = trim_start_white(l);
        if trim_both_white(l).len() > 0 && !(t.len() > 0 && t[0] == '#') {
            lines.push(l);
            assert(char_views(lines@) =~= char_views(before).push(l@));
        }
        i += 1;
    }
    assert(all.take(i as int) =~= all);
    if lines.len() == 0 {
        return Some(Value::Object(Vec::new()));
    }
    assert(char_views(lines@)[0] == lines@[0]@);
    let indent = line_indent(lines[0]);
    Some(parse_block(&lines, 0, indent).0)
}

} // verus!
