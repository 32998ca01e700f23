//! Searching, cutting and comparing sequences of characters.

use vstd::prelude::*;
use vstd::slice::slice_subrange;
use vstd::string::*;
use crate::text::{dec, decimal};

verus! {

/// The characters with the Unicode property White_Space.
pub open spec fn white_space(c: char) -> bool {
    let u = c as u32;
    ||| 0x09 <= u <= 0x0D
    ||| u == 0x20
    ||| u == 0x85
    ||| u == 0xA0
    ||| u == 0x1680
    ||| 0x2000 <= u <= 0x200A
    ||| u == 0x2028
    ||| u == 0x2029
    ||| u == 0x202F
    ||| u == 0x205F
    ||| u == 0x3000
}

/// `char::is_whitespace`: does the character have the Unicode property White_Space?
#[verifier::external_body]
pub(crate) fn is_white(c: char) -> (r: bool)
    ensures
        r == white_space(c),
{
    c.is_whitespace()
}

/// What `char::is_alphanumeric` says of a character.
pub uninterp spec fn alphanumeric(c: char) -> bool;

/// `char::is_alphanumeric`: is the character a letter or a number to Unicode? Which are is only
/// named.
#[verifier::external_body]
pub(crate) fn is_alnum(c: char) -> (r: bool)
    ensures
        r == alphanumeric(c),
{
    c.is_alphanumeric()
}

/// What `str::to_lowercase` makes of a text.
pub uninterp spec fn lower_case(s: Seq<char>) -> Seq<char>;

/// `str::to_lowercase`: the text in lower case, by the Unicode tables. An ASCII text comes out letter
/// by letter; what another becomes depends on the text alone, and is only named.
#[verifier::external_body]
pub(crate) fn lowered(s: &str) -> (r: String)
    ensures
        r@ == lower_case(s@),
        (forall|i: int| 0 <= i < s@.len() ==> (#[trigger] s@[i] as u32) < 128) ==> r@ == ascii_lowered(s@),
{
    s.to_lowercase()
}

/// Does `s` begin with `p`?
pub open spec fn begins(s: Seq<char>, p: Seq<char>) -> bool {
    p.len() <= s.len() && s.take(p.len() as int) == p
}

/// Does `s` end with `p`?
pub open spec fn ends(s: Seq<char>, p: Seq<char>) -> bool {
    p.len() <= s.len() && s.skip(s.len() - p.len()) == p
}

/// `s` without `p` at its end, if it is there.
pub open spec fn without_suffix(s: Seq<char>, p: Seq<char>) -> Seq<char> {
    if ends(s, p) {
        s.take(s.len() - p.len())
    } else {
        s
    }
}

/// The first place of `c` at `i` or later; the end of `s` if there is none.
pub open spec fn next_at(s: Seq<char>, c: char, i: int) -> int
    decreases s.len() - i,
{
    if i >= s.len() {
        s.len() as int
    } else if s[i] == c {
        i
    } else {
        next_at(s, c, i + 1)
    }
}

/// The place behind the last `c`; 0 if there is none.
pub open spec fn past_last(s: Seq<char>, c: char) -> int
    decreases s.len(),
{
    if s.len() == 0 {
        0
    } else if s.last() == c {
        s.len() as int
    } else {
        past_last(s.drop_last(), c)
    }
}

/// `s` without any `c` at its end.
pub open spec fn trim_end(s: Seq<char>, c: char) -> Seq<char>
    decreases s.len(),
{
    if s.len() > 0 && s.last() == c {
        trim_end(s.drop_last(), c)
    } else {
        s
    }
}

/// `s` without any `c` at its start.
pub open spec fn trim_start(s: Seq<char>, c: char) -> Seq<char>
    decreases s.len(),
{
    if s.len() > 0 && s[0] == c {
        trim_start(s.skip(1), c)
    } else {
        s
    }
}

/// `s` without white space at its end.
pub open spec fn trim_white_end(s: Seq<char>) -> Seq<char>
    decreases s.len(),
{
    if s.len() > 0 && white_space(s.last()) {
        trim_white_end(s.drop_last())
    } else {
        s
    }
}

/// `s` without white space at its start.
pub open spec fn trim_white_start(s: Seq<char>) -> Seq<char>
    decreases s.len(),
{
    if s.len() > 0 && white_space(s[0]) {
        trim_white_start(s.skip(1))
    } else {
        s
    }
}

/// `s` without white space at either end.
pub open spec fn trim_white(s: Seq<char>) -> Seq<char> {
    trim_white_end(trim_white_start(s))
}

/// A letter A to Z in lower case, any other character as it is.
pub open spec fn ascii_lower(c: char) -> char {
    if 'A' <= c && c <= 'Z' {
        (c as u32 + 32) as char
    } else {
        c
    }
}

pub open spec fn ascii_lowered(s: Seq<char>) -> Seq<char> {
    Seq::new(s.len(), |i: int| ascii_lower(s[i]))
}

/// Does `p` stand in `s` at place `i`?
pub open spec fn stands_at(s: Seq<char>, p: Seq<char>, i: int) -> bool {
    0 <= i && i + p.len() <= s.len() && s.subrange(i, i + p.len()) == p
}

/// The first place of `p` in `s` at `i` or later.
pub open spec fn find_from(s: Seq<char>, p: Seq<char>, i: int) -> Option<int>
    decreases s.len() + 1 - i,
{
    if i < 0 || i + p.len() > s.len() {
        None
    } else if stands_at(s, p, i) {
        Some(i)
    } else {
        find_from(s, p, i + 1)
    }
}

/// Does `p` occur in `s`?
pub open spec fn occurs(s: Seq<char>, p: Seq<char>) -> bool {
    find_from(s, p, 0) is Some
}

/// The parts of `s` between its `c`.
pub open spec fn split_at(s: Seq<char>, c: char) -> Seq<Seq<char>>
    decreases s.len(),
{
    let i = next_at(s, c, 0);
    if i < 0 || i >= s.len() {
        seq![s]
    } else {
        seq![s.take(i)] + split_at(s.skip(i + 1), c)
    }
}

/// Order of texts: by the first character in which they differ.
pub open spec fn text_below(a: Seq<char>, b: Seq<char>) -> bool
    decreases a.len(),
{
    if b.len() == 0 {
        false
    } else if a.len() == 0 {
        true
    } else if a[0] != b[0] {
        a[0] < b[0]
    } else {
        text_below(a.skip(1), b.skip(1))
    }
}

/// Are two character slices equal?
pub fn same_chars(a: &[char], b: &[char]) -> (r: bool)
    ensures
        r == (a@ == b@),
{
    if a.len() != b.len() {
        return false;
    }
    let mut i: usize = 0;
    while i < a.len()
        invariant
            i <= a@.len() == b@.len(),
            forall|k: int| 0 <= k < i ==> a@[k] == b@[k],
        decreases a@.len() - i,
    {
        if a[i] != b[i] {
            return false;
        }
        i += 1;
    }
    assert(a@ =~= b@);
    true
}

pub fn begins_with(s: &[char], p: &[char]) -> (r: bool)
    ensures
        r == begins(s@, p@),
{
    if p.len() > s.len() {
        return false;
    }
    same_chars(slice_subrange(s, 0, p.len()), p)
}

pub fn ends_with(s: &[char], p: &[char]) -> (r: bool)
    ensures
        r == ends(s@, p@),
{
    if p.len() > s.len() {
        return false;
    }
    let n: usize = s.len();
    let r: bool = same_chars(slice_subrange(s, n - p.len(), n), p);
    assert(s@.subrange(n - p@.len(), n as int) =~= s@.skip(n - p@.len()));
    r
}

pub fn strip_suffix<'a>(s: &'a [char], p: &[char]) -> (r: &'a [char])
    ensures
        r@ == without_suffix(s@, p@),
{
    if ends_with(s, p) {
        slice_subrange(s, 0, s.len() - p.len())
    } else {
        s
    }
}

pub proof fn lemma_next_at(s: Seq<char>, c: char, i: int)
    requires
        0 <= i <= s.len(),
    ensures
        i <= next_at(s, c, i) <= s.len(),
        next_at(s, c, i) < s.len() ==> s[next_at(s, c, i)] == c,
        forall|k: int| i <= k < next_at(s, c, i) ==> s[k] != c,
    decreases s.len() - i,
{
    if i < s.len() && s[i] != c {
        lemma_next_at(s, c, i + 1);
    }
}

pub fn find_char(s: &[char], c: char, from: usize) -> (r: usize)
    requires
        from <= s@.len(),
    ensures
        r == next_at(s@, c, from as int),
        from <= r <= s@.len(),
        r < s@.len() ==> s@[r as int] == c,
        forall|k: int| from <= k < r ==> s@[k] != c,
{
    let mut i: usize = from;
    proof {
        lemma_next_at(s@, c, from as int);
    }
    while i < s.len() && s[i] != c
        invariant
            from <= i <= s@.len(),
            next_at(s@, c, from as int) == next_at(s@, c, i as int),
        decreases s@.len() - i,
    {
        i += 1;
    }
    i
}

pub fn has_char(s: &[char], c: char) -> (r: bool)
    ensures
        r == s@.contains(c),
{
    let i = find_char(s, c, 0);
    if i < s.len() {
        assert(s@[i as int] == c);
        true
    } else {
        false
    }
}

pub proof fn lemma_past_last(s: Seq<char>, c: char)
    ensures
        0 <= past_last(s, c) <= s.len(),
        past_last(s, c) > 0 ==> s[past_last(s, c) - 1] == c,
        forall|k: int| past_last(s, c) <= k < s.len() ==> s[k] != c,
    decreases s.len(),
{
    if s.len() > 0 && s.last() != c {
        let f = s.drop_last();
        lemma_past_last(f, c);
        assert forall|k: int| past_last(s, c) <= k < s.len() implies s[k] != c by {
            if k < f.len() {
                assert(f[k] == s[k]);
            }
        }
    }
}

pub fn after_last(s: &[char], c: char) -> (r: usize)
    ensures
        r == past_last(s@, c),
        0 <= r <= s@.len(),
        r > 0 ==> s@[r - 1] == c,
        forall|k: int| r <= k < s@.len() ==> s@[k] != c,
{
    let mut i: usize = s.len();
    proof {
        lemma_past_last(s@, c);
        assert(s@.take(i as int) =~= s@);
    }
    while i > 0 && s[i - 1] != c
        invariant
            i <= s@.len(),
            past_last(s@, c) == past_last(s@.take(i as int), c),
        decreases i,
    {
        assert(s@.take(i as int).drop_last() =~= s@.take(i - 1));
        i -= 1;
    }
    i
}

pub fn trim_end_char<'a>(s: &'a [char], c: char) -> (r: &'a [char])
    ensures
        r@ == trim_end(s@, c),
        r@.len() <= s@.len(),
{
    let mut n: usize = s.len();
    assert(s@.take(n as int) =~= s@);
    while n > 0 && s[n - 1] == c
        invariant
            n <= s@.len(),
            trim_end(s@, c) == trim_end(s@.take(n as int), c),
        decreases n,
    {
        assert(s@.take(n as int).drop_last() =~= s@.take(n - 1));
        n -= 1;
    }
    assert(s@.subrange(0, n as int) =~= s@.take(n as int));
    slice_subrange(s, 0, n)
}

pub fn trim_start_char<'a>(s: &'a [char], c: char) -> (r: &'a [char])
    ensures
        r@ == trim_start(s@, c),
        r@.len() <= s@.len(),
{
    let mut i: usize = 0;
    assert(s@.skip(0) =~= s@);
    while i < s.len() && s[i] == c
        invariant
            i <= s@.len(),
            trim_start(s@, c) == trim_start(s@.skip(i as int), c),
        decreases s@.len() - i,
    {
        assert(s@.skip(i as int).skip(1) =~= s@.skip(i + 1));
        i += 1;
    }
    assert(s@.subrange(i as int, s@.len() as int) =~= s@.skip(i as int));
    slice_subrange(s, i, s.len())
}

/// How much of `s` white space takes at its start.
pub fn white_prefix(s: &[char]) -> (i: usize)
    ensures
        i <= s@.len(),
        s@.skip(i as int) == trim_white_start(s@),
{
    let mut i: usize = 0;
    assert(s@.skip(0) =~= s@);
    while i < s.len() && is_white(s[i])
        invariant
            i <= s@.len(),
            trim_white_start(s@) == trim_white_start(s@.skip(i as int)),
        decreases s@.len() - i,
    {
        assert(s@.skip(i as int).skip(1) =~= s@.skip(i + 1));
        i += 1;
    }
    i
}

pub fn trim_start_white<'a>(s: &'a [char]) -> (r: &'a [char])
    ensures
        r@ == trim_white_start(s@),
        r@.len() <= s@.len(),
{
    let i = white_prefix(s);
    assert(s@.subrange(i as int, s@.len() as int) =~= s@.skip(i as int));
    slice_subrange(s, i, s.len())
}

pub fn trim_end_white<'a>(s: &'a [char]) -> (r: &'a [char])
    ensures
        r@ == trim_white_end(s@),
        r@.len() <= s@.len(),
{
    let mut n: usize = s.len();
    assert(s@.take(n as int) =~= s@);
    while n > 0 && is_white(s[n - 1])
        invariant
            n <= s@.len(),
            trim_white_end(s@) == trim_white_end(s@.take(n as int)),
        decreases n,
    {
        assert(s@.take(n as int).drop_last() =~= s@.take(n - 1));
        n -= 1;
    }
    assert(s@.subrange(0, n as int) =~= s@.take(n as int));
    slice_subrange(s, 0, n)
}

pub fn trim_both_white<'a>(s: &'a [char]) -> (r: &'a [char])
    ensures
        r@ == trim_white(s@),
        r@.len() <= s@.len(),
{
    trim_end_white(trim_start_white(s))
}

pub fn to_ascii_lower(c: char) -> (r: char)
    ensures
        r == ascii_lower(c),
{
    if 'A' <= c && c <= 'Z' {
        ((c as u8) + 32) as char
    } else {
        c
    }
}

pub fn to_ascii_lowered(s: &[char]) -> (out: Vec<char>)
    ensures
        out@ == ascii_lowered(s@),
{
    let mut out: Vec<char> = Vec::new();
    let mut i: usize = 0;
    while i < s.len()
        invariant
            i <= s@.len(),
            out@.len() == i,
            forall|k: int| 0 <= k < i ==> out@[k] == ascii_lower(s@[k]),
        decreases s@.len() - i,
    {
        out.push(to_ascii_lower(s[i]));
        i += 1;
    }
    assert(out@ =~= ascii_lowered(s@));
    out
}

/// Does `p` stand in `s` at place `i`?
pub fn is_at(s: &[char], p: &[char], i: usize) -> (r: bool)
    ensures
        r == stands_at(s@, p@, i as int),
{
    if i > s.len() || p.len() > s.len() - i {
        return false;
    }
    same_chars(slice_subrange(s, i, i + p.len()), p)
}

pub fn find_text(s: &[char], p: &[char], from: usize) -> (r: Option<usize>)
    ensures
        match r {
            Some(i) => find_from(s@, p@, from as int) == Some(i as int) && from <= i && stands_at(s@, p@, i as int),
            None => find_from(s@, p@, from as int) is None,
        },
{
    let mut i: usize = from;
    while i <= s.len() && p.len() <= s.len() - i
        invariant
            from <= i,
            find_from(s@, p@, from as int) == find_from(s@, p@, i as int),
        decreases s@.len() + 1 - i,
    {
        if is_at(s, p, i) {
            return Some(i);
        }
        if i == s.len() {
            assert(s@.subrange(i as int, i as int) =~= p@);
            return None;
        }
        i += 1;
    }
    None
}

/// Is one text before another?
pub fn is_below(a: &[char], b: &[char]) -> (r: bool)
    ensures
        r == text_below(a@, b@),
{
    let mut i: usize = 0;
    assert(a@.skip(0) =~= a@);
    assert(b@.skip(0) =~= b@);
    while i < a.len() && i < b.len()
        invariant
            i <= a@.len(),
            i <= b@.len(),
            text_below(a@, b@) == text_below(a@.skip(i as int), b@.skip(i as int)),
        decreases a@.len() - i,
    {
        if a[i] != b[i] {
            return a[i] < b[i];
        }
        assert(a@.skip(i as int).skip(1) =~= a@.skip(i + 1));
        assert(b@.skip(i as int).skip(1) =~= b@.skip(i + 1));
        i += 1;
    }
    i < b.len()
}

/// A text is not before itself, and of two different texts one is before the other.
pub proof fn lemma_below_total(a: Seq<char>, b: Seq<char>)
    ensures
        !(text_below(a, b) && text_below(b, a)),
        a != b ==> text_below(a, b) || text_below(b, a),
        a == b ==> !text_below(a, b),
    decreases a.len(),
{
    if a.len() > 0 && b.len() > 0 && a[0] == b[0] {
        lemma_below_total(a.skip(1), b.skip(1));
        if a.skip(1) == b.skip(1) {
            assert(a =~= seq![a[0]] + a.skip(1));
            assert(b =~= seq![b[0]] + b.skip(1));
        }
    } else if a.len() == 0 && b.len() == 0 {
        assert(a =~= b);
    }
}

pub proof fn lemma_below_chain(a: Seq<char>, b: Seq<char>, c: Seq<char>)
    requires
        text_below(a, b),
        text_below(b, c),
    ensures
        text_below(a, c),
    decreases a.len(),
{
    if a.len() > 0 && a[0] == b[0] && b[0] == c[0] {
        lemma_below_chain(a.skip(1), b.skip(1), c.skip(1));
    }
}

/// The views of some strings.
pub open spec fn texts(v: Seq<String>) -> Seq<Seq<char>> {
    Seq::new(v.len(), |i: int| v[i]@)
}

/// A sequence of characters put behind another.
pub fn push_chars(out: &mut Vec<char>, s: &[char])
    ensures
        final(out)@ == old(out)@ + s@,
{
    let ghost start = out@;
    let mut i: usize = 0;
    assert(out@ =~= start + s@.take(0));
    while i < s.len()
        invariant
            i <= s@.len(),
            out@ == start + s@.take(i as int),
        decreases s@.len() - i,
    {
        out.push(s[i]);
        assert(s@.take(i + 1) =~= s@.take(i as int).push(s@[i as int]));
        assert(out@ =~= start + s@.take(i + 1));
        i += 1;
    }
    assert(s@.take(i as int) =~= s@);
}

/// Is `c` a digit 0 to 9?
pub open spec fn is_digit(c: char) -> bool {
    '0' <= c && c <= '9'
}

pub open spec fn all_digits(s: Seq<char>) -> bool {
    s.len() > 0 && forall|i: int| 0 <= i < s.len() ==> is_digit(#[trigger] s[i])
}

/// The number some digits spell.
pub open spec fn digits_value(s: Seq<char>) -> nat
    decreases s.len(),
{
    if s.len() == 0 {
        0
    } else {
        digits_value(s.drop_last()) * 10 + (s.last() as nat - 48) as nat
    }
}

/// The number a text spells: digits, with or without a sign before them.
pub open spec fn spelled_int(s: Seq<char>) -> Option<int> {
    if s.len() > 0 && s[0] == '-' {
        if all_digits(s.skip(1)) {
            Some(-(digits_value(s.skip(1)) as int))
        } else {
            None
        }
    } else {
        let t = if s.len() > 0 && s[0] == '+' { s.skip(1) } else { s };
        if all_digits(t) {
            Some(digits_value(t) as int)
        } else {
            None
        }
    }
}

/// The number a text spells, if an `i64` can hold it.
pub open spec fn spelled_i64(s: Seq<char>) -> Option<i64> {
    match spelled_int(s) {
        Some(n) => if i64::MIN <= n <= i64::MAX {
            Some(n as i64)
        } else {
            None
        },
        None => None,
    }
}

/// The value of some digits, or nothing if they are not digits or exceed `limit`.
fn read_digits(s: &[char], limit: u64) -> (r: Option<u64>)
    requires
        limit <= 9223372036854775808,
    ensures
        match r {
            Some(n) => all_digits(s@) && n == digits_value(s@) && n <= limit,
            None => !all_digits(s@) || digits_value(s@) > limit,
        },
{
    if s.len() == 0 {
        return None;
    }
    let mut n: u64 = 0;
    let mut over: bool = false;
    let mut i: usize = 0;
    assert(s@.take(0) =~= Seq::empty());
    while i < s.len()
        invariant
            i <= s@.len(),
            limit <= 9223372036854775808,
            forall|k: int| 0 <= k < i ==> is_digit(#[trigger] s@[k]),
            !over ==> n == digits_value(s@.take(i as int)) && n <= limit,
            over ==> digits_value(s@.take(i as int)) > limit,
        decreases s@.len() - i,
    {
        let c = s[i];
        if !('0' <= c && c <= '9') {
            assert(!is_digit(s@[i as int]));
            return None;
        }
        let d: u64 = (c as u32 - 48) as u64;
        proof {
            assert(s@.take(i + 1).drop_last() =~= s@.take(i as int));
        }
        if !over {
            if n > 922337203685477580 || n * 10 + d > limit {
                over = true;
            } else {
                n = n * 10 + d;
            }
        }
        i += 1;
    }
    assert(s@.take(i as int) =~= s@);
    if over {
        None
    } else {
        Some(n)
    }
}

/// Reads a whole number, with or without a sign.
pub fn parse_i64(s: &[char]) -> (r: Option<i64>)
    ensures
        r == spelled_i64(s@),
{
    let n: usize = s.len();
    if n > 0 && s[0] == '-' {
        let t = slice_subrange(s, 1, n);
        assert(t@ =~= s@.skip(1));
        match read_digits(t, 9223372036854775808) {
            Some(v) => if v == 9223372036854775808 {
                Some(i64::MIN)
            } else {
                Some(-(v as i64))
            },
            None => None,
        }
    } else {
        let from: usize = if n > 0 && s[0] == '+' {
            1
        } else {
            0
        };
        let t = slice_subrange(s, from, n);
        proof {
            if from == 1 {
                assert(t@ =~= s@.skip(1));
            } else {
                assert(t@ =~= s@);
            }
        }
        match read_digits(t, 9223372036854775807) {
            Some(v) => Some(v as i64),
            None => None,
        }
    }
}

/// The decimal spelling of a signed number.
pub open spec fn signed_dec(n: int) -> Seq<char> {
    if n < 0 {
        seq!['-'] + dec((-n) as nat)
    } else {
        dec(n as nat)
    }
}

pub fn signed_decimal(n: i64) -> (s: String)
    ensures
        s@ == signed_dec(n as int),
{
    if n < 0 {
        let m: u64 = if n == i64::MIN {
            9223372036854775808
        } else {
            (-n) as u64
        };
        let mut s = String::new();
        s.push('-');
        s.append(decimal(m).as_str());
        assert(s@ =~= signed_dec(n as int));
        s
    } else {
        decimal(n as u64)
    }
}

/// The views of some slices of characters.
pub open spec fn char_views(v: Seq<&[char]>) -> Seq<Seq<char>> {
    Seq::new(v.len(), |i: int| v[i]@)
}

proof fn lemma_next_behind(s: Seq<char>, c: char, at: int, i: int)
    requires
        0 <= at <= s.len(),
        0 <= i <= s.len() - at,
    ensures
        next_at(s.skip(at), c, i) == next_at(s, c, at + i) - at,
    decreases s.len() - at - i,
{
    if i < s.len() - at {
        assert(s.skip(at)[i] == s[at + i]);
        if s[at + i] != c {
            lemma_next_behind(s, c, at, i + 1);
        }
    }
}

/// The parts of `s` between its `c`.
pub fn split_on<'a>(s: &'a [char], c: char) -> (out: Vec<&'a [char]>)
    ensures
        char_views(out@) == split_at(s@, c),
        out@.len() > 0,
        forall|k: int| 0 <= k < out@.len() ==> (#[trigger] out@[k])@.len() <= s@.len(),
{
    let n: usize = s.len();
    let mut out: Vec<&'a [char]> = Vec::new();
    let mut at: usize = 0;
    proof {
        assert(s@.skip(0) =~= s@);
        assert(char_views(out@) + split_at(s@.skip(0), c) =~= split_at(s@, c));
    }
    loop
        invariant
            n == s@.len(),
            at <= n,
            split_at(s@, c) == char_views(out@) + split_at(s@.skip(at as int), c),
            forall|k: int| 0 <= k < out@.len() ==> (#[trigger] out@[k])@.len() <= s@.len(),
        decreases n - at,
    {
        let ghost rest = s@.skip(at as int);
        let e = find_char(s, c, at);
        let part = slice_subrange(s, at, e);
        let ghost before = out@;
        proof {
            lemma_next_behind(s@, c, at as int, 0);
            lemma_next_at(rest, c, 0);
        }
        out.push(part);
        assert(char_views(out@) =~= char_views(before).push(part@));
        if e >= n {
            proof {
                assert(part@ =~= rest);
                assert(char_views(out@) =~= char_views(before) + seq![rest]);
            }
            return out;
        }
        proof {
            assert(part@ =~= rest.take(e - at));
            assert(rest.skip(e - at + 1) =~= s@.skip(e + 1));
            assert(char_views(before) + (seq![part@] + split_at(s@.skip(e + 1), c)) =~= char_views(out@) + split_at(
                s@.skip(e + 1),
                c,
            ));
        }
        at = e + 1;
    }
}

/// Texts put together, `sep` between them.
pub open spec fn joined_with(parts: Seq<Seq<char>>, sep: Seq<char>) -> Seq<char>
    decreases parts.len(),
{
    if parts.len() == 0 {
        Seq::empty()
    } else if parts.len() == 1 {
        parts[0]
    } else {
        joined_with(parts.drop_last(), sep) + sep + parts.last()
    }
}

pub fn join_with<'a>(parts: &Vec<&'a [char]>, sep: &[char]) -> (out: Vec<char>)
    ensures
        out@ == joined_with(char_views(parts@), sep@),
{
    let ghost all = char_views(parts@);
    let mut out: Vec<char> = Vec::new();
    let mut i: usize = 0;
    assert(all.take(0) =~= Seq::empty());
    while i < parts.len()
        invariant
            i <= parts@.len(),
            all == char_views(parts@),
            out@ == joined_with(all.take(i as int), sep@),
        decreases parts@.len() - i,
    {
        proof {
            assert(all.take(i + 1).drop_last() =~= all.take(i as int));
            assert(all.take(i + 1).last() == parts@[i as int]@);
            if i == 0 {
                assert(all.take(1)[0] == parts@[0]@);
            }
        }
        if i > 0 {
            push_chars(&mut out, sep);
        }
        push_chars(&mut out, parts[i]);
        assert(out@ =~= joined_with(all.take(i + 1), sep@));
        i += 1;
    }
    assert(all.take(i as int) =~= all);
    out
}

/// What `char::to_lowercase` yields for a character.
pub uninterp spec fn char_lower(c: char) -> Seq<char>;

/// `char::to_lowercase`: the lower-case form of a character, by the Unicode tables. An ASCII
/// letter becomes its lower-case letter and another ASCII character stays, and no character but a
/// newline becomes one; what other characters become is only named.
#[verifier::external_body]
pub(crate) fn lower_chars(c: char) -> (r: Vec<char>)
    ensures
        r@ == char_lower(c),
        (c as u32) < 128 ==> r@ == seq![ascii_lower(c)],
        c != '\n' ==> !r@.contains('\n'),
{
    c.to_lowercase().collect()
}

proof fn lemma_dec_digits(n: nat)
    ensures
        all_digits(dec(n)),
        digits_value(dec(n)) == n,
        n > 0 ==> dec(n)[0] != '0',
    decreases n,
{
    if n < 10 {
        let c = (48 + n) as char;
        let s = seq![c];
        assert(c as nat == 48 + n);
        assert(dec(n) =~= s);
        reveal_with_fuel(digits_value, 2);
        assert(s.drop_last() =~= Seq::empty());
    } else {
        let front = dec(n / 10);
        lemma_dec_digits(n / 10);
        let c = (48 + n % 10) as char;
        assert(c as nat == 48 + n % 10);
        let s = front.push(c);
        assert(dec(n) == s);
        assert(s.drop_last() =~= front);
        assert forall|i: int| 0 <= i < s.len() implies is_digit(#[trigger] s[i]) by {
            if i < front.len() {
                assert(s[i] == front[i]);
            }
        }
        assert(s[0] == front[0]);
    }
}

/// A number is read back from its decimal spelling, which holds digits only, behind a minus sign if
/// it is negative, and no leading zero.
pub proof fn law_number_reads_back(n: int)
    ensures
        spelled_int(signed_dec(n)) == Some(n),
        n >= 0 ==> all_digits(signed_dec(n)),
        n < 0 ==> signed_dec(n)[0] == '-' && all_digits(signed_dec(n).skip(1)),
        n > 0 ==> signed_dec(n)[0] != '0',
{
    let s = signed_dec(n);
    if n < 0 {
        lemma_dec_digits((-n) as nat);
        assert(s.skip(1) =~= dec((-n) as nat));
    } else {
        lemma_dec_digits(n as nat);
        assert(is_digit(s[0]));
    }
}

} // verus!
