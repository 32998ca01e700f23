//! A link written again after a move leads to the file it pointed to.

use vstd::prelude::*;
use vstd::string::*;
use vstd::utf8::*;
use crate::chars::{ascii_lowered, begins, ends, joined_with, split_at};
use crate::md::linklaw::law_parent_of_child;
use crate::md::links::{percent_bytes, percent_decoded};
use crate::md::relative::{absolute, law_relative_leads_there, lemma_walk_down, normal_parts};
use crate::md::resolve::{
    all_encoded, asset_pointer, joined_path, last_part, parent_of, percent_encoded, pointed, relative_path, retargeted, walked,
    with_extension, Lookup,
};
use crate::pg::store::{lacks, lemma_split_first};

verus! {

/// An absolute path leads to itself from anywhere.
#[verifier::rlimit(60)]
proof fn lemma_absolute_leads(folder: Seq<char>, parts: Seq<Seq<char>>)
    requires
        normal_parts(parts),
        parts.len() > 0,
    ensures
        joined_path(folder, absolute(parts)) == Some(absolute(parts)),
        begins(absolute(parts), "/"@),
{
    reveal_strlit("/");
    let none = Seq::<char>::empty();
    let body = joined_with(parts, "/"@);
    let whole = absolute(parts);
    assert(whole.take(1) =~= "/"@);
    assert(whole =~= none.push('/') + body);
    lemma_split_first(none, body, '/');
    assert forall|k: int| 0 <= k < parts.len() implies lacks(#[trigger] parts[k], '/') by {}
    crate::pg::store::lemma_split_joined(parts);
    let start = Seq::<Seq<char>>::empty();
    let head = seq![none];
    reveal_with_fuel(walked, 2);
    assert(head.drop_last() =~= Seq::empty());
    assert(walked(start, head) == Some(start));
    lemma_walk_down(start, head, start, parts);
    assert(start + parts =~= parts);
}

/// A step that stays does not change where a walk leads.
proof fn lemma_walk_stays(from: Seq<Seq<char>>, parts: Seq<Seq<char>>)
    ensures
        walked(from, seq!["."@] + parts) == walked(from, parts),
    decreases parts.len(),
{
    let all = seq!["."@] + parts;
    if parts.len() == 0 {
        reveal_with_fuel(walked, 2);
        assert(all.drop_last() =~= Seq::empty());
        assert(all.last() == "."@);
    } else {
        lemma_walk_stays(from, parts.drop_last());
        assert(all.drop_last() =~= seq!["."@] + parts.drop_last());
        assert(all.last() == parts.last());
    }
}

/// `./` before a relative path leads to the same place.
proof fn lemma_dot_leads(folder: Seq<char>, rel: Seq<char>)
    requires
        !begins(rel, "/"@),
    ensures
        joined_path(folder, "./"@ + rel) == joined_path(folder, rel),
{
    reveal_strlit("/");
    reveal_strlit("./");
    reveal_strlit(".");
    let dot = "."@;
    let whole = "./"@ + rel;
    assert(whole =~= dot.push('/') + rel);
    assert(lacks(dot, '/'));
    lemma_split_first(dot, rel, '/');
    assert(!begins(whole, "/"@)) by {
        if begins(whole, "/"@) {
            assert(whole.take(1)[0] == "/"@[0]);
        }
    }
    let from = crate::md::resolve::path_parts(split_at(folder, '/'));
    lemma_walk_stays(from, split_at(rel, '/'));
}

/// What is left of a path without its extension, and the extension, are the path.
proof fn lemma_extension(raw: Seq<char>, path: Seq<char>)
    ensures
        with_extension(raw, path) == path || !ends(ascii_lowered(raw), ".md"@) && with_extension(raw, path) + ".md"@ == path,
{
    reveal_strlit(".md");
    if !ends(ascii_lowered(raw), ".md"@) && ends(path, ".md"@) {
        let n = path.len() - 3;
        assert(path =~= path.take(n) + path.skip(n));
    }
}

/// A file that a link can be written for: its path in normal form, no pointer of an asset.
pub open spec fn plain_file(target: Seq<Seq<char>>) -> bool {
    normal_parts(target) && target.len() > 0 && !asset_pointer(absolute(target))
}

/// `written` is `full`, or, where the old target had none, `full` without its `.md`.
pub open spec fn spells(raw: Seq<char>, written: Seq<char>, full: Seq<char>) -> bool {
    written == full || !ends(ascii_lowered(raw), ".md"@) && written + ".md"@ == full
}

/// The folder of a file is made of all its parts but the last.
pub proof fn law_parent_has_other_parts(folder: Seq<Seq<char>>, name: Seq<char>)
    requires
        normal_parts(folder.push(name)),
    ensures
        parent_of(absolute(folder.push(name))) == absolute(folder),
{
    reveal_strlit("/");
    let parts = folder.push(name);
    assert(parts[folder.len() as int] == name);
    assert(parts.drop_last() =~= folder);
    if folder.len() == 0 {
        let none = Seq::<char>::empty();
        law_parent_of_child(none, name);
        assert(absolute(parts) =~= none.push('/') + name);
        assert(absolute(folder) =~= "/"@);
    } else {
        law_parent_of_child(absolute(folder), name);
        assert(absolute(parts) =~= absolute(folder).push('/') + name);
    }
}

/// A markdown link written again leads from its note's folder to the file it is for, with `.md` put
/// behind it where the link leaves that out. A link from the root stays one.
#[verifier::rlimit(60)]
pub proof fn law_rewritten_markdown_leads<L: Lookup + ?Sized>(
    l: &L,
    kind: Seq<char>,
    raw: Seq<char>,
    folder: Seq<Seq<char>>,
    name: Seq<char>,
    target: Seq<Seq<char>>,
)
    requires
        kind != "wiki"@,
        kind != "embed"@,
        normal_parts(folder.push(name)),
        plain_file(target),
    ensures
        ({
            let source = absolute(folder.push(name));
            let to = absolute(target);
            let written = retargeted(l, kind, raw, true, source, to);
            &&& exists|full: Seq<char>| #[trigger]
                spells(raw, written, full) && joined_path(parent_of(source), full) == Some(to) && (begins(raw, "/"@)
                    <==> begins(full, "/"@))
            &&& retargeted(l, kind, raw, false, source, to) == all_encoded(written)
        }),
{
    reveal_strlit("/");
    reveal_strlit("./");
    let source = absolute(folder.push(name));
    let to = absolute(target);
    assert(normal_parts(folder)) by {
        assert forall|i: int| 0 <= i < folder.len() implies (#[trigger] folder[i]).len() > 0 && folder[i] != "."@ && folder[i]
            != ".."@ && lacks(folder[i], '/') by {
            assert(folder.push(name)[i] == folder[i]);
        }
    }
    law_parent_has_other_parts(folder, name);
    law_relative_leads_there(folder, target);
    lemma_absolute_leads(absolute(folder), target);
    let rel = relative_path(absolute(folder), to);
    lemma_dot_leads(absolute(folder), rel);
    let full = if begins(raw, "/"@) {
        to
    } else if begins(raw, "./"@) && !begins(rel, "../"@) {
        "./"@ + rel
    } else {
        rel
    };
    lemma_extension(raw, full);
    assert(begins(raw, "/"@) <==> begins(full, "/"@)) by {
        if !begins(raw, "/"@) && begins(full, "/"@) {
            assert(full.take(1)[0] == "/"@[0]);
        }
    }
    assert(spells(raw, retargeted(l, kind, raw, true, source, to), full));
}

/// A wiki link written again names its file, with `.md` put behind it where the link leaves that
/// out: by its name while no other file has it, relative to the note's folder if it was written so,
/// and by its path otherwise.
#[verifier::rlimit(60)]
pub proof fn law_rewritten_wiki_leads<L: Lookup + ?Sized>(
    l: &L,
    kind: Seq<char>,
    raw: Seq<char>,
    angle: bool,
    folder: Seq<Seq<char>>,
    name: Seq<char>,
    target: Seq<Seq<char>>,
)
    requires
        kind == "wiki"@ || kind == "embed"@,
        normal_parts(folder.push(name)),
        plain_file(target),
    ensures
        ({
            let source = absolute(folder.push(name));
            let to = absolute(target);
            let written = retargeted(l, kind, raw, angle, source, to);
            let alone = l.with_name(target.last()).len() + l.with_name(target.last() + ".tdbasset"@).len() <= 1;
            if !raw.contains('/') && alone {
                spells(raw, written, target.last())
            } else if begins(raw, "./"@) || begins(raw, "../"@) {
                exists|full: Seq<char>| #[trigger]
                    spells(raw, written, full) && joined_path(parent_of(source), full) == Some(to)
            } else {
                exists|full: Seq<char>| #[trigger] spells(raw, written, full) && "/"@ + full == to
            }
        }),
{
    reveal_strlit("/");
    reveal_strlit("./");
    reveal_strlit("../");
    let source = absolute(folder.push(name));
    let to = absolute(target);
    assert(normal_parts(folder)) by {
        assert forall|i: int| 0 <= i < folder.len() implies (#[trigger] folder[i]).len() > 0 && folder[i] != "."@ && folder[i]
            != ".."@ && lacks(folder[i], '/') by {
            assert(folder.push(name)[i] == folder[i]);
        }
    }
    law_parent_has_other_parts(folder, name);
    law_relative_leads_there(folder, target);
    let rel = relative_path(absolute(folder), to);
    let written = retargeted(l, kind, raw, angle, source, to);
    assert(last_part(to) == target.last()) by {
        let front = target.drop_last();
        let last = target.last();
        assert(target[target.len() - 1] == last);
        let head = if front.len() == 0 { Seq::<char>::empty() } else { absolute(front) };
        assert(to =~= head.push('/') + last);
        crate::chars::lemma_past_last(to, '/');
        let i = crate::chars::past_last(to, '/');
        assert(to[head.len() as int] == '/');
        if i > head.len() + 1 {
            assert(to[i - 1] == last[i - 1 - head.len() - 1]);
        }
        assert(to.skip(i) =~= last);
    }
    if begins(raw, "./"@) {
        assert(raw.take(2)[1] == "./"@[1]);
        assert(raw[1] == '/');
    }
    if begins(raw, "../"@) {
        assert(raw.take(3)[2] == "../"@[2]);
        assert(raw[2] == '/');
    }
    lemma_extension(raw, target.last());
    lemma_extension(raw, rel);
    lemma_extension(raw, to.skip(1));
    assert("/"@ + to.skip(1) =~= to);
    assert(spells(raw, with_extension(raw, rel), rel));
    assert(spells(raw, with_extension(raw, to.skip(1)), to.skip(1)));
}

/// The encoding of a text, from its first character on.
proof fn lemma_encoded_first(s: Seq<char>)
    requires
        s.len() > 0,
    ensures
        all_encoded(s) == percent_encoded(s[0]) + all_encoded(s.skip(1)),
    decreases s.len(),
{
    if s.len() == 1 {
        reveal_with_fuel(all_encoded, 2);
        assert(s.drop_last() =~= Seq::empty());
        assert(s.skip(1) =~= Seq::empty());
        assert(all_encoded(s) =~= percent_encoded(s[0]) + all_encoded(s.skip(1)));
    } else {
        lemma_encoded_first(s.drop_last());
        assert(s.drop_last().skip(1) =~= s.skip(1).drop_last());
        assert(s.skip(1).last() == s.last());
        assert(all_encoded(s) =~= percent_encoded(s[0]) + all_encoded(s.skip(1)));
    }
}

proof fn lemma_utf8_concat(x: Seq<char>, y: Seq<char>)
    ensures
        encode_utf8(x + y) == encode_utf8(x) + encode_utf8(y),
    decreases x.len(),
{
    if x.len() == 0 {
        assert(x + y =~= y);
        assert(encode_utf8(x) + encode_utf8(y) =~= encode_utf8(y));
    } else {
        lemma_utf8_concat(x.drop_first(), y);
        assert((x + y).drop_first() =~= x.drop_first() + y);
        assert(encode_utf8(x + y) =~= encode_utf8(x) + encode_utf8(y));
    }
}

/// Bytes are read the same wherever they stand.
proof fn lemma_percent_shift(b: Seq<u8>, k: int, i: int)
    requires
        0 <= k <= i,
        k <= b.len(),
    ensures
        percent_bytes(b, i) == percent_bytes(b.skip(k), i - k),
    decreases b.len() - i,
{
    if i < b.len() {
        let s = b.skip(k);
        assert(s[i - k] == b[i]);
        lemma_percent_shift(b, k, i + 1);
        if i + 2 < b.len() {
            assert(s[i - k + 1] == b[i + 1]);
            assert(s[i - k + 2] == b[i + 2]);
            lemma_percent_shift(b, k, i + 3);
        }
    }
}

/// Bytes other than `%` stand for themselves.
proof fn lemma_percent_plain(e: Seq<u8>, rest: Seq<u8>)
    requires
        forall|k: int| 0 <= k < e.len() ==> #[trigger] e[k] != 37,
    ensures
        percent_bytes(e + rest, 0) == e + percent_bytes(rest, 0),
    decreases e.len(),
{
    let b = e + rest;
    if e.len() == 0 {
        assert(b =~= rest);
        assert(e + percent_bytes(rest, 0) =~= percent_bytes(rest, 0));
    } else {
        let f = e.skip(1);
        assert forall|k: int| 0 <= k < f.len() implies #[trigger] f[k] != 37 by {
            assert(f[k] == e[k + 1]);
        }
        lemma_percent_plain(f, rest);
        assert(b[0] == e[0]);
        lemma_percent_shift(b, 1, 1);
        assert(b.skip(1) =~= f + rest);
        assert(percent_bytes(b, 0) =~= e + percent_bytes(rest, 0));
    }
}

/// `%` and two digits are read as the character they stand for.
proof fn lemma_percent_triple(e: Seq<u8>, v: u8, rest: Seq<u8>)
    requires
        e == seq![37u8, 50, 53] && v == 37 || e == seq![37u8, 50, 48] && v == 32 || e == seq![37u8, 50, 56] && v == 40 || e
            == seq![37u8, 50, 57] && v == 41,
    ensures
        percent_bytes(e + rest, 0) == seq![v] + percent_bytes(rest, 0),
{
    let b = e + rest;
    assert(b[0] == e[0] && b[1] == e[1] && b[2] == e[2]);
    lemma_percent_shift(b, 3, 3);
    assert(b.skip(3) =~= rest);
}

/// Only `%` is written with the byte of `%`.
proof fn lemma_scalar_plain(c: char)
    requires
        c != '%',
    ensures
        forall|k: int| 0 <= k < encode_scalar(c as u32).len() ==> #[trigger] encode_scalar(c as u32)[k] != 37,
        encode_utf8(seq![c]) == encode_scalar(c as u32),
{
    let e = encode_scalar(c as u32);
    let one = seq![c];
    assert(one.drop_first() =~= Seq::empty());
    reveal_with_fuel(encode_utf8, 2);
    assert(encode_utf8(one) =~= e);
    encode_utf8_first_scalar(one);
    assert(37u8 & 0x7f == 37) by (bit_vector);
    assert(e.len() == length_of_first_scalar(e));
    assert forall|k: int| 0 <= k < e.len() implies #[trigger] e[k] != 37 by {
        if is_leading_byte_width_1(e[0]) {
            assert(k == 0);
            if e[0] == 37 {
                assert(c as u32 == 37);
                assert(c == '%');
            }
        }
    }
}

/// The four encoded characters, as bytes.
proof fn lemma_triples()
    ensures
        encode_utf8("%25"@) == seq![37u8, 50, 53],
        encode_utf8("%20"@) == seq![37u8, 50, 48],
        encode_utf8("%28"@) == seq![37u8, 50, 56],
        encode_utf8("%29"@) == seq![37u8, 50, 57],
        encode_scalar('%' as u32) == seq![37u8],
        encode_scalar(' ' as u32) == seq![32u8],
        encode_scalar('(' as u32) == seq![40u8],
        encode_scalar(')' as u32) == seq![41u8],
{
    reveal_strlit("%25");
    reveal_strlit("%20");
    reveal_strlit("%28");
    reveal_strlit("%29");
    lemma_ascii_bytes("%25"@, seq![37u8, 50, 53]);
    lemma_ascii_bytes("%20"@, seq![37u8, 50, 48]);
    lemma_ascii_bytes("%28"@, seq![37u8, 50, 56]);
    lemma_ascii_bytes("%29"@, seq![37u8, 50, 57]);
    lemma_ascii_scalar('%', 37);
    lemma_ascii_scalar(' ', 32);
    lemma_ascii_scalar('(', 40);
    lemma_ascii_scalar(')', 41);
}

proof fn lemma_ascii_bytes(s: Seq<char>, b: Seq<u8>)
    requires
        s.len() == b.len(),
        forall|i: int| 0 <= i < s.len() ==> '\0' <= #[trigger] s[i] <= '\u{7f}' && s[i] as u8 == b[i],
    ensures
        encode_utf8(s) == b,
{
    assert(is_ascii_chars(s));
    is_ascii_chars_encode_utf8(s);
    assert forall|i: int| 0 <= i < b.len() implies encode_utf8(s)[i] == b[i] by {
        assert(s[i] as u8 == encode_utf8(s)[i]);
    }
    assert(encode_utf8(s) =~= b);
}

proof fn lemma_ascii_scalar(c: char, v: u8)
    requires
        '\0' <= c <= '\u{7f}',
        c as u8 == v,
    ensures
        encode_scalar(c as u32) == seq![v],
{
    let one = seq![c];
    lemma_ascii_bytes(one, seq![v]);
    assert(one.drop_first() =~= Seq::empty());
    reveal_with_fuel(encode_utf8, 2);
    assert(encode_utf8(one) =~= encode_scalar(c as u32));
}

#[verifier::rlimit(60)]
proof fn lemma_percent_bytes(s: Seq<char>)
    ensures
        percent_bytes(encode_utf8(all_encoded(s)), 0) == encode_utf8(s),
    decreases s.len(),
{
    if s.len() == 0 {
        assert(percent_bytes(encode_utf8(all_encoded(s)), 0) =~= encode_utf8(s));
    } else {
        let c = s[0];
        let rest = s.skip(1);
        lemma_percent_bytes(rest);
        lemma_encoded_first(s);
        lemma_utf8_concat(percent_encoded(c), all_encoded(rest));
        assert(s.drop_first() =~= rest);
        lemma_triples();
        let e = encode_utf8(percent_encoded(c));
        let tail = encode_utf8(all_encoded(rest));
        if c == '%' {
            lemma_percent_triple(e, 37, tail);
        } else if c == ' ' {
            lemma_percent_triple(e, 32, tail);
        } else if c == '(' {
            lemma_percent_triple(e, 40, tail);
        } else if c == ')' {
            lemma_percent_triple(e, 41, tail);
        } else {
            lemma_scalar_plain(c);
            lemma_percent_plain(e, tail);
        }
    }
}

/// A markdown target is read back as the path it was written for: what is encoded in it is decoded
/// again, and it holds no blank and no bracket that would end it.
pub proof fn law_encoded_target_reads_back(path: Seq<char>)
    ensures
        percent_decoded(all_encoded(path)) == path,
        lacks(all_encoded(path), ' '),
        lacks(all_encoded(path), '('),
        lacks(all_encoded(path), ')'),
{
    lemma_percent_bytes(path);
    encode_utf8_valid_utf8(path);
    encode_utf8_decode_utf8(path);
    lemma_no_breaks(path);
}

proof fn lemma_no_breaks(s: Seq<char>)
    ensures
        lacks(all_encoded(s), ' '),
        lacks(all_encoded(s), '('),
        lacks(all_encoded(s), ')'),
    decreases s.len(),
{
    reveal_strlit("%25");
    reveal_strlit("%20");
    reveal_strlit("%28");
    reveal_strlit("%29");
    if s.len() > 0 {
        lemma_no_breaks(s.drop_last());
        let front = all_encoded(s.drop_last());
        let last = percent_encoded(s.last());
        assert forall|i: int| 0 <= i < all_encoded(s).len() implies all_encoded(s)[i] != ' ' && all_encoded(s)[i] != '('
            && all_encoded(s)[i] != ')' by {
            if i < front.len() {
                assert(all_encoded(s)[i] == front[i]);
            } else {
                assert(all_encoded(s)[i] == last[i - front.len()]);
            }
        }
    }
}

} // verus!
