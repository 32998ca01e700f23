//! Hashing: BLAKE3-256 behind a type alias, and the hexadecimal spelling of a hash.

use vstd::prelude::*;
use vstd::string::*;
use crate::text::chars_of;

verus! {

/// 32-byte content hash.
pub type Hash = [u8; 32];

/// The BLAKE3-256 digest of some bytes.
pub uninterp spec fn blake3_digest(bytes: Seq<u8>) -> Seq<u8>;

/// `blake3::hash`: the digest is a function of the bytes alone.
#[verifier::external_body]
fn blake3_hash(bytes: &[u8]) -> (r: Hash)
    ensures
        r@ == blake3_digest(bytes@),
{
    *blake3::hash(bytes).as_bytes()
}

/// The tag in front of a node's encoding: `textdb-node-v1` and a zero byte.
pub open spec fn node_domain() -> Seq<u8> {
    seq![
        116u8, 101u8, 120u8, 116u8, 100u8, 98u8, 45u8, 110u8, 111u8, 100u8, 101u8, 45u8, 118u8, 49u8, 0u8,
    ]
}

/// Hash of a tree node's encoding.
pub open spec fn node_digest(encoded: Seq<u8>) -> Seq<u8> {
    blake3_digest(node_domain() + encoded)
}

/// Hash of a chunk = BLAKE3 of its bytes.
pub fn hash_chunk(bytes: &[u8]) -> (r: Hash)
    ensures
        r@ == blake3_digest(bytes@),
{
    blake3_hash(bytes)
}

/// Hash of a tree node = BLAKE3 of a domain tag followed by the canonical child encoding.
pub fn hash_node(encoded: &[u8]) -> (r: Hash)
    ensures
        r@ == node_digest(encoded@),
{
    let mut all: Vec<u8> = vec![116u8, 101, 120, 116, 100, 98, 45, 110, 111, 100, 101, 45, 118, 49, 0];
    assert(all@ =~= node_domain());
    all.extend_from_slice(encoded);
    assert(all@ =~= node_domain() + encoded@);
    blake3_hash(all.as_slice())
}

/// Are two hashes equal?
pub fn same_hash(a: &Hash, b: &Hash) -> (r: bool)
    ensures
        r == (a@ == b@),
        r == (*a == *b),
{
    broadcast use vstd::array::group_array_axioms;

    let mut i: usize = 0;
    while i < 32
        invariant
            i <= 32,
            forall|j: int| 0 <= j < i ==> a@[j] == b@[j],
        decreases 32 - i,
    {
        if a[i] != b[i] {
            assert(a@[i as int] != b@[i as int]);
            return false;
        }
        i += 1;
    }
    assert(a@ =~= b@);
    assert(*a =~= *b);
    true
}

/// The character of a hexadecimal digit.
pub open spec fn hex_digit(n: int) -> char {
    if n < 10 {
        (48 + n) as char
    } else {
        (87 + n) as char
    }
}

/// Two lower-case digits per byte.
pub open spec fn hex_of(bytes: Seq<u8>) -> Seq<char>
    decreases bytes.len(),
{
    if bytes.len() == 0 {
        Seq::empty()
    } else {
        hex_of(bytes.drop_last()) + seq![
            hex_digit(bytes.last() as int / 16),
            hex_digit(bytes.last() as int % 16),
        ]
    }
}

pub fn hex_char(n: u8) -> (c: char)
    requires
        n < 16,
    ensures
        c == hex_digit(n as int),
{
    if n < 10 {
        (48 + n) as char
    } else {
        (87 + n) as char
    }
}

/// The lower-case hexadecimal spelling of some bytes.
pub fn hex_bytes(bytes: &[u8]) -> (s: String)
    ensures
        s@ == hex_of(bytes@),
{
    let mut s = String::new();
    let mut i: usize = 0;
    while i < bytes.len()
        invariant
            i <= bytes@.len(),
            s@ == hex_of(bytes@.take(i as int)),
        decreases bytes@.len() - i,
    {
        s.push(hex_char(bytes[i] / 16));
        s.push(hex_char(bytes[i] % 16));
        i += 1;
        proof {
            assert(bytes@.take(i as int).drop_last() =~= bytes@.take(i - 1));
            assert(s@ =~= hex_of(bytes@.take(i as int)));
        }
    }
    assert(bytes@.take(i as int) =~= bytes@);
    s
}

pub fn hex(h: &Hash) -> (s: String)
    ensures
        s@ == hex_of(h@),
{
    hex_bytes(h.as_slice())
}

/// The value of a hexadecimal digit of either case.
pub open spec fn digit_value(c: char) -> Option<int> {
    if '0' <= c <= '9' {
        Some(c as int - 48)
    } else if 'a' <= c <= 'f' {
        Some(c as int - 87)
    } else if 'A' <= c <= 'F' {
        Some(c as int - 55)
    } else {
        None
    }
}

/// The byte two characters spell. A plus sign may stand in front of a single digit.
pub open spec fn pair_value(a: char, b: char) -> Option<int> {
    if a == '+' {
        digit_value(b)
    } else {
        match (digit_value(a), digit_value(b)) {
            (Some(x), Some(y)) => Some(16 * x + y),
            _ => None,
        }
    }
}

fn hex_value(c: char) -> (r: Option<u8>)
    ensures
        r matches Some(n) ==> digit_value(c) == Some(n as int) && n < 16,
        r is None ==> digit_value(c) is None,
{
    let n: u32 = c as u32;
    if 48 <= n && n <= 57 {
        Some((n - 48) as u8)
    } else if 97 <= n && n <= 102 {
        Some((n - 87) as u8)
    } else if 65 <= n && n <= 70 {
        Some((n - 55) as u8)
    } else {
        None
    }
}

/// Does `s` spell 32 bytes?
pub open spec fn spells_hash(s: Seq<char>) -> bool {
    &&& s.len() == 64
    &&& forall|i: int| 0 <= i < 32 ==> (#[trigger] pair_value(s[2 * i], s[2 * i + 1])) is Some
}

/// Read the spelling of a hash; `None` when it is anything but 32 two-character bytes.
pub fn from_hex(s: &str) -> (r: Option<Hash>)
    ensures
        r is Some <==> spells_hash(s@),
        r matches Some(h) ==> forall|i: int|
            0 <= i < 32 ==> pair_value(s@[2 * i], s@[2 * i + 1]) == Some(#[trigger] h@[i] as int),
{
    let cs = chars_of(s);
    if cs.len() != 64 {
        return None;
    }
    let mut out = [0u8; 32];
    let mut i: usize = 0;
    while i < 32
        invariant
            i <= 32,
            cs@ == s@,
            cs@.len() == 64,
            forall|j: int|
                0 <= j < i ==> pair_value(s@[2 * j], s@[2 * j + 1]) == Some(#[trigger] out@[j] as int),
        decreases 32 - i,
    {
        let a: char = cs[2 * i];
        let b: char = cs[2 * i + 1];
        let ghost g = pair_value(s@[2 * i], s@[2 * i + 1]);
        let lo: Option<u8> = hex_value(b);
        let byte: Option<u8> = if a == '+' {
            lo
        } else {
            match (hex_value(a), lo) {
                (Some(x), Some(y)) => Some(16 * x + y),
                _ => None,
            }
        };
        match byte {
            Some(v) => {
                out[i] = v;
            },
            None => {
                assert(pair_value(s@[2 * i], s@[2 * i + 1]) is None);
                return None;
            },
        }
        i += 1;
    }
    assert forall|j: int| 0 <= j < 32 implies (#[trigger] pair_value(s@[2 * j], s@[2 * j + 1])) is Some by {
        let _ = out@[j];
    }
    Some(out)
}

proof fn lemma_hex_index(bytes: Seq<u8>, i: int)
    requires
        0 <= i < bytes.len(),
    ensures
        hex_of(bytes).len() == 2 * bytes.len(),
        hex_of(bytes)[2 * i] == hex_digit(bytes[i] as int / 16),
        hex_of(bytes)[2 * i + 1] == hex_digit(bytes[i] as int % 16),
    decreases bytes.len(),
{
    lemma_hex_len(bytes.drop_last());
    if i < bytes.len() - 1 {
        lemma_hex_index(bytes.drop_last(), i);
    }
}

pub proof fn lemma_hex_len(bytes: Seq<u8>)
    ensures
        hex_of(bytes).len() == 2 * bytes.len(),
    decreases bytes.len(),
{
    if bytes.len() > 0 {
        lemma_hex_len(bytes.drop_last());
    }
}

/// The spelling of a hash is read back as the same hash.
pub proof fn law_hex_round_trip(h: Hash)
    ensures
        spells_hash(hex_of(h@)),
        forall|i: int|
            0 <= i < 32 ==> pair_value(hex_of(h@)[2 * i], hex_of(h@)[2 * i + 1]) == Some(
                #[trigger] h@[i] as int,
            ),
{
    broadcast use vstd::array::group_array_axioms;

    lemma_hex_len(h@);
    assert forall|i: int| 0 <= i < 32 implies pair_value(hex_of(h@)[2 * i], hex_of(h@)[2 * i + 1]) == Some(
        #[trigger] h@[i] as int,
    ) by {
        lemma_hex_index(h@, i);
    }
    assert forall|i: int| 0 <= i < 32 implies (#[trigger] pair_value(
        hex_of(h@)[2 * i],
        hex_of(h@)[2 * i + 1],
    )) is Some by {
        let _ = h@[i];
    }
}

} // verus!
