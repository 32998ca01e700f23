use textdb::chunker::ChunkParams;
use textdb::storage::MemStorage;
use textdb::tree::build;
use textdb::words::{count_words, word_delta, words_at, WordCounter};

#[test]
fn counts_like_wc() {
    assert_eq!(count_words(b""), 0);
    assert_eq!(count_words(b"   \n\t"), 0);
    assert_eq!(count_words(b"## Setup\n\n- run `make`\n"), 5);
    assert_eq!(count_words("naïve café\r\n".as_bytes()), 2);
    let mut c = WordCounter::default();
    c.feed(b"hel").feed(b"lo wor").feed(b"ld");
    assert_eq!(c.words(), 2);
}

fn text(seed: u64, lines: usize) -> Vec<u8> {
    let mut x = seed | 1;
    let mut out = Vec::new();
    for _ in 0..lines {
        x ^= x << 13;
        x ^= x >> 7;
        x ^= x << 17;
        let words = (x % 12) as usize;
        for w in 0..words {
            if w > 0 {
                out.extend_from_slice(if x >> (w % 60) & 1 == 1 { b"  " } else { b" " });
            }
            out.extend_from_slice(format!("w{}", (x >> w) % 1000).as_bytes());
        }
        out.push(b'\n');
    }
    out
}

#[test]
fn delta_matches_a_full_count_across_chunk_boundaries() {
    let p = ChunkParams::default();
    let mut st = MemStorage::new();
    let base = text(7, 20_000);
    let a = build(&mut st, &p, &base).unwrap();
    assert_eq!(words_at(&st, &a).unwrap(), count_words(&base));
    let edits: Vec<Box<dyn Fn(&[u8]) -> Vec<u8>>> = vec![
        Box::new(|d| [&d[..1000], &b"new words here "[..], &d[1000..]].concat()),
        Box::new(|d| [&d[..50_000], &d[90_000..]].concat()),
        Box::new(|d| [d, &b"tail without newline"[..]].concat()),
        Box::new(|d| d.iter().map(|&b| if b == b' ' { b'\n' } else { b }).collect()),
        Box::new(|d| [&d[..d.len() / 2], &b"x"[..], &d[d.len() / 2..]].concat()),
        Box::new(|_| Vec::new()),
    ];
    for (i, edit) in edits.iter().enumerate() {
        let next = edit(&base);
        let b = build(&mut st, &p, &next).unwrap();
        let expect = count_words(&next) as i64 - count_words(&base) as i64;
        assert_eq!(word_delta(&st, &a, &b).unwrap(), expect, "edit {i}");
    }
}
