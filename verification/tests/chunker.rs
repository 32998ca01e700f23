use textdb::chunker::{chunk_all, cut, splitmix64, ChunkParams};

#[test]
fn chunks_cover_input_and_respect_bounds() {
    let p = ChunkParams::default();
    let mut data = Vec::new();
    let mut x = 1u64;
    for _ in 0..200_000 {
        x = splitmix64(x);
        data.push((x & 0x7f) as u8);
        if x % 90 == 0 {
            data.push(b'\n');
        }
    }
    let chunks = chunk_all(&p, &data);
    let mut pos = 0;
    for (s, l) in &chunks {
        assert_eq!(*s, pos);
        assert!(*l <= p.max + p.snap, "chunk too large: {}", l);
        pos += l;
    }
    assert_eq!(pos, data.len());
    for (_, l) in &chunks[..chunks.len() - 1] {
        assert!(*l >= p.min);
    }
    let mean = data.len() / chunks.len();
    assert!(mean > 600 && mean < 2500, "mean chunk {}", mean);
}

#[test]
fn incremental_decisions_match_eof_decisions() {
    let p = ChunkParams::default();
    let mut data = Vec::new();
    let mut x = 7u64;
    for _ in 0..50_000 {
        x = splitmix64(x);
        data.push((x & 0xff) as u8);
    }
    let full = chunk_all(&p, &data);
    let mut pos = 0;
    for (s, l) in full {
        assert_eq!(s, pos);
        let avail = (data.len() - pos).min(p.lookahead());
        let decided = cut(&p, &data[pos..pos + avail], pos + avail == data.len());
        assert_eq!(decided, Some(l));
        pos += l;
    }
}

#[test]
fn the_gear_table_has_one_value_for_each_byte() {
    let t = textdb::chunker::gear_table();
    assert_eq!(t[0], splitmix64(0x7465787464622d67));
    assert_eq!(t[10], splitmix64(0x7465787464622d67 ^ 10));
    let mut seen = t.to_vec();
    seen.sort();
    seen.dedup();
    assert_eq!(seen.len(), 256);
}
