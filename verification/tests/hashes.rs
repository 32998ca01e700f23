use textdb::hash::{from_hex, hash_chunk, hash_node, hex};
use textdb::{Child, Node};

#[test]
fn hashes_are_those_of_blake3() {
    assert_eq!(hex(&hash_chunk(b"abc")), blake3::hash(b"abc").to_hex().to_string());
    assert_ne!(hash_chunk(b"abc"), hash_chunk(b"abd"));
    assert_ne!(hash_node(b"abc"), hash_chunk(b"abc"));
}

#[test]
fn a_hash_reads_back_from_its_digits() {
    let h = hash_chunk(b"x");
    assert_eq!(from_hex(&hex(&h)), Some(h));
    assert_eq!(from_hex("abc"), None);
    assert_eq!(from_hex(&"g".repeat(64)), None);
}

#[test]
fn a_node_reads_back_from_its_bytes() {
    let child = Child { hash: hash_chunk(b"hello\n"), nbytes: 6, nlines: 1, is_leaf: true };
    let node = Node::new(vec![child]);
    let encoded = node.encode();
    let back = Node::decode(&encoded).unwrap();
    assert_eq!(back.encode(), encoded);
    assert_eq!((back.nbytes(), back.nlines()), (6, 1));
    assert!(Node::decode(&encoded[1..]).is_none());
}
