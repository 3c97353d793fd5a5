use autocorrect::dictionary::{build, Entry, Store};
use autocorrect::suggest::candidates;

fn w(s: &str) -> Vec<u8> {
    s.as_bytes().to_vec()
}

fn entry(word: &str, freq: u64) -> Entry {
    Entry { word: w(word), freq }
}

fn test_store() -> Store {
    build(vec![
        entry("apple", 10),
        entry("banana", 20),
        entry("bandana", 1),
        entry("berry", 15),
        entry("cherry", 8),
        entry("apricot", 5),
    ])
}

#[test]
fn test_roundtrip_preserves_ranks() {
    let store = test_store();
    let bytes = store.to_bytes();
    let restored = Store::from_bytes(&bytes).expect("encoded store must decode");
    assert_eq!(restored.len(), store.len());
    for word in ["apple", "banana", "bandana", "berry", "cherry", "apricot"] {
        assert_eq!(restored.get(&w(word)), store.get(&w(word)));
    }
    assert_eq!(restored.get(&w("missing")), None);
}

#[test]
fn test_roundtrip_preserves_queries() {
    let store = test_store();
    let restored = Store::from_bytes(&store.to_bytes()).expect("encoded store must decode");
    assert_eq!(candidates(&restored, &w("apply")), candidates(&store, &w("apply")));
    assert_eq!(candidates(&restored, &w("bana")), candidates(&store, &w("bana")));
}

#[test]
fn test_roundtrip_empty_store() {
    let store = build(Vec::new());
    let bytes = store.to_bytes();
    assert_eq!(bytes.len(), 8);
    let restored = Store::from_bytes(&bytes).expect("empty store must decode");
    assert_eq!(restored.len(), 0);
}

#[test]
fn test_decode_rejects_short_input() {
    assert!(Store::from_bytes(&vec![]).is_none());
    assert!(Store::from_bytes(&vec![1, 2, 3]).is_none());
}

#[test]
fn test_decode_rejects_truncated_input() {
    let store = test_store();
    let mut bytes = store.to_bytes();
    bytes.pop();
    assert!(Store::from_bytes(&bytes).is_none());
}

#[test]
fn test_decode_rejects_trailing_bytes() {
    let store = test_store();
    let mut bytes = store.to_bytes();
    bytes.push(0);
    assert!(Store::from_bytes(&bytes).is_none());
}

#[test]
fn test_decode_rejects_overstated_count() {
    // A count of one pair, but no pair bytes at all.
    let mut bytes = vec![0u8; 8];
    bytes[0] = 1;
    assert!(Store::from_bytes(&bytes).is_none());
}

#[test]
fn test_decode_rejects_unsorted_pairs() {
    // Two single-byte words out of order: "b" before "a".
    let mut bytes: Vec<u8> = Vec::new();
    bytes.extend_from_slice(&2u64.to_le_bytes());
    bytes.extend_from_slice(&1u64.to_le_bytes());
    bytes.push(b'b');
    bytes.extend_from_slice(&0u64.to_le_bytes());
    bytes.extend_from_slice(&1u64.to_le_bytes());
    bytes.push(b'a');
    bytes.extend_from_slice(&1u64.to_le_bytes());
    assert!(Store::from_bytes(&bytes).is_none());
}

#[test]
fn test_decode_accepts_sorted_pairs() {
    // The same two words in order decode fine.
    let mut bytes: Vec<u8> = Vec::new();
    bytes.extend_from_slice(&2u64.to_le_bytes());
    bytes.extend_from_slice(&1u64.to_le_bytes());
    bytes.push(b'a');
    bytes.extend_from_slice(&1u64.to_le_bytes());
    bytes.extend_from_slice(&1u64.to_le_bytes());
    bytes.push(b'b');
    bytes.extend_from_slice(&0u64.to_le_bytes());
    let store = Store::from_bytes(&bytes).expect("sorted pairs must decode");
    assert_eq!(store.get(&w("a")), Some(1));
    assert_eq!(store.get(&w("b")), Some(0));
}
