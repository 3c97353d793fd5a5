use autocorrect::dictionary::{build, Entry, Store};
use autocorrect::lex::{bytes_eq, lex_le_bytes};

fn w(s: &str) -> Vec<u8> {
    s.as_bytes().to_vec()
}

fn entry(word: &str, freq: u64) -> Entry {
    Entry { word: w(word), freq }
}

fn test_store() -> Store {
    build(vec![
        entry("apple", 10),
        entry("banana", 20),
        entry("bandana", 1),
        entry("berry", 15),
        entry("cherry", 8),
        entry("apricot", 5),
        entry("searchkeya", 1),
        entry("searchkeyb", 1),
        entry("searchkeyc", 1),
        entry("searchkeyd", 1),
        entry("searchkeye", 1),
        entry("searchkeyf", 1),
    ])
}

#[test]
fn test_ranks_follow_frequency_then_word_order() {
    let store = test_store();
    // Frequency descending, then word ascending among equal frequencies.
    assert_eq!(store.get(&w("banana")), Some(0));
    assert_eq!(store.get(&w("berry")), Some(1));
    assert_eq!(store.get(&w("apple")), Some(2));
    assert_eq!(store.get(&w("cherry")), Some(3));
    assert_eq!(store.get(&w("apricot")), Some(4));
    assert_eq!(store.get(&w("bandana")), Some(5));
    assert_eq!(store.get(&w("searchkeya")), Some(6));
    assert_eq!(store.get(&w("searchkeyb")), Some(7));
    assert_eq!(store.get(&w("searchkeyf")), Some(11));
}

#[test]
fn test_get_absent_word() {
    let store = test_store();
    assert_eq!(store.get(&w("missing")), None);
    assert_eq!(store.get(&w("")), None);
}

#[test]
fn test_ranks_are_a_bijection() {
    let store = test_store();
    let words = [
        "apple",
        "banana",
        "bandana",
        "berry",
        "cherry",
        "apricot",
        "searchkeya",
        "searchkeyb",
        "searchkeyc",
        "searchkeyd",
        "searchkeye",
        "searchkeyf",
    ];
    let mut seen = vec![false; words.len()];
    for word in words.iter() {
        let rank = store.get(&w(word)).expect("every inserted word has a rank") as usize;
        assert!(rank < words.len(), "rank {} out of range for '{}'", rank, word);
        assert!(!seen[rank], "rank {} assigned twice", rank);
        seen[rank] = true;
    }
    assert!(seen.iter().all(|&s| s));
}

#[test]
fn test_duplicate_word_last_occurrence_wins() {
    let store = build(vec![entry("apple", 1), entry("pear", 5), entry("apple", 10)]);
    assert_eq!(store.len(), 2);
    // The later frequency 10 wins, putting apple ahead of pear.
    assert_eq!(store.get(&w("apple")), Some(0));
    assert_eq!(store.get(&w("pear")), Some(1));
}

#[test]
fn test_rank_tie_breaks_lexicographically() {
    let store = build(vec![entry("bb", 3), entry("aa", 3), entry("cc", 7)]);
    assert_eq!(store.get(&w("cc")), Some(0));
    assert_eq!(store.get(&w("aa")), Some(1));
    assert_eq!(store.get(&w("bb")), Some(2));
}

#[test]
fn test_empty_store() {
    let store = build(Vec::new());
    assert_eq!(store.len(), 0);
    assert_eq!(store.get(&w("anything")), None);
}

#[test]
fn test_bytes_eq() {
    assert!(bytes_eq(&w("abc"), &w("abc")));
    assert!(!bytes_eq(&w("abc"), &w("abd")));
    assert!(!bytes_eq(&w("abc"), &w("ab")));
    assert!(bytes_eq(&w(""), &w("")));
}

#[test]
fn test_lex_le_bytes() {
    assert!(lex_le_bytes(&w("abc"), &w("abd")));
    assert!(!lex_le_bytes(&w("abd"), &w("abc")));
    assert!(lex_le_bytes(&w("ab"), &w("abc")));
    assert!(!lex_le_bytes(&w("abc"), &w("ab")));
    assert!(lex_le_bytes(&w("abc"), &w("abc")));
    assert!(lex_le_bytes(&w(""), &w("a")));
}
