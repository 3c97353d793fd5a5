use autocorrect::dictionary::{build, Entry, Store};
use autocorrect::matcher::Matcher;
use autocorrect::suggest::{candidates, candidates_with, Config};

fn w(s: &str) -> Vec<u8> {
    s.as_bytes().to_vec()
}

fn entry(word: &str, freq: u64) -> Entry {
    Entry { word: w(word), freq }
}

fn setup_test_dictionary() -> Store {
    build(vec![
        entry("apple", 10),
        entry("banana", 20),
        entry("bandana", 1),
        entry("berry", 15),
        entry("cherry", 8),
        entry("apricot", 5),
        entry("searchkeya", 1),
        entry("searchkeyb", 1),
        entry("searchkeyc", 1),
        entry("searchkeyd", 1),
        entry("searchkeye", 1),
        entry("searchkeyf", 1),
    ])
}

#[test]
fn test_empty_buffer() {
    let store = setup_test_dictionary();
    let suggestions = candidates(&store, &w(""));
    assert!(suggestions.is_empty(), "Expected no suggestions for empty buffer");
}

#[test]
fn test_exact_match() {
    let store = setup_test_dictionary();
    let suggestions = candidates(&store, &w("apple"));
    assert!(
        suggestions.contains(&w("apple")),
        "Expected 'apple' in suggestions for exact match"
    );
}

#[test]
fn test_one_edit_distance() {
    let store = setup_test_dictionary();
    // 'apply' is one edit away from 'apple' (e -> y)
    let suggestions = candidates(&store, &w("apply"));
    assert!(
        suggestions.contains(&w("apple")),
        "Expected 'apple' in suggestions for 'apply'"
    );
}

#[test]
fn test_two_edit_distance() {
    let store = setup_test_dictionary();
    // 'axrle' is two edits away from 'apple' (x -> p, r -> p)
    let suggestions = candidates(&store, &w("axrle"));
    assert!(
        suggestions.contains(&w("apple")),
        "Expected 'apple' in suggestions for 'axrle'"
    );
}

#[test]
fn test_no_match_within_max_edits() {
    let store = setup_test_dictionary();
    // 'xyzxyz' should be too far from any word in the test dictionary
    let suggestions = candidates(&store, &w("xyzxyz"));
    assert!(suggestions.is_empty(), "Expected no suggestions for 'xyzxyz'");
}

#[test]
fn test_suggestions_sorted_by_rank() {
    let store = setup_test_dictionary();
    // Input "bana" is within the edit budget of "banana" only:
    // two insertions reach "banana"; "bandana" needs three edits.
    let mut actual_suggestions = candidates(&store, &w("bana"));

    let mut expected = vec![w("banana")];
    expected.sort();
    actual_suggestions.sort();

    assert!(
        expected.iter().all(|item| actual_suggestions.contains(item))
            && expected.len() == actual_suggestions.len(),
        "Expected suggestions for 'bana' to be {:?}, got {:?}",
        expected,
        actual_suggestions
    );
}

#[test]
fn test_top_k_limit() {
    let store = setup_test_dictionary();
    // "searchkey" is one edit from each of searchkeya ... searchkeyf:
    // six candidates, limited to the first five in key order.
    let suggestions = candidates(&store, &w("searchkey"));
    assert_eq!(
        suggestions.len(),
        5,
        "Expected suggestions to be limited by TOP_K for input 'searchkey'"
    );

    let expected_slice = [
        w("searchkeya"),
        w("searchkeyb"),
        w("searchkeyc"),
        w("searchkeyd"),
        w("searchkeye"),
    ];
    assert!(
        suggestions.iter().all(|s| expected_slice.contains(s)),
        "Unexpected suggestions for 'searchkey': {:?}, expected subset of {:?}",
        suggestions,
        expected_slice
    );
    let suggestions_set: std::collections::HashSet<Vec<u8>> =
        suggestions.iter().cloned().collect();
    let expected_set: std::collections::HashSet<Vec<u8>> =
        expected_slice.iter().cloned().collect();
    assert_eq!(suggestions_set, expected_set);
}

#[test]
fn test_suggestions_in_lexicographic_order() {
    let store = setup_test_dictionary();
    let suggestions = candidates(&store, &w("searchkey"));
    assert_eq!(
        suggestions,
        vec![
            w("searchkeya"),
            w("searchkeyb"),
            w("searchkeyc"),
            w("searchkeyd"),
            w("searchkeye"),
        ]
    );
}

#[test]
fn test_candidates_with_smaller_top_k() {
    let store = setup_test_dictionary();
    let config = Config { max_edits: 2, top_k: 2 };
    let suggestions = candidates_with(&store, &w("searchkey"), &config);
    assert_eq!(suggestions, vec![w("searchkeya"), w("searchkeyb")]);
}

#[test]
fn test_candidates_with_zero_edits() {
    let store = setup_test_dictionary();
    let config = Config { max_edits: 0, top_k: 5 };
    assert_eq!(candidates_with(&store, &w("apple"), &config), vec![w("apple")]);
    assert!(candidates_with(&store, &w("apply"), &config).is_empty());
}

#[test]
fn test_matcher_transitions() {
    let m = Matcher::new(w("abc"), 1);
    let mut st = m.start();
    assert!(m.can_match(&st));
    assert!(!m.is_accepting(&st));
    st = m.step(&st, b'a');
    assert!(!m.is_accepting(&st));
    st = m.step(&st, b'b');
    assert!(m.is_accepting(&st));
    st = m.step(&st, b'c');
    assert!(m.is_accepting(&st));
    st = m.step(&st, b'z');
    assert!(m.is_accepting(&st));
    st = m.step(&st, b'z');
    assert!(!m.is_accepting(&st));
}

#[test]
fn test_matcher_dead_state_stays_dead() {
    let m = Matcher::new(w("abc"), 1);
    let mut st = m.start();
    st = m.step(&st, b'x');
    assert!(m.can_match(&st));
    st = m.step(&st, b'y');
    assert!(!m.can_match(&st));
}

#[test]
fn test_matcher_empty_query_accepts_short_words() {
    let m = Matcher::new(w(""), 2);
    let mut st = m.start();
    assert!(m.is_accepting(&st));
    st = m.step(&st, b'a');
    assert!(m.is_accepting(&st));
    st = m.step(&st, b'b');
    assert!(m.is_accepting(&st));
    st = m.step(&st, b'c');
    assert!(!m.is_accepting(&st));
    assert!(!m.can_match(&st));
}

#[test]
fn test_empty_word_entry_is_matched() {
    let store = build(vec![entry("", 3), entry("a", 1)]);
    let config = Config { max_edits: 1, top_k: 5 };
    let suggestions = candidates_with(&store, &w("a"), &config);
    assert_eq!(suggestions, vec![w(""), w("a")]);
}
