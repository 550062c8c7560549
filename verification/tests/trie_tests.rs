use trie_rs::TrieBuilder;
use trie_rs::TrieError;

fn chars(s: &str) -> Vec<char> {
    s.chars().collect()
}

/// The documented example trie: Alabama, Alaska, Alas.
fn states(build_index: bool) -> trie_rs::Trie<char> {
    let mut builder = TrieBuilder::new(build_index);
    builder.push(&chars("Alabama"));
    builder.push(&chars("Alaska"));
    builder.push(&chars("Alas"));
    builder.build()
}

#[test]
fn search_continuations_of_alas() {
    let trie = states(true);
    assert_eq!(
        trie.search(&chars("Alas")).unwrap(),
        &vec![chars("Alas"), chars("Alaska")]
    );
}

#[test]
fn common_prefix_search_of_alaska() {
    let trie = states(false);
    assert_eq!(
        trie.common_prefix_search(&chars("Alaska")),
        vec![chars("Alas"), chars("Alaska")]
    );
}

#[test]
fn search_all_completions_of_al() {
    let trie = states(true);
    let found = trie.search(&chars("Al")).unwrap();
    assert_eq!(found.len(), 3);
    assert!(found.contains(&chars("Alabama")));
    assert!(found.contains(&chars("Alaska")));
    assert!(found.contains(&chars("Alas")));
}

#[test]
fn search_missing_first_symbol_fails() {
    let trie = states(true);
    assert!(matches!(
        trie.search(&chars("Z")),
        Err(TrieError::NoResultFound)
    ));
}

#[test]
fn search_before_index_build_fails() {
    let trie = states(false);
    assert!(matches!(
        trie.search(&chars("Al")),
        Err(TrieError::IndexNotBuilt)
    ));
}

#[test]
fn index_gating_same_query_after_build() {
    let mut trie = states(false);
    assert!(matches!(
        trie.search(&chars("Al")),
        Err(TrieError::IndexNotBuilt)
    ));
    trie.build_index();
    assert!(trie.search(&chars("Al")).is_ok());
    assert!(matches!(
        trie.search(&chars("Zebra")),
        Err(TrieError::NoResultFound)
    ));
}

#[test]
fn round_trip_every_stored_item() {
    let words = ["Alabama", "Alaska", "Alas"];
    let trie = states(true);
    for word in words {
        let found = trie.search(&chars(word)).unwrap();
        let hits = found.iter().filter(|w| **w == chars(word)).count();
        assert_eq!(hits, 1);
    }
}

#[test]
fn idempotent_push_same_results() {
    let mut once = TrieBuilder::new(true);
    once.push(&chars("tree"));
    once.push(&chars("trie"));
    let once = once.build();

    let mut twice = TrieBuilder::new(true);
    twice.push(&chars("tree"));
    twice.push(&chars("trie"));
    twice.push(&chars("tree"));
    let twice = twice.build();

    assert_eq!(
        once.search(&chars("tr")).unwrap(),
        twice.search(&chars("tr")).unwrap()
    );
    assert_eq!(
        once.common_prefix_search(&chars("trees")),
        twice.common_prefix_search(&chars("trees"))
    );
    let found = twice.search(&chars("tree")).unwrap();
    assert_eq!(found, &vec![chars("tree")]);
}

#[test]
fn shared_prefix_serves_both_sequences() {
    let mut builder = TrieBuilder::new(true);
    builder.push(&chars("carpet"));
    builder.push(&chars("carton"));
    let trie = builder.build();
    let found = trie.search(&chars("car")).unwrap();
    assert_eq!(found.len(), 2);
    assert!(found.contains(&chars("carpet")));
    assert!(found.contains(&chars("carton")));
    assert!(matches!(
        trie.search(&chars("carp" )).map(|ws| ws.clone()),
        Ok(ws) if ws == vec![chars("carpet")]
    ));
}

#[test]
fn common_prefix_search_lists_exactly_the_stored_prefixes() {
    let mut builder = TrieBuilder::new(false);
    builder.push(b"a");
    builder.push(b"ab");
    builder.push(b"abc");
    builder.push(b"b");
    builder.push(b"abcde");
    let trie = builder.build();
    let found = trie.common_prefix_search(b"abcd");
    assert_eq!(found, vec![b"a".to_vec(), b"ab".to_vec(), b"abc".to_vec()]);
}

#[test]
fn common_prefix_search_never_errors() {
    let trie = states(false);
    let empty: Vec<Vec<char>> = vec![];
    assert_eq!(trie.common_prefix_search(&chars("Zebra")), empty);
    assert_eq!(trie.common_prefix_search(&chars("")), empty);
    let fresh = TrieBuilder::<u8>::new(false).build();
    assert_eq!(fresh.common_prefix_search(b"anything"), Vec::<Vec<u8>>::new());
}

#[test]
fn empty_sequence_is_a_valid_item() {
    let mut builder = TrieBuilder::new(true);
    builder.push(b"");
    builder.push(b"a");
    let trie = builder.build();
    let found = trie.search(b"").unwrap();
    assert_eq!(found.len(), 2);
    assert!(found.contains(&b"".to_vec()));
    assert!(found.contains(&b"a".to_vec()));
    // The empty item is never a reported prefix match: only items reached by
    // consuming at least one query symbol are.
    assert_eq!(trie.common_prefix_search(b"a"), vec![b"a".to_vec()]);
}

#[test]
fn search_on_empty_query_lists_everything() {
    let trie = states(true);
    let found = trie.search(&chars("")).unwrap();
    assert_eq!(found.len(), 3);
}

#[test]
fn push_after_build_leaves_stale_index() {
    let mut builder = TrieBuilder::new(true);
    builder.push(b"ab");
    let mut trie = builder.build();
    trie.push(b"cd");
    // The path for the late insertion exists, but its cached completions were
    // never computed: success with an empty list, not an error.
    let stale = trie.search(b"cd").unwrap();
    assert_eq!(stale.len(), 0);
    // The index-free query sees the late insertion at once.
    assert_eq!(trie.common_prefix_search(b"cdef"), vec![b"cd".to_vec()]);
    // A rebuild brings the index up to date.
    trie.build_index();
    assert_eq!(trie.search(b"cd").unwrap(), &vec![b"cd".to_vec()]);
}

#[test]
fn integer_labels_work_alike() {
    let mut builder = TrieBuilder::new(true);
    builder.push(&[1u64, 2, 3]);
    builder.push(&[1u64, 2, 4]);
    builder.push(&[9u64]);
    let trie = builder.build();
    let found = trie.search(&[1u64, 2]).unwrap();
    assert_eq!(found.len(), 2);
    assert!(found.contains(&vec![1u64, 2, 3]));
    assert!(found.contains(&vec![1u64, 2, 4]));
    assert_eq!(
        trie.common_prefix_search(&[1u64, 2, 3, 5]),
        vec![vec![1u64, 2, 3]]
    );
    assert!(matches!(
        trie.search(&[7u64]),
        Err(TrieError::NoResultFound)
    ));
}

#[test]
fn direct_trie_push_matches_builder_push() {
    let mut trie = trie_rs::Trie::default();
    trie.push(b"north");
    trie.push(b"nor");
    trie.build_index();
    assert_eq!(
        trie.search(b"nor").unwrap(),
        &vec![b"nor".to_vec(), b"north".to_vec()]
    );
}
