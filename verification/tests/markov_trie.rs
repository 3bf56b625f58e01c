use kodachi::collections::markov_trie::MarkovTrie;

fn process(trie: &mut MarkovTrie, phrase: &str) {
    let vec: Vec<String> = phrase.split_whitespace().map(|s| s.to_string()).collect();
    trie.add_sequence(&vec);
}

fn trie() -> MarkovTrie {
    let mut trie = MarkovTrie::new();
    process(&mut trie, "Take my love");
    process(&mut trie, "I'm still free");
    process(&mut trie, "Take me where I cannot stand");
    process(&mut trie, "I don't care");
    process(&mut trie, "Take my land");
    trie
}

fn query_vec(source: &MarkovTrie, query: &[&str]) -> Vec<String> {
    let query: Vec<String> = query.iter().map(|s| s.to_string()).collect();
    source.query_next(&query).into_vec()
}

#[test]
fn query_empty_trie() {
    let source = MarkovTrie::new();
    assert!(query_vec(&source, &[]).is_empty());
}

#[test]
fn query_path_in_empty_trie() {
    let source = MarkovTrie::new();
    assert!(query_vec(&source, &["Take"]).is_empty());
}

#[test]
fn first_completions() {
    let source = trie();
    let suggestions = query_vec(&source, &[]);
    assert_eq!(suggestions[0], "Take");
}

#[test]
fn sequence_completion() {
    let source = trie();
    assert_eq!(query_vec(&source, &["Take"]), vec!["my", "me"]);
}

#[test]
fn ignore_stop_words() {
    let mut source = MarkovTrie::with_stop_words(vec!["say".to_string()]);
    process(&mut source, "say Hello");
    assert_eq!(query_vec(&source, &[]).first(), None);
}

#[test]
fn deeper_words_are_cut_at_max_depth() {
    let mut source = MarkovTrie::new();
    process(&mut source, "a b c d e f g");
    assert_eq!(query_vec(&source, &["a", "b", "c", "d"]), vec!["e"]);
    assert!(query_vec(&source, &["a", "b", "c", "d", "e"]).is_empty());
}
