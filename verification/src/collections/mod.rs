pub mod markov_trie;
