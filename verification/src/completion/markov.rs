//! Suggestions from the sequences of words typed before.
use vstd::prelude::*;

use super::{tokens_before, CompletionParams, CompletionSource};
use crate::collections::markov_trie::{
    is_nonempty_prefix, next_words, recorded_words, words_of, MarkovTrie, Path, DEFAULT_MAX_DEPTH,
};
use crate::processing::utf8::{lowercase, split_whitespace, str_to_lowercase, whitespace_words};

verus! {

/// Learns the word sequences of lines, and suggests what followed the words
/// before the cursor.
pub struct MarkovCompletionSource {
    trie: MarkovTrie,
}

/// The words of a line, lowercased.
pub open spec fn line_words(line: Seq<char>) -> Path {
    whitespace_words(line).map_values(|w: Seq<char>| lowercase(w))
}

/// What recording a line does to a trie: each nonempty prefix of the
/// recorded words of the line is counted once more, and nothing else
/// changes; once `usize::MAX` lines were recorded, the trie stays as it is.
pub open spec fn learned_line(before: MarkovTrie, after: MarkovTrie, line: Seq<char>) -> bool {
    &&& before.sequences_view() < usize::MAX ==> forall|p: Path|
        #[trigger] after.count(p) == before.count(p) + (if is_nonempty_prefix(
            p,
            recorded_words(line_words(line), before.stop_words_view(), before.max_depth_view()),
        ) {
            1int
        } else {
            0int
        })
    &&& before.sequences_view() >= usize::MAX ==> after == before
}

/// A trie that recorded nothing yet, with the default stop words and depth.
pub open spec fn fresh_trie(t: MarkovTrie) -> bool {
    &&& forall|p: Path| #[trigger] t.count(p) == 0
    &&& t.stop_words_view() == seq!["say"@, "emote"@, "pose"@]
    &&& t.max_depth_view() == DEFAULT_MAX_DEPTH
    &&& t.sequences_view() == 0
}

impl MarkovCompletionSource {
    pub fn new() -> (r: Self)
        ensures
            fresh_trie(r.trie()),
    {
        MarkovCompletionSource { trie: MarkovTrie::new() }
    }

    pub closed spec fn trie(&self) -> MarkovTrie {
        self.trie
    }

    /// Records the lowercased words of a line.  Once `usize::MAX` lines were
    /// recorded, counts could no longer grow, and lines are ignored.
    pub fn process_line(&mut self, line: &str)
        ensures
            learned_line(old(self).trie(), final(self).trie(), line@),
    {
        let pieces = split_whitespace(line);
        let mut words: Vec<String> = Vec::new();
        let mut i: usize = 0;
        while i < pieces.len()
            invariant
                i <= pieces@.len(),
                pieces@.map_values(|s: String| s@) == whitespace_words(line@),
                words_of(words@) == line_words(line@).subrange(0, i as int),
                words@.len() == i,
            decreases pieces@.len() - i,
        {
            let w = str_to_lowercase(pieces[i].as_str());
            proof {
                assert(pieces@.map_values(|s: String| s@)[i as int] == pieces@[i as int]@);
                assert(line_words(line@)[i as int] == w@);
            }
            let ghost old_words = words@;
            words.push(w);
            proof {
                assert(words@ == old_words.push(w));
                assert(words_of(old_words) == line_words(line@).subrange(0, i as int));
                assert forall|j: int| 0 <= j < i + 1 implies #[trigger] words_of(words@)[j] == line_words(line@)[j] by {
                    assert(words_of(words@)[j] == words@[j]@);
                    if j < i {
                        assert(words@[j] == old_words[j]);
                        assert(words_of(old_words)[j] == old_words[j]@);
                        assert(words_of(old_words)[j] == line_words(line@).subrange(0, i as int)[j]);
                    }
                }
                assert(words_of(words@) =~= line_words(line@).subrange(0, i + 1));
            }
            i = i + 1;
        }
        proof {
            assert(line_words(line@).subrange(0, i as int) =~= line_words(line@));
        }
        if self.trie.sequences_recorded() < usize::MAX {
            self.trie.note_count_bound();
            self.trie.add_sequence(&words);
        }
    }
}

impl CompletionSource for MarkovCompletionSource {
    /// The words seen after the words before the cursor, most often seen
    /// first.
    open spec fn may_suggest(&self, params: CompletionParams, words: Seq<Seq<char>>) -> bool {
        next_words(self.trie(), tokens_before(params.line_to_cursor@), words)
    }

    /// Always.
    open spec fn can_suggest(&self, params: CompletionParams) -> bool {
        true
    }

    fn suggest(&self, params: &CompletionParams) -> (r: Vec<String>) {
        let words = params.tokens_before_cursor();
        self.trie.query_next(&words).into_vec()
    }
}

} // verus!
