//! Suggestions from the words seen most recently.
use vstd::prelude::*;
use vstd::utf8::*;

use super::{CompletionParams, CompletionSource};
use crate::collections::markov_trie::words_of;
use crate::history::{inserted, newest, History};
use crate::matchers::pattern::{find_all, regex_compile_error, regex_find_all, span_in, Pattern};
use crate::matchers::simple::{copy_range, lemma_slice_valid};
use crate::processing::utf8::bytes_to_string;

verus! {

/// How many words are remembered by default.
pub const DEFAULT_RECENCY_CAPACITY: usize = 5000;

/// A word.
pub const WORD_PATTERN: &'static str = "(\\w+)";

/// The words of a line, in order.
pub open spec fn words_in(line: Seq<char>) -> Seq<Seq<char>> {
    if regex_compile_error(WORD_PATTERN@) is None {
        regex_find_all(WORD_PATTERN@, line).map_values(
            |span: (usize, usize)| decode_utf8(encode_utf8(line).subrange(span.0 as int, span.1 as int)),
        )
    } else {
        Seq::empty()
    }
}

/// Remembers recent words, and suggests them, oldest first.
pub struct RecencyCompletionSource {
    history: History,
}

impl RecencyCompletionSource {
    pub fn new() -> (r: Self)
        ensures
            r.words() == Seq::<Seq<char>>::empty(),
            r.capacity() == DEFAULT_RECENCY_CAPACITY,
    {
        Self::with_capacity(DEFAULT_RECENCY_CAPACITY)
    }

    pub fn with_capacity(capacity: usize) -> (r: Self)
        ensures
            r.words() == Seq::<Seq<char>>::empty(),
            r.capacity() == capacity,
    {
        RecencyCompletionSource { history: History::with_capacity(capacity) }
    }

    pub closed spec fn words(&self) -> Seq<Seq<char>> {
        self.history@.entries
    }

    pub closed spec fn capacity(&self) -> nat {
        self.history@.max_entries
    }

    /// Remembers the words of a line.
    pub fn process_line(&mut self, line: &str)
        ensures
            final(self).words() == newest(inserted(old(self).words(), words_in(line@)), old(self).capacity()),
            final(self).capacity() == old(self).capacity(),
    {
        let found = words_of_line(line);
        self.history.insert_many(found);
    }

    /// The remembered words, oldest first.
    pub fn remembered(&self) -> (r: Vec<String>)
        ensures
            words_of(r@) == self.words(),
    {
        self.history.to_vec()
    }
}

/// The words of a line.
fn words_of_line(line: &str) -> (r: Vec<String>)
    ensures
        words_of(r@) == words_in(line@),
{
    let pattern = match Pattern::new(WORD_PATTERN) {
        Ok(p) => p,
        Err(_) => {
            let r: Vec<String> = Vec::new();
            assert(words_of(r@) =~= Seq::<Seq<char>>::empty());
            return r;
        },
    };
    let spans = find_all(&pattern, line);
    let bytes = line.as_bytes();
    let ghost src = encode_utf8(line@);
    let ghost all = words_in(line@);
    proof {
        encode_utf8_valid_utf8(line@);
    }
    let mut words: Vec<String> = Vec::new();
    let mut i: usize = 0;
    while i < spans.len()
        invariant
            bytes@ == src,
            src == encode_utf8(line@),
            valid_utf8(src),
            spans@ == regex_find_all(pattern@, line@),
            pattern@ == WORD_PATTERN@,
            all == words_in(line@),
            regex_compile_error(WORD_PATTERN@) is None,
            forall|j: int| 0 <= j < spans@.len() ==> span_in(src, #[trigger] spans@[j]),
            i <= spans@.len(),
            words@.len() == i,
            words_of(words@) == all.subrange(0, i as int),
        decreases spans@.len() - i,
    {
        let span = spans[i];
        assert(span_in(src, spans@[i as int]));
        let piece = copy_range(bytes, span.0, span.1);
        proof {
            lemma_slice_valid(src, span.0 as int, span.1 as int);
        }
        let word = bytes_to_string(&piece);
        assert(all[i as int] == word@);
        let ghost before = words@;
        words.push(word);
        proof {
            assert forall|j: int| 0 <= j < i + 1 implies #[trigger] words_of(words@)[j] == all[j] by {
                assert(words_of(words@)[j] == words@[j]@);
                if j < i {
                    assert(words@[j] == before[j]);
                    assert(words_of(before)[j] == before[j]@);
                    assert(words_of(before)[j] == all.subrange(0, i as int)[j]);
                }
            }
            assert(words_of(words@) =~= all.subrange(0, i + 1));
        }
        i = i + 1;
    }
    proof {
        assert(all.subrange(0, i as int) =~= all);
    }
    words
}

impl CompletionSource for RecencyCompletionSource {
    /// The remembered words, oldest first, whatever is typed.
    open spec fn may_suggest(&self, params: CompletionParams, words: Seq<Seq<char>>) -> bool {
        words == self.words()
    }

    /// Always.
    open spec fn can_suggest(&self, params: CompletionParams) -> bool {
        true
    }

    fn suggest(&self, params: &CompletionParams) -> (r: Vec<String>) {
        self.remembered()
    }
}

} // verus!
