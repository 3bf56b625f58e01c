//! The words of a text, as the completion sources see them.
use vstd::prelude::*;
use vstd::utf8::*;

use crate::matchers::pattern::{find_all, regex_compile_error, regex_find_all, Pattern};
use crate::matchers::simple::{copy_range, lemma_slice_valid};
use crate::collections::markov_trie::words_of;
use crate::processing::utf8::{bytes_to_string, lowercase, str_to_lowercase};

verus! {

/// Every word, with an optional apostrophe part (`can't`).
pub const WORD_TOKENS: &'static str = "(\\w+([']\\w+)?)";

/// Only words of three or more word characters.
pub const SIGNIFICANT_TOKENS: &'static str = "(\\w{3,}([']\\w+)?)";

/// The lowercased text of each match of a pattern.
pub open spec fn token_texts(source: Seq<char>, input: Seq<char>) -> Seq<Seq<char>> {
    regex_find_all(source, input).map_values(
        |span: (usize, usize)|
            lowercase(decode_utf8(encode_utf8(input).subrange(span.0 as int, span.1 as int))),
    )
}

/// The tokens of a text.
pub struct Tokens {
    pattern: Option<Pattern>,
    input: String,
}

pub struct TokensView {
    pub compiled: bool,
    pub source: Seq<char>,
    pub input: Seq<char>,
}

impl View for Tokens {
    type V = TokensView;

    closed spec fn view(&self) -> TokensView {
        TokensView {
            compiled: self.pattern is Some,
            source: match self.pattern {
                Some(p) => p@,
                None => Seq::empty(),
            },
            input: self.input@,
        }
    }
}

impl Tokens {
    /// The significant words only.
    pub fn significant_from(text: &str) -> (r: Tokens)
        ensures
            r@.input == text@,
            r@.compiled == (regex_compile_error(SIGNIFICANT_TOKENS@) is None),
            r@.compiled ==> r@.source == SIGNIFICANT_TOKENS@,
    {
        Tokens { pattern: Pattern::new(SIGNIFICANT_TOKENS).ok(), input: text.to_owned() }
    }

    /// Every word.
    pub fn from(text: &str) -> (r: Tokens)
        ensures
            r@.input == text@,
            r@.compiled == (regex_compile_error(WORD_TOKENS@) is None),
            r@.compiled ==> r@.source == WORD_TOKENS@,
    {
        Tokens { pattern: Pattern::new(WORD_TOKENS).ok(), input: text.to_owned() }
    }

    /// The words, lowercased, in order (none if the pattern did not compile).
    pub fn iter(&self) -> (r: Vec<String>)
        ensures
            r@.map_values(|s: String| s@) == if self@.compiled {
                token_texts(self@.source, self@.input)
            } else {
                Seq::empty()
            },
    {
        let pattern = match &self.pattern {
            Some(p) => p,
            None => {
                let r: Vec<String> = Vec::new();
                assert(r@.map_values(|s: String| s@) =~= Seq::<Seq<char>>::empty());
                return r;
            },
        };
        let spans = find_all(pattern, self.input.as_str());
        let bytes = self.input.as_str().as_bytes();
        let ghost src = encode_utf8(self.input@);
        proof {
            encode_utf8_valid_utf8(self.input@);
        }
        let mut words: Vec<String> = Vec::new();
        let mut i: usize = 0;
        while i < spans.len()
            invariant
                bytes@ == src,
                src == encode_utf8(self.input@),
                valid_utf8(src),
                spans@ == regex_find_all(pattern@, self.input@),
                forall|j: int| 0 <= j < spans@.len() ==> crate::matchers::pattern::span_in(src, #[trigger] spans@[j]),
                i <= spans@.len(),
                words_of(words@) == token_texts(pattern@, self.input@).subrange(0, i as int),
                words@.len() == i,
            decreases spans@.len() - i,
        {
            let span = spans[i];
            assert(crate::matchers::pattern::span_in(src, spans@[i as int]));
            let piece = copy_range(bytes, span.0, span.1);
            proof {
                lemma_slice_valid(src, span.0 as int, span.1 as int);
            }
            let text = bytes_to_string(&piece);
            let word = str_to_lowercase(text.as_str());
            assert(token_texts(pattern@, self.input@)[i as int] == word@);
            let ghost before = words@;
            words.push(word);
            proof {
                let all = token_texts(pattern@, self.input@);
                assert(words@ == before.push(word));
                assert forall|j: int| 0 <= j < i + 1 implies #[trigger] words_of(words@)[j] == all[j] by {
                    assert(words_of(words@)[j] == words@[j]@);
                    if j < i {
                        assert(words@[j] == before[j]);
                        assert(words_of(before)[j] == before[j]@);
                        assert(words_of(before)[j] == all.subrange(0, i as int)[j]);
                    }
                }
                assert(words_of(words@) =~= token_texts(pattern@, self.input@).subrange(0, i + 1));
            }
            i = i + 1;
        }
        proof {
            assert(token_texts(pattern@, self.input@).subrange(0, i as int) =~= token_texts(pattern@, self.input@));
        }
        words
    }
}

} // verus!
