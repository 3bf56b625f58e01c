//! All suggestions for a connection, in the case of what is typed.
use vstd::prelude::*;

use super::duplex::weighted::ThreadRngRandomnessSource;
use super::duplex::word_index::{lemma_weights_ok_usable, weights_ok, WordIndexSelectorFactory};
use super::duplex::DuplexCompletionSource;
use super::markov::{fresh_trie, learned_line};
use super::recency::{words_in, RecencyCompletionSource, DEFAULT_RECENCY_CAPACITY};
use super::sent::SentCompletionSource;
use super::transforms::{transformed_word, word_transform_of, WordTransform};
use super::{space_count, CompletionParams, CompletionSource};
use crate::collections::markov_trie::words_of;
use crate::history::{inserted, newest};
use crate::processing::ansi::stripped_of;
use vstd::utf8::decode_utf8;
use crate::processing::ansi::Ansi;

verus! {

/// The weights of sent text against received text, by word: always sent
/// text first for the first word; received text a bit more for the second
/// (as in `get <thing>`); even after that.
pub fn completion_weights() -> (r: Vec<(u8, u8)>)
    ensures
        weights_ok(r@),
        r@ == seq![(100u8, 0u8), (35u8, 65u8), (50u8, 50u8)],
{
    let r = vec![(100, 0), (35, 65), (50, 50)];
    assert(r@ =~= seq![(100u8, 0u8), (35u8, 65u8), (50u8, 50u8)]);
    r
}

/// Suggestions from sent text and from received text.
pub struct Completions {
    source: DuplexCompletionSource<
        SentCompletionSource,
        RecencyCompletionSource,
        WordIndexSelectorFactory<ThreadRngRandomnessSource>,
    >,
}

/// Each suggestion in the case of the typed word.
pub open spec fn in_case_of(t: WordTransform, words: Seq<Seq<char>>) -> Seq<Seq<char>> {
    words.map_values(|w: Seq<char>| transformed_word(t, w))
}

impl Completions {
    /// The mix of sent and received text that suggestions come from.
    pub closed spec fn sources(&self) -> DuplexCompletionSource<
        SentCompletionSource,
        RecencyCompletionSource,
        WordIndexSelectorFactory<ThreadRngRandomnessSource>,
    > {
        self.source
    }

    /// What was learned from sent text.
    pub closed spec fn sent(&self) -> SentCompletionSource {
        self.source.first
    }

    /// What was learned from received text.
    pub closed spec fn received(&self) -> RecencyCompletionSource {
        self.source.second
    }

    /// The weights of sent against received text, by word.
    pub closed spec fn weights(&self) -> Seq<(u8, u8)> {
        self.source.selector.weights()
    }

    /// Nothing learned yet; each recency source keeps its default number of
    /// words; the weights are those of `completion_weights`.
    pub fn new() -> (r: Self)
        ensures
            fresh_trie(r.sent().0.first.0.trie()),
            r.sent().0.second.0.words() == Seq::<Seq<char>>::empty(),
            r.sent().0.second.0.capacity() == DEFAULT_RECENCY_CAPACITY,
            r.received().words() == Seq::<Seq<char>>::empty(),
            r.received().capacity() == DEFAULT_RECENCY_CAPACITY,
            r.weights() == seq![(100u8, 0u8), (35u8, 65u8), (50u8, 50u8)],
            forall|params: CompletionParams| #[trigger] r.sources().can_suggest(params),
    {
        let r = Completions {
            source: DuplexCompletionSource::new(
                SentCompletionSource::new(),
                RecencyCompletionSource::new(),
                WordIndexSelectorFactory::with_weights_by_index(completion_weights()),
            ),
        };
        proof {
            assert forall|params: CompletionParams| #[trigger] r.sources().can_suggest(params) by {
                let index = space_count(params.line_to_cursor@);
                lemma_weights_ok_usable(r.weights(), index);
                lemma_weights_ok_usable(r.sent().0.selector.weights(), index);
            }
        }
        r
    }

    /// Whether suggestions can be made for `params`: the weights for the
    /// word being completed, of both mixes, sum to 100.
    pub fn can_suggest_for(&self, params: &CompletionParams) -> (r: bool)
        ensures
            r == self.sources().can_suggest(*params),
    {
        self.source.selector.can_create_for(params) && self.source.first.0.selector.can_create_for(params)
    }

    /// Learns the words of a received line, taken without its escape
    /// sequences.
    pub fn process_incoming(&mut self, line: &mut Ansi)
        ensures
            final(line)@ == old(line)@,
            final(self).received().words() == newest(
                inserted(old(self).received().words(), words_in(decode_utf8(stripped_of(old(line)@).value))),
                old(self).received().capacity(),
            ),
            final(self).received().capacity() == old(self).received().capacity(),
            final(self).sent() == old(self).sent(),
            final(self).weights() == old(self).weights(),
            forall|params: CompletionParams|
                #[trigger] final(self).sources().can_suggest(params) == old(self).sources().can_suggest(params),
    {
        let plain = line.strip_ansi().to_string();
        self.source.second.process_line(plain.as_str());
    }

    /// Learns from a sent line.
    pub fn process_outgoing(&mut self, line: String)
        ensures
            learned_line(old(self).sent().0.first.0.trie(), final(self).sent().0.first.0.trie(), line@),
            final(self).sent().0.second.0.words() == newest(
                inserted(old(self).sent().0.second.0.words(), words_in(line@)),
                old(self).sent().0.second.0.capacity(),
            ),
            final(self).sent().0.second.0.capacity() == old(self).sent().0.second.0.capacity(),
            final(self).sent().0.selector == old(self).sent().0.selector,
            final(self).received() == old(self).received(),
            final(self).weights() == old(self).weights(),
            forall|params: CompletionParams|
                #[trigger] final(self).sources().can_suggest(params) == old(self).sources().can_suggest(params),
    {
        self.source.first.process_outgoing(line.as_str());
    }

    /// What the mix of sources suggests, each suggestion in the case of the
    /// word being typed.  Which source each suggestion comes from is drawn at
    /// random, by the weights for the word being completed.
    pub fn suggest(&self, params: &CompletionParams) -> (r: Vec<String>)
        requires
            self.sources().can_suggest(*params),
        ensures
            exists|found: Seq<Seq<char>>|
                #[trigger] self.sources().may_suggest(*params, found) && words_of(r@) == in_case_of(
                    word_transform_of(params.word_to_complete@),
                    found,
                ),
            self.sources().first == self.sent(),
            self.sources().second == self.received(),
            self.sources().selector.weights() == self.weights(),
    {
        let transformer = WordTransform::matching_word(params.word_to_complete.as_str());
        let found = self.source.suggest(params);
        let r = match_case(transformer, found);
        assert(words_of(r@) == in_case_of(word_transform_of(params.word_to_complete@), words_of(found@)));
        assert(self.sources().may_suggest(*params, words_of(found@)));
        r
    }
}

/// Gives each suggestion the case of the typed word.
pub fn match_case(transformer: WordTransform, words: Vec<String>) -> (r: Vec<String>)
    ensures
        words_of(r@) == in_case_of(transformer, words_of(words@)),
{
    let ghost all = in_case_of(transformer, words_of(words@));
    let mut out: Vec<String> = Vec::new();
    let mut i: usize = 0;
    while i < words.len()
        invariant
            i <= words@.len(),
            all == in_case_of(transformer, words_of(words@)),
            out@.len() == i,
            words_of(out@) == all.subrange(0, i as int),
        decreases words@.len() - i,
    {
        let t = transformer.transform(words[i].as_str());
        let ghost before = out@;
        out.push(t);
        proof {
            assert(all[i as int] == t@);
            assert forall|j: int| 0 <= j < i + 1 implies #[trigger] words_of(out@)[j] == all[j] by {
                assert(words_of(out@)[j] == out@[j]@);
                if j < i {
                    assert(out@[j] == before[j]);
                    assert(words_of(before)[j] == before[j]@);
                    assert(words_of(before)[j] == all.subrange(0, i as int)[j]);
                }
            }
            assert(words_of(out@) =~= all.subrange(0, i + 1));
        }
        i = i + 1;
    }
    proof {
        assert(all.subrange(0, i as int) =~= all);
    }
    out
}

} // verus!
