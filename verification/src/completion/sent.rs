//! Suggestions for what is typed, from what was sent before.
use vstd::prelude::*;

use super::duplex::word_index::{weights_ok, WordIndexSelectorFactory};
use super::duplex::weighted::ThreadRngRandomnessSource;
use super::duplex::DuplexCompletionSource;
use super::filtering::FilteringCompletionSource;
use super::markov::{fresh_trie, learned_line, MarkovCompletionSource};
use super::recency::{words_in, RecencyCompletionSource, DEFAULT_RECENCY_CAPACITY};
use crate::history::{inserted, newest};
use super::{CompletionParams, CompletionSource};

verus! {

/// The weights of the sent-text sources, by word: the markov trie for the
/// first words (it only goes five deep); after that, recent words get an
/// even chance.
pub fn sent_weights() -> (r: Vec<(u8, u8)>)
    ensures
        weights_ok(r@),
        r@ == seq![(100u8, 0u8), (100u8, 0u8), (100u8, 0u8), (100u8, 0u8), (50u8, 50u8)],
{
    let r = vec![(100, 0), (100, 0), (100, 0), (100, 0), (50, 50)];
    assert(r@ =~= seq![(100u8, 0u8), (100u8, 0u8), (100u8, 0u8), (100u8, 0u8), (50u8, 50u8)]);
    r
}

/// Sequences of sent words, and recently sent words, each kept only when it
/// fits the word being typed.
pub struct SentCompletionSource(
    pub DuplexCompletionSource<
        FilteringCompletionSource<MarkovCompletionSource>,
        FilteringCompletionSource<RecencyCompletionSource>,
        WordIndexSelectorFactory<ThreadRngRandomnessSource>,
    >,
);

impl SentCompletionSource {
    /// Nothing learned yet; the recency source keeps its default number of
    /// words; the weights are those of `sent_weights`.
    pub fn new() -> (r: Self)
        ensures
            fresh_trie(r.0.first.0.trie()),
            r.0.second.0.words() == Seq::<Seq<char>>::empty(),
            r.0.second.0.capacity() == DEFAULT_RECENCY_CAPACITY,
            r.0.selector.weights() == seq![(100u8, 0u8), (100u8, 0u8), (100u8, 0u8), (100u8, 0u8), (50u8, 50u8)],
    {
        Self(
            DuplexCompletionSource::new(
                FilteringCompletionSource(MarkovCompletionSource::new()),
                FilteringCompletionSource(RecencyCompletionSource::new()),
                WordIndexSelectorFactory::with_weights_by_index(sent_weights()),
            ),
        )
    }

    /// Learns from a line that was sent: its word sequence, and its words.
    pub fn process_outgoing(&mut self, line: &str)
        ensures
            learned_line(old(self).0.first.0.trie(), final(self).0.first.0.trie(), line@),
            final(self).0.second.0.words() == newest(
                inserted(old(self).0.second.0.words(), words_in(line@)),
                old(self).0.second.0.capacity(),
            ),
            final(self).0.second.0.capacity() == old(self).0.second.0.capacity(),
            final(self).0.selector == old(self).0.selector,
    {
        self.0.first.0.process_line(line);
        self.0.second.0.process_line(line);
    }
}

impl CompletionSource for SentCompletionSource {
    /// What the duplex of the sent-text sources suggests.
    open spec fn may_suggest(&self, params: CompletionParams, words: Seq<Seq<char>>) -> bool {
        self.0.may_suggest(params, words)
    }

    /// When a selector can be made for the word being completed.
    open spec fn can_suggest(&self, params: CompletionParams) -> bool {
        self.0.can_suggest(params)
    }

    fn suggest(&self, params: &CompletionParams) -> (r: Vec<String>) {
        self.0.suggest(params)
    }
}

} // verus!
