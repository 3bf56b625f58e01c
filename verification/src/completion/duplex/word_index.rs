//! Weights that depend on which word is being completed.
use vstd::prelude::*;

use super::weighted::{
    RandomnessSource, ThreadRngRandomnessSource, WeightedRandomSelector,
    WeightedRandomSelectorFactory,
};
use super::DuplexSelectorFactory;
use crate::completion::{space_count, CompletionParams};

verus! {

/// Weights for each word position; the last apply to every later word.
pub struct WordIndexSelectorFactory<R> {
    weights_by_index: Vec<(u8, u8)>,
    random: R,
}

/// Weight pairs usable for a weighted selector: at least one, each summing
/// to 100.
pub open spec fn weights_ok(weights: Seq<(u8, u8)>) -> bool {
    &&& weights.len() >= 1
    &&& forall|i: int| 0 <= i < weights.len() ==> #[trigger] weights[i].0 + weights[i].1 == 100
}

/// The weights for the word at `index`.
pub open spec fn weights_for(weights: Seq<(u8, u8)>, index: nat) -> (u8, u8) {
    if index < weights.len() {
        weights[index as int]
    } else {
        weights.last()
    }
}

/// The words past the end of the table use its last weights, and each word
/// within it its own.
pub proof fn lemma_later_words_use_last_weights(weights: Seq<(u8, u8)>, index: nat)
    requires
        weights.len() >= 1,
    ensures
        index >= weights.len() ==> weights_for(weights, index) == weights[weights.len() - 1],
        index < weights.len() ==> weights_for(weights, index) == weights[index as int],
{
}

/// Whether a selector can be made for the word at `index`: there are
/// weights, and the pair for that word sums to 100.
pub open spec fn usable_for(weights: Seq<(u8, u8)>, index: nat) -> bool {
    weights.len() >= 1 && weights_for(weights, index).0 + weights_for(weights, index).1 == 100
}

/// Weights usable for every word.
pub proof fn lemma_weights_ok_usable(weights: Seq<(u8, u8)>, index: nat)
    requires
        weights_ok(weights),
    ensures
        usable_for(weights, index),
{
    if index >= weights.len() {
        assert(weights[weights.len() - 1].0 + weights[weights.len() - 1].1 == 100);
    } else {
        assert(weights[index as int].0 + weights[index as int].1 == 100);
    }
}

impl<R> WordIndexSelectorFactory<R> {
    pub closed spec fn weights(&self) -> Seq<(u8, u8)> {
        self.weights_by_index@
    }

    /// The source of percentages that selectors are given clones of.
    pub closed spec fn random_source(&self) -> R {
        self.random
    }
}

impl WordIndexSelectorFactory<ThreadRngRandomnessSource> {
    pub fn with_weights_by_index(weights_by_index: Vec<(u8, u8)>) -> (r: Self)
        ensures
            r.weights() == weights_by_index@,
            r.random_source() == ThreadRngRandomnessSource,
    {
        Self { weights_by_index, random: ThreadRngRandomnessSource }
    }
}

impl<R> WordIndexSelectorFactory<R> {
    /// Whether a selector can be made for `params` (see `usable_for`).
    pub fn can_create_for(&self, params: &CompletionParams) -> (r: bool)
        ensures
            r == usable_for(self.weights(), space_count(params.line_to_cursor@)),
    {
        let n = self.weights_by_index.len();
        if n == 0 {
            return false;
        }
        let word = params.word_index();
        let index = if word < n - 1 { word } else { n - 1 };
        let (first, second) = self.weights_by_index[index];
        first as u16 + second as u16 == 100
    }
}

impl<R0> WordIndexSelectorFactory<R0> {
    /// The same weights, with another source of percentages.
    pub fn with_random<R: RandomnessSource>(self, random: R) -> (r: WordIndexSelectorFactory<R>)
        ensures
            r.weights() == self.weights(),
            r.random_source() == random,
    {
        WordIndexSelectorFactory { weights_by_index: self.weights_by_index, random }
    }
}

impl<R: RandomnessSource> DuplexSelectorFactory for WordIndexSelectorFactory<R> {
    type Selector = WeightedRandomSelector<R>;

    /// A selector with the weights for the word being completed, drawing
    /// from a clone of the factory's source of percentages.
    open spec fn may_create(&self, params: CompletionParams, selector: WeightedRandomSelector<R>) -> bool {
        &&& selector.weights == weights_for(self.weights(), space_count(params.line_to_cursor@))
        &&& cloned(self.random_source(), selector.random)
    }

    /// There are weights, and those for the word being completed sum to 100.
    open spec fn can_create(&self, params: CompletionParams) -> bool {
        usable_for(self.weights(), space_count(params.line_to_cursor@))
    }

    fn create(&self, params: &CompletionParams) -> (r: WeightedRandomSelector<R>) {
        let last = self.weights_by_index.len() - 1;
        let word = params.word_index();
        let index = if word < last { word } else { last };
        let (first, second) = self.weights_by_index[index];
        WeightedRandomSelector { weights: (first, second), random: self.random.clone() }
    }
}

} // verus!
