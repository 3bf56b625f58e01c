//! Picking a source at random, by weight.
use rand::Rng;
use vstd::prelude::*;

use super::{
    all_first, lemma_first_always_chains, may_answer, merged, selection_run, taken, DuplexCompletionSource,
    DuplexSelector, DuplexSelectorFactory, SelectionResult,
};
use crate::completion::{CompletionParams, CompletionSource};

verus! {

/// A source of percentages.
pub trait RandomnessSource: Clone {
    /// Whether this source may give `p` next and become `next`.
    spec fn may_give(&self, p: u8, next: Self) -> bool;

    fn next_percentage(&mut self) -> (r: u8)
        ensures
            old(self).may_give(r, *final(self)),
    ;
}

/// Percentages from the thread's random number generator.
#[derive(Clone)]
pub struct ThreadRngRandomnessSource;

/// Calls `rand::Rng::gen_range(0..=100)` on the thread's generator, which
/// returns a value of that range.
#[verifier::external_body]
fn random_percentage() -> (r: u8)
    ensures
        r <= 100,
{
    rand::thread_rng().gen_range(0..=100)
}

impl RandomnessSource for ThreadRngRandomnessSource {
    /// Any percentage from 0 to 100.
    open spec fn may_give(&self, p: u8, next: Self) -> bool {
        p <= 100
    }

    fn next_percentage(&mut self) -> (r: u8) {
        random_percentage()
    }
}

/// Percentages given in advance, then 0.
pub struct StaticRandomnessSource {
    pub values: Vec<u8>,
}

impl Clone for StaticRandomnessSource {
    /// The same values still to give.
    fn clone(&self) -> (r: Self)
        ensures
            r.values@ == self.values@,
    {
        let values = self.values.clone();
        proof {
            assert forall|i: int| 0 <= i < values@.len() implies values@[i] == self.values@[i] by {
                assert(cloned::<u8>(self.values[i], values[i]));
            }
            assert(values@ =~= self.values@);
        }
        StaticRandomnessSource { values }
    }
}

impl StaticRandomnessSource {
    pub fn with_values(values: Vec<u8>) -> (r: Self)
        ensures
            r.values@ == values@,
    {
        Self { values }
    }

    /// The next given percentage, or 0 when none is left.
    pub fn next_value(&mut self) -> (r: u8)
        ensures
            old(self).values@.len() == 0 ==> r == 0 && final(self).values@ == old(self).values@,
            old(self).values@.len() > 0 ==> r == old(self).values@[0] && final(self).values@
                == old(self).values@.drop_first(),
    {
        if self.values.len() == 0 {
            0
        } else {
            let r = self.values.remove(0);
            proof {
                assert(self.values@ =~= old(self).values@.drop_first());
            }
            r
        }
    }
}

impl RandomnessSource for StaticRandomnessSource {
    /// The first value left, which is then dropped, or 0 when none is left.
    open spec fn may_give(&self, p: u8, next: Self) -> bool {
        if self.values@.len() == 0 {
            p == 0 && next.values@ == self.values@
        } else {
            p == self.values@[0] && next.values@ == self.values@.drop_first()
        }
    }

    /// Gives the first value left and drops it (0 once none is left).
    fn next_percentage(&mut self) -> (r: u8)
        ensures
            old(self).values@.len() == 0 ==> r == 0 && final(self).values@ == old(self).values@,
            old(self).values@.len() > 0 ==> r == old(self).values@[0] && final(self).values@
                == old(self).values@.drop_first(),
    {
        self.next_value()
    }
}

/// The first source is picked when the percentage is at most its weight.
pub open spec fn weighted_choice(weights: (u8, u8), percentage: u8) -> SelectionResult {
    if percentage <= weights.0 {
        SelectionResult::First
    } else {
        SelectionResult::Second
    }
}

/// The first source is picked when the percentage is at most its weight.
pub fn choose_by_weight(weights: (u8, u8), percentage: u8) -> (r: SelectionResult)
    ensures
        r == weighted_choice(weights, percentage),
{
    if percentage <= weights.0 {
        SelectionResult::First
    } else {
        SelectionResult::Second
    }
}

/// Picks the first source with the probability of its weight.
pub struct WeightedRandomSelector<R> {
    pub weights: (u8, u8),
    pub random: R,
}

impl<R: RandomnessSource> DuplexSelector for WeightedRandomSelector<R> {
    /// Draws a percentage and picks the first source when it is at most the
    /// first weight; the weights stay.
    open spec fn may_select(&self, choice: SelectionResult, next: Self) -> bool {
        &&& next.weights == self.weights
        &&& exists|p: u8|
            #[trigger] self.random.may_give(p, next.random) && choice == weighted_choice(self.weights, p)
    }

    fn select(&mut self) -> (r: SelectionResult) {
        let ghost before = *self;
        let percentage = self.random.next_percentage();
        let r = choose_by_weight(self.weights, percentage);
        assert(before.random.may_give(percentage, self.random));
        r
    }
}

/// Makes weighted selectors.
pub struct WeightedRandomSelectorFactory<R> {
    pub weights: (u8, u8),
    pub random: R,
}

impl WeightedRandomSelectorFactory<ThreadRngRandomnessSource> {
    /// Weights that must sum to 100.
    pub fn with_weights(first: u8, second: u8) -> (r: Self)
        requires
            first + second == 100,
        ensures
            r.weights == (first, second),
            r.random == ThreadRngRandomnessSource,
    {
        Self { weights: (first, second), random: ThreadRngRandomnessSource }
    }
}

impl<R0> WeightedRandomSelectorFactory<R0> {
    /// The same weights, with another source of percentages.
    pub fn with_random<R: RandomnessSource>(self, random: R) -> (r: WeightedRandomSelectorFactory<R>)
        ensures
            r.weights == self.weights,
            r.random == random,
    {
        WeightedRandomSelectorFactory { weights: self.weights, random }
    }
}

impl<R: RandomnessSource> DuplexSelectorFactory for WeightedRandomSelectorFactory<R> {
    type Selector = WeightedRandomSelector<R>;

    /// A selector with the factory's weights, drawing from a clone of its
    /// source of percentages.
    open spec fn may_create(&self, params: CompletionParams, selector: WeightedRandomSelector<R>) -> bool {
        selector.weights == self.weights && cloned(self.random, selector.random)
    }

    /// A selector can always be made.
    open spec fn can_create(&self, params: CompletionParams) -> bool {
        true
    }

    fn create(&self, params: &CompletionParams) -> (r: WeightedRandomSelector<R>) {
        WeightedRandomSelector { weights: self.weights, random: self.random.clone() }
    }
}

/// A selector whose first weight is 100, drawing percentages from 0 to 100,
/// always answers the first source.
pub proof fn lemma_full_weight_answers_first(
    start: WeightedRandomSelector<ThreadRngRandomnessSource>,
    choices: Seq<SelectionResult>,
)
    requires
        start.weights.0 == 100,
        may_answer(start, choices),
    ensures
        all_first(choices),
{
    let states = choose|states: Seq<WeightedRandomSelector<ThreadRngRandomnessSource>>|
        #[trigger] selection_run(states, choices) && states[0] == start;
    assert forall|i: int| 0 <= i <= choices.len() implies (#[trigger] states[i]).weights == start.weights by {
        lemma_run_keeps_weights(states, choices, i);
    }
    assert forall|i: int| 0 <= i < choices.len() implies #[trigger] choices[i] == SelectionResult::First by {
        assert(states[i].may_select(choices[i], states[i + 1]));
        assert(states[i].weights == start.weights);
        let p = choose|p: u8|
            #[trigger] states[i].random.may_give(p, states[i + 1].random) && choices[i] == weighted_choice(
                states[i].weights,
                p,
            );
        assert(p <= 100);
    }
}

/// With weights (100, 0) and percentages from the thread's generator, a
/// duplex source suggests everything from its first source, then everything
/// from its second.
pub proof fn lemma_full_weight_duplex_chains<A: CompletionSource, B: CompletionSource>(
    source: DuplexCompletionSource<A, B, WeightedRandomSelectorFactory<ThreadRngRandomnessSource>>,
    params: CompletionParams,
    words: Seq<Seq<char>>,
)
    requires
        source.selector.weights.0 == 100,
        source.may_suggest(params, words),
    ensures
        exists|a: Seq<Seq<char>>, b: Seq<Seq<char>>|
            #![trigger source.first.may_suggest(params, a), source.second.may_suggest(params, b)]
            source.first.may_suggest(params, a) && source.second.may_suggest(params, b) && words == a + b,
{
    let (a, b, selector, choices) = choose|
        a: Seq<Seq<char>>,
        b: Seq<Seq<char>>,
        selector: WeightedRandomSelector<ThreadRngRandomnessSource>,
        choices: Seq<SelectionResult>,
    |
        #![trigger source.first.may_suggest(params, a), source.second.may_suggest(params, b), source.selector.may_create(params, selector), merged(a, b, choices)]
        source.first.may_suggest(params, a) && source.second.may_suggest(params, b)
            && source.selector.may_create(params, selector) && may_answer(selector, choices)
            && choices.len() == a.len() + b.len() && words == merged(a, b, choices) && taken(
            a.len(),
            b.len(),
            choices,
        ) == (a.len(), b.len());
    lemma_full_weight_answers_first(selector, choices);
    lemma_first_always_chains(a, b, choices);
}

/// The weights of a weighted selector never change along a run.
proof fn lemma_run_keeps_weights<R: RandomnessSource>(
    states: Seq<WeightedRandomSelector<R>>,
    choices: Seq<SelectionResult>,
    i: int,
)
    requires
        selection_run(states, choices),
        0 <= i <= choices.len(),
    ensures
        states[i].weights == states[0].weights,
    decreases i,
{
    if i > 0 {
        let j = i - 1;
        lemma_run_keeps_weights(states, choices, j);
        assert(states[j].may_select(choices[j], states[j + 1]));
    }
}

} // verus!
