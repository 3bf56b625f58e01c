//! Two sources, interleaved by a selector.
pub mod weighted;
pub mod word_index;

use vstd::prelude::*;

use super::{CompletionParams, CompletionSource};

verus! {

/// Which source the next suggestion comes from.
#[derive(Clone, Copy, Debug, PartialEq, Eq, Structural)]
pub enum SelectionResult {
    First,
    Second,
}

/// Picks a source for each suggestion in turn.
pub trait DuplexSelector: Sized {
    /// Whether this selector may answer `choice` and become `next` (a
    /// selector that draws at random may answer either).
    spec fn may_select(&self, choice: SelectionResult, next: Self) -> bool;

    fn select(&mut self) -> (r: SelectionResult)
        ensures
            old(self).may_select(r, *final(self)),
    ;
}

/// Makes a selector for one round of suggestions.
pub trait DuplexSelectorFactory {
    type Selector: DuplexSelector;

    /// Whether `selector` may be the one made for `params`.
    spec fn may_create(&self, params: CompletionParams, selector: Self::Selector) -> bool;

    /// Whether a selector can be made for `params` at all.
    spec fn can_create(&self, params: CompletionParams) -> bool;

    fn create(&self, params: &CompletionParams) -> (r: Self::Selector)
        requires
            self.can_create(*params),
        ensures
            self.may_create(*params, r),
    ;
}

/// A run of a selector: `states[i]` answers `choices[i]` and becomes
/// `states[i + 1]`.
pub open spec fn selection_run<S: DuplexSelector>(states: Seq<S>, choices: Seq<SelectionResult>) -> bool {
    &&& states.len() == choices.len() + 1
    &&& forall|i: int|
        0 <= i < choices.len() ==> #[trigger] states[i].may_select(choices[i], states[i + 1])
}

/// The answers that `start` may give when asked `choices.len()` times.
pub open spec fn may_answer<S: DuplexSelector>(start: S, choices: Seq<SelectionResult>) -> bool {
    exists|states: Seq<S>| #[trigger] selection_run(states, choices) && states[0] == start
}

/// Suggestions from two sources; for each one, the selector picks the source
/// (the other one when the picked one has nothing left).
pub struct DuplexCompletionSource<A, B, SF> {
    pub first: A,
    pub second: B,
    pub selector: SF,
}

impl<A: CompletionSource, B: CompletionSource, SF: DuplexSelectorFactory> DuplexCompletionSource<
    A,
    B,
    SF,
> {
    pub fn new(first: A, second: B, selector: SF) -> (r: Self)
        ensures
            r.first == first,
            r.second == second,
            r.selector == selector,
    {
        DuplexCompletionSource { first, second, selector }
    }
}

/// How many items of each list the first choices took.
pub open spec fn taken(na: nat, nb: nat, choices: Seq<SelectionResult>) -> (nat, nat)
    decreases choices.len(),
{
    if choices.len() == 0 {
        (0, 0)
    } else {
        let (x, y) = taken(na, nb, choices.drop_last());
        if x + y >= na + nb {
            (x, y)
        } else if (choices.last() == SelectionResult::First && x < na) || y >= nb {
            ((x + 1) as nat, y)
        } else {
            (x, (y + 1) as nat)
        }
    }
}

/// The items that the choices pick in turn: the next item of the chosen
/// list, or of the other list when the chosen one is used up.
pub open spec fn merged<T>(a: Seq<T>, b: Seq<T>, choices: Seq<SelectionResult>) -> Seq<T>
    decreases choices.len(),
{
    if choices.len() == 0 {
        Seq::empty()
    } else {
        let prev = merged(a, b, choices.drop_last());
        let (x, y) = taken(a.len(), b.len(), choices.drop_last());
        if x + y >= a.len() + b.len() {
            prev
        } else if (choices.last() == SelectionResult::First && x < a.len()) || y >= b.len() {
            prev.push(a[x as int])
        } else {
            prev.push(b[y as int])
        }
    }
}

/// Interleaves two lists, asking the selector once for each item which list
/// it comes from (the other one when the chosen list is used up), until both
/// are used up: the result is the merge of the two lists by the selector's
/// answers in turn, and holds every item of both.
pub fn merge_selected<S: DuplexSelector>(first: Vec<String>, second: Vec<String>, selector: &mut S) -> (r: Vec<String>)
    ensures
        exists|states: Seq<S>, choices: Seq<SelectionResult>|
            #![trigger selection_run(states, choices)]
            selection_run(states, choices) && states[0] == *old(selector) && states.last()
                == *final(selector) && choices.len() == first@.len() + second@.len() && views(r@)
                == merged(views(first@), views(second@), choices) && taken(
                first@.len(),
                second@.len(),
                choices,
            ) == (first@.len(), second@.len()),
        interleaves(views(r@), views(first@), views(second@)),
        r@.len() == first@.len() + second@.len(),
{
    let ghost fa = views(first@);
    let ghost fb = views(second@);
    let ghost na = first@.len();
    let ghost nb = second@.len();
    let mut out: Vec<String> = Vec::new();
    let mut ia: usize = 0;
    let mut ib: usize = 0;
    let ghost mut chosen: Seq<SelectionResult> = Seq::empty();
    let ghost mut states: Seq<S> = seq![*selector];
    while ia < first.len() || ib < second.len()
        invariant
            selection_run(states, chosen),
            states[0] == *old(selector),
            states.last() == *selector,
            chosen.len() == ia + ib,
            na == first@.len(),
            nb == second@.len(),
            ia <= na,
            ib <= nb,
            taken(na, nb, chosen) == (ia as nat, ib as nat),
            fa == views(first@),
            fb == views(second@),
            views(out@) == merged(fa, fb, chosen),
            out@.len() == ia + ib,
        decreases na + nb - ia - ib,
    {
        let ghost before_select = *selector;
        let choice = selector.select();
        proof {
            let next = chosen.push(choice);
            assert(next.drop_last() =~= chosen);
            let next_states = states.push(*selector);
            assert forall|i: int| 0 <= i < next.len() implies #[trigger] next_states[i].may_select(
                next[i],
                next_states[i + 1],
            ) by {
                if i < chosen.len() {
                    assert(next_states[i] == states[i] && next[i] == chosen[i] && next_states[i + 1] == states[i + 1]);
                } else {
                    assert(next_states[i] == before_select);
                }
            }
            chosen = next;
            states = next_states;
        }
        let from_first = match choice {
            SelectionResult::First => ia < first.len(),
            SelectionResult::Second => ib >= second.len(),
        };
        let ghost before = out@;
        if from_first {
            out.push(first[ia].clone());
            ia = ia + 1;
        } else {
            out.push(second[ib].clone());
            ib = ib + 1;
        }
        proof {
            assert(views(out@) =~= merged(fa, fb, chosen));
        }
    }
    proof {
        assert(views(out@) == merged(fa, fb, chosen));
        assert(selection_run(states, chosen));
        lemma_merged_interleaves(fa, fb, chosen);
    }
    out
}

/// The texts of a list of strings.
pub open spec fn views(v: Seq<String>) -> Seq<Seq<char>> {
    v.map_values(|s: String| s@)
}

impl<A: CompletionSource, B: CompletionSource, SF: DuplexSelectorFactory> CompletionSource for DuplexCompletionSource<A, B, SF> {
    /// What the two sources suggest, interleaved by the answers in turn of
    /// a selector made for `params`: every suggestion of both, each source's
    /// in its own order.
    /// Both sources can suggest, and a selector can be made.
    open spec fn can_suggest(&self, params: CompletionParams) -> bool {
        self.first.can_suggest(params) && self.second.can_suggest(params) && self.selector.can_create(params)
    }

    open spec fn may_suggest(&self, params: CompletionParams, words: Seq<Seq<char>>) -> bool {
        exists|a: Seq<Seq<char>>, b: Seq<Seq<char>>, selector: SF::Selector, choices: Seq<SelectionResult>|
            #![trigger self.first.may_suggest(params, a), self.second.may_suggest(params, b), self.selector.may_create(params, selector), merged(a, b, choices)]
            self.first.may_suggest(params, a) && self.second.may_suggest(params, b)
                && self.selector.may_create(params, selector) && may_answer(selector, choices)
                && choices.len() == a.len() + b.len() && words == merged(a, b, choices) && taken(
                a.len(),
                b.len(),
                choices,
            ) == (a.len(), b.len())
    }

    fn suggest(&self, params: &CompletionParams) -> (r: Vec<String>) {
        let mut selector = self.selector.create(params);
        let ghost made = selector;
        let a = self.first.suggest(params);
        let b = self.second.suggest(params);
        let ghost va = views(a@);
        let ghost vb = views(b@);
        let r = merge_selected(a, b, &mut selector);
        proof {
            let (states, choices) = choose|states: Seq<SF::Selector>, choices: Seq<SelectionResult>|
                #![trigger selection_run(states, choices)]
                selection_run(states, choices) && states[0] == made && choices.len() == a@.len()
                    + b@.len() && views(r@) == merged(va, vb, choices) && taken(
                    a@.len(),
                    b@.len(),
                    choices,
                ) == (a@.len(), b@.len());
            assert(may_answer(made, choices));
            assert(va.len() == a@.len() && vb.len() == b@.len());
            assert(self.first.may_suggest(*params, va));
            assert(self.second.may_suggest(*params, vb));
            assert(self.selector.may_create(*params, made));
            assert(merged(va, vb, choices) == views(r@));
        }
        r
    }
}

} // verus!

verus! {

/// Every choice is the first source.
pub open spec fn all_first(choices: Seq<SelectionResult>) -> bool {
    forall|i: int| 0 <= i < choices.len() ==> #[trigger] choices[i] == SelectionResult::First
}

/// Choosing the first source every time gives all of the first list, then
/// all of the second: with weights (100, 0) a duplex source is the first
/// source followed by the second.
pub proof fn lemma_first_always_chains<T>(a: Seq<T>, b: Seq<T>, choices: Seq<SelectionResult>)
    requires
        all_first(choices),
        choices.len() >= a.len() + b.len(),
    ensures
        merged(a, b, choices) == a + b,
{
    lemma_first_always_prefix(a, b, choices);
}

/// The first `n` all-first choices take `n` items, from the first list while
/// it lasts.
proof fn lemma_first_always_prefix<T>(a: Seq<T>, b: Seq<T>, choices: Seq<SelectionResult>)
    requires
        all_first(choices),
    ensures
        choices.len() <= a.len() + b.len() ==> merged(a, b, choices) == (a + b).subrange(0, choices.len() as int),
        choices.len() <= a.len() + b.len() ==> taken(a.len(), b.len(), choices) == (if choices.len() <= a.len() {
            (choices.len(), 0nat)
        } else {
            (a.len(), (choices.len() - a.len()) as nat)
        }),
        choices.len() > a.len() + b.len() ==> merged(a, b, choices) == a + b,
        choices.len() > a.len() + b.len() ==> taken(a.len(), b.len(), choices) == (a.len(), b.len()),
    decreases choices.len(),
{
    if choices.len() > 0 {
        let prev = choices.drop_last();
        assert forall|i: int| 0 <= i < prev.len() implies #[trigger] prev[i] == SelectionResult::First by {
            assert(prev[i] == choices[i]);
        }
        lemma_first_always_prefix(a, b, prev);
        assert(choices.last() == SelectionResult::First);
        if choices.len() <= a.len() + b.len() {
            assert((a + b).subrange(0, choices.len() as int) =~= (a + b).subrange(0, prev.len() as int).push((a + b)[prev.len() as int]));
        }
    } else {
        assert((a + b).subrange(0, 0) =~= Seq::<T>::empty());
    }
}

/// The items of `m` at the positions where `picks` is `side`, in order.
pub open spec fn picked<T>(m: Seq<T>, picks: Seq<bool>, side: bool) -> Seq<T>
    decreases m.len(),
{
    if m.len() == 0 || picks.len() == 0 {
        Seq::empty()
    } else {
        let prev = picked(m.drop_last(), picks.drop_last(), side);
        if picks.last() == side {
            prev.push(m.last())
        } else {
            prev
        }
    }
}

/// `m` interleaves `a` and `b`: each of its items comes from one of them,
/// every item of both comes once, and each keeps its own order.
pub open spec fn interleaves<T>(m: Seq<T>, a: Seq<T>, b: Seq<T>) -> bool {
    exists|picks: Seq<bool>|
        #![trigger picked(m, picks, true), picked(m, picks, false)]
        picks.len() == m.len() && picked(m, picks, true) == a && picked(m, picks, false) == b
}

/// Which list each item of `merged(a, b, choices)` was taken from (`true`
/// for the first).
pub open spec fn picks_of(na: nat, nb: nat, choices: Seq<SelectionResult>) -> Seq<bool>
    decreases choices.len(),
{
    if choices.len() == 0 {
        Seq::empty()
    } else {
        let prev = picks_of(na, nb, choices.drop_last());
        let (x, y) = taken(na, nb, choices.drop_last());
        if x + y >= na + nb {
            prev
        } else if (choices.last() == SelectionResult::First && x < na) || y >= nb {
            prev.push(true)
        } else {
            prev.push(false)
        }
    }
}

/// Merging by any answers keeps a prefix of each list, in order.
proof fn lemma_merged_prefixes<T>(a: Seq<T>, b: Seq<T>, choices: Seq<SelectionResult>)
    ensures
        ({
            let (x, y) = taken(a.len(), b.len(), choices);
            let m = merged(a, b, choices);
            let p = picks_of(a.len(), b.len(), choices);
            &&& x <= a.len() && y <= b.len()
            &&& m.len() == x + y && p.len() == m.len()
            &&& picked(m, p, true) == a.subrange(0, x as int)
            &&& picked(m, p, false) == b.subrange(0, y as int)
        }),
    decreases choices.len(),
{
    if choices.len() == 0 {
        assert(a.subrange(0, 0) =~= Seq::<T>::empty());
        assert(b.subrange(0, 0) =~= Seq::<T>::empty());
    } else {
        let prev = choices.drop_last();
        lemma_merged_prefixes(a, b, prev);
        let (x, y) = taken(a.len(), b.len(), prev);
        let m0 = merged(a, b, prev);
        let p0 = picks_of(a.len(), b.len(), prev);
        let m = merged(a, b, choices);
        let p = picks_of(a.len(), b.len(), choices);
        if x + y >= a.len() + b.len() {
        } else if (choices.last() == SelectionResult::First && x < a.len()) || y >= b.len() {
            assert(m.drop_last() =~= m0);
            assert(p.drop_last() =~= p0);
            assert(a.subrange(0, x + 1int) =~= a.subrange(0, x as int).push(a[x as int]));
        } else {
            assert(m.drop_last() =~= m0);
            assert(p.drop_last() =~= p0);
            assert(b.subrange(0, y + 1int) =~= b.subrange(0, y as int).push(b[y as int]));
        }
    }
}

/// Merging by answers that use up both lists interleaves them: every item
/// of both comes once, each list in its own order.
pub proof fn lemma_merged_interleaves<T>(a: Seq<T>, b: Seq<T>, choices: Seq<SelectionResult>)
    requires
        taken(a.len(), b.len(), choices) == (a.len(), b.len()),
    ensures
        interleaves(merged(a, b, choices), a, b),
        merged(a, b, choices).len() == a.len() + b.len(),
{
    lemma_merged_prefixes(a, b, choices);
    let m = merged(a, b, choices);
    let p = picks_of(a.len(), b.len(), choices);
    assert(a.subrange(0, a.len() as int) =~= a);
    assert(b.subrange(0, b.len() as int) =~= b);
    assert(picked(m, p, true) == a && picked(m, p, false) == b);
}

} // verus!
