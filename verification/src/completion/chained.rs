//! Two sources, one after the other.
use vstd::prelude::*;

use super::{CompletionParams, CompletionSource};

verus! {

/// Suggests everything from `first`, then everything from `second`.
pub struct DuplexCompletionSource<A, B> {
    pub first: A,
    pub second: B,
}

impl<A: CompletionSource, B: CompletionSource> DuplexCompletionSource<A, B> {
    pub fn new(first: A, second: B) -> (r: Self)
        ensures
            r.first == first,
            r.second == second,
    {
        DuplexCompletionSource { first, second }
    }
}

/// `first` followed by `second`.
pub fn chain(first: Vec<String>, second: Vec<String>) -> (r: Vec<String>)
    ensures
        r@ == first@ + second@,
{
    let mut r = first;
    let mut rest = second;
    r.append(&mut rest);
    r
}

impl<A: CompletionSource, B: CompletionSource> CompletionSource for DuplexCompletionSource<A, B> {
    /// What the first source suggests, then what the second suggests.
    /// When both sources can.
    open spec fn can_suggest(&self, params: CompletionParams) -> bool {
        self.first.can_suggest(params) && self.second.can_suggest(params)
    }

    open spec fn may_suggest(&self, params: CompletionParams, words: Seq<Seq<char>>) -> bool {
        exists|a: Seq<Seq<char>>, b: Seq<Seq<char>>|
            #![trigger self.first.may_suggest(params, a), self.second.may_suggest(params, b)]
            self.first.may_suggest(params, a) && self.second.may_suggest(params, b) && words == a + b
    }

    fn suggest(&self, params: &CompletionParams) -> (r: Vec<String>) {
        let a = self.first.suggest(params);
        let b = self.second.suggest(params);
        let ghost va = a@.map_values(|s: String| s@);
        let ghost vb = b@.map_values(|s: String| s@);
        let r = chain(a, b);
        assert(r@.map_values(|s: String| s@) =~= va + vb);
        r
    }
}

} // verus!
