//! Keeping only the suggestions that fit what is being typed.
use vstd::prelude::*;

use super::{ascii_lower, to_ascii_lower, CompletionParams, CompletionSource};
use crate::processing::utf8::chars_of;

verus! {

/// Whether the characters of `word` appear in `candidate` in order, up to
/// ASCII case, each taken at its first chance.
pub open spec fn fits(word: Seq<char>, candidate: Seq<char>) -> bool
    decreases candidate.len(),
{
    if word.len() == 0 {
        true
    } else if candidate.len() == 0 {
        false
    } else if ascii_lower(word[0]) == ascii_lower(candidate[0]) {
        fits(word.drop_first(), candidate.drop_first())
    } else {
        fits(word, candidate.drop_first())
    }
}

/// Whether a candidate fits the word being completed: its characters hold
/// those of the word, in order, ignoring ASCII case.
pub fn candidate_matches_params(params: &CompletionParams, candidate: &str) -> (r: bool)
    ensures
        r == fits(params.word_to_complete@, candidate@),
{
    let word = chars_of(params.word_to_complete.as_str());
    let cand = chars_of(candidate);
    let mut w: usize = 0;
    let mut c: usize = 0;
    proof {
        assert(word@.subrange(0, word@.len() as int) =~= word@);
        assert(cand@.subrange(0, cand@.len() as int) =~= cand@);
    }
    while w < word.len()
        invariant
            word@ == params.word_to_complete@,
            cand@ == candidate@,
            w <= word@.len(),
            c <= cand@.len(),
            fits(word@, cand@) == fits(
                word@.subrange(w as int, word@.len() as int),
                cand@.subrange(c as int, cand@.len() as int),
            ),
        decreases word@.len() - w, cand@.len() - c,
    {
        let ghost ws = word@.subrange(w as int, word@.len() as int);
        let ghost cs = cand@.subrange(c as int, cand@.len() as int);
        if c >= cand.len() {
            assert(cs.len() == 0);
            return false;
        }
        proof {
            assert(ws.drop_first() =~= word@.subrange(w + 1, word@.len() as int));
            assert(cs.drop_first() =~= cand@.subrange(c + 1, cand@.len() as int));
            assert(ws[0] == word@[w as int]);
            assert(cs[0] == cand@[c as int]);
        }
        if to_ascii_lower(word[w]) == to_ascii_lower(cand[c]) {
            w = w + 1;
        }
        c = c + 1;
    }
    proof {
        assert(word@.subrange(w as int, word@.len() as int).len() == 0);
    }
    true
}

/// A source whose suggestions are kept only when they fit the word being
/// completed.
pub struct FilteringCompletionSource<S>(pub S);

impl<S: CompletionSource> CompletionSource for FilteringCompletionSource<S> {
    /// The suggestions of the inner source that fit the word being typed,
    /// in their order.
    /// When the inner source can.
    open spec fn can_suggest(&self, params: CompletionParams) -> bool {
        self.0.can_suggest(params)
    }

    open spec fn may_suggest(&self, params: CompletionParams, words: Seq<Seq<char>>) -> bool {
        exists|found: Seq<Seq<char>>|
            #[trigger] self.0.may_suggest(params, found) && words == fitting(params.word_to_complete@, found)
    }

    fn suggest(&self, params: &CompletionParams) -> (r: Vec<String>) {
        let found = self.0.suggest(params);
        let r = keep_fitting(params, found);
        assert(r@.map_values(|s: String| s@) == fitting(
            params.word_to_complete@,
            found@.map_values(|s: String| s@),
        ));
        r
    }
}

/// The candidates that fit, in order.
pub open spec fn fitting(word: Seq<char>, candidates: Seq<Seq<char>>) -> Seq<Seq<char>> {
    candidates.filter(|c: Seq<char>| fits(word, c))
}

/// Keeps the candidates that fit the word being completed.
pub fn keep_fitting(params: &CompletionParams, candidates: Vec<String>) -> (r: Vec<String>)
    ensures
        r@.map_values(|s: String| s@) == fitting(
            params.word_to_complete@,
            candidates@.map_values(|s: String| s@),
        ),
{
    let ghost all = candidates@.map_values(|s: String| s@);
    let mut kept: Vec<String> = Vec::new();
    let mut i: usize = 0;
    while i < candidates.len()
        invariant
            all == candidates@.map_values(|s: String| s@),
            i <= candidates@.len(),
            kept@.map_values(|s: String| s@) == fitting(params.word_to_complete@, all.subrange(0, i as int)),
        decreases candidates@.len() - i,
    {
        proof {
            assert(all.subrange(0, i + 1).drop_last() =~= all.subrange(0, i as int));
            reveal(Seq::filter);
        }
        if candidate_matches_params(params, candidates[i].as_str()) {
            kept.push(candidates[i].clone());
        }
        proof {
            assert(kept@.map_values(|s: String| s@) =~= fitting(params.word_to_complete@, all.subrange(0, i + 1)));
        }
        i = i + 1;
    }
    proof {
        assert(all.subrange(0, i as int) =~= all);
    }
    kept
}

} // verus!

verus! {

/// `positions` picks, in increasing order, a character of `candidate` for
/// each character of `word`, equal up to ASCII case.
pub open spec fn embedding(word: Seq<char>, candidate: Seq<char>, positions: Seq<int>) -> bool {
    &&& positions.len() == word.len()
    &&& forall|i: int| 0 <= i < positions.len() ==> 0 <= #[trigger] positions[i] < candidate.len()
    &&& forall|i: int, j: int| 0 <= i < j < positions.len() ==> positions[i] < positions[j]
    &&& forall|i: int|
        0 <= i < positions.len() ==> ascii_lower(#[trigger] word[i]) == ascii_lower(candidate[positions[i]])
}

/// A candidate fits a word exactly when the word's characters appear in the
/// candidate in order, ignoring ASCII case: the first chance taken for each
/// character never misses a later one.
pub proof fn lemma_fits_iff_subsequence(word: Seq<char>, candidate: Seq<char>)
    ensures
        fits(word, candidate) <==> exists|positions: Seq<int>| #[trigger] embedding(word, candidate, positions),
    decreases candidate.len(),
{
    if word.len() == 0 {
        assert(embedding(word, candidate, Seq::<int>::empty()));
    } else if candidate.len() == 0 {
        if exists|positions: Seq<int>| #[trigger] embedding(word, candidate, positions) {
            let positions = choose|positions: Seq<int>| #[trigger] embedding(word, candidate, positions);
            assert(0 <= positions[0] < candidate.len());
        }
    } else {
        let c2 = candidate.drop_first();
        if ascii_lower(word[0]) == ascii_lower(candidate[0]) {
            let w2 = word.drop_first();
            lemma_fits_iff_subsequence(w2, c2);
            if fits(w2, c2) {
                let p2 = choose|positions: Seq<int>| #[trigger] embedding(w2, c2, positions);
                let p = seq![0int] + p2.map_values(|x: int| x + 1);
                assert forall|i: int| 0 <= i < p.len() implies ascii_lower(#[trigger] word[i]) == ascii_lower(candidate[p[i]]) by {
                    if i > 0 {
                        assert(word[i] == w2[i - 1]);
                        assert(candidate[p[i]] == c2[p2[i - 1]]);
                    }
                }
                assert(embedding(word, candidate, p));
            }
            if exists|positions: Seq<int>| #[trigger] embedding(word, candidate, positions) {
                let p = choose|positions: Seq<int>| #[trigger] embedding(word, candidate, positions);
                let p2 = p.drop_first().map_values(|x: int| x - 1);
                assert forall|i: int| 0 <= i < p2.len() implies 0 <= #[trigger] p2[i] < c2.len() by {
                    assert(p[0] < p[i + 1]);
                }
                assert forall|i: int| 0 <= i < p2.len() implies ascii_lower(#[trigger] w2[i]) == ascii_lower(c2[p2[i]]) by {
                    assert(p[0] < p[i + 1]);
                    assert(w2[i] == word[i + 1]);
                    assert(c2[p2[i]] == candidate[p[i + 1]]);
                }
                assert forall|i: int, j: int| 0 <= i < j < p2.len() implies p2[i] < p2[j] by {
                    assert(p[i + 1] < p[j + 1]);
                }
                assert(embedding(w2, c2, p2));
            }
        } else {
            lemma_fits_iff_subsequence(word, c2);
            if fits(word, c2) {
                let p2 = choose|positions: Seq<int>| #[trigger] embedding(word, c2, positions);
                let p = p2.map_values(|x: int| x + 1);
                assert forall|i: int| 0 <= i < p.len() implies ascii_lower(#[trigger] word[i]) == ascii_lower(candidate[p[i]]) by {
                    assert(candidate[p[i]] == c2[p2[i]]);
                }
                assert(embedding(word, candidate, p));
            }
            if exists|positions: Seq<int>| #[trigger] embedding(word, candidate, positions) {
                let p = choose|positions: Seq<int>| #[trigger] embedding(word, candidate, positions);
                assert(p[0] != 0);
                assert forall|i: int| 0 <= i < p.len() implies p[i] >= 1 by {
                    if i > 0 {
                        assert(p[0] < p[i]);
                    }
                }
                let p2 = p.map_values(|x: int| x - 1);
                assert forall|i: int| 0 <= i < p2.len() implies ascii_lower(#[trigger] word[i]) == ascii_lower(c2[p2[i]]) by {
                    assert(c2[p2[i]] == candidate[p[i]]);
                }
                assert(embedding(word, c2, p2));
            }
        }
    }
}

} // verus!
