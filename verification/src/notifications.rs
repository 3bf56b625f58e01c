//! What the daemon tells its clients about matched text.
use std::ops::Range;
use vstd::prelude::*;
use vstd::utf8::*;

use crate::processing::ansi::{strip_spec, Ansi};

verus! {

/// Matched text, as it was received and without its ANSI sequences.
pub struct MatchedText {
    pub plain: String,
    pub ansi: String,
}

pub struct MatchedTextView {
    pub plain: Seq<char>,
    pub ansi: Seq<char>,
}

impl View for MatchedText {
    type V = MatchedTextView;

    open spec fn view(&self) -> MatchedTextView {
        MatchedTextView { plain: self.plain@, ansi: self.ansi@ }
    }
}

/// The matched text for the bytes of a text.
pub open spec fn matched_text_of(bytes: Seq<u8>) -> MatchedTextView {
    MatchedTextView { plain: decode_utf8(strip_spec(bytes).value), ansi: decode_utf8(bytes) }
}

impl MatchedText {
    /// The text as received, and stripped.
    pub fn from(ansi: Ansi) -> (r: MatchedText)
        ensures
            r@ == matched_text_of(ansi@),
    {
        let mut ansi = ansi;
        let raw = ansi.to_string();
        let stripped = ansi.strip_ansi();
        let plain = stripped.to_string();
        MatchedText { plain, ansi: raw }
    }

    /// An independent copy.
    pub fn duplicate(&self) -> (r: MatchedText)
        ensures
            r@ == self@,
    {
        MatchedText { plain: self.plain.clone(), ansi: self.ansi.clone() }
    }
}

/// What a match captured: each named group, each group by number, and where
/// the whole match was in the plain text.
pub struct MatchContext {
    pub named: Vec<(String, MatchedText)>,
    pub indexed: Vec<(usize, MatchedText)>,
    pub full_match_range: Range<usize>,
}

pub struct MatchContextView {
    pub named: Seq<(Seq<char>, MatchedTextView)>,
    pub indexed: Seq<(usize, MatchedTextView)>,
    pub full_match_range: (usize, usize),
}

pub open spec fn named_view(entries: Seq<(String, MatchedText)>) -> Seq<(Seq<char>, MatchedTextView)> {
    entries.map_values(|e: (String, MatchedText)| (e.0@, e.1@))
}

pub open spec fn indexed_view(entries: Seq<(usize, MatchedText)>) -> Seq<(usize, MatchedTextView)> {
    entries.map_values(|e: (usize, MatchedText)| (e.0, e.1@))
}

impl View for MatchContext {
    type V = MatchContextView;

    open spec fn view(&self) -> MatchContextView {
        MatchContextView {
            named: named_view(self.named@),
            indexed: indexed_view(self.indexed@),
            full_match_range: (self.full_match_range.start, self.full_match_range.end),
        }
    }
}

/// The position of the first entry for `key`, if any.
pub open spec fn first_position<K, V>(entries: Seq<(K, V)>, key: K) -> Option<int>
    decreases entries.len(),
{
    if entries.len() == 0 {
        None
    } else if entries[0].0 == key {
        Some(0)
    } else {
        match first_position(entries.drop_first(), key) {
            Some(i) => Some(i + 1),
            None => None,
        }
    }
}

pub proof fn lemma_first_position<K, V>(entries: Seq<(K, V)>, key: K)
    ensures
        first_position(entries, key) matches Some(i) ==> 0 <= i < entries.len() && entries[i].0
            == key && forall|j: int| 0 <= j < i ==> #[trigger] entries[j].0 != key,
        first_position(entries, key) is None ==> forall|j: int|
            0 <= j < entries.len() ==> #[trigger] entries[j].0 != key,
    decreases entries.len(),
{
    if entries.len() > 0 {
        lemma_first_position(entries.drop_first(), key);
        assert forall|j: int| 1 <= j < entries.len() implies entries[j] == entries.drop_first()[j - 1] by {}
    }
}

/// The first entry for `key` is the one at `i` when no earlier one has it.
pub proof fn lemma_first_position_at<K, V>(entries: Seq<(K, V)>, key: K, i: int)
    requires
        0 <= i < entries.len(),
        entries[i].0 == key,
        forall|j: int| 0 <= j < i ==> #[trigger] entries[j].0 != key,
    ensures
        first_position(entries, key) == Some(i),
    decreases i,
{
    if i > 0 {
        assert(entries[0].0 != key);
        assert forall|j: int| 0 <= j < i - 1 implies #[trigger] entries.drop_first()[j].0 != key by {
            assert(entries.drop_first()[j] == entries[j + 1]);
        }
        lemma_first_position_at(entries.drop_first(), key, i - 1);
    }
}

/// Changing the value of the first entry for a key keeps it first.
pub proof fn lemma_first_position_update<K, V>(entries: Seq<(K, V)>, key: K, i: int, v: V)
    requires
        first_position(entries, key) == Some(i),
    ensures
        first_position(entries.update(i, (key, v)), key) == Some(i),
{
    lemma_first_position(entries, key);
    let e = entries.update(i, (key, v));
    assert forall|j: int| 0 <= j < i implies #[trigger] e[j].0 != key by {
        assert(e[j] == entries[j]);
    }
    lemma_first_position_at(e, key, i);
}

/// A new key added at the end is found there.
pub proof fn lemma_first_position_push<K, V>(entries: Seq<(K, V)>, key: K, v: V)
    requires
        first_position(entries, key) is None,
    ensures
        first_position(entries.push((key, v)), key) == Some(entries.len() as int),
{
    lemma_first_position(entries, key);
    let e = entries.push((key, v));
    assert forall|j: int| 0 <= j < entries.len() implies #[trigger] e[j].0 != key by {
        assert(e[j] == entries[j]);
    }
    lemma_first_position_at(e, key, entries.len() as int);
}

impl MatchContext {
    /// The text of a named group (the first entry under that name).
    pub fn get_named(&self, name: &str) -> (r: Option<&MatchedText>)
        ensures
            r matches Some(t) ==> first_position(self@.named, name@) matches Some(i) && self@.named[i].1
                == t@,
            r is None ==> first_position(self@.named, name@) is None,
    {
        let wanted = name.to_owned();
        let ghost entries = self@.named;
        proof {
            lemma_first_position(entries, name@);
        }
        let mut i: usize = 0;
        while i < self.named.len()
            invariant
                wanted@ == name@,
                entries == self@.named,
                entries.len() == self.named@.len(),
                i <= entries.len(),
                forall|j: int| 0 <= j < i ==> #[trigger] entries[j].0 != name@,
                first_position(entries, name@) matches Some(p) ==> i <= p && entries[p].0 == name@,
            decreases entries.len() - i,
        {
            assert(entries[i as int].0 == self.named@[i as int].0@);
            if self.named[i].0 == wanted {
                proof {
                    lemma_first_position(entries, name@);
                }
                return Some(&self.named[i].1);
            }
            i = i + 1;
        }
        proof {
            lemma_first_position(entries, name@);
        }
        None
    }

    /// The text of a numbered group (the first entry under that number).
    pub fn get_indexed(&self, index: usize) -> (r: Option<&MatchedText>)
        ensures
            r matches Some(t) ==> first_position(self@.indexed, index) matches Some(i)
                && self@.indexed[i].1 == t@,
            r is None ==> first_position(self@.indexed, index) is None,
    {
        let ghost entries = self@.indexed;
        proof {
            lemma_first_position(entries, index);
        }
        let mut i: usize = 0;
        while i < self.indexed.len()
            invariant
                entries == self@.indexed,
                entries.len() == self.indexed@.len(),
                i <= entries.len(),
                forall|j: int| 0 <= j < i ==> #[trigger] entries[j].0 != index,
                first_position(entries, index) matches Some(p) ==> i <= p && entries[p].0 == index,
            decreases entries.len() - i,
        {
            assert(entries[i as int].0 == self.indexed@[i as int].0);
            if self.indexed[i].0 == index {
                proof {
                    lemma_first_position(entries, index);
                }
                return Some(&self.indexed[i].1);
            }
            i = i + 1;
        }
        proof {
            lemma_first_position(entries, index);
        }
        None
    }

    /// Takes out the whole match (group 0).
    pub fn take_full_match(&mut self) -> (r: MatchedText)
        requires
            first_position(old(self).indexed@, 0) is Some,
        ensures
            ({
                let i = first_position(old(self).indexed@, 0)->0;
                &&& r == old(self).indexed@[i].1
                &&& final(self).indexed@ == old(self).indexed@.remove(i)
                &&& final(self).named@ == old(self).named@
                &&& final(self).full_match_range == old(self).full_match_range
            }),
    {
        proof {
            lemma_first_position(self.indexed@, 0);
        }
        let ghost p = first_position(self.indexed@, 0)->0;
        let n = self.indexed.len();
        let mut i: usize = 0;
        while self.indexed[i].0 != 0
            invariant
                first_position(self.indexed@, 0) == Some(p),
                n == self.indexed@.len(),
                i <= p < self.indexed@.len(),
                self.indexed@[p].0 == 0,
                forall|j: int| 0 <= j < p ==> #[trigger] self.indexed@[j].0 != 0,
            decreases self.indexed@.len() - i,
        {
            assert(self.indexed@[i as int].0 != 0);
            assert(i != p);
            i = i + 1;
        }
        let (_, text) = self.indexed.remove(i);
        text
    }
}

} // verus!
