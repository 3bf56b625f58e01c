//! Giving a suggestion the letter case of what was typed.
use vstd::prelude::*;

use super::ascii_lower;
use crate::processing::utf8::{chars_of, string_from_chars};

verus! {

/// How one character's case is changed.
#[derive(Clone, Copy, Debug, PartialEq, Eq, Structural)]
pub enum CharTransform {
    Upper,
    Lower,
    Nop,
}

/// The first character of `char::to_uppercase` of a character.
pub uninterp spec fn upper_first(c: char) -> Option<char>;

/// The first character of `char::to_lowercase` of a character.
pub uninterp spec fn lower_first(c: char) -> Option<char>;

/// A character in ASCII uppercase.
pub open spec fn ascii_upper(c: char) -> char {
    if 'a' <= c <= 'z' {
        ((c as u32) - 32) as char
    } else {
        c
    }
}

/// An ASCII character.
pub open spec fn is_ascii_char(c: char) -> bool {
    (c as u32) < 0x80
}

/// Calls `char::to_uppercase` and keeps its first character; std documents
/// that the mapping yields one or more characters, so there is always one,
/// and that on ASCII it agrees with `to_ascii_uppercase` ('a' to 'z' become
/// 'A' to 'Z', other ASCII characters stay).
#[verifier::external_body]
fn char_upper_first(c: char) -> (r: Option<char>)
    ensures
        r == upper_first(c),
        r is Some,
        is_ascii_char(c) ==> r == Some(ascii_upper(c)),
{
    c.to_uppercase().next()
}

/// Calls `char::to_lowercase` and keeps its first character; std documents
/// that the mapping yields one or more characters, so there is always one,
/// and that on ASCII it agrees with `to_ascii_lowercase` ('A' to 'Z' become
/// 'a' to 'z', other ASCII characters stay).
#[verifier::external_body]
fn char_lower_first(c: char) -> (r: Option<char>)
    ensures
        r == lower_first(c),
        r is Some,
        is_ascii_char(c) ==> r == Some(ascii_lower(c)),
{
    c.to_lowercase().next()
}

pub open spec fn is_ascii_upper(c: char) -> bool {
    'A' <= c <= 'Z'
}

pub open spec fn is_ascii_lower(c: char) -> bool {
    'a' <= c <= 'z'
}

/// The transform that a character of typed text asks for: its case, if it
/// is an ASCII letter.
pub open spec fn transform_of(c: char) -> CharTransform {
    if is_ascii_lower(c) {
        CharTransform::Lower
    } else if is_ascii_upper(c) {
        CharTransform::Upper
    } else {
        CharTransform::Nop
    }
}

/// What a transform makes of an ASCII character.
pub open spec fn ascii_transformed_char(t: CharTransform, c: char) -> char {
    match t {
        CharTransform::Upper => ascii_upper(c),
        CharTransform::Lower => ascii_lower(c),
        CharTransform::Nop => c,
    }
}

/// An ASCII word in the case a transform gives: its first character by
/// `first`, the others by `rest`.
pub open spec fn ascii_transformed_word(t: WordTransform, word: Seq<char>) -> Seq<char> {
    Seq::new(
        word.len(),
        |i: int|
            ascii_transformed_char(
                if i == 0 {
                    t.first
                } else {
                    t.rest
                },
                word[i],
            ),
    )
}

/// Every character is ASCII.
pub open spec fn is_ascii_word(word: Seq<char>) -> bool {
    forall|i: int| 0 <= i < word.len() ==> is_ascii_char(#[trigger] word[i])
}

/// What a transform makes of a character.
pub open spec fn transformed_char(t: CharTransform, c: char) -> Option<char> {
    match t {
        CharTransform::Upper => upper_first(c),
        CharTransform::Lower => lower_first(c),
        CharTransform::Nop => Some(c),
    }
}

impl CharTransform {
    /// The transform for a character of typed text.
    pub fn from(ch: char) -> (r: CharTransform)
        ensures
            r == transform_of(ch),
    {
        if 'a' <= ch && ch <= 'z' {
            CharTransform::Lower
        } else if 'A' <= ch && ch <= 'Z' {
            CharTransform::Upper
        } else {
            CharTransform::Nop
        }
    }

    /// The transform for a character that may be missing (none for none).
    pub fn from_option(option: Option<char>) -> (r: CharTransform)
        ensures
            r == match option {
                Some(c) => transform_of(c),
                None => CharTransform::Nop,
            },
    {
        match option {
            Some(ch) => CharTransform::from(ch),
            None => CharTransform::Nop,
        }
    }

    /// Applies the transform to a character.
    pub fn transform(&self, ch: char) -> (r: Option<char>)
        ensures
            r is Some,
            is_ascii_char(ch) ==> r == Some(ascii_transformed_char(*self, ch)),
            r == transformed_char(*self, ch),
    {
        match self {
            CharTransform::Upper => char_upper_first(ch),
            CharTransform::Lower => char_lower_first(ch),
            CharTransform::Nop => Some(ch),
        }
    }
}

/// The case of a typed word: that of its first character, and that of its
/// second for the rest.
#[derive(Clone, Copy)]
pub struct WordTransform {
    pub first: CharTransform,
    pub rest: CharTransform,
}

/// A word with each character transformed, those that transform to nothing
/// left out.
pub open spec fn transformed_word(t: WordTransform, word: Seq<char>) -> Seq<char>
    decreases word.len(),
{
    if word.len() == 0 {
        Seq::empty()
    } else {
        let i = word.len() - 1;
        let how = if i == 0 {
            t.first
        } else {
            t.rest
        };
        transformed_word(t, word.drop_last()) + match transformed_char(how, word[i]) {
            Some(c) => seq![c],
            None => Seq::empty(),
        }
    }
}

/// The transform that matches the case of a typed word: that of its first
/// character, and that of its second for the rest (nothing where a word is
/// too short).
pub open spec fn word_transform_of(input: Seq<char>) -> WordTransform {
    WordTransform {
        first: if input.len() > 0 {
            transform_of(input[0])
        } else {
            CharTransform::Nop
        },
        rest: if input.len() > 1 {
            transform_of(input[1])
        } else {
            CharTransform::Nop
        },
    }
}

impl WordTransform {
    /// The transform that matches the case of `input`.
    pub fn matching_word(input: &str) -> (r: WordTransform)
        ensures
            r == word_transform_of(input@),
    {
        let chars = chars_of(input);
        let first = CharTransform::from_option(if chars.len() > 0 { Some(chars[0]) } else { None });
        let rest = CharTransform::from_option(if chars.len() > 1 { Some(chars[1]) } else { None });
        WordTransform { first, rest }
    }

    /// `word` in the matched case.
    pub fn transform(&self, word: &str) -> (r: String)
        ensures
            r@ == transformed_word(*self, word@),
            r@.len() == word@.len(),
            is_ascii_word(word@) ==> r@ == ascii_transformed_word(*self, word@),
    {
        let chars = chars_of(word);
        let mut out: Vec<char> = Vec::new();
        let mut i: usize = 0;
        while i < chars.len()
            invariant
                chars@ == word@,
                i <= chars@.len(),
                out@ == transformed_word(*self, chars@.subrange(0, i as int)),
                out@.len() == i,
                is_ascii_word(word@) ==> out@ == ascii_transformed_word(*self, chars@.subrange(0, i as int)),
            decreases chars@.len() - i,
        {
            proof {
                let next = chars@.subrange(0, i + 1);
                assert(next.drop_last() =~= chars@.subrange(0, i as int));
                assert(next[i as int] == chars@[i as int]);
            }
            let how = if i == 0 { self.first } else { self.rest };
            match how.transform(chars[i]) {
                Some(c) => {
                    out.push(c);
                },
                None => {},
            }
            proof {
                assert(out@ =~= transformed_word(*self, chars@.subrange(0, i + 1)));
                if is_ascii_word(word@) {
                    assert(is_ascii_char(chars@[i as int]));
                    assert(out@ =~= ascii_transformed_word(*self, chars@.subrange(0, i + 1)));
                }
            }
            i = i + 1;
        }
        proof {
            assert(chars@.subrange(0, i as int) =~= chars@);
        }
        string_from_chars(&out)
    }
}

/// The transform of an empty typed word changes nothing: every word comes
/// back as it is.
pub proof fn lemma_empty_typed_word_keeps_word(word: Seq<char>)
    ensures
        transformed_word(word_transform_of(Seq::empty()), word) == word,
    decreases word.len(),
{
    if word.len() > 0 {
        lemma_empty_typed_word_keeps_word(word.drop_last());
        assert(word.drop_last().push(word.last()) =~= word);
    }
}

/// Giving an ASCII word the case of a transform twice is giving it once:
/// the result is ASCII, and the transform leaves it as it is.
pub proof fn lemma_ascii_transform_idempotent(t: WordTransform, word: Seq<char>)
    requires
        is_ascii_word(word),
    ensures
        is_ascii_word(ascii_transformed_word(t, word)),
        ascii_transformed_word(t, ascii_transformed_word(t, word)) == ascii_transformed_word(t, word),
{
    let once = ascii_transformed_word(t, word);
    assert forall|i: int| 0 <= i < once.len() implies is_ascii_char(#[trigger] once[i]) by {
        let c = word[i];
        assert(is_ascii_char(c));
    }
    assert(ascii_transformed_word(t, once) =~= once);
}

} // verus!
