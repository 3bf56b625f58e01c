//! Word completion: what the user is typing, and where suggestions come from.
pub mod chained;
pub mod completions;
pub mod duplex;
pub mod filtering;
pub mod markov;
pub mod recency;
pub mod sent;
pub mod tokens;
pub mod transforms;

use vstd::prelude::*;

use self::tokens::{token_texts, Tokens, WORD_TOKENS};
use crate::matchers::pattern::regex_compile_error;
use crate::processing::utf8::{chars_of, string_from_chars};

verus! {

/// The line being typed, up to the cursor and whole, and the word the cursor
/// is in.
pub struct CompletionParams {
    pub word_to_complete: String,
    pub line_to_cursor: String,
    pub line: String,
}

/// The characters after the last space.
pub open spec fn last_segment(s: Seq<char>) -> Seq<char>
    decreases s.len(),
{
    if s.len() == 0 || s.last() == ' ' {
        Seq::empty()
    } else {
        last_segment(s.drop_last()).push(s.last())
    }
}

/// How many spaces a text holds.
pub open spec fn space_count(s: Seq<char>) -> nat
    decreases s.len(),
{
    if s.len() == 0 {
        0
    } else {
        space_count(s.drop_last()) + if s.last() == ' ' {
            1nat
        } else {
            0nat
        }
    }
}

/// A character folded to ASCII lowercase.
pub open spec fn ascii_lower(c: char) -> char {
    if 'A' <= c <= 'Z' {
        ((c as u32) + 32) as char
    } else {
        c
    }
}

/// Two texts are equal up to ASCII case.
pub open spec fn eq_ignore_ascii_case(a: Seq<char>, b: Seq<char>) -> bool {
    a.len() == b.len() && forall|i: int| 0 <= i < a.len() ==> ascii_lower(#[trigger] a[i]) == ascii_lower(b[i])
}

/// `ascii_lower`, computed.
pub fn to_ascii_lower(c: char) -> (r: char)
    ensures
        r == ascii_lower(c),
{
    if 'A' <= c && c <= 'Z' {
        ((c as u8) + 32) as char
    } else {
        c
    }
}

/// Compares two texts up to ASCII case, as `str::eq_ignore_ascii_case`.
pub fn str_eq_ignore_ascii_case(a: &str, b: &str) -> (r: bool)
    ensures
        r == eq_ignore_ascii_case(a@, b@),
{
    let x = chars_of(a);
    let y = chars_of(b);
    if x.len() != y.len() {
        return false;
    }
    let mut i: usize = 0;
    while i < x.len()
        invariant
            x@ == a@,
            y@ == b@,
            x@.len() == y@.len(),
            i <= x@.len(),
            forall|j: int| 0 <= j < i ==> ascii_lower(#[trigger] x@[j]) == ascii_lower(y@[j]),
        decreases x@.len() - i,
    {
        if to_ascii_lower(x[i]) != to_ascii_lower(y[i]) {
            return false;
        }
        i = i + 1;
    }
    true
}

/// The words (lowercased) of a line before the cursor, leaving out the word
/// the cursor is in.
pub open spec fn tokens_before(line_to_cursor: Seq<char>) -> Seq<Seq<char>> {
    let words = if regex_compile_error(WORD_TOKENS@) is None {
        token_texts(WORD_TOKENS@, line_to_cursor)
    } else {
        Seq::empty()
    };
    if words.len() > 0 && eq_ignore_ascii_case(words.last(), last_segment(line_to_cursor)) {
        words.drop_last()
    } else {
        words
    }
}

/// The words before the cursor are every word of the line, except that the
/// last one is left out when it is the word at the cursor (equal to it up to
/// ASCII case); so a line that ends in a space keeps all its (non-empty)
/// words.
pub proof fn lemma_tokens_before_drops_only_the_typed_word(line_to_cursor: Seq<char>)
    ensures
        ({
            let words = if regex_compile_error(WORD_TOKENS@) is None {
                token_texts(WORD_TOKENS@, line_to_cursor)
            } else {
                Seq::empty()
            };
            &&& tokens_before(line_to_cursor) == words || (words.len() > 0 && tokens_before(line_to_cursor)
                == words.drop_last() && eq_ignore_ascii_case(words.last(), last_segment(line_to_cursor)))
            &&& line_to_cursor.len() > 0 && line_to_cursor.last() == ' ' && words.len() > 0
                && words.last().len() > 0 ==> tokens_before(line_to_cursor) == words
        }),
{
}

impl CompletionParams {
    /// Nothing typed.
    pub fn empty() -> (r: CompletionParams)
        ensures
            r.word_to_complete@ == Seq::<char>::empty(),
            r.line_to_cursor@ == Seq::<char>::empty(),
            r.line@ == Seq::<char>::empty(),
    {
        CompletionParams { word_to_complete: String::new(), line_to_cursor: String::new(), line: String::new() }
    }

    /// A single word typed.
    pub fn from_word(word: &str) -> (r: CompletionParams)
        ensures
            r.word_to_complete@ == word@,
            r.line_to_cursor@ == word@,
            r.line@ == word@,
    {
        CompletionParams { word_to_complete: word.to_owned(), line_to_cursor: word.to_owned(), line: word.to_owned() }
    }

    /// A line typed up to the cursor, which is at its end.
    pub fn from_line_to_cursor(line_to_cursor: &str) -> (r: CompletionParams)
        ensures
            r.line_to_cursor@ == line_to_cursor@,
            r.line@ == line_to_cursor@,
            r.word_to_complete@ == last_segment(line_to_cursor@),
    {
        let word = last_segment_of(line_to_cursor);
        CompletionParams { word_to_complete: word, line_to_cursor: line_to_cursor.to_owned(), line: line_to_cursor.to_owned() }
    }

    /// The word the cursor is in: what follows the last space before it.
    pub fn word_to_complete(&self) -> (r: String)
        ensures
            r@ == last_segment(self.line_to_cursor@),
    {
        last_segment_of(self.line_to_cursor.as_str())
    }

    /// Which word the cursor is in, counting from 0: the number of spaces
    /// before it.
    pub fn word_index(&self) -> (r: usize)
        ensures
            r == space_count(self.line_to_cursor@),
    {
        let chars = chars_of(self.line_to_cursor.as_str());
        let mut count: usize = 0;
        let mut i: usize = 0;
        while i < chars.len()
            invariant
                chars@ == self.line_to_cursor@,
                i <= chars@.len(),
                count == space_count(chars@.subrange(0, i as int)),
                count <= i,
            decreases chars@.len() - i,
        {
            proof {
                assert(chars@.subrange(0, i + 1).drop_last() =~= chars@.subrange(0, i as int));
            }
            if chars[i] == ' ' {
                count = count + 1;
            }
            i = i + 1;
        }
        proof {
            assert(chars@.subrange(0, i as int) =~= chars@);
        }
        count
    }

    /// The words before the cursor, lowercased, without a partial word that
    /// touches the cursor.
    pub fn tokens_before_cursor(&self) -> (r: Vec<String>)
        ensures
            r@.map_values(|s: String| s@) == tokens_before(self.line_to_cursor@),
    {
        let tokens = Tokens::from(self.line_to_cursor.as_str());
        let mut words = tokens.iter();
        let current = self.word_to_complete();
        let n = words.len();
        if n > 0 && str_eq_ignore_ascii_case(words[n - 1].as_str(), current.as_str()) {
            words.pop();
        }
        proof {
            assert(words@.map_values(|s: String| s@) =~= tokens_before(self.line_to_cursor@));
        }
        words
    }
}

/// The characters after the last space of a text.
fn last_segment_of(s: &str) -> (r: String)
    ensures
        r@ == last_segment(s@),
{
    let chars = chars_of(s);
    let mut start: usize = chars.len();
    while start > 0 && chars[start - 1] != ' '
        invariant
            chars@ == s@,
            start <= chars@.len(),
            forall|j: int| start <= j < chars@.len() ==> #[trigger] chars@[j] != ' ',
        decreases start,
    {
        start = start - 1;
    }
    let mut out: Vec<char> = Vec::new();
    let mut i = start;
    while i < chars.len()
        invariant
            chars@ == s@,
            start <= i <= chars@.len(),
            out@ == chars@.subrange(start as int, i as int),
        decreases chars@.len() - i,
    {
        out.push(chars[i]);
        i = i + 1;
        proof {
            assert(out@ =~= chars@.subrange(start as int, i as int));
        }
    }
    proof {
        lemma_last_segment(chars@, start as int);
    }
    string_from_chars(&out)
}

/// The last segment is what follows the last space.
proof fn lemma_last_segment(s: Seq<char>, start: int)
    requires
        0 <= start <= s.len(),
        start == 0 || s[start - 1] == ' ',
        forall|j: int| start <= j < s.len() ==> #[trigger] s[j] != ' ',
    ensures
        last_segment(s) == s.subrange(start, s.len() as int),
    decreases s.len(),
{
    if s.len() == start {
        assert(s.subrange(start, s.len() as int) =~= Seq::<char>::empty());
    } else {
        lemma_last_segment(s.drop_last(), start);
        assert(s.subrange(start, s.len() as int) =~= s.drop_last().subrange(start, s.len() - 1).push(s.last()));
    }
}

/// Where suggestions come from.
pub trait CompletionSource {
    /// Whether `words` may be what this source suggests for `params`
    /// (a source that draws at random may suggest more than one list).
    spec fn may_suggest(&self, params: CompletionParams, words: Seq<Seq<char>>) -> bool;

    /// Whether this source can make suggestions for `params` at all.
    spec fn can_suggest(&self, params: CompletionParams) -> bool;

    /// The suggestions for what is being typed, best first.
    fn suggest(&self, params: &CompletionParams) -> (r: Vec<String>)
        requires
            self.can_suggest(*params),
        ensures
            self.may_suggest(*params, r@.map_values(|s: String| s@)),
    ;
}

} // verus!
