//! Compiled regular expressions, with what the logic reads of their matches
//! turned into plain byte spans.
use vstd::prelude::*;
use vstd::utf8::*;

verus! {

#[verifier::external_type_specification]
#[verifier::external_body]
pub struct ExRegex(regex::Regex);

/// A byte span `(start, end)` of a haystack.
pub open spec fn span_in(bytes: Seq<u8>, span: (usize, usize)) -> bool {
    &&& span.0 <= span.1 <= bytes.len()
    &&& is_char_boundary(bytes, span.0 as int)
    &&& is_char_boundary(bytes, span.1 as int)
}

/// The groups of one match: the whole match first, then one entry per group,
/// each either unmatched or a span of the haystack on character boundaries.
pub open spec fn groups_in(bytes: Seq<u8>, groups: Seq<Option<(usize, usize)>>) -> bool {
    &&& groups.len() >= 1
    &&& groups[0] is Some
    &&& forall|g: int|
        0 <= g < groups.len() ==> (#[trigger] groups[g] matches Some(s) ==> span_in(bytes, s))
}

/// The error message of `regex::Regex::new` on a pattern, if it refuses it.
pub uninterp spec fn regex_compile_error(source: Seq<char>) -> Option<Seq<char>>;

/// The groups of the leftmost-first match of a pattern in a haystack.
pub uninterp spec fn regex_captures(source: Seq<char>, haystack: Seq<char>) -> Option<
    Seq<Option<(usize, usize)>>,
>;

/// The groups of each successive non-overlapping match of a pattern.
pub uninterp spec fn regex_captures_all(source: Seq<char>, haystack: Seq<char>) -> Seq<
    Seq<Option<(usize, usize)>>,
>;

/// The name of each group of a pattern (`None` for unnamed groups).
pub uninterp spec fn regex_capture_names(source: Seq<char>) -> Seq<Option<Seq<char>>>;

/// The span of each successive non-overlapping match of a pattern.
pub uninterp spec fn regex_find_all(source: Seq<char>, haystack: Seq<char>) -> Seq<(usize, usize)>;

/// A regular expression together with the source it was compiled from.
pub struct Pattern {
    regex: regex::Regex,
    source: String,
}

impl View for Pattern {
    type V = Seq<char>;

    closed spec fn view(&self) -> Seq<char> {
        self.source@
    }
}

/// Calls `regex::Regex::new`.  Whether it accepts a pattern, and the message
/// of its error, depend on the pattern alone.
#[verifier::external_body]
fn regex_new(source: &str) -> (r: Result<regex::Regex, String>)
    ensures
        r is Ok <==> regex_compile_error(source@) is None,
        r matches Err(message) ==> regex_compile_error(source@) == Some(message@),
{
    match regex::Regex::new(source) {
        Ok(regex) => Ok(regex),
        Err(error) => Err(error.to_string()),
    }
}

/// Calls `regex::Regex::captures` on the compiled pattern.  The crate
/// documents that there is one entry per group of the pattern, that the
/// first is the whole match and is always present, and that every offset
/// falls on a UTF-8 boundary of the haystack.
#[verifier::external_body]
pub(crate) fn captures(pattern: &Pattern, haystack: &str) -> (r: Option<
    Vec<Option<(usize, usize)>>,
>)
    ensures
        r matches Some(groups) ==> regex_captures(pattern@, haystack@) == Some(groups@),
        r is None ==> regex_captures(pattern@, haystack@) is None,
        r matches Some(groups) ==> groups_in(encode_utf8(haystack@), groups@),
        r matches Some(groups) ==> groups@.len() == regex_capture_names(pattern@).len(),
{
    pattern.regex.captures(haystack).map(|c| c.iter().map(|m| m.map(|m| (m.start(), m.end()))).collect())
}

/// Calls `regex::Regex::captures_iter` and collects the groups of each
/// match, in order, with the same guarantees as a single match.
#[verifier::external_body]
pub(crate) fn captures_all(pattern: &Pattern, haystack: &str) -> (r: Vec<
    Vec<Option<(usize, usize)>>,
>)
    ensures
        r@.len() == regex_captures_all(pattern@, haystack@).len(),
        forall|i: int|
            0 <= i < r@.len() ==> #[trigger] r@[i]@ == regex_captures_all(pattern@, haystack@)[i],
        forall|i: int| 0 <= i < r@.len() ==> groups_in(encode_utf8(haystack@), #[trigger] r@[i]@),
{
    pattern.regex.captures_iter(haystack).map(
        |c| c.iter().map(|m| m.map(|m| (m.start(), m.end()))).collect(),
    ).collect()
}

/// Calls `regex::Regex::capture_names`: one entry per group, the first of
/// which (the whole match) has no name.
#[verifier::external_body]
pub(crate) fn capture_names(pattern: &Pattern) -> (r: Vec<Option<String>>)
    ensures
        r@.len() == regex_capture_names(pattern@).len(),
        forall|i: int|
            0 <= i < r@.len() ==> (#[trigger] r@[i] matches Some(name) ==> regex_capture_names(
                pattern@,
            )[i] == Some(name@)),
        forall|i: int|
            0 <= i < r@.len() ==> (#[trigger] r@[i] is None <==> regex_capture_names(pattern@)[i] is None),
        r@.len() >= 1,
        r@[0] is None,
{
    pattern.regex.capture_names().map(|n| n.map(|n| n.to_string())).collect()
}

/// Calls `regex::Regex::find_iter` and collects the span of each match, in
/// order; the spans fall on UTF-8 boundaries of the haystack.
#[verifier::external_body]
pub(crate) fn find_all(pattern: &Pattern, haystack: &str) -> (r: Vec<
    (usize, usize),
>)
    ensures
        r@ == regex_find_all(pattern@, haystack@),
        forall|i: int| 0 <= i < r@.len() ==> span_in(encode_utf8(haystack@), #[trigger] r@[i]),
{
    pattern.regex.find_iter(haystack).map(|m| (m.start(), m.end())).collect()
}

/// The characters of a text with a backslash before each regular expression
/// meta character.
pub open spec fn escaped(text: Seq<char>) -> Seq<char>
    decreases text.len(),
{
    if text.len() == 0 {
        Seq::empty()
    } else {
        let c = text[0];
        let head = if is_meta_character(c) {
            seq!['\\', c]
        } else {
            seq![c]
        };
        head + escaped(text.drop_first())
    }
}

/// The characters that the regular expression syntax gives a meaning.
pub open spec fn is_meta_character(c: char) -> bool {
    c == '\\' || c == '.' || c == '+' || c == '*' || c == '?' || c == '(' || c == ')' || c
        == '|' || c == '[' || c == ']' || c == '{' || c == '}' || c == '^' || c == '$' || c
        == '#' || c == '&' || c == '-' || c == '~'
}

/// Calls `regex::escape`, which puts a backslash before every meta
/// character of its input and copies every other character.
#[verifier::external_body]
pub(crate) fn regex_escape(text: &str) -> (r: String)
    ensures
        r@ == escaped(text@),
{
    regex::escape(text)
}

impl Pattern {
    /// Compiles `source`, or gives the compiler's message.
    pub fn new(source: &str) -> (r: Result<Pattern, String>)
        ensures
            r is Ok <==> regex_compile_error(source@) is None,
            r matches Ok(p) ==> p@ == source@,
            r matches Err(message) ==> regex_compile_error(source@) == Some(message@),
    {
        match regex_new(source) {
            Ok(regex) => Ok(Pattern { regex, source: source.to_owned() }),
            Err(message) => Err(message),
        }
    }

    /// The source the pattern was compiled from.
    pub fn as_str(&self) -> (r: &str)
        ensures
            r@ == self@,
    {
        self.source.as_str()
    }
}

} // verus!
