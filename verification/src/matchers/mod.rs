//! Matching lines of output against user patterns.
pub mod pattern;
pub mod simple;

use vstd::prelude::*;
use vstd::utf8::*;

use self::pattern::{capture_names, captures, regex_capture_names, regex_captures, regex_compile_error, Pattern};
use self::simple::{build_simple_matcher_regex, simple_outcome, SimpleOutcome};
use crate::notifications::{
    indexed_view, matched_text_of, named_view, MatchContext, MatchContextView, MatchedText,
    MatchedTextView,
};
use crate::processing::ansi::{
    lemma_trimmed_len_bound, lossy_bytes, map_range, stripped_of, trimmed_len, Ansi, AnsiStripped,
    AnsiStrippedView,
};
use crate::processing::utf8::{all_whitespace, is_blank};

verus! {

/// Why a pattern could not be compiled.
#[derive(Debug)]
pub enum MatcherCompileError {
    SyntaxError(String),
    OutOfOrderIndexes,
}

/// How a matcher treats what it matched.
pub struct MatcherOptions {
    /// Whether the matched text is taken out of the line.
    pub consume: bool,
}

impl Default for MatcherOptions {
    fn default() -> (r: MatcherOptions)
        ensures
            !r.consume,
    {
        MatcherOptions { consume: false }
    }
}

/// A matcher as configured: a regular expression, or a simple pattern.
pub enum MatcherSpec {
    Regex { options: MatcherOptions, source: String },
    Simple { options: MatcherOptions, source: String },
}

/// A compiled matcher.
pub struct Matcher {
    pub options: MatcherOptions,
    pattern: Pattern,
}

/// A matcher: whether it consumes, and its regular expression.
pub struct MatcherView {
    pub consume: bool,
    pub source: Seq<char>,
}

impl View for Matcher {
    type V = MatcherView;

    closed spec fn view(&self) -> MatcherView {
        MatcherView { consume: self.options.consume, source: self.pattern@ }
    }
}

impl Matcher {
    /// The same pattern, consuming what it matches.
    pub fn consuming(self) -> (r: Matcher)
        ensures
            r@ == (MatcherView { consume: true, source: self@.source }),
    {
        let mut matcher = self;
        matcher.options.consume = true;
        matcher
    }
}

/// The regular expression a spec compiles to, or why it cannot.
pub open spec fn spec_regex_source(spec: MatcherSpec) -> SimpleOutcome {
    match spec {
        MatcherSpec::Regex { source, .. } => SimpleOutcome::Pattern(source@),
        MatcherSpec::Simple { source, .. } => simple_outcome(source@),
    }
}

impl MatcherSpec {
    pub open spec fn options(&self) -> bool {
        match self {
            MatcherSpec::Regex { options, .. } => options.consume,
            MatcherSpec::Simple { options, .. } => options.consume,
        }
    }

    /// Compiles the spec: a simple pattern is first turned into a regular
    /// expression; the regular expression must compile.
    pub fn try_into(self) -> (r: Result<Matcher, MatcherCompileError>)
        ensures
            ({
                match spec_regex_source(self) {
                    SimpleOutcome::Pattern(source) => match regex_compile_error(source) {
                        None => r matches Ok(m) && m@.source == source && m@.consume == self.options(),
                        Some(message) => r matches Err(MatcherCompileError::SyntaxError(m))
                            && m@ == message,
                    },
                    SimpleOutcome::OutOfOrder => r matches Err(
                        MatcherCompileError::OutOfOrderIndexes,
                    ),
                    SimpleOutcome::Unreadable => r matches Err(
                        MatcherCompileError::SyntaxError(_),
                    ),
                }
            }),
    {
        let (options, regex_source) = match self {
            MatcherSpec::Simple { options, source } => match build_simple_matcher_regex(
                source.as_str(),
            ) {
                Ok(built) => (options, built),
                Err(e) => {
                    return Err(e);
                },
            },
            MatcherSpec::Regex { options, source } => (options, source),
        };
        match Pattern::new(regex_source.as_str()) {
            Ok(pattern) => Ok(Matcher { options, pattern }),
            Err(message) => Err(MatcherCompileError::SyntaxError(message)),
        }
    }
}


/// The outcome of a successful match.
pub struct MatchedResult {
    /// What is left of the line, unless nothing is.
    pub remaining: Option<Ansi>,
    pub context: MatchContext,
    /// Whether some (possibly all) of the input was consumed.
    pub consumed: bool,
}

pub enum MatchResult {
    Ignored(Ansi),
    Matched(MatchedResult),
}

/// A text without its trailing newline bytes.
pub open spec fn trimmed(bytes: Seq<u8>) -> Seq<u8> {
    bytes.subrange(0, trimmed_len(bytes))
}

/// The matched text of a span of the plain text: the original bytes it maps
/// to, without trailing newlines.
pub open spec fn group_text(st: AnsiStrippedView, span: (usize, usize)) -> MatchedTextView {
    let m = map_range(st.ansi_ranges, span.0 as int, span.1 as int);
    matched_text_of(trimmed(lossy_bytes(st.original.subrange(m.0, m.1))))
}

/// Every group by number.
pub open spec fn indexed_of(st: AnsiStrippedView, groups: Seq<Option<(usize, usize)>>) -> Seq<
    (usize, MatchedTextView),
> {
    Seq::new(groups.len(), |i: int| (i as usize, group_text(st, groups[i]->0)))
}

/// Every named group, in the order of the groups.
pub open spec fn named_of(
    names: Seq<Option<Seq<char>>>,
    st: AnsiStrippedView,
    groups: Seq<Option<(usize, usize)>>,
) -> Seq<(Seq<char>, MatchedTextView)>
    decreases names.len(),
{
    if names.len() == 0 {
        Seq::empty()
    } else {
        let k = names.len() - 1;
        named_of(names.drop_last(), st, groups) + if names[k] is Some {
            seq![(names[k]->0, group_text(st, groups[k]->0))]
        } else {
            Seq::empty()
        }
    }
}

/// What is left of `subject` after a match whose whole span is `whole`: all
/// of it, or, when consuming, what is around the match, and nothing when
/// that is only whitespace.
pub open spec fn remaining_of(
    consume: bool,
    subject: Seq<u8>,
    st: AnsiStrippedView,
    whole: (usize, usize),
) -> Option<Seq<u8>> {
    let kept = if consume {
        let m = map_range(st.ansi_ranges, whole.0 as int, whole.1 as int);
        let rest = lossy_bytes(subject.subrange(0, m.0)) + lossy_bytes(
            subject.subrange(m.1, subject.len() as int),
        );
        if all_whitespace(decode_utf8(rest)) {
            Seq::empty()
        } else {
            rest
        }
    } else {
        subject
    };
    if kept.len() == 0 {
        None
    } else {
        Some(kept)
    }
}

/// A group can be read back from the original text: it took part in the
/// match and maps inside the original.
pub open spec fn group_readable(st: AnsiStrippedView, group: Option<(usize, usize)>) -> bool {
    &&& group is Some
    &&& {
        let span = group->0;
        &&& span.0 <= span.1
        &&& span.1 + st.original.len() <= usize::MAX
        &&& map_range(st.ansi_ranges, span.0 as int, span.1 as int).1 <= st.original.len()
    }
}

pub open spec fn groups_readable(st: AnsiStrippedView, groups: Seq<Option<(usize, usize)>>) -> bool {
    &&& groups.len() >= 1
    &&& forall|i: int| 0 <= i < groups.len() ==> group_readable(st, #[trigger] groups[i])
}

/// The context of a match with the given groups.
pub open spec fn context_of(
    names: Seq<Option<Seq<char>>>,
    st: AnsiStrippedView,
    groups: Seq<Option<(usize, usize)>>,
) -> MatchContextView {
    MatchContextView {
        named: named_of(names, st, groups),
        indexed: indexed_of(st, groups),
        full_match_range: groups[0]->0,
    }
}

/// What a matcher makes of a subject, as mathematical values.
pub enum Outcome {
    Ignored,
    Matched { context: MatchContextView, remaining: Option<Seq<u8>> },
}

/// The outcome of matching `subject` (without trailing newlines and ANSI
/// sequences): no match, or one whose groups cannot all be read back, leaves
/// it alone; a match gives its context and what is left.
pub open spec fn match_outcome(m: MatcherView, subject: Seq<u8>) -> Outcome {
    let st = stripped_of(trimmed(subject));
    match regex_captures(m.source, decode_utf8(st.value)) {
        Some(groups) => if groups_readable(st, groups) {
            Outcome::Matched {
                context: context_of(regex_capture_names(m.source), st, groups),
                remaining: remaining_of(m.consume, subject, st, groups[0]->0),
            }
        } else {
            Outcome::Ignored
        },
        None => Outcome::Ignored,
    }
}

impl MatchedResult {
    pub open spec fn remaining_view(&self) -> Option<Seq<u8>> {
        match self.remaining {
            Some(a) => Some(a@),
            None => None,
        }
    }
}

impl Matcher {
    /// The context of a match: the text of every group, by number and by
    /// name, read back from the original text.
    pub fn extract_match_context(&self, stripped: &AnsiStripped, groups: &Vec<Option<(usize, usize)>>) -> (r: MatchContext)
        requires
            stripped.wf(),
            groups_readable(stripped@, groups@),
            groups@.len() == regex_capture_names(self@.source).len(),
        ensures
            r@ == context_of(regex_capture_names(self@.source), stripped@, groups@),
    {
        let names = capture_names(&self.pattern);
        let ghost all_names = regex_capture_names(self@.source);
        let mut named: Vec<(String, MatchedText)> = Vec::new();
        let mut indexed: Vec<(usize, MatchedText)> = Vec::new();
        let mut i: usize = 0;
        while i < groups.len()
            invariant
                stripped.wf(),
                groups_readable(stripped@, groups@),
                groups@.len() == all_names.len() == names@.len(),
                all_names == regex_capture_names(self@.source),
                forall|j: int| 0 <= j < names@.len() ==> (#[trigger] names@[j] matches Some(name)
                    ==> all_names[j] == Some(name@)),
                forall|j: int| 0 <= j < names@.len() ==> (#[trigger] names@[j] is None <==> all_names[j] is None),
                0 <= i <= groups@.len(),
                indexed_view(indexed@) == indexed_of(stripped@, groups@.subrange(0, i as int)),
                named_view(named@) == named_of(all_names.subrange(0, i as int), stripped@, groups@),
            decreases groups@.len() - i,
        {
            assert(group_readable(stripped@, groups@[i as int]));
            let span = groups[i].unwrap();
            let original = stripped.get_original(span.0..span.1);
            let text = MatchedText::from(original.trim_trailing_newlines());
            assert(text@ == group_text(stripped@, groups@[i as int]->0));
            let ghost old_indexed = indexed@;
            let ghost old_named = named@;
            proof {
                let prefix = all_names.subrange(0, i + 1);
                assert(prefix.drop_last() =~= all_names.subrange(0, i as int));
            }
            match &names[i] {
                Some(name) => {
                    named.push((name.clone(), text.duplicate()));
                },
                None => {},
            }
            indexed.push((i, text));
            proof {
                assert(indexed@ == old_indexed.push((i, text)));
                assert(indexed_of(stripped@, groups@.subrange(0, i + 1)) =~= indexed_of(
                    stripped@,
                    groups@.subrange(0, i as int),
                ).push((i, group_text(stripped@, groups@[i as int]->0))));
                assert(indexed_view(indexed@) =~= indexed_of(stripped@, groups@.subrange(0, i + 1)));
                assert(named_view(named@) =~= named_of(all_names.subrange(0, i + 1), stripped@, groups@));
            }
            i = i + 1;
        }
        proof {
            assert(groups@.subrange(0, i as int) =~= groups@);
            assert(all_names.subrange(0, i as int) =~= all_names);
        }
        let whole = groups[0].unwrap();
        MatchContext { named, indexed, full_match_range: whole.0..whole.1 }
    }
}


impl Matcher {
    /// The outcome of a match with the given groups in the stripped subject
    /// (without its trailing newlines): the context of the groups, and what
    /// is left of the subject.
    pub fn match_with_groups(&self, subject: Ansi, stripped: &AnsiStripped, groups: &Vec<Option<(usize, usize)>>) -> (r: MatchedResult)
        requires
            stripped.wf(),
            stripped@ == stripped_of(trimmed(subject@)),
            groups_readable(stripped@, groups@),
            groups@.len() == regex_capture_names(self@.source).len(),
        ensures
            r.context@ == context_of(regex_capture_names(self@.source), stripped@, groups@),
            r.remaining_view() == remaining_of(self@.consume, subject@, stripped@, groups@[0]->0),
            r.consumed == self@.consume,
    {
        let context = self.extract_match_context(stripped, groups);
        assert(group_readable(stripped@, groups@[0]));
        proof {
            lemma_trimmed_len_bound(subject@);
        }
        let whole = groups[0].unwrap();
        let consume = self.options.consume;
        let mut remaining = if consume {
            subject.without_stripped_match_range(stripped, whole.0..whole.1)
        } else {
            subject
        };
        if consume && is_blank(remaining.to_string().as_str()) {
            remaining = Ansi::empty();
        }
        MatchedResult {
            remaining: if remaining.is_empty() {
                None
            } else {
                Some(remaining)
            },
            context,
            consumed: consume,
        }
    }

    /// Whether every group can be read back from the original text.
    fn readable(stripped: &AnsiStripped, groups: &Vec<Option<(usize, usize)>>) -> (r: bool)
        requires
            stripped.wf(),
        ensures
            r == groups_readable(stripped@, groups@),
    {
        if groups.len() == 0 {
            return false;
        }
        let original_len = stripped.original_len();
        let mut i: usize = 0;
        while i < groups.len()
            invariant
                stripped.wf(),
                original_len == stripped@.original.len(),
                i <= groups@.len(),
                forall|j: int| 0 <= j < i ==> group_readable(stripped@, #[trigger] groups@[j]),
            decreases groups@.len() - i,
        {
            match groups[i] {
                None => {
                    return false;
                },
                Some(span) => {
                    if span.0 > span.1 {
                        return false;
                    }
                    match span.1.checked_add(original_len) {
                        None => {
                            return false;
                        },
                        Some(_) => {},
                    }
                    let mapped = stripped.get_original_range(span.0..span.1);
                    if mapped.end > original_len {
                        return false;
                    }
                },
            }
            i = i + 1;
        }
        true
    }

    /// Matches `subject`, without its trailing newlines and ANSI sequences,
    /// against the pattern.  Where the pattern does not match, or one of its
    /// groups took no part in the match or cannot be read back from the
    /// original text, the subject comes back as it was.
    pub fn try_match(&self, subject: Ansi) -> (r: MatchResult)
        ensures
            match match_outcome(self@, subject@) {
                Outcome::Ignored => r matches MatchResult::Ignored(a) && a@ == subject@,
                Outcome::Matched { context, remaining } => {
                    &&& r matches MatchResult::Matched(m)
                    &&& m.context@ == context
                    &&& m.remaining_view() == remaining
                    &&& m.consumed == self@.consume
                },
            },
    {
        let mut trimmed_subject = subject.trim_trailing_newlines();
        let stripped = trimmed_subject.strip_ansi();
        let haystack = stripped.to_string();
        match captures(&self.pattern, haystack.as_str()) {
            None => MatchResult::Ignored(subject),
            Some(groups) => {
                if Matcher::readable(&stripped, &groups) {
                    MatchResult::Matched(self.match_with_groups(subject, &stripped, &groups))
                } else {
                    MatchResult::Ignored(subject)
                }
            },
        }
    }
}

} // verus!

verus! {

/// A matcher that does not consume leaves what it matched whole: all of the
/// subject remains (nothing, for an empty subject).
pub proof fn lemma_non_consuming_keeps_subject(m: MatcherView, subject: Seq<u8>)
    requires
        !m.consume,
    ensures
        match_outcome(m, subject) matches Outcome::Matched { remaining, .. } ==> remaining == if subject.len()
            == 0 {
            None
        } else {
            Some(subject)
        },
{
}

/// A consuming matcher never leaves only whitespace behind.
pub proof fn lemma_consuming_leaves_no_blank(m: MatcherView, subject: Seq<u8>)
    requires
        m.consume,
    ensures
        match_outcome(m, subject) matches Outcome::Matched { remaining, .. } ==> (remaining matches Some(
            rest,
        ) ==> rest.len() > 0 && !all_whitespace(decode_utf8(rest))),
{
}

} // verus!
