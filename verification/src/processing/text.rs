//! Incoming text, line by line: the decisions of the text processor.  The
//! caller performs the output, the line processors and the match handlers.
use vstd::prelude::*;

use super::ansi::{incomplete_code, lossy_bytes, take_kept, take_taken, Ansi, AnsiMut};
use crate::matchers::{match_outcome, MatchResult, Matcher, MatcherView, Outcome};
use crate::notifications::MatchContext;
use crate::Id;

verus! {

/// The byte that ends a line.
pub const NEWLINE_BYTE: u8 = 0x0a;

/// What a matcher was registered for.
#[derive(Clone, Copy, Debug, PartialEq, Eq, Structural)]
pub enum MatcherId {
    Handler(Id),
    Prompt { group: Id, index: usize },
}

/// Whether a matcher also looks at lines that are not finished yet.
#[derive(Clone, Copy, Debug, PartialEq, Eq, Structural)]
pub enum MatcherMode {
    PartialLine,
    FullLine,
}

/// A line in `mode` is offered to a matcher of mode `required`: a partial
/// line only to partial-line matchers.
pub open spec fn mode_allows(mode: MatcherMode, required: MatcherMode) -> bool {
    !(mode == MatcherMode::PartialLine && required == MatcherMode::FullLine)
}

/// A registered matcher.
pub struct RegisteredMatcher {
    pub id: MatcherId,
    pub matcher: Matcher,
    pub mode: MatcherMode,
}

/// The matchers, in order, and the bytes of the line not yet handled.
pub struct TextProcessor {
    matchers: Vec<RegisteredMatcher>,
    pending_line: AnsiMut,
}

/// What to do with the pending line.
pub enum LinePlan {
    /// It ends inside a character or an escape sequence: wait for more.
    Wait,
    /// A whole line, taken out of the pending bytes.
    Full(Ansi),
    /// The start of a line, which stays pending.
    Partial(Ansi),
}

/// The outcome of matching a line.
pub enum LineMatch {
    /// The matcher at `index` matched; its handler gets the context, and what
    /// is left of the line (if anything) is shown.
    Matched { index: usize, context: MatchContext, remaining: Option<Ansi> },
    /// No matcher matched; the line is shown as it is.
    Ignored(Ansi),
}

/// The first matcher from `k` on that the line's mode allows and that
/// matches.
pub open spec fn first_match(
    matchers: Seq<(MatcherView, MatcherMode)>,
    mode: MatcherMode,
    subject: Seq<u8>,
    k: int,
) -> Option<int>
    decreases matchers.len() - k,
{
    if k >= matchers.len() || k < 0 {
        None
    } else if mode_allows(mode, matchers[k].1) && match_outcome(matchers[k].0, subject) is Matched {
        Some(k)
    } else {
        first_match(matchers, mode, subject, k + 1)
    }
}

/// The bytes of an optional text.
pub open spec fn opt_view(a: Option<Ansi>) -> Option<Seq<u8>> {
    match a {
        Some(t) => Some(t@),
        None => None,
    }
}

/// `r` is the match by matcher `k` with the given outcome.
pub open spec fn matched_as(r: LineMatch, k: int, outcome: Outcome) -> bool {
    match (r, outcome) {
        (LineMatch::Matched { index, context, remaining }, Outcome::Matched { context: c, remaining: rest }) => index
            == k && context@ == c && opt_view(remaining) == rest,
        _ => false,
    }
}

/// Whether the matcher matches `subject`.
pub open spec fn matches_line(m: MatcherView, subject: Seq<u8>) -> bool {
    match_outcome(m, subject) is Matched
}

/// A full line is offered to every matcher, whatever its mode: the first
/// matcher from `k` on that matches it is the one found.
pub proof fn lemma_full_line_offered_to_all(
    matchers: Seq<(MatcherView, MatcherMode)>,
    subject: Seq<u8>,
    k: int,
)
    requires
        0 <= k,
    ensures
        match first_match(matchers, MatcherMode::FullLine, subject, k) {
            Some(i) => k <= i < matchers.len() && matches_line(matchers[i].0, subject) && forall|j: int|
                k <= j < i ==> !matches_line(#[trigger] matchers[j].0, subject),
            None => forall|j: int| k <= j < matchers.len() ==> !matches_line(#[trigger] matchers[j].0, subject),
        },
    decreases matchers.len() - k,
{
    if k < matchers.len() {
        lemma_full_line_offered_to_all(matchers, subject, k + 1);
    }
}

/// A partial line is offered only to partial-line matchers: the first of
/// them from `k` on that matches it is the one found.
pub proof fn lemma_partial_line_offered_to_prompts(
    matchers: Seq<(MatcherView, MatcherMode)>,
    subject: Seq<u8>,
    k: int,
)
    requires
        0 <= k,
    ensures
        match first_match(matchers, MatcherMode::PartialLine, subject, k) {
            Some(i) => k <= i < matchers.len() && matchers[i].1 == MatcherMode::PartialLine && matches_line(
                matchers[i].0,
                subject,
            ) && forall|j: int|
                k <= j < i && #[trigger] matchers[j].1 == MatcherMode::PartialLine ==> !matches_line(
                    matchers[j].0,
                    subject,
                ),
            None => forall|j: int|
                k <= j < matchers.len() && #[trigger] matchers[j].1 == MatcherMode::PartialLine ==> !matches_line(
                    matchers[j].0,
                    subject,
                ),
        },
    decreases matchers.len() - k,
{
    if k < matchers.len() {
        lemma_partial_line_offered_to_prompts(matchers, subject, k + 1);
    }
}

/// The position of the first line feed, if any.
pub open spec fn first_newline(bytes: Seq<u8>) -> Option<int> {
    if exists|i: int| 0 <= i < bytes.len() && bytes[i] == NEWLINE_BYTE {
        Some(choose|i: int| 0 <= i < bytes.len() && bytes[i] == NEWLINE_BYTE && forall|j: int| 0 <= j < i ==> bytes[j] != NEWLINE_BYTE)
    } else {
        None
    }
}

/// The pending bytes without a carriage return left over from the previous
/// line.
pub open spec fn without_leading_cr(bytes: Seq<u8>) -> Seq<u8> {
    if bytes.len() > 0 && bytes[0] == 0x0d {
        bytes.drop_first()
    } else {
        bytes
    }
}

impl TextProcessor {
    pub closed spec fn matchers_view(&self) -> Seq<(MatcherView, MatcherMode)> {
        self.matchers@.map_values(|m: RegisteredMatcher| (m.matcher@, m.mode))
    }

    pub closed spec fn ids_view(&self) -> Seq<MatcherId> {
        self.matchers@.map_values(|m: RegisteredMatcher| m.id)
    }

    pub closed spec fn pending_view(&self) -> Seq<u8> {
        self.pending_line@
    }

    /// No matchers, nothing pending.
    pub fn new() -> (r: TextProcessor)
        ensures
            r.matchers_view() == Seq::<(MatcherView, MatcherMode)>::empty(),
            r.ids_view() == Seq::<MatcherId>::empty(),
            r.pending_view() == Seq::<u8>::empty(),
    {
        let r = TextProcessor { matchers: Vec::new(), pending_line: AnsiMut::new() };
        assert(r.matchers_view() =~= Seq::<(MatcherView, MatcherMode)>::empty());
        assert(r.ids_view() =~= Seq::<MatcherId>::empty());
        r
    }

    /// Adds a matcher after the others.
    pub fn register_matcher(&mut self, id: MatcherId, matcher: Matcher, mode: MatcherMode)
        ensures
            final(self).matchers_view() == old(self).matchers_view().push((matcher@, mode)),
            final(self).ids_view() == old(self).ids_view().push(id),
            final(self).pending_view() == old(self).pending_view(),
    {
        let ghost view = matcher@;
        self.matchers.push(RegisteredMatcher { id, matcher, mode });
        assert(self.matchers_view() =~= old(self).matchers_view().push((view, mode)));
        assert(self.ids_view() =~= old(self).ids_view().push(id));
    }

    /// Adds the matcher of a prompt after the others: prompts always consume
    /// what they match, and also look at lines that are not finished yet.
    pub fn register_prompt(&mut self, group: Id, index: usize, matcher: Matcher)
        ensures
            final(self).matchers_view() == old(self).matchers_view().push(
                (MatcherView { consume: true, source: matcher@.source }, MatcherMode::PartialLine),
            ),
            final(self).ids_view() == old(self).ids_view().push(MatcherId::Prompt { group, index }),
            final(self).pending_view() == old(self).pending_view(),
    {
        let matcher = matcher.consuming();
        self.register_matcher(MatcherId::Prompt { group, index }, matcher, MatcherMode::PartialLine);
    }

    /// Forgets every matcher.
    pub fn clear(&mut self)
        ensures
            final(self).matchers_view() == Seq::<(MatcherView, MatcherMode)>::empty(),
            final(self).ids_view() == Seq::<MatcherId>::empty(),
            final(self).pending_view() == old(self).pending_view(),
    {
        self.matchers.clear();
        assert(self.matchers_view() =~= Seq::<(MatcherView, MatcherMode)>::empty());
        assert(self.ids_view() =~= Seq::<MatcherId>::empty());
    }

    /// Appends the start of `bytes`, up to and including the first line feed
    /// (or all of it), to the pending line; says how much it took and whether
    /// that finished a line.
    pub fn buffer_chunk(&mut self, bytes: &[u8]) -> (r: (usize, bool))
        ensures
            match first_newline(bytes@) {
                Some(i) => r.0 == i + 1 && r.1,
                None => r.0 == bytes@.len() && !r.1,
            },
            final(self).pending_view() == old(self).pending_view() + bytes@.subrange(0, r.0 as int),
            final(self).matchers_view() == old(self).matchers_view(),
            final(self).ids_view() == old(self).ids_view(),
    {
        let mut i: usize = 0;
        while i < bytes.len()
            invariant
                *self == *old(self),
                i <= bytes@.len(),
                forall|j: int| 0 <= j < i ==> bytes@[j] != NEWLINE_BYTE,
            decreases bytes@.len() - i,
        {
            if bytes[i] == NEWLINE_BYTE {
                let end = i + 1;
                proof {
                    let w = choose|w: int| 0 <= w < bytes@.len() && bytes@[w] == NEWLINE_BYTE && forall|j: int| 0 <= j < w ==> bytes@[j] != NEWLINE_BYTE;
                    assert(0 <= i < bytes@.len() && bytes@[i as int] == NEWLINE_BYTE && forall|j: int| 0 <= j < i ==> bytes@[j] != NEWLINE_BYTE);
                    if w < i {
                        assert(bytes@[w] != NEWLINE_BYTE);
                    }
                    if w > i {
                        assert(bytes@[i as int] != NEWLINE_BYTE);
                    }
                }
                self.pending_line.put_slice(vstd::slice::slice_subrange(bytes, 0, end));
                return (end, true);
            }
            i = i + 1;
        }
        proof {
            assert(bytes@.subrange(0, bytes@.len() as int) =~= bytes@);
        }
        self.pending_line.put_slice(bytes);
        (bytes.len(), false)
    }

    /// Readies the pending line: drops a carriage return left at its start;
    /// waits while it ends inside a character or an escape sequence; takes a
    /// finished line out; and offers an unfinished one as it stands.
    pub fn prepare_line(&mut self, has_full_line: bool) -> (r: LinePlan)
        ensures
            ({
                let p = without_leading_cr(old(self).pending_view());
                if incomplete_code(p) {
                    r is Wait && final(self).pending_view() == p
                } else if has_full_line {
                    r matches LinePlan::Full(a) && a@ == take_taken(p) && final(self).pending_view()
                        == take_kept(p)
                } else {
                    r matches LinePlan::Partial(a) && a@ == lossy_bytes(p) && final(self).pending_view() == p
                }
            }),
            final(self).matchers_view() == old(self).matchers_view(),
            final(self).ids_view() == old(self).ids_view(),
    {
        if self.pending_line.len() > 0 && self.pending_line.as_bytes()[0] == 0x0d {
            self.pending_line.drop_leading_bytes(1);
            proof {
                assert(self.pending_line@ =~= old(self).pending_line@.drop_first());
            }
        }
        if self.pending_line.has_incomplete_code() {
            return LinePlan::Wait;
        }
        if has_full_line {
            LinePlan::Full(self.pending_line.take())
        } else {
            LinePlan::Partial(Ansi::from_lossy_bytes(self.pending_line.as_bytes().clone()))
        }
    }

    /// Offers a line to the matchers in order (a partial line only to
    /// partial-line matchers); the first that matches wins.
    pub fn perform_match(&self, line: Ansi, mode: MatcherMode) -> (r: LineMatch)
        ensures
            match first_match(self.matchers_view(), mode, line@, 0) {
                Some(k) => matched_as(r, k, match_outcome(self.matchers_view()[k].0, line@)),
                None => r matches LineMatch::Ignored(a) && a@ == line@,
            },
            mode == MatcherMode::FullLine ==> match r {
                LineMatch::Matched { index, .. } => index < self.matchers_view().len() && matches_line(
                    self.matchers_view()[index as int].0,
                    line@,
                ) && forall|j: int|
                    0 <= j < index ==> !matches_line(#[trigger] self.matchers_view()[j].0, line@),
                LineMatch::Ignored(_) => forall|j: int|
                    0 <= j < self.matchers_view().len() ==> !matches_line(
                        #[trigger] self.matchers_view()[j].0,
                        line@,
                    ),
            },
            mode == MatcherMode::PartialLine ==> match r {
                LineMatch::Matched { index, .. } => index < self.matchers_view().len()
                    && self.matchers_view()[index as int].1 == MatcherMode::PartialLine,
                LineMatch::Ignored(_) => forall|j: int|
                    0 <= j < self.matchers_view().len() && #[trigger] self.matchers_view()[j].1
                        == MatcherMode::PartialLine ==> !matches_line(self.matchers_view()[j].0, line@),
            },
    {
        proof {
            lemma_full_line_offered_to_all(self.matchers_view(), line@, 0);
            lemma_partial_line_offered_to_prompts(self.matchers_view(), line@, 0);
        }
        let ghost subject = line@;
        let ghost all = self.matchers_view();
        let mut to_match = line;
        let mut k: usize = 0;
        while k < self.matchers.len()
            invariant
                all == self.matchers_view(),
                all.len() == self.matchers@.len(),
                subject == line@,
                to_match@ == subject,
                k <= all.len(),
                first_match(all, mode, subject, 0) == first_match(all, mode, subject, k as int),
            decreases all.len() - k,
        {
            let m = &self.matchers[k];
            assert(all[k as int] == (m.matcher@, m.mode));
            let allowed = match (mode, m.mode) {
                (MatcherMode::PartialLine, MatcherMode::FullLine) => false,
                _ => true,
            };
            if allowed {
                match m.matcher.try_match(to_match) {
                    MatchResult::Ignored(a) => {
                        to_match = a;
                    },
                    MatchResult::Matched(found) => {
                        assert(mode_allows(mode, all[k as int].1));
                        assert(match_outcome(all[k as int].0, subject) is Matched);
                        assert(first_match(all, mode, subject, k as int) == Some(k as int));
                        let r = LineMatch::Matched { index: k, context: found.context, remaining: found.remaining };
                        proof {
                            match match_outcome(all[k as int].0, subject) {
                                Outcome::Matched { context, remaining } => {
                                    assert(found.context@ == context);
                                    assert(found.remaining_view() == remaining);
                                    assert(opt_view(found.remaining) == remaining);
                                    assert(matched_as(r, k as int, match_outcome(all[k as int].0, subject)));
                                },
                                Outcome::Ignored => {},
                            }
                            lemma_full_line_offered_to_all(all, subject, 0);
                            lemma_partial_line_offered_to_prompts(all, subject, 0);
                        }
                        return r;
                    },
                }
            }
            k = k + 1;
        }
        LineMatch::Ignored(to_match)
    }
}

} // verus!
