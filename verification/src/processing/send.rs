//! Outgoing text: aliases rewrite what is sent, pass after pass.  These are
//! the decisions; the caller runs each match handler and hands back what it
//! returned.
use std::ops::Range;
use vstd::prelude::*;
use vstd::utf8::*;

use super::ansi::{strip_spec, Ansi};
use super::utf8::string_bytes;
use crate::matchers::pattern::span_in;
use crate::matchers::simple::{copy_range, lemma_slice_valid};
use crate::matchers::{match_outcome, MatchResult, Matcher, MatcherView, Outcome};
use crate::notifications::MatchContext;

verus! {

broadcast use vstd::utf8::valid_utf8_concat;

/// How many passes may rewrite the text before it counts as a loop.
pub const MAX_RECURSION: usize = 100;

/// What a match handler decided.
pub enum ProcessResult {
    /// Keep this text (it still counts as a change).
    Unchanged(String),
    /// Put this in place of the matched text.
    ReplaceWith(String),
    /// Send nothing.
    Stop,
}

/// The matchers of outgoing text, in order.
pub struct SendTextProcessor {
    matchers: Vec<Matcher>,
}

/// One run over a text, pass after pass.
pub struct SendRun {
    input: String,
    to_match: Ansi,
    unchanged: bool,
    next: usize,
    passes: usize,
    pending: Option<(String, Range<usize>)>,
}

pub struct SendRunView {
    /// The text this pass started from.
    pub input: Seq<char>,
    /// The text as the pass has it so far.
    pub to_match: Seq<u8>,
    /// Whether no handler was run in this pass.
    pub unchanged: bool,
    /// The next matcher to try.
    pub next: nat,
    /// How many passes ended in a change.
    pub passes: nat,
    /// The matched text and the span of the match, while its handler runs.
    pub pending: Option<(Seq<char>, (usize, usize))>,
}

impl View for SendRun {
    type V = SendRunView;

    closed spec fn view(&self) -> SendRunView {
        SendRunView {
            input: self.input@,
            to_match: self.to_match@,
            unchanged: self.unchanged,
            next: self.next as nat,
            passes: self.passes as nat,
            pending: match self.pending {
                Some(p) => Some((p.0@, (p.1.start, p.1.end))),
                None => None,
            },
        }
    }
}

/// What the caller does next.
pub enum SendStep {
    /// Call `step` again.
    Continue,
    /// Run the handler of matcher `index` with `context`, then hand its result
    /// to `handled`.
    Handle { index: usize, context: MatchContext },
    /// Send this, or nothing.
    Done(Option<String>),
    /// Every pass changed the text: it would never settle.
    InfiniteLoop,
    /// The matched span does not fall inside the matched text on character
    /// boundaries, so the replacement cannot be made.
    InvalidMatch,
}

/// The plain text of what a match left (nothing counts as empty).
pub open spec fn plain_of(remaining: Option<Seq<u8>>) -> Seq<char> {
    match remaining {
        Some(bytes) => decode_utf8(strip_spec(bytes).value),
        None => Seq::empty(),
    }
}

/// `text` with the bytes of `span` replaced by `replacement`.
pub open spec fn replaced(text: Seq<char>, span: (usize, usize), replacement: Seq<char>) -> Seq<u8> {
    let b = encode_utf8(text);
    b.subrange(0, span.0 as int) + encode_utf8(replacement) + b.subrange(span.1 as int, b.len() as int)
}

impl SendTextProcessor {
    pub closed spec fn matchers_view(&self) -> Seq<MatcherView> {
        self.matchers@.map_values(|m: Matcher| m@)
    }

    pub fn new() -> (r: SendTextProcessor)
        ensures
            r.matchers_view() == Seq::<MatcherView>::empty(),
    {
        let r = SendTextProcessor { matchers: Vec::new() };
        assert(r.matchers_view() =~= Seq::<MatcherView>::empty());
        r
    }

    /// Adds a matcher, which must not consume what it matches.
    pub fn register_matcher(&mut self, matcher: Matcher)
        requires
            !matcher@.consume,
        ensures
            final(self).matchers_view() == old(self).matchers_view().push(matcher@),
    {
        let ghost view = matcher@;
        self.matchers.push(matcher);
        assert(self.matchers_view() =~= old(self).matchers_view().push(view));
    }

    /// A run over `input`, starting with the first matcher.
    pub fn start(&self, input: String) -> (r: SendRun)
        ensures
            r@ == (SendRunView {
                input: input@,
                to_match: encode_utf8(input@),
                unchanged: true,
                next: 0,
                passes: 0,
                pending: None,
            }),
    {
        let to_match = Ansi::from_str(input.as_str());
        SendRun { input, to_match, unchanged: true, next: 0, passes: 0, pending: None }
    }

    /// Tries the next matcher; at the end of a pass, finishes the run if no
    /// handler ran, and otherwise starts the next pass on the changed text
    /// (unless that makes `MAX_RECURSION` changing passes).
    pub fn step(&self, run: &mut SendRun) -> (r: SendStep)
        requires
            old(run)@.pending is None,
        ensures
            ({
                let before = old(run)@;
                let after = final(run)@;
                if before.next < self.matchers_view().len() {
                    match match_outcome(self.matchers_view()[before.next as int], before.to_match) {
                        Outcome::Ignored => r is Continue && after == SendRunView { next: before.next + 1, ..before },
                        Outcome::Matched { context, remaining } => {
                            &&& r matches SendStep::Handle { index, context: c } && index == before.next && c@ == context
                            &&& after.pending == Some((plain_of(remaining), context.full_match_range))
                            &&& after.next == before.next + 1
                            &&& after.input == before.input
                            &&& after.unchanged == before.unchanged
                            &&& after.passes == before.passes
                        },
                    }
                } else if before.unchanged {
                    r matches SendStep::Done(Some(s)) && s@ == before.input
                } else if before.passes + 1 >= MAX_RECURSION {
                    r is InfiniteLoop
                } else {
                    let text = decode_utf8(strip_spec(before.to_match).value);
                    r is Continue && after == SendRunView {
                        input: text,
                        to_match: encode_utf8(text),
                        unchanged: true,
                        next: 0,
                        passes: before.passes + 1,
                        pending: None,
                    }
                }
            }),
    {
        if run.next < self.matchers.len() {
            let m = &self.matchers[run.next];
            assert(self.matchers_view()[run.next as int] == m@);
            let mut subject = Ansi::empty();
            std::mem::swap(&mut subject, &mut run.to_match);
            match m.try_match(subject) {
                MatchResult::Ignored(a) => {
                    run.to_match = a;
                    run.next = run.next + 1;
                    SendStep::Continue
                },
                MatchResult::Matched(found) => {
                    let plain = match found.remaining {
                        Some(rest) => {
                            let mut rest = rest;
                            rest.strip_ansi().to_string()
                        },
                        None => String::new(),
                    };
                    let range = found.context.full_match_range.start..found.context.full_match_range.end;
                    run.pending = Some((plain, range));
                    let index = run.next;
                    run.next = run.next + 1;
                    SendStep::Handle { index, context: found.context }
                },
            }
        } else if run.unchanged {
            SendStep::Done(Some(run.input.clone()))
        } else if run.passes >= MAX_RECURSION - 1 {
            SendStep::InfiniteLoop
        } else {
            let mut current = Ansi::empty();
            std::mem::swap(&mut current, &mut run.to_match);
            let text = current.strip_ansi().to_string();
            run.to_match = Ansi::from_str(text.as_str());
            run.input = text;
            run.unchanged = true;
            run.next = 0;
            run.passes = run.passes + 1;
            SendStep::Continue
        }
    }

    /// Takes in what the handler of the pending match returned: stop, keep
    /// its text, or replace the match with its text.
    pub fn handled(&self, run: &mut SendRun, result: ProcessResult) -> (r: SendStep)
        requires
            old(run)@.pending is Some,
        ensures
            ({
                let before = old(run)@;
                let after = final(run)@;
                let (text, span) = before.pending->0;
                match result {
                    ProcessResult::Stop => r matches SendStep::Done(None),
                    ProcessResult::Unchanged(s) => r is Continue && after == SendRunView {
                        to_match: encode_utf8(s@),
                        unchanged: false,
                        pending: None,
                        ..before
                    },
                    ProcessResult::ReplaceWith(replacement) => if span_in(encode_utf8(text), span) {
                        r is Continue && after == SendRunView {
                            to_match: replaced(text, span, replacement@),
                            unchanged: false,
                            pending: None,
                            ..before
                        }
                    } else {
                        r is InvalidMatch
                    },
                }
            }),
    {
        let (text, span) = match run.pending.take() {
            Some(p) => p,
            None => {
                return SendStep::InvalidMatch;
            },
        };
        match result {
            ProcessResult::Stop => SendStep::Done(None),
            ProcessResult::Unchanged(s) => {
                run.to_match = Ansi::from_str(s.as_str());
                run.unchanged = false;
                SendStep::Continue
            },
            ProcessResult::ReplaceWith(replacement) => {
                let bytes = text.as_str().as_bytes();
                let len = bytes.len();
                let (start, end) = (span.start, span.end);
                if !(start <= end && end <= len && text.as_str().is_char_boundary(start) && text.as_str().is_char_boundary(end)) {
                    return SendStep::InvalidMatch;
                }
                let ghost b = encode_utf8(text@);
                proof {
                    encode_utf8_valid_utf8(text@);
                    is_char_boundary_start_end_of_seq(b);
                    lemma_slice_valid(b, 0, start as int);
                    lemma_slice_valid(b, end as int, len as int);
                    encode_utf8_valid_utf8(replacement@);
                }
                let mut out = copy_range(bytes, 0, start);
                let mut middle = string_bytes(replacement.as_str());
                let mut tail = copy_range(bytes, end, len);
                proof {
                    valid_utf8_concat(out@, middle@);
                }
                out.append(&mut middle);
                proof {
                    valid_utf8_concat(out@, tail@);
                }
                out.append(&mut tail);
                run.to_match = Ansi::from_valid_bytes(out);
                run.unchanged = false;
                SendStep::Continue
            },
        }
    }
}

} // verus!

verus! {

/// What a client's answer to an alias match asks for: its replacement, or
/// to send nothing.
pub fn alias_result(response: crate::protocol::ClientResponse) -> (r: ProcessResult)
    ensures
        match response {
            crate::protocol::ClientResponse::AliasMatchHandled { replacement: Some(text) } => r matches ProcessResult::ReplaceWith(t) && t@ == text@,
            crate::protocol::ClientResponse::AliasMatchHandled { replacement: None } => r is Stop,
        },
{
    match response {
        crate::protocol::ClientResponse::AliasMatchHandled { replacement: Some(text) } => ProcessResult::ReplaceWith(text),
        crate::protocol::ClientResponse::AliasMatchHandled { replacement: None } => ProcessResult::Stop,
    }
}

} // verus!
