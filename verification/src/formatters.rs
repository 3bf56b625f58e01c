//! Formatters: text with the same `$1`, `$name` and `${name}` holes as simple
//! patterns, filled in from what a match captured.
use vstd::prelude::*;
use vstd::utf8::*;

use crate::matchers::pattern::{
    captures_all, groups_in, regex_captures_all, regex_compile_error, span_in, Pattern,
};
use crate::matchers::simple::{
    build_simple_matcher_regex, capture_readable, copy_range, escaped_var, label_of,
    lemma_slice_valid, read_label, simple_outcome, var_capture_ok, var_span, var_text, whole_span,
    CaptureSpans, LabelSpec, SimpleOutcome, VarLabel, VAR_REGEX,
};
use crate::matchers::MatcherCompileError;
use crate::notifications::{first_position, MatchContext, MatchContextView};
use crate::processing::utf8::{bytes_to_string, string_bytes};

verus! {

broadcast use vstd::utf8::valid_utf8_concat;

/// A formatter as configured.
pub enum FormatterSpec {
    Simple(String),
}

/// A formatter whose holes have been checked.
pub struct Formatter {
    source: String,
}

impl View for Formatter {
    type V = Seq<char>;

    closed spec fn view(&self) -> Seq<char> {
        self.source@
    }
}

impl FormatterSpec {
    /// Checks the holes as a simple pattern would.
    pub fn try_into(self) -> (r: Result<Formatter, MatcherCompileError>)
        ensures
            ({
                let FormatterSpec::Simple(source) = self;
                match simple_outcome(source@) {
                    SimpleOutcome::Pattern(_) => r matches Ok(f) && f@ == source@,
                    SimpleOutcome::OutOfOrder => r matches Err(MatcherCompileError::OutOfOrderIndexes),
                    SimpleOutcome::Unreadable => r matches Err(MatcherCompileError::SyntaxError(_)),
                }
            }),
    {
        let FormatterSpec::Simple(source) = self;
        match build_simple_matcher_regex(source.as_str()) {
            Ok(_) => Ok(Formatter { source }),
            Err(e) => Err(e),
        }
    }
}

/// The text a hole is replaced by: an escaped `$$x` gives `x`; a hole gives
/// the plain text of its group, or nothing when the match has no such group.
pub open spec fn replacement(src: Seq<u8>, c: Seq<Option<(usize, usize)>>, context: MatchContextView) -> Seq<u8> {
    if escaped_var(src, c) {
        var_text(src, c)
    } else {
        match label_of(var_text(src, c)) {
            LabelSpec::Index(i) => match first_position(context.indexed, i) {
                Some(p) => encode_utf8(context.indexed[p].1.plain),
                None => Seq::empty(),
            },
            LabelSpec::Name(name) => match first_position(context.named, decode_utf8(name)) {
                Some(p) => encode_utf8(context.named[p].1.plain),
                None => Seq::empty(),
            },
        }
    }
}

/// The source from match `k` on, every match replaced, the previous match
/// having ended at `last_end`.
pub open spec fn formatted(
    src: Seq<u8>,
    caps: Seq<Seq<Option<(usize, usize)>>>,
    context: MatchContextView,
    k: int,
    last_end: int,
) -> Seq<u8>
    decreases caps.len() - k,
{
    if k >= caps.len() || k < 0 {
        src.subrange(last_end, src.len() as int)
    } else {
        let whole = whole_span(caps[k]);
        src.subrange(last_end, whole.0 as int) + replacement(src, caps[k], context) + formatted(
            src,
            caps,
            context,
            k + 1,
            whole.1 as int,
        )
    }
}

/// The matches can be replaced in turn: each is readable as a hole, has
/// the text of its hole, and starts after the previous one ends.
pub open spec fn format_captures_ok(src: Seq<u8>, caps: Seq<Seq<Option<(usize, usize)>>>) -> bool {
    &&& forall|k: int| 0 <= k < caps.len() ==> var_capture_ok(src, #[trigger] caps[k])
    &&& forall|k: int|
        0 <= k < caps.len() ==> (#[trigger] caps[k]).len() >= 2 && caps[k][1] is Some && span_in(
            src,
            var_span(caps[k]),
        )
    &&& forall|k: int|
        0 < k < caps.len() ==> whole_span(caps[k - 1]).1 <= whole_span(#[trigger] caps[k]).0
}

/// The matches of `VAR_REGEX` in a formatter's source.
pub open spec fn format_captures(source: Seq<char>) -> Seq<Seq<Option<(usize, usize)>>> {
    regex_captures_all(VAR_REGEX@, source)
}

impl Formatter {
    /// The source with every match replaced, given the matches.
    pub fn format_with(&self, context: &MatchContext, captures: &Vec<CaptureSpans>) -> (r: String)
        requires
            format_captures_ok(
                encode_utf8(self@),
                captures@.map_values(|c: CaptureSpans| c@),
            ),
        ensures
            encode_utf8(r@) == formatted(
                encode_utf8(self@),
                captures@.map_values(|c: CaptureSpans| c@),
                context@,
                0,
                0,
            ),
    {
        let bytes = self.source.as_str().as_bytes();
        let ghost src = encode_utf8(self@);
        let ghost caps = captures@.map_values(|c: CaptureSpans| c@);
        proof {
            encode_utf8_valid_utf8(self@);
            is_char_boundary_start_end_of_seq(src);
        }
        let mut out: Vec<u8> = Vec::new();
        proof {
            assert(valid_utf8(out@)) by {
                reveal_with_fuel(valid_utf8, 1);
            }
        }
        let mut last_end: usize = 0;
        let mut k: usize = 0;
        while k < captures.len()
            invariant
                bytes@ == src,
                src == encode_utf8(self@),
                valid_utf8(src),
                caps == captures@.map_values(|c: CaptureSpans| c@),
                format_captures_ok(src, caps),
                0 <= k <= captures@.len(),
                last_end <= src.len(),
                is_char_boundary(src, last_end as int),
                k > 0 ==> last_end == whole_span(caps[k - 1]).1,
                k == 0 ==> last_end == 0,
                valid_utf8(out@),
                formatted(src, caps, context@, 0, 0) == out@ + formatted(
                    src,
                    caps,
                    context@,
                    k as int,
                    last_end as int,
                ),
            decreases captures@.len() - k,
        {
            let capture = &captures[k];
            assert(caps[k as int] == capture@);
            assert(var_capture_ok(src, caps[k as int]));
            assert(caps[k as int].len() >= 2 && caps[k as int][1] is Some && span_in(src, var_span(caps[k as int])));
            let whole = capture[0].unwrap();
            let var = capture[1].unwrap();
            let ghost before = out@;
            let ghost tail = formatted(src, caps, context@, k + 1, whole.1 as int);
            let gap = copy_range(bytes, last_end, whole.0);
            proof {
                lemma_slice_valid(src, last_end as int, whole.0 as int);
            }
            let mut gap = gap;
            proof {
                valid_utf8_concat(out@, gap@);
            }
            out.append(&mut gap);
            let mut piece = self.replacement_for(context, bytes, whole, var);
            proof {
                valid_utf8_concat(out@, piece@);
            }
            out.append(&mut piece);
            proof {
                assert(before + (src.subrange(last_end as int, whole.0 as int) + replacement(
                    src,
                    caps[k as int],
                    context@,
                ) + tail) =~= out@ + tail);
            }
            last_end = whole.1;
            k = k + 1;
        }
        let len = bytes.len();
        let mut rest = copy_range(bytes, last_end, len);
        proof {
            lemma_slice_valid(src, last_end as int, len as int);
            valid_utf8_concat(out@, rest@);
        }
        out.append(&mut rest);
        let r = bytes_to_string(&out);
        r
    }

    /// The replacement for one match.
    fn replacement_for(&self, context: &MatchContext, bytes: &[u8], whole: (usize, usize), var: (usize, usize)) -> (r: Vec<u8>)
        requires
            bytes@ == encode_utf8(self@),
            var_capture_ok(bytes@, seq![Some(whole), Some(var)]),
            valid_utf8(bytes@),
            span_in(bytes@, var),
        ensures
            r@ == replacement(bytes@, seq![Some(whole), Some(var)], context@),
            valid_utf8(r@),
    {
        let ghost c = seq![Some(whole), Some(var)];
        assert(whole_span(c) == whole);
        assert(var_span(c) == var);
        proof {
            lemma_slice_valid(bytes@, var.0 as int, var.1 as int);
        }
        if whole.0 > 0 && bytes[whole.0 - 1] == 0x24 {
            return copy_range(bytes, var.0, var.1);
        }
        match read_label(bytes, var.0, var.1) {
            VarLabel::Index(index) => match context.get_indexed(index) {
                Some(text) => string_bytes(text.plain.as_str()),
                None => empty_bytes(),
            },
            VarLabel::Name(name) => {
                proof {
                    encode_utf8_decode_utf8(name@);
                }
                match context.get_named(name.as_str()) {
                    Some(text) => string_bytes(text.plain.as_str()),
                    None => empty_bytes(),
                }
            },
        }
    }

    /// The source with every hole filled in from `context`.  Should
    /// `VAR_REGEX` not compile, or its matches not be replaceable in turn,
    /// the source comes back as it is.
    pub fn format(&self, context: MatchContext) -> (r: String)
        ensures
            ({
                let caps = format_captures(self@);
                if regex_compile_error(VAR_REGEX@) is None && format_captures_ok(encode_utf8(self@), caps) {
                    encode_utf8(r@) == formatted(encode_utf8(self@), caps, context@, 0, 0)
                } else {
                    r@ == self@
                }
            }),
    {
        let var_pattern = match Pattern::new(VAR_REGEX) {
            Ok(p) => p,
            Err(_) => {
                return self.source.clone();
            },
        };
        let found = captures_all(&var_pattern, self.source.as_str());
        let ghost caps = format_captures(self@);
        let ghost src = encode_utf8(self@);
        assert(found@.map_values(|c: CaptureSpans| c@) =~= caps);
        let mut k: usize = 0;
        let mut last_end: usize = 0;
        while k < found.len()
            invariant
                0 <= k <= found@.len(),
                found@.map_values(|c: CaptureSpans| c@) == caps,
                caps == format_captures(self@),
                src == encode_utf8(self@),
                forall|i: int| 0 <= i < found@.len() ==> groups_in(src, #[trigger] found@[i]@),
                forall|i: int| 0 <= i < k ==> var_capture_ok(src, #[trigger] caps[i]),
                forall|i: int|
                    0 <= i < k ==> (#[trigger] caps[i]).len() >= 2 && caps[i][1] is Some && span_in(
                        src,
                        var_span(caps[i]),
                    ),
                forall|i: int| 0 < i < k ==> whole_span(caps[i - 1]).1 <= whole_span(#[trigger] caps[i]).0,
                k > 0 ==> last_end == whole_span(caps[k - 1]).1,
                k == 0 ==> last_end == 0,
            decreases found@.len() - k,
        {
            assert(caps[k as int] == found@[k as int]@);
            let capture = &found[k];
            let readable = capture_readable(self.source.as_str(), capture);
            if !readable || capture.len() < 2 || capture[1].is_none() || capture[0].unwrap().0 < last_end {
                proof {
                    if readable && caps[k as int].len() >= 2 && caps[k as int][1] is Some {
                        assert(k > 0);
                        assert(!(whole_span(caps[k - 1]).1 <= whole_span(caps[k as int]).0));
                    }
                }
                return self.source.clone();
            }
            last_end = capture[0].unwrap().1;
            k = k + 1;
        }
        self.format_with(&context, &found)
    }
}

/// No bytes.
fn empty_bytes() -> (r: Vec<u8>)
    ensures
        r@ == Seq::<u8>::empty(),
        valid_utf8(r@),
{
    let r: Vec<u8> = Vec::new();
    proof {
        reveal_with_fuel(valid_utf8, 1);
    }
    r
}

} // verus!
