//! "Simple" patterns: literal text with `$1`, `$name` or `${name}` holes,
//! turned into regular expressions.
use std::ops::Range;
use vstd::prelude::*;
use vstd::utf8::*;

use super::pattern::{
    captures_all, escaped, groups_in, regex_captures_all, regex_compile_error, regex_escape, span_in,
    Pattern,
};
use super::MatcherCompileError;
use crate::processing::utf8::{bytes_to_string, string_bytes};

verus! {

broadcast use vstd::utf8::valid_utf8_concat;

/// The pattern that finds the holes of a simple pattern: a `$` followed by
/// digits, a word, or a word in braces.
pub const VAR_REGEX: &'static str = "\\$(\\d+|\\w+|(?:\\{(\\w+)\\}))";

/// The groups of one match, as byte spans.
pub type CaptureSpans = Vec<Option<(usize, usize)>>;

pub open spec fn is_ascii_digit(b: u8) -> bool {
    0x30 <= b <= 0x39
}

/// The value of a string of decimal digits.
pub open spec fn decimal_value(digits: Seq<u8>) -> nat
    decreases digits.len(),
{
    if digits.len() == 0 {
        0
    } else {
        decimal_value(digits.drop_last()) * 10 + (digits.last() - 0x30) as nat
    }
}

/// The digits of an index: the text without a leading `+`.
pub open spec fn index_digits(text: Seq<u8>) -> Seq<u8> {
    if text.len() > 0 && text[0] == 0x2b {
        text.drop_first()
    } else {
        text
    }
}

pub open spec fn all_digits(digits: Seq<u8>) -> bool {
    forall|i: int| 0 <= i < digits.len() ==> is_ascii_digit(#[trigger] digits[i])
}

/// What `str::parse::<usize>` gives: an optional `+`, then one or more ASCII
/// digits whose value fits in a `usize`.
pub open spec fn parsed_index(text: Seq<u8>) -> Option<usize> {
    let digits = index_digits(text);
    if digits.len() > 0 && all_digits(digits) && decimal_value(digits) <= usize::MAX {
        Some(decimal_value(digits) as usize)
    } else {
        None
    }
}

/// What a hole refers to, as the bytes of a name.
pub enum LabelSpec {
    Index(usize),
    Name(Seq<u8>),
}

/// Whether the text of a hole is in braces.
pub open spec fn is_braced(text: Seq<u8>) -> bool {
    text.len() > 0 && text[0] == 0x7b
}

/// The label of a hole's text: a group index if it parses as one, else a name,
/// without its braces.
pub open spec fn label_of(text: Seq<u8>) -> LabelSpec {
    match parsed_index(text) {
        Some(n) => LabelSpec::Index(n),
        None => LabelSpec::Name(
            if is_braced(text) {
                text.subrange(1, text.len() - 1)
            } else {
                text
            },
        ),
    }
}

/// The span of a match as a whole.
pub open spec fn whole_span(c: Seq<Option<(usize, usize)>>) -> (usize, usize) {
    c[0]->0
}

/// The span of the hole's text (the first group).
pub open spec fn var_span(c: Seq<Option<(usize, usize)>>) -> (usize, usize) {
    c[1]->0
}

/// The text of a hole.
pub open spec fn var_text(src: Seq<u8>, c: Seq<Option<(usize, usize)>>) -> Seq<u8> {
    src.subrange(var_span(c).0 as int, var_span(c).1 as int)
}

/// A hole right after a `$` is an escaped `$$`, not a hole.
pub open spec fn escaped_var(src: Seq<u8>, c: Seq<Option<(usize, usize)>>) -> bool {
    whole_span(c).0 > 0 && src[whole_span(c).0 - 1] == 0x24
}

/// The matches on which reading a hole stays on character boundaries: the
/// byte before the match starts a character, and, for a hole, its text does
/// too and a braced text has a closing character to drop.
pub open spec fn var_capture_ok(src: Seq<u8>, c: Seq<Option<(usize, usize)>>) -> bool {
    &&& c.len() >= 1
    &&& c[0] is Some
    &&& span_in(src, whole_span(c))
    &&& (whole_span(c).0 == 0 || is_char_boundary(src, whole_span(c).0 - 1))
    &&& !escaped_var(src, c) ==> {
        &&& c.len() >= 2
        &&& c[1] is Some
        &&& span_in(src, var_span(c))
        &&& is_braced(var_text(src, c)) ==> var_text(src, c).len() >= 2 && is_char_boundary(
            var_text(src, c),
            var_text(src, c).len() - 1,
        )
    }
}

pub open spec fn var_captures_ok(src: Seq<u8>, caps: Seq<Seq<Option<(usize, usize)>>>) -> bool {
    forall|k: int| 0 <= k < caps.len() ==> var_capture_ok(src, #[trigger] caps[k])
}

/// Text copied into a pattern: the characters of `src[from..to]`, escaped.
pub open spec fn literal(src: Seq<u8>, from: int, to: int) -> Seq<u8> {
    encode_utf8(escaped(decode_utf8(src.subrange(from, to))))
}

/// The group that stands for a hole: `(.+)`, or `(?P<name>.+)` for a name.
pub open spec fn group_piece(label: LabelSpec) -> Seq<u8> {
    match label {
        LabelSpec::Index(_) => seq![0x28u8, 0x2e, 0x2b, 0x29],
        LabelSpec::Name(name) => seq![0x28u8, 0x3f, 0x50, 0x3c] + name + seq![0x3eu8, 0x2e, 0x2b, 0x29],
    }
}

/// `rest` after `prefix`, if there is a `rest`.
pub open spec fn prepend(prefix: Seq<u8>, rest: Option<Seq<u8>>) -> Option<Seq<u8>> {
    match rest {
        Some(r) => Some(prefix + r),
        None => None,
    }
}

/// The pattern for `src` from match `k` on, the previous hole having ended at
/// `last_end` and the last index hole being `last_index`; `None` when index
/// holes do not increase.
pub open spec fn assembled(
    src: Seq<u8>,
    caps: Seq<Seq<Option<(usize, usize)>>>,
    k: int,
    last_end: int,
    last_index: Option<usize>,
) -> Option<Seq<u8>>
    decreases caps.len() - k,
{
    if k >= caps.len() || k < 0 {
        Some(
            if last_end < src.len() {
                literal(src, last_end, src.len() as int)
            } else {
                Seq::empty()
            },
        )
    } else if escaped_var(src, caps[k]) {
        assembled(src, caps, k + 1, last_end, last_index)
    } else {
        let whole = whole_span(caps[k]);
        let label = label_of(var_text(src, caps[k]));
        let gap = if whole.0 > last_end {
            literal(src, last_end, whole.0 as int)
        } else {
            Seq::empty()
        };
        match label {
            LabelSpec::Index(n) => if last_index is Some && n <= last_index->0 {
                None
            } else {
                prepend(gap + group_piece(label), assembled(src, caps, k + 1, whole.1 as int, Some(n)))
            },
            LabelSpec::Name(_) => prepend(
                gap + group_piece(label),
                assembled(src, caps, k + 1, whole.1 as int, last_index),
            ),
        }
    }
}

/// Whether a simple pattern is bound to the start of the line.
pub open spec fn anchored(src: Seq<u8>) -> bool {
    src.len() > 0 && src[0] == 0x5e
}

/// A simple pattern without its leading `^`.
pub open spec fn body_of(src: Seq<u8>) -> Seq<u8> {
    if anchored(src) {
        src.drop_first()
    } else {
        src
    }
}

/// The holes that `VAR_REGEX` finds in a body.
pub open spec fn var_captures(body: Seq<u8>) -> Seq<Seq<Option<(usize, usize)>>> {
    regex_captures_all(VAR_REGEX@, decode_utf8(body))
}

/// The regular expression for a simple pattern, given the holes found in its
/// body.
pub open spec fn simple_pattern(src: Seq<u8>, caps: Seq<Seq<Option<(usize, usize)>>>) -> Option<
    Seq<u8>,
> {
    match assembled(body_of(src), caps, 0, 0, None) {
        Some(p) => Some(
            if anchored(src) {
                seq![0x5eu8] + p
            } else {
                p
            },
        ),
        None => None,
    }
}

/// What becomes of a simple pattern: a regular expression, index holes out
/// of order, or a match of `VAR_REGEX` that cannot be read as a hole (or
/// `VAR_REGEX` not compiling).
pub enum SimpleOutcome {
    Pattern(Seq<char>),
    OutOfOrder,
    Unreadable,
}

pub open spec fn simple_outcome(source: Seq<char>) -> SimpleOutcome {
    let src = encode_utf8(source);
    let caps = var_captures(body_of(src));
    if regex_compile_error(VAR_REGEX@) is None && var_captures_ok(body_of(src), caps) {
        match simple_pattern(src, caps) {
            Some(p) => SimpleOutcome::Pattern(decode_utf8(p)),
            None => SimpleOutcome::OutOfOrder,
        }
    } else {
        SimpleOutcome::Unreadable
    }
}

/// A hole's label.
pub enum VarLabel {
    Index(usize),
    Name(String),
}

impl VarLabel {
    /// This label is `spec`, names compared by their bytes.
    pub open spec fn is(&self, spec: LabelSpec) -> bool {
        match (self, spec) {
            (VarLabel::Index(a), LabelSpec::Index(b)) => a == b,
            (VarLabel::Name(a), LabelSpec::Name(b)) => encode_utf8(a@) == b,
            _ => false,
        }
    }
}

/// A hole: where it stands in the pattern, and what it refers to.
pub struct SimpleVar {
    pub range: Range<usize>,
    pub label: VarLabel,
}

/// The bytes `bytes[from..to]`, which start and end on character boundaries
/// of valid UTF-8, are valid UTF-8 themselves.
pub proof fn lemma_slice_valid(bytes: Seq<u8>, from: int, to: int)
    requires
        valid_utf8(bytes),
        0 <= from <= to <= bytes.len(),
        is_char_boundary(bytes, from),
        is_char_boundary(bytes, to),
    ensures
        valid_utf8(bytes.subrange(from, to)),
{
    valid_utf8_split(bytes, to);
    let prefix = bytes.subrange(0, to);
    if from < to {
        is_char_boundary_iff_not_is_continuation_byte(bytes, from);
        is_char_boundary_iff_not_is_continuation_byte(prefix, from);
        assert(prefix[from] == bytes[from]);
    } else {
        is_char_boundary_start_end_of_seq(prefix);
    }
    valid_utf8_split(prefix, from);
    assert(prefix.subrange(from, prefix.len() as int) =~= bytes.subrange(from, to));
}

/// A single ASCII byte is valid UTF-8.
proof fn lemma_ascii_valid(b: u8)
    requires
        b < 0x80,
    ensures
        valid_utf8(seq![b]),
{
    reveal_with_fuel(valid_utf8, 2);
    assert(pop_first_scalar(seq![b]) =~= Seq::<u8>::empty());
}

/// Appends an ASCII byte to valid UTF-8.
pub(crate) fn push_ascii(out: &mut Vec<u8>, b: u8)
    requires
        b < 0x80,
        valid_utf8(old(out)@),
    ensures
        final(out)@ == old(out)@.push(b),
        valid_utf8(final(out)@),
{
    proof {
        lemma_ascii_valid(b);
        assert(old(out)@.push(b) =~= old(out)@ + seq![b]);
    }
    out.push(b);
}

/// A copy of `bytes[from..to]`.
pub(crate) fn copy_range(bytes: &[u8], from: usize, to: usize) -> (r: Vec<u8>)
    requires
        from <= to <= bytes@.len(),
    ensures
        r@ == bytes@.subrange(from as int, to as int),
{
    vstd::slice::slice_to_vec(vstd::slice::slice_subrange(bytes, from, to))
}

/// Parses an index as `str::parse::<usize>` does.
pub fn parse_index(text: &[u8]) -> (r: Option<usize>)
    ensures
        r == parsed_index(text@),
{
    let mut i: usize = 0;
    if text.len() > 0 && text[0] == 0x2b {
        i = 1;
    }
    let ghost digits = index_digits(text@);
    assert(digits =~= text@.subrange(i as int, text@.len() as int));
    if i >= text.len() {
        return None;
    }
    let mut value: usize = 0;
    let mut j: usize = i;
    while j < text.len()
        invariant
            i <= j <= text@.len(),
            digits == index_digits(text@),
            digits =~= text@.subrange(i as int, text@.len() as int),
            forall|q: int| i <= q < j ==> is_ascii_digit(#[trigger] text@[q]),
            value as nat == decimal_value(text@.subrange(i as int, j as int)),
        decreases text@.len() - j,
    {
        let b = text[j];
        if !(0x30 <= b && b <= 0x39) {
            assert(!is_ascii_digit(digits[j - i]));
            assert(!all_digits(digits));
            return None;
        }
        let ghost next = text@.subrange(i as int, j + 1);
        assert(next.drop_last() =~= text@.subrange(i as int, j as int));
        assert(next =~= digits.subrange(0, j + 1 - i));
        match value.checked_mul(10) {
            Some(tens) => match tens.checked_add((b - 0x30) as usize) {
                Some(v) => {
                    value = v;
                },
                None => {
                    proof {
                        lemma_overflow_rejected(digits, next, j + 1 - i);
                    }
                    return None;
                },
            },
            None => {
                proof {
                    lemma_overflow_rejected(digits, next, j + 1 - i);
                }
                return None;
            },
        }
        j = j + 1;
    }
    assert(text@.subrange(i as int, j as int) =~= digits);
    Some(value)
}

/// Digits with a prefix too large for a `usize` do not parse.
proof fn lemma_overflow_rejected(digits: Seq<u8>, prefix: Seq<u8>, n: int)
    requires
        0 < n <= digits.len(),
        prefix == digits.subrange(0, n),
        decimal_value(prefix) > usize::MAX,
    ensures
        !(all_digits(digits) && decimal_value(digits) <= usize::MAX),
{
    if all_digits(digits) {
        lemma_decimal_prefix_bound(digits, n);
    }
}

/// The value of a prefix of digits never exceeds that of the whole.
proof fn lemma_decimal_prefix_bound(digits: Seq<u8>, n: int)
    requires
        0 <= n <= digits.len(),
        forall|i: int| 0 <= i < digits.len() ==> is_ascii_digit(#[trigger] digits[i]),
    ensures
        decimal_value(digits.subrange(0, n)) <= decimal_value(digits),
    decreases digits.len() - n,
{
    if n < digits.len() {
        lemma_decimal_prefix_bound(digits, n + 1);
        let longer = digits.subrange(0, n + 1);
        assert(longer.drop_last() =~= digits.subrange(0, n));
        assert(is_ascii_digit(longer.last()));
    } else {
        assert(digits.subrange(0, n) =~= digits);
    }
}

/// Reads one match of `VAR_REGEX`: `None` for an escaped `$$`, else the span
/// of the match and its label.
pub fn unpack_var(source: &str, capture: &CaptureSpans) -> (r: Option<SimpleVar>)
    requires
        var_capture_ok(encode_utf8(source@), capture@),
    ensures
        r is None <==> escaped_var(encode_utf8(source@), capture@),
        r matches Some(var) ==> {
            &&& var.range.start == whole_span(capture@).0
            &&& var.range.end == whole_span(capture@).1
            &&& var.label.is(label_of(var_text(encode_utf8(source@), capture@)))
        },
{
    let bytes = source.as_bytes();
    proof {
        encode_utf8_valid_utf8(source@);
    }
    let whole = capture[0].unwrap();
    if whole.0 > 0 && bytes[whole.0 - 1] == 0x24 {
        return None;
    }
    let var = capture[1].unwrap();
    let label = read_label(bytes, var.0, var.1);
    Some(SimpleVar { range: whole.0..whole.1, label })
}

/// The label of the hole text `bytes[from..to]`.
pub(crate) fn read_label(bytes: &[u8], from: usize, to: usize) -> (r: VarLabel)
    requires
        valid_utf8(bytes@),
        span_in(bytes@, (from, to)),
        is_braced(bytes@.subrange(from as int, to as int)) ==> to - from >= 2 && is_char_boundary(
            bytes@.subrange(from as int, to as int),
            to - from - 1,
        ),
    ensures
        r.is(label_of(bytes@.subrange(from as int, to as int))),
{
    let ghost text = bytes@.subrange(from as int, to as int);
    let text_bytes = copy_range(bytes, from, to);
    proof {
        lemma_slice_valid(bytes@, from as int, to as int);
    }
    match parse_index(text_bytes.as_slice()) {
        Some(n) => VarLabel::Index(n),
        None => {
            let n = text_bytes.len();
            if n > 0 && text_bytes[0] == 0x7b {
                let inner = copy_range(text_bytes.as_slice(), 1, n - 1);
                proof {
                    reveal_with_fuel(is_char_boundary, 2);
                    assert(is_char_boundary(text, 1));
                    lemma_slice_valid(text, 1, n - 1);
                }
                VarLabel::Name(bytes_to_string(&inner))
            } else {
                VarLabel::Name(bytes_to_string(&text_bytes))
            }
        },
    }
}

/// Appends the escaped characters of `bytes[from..to]` to `out`.
fn push_literal(out: &mut Vec<u8>, bytes: &[u8], from: usize, to: usize)
    requires
        valid_utf8(old(out)@),
        valid_utf8(bytes@),
        from <= to <= bytes@.len(),
        is_char_boundary(bytes@, from as int),
        is_char_boundary(bytes@, to as int),
    ensures
        final(out)@ == old(out)@ + literal(bytes@, from as int, to as int),
        valid_utf8(final(out)@),
{
    let piece = copy_range(bytes, from, to);
    proof {
        lemma_slice_valid(bytes@, from as int, to as int);
    }
    let text = bytes_to_string(&piece);
    let quoted = regex_escape(text.as_str());
    let mut quoted_bytes = string_bytes(quoted.as_str());
    out.append(&mut quoted_bytes);
}

/// Appends the group for a label.
fn push_group(out: &mut Vec<u8>, label: &VarLabel, Ghost(spec): Ghost<LabelSpec>)
    requires
        valid_utf8(old(out)@),
        label.is(spec),
    ensures
        final(out)@ == old(out)@ + group_piece(spec),
        valid_utf8(final(out)@),
{
    let ghost start = out@;
    push_ascii(out, 0x28);
    match label {
        VarLabel::Index(_) => {
            push_ascii(out, 0x2e);
            push_ascii(out, 0x2b);
            push_ascii(out, 0x29);
            assert(out@ =~= start + group_piece(spec));
        },
        VarLabel::Name(name) => {
            push_ascii(out, 0x3f);
            push_ascii(out, 0x50);
            push_ascii(out, 0x3c);
            let ghost before_name = out@;
            let mut name_bytes = string_bytes(name.as_str());
            out.append(&mut name_bytes);
            push_ascii(out, 0x3e);
            push_ascii(out, 0x2e);
            push_ascii(out, 0x2b);
            push_ascii(out, 0x29);
            assert(out@ =~= start + group_piece(spec));
        },
    }
}

/// Builds the regular expression for the body of a simple pattern from the
/// holes that `VAR_REGEX` found in it: the text between holes is escaped,
/// index holes become `(.+)` and must increase, named holes become named
/// groups, and an escaped `$$` is left to the text.
pub fn assemble_simple_pattern(source: &str, captures: &Vec<CaptureSpans>) -> (r: Result<
    String,
    MatcherCompileError,
>)
    requires
        var_captures_ok(encode_utf8(source@), captures@.map_values(|c: CaptureSpans| c@)),
    ensures
        ({
            let src = encode_utf8(source@);
            let caps = captures@.map_values(|c: CaptureSpans| c@);
            match assembled(src, caps, 0, 0, None) {
                Some(p) => r matches Ok(s) && encode_utf8(s@) == p,
                None => r matches Err(MatcherCompileError::OutOfOrderIndexes),
            }
        }),
{
    let bytes = source.as_bytes();
    let ghost src = encode_utf8(source@);
    let ghost caps = captures@.map_values(|c: CaptureSpans| c@);
    proof {
        encode_utf8_valid_utf8(source@);
        is_char_boundary_start_end_of_seq(src);
    }
    let mut out: Vec<u8> = Vec::new();
    proof {
        assert(valid_utf8(out@)) by {
            reveal_with_fuel(valid_utf8, 1);
        }
    }
    let mut last_end: usize = 0;
    let mut last_index: Option<usize> = None;
    let mut k: usize = 0;
    while k < captures.len()
        invariant
            bytes@ == src,
            src == encode_utf8(source@),
            valid_utf8(src),
            caps == captures@.map_values(|c: CaptureSpans| c@),
            var_captures_ok(src, caps),
            0 <= k <= captures@.len(),
            last_end <= src.len(),
            is_char_boundary(src, last_end as int),
            valid_utf8(out@),
            assembled(src, caps, 0, 0, None) == prepend(
                out@,
                assembled(src, caps, k as int, last_end as int, last_index),
            ),
        decreases captures@.len() - k,
    {
        let capture = &captures[k];
        assert(caps[k as int] == capture@);
        assert(var_capture_ok(src, caps[k as int]));
        let ghost rest = assembled(src, caps, k + 1, last_end as int, last_index);
        let ghost prev_index = last_index;
        let ghost prev_end = last_end;
        match unpack_var(source, capture) {
            None => {
                assert(assembled(src, caps, k as int, last_end as int, last_index) == rest);
            },
            Some(var) => {
                let ghost label = label_of(var_text(src, caps[k as int]));
                let ghost before = out@;
                if var.range.start > last_end {
                    push_literal(&mut out, bytes, last_end, var.range.start);
                }
                let ghost gap = if var.range.start > last_end {
                    literal(src, last_end as int, var.range.start as int)
                } else {
                    Seq::empty()
                };
                assert(out@ =~= before + gap);
                match &var.label {
                    VarLabel::Index(n) => {
                        match last_index {
                            Some(previous) => {
                                if *n <= previous {
                                    return Err(MatcherCompileError::OutOfOrderIndexes);
                                }
                            },
                            None => {},
                        }
                        push_group(&mut out, &var.label, Ghost(label));
                        last_index = Some(*n);
                    },
                    VarLabel::Name(_) => {
                        push_group(&mut out, &var.label, Ghost(label));
                    },
                }
                proof {
                    let tail = assembled(src, caps, k + 1, var.range.end as int, last_index);
                    assert(assembled(src, caps, k as int, prev_end as int, prev_index) == prepend(
                        gap + group_piece(label),
                        tail,
                    ));
                    match tail {
                        Some(t) => {
                            assert(before + (gap + group_piece(label) + t) =~= out@ + t);
                        },
                        None => {},
                    }
                }
                last_end = var.range.end;
            },
        }
        k = k + 1;
    }
    let len = bytes.len();
    if last_end < len {
        push_literal(&mut out, bytes, last_end, len);
    }
    proof {
        assert(out@ =~= out@ + Seq::<u8>::empty());
    }
    let s = bytes_to_string(&out);
    Ok(s)
}


/// Whether one match of `VAR_REGEX` can be read as a hole without leaving
/// character boundaries.
pub(crate) fn capture_readable(source: &str, capture: &CaptureSpans) -> (r: bool)
    requires
        groups_in(encode_utf8(source@), capture@),
    ensures
        r == var_capture_ok(encode_utf8(source@), capture@),
{
    let bytes = source.as_bytes();
    proof {
        encode_utf8_valid_utf8(source@);
    }
    let whole = capture[0].unwrap();
    assert(span_in(bytes@, whole));
    if whole.0 > 0 && !source.is_char_boundary(whole.0 - 1) {
        return false;
    }
    if whole.0 > 0 && bytes[whole.0 - 1] == 0x24 {
        return true;
    }
    if capture.len() < 2 {
        return false;
    }
    match capture[1] {
        None => false,
        Some(var) => {
            assert(span_in(bytes@, var));
            let text = copy_range(bytes, var.0, var.1);
            if text.len() > 0 && text[0] == 0x7b {
                if text.len() < 2 {
                    return false;
                }
                proof {
                    lemma_slice_valid(bytes@, var.0 as int, var.1 as int);
                }
                let text_string = bytes_to_string(&text);
                text_string.as_str().is_char_boundary(text.len() - 1)
            } else {
                true
            }
        },
    }
}

/// Builds the regular expression for a simple pattern: a leading `^` binds
/// it to the start of the line, and the rest is assembled from the holes that
/// `VAR_REGEX` finds in it.  Should `VAR_REGEX` not compile, or one of its
/// matches not be readable as a hole, this is a syntax error.
pub fn build_simple_matcher_regex(source: &str) -> (r: Result<String, MatcherCompileError>)
    ensures
        match simple_outcome(source@) {
            SimpleOutcome::Pattern(p) => r matches Ok(s) && s@ == p,
            SimpleOutcome::OutOfOrder => r matches Err(MatcherCompileError::OutOfOrderIndexes),
            SimpleOutcome::Unreadable => r matches Err(MatcherCompileError::SyntaxError(_)),
        },
{
    let bytes = source.as_bytes();
    let ghost src = encode_utf8(source@);
    proof {
        encode_utf8_valid_utf8(source@);
        encode_utf8_decode_utf8(source@);
    }
    let len = bytes.len();
    let anchored = len > 0 && bytes[0] == 0x5e;
    let body = if anchored {
        let rest = copy_range(bytes, 1, len);
        proof {
            is_char_boundary_start_end_of_seq(src);
            reveal_with_fuel(is_char_boundary, 2);
            assert(is_char_boundary(src, 1));
            lemma_slice_valid(src, 1, len as int);
            assert(rest@ =~= src.drop_first());
        }
        bytes_to_string(&rest)
    } else {
        source.to_owned()
    };
    assert(body@ == decode_utf8(body_of(src)));
    proof {
        if anchored {
            decode_utf8_encode_utf8(body_of(src));
        }
    }
    assert(encode_utf8(body@) == body_of(src));
    let var_pattern = match Pattern::new(VAR_REGEX) {
        Ok(p) => p,
        Err(message) => {
            return Err(MatcherCompileError::SyntaxError(message));
        },
    };
    let found = captures_all(&var_pattern, body.as_str());
    let ghost caps = var_captures(body_of(src));
    assert(found@.map_values(|c: CaptureSpans| c@) =~= caps);
    let mut k: usize = 0;
    while k < found.len()
        invariant
            0 <= k <= found@.len(),
            found@.map_values(|c: CaptureSpans| c@) == caps,
            src == encode_utf8(source@),
            caps == var_captures(body_of(src)),
            encode_utf8(body@) == body_of(src),
            forall|i: int| 0 <= i < found@.len() ==> groups_in(encode_utf8(body@), #[trigger] found@[i]@),
            forall|i: int| 0 <= i < k ==> var_capture_ok(body_of(src), #[trigger] caps[i]),
        decreases found@.len() - k,
    {
        assert(caps[k as int] == found@[k as int]@);
        if !capture_readable(body.as_str(), &found[k]) {
            assert(!var_capture_ok(body_of(src), caps[k as int]));
            assert(!var_captures_ok(body_of(src), caps));
            return Err(MatcherCompileError::SyntaxError("unreadable hole in a simple pattern".to_owned()));
        }
        k = k + 1;
    }
    let assembled = match assemble_simple_pattern(body.as_str(), &found) {
        Ok(p) => p,
        Err(e) => {
            return Err(e);
        },
    };
    if anchored {
        let mut out: Vec<u8> = Vec::new();
        proof {
            assert(valid_utf8(out@)) by {
                reveal_with_fuel(valid_utf8, 1);
            }
        }
        push_ascii(&mut out, 0x5e);
        let mut rest = string_bytes(assembled.as_str());
        out.append(&mut rest);
        let built = bytes_to_string(&out);
        proof {
            encode_utf8_decode_utf8(built@);
        }
        Ok(built)
    } else {
        proof {
            encode_utf8_decode_utf8(assembled@);
        }
        Ok(assembled)
    }
}

} // verus!
