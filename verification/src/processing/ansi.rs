//! Text that may hold ANSI escape sequences.
//!
//! `AnsiMut` collects raw bytes as they arrive (possibly ending in the middle of
//! a UTF-8 or ANSI sequence); `Ansi` holds valid UTF-8; `AnsiStripped` is the
//! text of an `Ansi` with its CSI sequences removed, together with what is
//! needed to map ranges of the plain text back onto the original bytes.
use std::ops::Range;

use vstd::prelude::*;
use vstd::utf8::*;

use super::utf8::{
    bytes_to_string, decode_scalar_at, from_utf8_lossy, lemma_pop_suffix, string_bytes, utf8_lossy,
    valid_prefix_len, valid_utf8_bytes_count,
};

verus! {

broadcast use vstd::seq::group_seq_axioms;

// ---------------------------------------------------------------------------
// The stripping state machine, character by character.
// ---------------------------------------------------------------------------
/// The state of the scan that removes CSI sequences (`ESC [ ... final`).
pub struct StripAcc {
    /// The bytes kept so far.
    pub value: Seq<u8>,
    /// The byte ranges of the sequences removed so far.
    pub ranges: Seq<(int, int)>,
    /// An `ESC` was seen and a `[` may follow.
    pub maybe_csi: bool,
    /// Inside a CSI sequence, waiting for its final byte.
    pub in_csi: bool,
    /// Where the current sequence began.
    pub range_start: int,
}

/// The scalar value of the character that starts `rest`.
pub open spec fn char_key(rest: Seq<u8>) -> int {
    decode_first_scalar(rest) as int
}

/// One character of the scan: `rest` starts with the character found at byte
/// `index` of the text.
pub open spec fn strip_step(rest: Seq<u8>, index: int, acc: StripAcc) -> StripAcc {
    let key = char_key(rest);
    if key == 0x1b && !acc.maybe_csi && !acc.in_csi {
        StripAcc { maybe_csi: true, in_csi: false, range_start: index, ..acc }
    } else if key == 0x5b && acc.maybe_csi && !acc.in_csi {
        StripAcc { maybe_csi: false, in_csi: true, ..acc }
    } else if !acc.maybe_csi && acc.in_csi {
        if 0x40 <= key < 0x7e {
            StripAcc { in_csi: false, ranges: acc.ranges.push((acc.range_start, index + 1)), ..acc }
        } else {
            acc
        }
    } else {
        StripAcc { value: acc.value + take_first_scalar(rest), ..acc }
    }
}

/// The scan over the characters of `rest`, which starts at byte `index` of
/// the text.
pub open spec fn strip_run(rest: Seq<u8>, index: int, acc: StripAcc) -> StripAcc
    decreases rest.len(),
{
    if rest.len() > 0 && valid_first_scalar(rest) {
        strip_run(
            pop_first_scalar(rest),
            index + length_of_first_scalar(rest),
            strip_step(rest, index, acc),
        )
    } else {
        acc
    }
}

/// The state before the first character.
pub open spec fn strip_start() -> StripAcc {
    StripAcc {
        value: Seq::empty(),
        ranges: Seq::empty(),
        maybe_csi: false,
        in_csi: false,
        range_start: 0,
    }
}

/// The scan over a whole text.
pub open spec fn strip_spec(bytes: Seq<u8>) -> StripAcc {
    strip_run(bytes, 0, strip_start())
}

/// Whether the text ends inside an escape sequence.
pub open spec fn strip_incomplete(bytes: Seq<u8>) -> bool {
    strip_spec(bytes).maybe_csi || strip_spec(bytes).in_csi
}

/// The bytes themselves when they are valid UTF-8, else the encoding of
/// their lossy decoding.
pub open spec fn lossy_bytes(bytes: Seq<u8>) -> Seq<u8> {
    if valid_utf8(bytes) {
        bytes
    } else {
        encode_utf8(utf8_lossy(bytes))
    }
}

/// Ranges as integer pairs.
pub open spec fn range_pairs(ranges: Seq<Range<usize>>) -> Seq<(int, int)> {
    ranges.map_values(|r: Range<usize>| (r.start as int, r.end as int))
}

/// Ranges that are non-empty, in order, disjoint and inside `0..len`.
pub open spec fn ranges_ordered_within(ranges: Seq<(int, int)>, lo: int, hi: int) -> bool {
    &&& forall|k: int| 0 <= k < ranges.len() ==> lo <= (#[trigger] ranges[k]).0 < ranges[k].1 <= hi
    &&& forall|j: int, k: int|
        0 <= j < k < ranges.len() ==> (#[trigger] ranges[j]).1 <= (#[trigger] ranges[k]).0
}

// ---------------------------------------------------------------------------
// Mapping plain-text ranges back onto the original bytes.
// ---------------------------------------------------------------------------
/// How `get_original_range` moves `start..end` past the removed ranges.
pub open spec fn map_range(ranges: Seq<(int, int)>, start: int, end: int) -> (int, int)
    decreases ranges.len(),
{
    if ranges.len() == 0 {
        (start, end)
    } else {
        let c = ranges[0];
        let l = c.1 - c.0;
        if c.0 < start {
            map_range(ranges.drop_first(), start + l, end + l)
        } else if c.0 <= end {
            map_range(ranges.drop_first(), start, end + l)
        } else {
            (start, end)
        }
    }
}

/// The total length of some ranges.
pub open spec fn ranges_total(ranges: Seq<(int, int)>) -> int
    decreases ranges.len(),
{
    if ranges.len() == 0 {
        0
    } else {
        (ranges[0].1 - ranges[0].0) + ranges_total(ranges.drop_first())
    }
}

proof fn lemma_ranges_total_bound(ranges: Seq<(int, int)>, lo: int, hi: int)
    requires
        ranges_ordered_within(ranges, lo, hi),
        lo <= hi,
    ensures
        0 <= ranges_total(ranges) <= hi - lo,
    decreases ranges.len(),
{
    if ranges.len() > 0 {
        let rest = ranges.drop_first();
        assert(ranges_ordered_within(rest, ranges[0].1, hi)) by {
            assert forall|k: int| 0 <= k < rest.len() implies ranges[0].1 <= (#[trigger] rest[k]).0 by {
                assert(rest[k] == ranges[k + 1]);
            }
            assert forall|j: int, k: int| 0 <= j < k < rest.len() implies (#[trigger] rest[j]).1 <= (
            #[trigger] rest[k]).0 by {
                assert(rest[j] == ranges[j + 1]);
                assert(rest[k] == ranges[k + 1]);
            }
        }
        lemma_ranges_total_bound(rest, ranges[0].1, hi);
    }
}

proof fn lemma_map_range_bound(ranges: Seq<(int, int)>, start: int, end: int)
    requires
        start <= end,
        forall|k: int| 0 <= k < ranges.len() ==> (#[trigger] ranges[k]).0 < ranges[k].1,
    ensures
        start <= map_range(ranges, start, end).0 <= map_range(ranges, start, end).1,
        map_range(ranges, start, end).1 <= end + ranges_total(ranges),
        map_range(ranges, start, end).0 - start <= map_range(ranges, start, end).1 - end,
        map_range(ranges, start, end).1 - map_range(ranges, start, end).0 >= end - start,
    decreases ranges.len(),
{
    if ranges.len() > 0 {
        let rest = ranges.drop_first();
        assert forall|k: int| 0 <= k < rest.len() implies (#[trigger] rest[k]).0 < rest[k].1 by {
            assert(rest[k] == ranges[k + 1]);
        }
        let l = ranges[0].1 - ranges[0].0;
        lemma_ranges_total_nonneg(rest);
        if ranges[0].0 < start {
            lemma_map_range_bound(rest, start + l, end + l);
        } else if ranges[0].0 <= end {
            lemma_map_range_bound(rest, start, end + l);
        }
    }
}

proof fn lemma_ranges_total_nonneg(ranges: Seq<(int, int)>)
    requires
        forall|k: int| 0 <= k < ranges.len() ==> (#[trigger] ranges[k]).0 < ranges[k].1,
    ensures
        ranges_total(ranges) >= 0,
    decreases ranges.len(),
{
    if ranges.len() > 0 {
        let rest = ranges.drop_first();
        assert forall|k: int| 0 <= k < rest.len() implies (#[trigger] rest[k]).0 < rest[k].1 by {
            assert(rest[k] == ranges[k + 1]);
        }
        lemma_ranges_total_nonneg(rest);
    }
}

// ---------------------------------------------------------------------------
// AnsiStripped
// ---------------------------------------------------------------------------
/// The plain text of an `Ansi`, with the ranges of the removed escape
/// sequences.
pub struct AnsiStripped {
    value: Vec<u8>,
    original: Vec<u8>,
    ansi_ranges: Vec<Range<usize>>,
    has_incomplete: bool,
}

/// What an `AnsiStripped` holds, as mathematical values.
pub struct AnsiStrippedView {
    pub value: Seq<u8>,
    pub original: Seq<u8>,
    pub ansi_ranges: Seq<(int, int)>,
    pub has_incomplete: bool,
}

impl View for AnsiStripped {
    type V = AnsiStrippedView;

    closed spec fn view(&self) -> AnsiStrippedView {
        AnsiStrippedView {
            value: self.value@,
            original: self.original@,
            ansi_ranges: range_pairs(self.ansi_ranges@),
            has_incomplete: self.has_incomplete,
        }
    }
}

/// The stripped form of `bytes`, as `strip_ansi` computes it.
pub open spec fn stripped_of(bytes: Seq<u8>) -> AnsiStrippedView {
    AnsiStrippedView {
        value: strip_spec(bytes).value,
        original: bytes,
        ansi_ranges: strip_spec(bytes).ranges,
        has_incomplete: strip_incomplete(bytes),
    }
}

impl AnsiStripped {
    /// The stripped text is the stripping of its original, which is valid
    /// UTF-8, as is the stripped text; the removed ranges are in order,
    /// disjoint and inside the original.
    pub open spec fn wf(&self) -> bool {
        &&& valid_utf8(self@.original)
        &&& self@ == stripped_of(self@.original)
        &&& valid_utf8(self@.value)
        &&& ranges_ordered_within(self@.ansi_ranges, 0, self@.original.len() as int)
    }

    /// An independent copy.
    pub fn duplicate(&self) -> (r: AnsiStripped)
        ensures
            r@ == self@,
            r.wf() == self.wf(),
    {
        let value = self.value.clone();
        let original = self.original.clone();
        assert(value@ =~= self.value@);
        assert(original@ =~= self.original@);
        let mut ansi_ranges: Vec<Range<usize>> = Vec::new();
        let mut k: usize = 0;
        while k < self.ansi_ranges.len()
            invariant
                0 <= k <= self.ansi_ranges@.len(),
                ansi_ranges@.len() == k,
                forall|j: int| 0 <= j < k ==> #[trigger] ansi_ranges@[j] == self.ansi_ranges@[j],
            decreases self.ansi_ranges@.len() - k,
        {
            let c = &self.ansi_ranges[k];
            ansi_ranges.push(c.start..c.end);
            k = k + 1;
        }
        assert(ansi_ranges@ =~= self.ansi_ranges@);
        AnsiStripped { value, original, ansi_ranges, has_incomplete: self.has_incomplete }
    }

    /// The plain text.
    pub fn value_bytes(&self) -> (r: &Vec<u8>)
        ensures
            r@ == self@.value,
    {
        &self.value
    }

    /// The plain text as a `String`.
    pub fn to_string(&self) -> (r: String)
        requires
            self.wf(),
        ensures
            r@ == decode_utf8(self@.value),
            encode_utf8(r@) == self@.value,
    {
        bytes_to_string(&self.value)
    }

    /// The length in bytes of the plain text.
    pub fn len(&self) -> (r: usize)
        ensures
            r == self@.value.len(),
    {
        self.value.len()
    }

    /// The length in bytes of the original text.
    pub fn original_len(&self) -> (r: usize)
        ensures
            r == self@.original.len(),
    {
        self.original.len()
    }

    /// Whether the text ends inside an escape sequence.
    pub fn has_incomplete(&self) -> (r: bool)
        ensures
            r == self@.has_incomplete,
    {
        self.has_incomplete
    }

    /// Maps a byte range of the plain text onto the original text: every
    /// removed sequence that starts before `range.start` moves both ends on,
    /// and every one that starts at or before `range.end` (and after those)
    /// widens the range.
    pub fn get_original_range(&self, range: Range<usize>) -> (r: Range<usize>)
        requires
            self.wf(),
            range.start <= range.end,
            range.end + self@.original.len() <= usize::MAX,
        ensures
            (r.start as int, r.end as int) == map_range(
                self@.ansi_ranges,
                range.start as int,
                range.end as int,
            ),
            range.start <= r.start <= r.end,
            r.end - r.start >= range.end - range.start,
    {
        let ghost all = self@.ansi_ranges;
        proof {
            lemma_ranges_total_bound(all, 0, self@.original.len() as int);
            lemma_map_range_bound(all, range.start as int, range.end as int);
        }
        let mut start = range.start;
        let mut end = range.end;
        let mut k: usize = 0;
        proof {
            assert(all.subrange(0, all.len() as int) =~= all);
        }
        while k < self.ansi_ranges.len()
            invariant
                self.wf(),
                all == self@.ansi_ranges,
                0 <= k <= all.len(),
                start <= end,
                range.start <= start,
                end + ranges_total(all.subrange(k as int, all.len() as int)) <= range.end
                    + ranges_total(all),
                range.end + ranges_total(all) <= usize::MAX,
                range.start <= map_range(all, range.start as int, range.end as int).0,
                map_range(all, range.start as int, range.end as int).1 - map_range(
                    all,
                    range.start as int,
                    range.end as int,
                ).0 >= range.end - range.start,
                map_range(all.subrange(k as int, all.len() as int), start as int, end as int)
                    == map_range(all, range.start as int, range.end as int),
            decreases all.len() - k,
        {
            let ghost rest = all.subrange(k as int, all.len() as int);
            proof {
                assert(rest[0] == all[k as int]);
                assert(rest.drop_first() =~= all.subrange(k + 1, all.len() as int));
                lemma_ranges_total_nonneg(all.subrange(k + 1, all.len() as int));
            }
            let candidate = &self.ansi_ranges[k];
            let clen = candidate.end - candidate.start;
            if candidate.start < start {
                start = start + clen;
                end = end + clen;
            } else if candidate.start <= end {
                end = end + clen;
            } else {
                proof {
                    assert(map_range(rest, start as int, end as int) == (start as int, end as int));
                }
                return start..end;
            }
            k = k + 1;
        }
        proof {
            assert(all.subrange(k as int, all.len() as int).len() == 0);
        }
        start..end
    }

    /// The original text of a range of the plain text.
    pub fn get_original(&self, range: Range<usize>) -> (r: Ansi)
        requires
            self.wf(),
            range.start <= range.end,
            range.end + self@.original.len() <= usize::MAX,
            map_range(self@.ansi_ranges, range.start as int, range.end as int).1
                <= self@.original.len(),
        ensures
            ({
                let m = map_range(self@.ansi_ranges, range.start as int, range.end as int);
                let slice = self@.original.subrange(m.0, m.1);
                r@ == lossy_bytes(slice)
            }),
    {
        let mapped = self.get_original_range(range);
        let slice = slice_bytes(&self.original, mapped.start, mapped.end);
        Ansi::from_lossy_bytes(slice)
    }
}

/// A copy of `bytes[start..end]`.
pub fn slice_bytes(bytes: &Vec<u8>, start: usize, end: usize) -> (r: Vec<u8>)
    requires
        start <= end <= bytes@.len(),
    ensures
        r@ == bytes@.subrange(start as int, end as int),
{
    let mut r: Vec<u8> = Vec::new();
    let mut i = start;
    while i < end
        invariant
            start <= i <= end <= bytes@.len(),
            r@ == bytes@.subrange(start as int, i as int),
        decreases end - i,
    {
        r.push(bytes[i]);
        i = i + 1;
        proof {
            assert(r@ =~= bytes@.subrange(start as int, i as int));
        }
    }
    r
}

/// Removes the CSI sequences of valid UTF-8 text, character by character:
/// an `ESC` opens a possible sequence, a `[` right after it starts one, and
/// a character in `0x40..0x7E` ends it.
pub fn strip_ansi(bytes: Vec<u8>) -> (r: AnsiStripped)
    requires
        valid_utf8(bytes@),
    ensures
        r@ == stripped_of(bytes@),
        r.wf(),
{
    let mut without_ansi: Vec<u8> = Vec::new();
    let mut ansi_ranges: Vec<Range<usize>> = Vec::new();
    let mut maybe_csi = false;
    let mut in_csi = false;
    let mut range_start: usize = 0;
    let mut index: usize = 0;
    let ghost all = bytes@;
    proof {
        assert(all.subrange(0, all.len() as int) =~= all);
        assert(range_pairs(ansi_ranges@) =~= Seq::<(int, int)>::empty());
        assert(without_ansi@ =~= Seq::<u8>::empty());
        assert(all.subrange(0, 0) =~= Seq::<u8>::empty());
    }
    while index < bytes.len()
        invariant
            all == bytes@,
            valid_utf8(all),
            index <= all.len(),
            range_start <= index,
            valid_utf8(all.subrange(index as int, all.len() as int)),
            valid_utf8(all.subrange(0, index as int)),
            valid_utf8(without_ansi@),
            ranges_ordered_within(range_pairs(ansi_ranges@), 0, index as int),
            forall|k: int|
                0 <= k < ansi_ranges@.len() ==> (#[trigger] range_pairs(ansi_ranges@)[k]).1
                    <= range_start || !maybe_csi && !in_csi,
            strip_run(
                all.subrange(index as int, all.len() as int),
                index as int,
                StripAcc {
                    value: without_ansi@,
                    ranges: range_pairs(ansi_ranges@),
                    maybe_csi,
                    in_csi,
                    range_start: range_start as int,
                },
            ) == strip_spec(all),
        decreases all.len() - index,
    {
        let ghost rest = all.subrange(index as int, all.len() as int);
        let ghost acc = StripAcc {
            value: without_ansi@,
            ranges: range_pairs(ansi_ranges@),
            maybe_csi,
            in_csi,
            range_start: range_start as int,
        };
        proof {
            assert(valid_first_scalar(rest));
            lemma_pop_suffix(all, index as int);
            assert(valid_utf8(pop_first_scalar(rest)));
            partial_valid_utf8_extend(all, index as int);
        }
        let (width, scalar) = decode_scalar_at(&bytes, index);
        let key = scalar;
        proof {
            assert(key as int == char_key(rest));
        }
        if key == 0x1b && !maybe_csi && !in_csi {
            maybe_csi = true;
            in_csi = false;
            range_start = index;
        } else if key == 0x5b && maybe_csi && !in_csi {
            maybe_csi = false;
            in_csi = true;
        } else if !maybe_csi && in_csi {
            if 0x40 <= key && key < 0x7e {
                in_csi = false;
                let ghost before = ansi_ranges@;
                ansi_ranges.push(range_start..index + 1);
                proof {
                    assert(range_pairs(ansi_ranges@) =~= range_pairs(before).push(
                        (range_start as int, index + 1),
                    ));
                }
            }
        } else {
            let ghost before = without_ansi@;
            let mut j = index;
            let end = index + width;
            while j < end
                invariant
                    end == index + width,
                    index <= j <= index + width <= all.len(),
                    all == bytes@,
                    without_ansi@ == before + all.subrange(index as int, j as int),
                decreases index + width - j,
            {
                without_ansi.push(bytes[j]);
                j = j + 1;
                proof {
                    assert(without_ansi@ =~= before + all.subrange(index as int, j as int));
                }
            }
            proof {
                assert(take_first_scalar(rest) =~= all.subrange(index as int, index + width));
                assert(valid_utf8(take_first_scalar(rest))) by {
                    reveal_with_fuel(valid_utf8, 2);
                }
                valid_utf8_concat(before, take_first_scalar(rest));
            }
        }
        proof {
            assert(strip_step(rest, index as int, acc) == StripAcc {
                value: without_ansi@,
                ranges: range_pairs(ansi_ranges@),
                maybe_csi,
                in_csi,
                range_start: range_start as int,
            });
        }
        index = index + width;
    }
    proof {
        assert(all.subrange(index as int, all.len() as int).len() == 0);
        assert(all.subrange(0, all.len() as int) =~= all);
    }
    AnsiStripped {
        value: without_ansi,
        original: bytes,
        ansi_ranges,
        has_incomplete: in_csi || maybe_csi,
    }
}

// ---------------------------------------------------------------------------
// Trailing newlines
// ---------------------------------------------------------------------------
/// A carriage return or a line feed.
pub open spec fn is_newline_byte(b: u8) -> bool {
    b == 0x0d || b == 0x0a
}

/// The largest index below `i` whose byte is not a newline byte, or -1.
pub open spec fn last_non_newline_before(bytes: Seq<u8>, i: int) -> int
    decreases i,
{
    if i <= 0 {
        -1
    } else if !is_newline_byte(bytes[i - 1]) {
        i - 1
    } else {
        last_non_newline_before(bytes, i - 1)
    }
}

/// How many bytes `trim_trailing_newlines` keeps: text that does not end in a
/// newline byte is kept whole; otherwise everything up to the last
/// non-newline byte, or nothing when every byte is a newline byte.
pub open spec fn trimmed_len(bytes: Seq<u8>) -> int {
    if bytes.len() == 0 || !is_newline_byte(bytes.last()) {
        bytes.len() as int
    } else {
        last_non_newline_before(bytes, bytes.len() - 1) + 1
    }
}

/// Trimming keeps a prefix.
pub proof fn lemma_trimmed_len_bound(bytes: Seq<u8>)
    ensures
        0 <= trimmed_len(bytes) <= bytes.len(),
{
    if bytes.len() > 0 {
        lemma_last_non_newline(bytes, bytes.len() - 1);
    }
}

proof fn lemma_last_non_newline(bytes: Seq<u8>, i: int)
    requires
        0 <= i <= bytes.len(),
    ensures
        -1 <= last_non_newline_before(bytes, i) < i,
        last_non_newline_before(bytes, i) >= 0 ==> !is_newline_byte(
            bytes[last_non_newline_before(bytes, i)],
        ),
        forall|j: int|
            last_non_newline_before(bytes, i) < j < i ==> is_newline_byte(#[trigger] bytes[j]),
    decreases i,
{
    if i > 0 && is_newline_byte(bytes[i - 1]) {
        lemma_last_non_newline(bytes, i - 1);
    }
}

/// Keeping a prefix that ends right before a newline byte keeps valid UTF-8.
proof fn lemma_prefix_before_ascii(bytes: Seq<u8>, n: int)
    requires
        valid_utf8(bytes),
        0 <= n < bytes.len(),
        is_leading_byte_width_1(bytes[n]),
    ensures
        valid_utf8(bytes.subrange(0, n)),
        valid_utf8(bytes.subrange(n, bytes.len() as int)),
{
    is_char_boundary_iff_is_leading_byte(bytes, n);
    valid_utf8_split(bytes, n);
}

// ---------------------------------------------------------------------------
// Ansi
// ---------------------------------------------------------------------------
/// Valid UTF-8 text that may hold ANSI sequences.  Its stripped form is
/// computed once and kept.
pub struct Ansi {
    bytes: Vec<u8>,
    stripped: Option<AnsiStripped>,
}

impl View for Ansi {
    type V = Seq<u8>;

    closed spec fn view(&self) -> Seq<u8> {
        self.bytes@
    }
}

impl Ansi {
    /// The bytes are valid UTF-8, and a kept stripped form is the stripping
    /// of the bytes.
    #[verifier::type_invariant]
    spec fn inv(self) -> bool {
        &&& valid_utf8(self.bytes@)
        &&& self.stripped matches Some(s) ==> s.wf() && s@.original == self.bytes@
    }

    /// Every `Ansi` holds valid UTF-8 (this call makes that known).
    pub fn note_valid(&self)
        ensures
            valid_utf8(self@),
    {
        proof {
            use_type_invariant(self);
        }
    }

    /// The empty text.
    pub fn empty() -> (r: Ansi)
        ensures
            r@ == Seq::<u8>::empty(),
    {
        Ansi { bytes: Vec::new(), stripped: None }
    }

    /// Text from valid UTF-8 bytes.
    pub fn from_valid_bytes(bytes: Vec<u8>) -> (r: Ansi)
        requires
            valid_utf8(bytes@),
        ensures
            r@ == bytes@,
    {
        Ansi { bytes, stripped: None }
    }

    /// Text from bytes; if they are not valid UTF-8 they go through the
    /// standard library's lossy decoding.
    pub fn from_lossy_bytes(bytes: Vec<u8>) -> (r: Ansi)
        ensures
            r@ == lossy_bytes(bytes@),
    {
        let count = valid_utf8_bytes_count(bytes.as_slice());
        if count == bytes.len() {
            Ansi { bytes, stripped: None }
        } else {
            let lossy = from_utf8_lossy(bytes.as_slice());
            let converted = string_bytes(lossy.as_str());
            Ansi { bytes: converted, stripped: None }
        }
    }

    /// The text of a string.
    pub fn from_str(s: &str) -> (r: Ansi)
        ensures
            r@ == encode_utf8(s@),
    {
        Ansi { bytes: string_bytes(s), stripped: None }
    }

    /// The text of a string.
    pub fn from_string(s: String) -> (r: Ansi)
        ensures
            r@ == encode_utf8(s@),
    {
        Ansi::from_str(s.as_str())
    }

    /// A copy of the bytes.
    pub fn as_bytes(&self) -> (r: Vec<u8>)
        ensures
            r@ == self@,
    {
        let r = self.bytes.clone();
        assert(r@ =~= self@);
        r
    }

    /// The bytes.
    pub fn into_inner(self) -> (r: Vec<u8>)
        ensures
            r@ == self@,
            valid_utf8(r@),
    {
        proof {
            use_type_invariant(&self);
        }
        self.bytes
    }

    /// The length in bytes.
    pub fn len(&self) -> (r: usize)
        ensures
            r == self@.len(),
    {
        self.bytes.len()
    }

    /// Whether the text is empty.
    pub fn is_empty(&self) -> (r: bool)
        ensures
            r == (self@.len() == 0),
    {
        self.bytes.len() == 0
    }

    /// The text as a `String`.
    pub fn to_string(&self) -> (r: String)
        ensures
            r@ == decode_utf8(self@),
            encode_utf8(r@) == self@,
    {
        proof {
            use_type_invariant(self);
        }
        bytes_to_string(&self.bytes)
    }

    /// A copy of this text (sharing nothing).
    pub fn duplicate(&self) -> (r: Ansi)
        ensures
            r@ == self@,
    {
        proof {
            use_type_invariant(self);
        }
        let bytes = self.as_bytes();
        Ansi { bytes, stripped: None }
    }

    /// The text without trailing newline bytes (see `trimmed_len`).
    pub fn trim_trailing_newlines(&self) -> (r: Ansi)
        ensures
            r@ == self@.subrange(0, trimmed_len(self@)),
    {
        proof {
            use_type_invariant(self);
        }
        let len = self.bytes.len();
        if len == 0 || !(self.bytes[len - 1] == 0x0d || self.bytes[len - 1] == 0x0a) {
            proof {
                assert(self@.subrange(0, trimmed_len(self@)) =~= self@);
            }
            return self.duplicate();
        }
        let end = len - 1;
        let mut i = end;
        proof {
            assert(self@.last() == self@[end as int]);
        }
        while i > 0
            invariant
                i <= end < len == self@.len(),
                end == len - 1,
                is_newline_byte(self@.last()),
                valid_utf8(self@),
                forall|j: int| i <= j < len ==> is_newline_byte(#[trigger] self@[j]),
                last_non_newline_before(self@, end as int) == last_non_newline_before(
                    self@,
                    i as int,
                ),
            decreases i,
        {
            let byte = self.bytes[i - 1];
            if byte != 0x0d && byte != 0x0a {
                proof {
                    lemma_prefix_before_ascii(self@, i as int);
                    assert(last_non_newline_before(self@, i as int) == i - 1);
                }
                let bytes = slice_bytes(&self.bytes, 0, i);
                return Ansi { bytes, stripped: None };
            }
            i = i - 1;
        }
        proof {
            assert(self@.subrange(0, trimmed_len(self@)) =~= Seq::<u8>::empty());
        }
        Ansi::empty()
    }

    /// The bytes of a range, which must fall on character boundaries.
    fn slice(&self, start: usize, end: usize) -> (r: Ansi)
        requires
            start <= end <= self@.len(),
            valid_utf8(self@.subrange(start as int, end as int)),
        ensures
            r@ == self@.subrange(start as int, end as int),
    {
        let bytes = slice_bytes(&self.bytes, start, end);
        Ansi { bytes, stripped: None }
    }

    /// The concatenation of two texts.
    pub fn add(self, rhs: Ansi) -> (r: Ansi)
        ensures
            r@ == self@ + rhs@,
    {
        proof {
            use_type_invariant(&self);
            use_type_invariant(&rhs);
        }
        if self.bytes.len() == 0 {
            assert(self@ + rhs@ =~= rhs@);
            rhs
        } else if rhs.bytes.len() == 0 {
            assert(self@ + rhs@ =~= self@);
            self
        } else {
            let mut bytes = self.bytes;
            let mut other = rhs.bytes;
            proof {
                valid_utf8_concat(bytes@, other@);
            }
            bytes.append(&mut other);
            Ansi { bytes, stripped: None }
        }
    }

    /// This text without the bytes that `match_range`, a range of the plain
    /// text of `stripped`, maps to; `stripped` is the stripped form of this
    /// text or of a text that it starts with.
    pub fn without_stripped_match_range(&self, stripped: &AnsiStripped, match_range: Range<usize>) -> (r: Ansi)
        requires
            stripped.wf(),
            match_range.start <= match_range.end,
            match_range.end + stripped@.original.len() <= usize::MAX,
            map_range(stripped@.ansi_ranges, match_range.start as int, match_range.end as int).1
                <= self@.len(),
        ensures
            ({
                let m = map_range(
                    stripped@.ansi_ranges,
                    match_range.start as int,
                    match_range.end as int,
                );
                r@ == lossy_bytes(self@.subrange(0, m.0)) + lossy_bytes(
                    self@.subrange(m.1, self@.len() as int),
                )
            }),
    {
        proof {
            use_type_invariant(self);
        }
        let consumed = stripped.get_original_range(match_range);
        let len = self.bytes.len();
        let before = Ansi::from_lossy_bytes(slice_bytes(&self.bytes, 0, consumed.start));
        let after = Ansi::from_lossy_bytes(slice_bytes(&self.bytes, consumed.end, len));
        before.add(after)
    }

    /// The text with its CSI sequences removed (computed once, then kept).
    pub fn strip_ansi(&mut self) -> (r: AnsiStripped)
        ensures
            final(self)@ == old(self)@,
            r@ == stripped_of(old(self)@),
            r.wf(),
    {
        proof {
            use_type_invariant(&*self);
        }
        match &self.stripped {
            Some(existing) => {
                proof {
                    assert(existing@.original == self.bytes@);
                }
                return existing.duplicate();
            },
            None => {},
        }
        let stripped = strip_ansi(self.as_bytes());
        self.stripped = Some(stripped.duplicate());
        stripped
    }
}

} // verus!

verus! {

// ---------------------------------------------------------------------------
// AnsiMut
// ---------------------------------------------------------------------------
/// The length of the longest valid UTF-8 prefix.
pub open spec fn utf8_prefix_len(bytes: Seq<u8>) -> int {
    choose|n: int| valid_prefix_len(bytes, n)
}

/// There is only one longest valid prefix.
pub proof fn lemma_utf8_prefix_len(bytes: Seq<u8>, n: int)
    requires
        valid_prefix_len(bytes, n),
    ensures
        utf8_prefix_len(bytes) == n,
        valid_prefix_len(bytes, utf8_prefix_len(bytes)),
{
    let m = utf8_prefix_len(bytes);
    assert(valid_prefix_len(bytes, m));
    if m < n {
        assert(!valid_utf8(bytes.subrange(0, n)));
    }
    if n < m {
        assert(!valid_utf8(bytes.subrange(0, m)));
    }
}

/// A line feed after the longest valid prefix: the bytes are taken as invalid
/// UTF-8 rather than an incomplete character.
pub open spec fn newline_after(bytes: Seq<u8>, from: int) -> bool {
    exists|j: int| from <= j < bytes.len() && bytes[j] == 0x0a
}

/// What `take` hands out: everything when the bytes are valid, everything
/// (decoded lossily) when a line feed follows the invalid part, and otherwise
/// only the valid prefix.
pub open spec fn take_taken(bytes: Seq<u8>) -> Seq<u8> {
    let cnt = utf8_prefix_len(bytes);
    if cnt == bytes.len() {
        bytes
    } else if newline_after(bytes, cnt) {
        encode_utf8(utf8_lossy(bytes))
    } else {
        bytes.subrange(0, cnt)
    }
}

/// What `take` leaves behind.
pub open spec fn take_kept(bytes: Seq<u8>) -> Seq<u8> {
    let cnt = utf8_prefix_len(bytes);
    if cnt == bytes.len() || newline_after(bytes, cnt) {
        Seq::empty()
    } else {
        bytes.subrange(cnt, bytes.len() as int)
    }
}

/// Whether the bytes end in the middle of something: an incomplete UTF-8
/// character (unless the first line feed comes after the valid prefix,
/// which marks invalid UTF-8 instead), or an unfinished escape sequence.
pub open spec fn incomplete_code(bytes: Seq<u8>) -> bool {
    let cnt = utf8_prefix_len(bytes);
    if cnt < bytes.len() {
        !(newline_after(bytes, cnt + 1) && forall|i: int| 0 <= i <= cnt ==> bytes[i] != 0x0a)
    } else {
        strip_incomplete(bytes)
    }
}

/// Bytes as they arrive; they may end inside a UTF-8 character or an escape
/// sequence, and may even be invalid.
pub struct AnsiMut {
    bytes: Vec<u8>,
}

impl View for AnsiMut {
    type V = Seq<u8>;

    closed spec fn view(&self) -> Seq<u8> {
        self.bytes@
    }
}

impl AnsiMut {
    /// No bytes.
    pub fn new() -> (r: AnsiMut)
        ensures
            r@ == Seq::<u8>::empty(),
    {
        AnsiMut { bytes: Vec::new() }
    }

    /// The given bytes.
    pub fn from_bytes(bytes: Vec<u8>) -> (r: AnsiMut)
        ensures
            r@ == bytes@,
    {
        AnsiMut { bytes }
    }

    /// The bytes of a string.
    pub fn from_str(s: &str) -> (r: AnsiMut)
        ensures
            r@ == encode_utf8(s@),
    {
        AnsiMut { bytes: string_bytes(s) }
    }

    /// The bytes.
    pub fn into_inner(self) -> (r: Vec<u8>)
        ensures
            r@ == self@,
    {
        self.bytes
    }

    /// The bytes.
    pub fn as_bytes(&self) -> (r: &Vec<u8>)
        ensures
            r@ == self@,
    {
        &self.bytes
    }

    /// The number of bytes.
    pub fn len(&self) -> (r: usize)
        ensures
            r == self@.len(),
    {
        self.bytes.len()
    }

    /// As much of the bytes as is valid UTF-8.  This may not be all of them:
    /// the end may be waiting for the rest of a character.
    pub fn valid_utf8(&self) -> (r: String)
        ensures
            r@ == decode_utf8(self@.subrange(0, utf8_prefix_len(self@))),
    {
        let cnt = valid_utf8_bytes_count(self.bytes.as_slice());
        proof {
            lemma_utf8_prefix_len(self@, cnt as int);
        }
        let prefix = slice_bytes(&self.bytes, 0, cnt);
        bytes_to_string(&prefix)
    }

    /// Appends bytes.
    pub fn put_slice(&mut self, bytes: &[u8])
        ensures
            final(self)@ == old(self)@ + bytes@,
    {
        let mut i: usize = 0;
        let ghost start = self.bytes@;
        while i < bytes.len()
            invariant
                i <= bytes@.len(),
                self.bytes@ == start + bytes@.subrange(0, i as int),
            decreases bytes@.len() - i,
        {
            self.bytes.push(bytes[i]);
            i = i + 1;
            proof {
                assert(self.bytes@ =~= start + bytes@.subrange(0, i as int));
            }
        }
        proof {
            assert(bytes@.subrange(0, i as int) =~= bytes@);
        }
    }

    /// Takes what can be handed on as text (see `take_taken` and
    /// `take_kept`).
    pub fn take(&mut self) -> (r: Ansi)
        ensures
            r@ == take_taken(old(self)@),
            final(self)@ == take_kept(old(self)@),
    {
        let cnt = valid_utf8_bytes_count(self.bytes.as_slice());
        let ghost old_bytes = self.bytes@;
        proof {
            lemma_utf8_prefix_len(self@, cnt as int);
        }
        if cnt == self.bytes.len() {
            proof {
                assert(old_bytes.subrange(0, cnt as int) =~= old_bytes);
            }
            let mut bytes = Vec::new();
            std::mem::swap(&mut bytes, &mut self.bytes);
            return Ansi::from_valid_bytes(bytes);
        }
        let mut has_newline = false;
        let mut j = cnt;
        while j < self.bytes.len()
            invariant
                cnt <= j <= self.bytes@.len(),
                self.bytes@ == old_bytes,
                has_newline == exists|k: int| cnt <= k < j && old_bytes[k] == 0x0a,
            decreases self.bytes@.len() - j,
        {
            if self.bytes[j] == 0x0a {
                has_newline = true;
            }
            j = j + 1;
        }
        if has_newline {
            let mut bytes = Vec::new();
            std::mem::swap(&mut bytes, &mut self.bytes);
            let lossy = from_utf8_lossy(bytes.as_slice());
            Ansi::from_valid_bytes(string_bytes(lossy.as_str()))
        } else {
            let mut taken = self.bytes.split_off(cnt);
            std::mem::swap(&mut taken, &mut self.bytes);
            Ansi::from_valid_bytes(taken)
        }
    }

    /// Removes the first `count` bytes and returns them.
    pub fn drop_leading_bytes(&mut self, count: usize) -> (r: Vec<u8>)
        requires
            count <= old(self)@.len(),
        ensures
            r@ == old(self)@.subrange(0, count as int),
            final(self)@ == old(self)@.subrange(count as int, old(self)@.len() as int),
    {
        let mut taken = self.bytes.split_off(count);
        std::mem::swap(&mut taken, &mut self.bytes);
        taken
    }

    /// Whether the bytes end inside a character or an escape sequence (see
    /// `incomplete_code`).
    pub fn has_incomplete_code(&self) -> (r: bool)
        ensures
            r == incomplete_code(self@),
    {
        let cnt = valid_utf8_bytes_count(self.bytes.as_slice());
        proof {
            lemma_utf8_prefix_len(self@, cnt as int);
        }
        if cnt < self.bytes.len() {
            let mut j: usize = 0;
            while j < self.bytes.len()
                invariant
                    j <= self.bytes@.len(),
                    cnt < self.bytes@.len(),
                    cnt == utf8_prefix_len(self@),
                    forall|i: int| 0 <= i < j ==> self.bytes@[i] != 0x0a,
                decreases self.bytes@.len() - j,
            {
                if self.bytes[j] == 0x0a {
                    // The first line feed: after the valid prefix means invalid bytes.
                    let r = !(j > cnt);
                    proof {
                        if j > cnt {
                            assert(newline_after(self@, cnt + 1));
                        } else {
                            assert(self@[j as int] == 0x0a);
                        }
                    }
                    return r;
                }
                j = j + 1;
            }
            return true;
        }
        proof {
            assert(self@.subrange(0, cnt as int) =~= self@);
        }
        let stripped = strip_ansi(self.bytes.clone());
        stripped.has_incomplete()
    }
}

} // verus!

verus! {

/// Trimming trailing newlines twice trims nothing more.
pub proof fn lemma_trim_idempotent(bytes: Seq<u8>)
    ensures
        trimmed_len(bytes.subrange(0, trimmed_len(bytes))) == trimmed_len(bytes),
{
    lemma_trimmed_len_bound(bytes);
    let t = bytes.subrange(0, trimmed_len(bytes));
    if t.len() < bytes.len() {
        lemma_last_non_newline(bytes, bytes.len() - 1);
        let k = last_non_newline_before(bytes, bytes.len() - 1);
        if k >= 0 {
            assert(t.last() == bytes[k]);
        } else {
            assert(t.len() == 0);
        }
    } else {
        assert(t =~= bytes);
    }
}

/// Valid UTF-8 is taken whole, and nothing stays behind.
pub proof fn lemma_take_valid(bytes: Seq<u8>)
    requires
        valid_utf8(bytes),
    ensures
        take_taken(bytes) == bytes,
        take_kept(bytes) == Seq::<u8>::empty(),
{
    assert(bytes.subrange(0, bytes.len() as int) =~= bytes);
    lemma_utf8_prefix_len(bytes, bytes.len() as int);
}

/// Valid UTF-8 text without an escape character strips to itself, removing
/// nothing: only escape sequences are taken out.
pub proof fn lemma_strip_without_escape(bytes: Seq<u8>)
    requires
        valid_utf8(bytes),
        forall|i: int| 0 <= i < bytes.len() ==> #[trigger] bytes[i] != 0x1b,
    ensures
        strip_spec(bytes).value == bytes,
        strip_spec(bytes).ranges == Seq::<(int, int)>::empty(),
        !strip_incomplete(bytes),
{
    lemma_strip_run_no_escape(bytes, 0, strip_start());
    assert(Seq::<u8>::empty() + bytes =~= bytes);
}

/// The first character of valid text is an escape exactly when its first
/// byte is.
proof fn lemma_escape_key(rest: Seq<u8>)
    requires
        rest.len() > 0,
        valid_first_scalar(rest),
        rest[0] != 0x1b,
    ensures
        char_key(rest) != 0x1b,
{
    let b = rest[0];
    if is_leading_byte_width_1(b) {
        assert(b & 0x7f == b) by (bit_vector)
            requires
                b <= 0x7f,
        ;
    }
}

proof fn lemma_strip_run_no_escape(rest: Seq<u8>, index: int, acc: StripAcc)
    requires
        valid_utf8(rest),
        forall|i: int| 0 <= i < rest.len() ==> #[trigger] rest[i] != 0x1b,
        !acc.maybe_csi,
        !acc.in_csi,
    ensures
        strip_run(rest, index, acc).value == acc.value + rest,
        strip_run(rest, index, acc).ranges == acc.ranges,
        !strip_run(rest, index, acc).maybe_csi,
        !strip_run(rest, index, acc).in_csi,
    decreases rest.len(),
{
    if rest.len() > 0 {
        assert(valid_first_scalar(rest));
        lemma_escape_key(rest);
        let next = strip_step(rest, index, acc);
        let head = take_first_scalar(rest);
        let tail = pop_first_scalar(rest);
        assert(next.value == acc.value + head);
        assert forall|i: int| 0 <= i < tail.len() implies #[trigger] tail[i] != 0x1b by {
            assert(tail[i] == rest[i + length_of_first_scalar(rest)]);
        }
        assert(tail.len() < rest.len());
        lemma_strip_run_no_escape(tail, index + length_of_first_scalar(rest), next);
        assert(head + tail =~= rest);
        assert(acc.value + head + tail =~= acc.value + rest);
    } else {
        assert(acc.value + rest =~= acc.value);
    }
}

} // verus!
