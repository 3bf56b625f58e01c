//! Byte-level UTF-8 helpers shared by the ANSI-aware text types.
use vstd::prelude::*;
use vstd::utf8::*;

verus! {

/// The number of leading bytes of `bytes` that form valid UTF-8: the longest
/// prefix that decodes.
pub open spec fn valid_prefix_len(bytes: Seq<u8>, n: int) -> bool {
    &&& 0 <= n <= bytes.len()
    &&& valid_utf8(bytes.subrange(0, n))
    &&& forall|k: int| n < k <= bytes.len() ==> !#[trigger] valid_utf8(bytes.subrange(0, k))
}

/// Runs `std::str::from_utf8` on `bytes` and reports how far it decoded.
/// The standard library documents that `Ok` means the whole input is valid
/// UTF-8, and that `Utf8Error::valid_up_to` is the largest index such that
/// the prefix up to it is valid; this contract states exactly that.
#[verifier::external_body]
pub(crate) fn utf8_valid_up_to(bytes: &[u8]) -> (r: usize)
    ensures
        valid_prefix_len(bytes@, r as int),
{
    match std::str::from_utf8(bytes) {
        Ok(_) => bytes.len(),
        Err(error) => error.valid_up_to(),
    }
}

/// Counts how many leading bytes of `bytes` are valid UTF-8.
pub fn valid_utf8_bytes_count(bytes: &[u8]) -> (r: usize)
    ensures
        valid_prefix_len(bytes@, r as int),
        valid_utf8(bytes@) <==> r == bytes@.len(),
{
    let r = utf8_valid_up_to(bytes);
    proof {
        assert(bytes@.subrange(0, bytes@.len() as int) =~= bytes@);
    }
    r
}

/// What `String::from_utf8_lossy` returns for `bytes`: the standard library
/// replaces each maximal invalid sequence with U+FFFD.
pub uninterp spec fn utf8_lossy(bytes: Seq<u8>) -> Seq<char>;

/// Calls `String::from_utf8_lossy`; its result depends only on the bytes, so
/// it is named by `utf8_lossy`.  The standard library also documents that the
/// result is a `String`, whose bytes are therefore valid UTF-8, and that a
/// valid input comes back unchanged.
#[verifier::external_body]
pub(crate) fn from_utf8_lossy(bytes: &[u8]) -> (r: String)
    ensures
        r@ == utf8_lossy(bytes@),
        valid_utf8(bytes@) ==> r@ == decode_utf8(bytes@),
{
    String::from_utf8_lossy(bytes).to_string()
}

/// Calls `String::from_utf8`, which succeeds exactly on valid UTF-8 and then
/// holds the decoded characters.
#[verifier::external_body]
pub(crate) fn string_from_utf8(bytes: Vec<u8>) -> (r: Option<String>)
    ensures
        r is Some <==> valid_utf8(bytes@),
        r matches Some(s) ==> s@ == decode_utf8(bytes@),
{
    String::from_utf8(bytes).ok()
}

/// The bytes of a string.
pub fn string_bytes(s: &str) -> (r: Vec<u8>)
    ensures
        r@ == encode_utf8(s@),
        valid_utf8(r@),
        decode_utf8(r@) == s@,
{
    proof {
        encode_utf8_valid_utf8(s@);
        encode_utf8_decode_utf8(s@);
    }
    vstd::slice::slice_to_vec(s.as_bytes())
}

/// Turns valid UTF-8 bytes back into a `String`.
pub fn bytes_to_string(bytes: &Vec<u8>) -> (r: String)
    requires
        valid_utf8(bytes@),
    ensures
        r@ == decode_utf8(bytes@),
        encode_utf8(r@) == bytes@,
{
    proof {
        decode_utf8_encode_utf8(bytes@);
    }
    match string_from_utf8(bytes.clone()) {
        Some(s) => s,
        None => {
            proof {
                assert(false);
            }
            String::new()
        },
    }
}

/// The width of the encoding that starts at `bytes[i]`, and the scalar it
/// encodes.
pub fn decode_scalar_at(bytes: &[u8], i: usize) -> (r: (usize, u32))
    requires
        i < bytes@.len(),
        valid_first_scalar(bytes@.subrange(i as int, bytes@.len() as int)),
    ensures
        r.0 as int == length_of_first_scalar(bytes@.subrange(i as int, bytes@.len() as int)),
        r.1 == decode_first_scalar(bytes@.subrange(i as int, bytes@.len() as int)),
        1 <= r.0 <= 4,
        i + r.0 <= bytes@.len(),
{
    let ghost rest = bytes@.subrange(i as int, bytes@.len() as int);
    let b0 = bytes[i];
    assert(rest[0] == b0);
    if b0 <= 0x7f {
        (1, (b0 & 0x7F) as u32)
    } else if 0xc0 <= b0 && b0 <= 0xdf {
        assert(rest[1] == bytes@[i + 1]);
        let b1 = bytes[i + 1];
        (2, (((b0 & 0x1F) as u32) << 6) | ((b1 & 0x3f) as u32))
    } else if 0xe0 <= b0 && b0 <= 0xef {
        assert(rest[1] == bytes@[i + 1]);
        assert(rest[2] == bytes@[i + 2]);
        let b1 = bytes[i + 1];
        let b2 = bytes[i + 2];
        (3, (((b0 & 0x0F) as u32) << 12) | (((b1 & 0x3f) as u32) << 6) | ((b2 & 0x3f) as u32))
    } else {
        assert(rest[1] == bytes@[i + 1]);
        assert(rest[2] == bytes@[i + 2]);
        assert(rest[3] == bytes@[i + 3]);
        let b1 = bytes[i + 1];
        let b2 = bytes[i + 2];
        let b3 = bytes[i + 3];
        (
            4,
            (((b0 & 0x07) as u32) << 18) | (((b1 & 0x3f) as u32) << 12) | (((b2 & 0x3f) as u32)
                << 6) | ((b3 & 0x3f) as u32),
        )
    }
}

/// Popping the first scalar of a suffix gives the next suffix.
pub proof fn lemma_pop_suffix(bytes: Seq<u8>, i: int)
    requires
        0 <= i < bytes.len(),
        valid_first_scalar(bytes.subrange(i, bytes.len() as int)),
    ensures
        pop_first_scalar(bytes.subrange(i, bytes.len() as int)) =~= bytes.subrange(
            i + length_of_first_scalar(bytes.subrange(i, bytes.len() as int)),
            bytes.len() as int,
        ),
        take_first_scalar(bytes.subrange(i, bytes.len() as int)) =~= bytes.subrange(
            i,
            i + length_of_first_scalar(bytes.subrange(i, bytes.len() as int)),
        ),
        1 <= length_of_first_scalar(bytes.subrange(i, bytes.len() as int)) <= 4,
        i + length_of_first_scalar(bytes.subrange(i, bytes.len() as int)) <= bytes.len(),
{
}


/// The characters with the Unicode `White_Space` property, which
/// `char::is_whitespace` and `str::trim` go by.
pub open spec fn is_whitespace_scalar(c: u32) -> bool {
    (0x09 <= c <= 0x0d) || c == 0x20 || c == 0x85 || c == 0xa0 || c == 0x1680 || (0x2000 <= c
        <= 0x200a) || c == 0x2028 || c == 0x2029 || c == 0x202f || c == 0x205f || c == 0x3000
}

/// Every character of `chars` is whitespace: what `str::trim` leaves empty.
pub open spec fn all_whitespace(chars: Seq<char>) -> bool {
    forall|i: int| 0 <= i < chars.len() ==> is_whitespace_scalar(#[trigger] chars[i] as u32)
}

/// `r` is `s` without its leading and trailing whitespace.
pub open spec fn is_trim_of(s: Seq<char>, r: Seq<char>) -> bool {
    exists|a: int, b: int|
        #![trigger s.subrange(a, b)]
        0 <= a <= b <= s.len() && r == s.subrange(a, b) && (forall|i: int|
            0 <= i < a ==> is_whitespace_scalar(#[trigger] s[i] as u32)) && (forall|i: int|
            b <= i < s.len() ==> is_whitespace_scalar(#[trigger] s[i] as u32)) && (a < b
            ==> !is_whitespace_scalar(s[a] as u32) && !is_whitespace_scalar(s[b - 1] as u32))
}

/// Calls `str::trim`, which the standard library documents as removing the
/// leading and trailing characters with the `White_Space` property.
#[verifier::external_body]
pub(crate) fn str_trim(s: &str) -> (r: &str)
    ensures
        is_trim_of(s@, r@),
{
    s.trim()
}

/// Whether a text is nothing but whitespace, as `s.trim().is_empty()`.
pub fn is_blank(s: &str) -> (r: bool)
    ensures
        r == all_whitespace(s@),
{
    let t = str_trim(s);
    let r = t.is_empty();
    proof {
        let (a, b) = choose|a: int, b: int|
            #![trigger s@.subrange(a, b)]
            0 <= a <= b <= s@.len() && t@ == s@.subrange(a, b) && (forall|i: int|
                0 <= i < a ==> is_whitespace_scalar(#[trigger] s@[i] as u32)) && (forall|i: int|
                b <= i < s@.len() ==> is_whitespace_scalar(#[trigger] s@[i] as u32)) && (a < b
                ==> !is_whitespace_scalar(s@[a] as u32) && !is_whitespace_scalar(s@[b - 1] as u32));
        if r {
            assert forall|i: int| 0 <= i < s@.len() implies is_whitespace_scalar(
                #[trigger] s@[i] as u32,
            ) by {
                if i >= a {
                    assert(i >= b);
                }
            }
        }
        if all_whitespace(s@) && a < b {
            assert(is_whitespace_scalar(s@[a] as u32));
        }
    }
    r
}

} // verus!

verus! {

/// The characters of a string.
pub fn chars_of(s: &str) -> (r: Vec<char>)
    ensures
        r@ == s@,
{
    let mut r: Vec<char> = Vec::new();
    for c in it: s.chars()
        invariant
            r@ == it.seq().take(it.index() as int),
    {
        r.push(c);
    }
    r
}


/// What `str::to_lowercase` returns for a text: the Unicode lowercase
/// mapping of each character.
pub uninterp spec fn lowercase(s: Seq<char>) -> Seq<char>;

/// Calls `str::to_lowercase`; its result depends on the text alone.
#[verifier::external_body]
pub(crate) fn str_to_lowercase(s: &str) -> (r: String)
    ensures
        r@ == lowercase(s@),
{
    s.to_lowercase()
}

/// Calls `String::from_iter` on characters, which collects them in order.
#[verifier::external_body]
pub(crate) fn string_from_chars(chars: &Vec<char>) -> (r: String)
    ensures
        r@ == chars@,
{
    chars.iter().collect()
}


/// The words of a text: its maximal runs of characters that are not
/// whitespace, in order.
pub open spec fn whitespace_words(s: Seq<char>) -> Seq<Seq<char>>
    decreases s.len(),
{
    if s.len() == 0 {
        Seq::empty()
    } else {
        let prev = whitespace_words(s.drop_last());
        let c = s.last();
        if is_whitespace_scalar(c as u32) {
            prev
        } else if s.len() >= 2 && !is_whitespace_scalar(s[s.len() - 2] as u32) {
            prev.update(prev.len() - 1, prev.last().push(c))
        } else {
            prev.push(seq![c])
        }
    }
}

/// Calls `str::split_whitespace`, which the standard library documents as
/// giving the sub-slices separated by any amount of `White_Space`
/// characters, without empty ones.
#[verifier::external_body]
pub(crate) fn split_whitespace(s: &str) -> (r: Vec<String>)
    ensures
        r@.map_values(|w: String| w@) == whitespace_words(s@),
{
    s.split_whitespace().map(|w| w.to_string()).collect()
}

} // verus!
