//! The boundary to the regular-expression engine, and the step from the byte
//! offsets that it reports to positions counted in characters.

use regex::Regex;
use vstd::prelude::*;
use vstd::string::StrSliceExecFns;
use vstd::utf8::{
    decode_utf8, decode_utf8_split, encode_utf8, encode_utf8_decode_utf8,
    encode_utf8_valid_utf8, is_char_boundary, is_char_boundary_iff_not_is_continuation_byte,
    is_char_boundary_start_end_of_seq, valid_utf8, valid_utf8_split,
};

verus! {

/// `regex::Regex`, a compiled regular expression. Nothing is known of what
/// one holds.
#[verifier::external_type_specification]
#[verifier::external_body]
pub struct ExRegex(Regex);

/// A regular expression that the engine has accepted: the text of the
/// pattern, and what the engine has compiled it to.
pub struct Matcher {
    source: String,
    regex: Regex,
}

impl View for Matcher {
    type V = Seq<char>;

    /// The text of the pattern.
    closed spec fn view(&self) -> Seq<char> {
        self.source@
    }
}

/// Whether the engine accepts `pattern`.
pub uninterp spec fn regex_compiles(pattern: Seq<char>) -> bool;

/// The successive non-overlapping matches of `pattern` in `text`, each as the
/// byte offsets of its start and its end in the UTF-8 form of `text`.
pub uninterp spec fn regex_matches(pattern: Seq<char>, text: Seq<char>) -> Seq<(usize, usize)>;

/// `text` with every match of `pattern` replaced by `replacement`, in which
/// `$` refers to the groups of the match.
pub uninterp spec fn regex_replaced(
    pattern: Seq<char>,
    text: Seq<char>,
    replacement: Seq<char>,
) -> Seq<char>;

/// Whether `matches` are byte ranges of `text` that the engine may report:
/// each starts no later than it ends, both ends lie on character boundaries,
/// and each match ends before the next one starts.
pub open spec fn matches_in_order(text: Seq<char>, matches: Seq<(usize, usize)>) -> bool {
    &&& forall|i: int|
        0 <= i < matches.len() ==> {
            &&& (#[trigger] matches[i]).0 <= matches[i].1
            &&& is_char_boundary(encode_utf8(text), matches[i].0 as int)
            &&& is_char_boundary(encode_utf8(text), matches[i].1 as int)
        }
    &&& forall|i: int, j: int|
        0 <= i < j < matches.len() ==> (#[trigger] matches[i]).1 <= (#[trigger] matches[j]).0
}

/// `Regex::new`, the compiled expression kept together with its pattern.
#[verifier::external_body]
pub(crate) fn compile(pattern: &str) -> (res: Option<Matcher>)
    ensures
        res is Some <==> regex_compiles(pattern@),
        res matches Some(matcher) ==> matcher@ == pattern@,
{
    Regex::new(pattern).ok().map(|regex| Matcher { source: pattern.to_string(), regex })
}

/// `Regex::find_iter`, start and end of each match. The documentation of
/// `Match` promises the order of the two offsets and that both fall on
/// character boundaries; that of `find_iter`, that the matches are successive
/// and do not overlap.
#[verifier::external_body]
pub(crate) fn find_all(matcher: &Matcher, text: &str) -> (res: Vec<(usize, usize)>)
    ensures
        res@ == regex_matches(matcher@, text@),
        matches_in_order(text@, res@),
{
    matcher.regex.find_iter(text).map(|m| (m.start(), m.end())).collect()
}

/// `Regex::is_match`: whether there is a match anywhere in `text`.
#[verifier::external_body]
pub(crate) fn is_match(matcher: &Matcher, text: &str) -> (res: bool)
    ensures
        res == (regex_matches(matcher@, text@).len() > 0),
{
    matcher.regex.is_match(text)
}

/// `Regex::replace_all`. Where nothing matches, the text comes back unchanged.
#[verifier::external_body]
pub(crate) fn replace_all(matcher: &Matcher, text: &str, replacement: &str) -> (res: String)
    ensures
        res@ == regex_replaced(matcher@, text@, replacement@),
        regex_matches(matcher@, text@).len() == 0 ==> res@ == text@,
{
    matcher.regex.replace_all(text, replacement).into_owned()
}

impl Matcher {
    /// Compiles the regular expression `pattern`, where the engine accepts it.
    pub fn new(pattern: &str) -> (res: Option<Matcher>)
        ensures
            res is Some <==> regex_compiles(pattern@),
            res matches Some(matcher) ==> matcher@ == pattern@,
    {
        compile(pattern)
    }
}

/// A stretch of a text: the positions `start` up to, not including, `end`,
/// counted in characters.
#[derive(Clone, Copy, Debug, PartialEq, Eq, Structural)]
pub struct Span {
    pub start: usize,
    pub end: usize,
}

/// The number of characters of `text` that lie before byte offset `offset` of its UTF-8 form.
pub open spec fn chars_before(text: Seq<char>, offset: int) -> nat {
    decode_utf8(encode_utf8(text).subrange(0, offset)).len()
}

/// The byte range `m` of `text` as a stretch of characters.
pub open spec fn char_span(text: Seq<char>, m: (usize, usize)) -> Span {
    Span {
        start: chars_before(text, m.0 as int) as usize,
        end: chars_before(text, m.1 as int) as usize,
    }
}

/// The byte ranges `matches` of `text` as stretches of characters.
pub open spec fn char_spans(text: Seq<char>, matches: Seq<(usize, usize)>) -> Seq<Span> {
    Seq::new(matches.len(), |i: int| char_span(text, matches[i]))
}

/// Whether `spans` lie within a text of `len` characters, none reversed, each
/// ending before the next one starts.
pub open spec fn spans_in_order(spans: Seq<Span>, len: nat) -> bool {
    &&& forall|i: int|
        0 <= i < spans.len() ==> (#[trigger] spans[i]).start <= spans[i].end <= len
    &&& forall|i: int, j: int|
        0 <= i < j < spans.len() ==> (#[trigger] spans[i]).end <= (#[trigger] spans[j]).start
}

/// A character boundary of a text splits it: the characters before the
/// boundary and those after it make up the text.
pub proof fn lemma_chars_before_bounds(text: Seq<char>, offset: int)
    requires
        is_char_boundary(encode_utf8(text), offset),
    ensures
        chars_before(text, offset) <= text.len(),
        0 <= offset <= encode_utf8(text).len(),
{
    let bytes = encode_utf8(text);
    encode_utf8_valid_utf8(text);
    encode_utf8_decode_utf8(text);
    lemma_boundary_in_range(bytes, offset);
    decode_utf8_split(bytes, offset);
}

/// A character boundary lies within the bytes.
proof fn lemma_boundary_in_range(bytes: Seq<u8>, offset: int)
    requires
        valid_utf8(bytes),
        is_char_boundary(bytes, offset),
    ensures
        0 <= offset <= bytes.len(),
    decreases bytes.len(),
{
    if offset != 0 {
        reveal_with_fuel(is_char_boundary, 2);
        if bytes.len() > 0 {
            lemma_boundary_in_range(
                vstd::utf8::pop_first_scalar(bytes),
                offset - vstd::utf8::length_of_first_scalar(bytes),
            );
        }
    }
}

/// Of two character boundaries, the earlier one has no more characters before it.
pub proof fn lemma_chars_before_monotone(text: Seq<char>, a: int, b: int)
    requires
        is_char_boundary(encode_utf8(text), a),
        is_char_boundary(encode_utf8(text), b),
        a <= b,
    ensures
        chars_before(text, a) <= chars_before(text, b),
{
    let bytes = encode_utf8(text);
    encode_utf8_valid_utf8(text);
    lemma_boundary_in_range(bytes, a);
    lemma_boundary_in_range(bytes, b);
    let head = bytes.subrange(0, b);
    valid_utf8_split(bytes, b);
    if a < b {
        is_char_boundary_iff_not_is_continuation_byte(bytes, a);
        is_char_boundary_iff_not_is_continuation_byte(head, a);
    } else {
        is_char_boundary_start_end_of_seq(head);
    }
    decode_utf8_split(head, a);
    assert(head.subrange(0, a) =~= bytes.subrange(0, a));
}

/// Counts the characters of `text` that lie before byte offset `offset`.
pub fn char_offset(text: &str, offset: usize) -> (n: usize)
    requires
        is_char_boundary(encode_utf8(text@), offset as int),
    ensures
        n == chars_before(text@, offset as int),
        n <= text@.len(),
{
    let (left, _right) = text.split_at(offset);
    proof {
        encode_utf8_decode_utf8(left@);
        lemma_chars_before_bounds(text@, offset as int);
    }
    left.unicode_len()
}

/// Turns the byte ranges `matches` of `text` into stretches of characters.
pub fn to_char_spans(text: &str, matches: &Vec<(usize, usize)>) -> (res: Vec<Span>)
    requires
        matches_in_order(text@, matches@),
    ensures
        res@ == char_spans(text@, matches@),
        spans_in_order(res@, text@.len()),
{
    let mut res: Vec<Span> = Vec::new();
    let mut i: usize = 0;
    while i < matches.len()
        invariant
            i <= matches.len(),
            matches_in_order(text@, matches@),
            res@ == char_spans(text@, matches@.take(i as int)),
        decreases matches.len() - i,
    {
        let m = matches[i];
        let start = char_offset(text, m.0);
        let end = char_offset(text, m.1);
        res.push(Span { start, end });
        i += 1;
        assert(res@ =~= char_spans(text@, matches@.take(i as int)));
    }
    assert(matches@.take(matches.len() as int) =~= matches@);
    proof {
        lemma_char_spans_in_order(text@, matches@);
    }
    res
}

/// Byte ranges that the engine may report are, counted in characters,
/// stretches of the text in order.
pub proof fn lemma_char_spans_in_order(text: Seq<char>, matches: Seq<(usize, usize)>)
    requires
        matches_in_order(text, matches),
    ensures
        spans_in_order(char_spans(text, matches), text.len()),
{
    let spans = char_spans(text, matches);
    assert forall|i: int| 0 <= i < spans.len() implies (#[trigger] spans[i]).start <= spans[i].end
        <= text.len() by {
        lemma_chars_before_monotone(text, matches[i].0 as int, matches[i].1 as int);
        lemma_chars_before_bounds(text, matches[i].1 as int);
        lemma_chars_before_bounds(text, matches[i].0 as int);
        lemma_text_len_fits(text, matches[i].1 as int);
    }
    assert forall|i: int, j: int| 0 <= i < j < spans.len() implies (#[trigger] spans[i]).end <= (
    #[trigger] spans[j]).start by {
        lemma_chars_before_monotone(text, matches[i].1 as int, matches[j].0 as int);
        lemma_chars_before_bounds(text, matches[i].1 as int);
        lemma_chars_before_bounds(text, matches[j].0 as int);
        lemma_text_len_fits(text, matches[i].1 as int);
        lemma_text_len_fits(text, matches[j].0 as int);
    }
}

/// No more characters lie before a byte offset than bytes.
proof fn lemma_text_len_fits(text: Seq<char>, offset: int)
    requires
        is_char_boundary(encode_utf8(text), offset),
    ensures
        chars_before(text, offset) <= offset,
{
    let bytes = encode_utf8(text);
    encode_utf8_valid_utf8(text);
    lemma_boundary_in_range(bytes, offset);
    valid_utf8_split(bytes, offset);
    lemma_decode_len(bytes.subrange(0, offset));
}

/// Decoding gives no more characters than there are bytes.
proof fn lemma_decode_len(bytes: Seq<u8>)
    requires
        valid_utf8(bytes),
    ensures
        decode_utf8(bytes).len() <= bytes.len(),
    decreases bytes.len(),
{
    if bytes.len() > 0 {
        let rest = vstd::utf8::pop_first_scalar(bytes);
        lemma_decode_len(rest);
        assert(vstd::utf8::length_of_first_scalar(bytes) >= 1);
    }
}

} // verus!
