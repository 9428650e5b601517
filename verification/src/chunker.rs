//! Cutting text into chunks with the compiled pattern.
//!
//! The pattern engine is `fancy_regex`. What it computes is not proved here:
//! the two functions that call it carry contracts that are taken on trust,
//! and everything after the call is verified against them.

use crate::merge::{chunk_views, symbols_below, TokenId, BASE_TOKENS};
use fancy_regex::Regex;
use vstd::prelude::*;
use vstd::string::*;

verus! {

/// The pattern that cuts text into chunks: contractions, runs of letters,
/// runs of one to three digits, runs of other symbols with the line breaks
/// that follow them, and white space.
pub const GPT4_PATTERN: &'static str =
    r"'(?i:[sdmt]|ll|ve|re)|[^\r\n\p{L}\p{N}]?+\p{L}+|\p{N}{1,3}| ?[^\s\p{L}\p{N}]++[\r\n]*|\s*[\r\n]|\s+(?!\S)|\s+";

/// A compiled pattern of `fancy_regex`, carried through as an opaque value.
#[verifier::external_type_specification]
#[verifier::external_body]
pub struct ExRegex(fancy_regex::Regex);

/// The error type of `fancy_regex`, opaque as well.
#[verifier::external_type_specification]
#[verifier::external_body]
pub struct ExRegexError(fancy_regex::Error);

/// Whether `fancy_regex` accepts `pattern`.
pub uninterp spec fn pattern_compiles(pattern: Seq<char>) -> bool;

/// The pattern text that a compiled value was made from, which
/// `fancy_regex::Regex::as_str` gives back.
pub uninterp spec fn regex_source(re: Regex) -> Seq<char>;

/// The byte spans `(start, end)` of the successive matches of `re` in
/// `text`, or `None` when the engine gives up during the scan.
pub uninterp spec fn match_spans(re: Regex, text: Seq<char>) -> Option<Seq<(usize, usize)>>;

/// Every span lies inside a text of `len` bytes.
pub open spec fn spans_within(spans: Seq<(usize, usize)>, len: nat) -> bool {
    forall|i: int|
        0 <= i < spans.len() ==> (#[trigger] spans[i]).0 <= spans[i].1 && spans[i].1 <= len
}

/// Calls `fancy_regex::Regex::new`.
///
/// Trusted: compiling succeeds or fails by the pattern alone, and the
/// compiled value keeps the pattern text it was made from.
#[verifier::external_body]
pub(crate) fn compile_pattern(pattern: &str) -> (compiled: Result<Regex, fancy_regex::Error>)
    ensures
        compiled is Ok <==> pattern_compiles(pattern@),
        compiled matches Ok(re) ==> regex_source(re) == pattern@,
{
    Regex::new(pattern)
}

/// Calls `fancy_regex::Regex::find_iter` and reads `start()` and `end()` of
/// every match, up to the first error.
///
/// Only a value compiled from the default pattern is admitted. The engine
/// can fail abruptly on patterns with a back reference, a word boundary or
/// a look-behind; the default pattern has none of them.
///
/// Trusted: for such a value the call returns, the outcome is determined by
/// the compiled value and the text, and every match lies within the text,
/// its start not after its end. Nothing is claimed of the order of the
/// matches or of what they leave out.
#[verifier::external_body]
pub(crate) fn find_spans(re: &Regex, text: &str) -> (found: Result<
    Vec<(usize, usize)>,
    fancy_regex::Error,
>)
    requires
        regex_source(*re) == GPT4_PATTERN@,
    ensures
        match found {
            Ok(spans) => match_spans(*re, text@) == Some(spans@) && spans_within(
                spans@,
                text.spec_bytes().len(),
            ),
            Err(_) => match_spans(*re, text@) is None,
        },
{
    let mut spans = Vec::new();
    for found in re.find_iter(text) {
        match found {
            Ok(m) => spans.push((m.start(), m.end())),
            Err(e) => return Err(e),
        }
    }
    Ok(spans)
}

/// The byte strings that a list of chunks holds.
pub open spec fn byte_views(chunks: Seq<Vec<u8>>) -> Seq<Seq<u8>> {
    chunks.map_values(|chunk: Vec<u8>| chunk@)
}

/// The parts of `bytes` that `spans` name, in the order of the spans.
pub open spec fn cut(bytes: Seq<u8>, spans: Seq<(usize, usize)>) -> Seq<Seq<u8>> {
    spans.map_values(|span: (usize, usize)| bytes.subrange(span.0 as int, span.1 as int))
}

/// The symbols that a chunk starts as: one per byte, the byte's value.
pub open spec fn symbols_of(bytes: Seq<u8>) -> Seq<TokenId> {
    bytes.map_values(|byte: u8| byte as TokenId)
}

/// The symbols that every chunk of a list starts as.
pub open spec fn symbols_of_all(chunks: Seq<Seq<u8>>) -> Seq<Seq<TokenId>> {
    chunks.map_values(|chunk: Seq<u8>| symbols_of(chunk))
}

/// The symbols that chunks start as are raw bytes: all below 256.
pub proof fn lemma_symbols_are_bytes(chunks: Seq<Seq<u8>>)
    ensures
        forall|c: int|
            0 <= c < chunks.len() ==> symbols_below(
                #[trigger] symbols_of_all(chunks)[c],
                BASE_TOKENS as int,
            ),
{
}

/// Copies out of `bytes` the chunk that each span names.
pub fn cut_chunks(bytes: &[u8], spans: &Vec<(usize, usize)>) -> (chunks: Vec<Vec<u8>>)
    requires
        spans_within(spans@, bytes@.len()),
    ensures
        byte_views(chunks@) == cut(bytes@, spans@),
{
    let mut chunks: Vec<Vec<u8>> = Vec::new();
    let mut s: usize = 0;
    while s < spans.len()
        invariant
            s <= spans.len(),
            chunks.len() == s,
            spans_within(spans@, bytes@.len()),
            byte_views(chunks@) == cut(bytes@, spans@.take(s as int)),
        decreases spans.len() - s,
    {
        let (start, end) = spans[s];
        let ghost before = chunks@;
        assert(spans@[s as int].0 <= spans@[s as int].1 && spans@[s as int].1 <= bytes@.len());
        let mut chunk: Vec<u8> = Vec::new();
        let mut i: usize = start;
        while i < end
            invariant
                start <= i <= end <= bytes@.len(),
                chunk@ == bytes@.subrange(start as int, i as int),
            decreases end - i,
        {
            chunk.push(bytes[i]);
            i += 1;
        }
        chunks.push(chunk);
        s += 1;
        proof {
            let now = byte_views(chunks@);
            let goal = cut(bytes@, spans@.take(s as int));
            assert(now.len() == goal.len());
            assert forall|j: int| 0 <= j < now.len() implies now[j] == goal[j] by {
                if j < s - 1 {
                    assert(chunks@[j] == before[j]);
                    assert(byte_views(before)[j] == cut(bytes@, spans@.take(s - 1))[j]);
                    assert(spans@.take(s - 1)[j] == spans@.take(s as int)[j]);
                }
            }
            assert(now =~= goal);
        }
    }
    assert(spans@.take(s as int) == spans@);
    chunks
}

/// The symbols of one chunk: every byte as a token id.
pub fn to_symbols(bytes: &[u8]) -> (symbols: Vec<TokenId>)
    ensures
        symbols@ == symbols_of(bytes@),
{
    let mut symbols: Vec<TokenId> = Vec::new();
    let mut i: usize = 0;
    while i < bytes.len()
        invariant
            i <= bytes.len(),
            symbols@ == symbols_of(bytes@.take(i as int)),
        decreases bytes.len() - i,
    {
        symbols.push(bytes[i] as TokenId);
        i += 1;
        assert(symbols@ =~= symbols_of(bytes@.take(i as int)));
    }
    assert(bytes@.take(i as int) == bytes@);
    symbols
}

/// The symbols of every chunk.
pub fn to_symbols_all(chunks: &Vec<Vec<u8>>) -> (all: Vec<Vec<TokenId>>)
    ensures
        chunk_views(all@) == symbols_of_all(byte_views(chunks@)),
{
    let mut all: Vec<Vec<TokenId>> = Vec::new();
    let mut c: usize = 0;
    while c < chunks.len()
        invariant
            c <= chunks.len(),
            all.len() == c,
            chunk_views(all@) == symbols_of_all(byte_views(chunks@).take(c as int)),
        decreases chunks.len() - c,
    {
        let ghost before = all@;
        let symbols = to_symbols(chunks[c].as_slice());
        all.push(symbols);
        c += 1;
        proof {
            let now = chunk_views(all@);
            let goal = symbols_of_all(byte_views(chunks@).take(c as int));
            assert(now.len() == goal.len());
            assert forall|j: int| 0 <= j < now.len() implies now[j] == goal[j] by {
                if j < c - 1 {
                    assert(all@[j] == before[j]);
                    assert(chunk_views(before)[j] == symbols_of_all(
                        byte_views(chunks@).take(c - 1),
                    )[j]);
                    assert(byte_views(chunks@).take(c - 1)[j] == byte_views(chunks@).take(
                        c as int,
                    )[j]);
                }
            }
            assert(now =~= goal);
        }
    }
    assert(byte_views(chunks@).take(c as int) == byte_views(chunks@));
    all
}

} // verus!
