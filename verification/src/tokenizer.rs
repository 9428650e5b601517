//! The tokenizer: a merge table and the pattern that cuts text into chunks.

use crate::chunker::{
    byte_views, compile_pattern, cut, cut_chunks, find_spans, lemma_symbols_are_bytes,
    match_spans, pattern_compiles, regex_source, spans_within, symbols_of_all, to_symbols_all,
    GPT4_PATTERN,
};
use crate::encoder::{encode_all, encode_chunks};
use crate::merge::{Pair, TokenId, BASE_TOKENS};
use crate::table::{build_order, ids_fit, table_of, MergeTable};
use crate::trainer::{learn_merges, trained};
use crate::vocab::{mergeable_ranks, token_bytes};
use fancy_regex::Regex;
use vstd::prelude::*;
use vstd::string::*;
use vstd::utf8::encode_utf8;

verus! {

/// Why the tokenizer could not do what was asked.
#[derive(Debug, Clone, Copy, PartialEq, Eq, Structural)]
pub enum TokenizerError {
    /// The pattern was not accepted when the tokenizer was made.
    PatternRejected,
    /// The pattern engine gave up while it scanned a text.
    ScanFailed,
}

/// A byte-pair-encoding tokenizer. Its pattern is the default pattern,
/// compiled once when the tokenizer is made.
pub struct Tokenizer {
    merges: MergeTable,
    pattern: String,
    compiled_pattern: Regex,
}

/// The text that `fragments` make when joined in their order.
pub open spec fn joined_text(fragments: Seq<String>) -> Seq<char>
    decreases fragments.len(),
{
    if fragments.len() == 0 {
        Seq::empty()
    } else {
        joined_text(fragments.drop_last()) + fragments.last()@
    }
}

impl Tokenizer {
    /// What holds of every tokenizer: its pattern is the default pattern,
    /// and its compiled pattern was made from it.
    #[verifier::type_invariant]
    pub closed spec fn well_formed(self) -> bool {
        &&& self.pattern@ == GPT4_PATTERN@
        &&& regex_source(self.compiled_pattern) == GPT4_PATTERN@
    }

    /// The learned pairs, in the order of their ids.
    pub closed spec fn order(&self) -> Seq<Pair> {
        self.merges.order()
    }

    /// The mapping from pairs to ids that encoding goes by.
    pub open spec fn table(&self) -> Map<Pair, TokenId> {
        table_of(self.order())
    }

    /// The source of the pattern.
    pub closed spec fn pattern_source(&self) -> Seq<char> {
        self.pattern@
    }

    /// The compiled pattern that cuts the text.
    pub closed spec fn compiled(&self) -> Regex {
        self.compiled_pattern
    }

    /// The merges learned so far. Their ids fit the id type, and each is
    /// made of ids that existed before it.
    pub fn merges(&self) -> (table: &MergeTable)
        ensures
            table.order() == self.order(),
            ids_fit(self.order()),
            build_order(self.order()),
    {
        proof {
            use_type_invariant(&self.merges);
            self.merges.lemma_well_formed();
        }
        &self.merges
    }

    /// The chunks of `text`, as the symbols they start as, when the scan
    /// found `spans`.
    pub open spec fn chunk_symbols(text: Seq<char>, spans: Seq<(usize, usize)>) -> Seq<
        Seq<TokenId>,
    > {
        symbols_of_all(cut(encode_utf8(text), spans))
    }

    /// A tokenizer without merges, with the default pattern, compiled here
    /// and now.
    pub fn new() -> (made: Result<Tokenizer, TokenizerError>)
        ensures
            made is Ok <==> pattern_compiles(GPT4_PATTERN@),
            made matches Ok(tokenizer) ==> {
                &&& tokenizer.order() == Seq::<Pair>::empty()
                &&& tokenizer.pattern_source() == GPT4_PATTERN@
                &&& regex_source(tokenizer.compiled()) == GPT4_PATTERN@
            },
            made matches Err(error) ==> error == TokenizerError::PatternRejected,
    {
        match compile_pattern(GPT4_PATTERN) {
            Ok(compiled_pattern) => Ok(
                Tokenizer {
                    merges: MergeTable::new(),
                    pattern: GPT4_PATTERN.to_owned(),
                    compiled_pattern,
                },
            ),
            Err(_) => Err(TokenizerError::PatternRejected),
        }
    }

    /// Trains on chunks given as byte strings: learns merges until the next
    /// id would reach `vocab_size` or no pair is left. Ids go on from where
    /// the table stands.
    pub fn train_chunks(&mut self, chunks: &Vec<Vec<u8>>, vocab_size: u32)
        ensures
            final(self).order() == trained(
                old(self).order(),
                symbols_of_all(byte_views(chunks@)),
                vocab_size,
            ),
            final(self).pattern_source() == old(self).pattern_source(),
            final(self).compiled() == old(self).compiled(),
    {
        let mut symbols = to_symbols_all(chunks);
        proof {
            use_type_invariant(&*self);
            lemma_symbols_are_bytes(byte_views(chunks@));
        }
        let mut table = MergeTable::new();
        std::mem::swap(&mut table, &mut self.merges);
        learn_merges(&mut table, &mut symbols, vocab_size);
        self.merges = table;
    }

    /// Cuts `text` into chunks and trains on them. An empty text teaches
    /// nothing and is no error.
    pub fn train(&mut self, text: &str, vocab_size: u32) -> (done: Result<(), TokenizerError>)
        ensures
            text@.len() == 0 ==> done is Ok && final(self).order() == old(self).order(),
            text@.len() > 0 ==> match done {
                Ok(_) => match_spans(old(self).compiled(), text@) matches Some(spans)
                    && spans_within(spans, encode_utf8(text@).len()) && final(self).order()
                    == trained(old(self).order(), Self::chunk_symbols(text@, spans), vocab_size),
                Err(error) => error == TokenizerError::ScanFailed && match_spans(
                    old(self).compiled(),
                    text@,
                ) is None && final(self).order() == old(self).order(),
            },
            final(self).pattern_source() == old(self).pattern_source(),
            final(self).compiled() == old(self).compiled(),
    {
        if text.is_empty() {
            return Ok(());
        }
        proof {
            use_type_invariant(&*self);
        }
        match find_spans(&self.compiled_pattern, text) {
            Ok(spans) => {
                let chunks = cut_chunks(text.as_bytes(), &spans);
                self.train_chunks(&chunks, vocab_size);
                Ok(())
            },
            Err(_) => Err(TokenizerError::ScanFailed),
        }
    }

    /// Joins `fragments` into one text and trains on it.
    pub fn train_from_iterator(&mut self, fragments: &Vec<String>, vocab_size: u32) -> (done:
        Result<(), TokenizerError>)
        ensures
            joined_text(fragments@).len() == 0 ==> done is Ok && final(self).order() == old(
                self,
            ).order(),
            joined_text(fragments@).len() > 0 ==> match done {
                Ok(_) => match_spans(old(self).compiled(), joined_text(fragments@)) matches Some(
                    spans,
                ) && spans_within(spans, encode_utf8(joined_text(fragments@)).len())
                    && final(self).order() == trained(
                    old(self).order(),
                    Self::chunk_symbols(joined_text(fragments@), spans),
                    vocab_size,
                ),
                Err(error) => error == TokenizerError::ScanFailed && match_spans(
                    old(self).compiled(),
                    joined_text(fragments@),
                ) is None && final(self).order() == old(self).order(),
            },
            final(self).pattern_source() == old(self).pattern_source(),
            final(self).compiled() == old(self).compiled(),
    {
        let mut all_text = String::new();
        let mut i: usize = 0;
        while i < fragments.len()
            invariant
                i <= fragments.len(),
                all_text@ == joined_text(fragments@.take(i as int)),
            decreases fragments.len() - i,
        {
            proof {
                assert(fragments@.take(i + 1).drop_last() == fragments@.take(i as int));
            }
            all_text.append(fragments[i].as_str());
            i += 1;
        }
        proof {
            assert(fragments@.take(i as int) == fragments@);
        }
        self.train(all_text.as_str(), vocab_size)
    }

    /// The tokens of chunks given as byte strings.
    pub fn encode_chunks(&self, chunks: &Vec<Vec<u8>>) -> (tokens: Vec<TokenId>)
        ensures
            tokens@ == encode_all(byte_views(chunks@), self.table()),
    {
        encode_chunks(&self.merges, chunks)
    }

    /// The tokens of `text`. An empty text has no tokens.
    pub fn encode(&self, text: &str) -> (done: Result<Vec<TokenId>, TokenizerError>)
        ensures
            text@.len() == 0 ==> (done matches Ok(tokens) && tokens@.len() == 0),
            text@.len() > 0 ==> match done {
                Ok(tokens) => match_spans(self.compiled(), text@) matches Some(spans)
                    && spans_within(spans, encode_utf8(text@).len()) && tokens@ == encode_all(
                    cut(encode_utf8(text@), spans),
                    self.table(),
                ),
                Err(error) => error == TokenizerError::ScanFailed && match_spans(
                    self.compiled(),
                    text@,
                ) is None,
            },
    {
        if text.is_empty() {
            return Ok(Vec::new());
        }
        proof {
            use_type_invariant(self);
        }
        match find_spans(&self.compiled_pattern, text) {
            Ok(spans) => {
                let chunks = cut_chunks(text.as_bytes(), &spans);
                Ok(encode_chunks(&self.merges, &chunks))
            },
            Err(_) => Err(TokenizerError::ScanFailed),
        }
    }

    /// The source of the pattern: the default pattern.
    pub fn get_pattern(&self) -> (source: String)
        ensures
            source@ == self.pattern_source(),
            source@ == GPT4_PATTERN@,
    {
        proof {
            use_type_invariant(self);
        }
        self.pattern.clone()
    }

    /// The vocabulary: for every id, in the order of the ids, the bytes it
    /// stands for and the id.
    pub fn get_mergeable_ranks(&self) -> (ranks: Vec<(Vec<u8>, u32)>)
        ensures
            ranks.len() == BASE_TOKENS + self.order().len(),
            forall|i: int| 0 <= i < ranks.len() ==> (#[trigger] ranks[i]).1 == i,
            forall|i: int|
                0 <= i < ranks.len() ==> (#[trigger] ranks[i]).0@ == token_bytes(
                    self.order(),
                    i,
                ),
            forall|i: int| 0 <= i < BASE_TOKENS ==> (#[trigger] ranks[i]).0@ == seq![i as u8],
            forall|i: int|
                BASE_TOKENS <= i < ranks.len() ==> (#[trigger] ranks[i]).0@
                    == ranks[self.order()[i - BASE_TOKENS].0 as int].0@
                    + ranks[self.order()[i - BASE_TOKENS].1 as int].0@,
    {
        mergeable_ranks(&self.merges)
    }
}

} // verus!
