//! Encoding: in every chunk, apply the known merge with the lowest id until
//! none applies.

use crate::chunker::{byte_views, symbols_of, to_symbols};
use crate::merge::{
    apply_merge, has_pair, lemma_merge_len, merge_pair, pair_at, Pair, TokenId,
};
use crate::table::{injective, MergeTable};
use vstd::prelude::*;

verus! {

/// `pair` occurs in `symbols`, the table holds it, and no pair that occurs
/// has a lower id in the table: the merge that was learned first.
pub open spec fn is_lowest_merge(
    symbols: Seq<TokenId>,
    table: Map<Pair, TokenId>,
    pair: Pair,
) -> bool {
    &&& has_pair(symbols, pair)
    &&& table.contains_key(pair)
    &&& forall|other: Pair|
        has_pair(symbols, other) && table.contains_key(other) ==> table[pair] <= table[other]
}

/// The merge to apply next to `symbols`, with its id, if any applies.
pub open spec fn lowest_merge(symbols: Seq<TokenId>, table: Map<Pair, TokenId>) -> Option<
    (Pair, TokenId),
> {
    if exists|pair: Pair| is_lowest_merge(symbols, table, pair) {
        let pair = choose|pair: Pair| is_lowest_merge(symbols, table, pair);
        Some((pair, table[pair]))
    } else {
        None
    }
}

/// `symbols` after the merges of `table` were applied, lowest id first,
/// until no pair of the table is left.
pub open spec fn encode_symbols(symbols: Seq<TokenId>, table: Map<Pair, TokenId>) -> Seq<TokenId>
    decreases symbols.len(),
    via encode_symbols_shrinks
{
    match lowest_merge(symbols, table) {
        None => symbols,
        Some((pair, id)) => encode_symbols(apply_merge(symbols, pair, id), table),
    }
}

#[via_fn]
proof fn encode_symbols_shrinks(symbols: Seq<TokenId>, table: Map<Pair, TokenId>) {
    match lowest_merge(symbols, table) {
        None => {},
        Some((pair, id)) => {
            lemma_merge_len(symbols, pair, id);
        },
    }
}

/// In a table that gives different pairs different ids, at most one pair
/// is the lowest merge.
pub proof fn lemma_lowest_merge_unique(
    symbols: Seq<TokenId>,
    table: Map<Pair, TokenId>,
    a: Pair,
    b: Pair,
)
    requires
        injective(table),
        is_lowest_merge(symbols, table, a),
        is_lowest_merge(symbols, table, b),
    ensures
        a == b,
{
}

/// No pair of the table occurs in `symbols`.
pub open spec fn fully_merged(symbols: Seq<TokenId>, table: Map<Pair, TokenId>) -> bool {
    forall|pair: Pair| has_pair(symbols, pair) ==> !table.contains_key(pair)
}

/// Among the adjacent pairs of `chunk_tokens` that the table holds, the one
/// with the lowest id, and that id.
pub fn find_lowest_token_merge_in_chunk(table: &MergeTable, chunk_tokens: &[TokenId]) -> (best:
    Option<(Pair, TokenId)>)
    ensures
        best == lowest_merge(chunk_tokens@, table@),
        best is None <==> fully_merged(chunk_tokens@, table@),
        best matches Some((pair, id)) ==> is_lowest_merge(chunk_tokens@, table@, pair) && id
            == table@[pair],
{
    let ghost symbols = chunk_tokens@;
    let mut best: Option<(Pair, TokenId)> = None;
    let mut i: usize = 1;
    while i < chunk_tokens.len()
        invariant
            1 <= i,
            symbols == chunk_tokens@,
            match best {
                Some((pair, id)) => {
                    &&& has_pair(symbols, pair)
                    &&& table@.contains_key(pair)
                    &&& table@[pair] == id
                    &&& forall|other: Pair, j: int|
                        0 <= j < i - 1 && #[trigger] pair_at(symbols, j, other)
                            && table@.contains_key(other) ==> id <= table@[other]
                },
                None => forall|other: Pair, j: int|
                    0 <= j < i - 1 && #[trigger] pair_at(symbols, j, other)
                        ==> !table@.contains_key(other),
            },
        decreases chunk_tokens.len() - i,
    {
        let pair: Pair = (chunk_tokens[i - 1], chunk_tokens[i]);
        proof {
            assert(pair_at(symbols, i - 1, pair));
        }
        if let Some(token_id) = table.get(pair) {
            let lower = match best {
                Some((_, best_id)) => token_id < best_id,
                None => true,
            };
            if lower {
                best = Some((pair, token_id));
            }
        }
        i += 1;
    }
    proof {
        match best {
            Some((pair, id)) => {
                assert forall|other: Pair|
                    has_pair(symbols, other) && table@.contains_key(other) implies table@[pair]
                    <= table@[other] by {
                    let j = choose|j: int| pair_at(symbols, j, other);
                    assert(pair_at(symbols, j, other));
                }
                assert(is_lowest_merge(symbols, table@, pair));
                let chosen = choose|p: Pair| is_lowest_merge(symbols, table@, p);
                use_type_invariant(table);
                table.lemma_well_formed();
                lemma_lowest_merge_unique(symbols, table@, pair, chosen);
            },
            None => {
                assert forall|other: Pair| has_pair(symbols, other) implies !table@.contains_key(
                    other,
                ) by {
                    let j = choose|j: int| pair_at(symbols, j, other);
                    assert(pair_at(symbols, j, other));
                }
            },
        }
    }
    best
}

/// Applies to `symbols` the merges of `table`, the lowest id first, until
/// no pair of the table is left.
pub fn encode_chunk(table: &MergeTable, symbols: Vec<TokenId>) -> (encoded: Vec<TokenId>)
    ensures
        encoded@ == encode_symbols(symbols@, table@),
        fully_merged(encoded@, table@),
{
    let ghost goal = encode_symbols(symbols@, table@);
    let mut current = symbols;
    loop
        invariant_except_break
            encode_symbols(current@, table@) == goal,
        ensures
            current@ == goal,
            fully_merged(current@, table@),
        decreases current.len(),
    {
        match find_lowest_token_merge_in_chunk(table, current.as_slice()) {
            None => {
                break ;
            },
            Some((pair, token_id)) => {
                proof {
                    lemma_merge_len(current@, pair, token_id);
                }
                current = merge_pair(current.as_slice(), pair, token_id);
            },
        }
    }
    current
}

/// The tokens of all chunks: every chunk encoded by itself, the results
/// joined in the order of the chunks.
pub open spec fn encode_all(chunks: Seq<Seq<u8>>, table: Map<Pair, TokenId>) -> Seq<TokenId>
    decreases chunks.len(),
{
    if chunks.len() == 0 {
        Seq::empty()
    } else {
        encode_all(chunks.drop_last(), table) + encode_symbols(symbols_of(chunks.last()), table)
    }
}

/// Encodes every chunk by itself and joins the results.
pub fn encode_chunks(table: &MergeTable, chunks: &Vec<Vec<u8>>) -> (tokens: Vec<TokenId>)
    ensures
        tokens@ == encode_all(byte_views(chunks@), table@),
{
    let ghost all = byte_views(chunks@);
    let mut tokens: Vec<TokenId> = Vec::new();
    let mut c: usize = 0;
    proof {
        assert(all.take(0).len() == 0);
    }
    while c < chunks.len()
        invariant
            c <= chunks.len(),
            all == byte_views(chunks@),
            tokens@ == encode_all(all.take(c as int), table@),
        decreases chunks.len() - c,
    {
        let symbols = to_symbols(chunks[c].as_slice());
        let mut encoded = encode_chunk(table, symbols);
        proof {
            let next = all.take(c + 1);
            assert(next.drop_last() == all.take(c as int));
            assert(next.last() == chunks[c as int]@);
        }
        tokens.append(&mut encoded);
        c += 1;
    }
    proof {
        assert(all.take(c as int) == all);
    }
    tokens
}

} // verus!
