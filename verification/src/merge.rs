//! Symbols, pairs, and the rewriting of one pair into a new symbol.

use vstd::prelude::*;

verus! {

/// A token id: `0..=255` are the raw bytes, `256..` are learned merges.
pub type TokenId = u32;

/// Two adjacent symbols, left before right.
pub type Pair = (TokenId, TokenId);

/// The number of ids that stand for single bytes; the first learned id.
pub const BASE_TOKENS: u32 = 256;

/// `symbols` after one left-to-right pass that replaces every occurrence of
/// `pair` by `new_id`. Occurrences do not overlap: a symbol consumed by one
/// replacement is not the start of the next.
pub open spec fn apply_merge(symbols: Seq<TokenId>, pair: Pair, new_id: TokenId) -> Seq<TokenId>
    decreases symbols.len(),
{
    if symbols.len() == 0 {
        symbols
    } else if symbols.len() >= 2 && symbols[0] == pair.0 && symbols[1] == pair.1 {
        seq![new_id] + apply_merge(symbols.skip(2), pair, new_id)
    } else {
        seq![symbols[0]] + apply_merge(symbols.skip(1), pair, new_id)
    }
}

/// `pair` stands at position `i` of `symbols`.
pub open spec fn pair_at(symbols: Seq<TokenId>, i: int, pair: Pair) -> bool {
    0 <= i && i + 1 < symbols.len() && symbols[i] == pair.0 && symbols[i + 1] == pair.1
}

/// `pair` occurs somewhere in `symbols`.
pub open spec fn has_pair(symbols: Seq<TokenId>, pair: Pair) -> bool {
    exists|i: int| pair_at(symbols, i, pair)
}

/// Every symbol is below `bound`.
pub open spec fn symbols_below(symbols: Seq<TokenId>, bound: int) -> bool {
    forall|i: int| 0 <= i < symbols.len() ==> (#[trigger] symbols[i]) < bound
}

/// The symbol sequences that a list of chunks holds.
pub open spec fn chunk_views(chunks: Seq<Vec<TokenId>>) -> Seq<Seq<TokenId>> {
    chunks.map_values(|chunk: Vec<TokenId>| chunk@)
}

/// Replaces every non-overlapping occurrence of `pair`, scanning from the
/// left, by `new_id`.
pub fn merge_pair(tokens: &[TokenId], pair: Pair, new_id: TokenId) -> (merged: Vec<TokenId>)
    ensures
        merged@ == apply_merge(tokens@, pair, new_id),
{
    let mut merged: Vec<TokenId> = Vec::new();
    let mut i: usize = 0;
    proof {
        assert(tokens@.skip(0) == tokens@);
        assert(merged@ + apply_merge(tokens@, pair, new_id) == apply_merge(tokens@, pair, new_id));
    }
    while i < tokens.len()
        invariant
            i <= tokens.len(),
            apply_merge(tokens@, pair, new_id) == merged@ + apply_merge(
                tokens@.skip(i as int),
                pair,
                new_id,
            ),
        decreases tokens.len() - i,
    {
        let ghost rest = tokens@.skip(i as int);
        if i + 1 < tokens.len() && tokens[i] == pair.0 && tokens[i + 1] == pair.1 {
            proof {
                assert(rest.skip(2) == tokens@.skip(i + 2));
                assert(merged@.push(new_id) + apply_merge(rest.skip(2), pair, new_id) == merged@
                    + (seq![new_id] + apply_merge(rest.skip(2), pair, new_id)));
            }
            merged.push(new_id);
            i += 2;
        } else {
            proof {
                assert(rest.skip(1) == tokens@.skip(i + 1));
                assert(merged@.push(tokens@[i as int]) + apply_merge(rest.skip(1), pair, new_id)
                    == merged@ + (seq![rest[0]] + apply_merge(rest.skip(1), pair, new_id)));
            }
            merged.push(tokens[i]);
            i += 1;
        }
    }
    proof {
        assert(tokens@.skip(i as int).len() == 0);
        assert(merged@ + Seq::<TokenId>::empty() == merged@);
    }
    merged
}

/// The first symbol after a merge: the new id where the sequence begins
/// with the pair, else its own first symbol.
pub proof fn lemma_merge_head(symbols: Seq<TokenId>, pair: Pair, new_id: TokenId)
    requires
        symbols.len() > 0,
    ensures
        apply_merge(symbols, pair, new_id).len() > 0,
        apply_merge(symbols, pair, new_id)[0] == (if pair_at(symbols, 0, pair) {
            new_id
        } else {
            symbols[0]
        }),
{
}

/// A merge never lengthens a sequence, and shortens one in which the pair
/// occurs.
pub proof fn lemma_merge_len(symbols: Seq<TokenId>, pair: Pair, new_id: TokenId)
    ensures
        apply_merge(symbols, pair, new_id).len() <= symbols.len(),
        has_pair(symbols, pair) ==> apply_merge(symbols, pair, new_id).len() < symbols.len(),
    decreases symbols.len(),
{
    if symbols.len() > 0 {
        if pair_at(symbols, 0, pair) {
            lemma_merge_len(symbols.skip(2), pair, new_id);
        } else {
            let rest = symbols.skip(1);
            lemma_merge_len(rest, pair, new_id);
            if has_pair(symbols, pair) {
                let i = choose|i: int| pair_at(symbols, i, pair);
                assert(pair_at(rest, i - 1, pair));
            }
        }
    }
}

/// A merge of a pair that does not occur changes nothing.
pub proof fn lemma_merge_absent(symbols: Seq<TokenId>, pair: Pair, new_id: TokenId)
    requires
        !has_pair(symbols, pair),
    ensures
        apply_merge(symbols, pair, new_id) == symbols,
    decreases symbols.len(),
{
    if symbols.len() > 0 {
        assert(!pair_at(symbols, 0, pair));
        let rest = symbols.skip(1);
        assert forall|i: int| !pair_at(rest, i, pair) by {
            assert(!pair_at(symbols, i + 1, pair));
        }
        lemma_merge_absent(rest, pair, new_id);
        assert(seq![symbols[0]] + rest == symbols);
    }
}

/// After a merge into an id that is neither half of the pair, the pair
/// occurs no more.
pub proof fn lemma_merge_removes_pair(symbols: Seq<TokenId>, pair: Pair, new_id: TokenId)
    requires
        new_id != pair.0,
        new_id != pair.1,
    ensures
        !has_pair(apply_merge(symbols, pair, new_id), pair),
    decreases symbols.len(),
{
    let merged = apply_merge(symbols, pair, new_id);
    if symbols.len() > 0 {
        let rest = if pair_at(symbols, 0, pair) {
            symbols.skip(2)
        } else {
            symbols.skip(1)
        };
        let tail = apply_merge(rest, pair, new_id);
        lemma_merge_removes_pair(rest, pair, new_id);
        if rest.len() > 0 {
            lemma_merge_head(rest, pair, new_id);
        }
        assert forall|i: int| !pair_at(merged, i, pair) by {
            if pair_at(merged, i, pair) {
                if i > 0 {
                    assert(pair_at(tail, i - 1, pair));
                }
            }
        }
    }
}

/// A merge brings in no pair that is free of the new id: such a pair
/// occurs afterwards only where it occurred before.
pub proof fn lemma_merge_keeps_absent(
    symbols: Seq<TokenId>,
    pair: Pair,
    new_id: TokenId,
    other: Pair,
)
    requires
        other.0 != new_id,
        other.1 != new_id,
        !has_pair(symbols, other),
    ensures
        !has_pair(apply_merge(symbols, pair, new_id), other),
    decreases symbols.len(),
{
    let merged = apply_merge(symbols, pair, new_id);
    if symbols.len() > 0 {
        let step: int = if pair_at(symbols, 0, pair) {
            2
        } else {
            1
        };
        let rest = symbols.skip(step);
        let tail = apply_merge(rest, pair, new_id);
        assert forall|i: int| !pair_at(rest, i, other) by {
            assert(!pair_at(symbols, i + step, other));
        }
        lemma_merge_keeps_absent(rest, pair, new_id, other);
        if rest.len() > 0 {
            lemma_merge_head(rest, pair, new_id);
        }
        assert forall|i: int| !pair_at(merged, i, other) by {
            if pair_at(merged, i, other) {
                if i > 0 {
                    assert(pair_at(tail, i - 1, other));
                } else {
                    assert(!pair_at(symbols, 0, other));
                    assert(!pair_at(rest, 0, pair));
                }
            }
        }
    }
}

/// A merge keeps the symbols below a bound that the new id is below.
pub proof fn lemma_merge_symbols_below(
    symbols: Seq<TokenId>,
    pair: Pair,
    new_id: TokenId,
    bound: int,
)
    requires
        symbols_below(symbols, bound),
        new_id < bound,
    ensures
        symbols_below(apply_merge(symbols, pair, new_id), bound),
    decreases symbols.len(),
{
    let merged = apply_merge(symbols, pair, new_id);
    if symbols.len() > 0 {
        let step: int = if pair_at(symbols, 0, pair) {
            2
        } else {
            1
        };
        let rest = symbols.skip(step);
        let tail = apply_merge(rest, pair, new_id);
        assert forall|i: int| 0 <= i < rest.len() implies (#[trigger] rest[i]) < bound by {
            assert(rest[i] == symbols[i + step]);
        }
        lemma_merge_symbols_below(rest, pair, new_id, bound);
        assert forall|i: int| 0 <= i < merged.len() implies (#[trigger] merged[i]) < bound by {
            if i > 0 {
                assert(merged[i] == tail[i - 1]);
            }
        }
    }
}

} // verus!
