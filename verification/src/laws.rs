//! What holds of the tokenizer as a whole, stated over the learning order
//! and proved from the definitions.

use crate::chunker::symbols_of;
use crate::encoder::{
    encode_all, encode_symbols, is_lowest_merge, lemma_lowest_merge_unique, lowest_merge,
};
use crate::frequency::{best_pair, is_most_frequent, lemma_pair_count_positive};
use crate::merge::{
    apply_merge, lemma_merge_absent, lemma_merge_len, lemma_merge_symbols_below, pair_at,
    symbols_below, has_pair, lemma_merge_keeps_absent, lemma_merge_removes_pair, Pair, TokenId, BASE_TOKENS,
};
use crate::table::{
    build_order, ids_fit, lemma_table_injective, lemma_table_of, lemma_table_rank, table_of,
};
use crate::trainer::{
    chunks_below, drilled, learned, lemma_best_pair_below, lemma_merge_all_below, merge_all,
    trained, trained_chunks,
};
use crate::vocab::{expand, token_bytes};
use vstd::prelude::*;

verus! {

/// The ids of the table are the `order.len()` ids from 256 on, each the id
/// of some pair, and the table holds as many pairs as merges were learned.
pub open spec fn ids_contiguous(order: Seq<Pair>) -> bool {
    &&& table_of(order).dom().finite()
    &&& table_of(order).dom().len() == order.len()
    &&& forall|id: TokenId| #[trigger]
        table_of(order).contains_value(id) <==> BASE_TOKENS <= id < BASE_TOKENS + order.len()
}

/// The pairs that the table holds are the pairs of the learning order.
pub proof fn lemma_table_dom(order: Seq<Pair>)
    requires
        ids_fit(order),
    ensures
        table_of(order).dom() == order.to_set(),
        table_of(order).dom().finite(),
{
    assert forall|pair: Pair| table_of(order).dom().contains(pair) == order.to_set().contains(
        pair,
    ) by {
        lemma_table_of(order, pair);
    }
    assert(table_of(order).dom() =~= order.to_set());
    vstd::seq_lib::seq_to_set_is_finite(order);
}

/// The ids of a table run from 256 on without gaps exactly when no pair
/// was learned twice.
pub proof fn lemma_ids_contiguous(order: Seq<Pair>)
    requires
        ids_fit(order),
    ensures
        ids_contiguous(order) <==> order.no_duplicates(),
{
    let table = table_of(order);
    lemma_table_dom(order);
    if order.no_duplicates() {
        order.unique_seq_to_set();
        assert forall|id: TokenId| #[trigger]
            table.contains_value(id) <==> BASE_TOKENS <= id < BASE_TOKENS + order.len() by {
            if table.contains_value(id) {
                let pair = choose|pair: Pair| table.contains_key(pair) && table[pair] == id;
                lemma_table_of(order, pair);
            }
            if BASE_TOKENS <= id < BASE_TOKENS + order.len() {
                let pair = order[id - BASE_TOKENS];
                lemma_table_of(order, pair);
                assert(table.contains_key(pair) && table[pair] == id);
            }
        }
    }
    if ids_contiguous(order) {
        order.lemma_no_dup_set_cardinality();
    }
}

/// No chunk holds `pair`.
pub open spec fn absent_everywhere(chunks: Seq<Seq<TokenId>>, pair: Pair) -> bool {
    forall|c: int| 0 <= c < chunks.len() ==> !has_pair(#[trigger] chunks[c], pair)
}

/// Within one training no pair is learned twice, no pair is learned that
/// the chunks do not hold, and every pair learned is made of ids that
/// exist when it is learned.
pub proof fn lemma_learned_distinct(
    chunks: Seq<Seq<TokenId>>,
    next_id: TokenId,
    vocab_size: TokenId,
    gone: Set<Pair>,
)
    requires
        chunks_below(chunks, next_id as int),
        forall|pair: Pair|
            gone.contains(pair) ==> absent_everywhere(chunks, pair) && pair.0 < next_id && pair.1
                < next_id,
    ensures
        learned(chunks, next_id, vocab_size).no_duplicates(),
        next_id + learned(chunks, next_id, vocab_size).len() <= vocab_size || learned(
            chunks,
            next_id,
            vocab_size,
        ).len() == 0,
        forall|i: int|
            0 <= i < learned(chunks, next_id, vocab_size).len() ==> {
                let pair = #[trigger] learned(chunks, next_id, vocab_size)[i];
                &&& !gone.contains(pair)
                &&& pair.0 < next_id + i
                &&& pair.1 < next_id + i
            },
    decreases vocab_size - next_id,
{
    if next_id < vocab_size {
        match best_pair(chunks) {
            None => {},
            Some(pair) => {
                let next = (next_id + 1) as TokenId;
                let after = merge_all(chunks, pair, next_id);
                let rest = learned(after, next, vocab_size);
                let all = learned(chunks, next_id, vocab_size);
                assert(is_most_frequent(chunks, pair));
                lemma_pair_count_positive(chunks, pair);
                lemma_best_pair_below(chunks, pair, next_id as int);
                lemma_merge_all_below(chunks, pair, next_id, next_id + 1);
                let found = choose|c: int|
                    0 <= c < chunks.len() && has_pair(#[trigger] chunks[c], pair);
                assert(!gone.contains(pair)) by {
                    if gone.contains(pair) {
                        assert(!has_pair(chunks[found], pair));
                    }
                }
                let gone_after = gone.insert(pair);
                assert forall|other: Pair| gone_after.contains(other) implies absent_everywhere(
                    after,
                    other,
                ) && other.0 < next && other.1 < next by {
                    assert forall|c: int| 0 <= c < after.len() implies !has_pair(
                        #[trigger] after[c],
                        other,
                    ) by {
                        if other == pair {
                            lemma_merge_removes_pair(chunks[c], pair, next_id);
                        } else {
                            assert(!has_pair(chunks[c], other));
                            lemma_merge_keeps_absent(chunks[c], pair, next_id, other);
                        }
                    }
                }
                lemma_learned_distinct(after, next, vocab_size, gone_after);
                assert(all == seq![pair] + rest);
                assert forall|i: int| 0 <= i < all.len() implies {
                    let p = #[trigger] all[i];
                    &&& !gone.contains(p)
                    &&& p.0 < next_id + i
                    &&& p.1 < next_id + i
                } by {
                    if i > 0 {
                        assert(all[i] == rest[i - 1]);
                        assert(!gone_after.contains(rest[i - 1]));
                    }
                }
                assert forall|i: int, j: int| 0 <= i < all.len() && 0 <= j < all.len() && i
                    != j implies all[i] != all[j] by {
                    if i > 0 {
                        assert(all[i] == rest[i - 1]);
                        assert(!gone_after.contains(rest[i - 1]));
                    }
                    if j > 0 {
                        assert(all[j] == rest[j - 1]);
                        assert(!gone_after.contains(rest[j - 1]));
                    }
                }
            },
        }
    }
}

/// Training keeps the table in build order and its ids within the id type,
/// whatever it is trained on, as long as the chunks hold only ids that the
/// table knows.
pub proof fn lemma_trained_build_order(
    order: Seq<Pair>,
    chunks: Seq<Seq<TokenId>>,
    vocab_size: TokenId,
)
    requires
        ids_fit(order),
        build_order(order),
        chunks_below(chunks, BASE_TOKENS + order.len()),
    ensures
        ids_fit(trained(order, chunks, vocab_size)),
        build_order(trained(order, chunks, vocab_size)),
{
    if BASE_TOKENS + order.len() < vocab_size {
        let first = (BASE_TOKENS + order.len()) as TokenId;
        let new = learned(chunks, first, vocab_size);
        lemma_learned_distinct(chunks, first, vocab_size, Set::empty());
        let all = trained(order, chunks, vocab_size);
        assert forall|i: int| 0 <= i < all.len() implies (#[trigger] all[i]).0 < BASE_TOKENS + i
            && all[i].1 < BASE_TOKENS + i by {
            if i >= order.len() {
                assert(all[i] == new[i - order.len()]);
            } else {
                assert(all[i] == order[i]);
            }
        }
    }
}

/// A table whose ids run without gaps keeps that through a training exactly
/// when the training learns no pair that the table already held. (A pair
/// learned again takes a new id and leaves its old id without a pair.)
pub proof fn lemma_training_keeps_ids_contiguous(
    order: Seq<Pair>,
    chunks: Seq<Seq<TokenId>>,
    vocab_size: TokenId,
)
    requires
        ids_fit(order),
        build_order(order),
        ids_contiguous(order),
        chunks_below(chunks, BASE_TOKENS + order.len()),
    ensures
        ids_contiguous(trained(order, chunks, vocab_size)) <==> forall|i: int|
            order.len() <= i < trained(order, chunks, vocab_size).len() ==> !order.contains(
                #[trigger] trained(order, chunks, vocab_size)[i],
            ),
{
    let all = trained(order, chunks, vocab_size);
    lemma_ids_contiguous(order);
    lemma_trained_build_order(order, chunks, vocab_size);
    lemma_ids_contiguous(all);
    if BASE_TOKENS + order.len() < vocab_size {
        let first = (BASE_TOKENS + order.len()) as TokenId;
        let new = learned(chunks, first, vocab_size);
        lemma_learned_distinct(chunks, first, vocab_size, Set::empty());
        if forall|i: int| order.len() <= i < all.len() ==> !order.contains(#[trigger] all[i]) {
            assert forall|i: int, j: int| 0 <= i < order.len() && 0 <= j < new.len() implies order[i]
                != new[j] by {
                assert(all[order.len() + j] == new[j]);
                assert(!order.contains(all[order.len() + j]));
            }
            vstd::seq_lib::lemma_no_dup_in_concat(order, new);
        }
        if all.no_duplicates() {
            assert forall|i: int| order.len() <= i < all.len() implies !order.contains(
                #[trigger] all[i],
            ) by {
                if order.contains(all[i]) {
                    let at = choose|at: int| 0 <= at < order.len() && order[at] == all[i];
                    assert(all[at] == order[at]);
                }
            }
        }
    }
}

/// Training only adds merges: what was learned before stays, in its place.
pub proof fn lemma_training_grows(order: Seq<Pair>, chunks: Seq<Seq<TokenId>>, vocab_size: TokenId)
    ensures
        order.len() <= trained(order, chunks, vocab_size).len(),
        forall|i: int| 0 <= i < order.len() ==> trained(order, chunks, vocab_size)[i] == order[i],
{
}

/// What a longer learning order says of a pair: where the pair is not among
/// the merges added, the table keeps it under its id; where it is, the
/// table gives it one of the new ids.
pub proof fn lemma_table_append(order: Seq<Pair>, added: Seq<Pair>, pair: Pair)
    requires
        ids_fit(order + added),
    ensures
        !added.contains(pair) ==> (table_of(order + added).contains_key(pair) <==> table_of(
            order,
        ).contains_key(pair)),
        !added.contains(pair) && table_of(order).contains_key(pair) ==> table_of(order + added)[pair]
            == table_of(order)[pair],
        added.contains(pair) ==> table_of(order + added).contains_key(pair) && table_of(
            order + added,
        )[pair] >= BASE_TOKENS + order.len(),
{
    let all = order + added;
    lemma_table_of(all, pair);
    lemma_table_of(order, pair);
    if added.contains(pair) {
        let at = choose|at: int| 0 <= at < added.len() && added[at] == pair;
        assert(all[order.len() + at] == pair);
    } else {
        if all.contains(pair) {
            let at = choose|at: int| 0 <= at < all.len() && all[at] == pair;
            if at >= order.len() {
                assert(added[at - order.len()] == pair);
            }
            assert(order[at] == pair);
        }
        if order.contains(pair) {
            let at = choose|at: int| 0 <= at < order.len() && order[at] == pair;
            assert(all[at] == pair);
            let new_rank = table_of(all)[pair] - BASE_TOKENS;
            let old_rank = table_of(order)[pair] - BASE_TOKENS;
            if new_rank >= order.len() {
                assert(added[new_rank - order.len()] == pair);
            }
            assert(all[old_rank] == order[old_rank]);
            assert(all[new_rank] == order[new_rank]);
        }
    }
}

/// A training never takes a pair out of the table, and it leaves a pair
/// under its id exactly when it does not learn that pair again.
pub proof fn lemma_training_keeps_ids(
    order: Seq<Pair>,
    chunks: Seq<Seq<TokenId>>,
    vocab_size: TokenId,
    pair: Pair,
)
    requires
        ids_fit(order),
        build_order(order),
        chunks_below(chunks, BASE_TOKENS + order.len()),
        table_of(order).contains_key(pair),
    ensures
        table_of(trained(order, chunks, vocab_size)).contains_key(pair),
        table_of(trained(order, chunks, vocab_size))[pair] == table_of(order)[pair] <==> forall|
            i: int,
        |
            order.len() <= i < trained(order, chunks, vocab_size).len() ==> #[trigger] trained(
                order,
                chunks,
                vocab_size,
            )[i] != pair,
{
    let all = trained(order, chunks, vocab_size);
    lemma_trained_build_order(order, chunks, vocab_size);
    lemma_table_of(order, pair);
    if BASE_TOKENS + order.len() < vocab_size {
        let first = (BASE_TOKENS + order.len()) as TokenId;
        let new = learned(chunks, first, vocab_size);
        lemma_table_append(order, new, pair);
        if new.contains(pair) {
            let at = choose|at: int| 0 <= at < new.len() && new[at] == pair;
            assert(all[order.len() + at] == pair);
        } else {
            assert forall|i: int| order.len() <= i < all.len() implies #[trigger] all[i]
                != pair by {
                assert(all[i] == new[i - order.len()]);
            }
        }
    }
}

/// Chunks are encoded one by one: the tokens of a list of chunks are the
/// tokens of its front part followed by those of its back part, so no
/// merge ever joins symbols of two chunks.
pub proof fn lemma_encode_all_concat(
    front: Seq<Seq<u8>>,
    back: Seq<Seq<u8>>,
    table: Map<Pair, TokenId>,
)
    ensures
        encode_all(front + back, table) == encode_all(front, table) + encode_all(back, table),
    decreases back.len(),
{
    if back.len() == 0 {
        assert(front + back == front);
        assert(encode_all(front, table) + Seq::<TokenId>::empty() == encode_all(front, table));
    } else {
        assert((front + back).drop_last() == front + back.drop_last());
        lemma_encode_all_concat(front, back.drop_last(), table);
        let last = encode_symbols(symbols_of(back.last()), table);
        assert((encode_all(front, table) + encode_all(back.drop_last(), table)) + last
            == encode_all(front, table) + (encode_all(back.drop_last(), table) + last));
    }
}

/// The bytes of two token sequences, one after the other.
pub proof fn lemma_expand_concat(order: Seq<Pair>, front: Seq<TokenId>, back: Seq<TokenId>)
    ensures
        expand(order, front + back) == expand(order, front) + expand(order, back),
    decreases back.len(),
{
    if back.len() == 0 {
        assert(front + back == front);
        assert(expand(order, front) + Seq::<u8>::empty() == expand(order, front));
    } else {
        assert((front + back).drop_last() == front + back.drop_last());
        lemma_expand_concat(order, front, back.drop_last());
        let last = token_bytes(order, back.last() as int);
        assert((expand(order, front) + expand(order, back.drop_last())) + last == expand(
            order,
            front,
        ) + (expand(order, back.drop_last()) + last));
    }
}

/// The bytes of one token.
pub proof fn lemma_expand_one(order: Seq<Pair>, token: TokenId)
    ensures
        expand(order, seq![token]) == token_bytes(order, token as int),
{
    let one = seq![token];
    assert(one.len() == 1);
    assert(one.last() == token);
    assert(one.drop_last() == Seq::<TokenId>::empty());
    assert(expand(order, one.drop_last()) == Seq::<u8>::empty());
    assert(Seq::<u8>::empty() + token_bytes(order, token as int) == token_bytes(
        order,
        token as int,
    ));
}

/// A merge of a pair into its own id changes the symbols and not the bytes
/// they stand for.
pub proof fn lemma_expand_merge(order: Seq<Pair>, symbols: Seq<TokenId>, rank: int)
    requires
        ids_fit(order),
        build_order(order),
        0 <= rank < order.len(),
    ensures
        expand(order, apply_merge(symbols, order[rank], (BASE_TOKENS + rank) as TokenId))
            == expand(order, symbols),
    decreases symbols.len(),
{
    let pair = order[rank];
    let id = (BASE_TOKENS + rank) as TokenId;
    if symbols.len() > 0 {
        if pair_at(symbols, 0, pair) {
            let rest = symbols.skip(2);
            lemma_expand_merge(order, rest, rank);
            lemma_expand_concat(order, seq![id], apply_merge(rest, pair, id));
            lemma_expand_one(order, id);
            let head = seq![pair.0, pair.1];
            assert(head == seq![pair.0] + seq![pair.1]);
            lemma_expand_concat(order, seq![pair.0], seq![pair.1]);
            lemma_expand_one(order, pair.0);
            lemma_expand_one(order, pair.1);
            assert(symbols == head + rest);
            lemma_expand_concat(order, head, rest);
        } else {
            let rest = symbols.skip(1);
            lemma_expand_merge(order, rest, rank);
            lemma_expand_concat(order, seq![symbols[0]], apply_merge(rest, pair, id));
            assert(symbols == seq![symbols[0]] + rest);
            lemma_expand_concat(order, seq![symbols[0]], rest);
        }
    }
}

/// Encoding changes the symbols and not the bytes they stand for.
pub proof fn lemma_expand_encode(order: Seq<Pair>, symbols: Seq<TokenId>)
    requires
        ids_fit(order),
        build_order(order),
    ensures
        expand(order, encode_symbols(symbols, table_of(order))) == expand(order, symbols),
    decreases symbols.len(),
{
    let table = table_of(order);
    match lowest_merge(symbols, table) {
        None => {},
        Some((pair, id)) => {
            assert(is_lowest_merge(symbols, table, pair));
            lemma_table_of(order, pair);
            let rank = id - BASE_TOKENS;
            lemma_merge_len(symbols, pair, id);
            lemma_expand_merge(order, symbols, rank);
            lemma_expand_encode(order, apply_merge(symbols, pair, id));
        },
    }
}

/// The symbols that a chunk starts as stand for the bytes of the chunk.
pub proof fn lemma_expand_bytes(order: Seq<Pair>, bytes: Seq<u8>)
    ensures
        expand(order, symbols_of(bytes)) == bytes,
    decreases bytes.len(),
{
    if bytes.len() > 0 {
        lemma_expand_bytes(order, bytes.drop_last());
        assert(symbols_of(bytes).drop_last() == symbols_of(bytes.drop_last()));
        assert(bytes.drop_last().push(bytes.last()) == bytes);
    }
}

/// The tokens of a text stand for the bytes of its chunks, chunk after
/// chunk: encoding drops nothing and adds nothing.
pub proof fn lemma_encode_round_trip(order: Seq<Pair>, chunks: Seq<Seq<u8>>)
    requires
        ids_fit(order),
        build_order(order),
    ensures
        expand(order, encode_all(chunks, table_of(order))) == chunks.flatten(),
    decreases chunks.len(),
{
    chunks.lemma_flatten_and_flatten_alt_are_equivalent();
    if chunks.len() > 0 {
        let front = chunks.drop_last();
        lemma_encode_round_trip(order, front);
        front.lemma_flatten_and_flatten_alt_are_equivalent();
        let last = encode_symbols(symbols_of(chunks.last()), table_of(order));
        lemma_expand_concat(order, encode_all(front, table_of(order)), last);
        lemma_expand_encode(order, symbols_of(chunks.last()));
        lemma_expand_bytes(order, chunks.last());
    }
}

/// `symbols` after the merges of `order` from place `from` on, each applied
/// once, in the order in which they were learned.
pub open spec fn replay(symbols: Seq<TokenId>, order: Seq<Pair>, from: int) -> Seq<TokenId>
    decreases order.len() - from,
{
    if 0 <= from < order.len() {
        replay(
            apply_merge(symbols, order[from], (BASE_TOKENS + from) as TokenId),
            order,
            from + 1,
        )
    } else {
        symbols
    }
}

/// Encoding follows the order of learning. Where no pair was learned
/// twice, applying the lowest merge again and again comes to the same as
/// one pass over the merges in the order of their ids. This holds from any
/// place of that pass on: for symbols that the merges before `from` have
/// left nothing to do in.
pub proof fn lemma_encode_is_replay(symbols: Seq<TokenId>, order: Seq<Pair>, from: int)
    requires
        ids_fit(order),
        build_order(order),
        order.no_duplicates(),
        0 <= from <= order.len(),
        symbols_below(symbols, BASE_TOKENS + from),
        forall|j: int| 0 <= j < from ==> !has_pair(symbols, #[trigger] order[j]),
    ensures
        encode_symbols(symbols, table_of(order)) == replay(symbols, order, from),
    decreases order.len() - from,
{
    let table = table_of(order);
    if from == order.len() {
        assert forall|pair: Pair| !is_lowest_merge(symbols, table, pair) by {
            if is_lowest_merge(symbols, table, pair) {
                lemma_table_of(order, pair);
                let rank = table[pair] - BASE_TOKENS;
                assert(!has_pair(symbols, order[rank]));
            }
        }
    } else {
        let pair = order[from];
        let id = (BASE_TOKENS + from) as TokenId;
        let merged = apply_merge(symbols, pair, id);
        lemma_table_rank(order, from);
        if has_pair(symbols, pair) {
            assert forall|other: Pair|
                has_pair(symbols, other) && table.contains_key(other) implies table[pair]
                <= table[other] by {
                lemma_table_of(order, other);
                let rank = table[other] - BASE_TOKENS;
                if rank < from {
                    assert(!has_pair(symbols, order[rank]));
                }
            }
            assert(is_lowest_merge(symbols, table, pair));
            let chosen = choose|p: Pair| is_lowest_merge(symbols, table, p);
            lemma_table_injective(order);
            lemma_lowest_merge_unique(symbols, table, pair, chosen);
            assert(lowest_merge(symbols, table) == Some((pair, id)));
            lemma_merge_removes_pair(symbols, pair, id);
        } else {
            lemma_merge_absent(symbols, pair, id);
        }
        lemma_merge_symbols_below(symbols, pair, id, BASE_TOKENS + from + 1);
        assert forall|j: int| 0 <= j < from + 1 implies !has_pair(merged, #[trigger] order[j]) by {
            if j < from {
                lemma_merge_keeps_absent(symbols, pair, id, order[j]);
            }
        }
        lemma_encode_is_replay(merged, order, from + 1);
    }
}

/// What training leaves of a chunk is the chunk after one pass over the
/// merges that the training learned.
pub proof fn lemma_drilled_is_replay(
    chunks: Seq<Seq<TokenId>>,
    order: Seq<Pair>,
    from: int,
    vocab_size: TokenId,
    c: int,
)
    requires
        ids_fit(order),
        0 <= from <= order.len(),
        order.skip(from) == learned(chunks, (BASE_TOKENS + from) as TokenId, vocab_size),
        0 <= c < chunks.len(),
    ensures
        drilled(chunks, (BASE_TOKENS + from) as TokenId, vocab_size).len() == chunks.len(),
        drilled(chunks, (BASE_TOKENS + from) as TokenId, vocab_size)[c] == replay(
            chunks[c],
            order,
            from,
        ),
    decreases order.len() - from,
{
    let next_id = (BASE_TOKENS + from) as TokenId;
    if from < order.len() {
        assert(order.skip(from)[0] == order[from]);
        if next_id < vocab_size {
            match best_pair(chunks) {
                None => {},
                Some(pair) => {
                    let after = merge_all(chunks, pair, next_id);
                    let rest = learned(after, (next_id + 1) as TokenId, vocab_size);
                    assert((seq![pair] + rest)[0] == pair);
                    assert(order.skip(from + 1) == order.skip(from).skip(1));
                    assert((seq![pair] + rest).skip(1) == rest);
                    lemma_drilled_is_replay(after, order, from + 1, vocab_size, c);
                },
            }
        }
    } else {
        assert(order.skip(from).len() == 0);
        if next_id < vocab_size {
            match best_pair(chunks) {
                None => {},
                Some(pair) => {
                    let after = merge_all(chunks, pair, next_id);
                    let rest = learned(after, (next_id + 1) as TokenId, vocab_size);
                    assert((seq![pair] + rest).len() > 0);
                },
            }
        }
    }
}

/// Encoding what was trained on gives what the training came to: for a
/// table without merges, every chunk of the training text is encoded to the
/// symbols that training left of it.
pub proof fn lemma_encoding_reproduces_training(
    chunks: Seq<Seq<TokenId>>,
    vocab_size: TokenId,
    c: int,
)
    requires
        chunks_below(chunks, BASE_TOKENS as int),
        0 <= c < chunks.len(),
    ensures
        encode_symbols(chunks[c], table_of(trained(Seq::empty(), chunks, vocab_size)))
            == trained_chunks(Seq::empty(), chunks, vocab_size)[c],
{
    let none = Seq::<Pair>::empty();
    let order = trained(none, chunks, vocab_size);
    lemma_trained_build_order(none, chunks, vocab_size);
    if BASE_TOKENS < vocab_size {
        let new = learned(chunks, BASE_TOKENS, vocab_size);
        assert(order == new);
        lemma_learned_distinct(chunks, BASE_TOKENS, vocab_size, Set::empty());
        assert(order.skip(0) == order);
        lemma_drilled_is_replay(chunks, order, 0, vocab_size, c);
        lemma_encode_is_replay(chunks[c], order, 0);
    } else {
        assert(order == none);
        lemma_encode_is_replay(chunks[c], order, 0);
    }
}

/// The first training of a table without merges, on chunks of raw bytes,
/// always gives ids that run from 256 on without gaps.
pub proof fn lemma_first_training_ids_contiguous(chunks: Seq<Seq<TokenId>>, vocab_size: TokenId)
    requires
        chunks_below(chunks, BASE_TOKENS as int),
    ensures
        ids_contiguous(trained(Seq::empty(), chunks, vocab_size)),
{
    let none = Seq::<Pair>::empty();
    lemma_ids_contiguous(none);
    lemma_training_keeps_ids_contiguous(none, chunks, vocab_size);
}

/// The bytes of a token do not depend on merges learned after it.
pub proof fn lemma_token_bytes_prefix(order: Seq<Pair>, longer: Seq<Pair>, id: int)
    requires
        order.len() <= longer.len(),
        forall|i: int| 0 <= i < order.len() ==> order[i] == longer[i],
        0 <= id < BASE_TOKENS + order.len(),
    ensures
        token_bytes(longer, id) == token_bytes(order, id),
    decreases id,
{
    if id >= BASE_TOKENS {
        let pair = order[id - BASE_TOKENS];
        if pair.0 < id && pair.1 < id {
            lemma_token_bytes_prefix(order, longer, pair.0 as int);
            lemma_token_bytes_prefix(order, longer, pair.1 as int);
        }
    }
}

/// Training leaves the vocabulary that was there as it was: every id that
/// the table had stands for the same bytes afterwards.
pub proof fn lemma_training_keeps_vocabulary(
    order: Seq<Pair>,
    chunks: Seq<Seq<TokenId>>,
    vocab_size: TokenId,
    id: int,
)
    requires
        0 <= id < BASE_TOKENS + order.len(),
    ensures
        token_bytes(trained(order, chunks, vocab_size), id) == token_bytes(order, id),
{
    lemma_training_grows(order, chunks, vocab_size);
    lemma_token_bytes_prefix(order, trained(order, chunks, vocab_size), id);
}

/// Chunks of fewer than two symbols hold no pair: training learns nothing
/// from them and leaves them as they are.
pub proof fn lemma_nothing_to_learn(order: Seq<Pair>, chunks: Seq<Seq<TokenId>>, vocab_size: TokenId)
    requires
        forall|c: int| 0 <= c < chunks.len() ==> (#[trigger] chunks[c]).len() < 2,
    ensures
        trained(order, chunks, vocab_size) == order,
        trained_chunks(order, chunks, vocab_size) == chunks,
{
    assert forall|pair: Pair| !is_most_frequent(chunks, pair) by {
        lemma_pair_count_positive(chunks, pair);
        assert forall|c: int| 0 <= c < chunks.len() implies !has_pair(
            #[trigger] chunks[c],
            pair,
        ) by {
            assert forall|i: int| !pair_at(chunks[c], i, pair) by {}
        }
    }
    assert(best_pair(chunks) is None);
    assert(order + Seq::<Pair>::empty() == order);
}

/// A vocabulary size that the table has reached leaves nothing to learn.
pub proof fn lemma_vocab_size_reached(
    order: Seq<Pair>,
    chunks: Seq<Seq<TokenId>>,
    vocab_size: TokenId,
)
    requires
        vocab_size <= BASE_TOKENS + order.len(),
    ensures
        trained(order, chunks, vocab_size) == order,
        trained_chunks(order, chunks, vocab_size) == chunks,
{
}

} // verus!
