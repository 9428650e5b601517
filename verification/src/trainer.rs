//! Learning merges: count, choose the most frequent pair, give it the next
//! id, rewrite every chunk, and repeat.

use crate::frequency::{
    best_pair, lemma_pair_count_positive, most_frequent_pair, pair_count,
};
use crate::merge::{
    apply_merge, chunk_views, has_pair, lemma_merge_symbols_below, merge_pair, pair_at,
    symbols_below, Pair, TokenId, BASE_TOKENS,
};
use crate::table::MergeTable;
use vstd::prelude::*;

verus! {

/// Every chunk after the merge of `pair` into `new_id`.
pub open spec fn merge_all(chunks: Seq<Seq<TokenId>>, pair: Pair, new_id: TokenId) -> Seq<
    Seq<TokenId>,
> {
    chunks.map_values(|chunk: Seq<TokenId>| apply_merge(chunk, pair, new_id))
}

/// The pairs that training learns from `chunks`, in the order in which it
/// learns them, when the next free id is `next_id`: as long as ids below
/// `vocab_size` are left and some pair occurs, the most frequent pair is
/// learned and merged everywhere.
pub open spec fn learned(chunks: Seq<Seq<TokenId>>, next_id: TokenId, vocab_size: TokenId) -> Seq<
    Pair,
>
    decreases vocab_size - next_id,
{
    if next_id >= vocab_size {
        Seq::empty()
    } else {
        match best_pair(chunks) {
            None => Seq::empty(),
            Some(pair) => seq![pair] + learned(
                merge_all(chunks, pair, next_id),
                (next_id + 1) as TokenId,
                vocab_size,
            ),
        }
    }
}

/// What training makes of `chunks` when the next free id is `next_id`: the
/// chunks after every merge that it learns.
pub open spec fn drilled(chunks: Seq<Seq<TokenId>>, next_id: TokenId, vocab_size: TokenId) -> Seq<
    Seq<TokenId>,
>
    decreases vocab_size - next_id,
{
    if next_id >= vocab_size {
        chunks
    } else {
        match best_pair(chunks) {
            None => chunks,
            Some(pair) => drilled(
                merge_all(chunks, pair, next_id),
                (next_id + 1) as TokenId,
                vocab_size,
            ),
        }
    }
}

/// What training up to `vocab_size` makes of `chunks`, for a table that
/// held `order` before.
pub open spec fn trained_chunks(
    order: Seq<Pair>,
    chunks: Seq<Seq<TokenId>>,
    vocab_size: TokenId,
) -> Seq<Seq<TokenId>> {
    if BASE_TOKENS + order.len() >= vocab_size {
        chunks
    } else {
        drilled(chunks, (BASE_TOKENS + order.len()) as TokenId, vocab_size)
    }
}

/// The learning order after training on `chunks` up to `vocab_size`, for a
/// table that held `order` before. Ids go on from where the table stands.
pub open spec fn trained(order: Seq<Pair>, chunks: Seq<Seq<TokenId>>, vocab_size: TokenId) -> Seq<
    Pair,
> {
    if BASE_TOKENS + order.len() >= vocab_size {
        order
    } else {
        order + learned(chunks, (BASE_TOKENS + order.len()) as TokenId, vocab_size)
    }
}

/// All symbols of all chunks are below `bound`.
pub open spec fn chunks_below(chunks: Seq<Seq<TokenId>>, bound: int) -> bool {
    forall|c: int| 0 <= c < chunks.len() ==> symbols_below(#[trigger] chunks[c], bound)
}

/// The most frequent pair is made of symbols that occur.
pub proof fn lemma_best_pair_below(chunks: Seq<Seq<TokenId>>, pair: Pair, bound: int)
    requires
        chunks_below(chunks, bound),
        pair_count(chunks, pair) > 0,
    ensures
        pair.0 < bound,
        pair.1 < bound,
{
    lemma_pair_count_positive(chunks, pair);
    let c = choose|c: int| 0 <= c < chunks.len() && has_pair(#[trigger] chunks[c], pair);
    let i = choose|i: int| pair_at(chunks[c], i, pair);
    assert(chunks[c][i] < bound);
    assert(chunks[c][i + 1] < bound);
}

/// Merging with an id below the bound keeps all chunks below the bound.
pub proof fn lemma_merge_all_below(
    chunks: Seq<Seq<TokenId>>,
    pair: Pair,
    new_id: TokenId,
    bound: int,
)
    requires
        chunks_below(chunks, bound),
        new_id < bound,
    ensures
        chunks_below(merge_all(chunks, pair, new_id), bound),
{
    let merged = merge_all(chunks, pair, new_id);
    assert forall|c: int| 0 <= c < merged.len() implies symbols_below(
        #[trigger] merged[c],
        bound,
    ) by {
        assert(symbols_below(chunks[c], bound));
        lemma_merge_symbols_below(chunks[c], pair, new_id, bound);
    }
}

/// Rewrites every chunk by the merge of `pair` into `new_id`.
pub fn merge_in_all(chunks: &mut Vec<Vec<TokenId>>, pair: Pair, new_id: TokenId)
    ensures
        chunk_views(final(chunks)@) == merge_all(chunk_views(old(chunks)@), pair, new_id),
{
    let ghost before = chunk_views(chunks@);
    let mut c: usize = 0;
    while c < chunks.len()
        invariant
            c <= chunks.len(),
            chunks.len() == before.len(),
            forall|j: int| 0 <= j < c ==> (#[trigger] chunks[j])@ == apply_merge(before[j], pair, new_id),
            forall|j: int| c <= j < chunks.len() ==> (#[trigger] chunks[j])@ == before[j],
        decreases chunks.len() - c,
    {
        let merged = merge_pair(chunks[c].as_slice(), pair, new_id);
        chunks.set(c, merged);
        c += 1;
    }
    assert(chunk_views(chunks@) =~= merge_all(before, pair, new_id));
}

/// Trains `table` on `chunks` until the next id would reach `vocab_size` or
/// no pair is left, and leaves in `chunks` what the merges made of them.
pub(crate) fn learn_merges(table: &mut MergeTable, chunks: &mut Vec<Vec<TokenId>>, vocab_size: TokenId)
    requires
        chunks_below(chunk_views(old(chunks)@), BASE_TOKENS + old(table).order().len()),
    ensures
        final(table).order() == trained(
            old(table).order(),
            chunk_views(old(chunks)@),
            vocab_size,
        ),
        chunk_views(final(chunks)@) == trained_chunks(
            old(table).order(),
            chunk_views(old(chunks)@),
            vocab_size,
        ),
{
    proof {
        use_type_invariant(&*table);
        table.lemma_well_formed();
    }
    let known = table.len();
    if known as u64 + BASE_TOKENS as u64 >= vocab_size as u64 {
        return ;
    }
    let mut next_id: TokenId = BASE_TOKENS + known as u32;
    let ghost first_id = next_id;
    let ghost first_order = table.order();
    let ghost first_chunks = chunk_views(chunks@);
    let ghost goal = first_order + learned(first_chunks, first_id, vocab_size);
    let ghost goal_chunks = drilled(first_chunks, first_id, vocab_size);
    while next_id < vocab_size
        invariant_except_break
            next_id == BASE_TOKENS + table.order().len(),
            next_id <= vocab_size,
            chunks_below(chunk_views(chunks@), next_id as int),
            goal == table.order() + learned(chunk_views(chunks@), next_id, vocab_size),
            goal_chunks == drilled(chunk_views(chunks@), next_id, vocab_size),
        ensures
            table.order() == goal,
            chunk_views(chunks@) == goal_chunks,
        decreases vocab_size - next_id,
    {
        let ghost current = chunk_views(chunks@);
        match most_frequent_pair(chunks) {
            None => {
                proof {
                    assert(table.order() + Seq::<Pair>::empty() == table.order());
                }
                break ;
            },
            Some(pair) => {
                proof {
                    lemma_best_pair_below(current, pair, next_id as int);
                    lemma_merge_all_below(current, pair, next_id, next_id + 1);
                }
                let ghost order_before = table.order();
                let id = table.record(pair);
                merge_in_all(chunks, pair, id);
                proof {
                    let rest = learned(
                        merge_all(current, pair, next_id),
                        (next_id + 1) as TokenId,
                        vocab_size,
                    );
                    assert(order_before.push(pair) + rest == order_before + (seq![pair] + rest));
                }
                next_id += 1;
            },
        }
    }
    proof {
        assert(table.order() + Seq::<Pair>::empty() == table.order());
    }
}

} // verus!
