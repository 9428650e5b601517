//! The vocabulary: the byte string that every token id stands for.

use crate::merge::{Pair, TokenId, BASE_TOKENS};
use crate::table::{build_order, ids_fit, MergeTable};
use vstd::prelude::*;

verus! {

/// The bytes that the token `id` stands for under the learning order
/// `order`: a raw byte for itself, a merge for the bytes of its left half
/// followed by those of its right half.
pub open spec fn token_bytes(order: Seq<Pair>, id: int) -> Seq<u8>
    decreases id,
{
    if 0 <= id < BASE_TOKENS {
        seq![id as u8]
    } else if BASE_TOKENS <= id < BASE_TOKENS + order.len() && order[id - BASE_TOKENS].0 < id
        && order[id - BASE_TOKENS].1 < id {
        token_bytes(order, order[id - BASE_TOKENS].0 as int) + token_bytes(
            order,
            order[id - BASE_TOKENS].1 as int,
        )
    } else {
        Seq::empty()
    }
}

/// The bytes that a sequence of tokens stands for.
pub open spec fn expand(order: Seq<Pair>, tokens: Seq<TokenId>) -> Seq<u8>
    decreases tokens.len(),
{
    if tokens.len() == 0 {
        Seq::empty()
    } else {
        expand(order, tokens.drop_last()) + token_bytes(order, tokens.last() as int)
    }
}

/// A raw byte stands for one byte; a merge stands for as many bytes as its
/// two halves together.
pub proof fn lemma_token_bytes_len(order: Seq<Pair>, id: int)
    requires
        build_order(order),
        0 <= id < BASE_TOKENS + order.len(),
    ensures
        id < BASE_TOKENS ==> token_bytes(order, id).len() == 1,
        id >= BASE_TOKENS ==> token_bytes(order, id).len() == token_bytes(
            order,
            order[id - BASE_TOKENS].0 as int,
        ).len() + token_bytes(order, order[id - BASE_TOKENS].1 as int).len(),
        token_bytes(order, id).len() >= 1,
    decreases id,
{
    if id >= BASE_TOKENS {
        let pair = order[id - BASE_TOKENS];
        lemma_token_bytes_len(order, pair.0 as int);
        lemma_token_bytes_len(order, pair.1 as int);
    }
}

/// The bytes of `left` followed by those of `right`.
fn join_bytes(left: &Vec<u8>, right: &Vec<u8>) -> (joined: Vec<u8>)
    ensures
        joined@ == left@ + right@,
{
    let mut joined: Vec<u8> = Vec::new();
    let mut i: usize = 0;
    while i < left.len()
        invariant
            i <= left.len(),
            joined@ == left@.take(i as int),
        decreases left.len() - i,
    {
        joined.push(left[i]);
        i += 1;
    }
    assert(left@.take(i as int) == left@);
    let mut j: usize = 0;
    while j < right.len()
        invariant
            j <= right.len(),
            joined@ == left@ + right@.take(j as int),
        decreases right.len() - j,
    {
        joined.push(right[j]);
        j += 1;
    }
    assert(right@.take(j as int) == right@);
    joined
}

/// The vocabulary of `table`: for every id, in the order of the ids, the
/// bytes it stands for and the id. The first 256 entries are the single
/// bytes; the merges follow in the order in which they were learned, one
/// entry for each id ever given.
pub fn mergeable_ranks(table: &MergeTable) -> (ranks: Vec<(Vec<u8>, TokenId)>)
    ensures
        ranks.len() == BASE_TOKENS + table.order().len(),
        forall|i: int| 0 <= i < ranks.len() ==> (#[trigger] ranks[i]).1 == i,
        forall|i: int|
            0 <= i < ranks.len() ==> (#[trigger] ranks[i]).0@ == token_bytes(table.order(), i),
        forall|i: int| 0 <= i < BASE_TOKENS ==> (#[trigger] ranks[i]).0@ == seq![i as u8],
        forall|i: int|
            BASE_TOKENS <= i < ranks.len() ==> (#[trigger] ranks[i]).0@ == ranks[table.order()[i
                - BASE_TOKENS].0 as int].0@ + ranks[table.order()[i - BASE_TOKENS].1 as int].0@,
{
    proof {
        use_type_invariant(table);
        table.lemma_well_formed();
    }
    let ghost order = table.order();
    let mut ranks: Vec<(Vec<u8>, TokenId)> = Vec::new();
    let mut byte: u32 = 0;
    while byte < BASE_TOKENS
        invariant
            byte <= BASE_TOKENS,
            ranks.len() == byte,
            forall|i: int| 0 <= i < ranks.len() ==> (#[trigger] ranks[i]).1 == i,
            forall|i: int| 0 <= i < ranks.len() ==> (#[trigger] ranks[i]).0@ == seq![i as u8],
        decreases BASE_TOKENS - byte,
    {
        let mut bytes: Vec<u8> = Vec::new();
        bytes.push(byte as u8);
        ranks.push((bytes, byte));
        byte += 1;
    }
    let known = table.len();
    let mut rank: usize = 0;
    while rank < known
        invariant
            rank <= known,
            known == order.len(),
            order == table.order(),
            ids_fit(order),
            build_order(order),
            ranks.len() == BASE_TOKENS + rank,
            forall|i: int| 0 <= i < ranks.len() ==> (#[trigger] ranks[i]).1 == i,
            forall|i: int| 0 <= i < ranks.len() ==> (#[trigger] ranks[i]).0@ == token_bytes(order, i),
            forall|i: int| 0 <= i < BASE_TOKENS ==> (#[trigger] ranks[i]).0@ == seq![i as u8],
            forall|i: int|
                BASE_TOKENS <= i < ranks.len() ==> (#[trigger] ranks[i]).0@ == ranks[order[i
                    - BASE_TOKENS].0 as int].0@ + ranks[order[i - BASE_TOKENS].1 as int].0@,
        decreases known - rank,
    {
        let ghost before = ranks@;
        match table.pair_at_rank(rank) {
            Some((left, right)) => {
                assert(order[rank as int].0 < BASE_TOKENS + rank);
                let bytes = join_bytes(&ranks[left as usize].0, &ranks[right as usize].0);
                ranks.push((bytes, BASE_TOKENS + rank as u32));
                proof {
                    assert forall|i: int| 0 <= i < ranks.len() implies (#[trigger] ranks[i]).0@
                        == token_bytes(order, i) by {
                        if i < before.len() {
                            assert(ranks[i] == before[i]);
                        }
                    }
                    assert forall|i: int| BASE_TOKENS <= i < ranks.len() implies (
                    #[trigger] ranks[i]).0@ == ranks[order[i - BASE_TOKENS].0 as int].0@
                        + ranks[order[i - BASE_TOKENS].1 as int].0@ by {
                        let pair = order[i - BASE_TOKENS];
                        assert(pair.0 < BASE_TOKENS + (i - BASE_TOKENS));
                        assert(ranks[pair.0 as int] == before[pair.0 as int]);
                        assert(ranks[pair.1 as int] == before[pair.1 as int]);
                        if i < before.len() {
                            assert(ranks[i] == before[i]);
                        }
                    }
                }
            },
            None => {},
        }
        rank += 1;
    }
    ranks
}

} // verus!
