//! Counting adjacent pairs and choosing the one to merge next.
//!
//! The pair chosen is the most frequent one. Among pairs that are equally
//! frequent the smallest is chosen, pairs being ordered by their left symbol
//! and then by their right symbol.

use crate::key::{key_pair, lemma_key_order, lemma_key_round_trip, pack, pair_key, pair_le, unpack};
use crate::merge::{chunk_views, has_pair, pair_at, Pair, TokenId};
use std::collections::HashMap;
use vstd::prelude::*;
use vstd::std_specs::iter::IteratorSpec;

verus! {

broadcast use vstd::std_specs::hash::group_hash_axioms;

/// How often `pair` occurs in `symbols`, every position counted.
pub open spec fn occurrences(symbols: Seq<TokenId>, pair: Pair) -> nat
    decreases symbols.len(),
{
    if symbols.len() < 2 {
        0
    } else {
        occurrences(symbols.drop_last(), pair) + if pair_at(
            symbols,
            symbols.len() - 2,
            pair,
        ) {
            1nat
        } else {
            0nat
        }
    }
}

/// How often `pair` occurs in all of `chunks` together.
pub open spec fn pair_count(chunks: Seq<Seq<TokenId>>, pair: Pair) -> nat
    decreases chunks.len(),
{
    if chunks.len() == 0 {
        0
    } else {
        pair_count(chunks.drop_last(), pair) + occurrences(chunks.last(), pair)
    }
}

/// `a` is chosen rather than `b`: it is more frequent, or as frequent and
/// not the larger pair.
pub open spec fn outranks(chunks: Seq<Seq<TokenId>>, a: Pair, b: Pair) -> bool {
    pair_count(chunks, a) > pair_count(chunks, b) || (pair_count(chunks, a) == pair_count(
        chunks,
        b,
    ) && pair_le(a, b))
}

/// `pair` occurs in `chunks` and is chosen rather than any other pair that
/// occurs.
pub open spec fn is_most_frequent(chunks: Seq<Seq<TokenId>>, pair: Pair) -> bool {
    &&& pair_count(chunks, pair) > 0
    &&& forall|other: Pair| pair_count(chunks, other) > 0 ==> outranks(chunks, pair, other)
}

/// The pair to merge next, if any pair occurs at all.
pub open spec fn best_pair(chunks: Seq<Seq<TokenId>>) -> Option<Pair> {
    if exists|pair: Pair| is_most_frequent(chunks, pair) {
        Some(choose|pair: Pair| is_most_frequent(chunks, pair))
    } else {
        None
    }
}

/// At most one pair is the most frequent one.
pub proof fn lemma_most_frequent_unique(chunks: Seq<Seq<TokenId>>, a: Pair, b: Pair)
    requires
        is_most_frequent(chunks, a),
        is_most_frequent(chunks, b),
    ensures
        a == b,
{
    assert(outranks(chunks, a, b));
    assert(outranks(chunks, b, a));
}

/// A pair is counted exactly when it occurs.
pub proof fn lemma_occurrences_positive(symbols: Seq<TokenId>, pair: Pair)
    ensures
        occurrences(symbols, pair) > 0 <==> has_pair(symbols, pair),
    decreases symbols.len(),
{
    if symbols.len() >= 2 {
        let shorter = symbols.drop_last();
        lemma_occurrences_positive(shorter, pair);
        if has_pair(symbols, pair) {
            let i = choose|i: int| pair_at(symbols, i, pair);
            if i + 2 < symbols.len() {
                assert(pair_at(shorter, i, pair));
            }
        }
        if has_pair(shorter, pair) {
            let i = choose|i: int| pair_at(shorter, i, pair);
            assert(pair_at(symbols, i, pair));
        }
    }
}

/// A pair is counted over all chunks exactly when it occurs in one of them.
pub proof fn lemma_pair_count_positive(chunks: Seq<Seq<TokenId>>, pair: Pair)
    ensures
        pair_count(chunks, pair) > 0 <==> exists|c: int|
            0 <= c < chunks.len() && has_pair(#[trigger] chunks[c], pair),
    decreases chunks.len(),
{
    if chunks.len() > 0 {
        let fewer = chunks.drop_last();
        lemma_pair_count_positive(fewer, pair);
        lemma_occurrences_positive(chunks.last(), pair);
        if pair_count(fewer, pair) > 0 {
            let c = choose|c: int| 0 <= c < fewer.len() && has_pair(#[trigger] fewer[c], pair);
            assert(has_pair(chunks[c], pair));
        }
        if exists|c: int| 0 <= c < chunks.len() && has_pair(#[trigger] chunks[c], pair) {
            let c = choose|c: int| 0 <= c < chunks.len() && has_pair(#[trigger] chunks[c], pair);
            if c < fewer.len() {
                assert(has_pair(fewer[c], pair));
            }
        }
    }
}

/// The occurrences of a pair in `chunks` and in the part of a further chunk
/// that was read so far.
spec fn tally(chunks: Seq<Seq<TokenId>>, partial: Seq<TokenId>, pair: Pair) -> nat {
    pair_count(chunks, pair) + occurrences(partial, pair)
}

/// `counts` holds, under its key, every pair that the tally counts.
spec fn holds_tally(counts: Map<u64, u128>, chunks: Seq<Seq<TokenId>>, partial: Seq<TokenId>) -> bool {
    &&& forall|key: u64| #[trigger]
        counts.contains_key(key) <==> tally(chunks, partial, key_pair(key)) > 0
    &&& forall|key: u64| #[trigger]
        counts.contains_key(key) ==> counts[key] == tally(chunks, partial, key_pair(key))
}

/// Counts every adjacent pair of every chunk.
fn count_pairs(chunks: &Vec<Vec<TokenId>>) -> (counts: HashMap<u64, u128>)
    ensures
        holds_tally(counts@, chunk_views(chunks@), Seq::empty()),
{
    let mut counts: HashMap<u64, u128> = HashMap::new();
    let ghost all = chunk_views(chunks@);
    let mut c: usize = 0;
    proof {
        assert(all.take(0).len() == 0);
    }
    while c < chunks.len()
        invariant
            c <= chunks.len(),
            all == chunk_views(chunks@),
            holds_tally(counts@, all.take(c as int), Seq::empty()),
            forall|key: u64| #[trigger]
                counts@.contains_key(key) ==> counts@[key] <= c * 0x1_0000_0000_0000_0000,
        decreases chunks.len() - c,
    {
        let chunk = &chunks[c];
        let ghost done = all.take(c as int);
        if chunk.len() >= 2 {
            let mut i: usize = 1;
            proof {
                assert(chunk@.take(1).len() == 1);
            }
            while i < chunk.len()
                invariant
                    1 <= i <= chunk.len(),
                    c < chunks.len(),
                    chunk == &chunks[c as int],
                    holds_tally(counts@, done, chunk@.take(i as int)),
                    forall|key: u64| #[trigger]
                        counts@.contains_key(key) ==> counts@[key] <= c
                            * 0x1_0000_0000_0000_0000 + i,
                decreases chunk.len() - i,
            {
                let pair: Pair = (chunk[i - 1], chunk[i]);
                let key = pack(pair);
                let ghost before = counts@;
                let ghost read = chunk@.take(i as int);
                let ghost longer = chunk@.take(i + 1);
                let seen: u128 = match counts.get(&key) {
                    Some(n) => *n,
                    None => 0,
                };
                counts.insert(key, seen + 1);
                proof {
                    assert(longer.drop_last() == read);
                    assert(pair_at(longer, i - 1, pair));
                    assert forall|key2: u64| #[trigger]
                        counts@.contains_key(key2) <==> tally(done, longer, key_pair(key2))
                            > 0 by {
                        lemma_key_round_trip(pair, key2);
                    }
                    assert forall|key2: u64| #[trigger] counts@.contains_key(key2) implies counts@[key2]
                        == tally(done, longer, key_pair(key2)) by {
                        lemma_key_round_trip(pair, key2);
                    }
                }
                i += 1;
            }
            proof {
                assert(chunk@.take(i as int) == chunk@);
            }
        }
        proof {
            let next = all.take(c + 1);
            assert(next.drop_last() == done);
            assert(next.last() == chunk@);
            assert forall|key2: u64| #[trigger]
                counts@.contains_key(key2) <==> tally(next, Seq::empty(), key_pair(key2))
                    > 0 by {}
            assert forall|key2: u64| #[trigger] counts@.contains_key(key2) implies counts@[key2]
                == tally(next, Seq::empty(), key_pair(key2)) by {}
        }
        c += 1;
    }
    proof {
        assert(all.take(c as int) == all);
    }
    counts
}

/// `a` is chosen rather than `b`, by the counts and keys of the two.
spec fn key_outranks(counts: Map<u64, u128>, a: u64, b: u64) -> bool {
    counts[a] > counts[b] || (counts[a] == counts[b] && a <= b)
}

/// The most frequent adjacent pair of `chunks`; among equally frequent
/// pairs the smallest. `None` when no chunk has two symbols.
pub fn most_frequent_pair(chunks: &Vec<Vec<TokenId>>) -> (best: Option<Pair>)
    ensures
        best == best_pair(chunk_views(chunks@)),
        match best {
            Some(pair) => is_most_frequent(chunk_views(chunks@), pair),
            None => forall|other: Pair| pair_count(chunk_views(chunks@), other) == 0,
        },
{
    let counts = count_pairs(chunks);
    let ghost all = chunk_views(chunks@);
    let ghost keys: Seq<u64> = counts.keys().remaining().unref();
    let mut best: Option<(u64, u128)> = None;
    for key in it: counts.keys()
        invariant
            it.seq().unref() == keys,
            keys.to_set() == counts@.dom(),
            match best {
                Some((best_key, best_count)) => {
                    &&& counts@.contains_key(best_key)
                    &&& best_count == counts@[best_key]
                    &&& forall|j: int|
                        0 <= j < it.index() ==> key_outranks(counts@, best_key, #[trigger] keys[j])
                },
                None => it.index() == 0,
            },
    {
        proof {
            assert(keys[it.index()] == *key);
            assert(keys.to_set().contains(*key));
        }
        let n: u128 = match counts.get(key) {
            Some(n) => *n,
            None => 0,
        };
        let better = match best {
            Some((best_key, best_count)) => n > best_count || (n == best_count && *key < best_key),
            None => true,
        };
        if better {
            best = Some((*key, n));
        }
    }
    match best {
        Some((best_key, _)) => {
            let pair = unpack(best_key);
            proof {
                lemma_key_round_trip(pair, best_key);
                assert forall|other: Pair| pair_count(all, other) > 0 implies outranks(
                    all,
                    pair,
                    other,
                ) by {
                    let other_key = pair_key(other);
                    lemma_key_round_trip(other, other_key);
                    lemma_key_order(pair, other);
                    assert(counts@.contains_key(other_key));
                    assert(keys.to_set().contains(other_key));
                    let at = choose|at: int| 0 <= at < keys.len() && keys[at] == other_key;
                    assert(key_outranks(counts@, best_key, keys[at]));
                }
                assert(is_most_frequent(all, pair));
                let chosen = choose|p: Pair| is_most_frequent(all, p);
                lemma_most_frequent_unique(all, pair, chosen);
            }
            Some(pair)
        },
        None => {
            proof {
                assert forall|other: Pair| pair_count(all, other) == 0 by {
                    let other_key = pair_key(other);
                    lemma_key_round_trip(other, other_key);
                    if pair_count(all, other) > 0 {
                        assert(counts@.contains_key(other_key));
                        assert(keys.to_set().contains(other_key));
                    }
                }
            }
            None
        },
    }
}

} // verus!
