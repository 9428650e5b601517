//! The merge table: which pair of symbols becomes which token id.
//!
//! A table is the list of learned pairs in the order in which they were
//! learned. The pair at position `i` of that list received the id `256 + i`.
//! Where a pair was learned more than once, the latest id is the one that
//! the table gives for it.

use crate::key::{key_pair, lemma_key_round_trip, pack};
use crate::merge::{Pair, TokenId, BASE_TOKENS};
use std::collections::HashMap;
use vstd::prelude::*;

verus! {

broadcast use vstd::std_specs::hash::group_hash_axioms;

/// The mapping from pairs to ids that recording `order`, pair by pair,
/// produces: each pair receives the next id, and a pair recorded again is
/// given the new id.
pub open spec fn table_of(order: Seq<Pair>) -> Map<Pair, TokenId>
    decreases order.len(),
{
    if order.len() == 0 {
        Map::empty()
    } else {
        table_of(order.drop_last()).insert(
            order.last(),
            (BASE_TOKENS + order.len() - 1) as TokenId,
        )
    }
}

/// Every merge is made of ids that existed before it: raw bytes, or merges
/// learned earlier.
pub open spec fn build_order(order: Seq<Pair>) -> bool {
    forall|i: int|
        0 <= i < order.len() ==> (#[trigger] order[i]).0 < BASE_TOKENS + i && order[i].1
            < BASE_TOKENS + i
}

/// The ids of all merges fit the id type.
pub open spec fn ids_fit(order: Seq<Pair>) -> bool {
    BASE_TOKENS + order.len() <= u32::MAX + 1
}

/// No two pairs of the table have one id.
pub open spec fn injective(table: Map<Pair, TokenId>) -> bool {
    forall|a: Pair, b: Pair|
        table.contains_key(a) && table.contains_key(b) && table[a] == table[b] ==> a == b
}

/// What the table says of a pair, read off the learning order: it holds
/// the pairs of the order and no others, and gives a pair the id of the
/// last place at which the pair stands.
pub proof fn lemma_table_of(order: Seq<Pair>, pair: Pair)
    requires
        ids_fit(order),
    ensures
        table_of(order).contains_key(pair) <==> order.contains(pair),
        table_of(order).contains_key(pair) ==> {
            let rank = table_of(order)[pair] - BASE_TOKENS;
            &&& 0 <= rank < order.len()
            &&& order[rank] == pair
            &&& forall|later: int| rank < later < order.len() ==> order[later] != pair
        },
    decreases order.len(),
{
    if order.len() > 0 {
        let earlier = order.drop_last();
        lemma_table_of(earlier, pair);
        if order.last() == pair {
            assert(order[order.len() - 1] == pair);
        } else {
            if earlier.contains(pair) {
                let at = choose|at: int| 0 <= at < earlier.len() && earlier[at] == pair;
                assert(order[at] == pair);
            }
            if order.contains(pair) {
                let at = choose|at: int| 0 <= at < order.len() && order[at] == pair;
                assert(earlier[at] == pair);
            }
            if table_of(order).contains_key(pair) {
                let rank = table_of(earlier)[pair] - BASE_TOKENS;
                assert(order[rank] == earlier[rank]);
                assert forall|later: int| rank < later < order.len() implies order[later]
                    != pair by {
                    if later < earlier.len() {
                        assert(order[later] == earlier[later]);
                    }
                }
            }
        }
    }
}

/// The table of any learning order gives different pairs different ids.
pub proof fn lemma_table_injective(order: Seq<Pair>)
    requires
        ids_fit(order),
    ensures
        injective(table_of(order)),
{
    let table = table_of(order);
    assert forall|a: Pair, b: Pair|
        table.contains_key(a) && table.contains_key(b) && table[a] == table[b] implies a
        == b by {
        lemma_table_of(order, a);
        lemma_table_of(order, b);
    }
}

/// Where no pair was learned twice, the pair at place `rank` has the id
/// `256 + rank`.
pub proof fn lemma_table_rank(order: Seq<Pair>, rank: int)
    requires
        ids_fit(order),
        order.no_duplicates(),
        0 <= rank < order.len(),
    ensures
        table_of(order).contains_key(order[rank]),
        table_of(order)[order[rank]] == BASE_TOKENS + rank,
{
    lemma_table_of(order, order[rank]);
}

/// The learned merges, with an index from pair to id for lookups.
pub struct MergeTable {
    order: Vec<Pair>,
    index: HashMap<u64, TokenId>,
}

impl View for MergeTable {
    type V = Map<Pair, TokenId>;

    open spec fn view(&self) -> Map<Pair, TokenId> {
        table_of(self.order())
    }
}

impl MergeTable {
    /// What holds of every table: the ids fit, the merges stand in build
    /// order, and the index agrees with the learning order.
    #[verifier::type_invariant]
    pub closed spec fn well_formed(self) -> bool {
        &&& ids_fit(self.order@)
        &&& build_order(self.order@)
        &&& forall|key: u64| #[trigger]
            self.index@.contains_key(key) <==> table_of(self.order@).contains_key(key_pair(key))
        &&& forall|key: u64| #[trigger]
            self.index@.contains_key(key) ==> self.index@[key] == table_of(self.order@)[key_pair(
                key,
            )]
    }

    /// The learned pairs, in the order of their ids.
    pub closed spec fn order(&self) -> Seq<Pair> {
        self.order@
    }

    /// What a well-formed table gives to its users.
    pub proof fn lemma_well_formed(self)
        requires
            self.well_formed(),
        ensures
            ids_fit(self.order()),
            build_order(self.order()),
            injective(self@),
    {
        lemma_table_injective(self.order());
    }

    /// A table without merges.
    pub fn new() -> (table: Self)
        ensures
            table.order() == Seq::<Pair>::empty(),
    {
        MergeTable { order: Vec::new(), index: HashMap::new() }
    }

    /// The number of merges learned.
    pub fn len(&self) -> (n: usize)
        ensures
            n == self.order().len(),
    {
        self.order.len()
    }

    /// The id that the table gives for `pair`, if it holds the pair.
    pub fn get(&self, pair: Pair) -> (id: Option<TokenId>)
        ensures
            id == (if self@.contains_key(pair) {
                Some(self@[pair])
            } else {
                None
            }),
    {
        proof {
            use_type_invariant(self);
            lemma_key_round_trip(pair, 0);
        }
        let key = pack(pair);
        match self.index.get(&key) {
            Some(id) => Some(*id),
            None => None,
        }
    }

    /// The pair learned at place `rank`, which has the id `256 + rank`.
    pub fn pair_at_rank(&self, rank: usize) -> (pair: Option<Pair>)
        ensures
            pair == (if rank < self.order().len() {
                Some(self.order()[rank as int])
            } else {
                None
            }),
    {
        if rank < self.order.len() {
            Some(self.order[rank])
        } else {
            None
        }
    }

    /// Records `pair` under the next id and returns that id.
    pub(crate) fn record(&mut self, pair: Pair) -> (id: TokenId)
        requires
            BASE_TOKENS + old(self).order().len() <= u32::MAX,
            pair.0 < BASE_TOKENS + old(self).order().len(),
            pair.1 < BASE_TOKENS + old(self).order().len(),
        ensures
            final(self).order() == old(self).order().push(pair),
            id == BASE_TOKENS + old(self).order().len(),
    {
        proof {
            use_type_invariant(&*self);
        }
        let mut taken = MergeTable::new();
        std::mem::swap(&mut taken, self);
        let MergeTable { mut order, mut index } = taken;
        let ghost before = order@;
        let id: TokenId = BASE_TOKENS + order.len() as u32;
        let key = pack(pair);
        order.push(pair);
        index.insert(key, id);
        proof {
            assert(order@.drop_last() == before);
            assert forall|key2: u64| #[trigger]
                index@.contains_key(key2) <==> table_of(order@).contains_key(key_pair(key2)) by {
                lemma_key_round_trip(pair, key2);
            }
            assert forall|key2: u64| #[trigger] index@.contains_key(key2) implies index@[key2]
                == table_of(order@)[key_pair(key2)] by {
                lemma_key_round_trip(pair, key2);
            }
        }
        *self = MergeTable { order, index };
        id
    }
}

} // verus!
