//! Pairs as integer keys, and the order among pairs.

use crate::merge::Pair;
use vstd::prelude::*;

verus! {

/// The key that stands for `pair` in a hash map: left in the high half,
/// right in the low half.
pub open spec fn pair_key(pair: Pair) -> u64 {
    (pair.0 as int * 0x1_0000_0000 + pair.1 as int) as u64
}

/// The pair that `key` stands for.
pub open spec fn key_pair(key: u64) -> Pair {
    ((key as int / 0x1_0000_0000) as u32, (key as int % 0x1_0000_0000) as u32)
}

/// `a` comes no later than `b` when pairs are ordered by their left symbol
/// and then by their right symbol.
pub open spec fn pair_le(a: Pair, b: Pair) -> bool {
    a.0 < b.0 || (a.0 == b.0 && a.1 <= b.1)
}

/// Keys and pairs correspond one to one.
pub proof fn lemma_key_round_trip(pair: Pair, key: u64)
    ensures
        key_pair(pair_key(pair)) == pair,
        pair_key(key_pair(key)) == key,
{
}

/// The order of the keys is the order of the pairs.
pub proof fn lemma_key_order(a: Pair, b: Pair)
    ensures
        pair_le(a, b) <==> pair_key(a) <= pair_key(b),
{
}

pub fn pack(pair: Pair) -> (key: u64)
    ensures
        key == pair_key(pair),
{
    (pair.0 as u64) * 0x1_0000_0000 + (pair.1 as u64)
}

pub fn unpack(key: u64) -> (pair: Pair)
    ensures
        pair == key_pair(key),
{
    ((key / 0x1_0000_0000) as u32, (key % 0x1_0000_0000) as u32)
}

} // verus!
