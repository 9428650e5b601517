use mybpe::trainer::merge_in_all;
use mybpe::{MergeTable, Tokenizer};

fn fresh() -> Tokenizer {
    Tokenizer::new().expect("the default pattern compiles")
}

fn bytes(chunks: &[&str]) -> Vec<Vec<u8>> {
    chunks.iter().map(|chunk| chunk.as_bytes().to_vec()).collect()
}

fn pairs_in_order(table: &MergeTable) -> Vec<(u32, u32)> {
    (0..table.len()).map(|rank| table.pair_at_rank(rank).unwrap()).collect()
}

#[test]
fn merge_in_all_rewrites_every_chunk() {
    let mut chunks = vec![vec![1, 2, 3], vec![], vec![2, 1, 2], vec![1]];
    merge_in_all(&mut chunks, (1, 2), 300);
    assert_eq!(chunks, vec![vec![300, 3], vec![], vec![2, 300], vec![1]]);
}

#[test]
fn empty_table_knows_nothing() {
    let table = MergeTable::new();
    assert_eq!(table.len(), 0);
    assert_eq!(table.get((97, 97)), None);
    assert_eq!(table.pair_at_rank(0), None);
}

#[test]
fn vocab_size_of_base_alphabet_learns_nothing() {
    let mut tokenizer = fresh();
    tokenizer.train_chunks(&bytes(&["aaaa"]), 256);
    assert_eq!(tokenizer.merges().len(), 0);
    tokenizer.train_chunks(&bytes(&["aaaa"]), 0);
    assert_eq!(tokenizer.merges().len(), 0);
    tokenizer.train("aaaa", 100).unwrap();
    assert_eq!(tokenizer.merges().len(), 0);
}

#[test]
fn training_stops_when_no_pair_is_left() {
    let mut tokenizer = fresh();
    tokenizer.train_chunks(&bytes(&["a", "b", "", "c"]), 1000);
    assert_eq!(tokenizer.merges().len(), 0);
    tokenizer.train_chunks(&bytes(&["ab"]), 1000);
    assert_eq!(pairs_in_order(tokenizer.merges()), vec![(97, 98)]);
}

#[test]
fn training_on_empty_text_learns_nothing() {
    let mut tokenizer = fresh();
    assert_eq!(tokenizer.train("", 1000), Ok(()));
    assert_eq!(tokenizer.merges().len(), 0);
}

#[test]
fn training_runs_until_one_symbol_is_left() {
    let mut tokenizer = fresh();
    tokenizer.train_chunks(&bytes(&["aaabdaaabac"]), 10000);
    assert_eq!(
        pairs_in_order(tokenizer.merges()),
        vec![(97, 97), (97, 98), (256, 257), (97, 99), (100, 258), (258, 260), (261, 259)]
    );
    assert_eq!(tokenizer.encode_chunks(&bytes(&["aaabdaaabac"])), vec![262]);
}

#[test]
fn training_stops_at_the_vocab_size() {
    let mut tokenizer = fresh();
    tokenizer.train_chunks(&bytes(&["aaabdaaabac"]), 259);
    assert_eq!(pairs_in_order(tokenizer.merges()), vec![(97, 97), (97, 98), (256, 257)]);
}

#[test]
fn ids_are_given_in_the_order_of_learning() {
    let mut tokenizer = fresh();
    tokenizer.train("the cat sat on the mat, the rat sat on the cat", 280).unwrap();
    let table = tokenizer.merges();
    assert!(table.len() > 0);
    for rank in 0..table.len() {
        let pair = table.pair_at_rank(rank).unwrap();
        assert_eq!(table.get(pair), Some(256 + rank as u32));
        assert!(pair.0 < 256 + rank as u32);
        assert!(pair.1 < 256 + rank as u32);
    }
}

#[test]
fn later_training_goes_on_with_the_next_id() {
    let mut tokenizer = fresh();
    tokenizer.train_chunks(&bytes(&["aaabdaaabac"]), 257);
    assert_eq!(pairs_in_order(tokenizer.merges()), vec![(97, 97)]);
    tokenizer.train_chunks(&bytes(&["xyxyxy", " zz"]), 259);
    assert_eq!(pairs_in_order(tokenizer.merges()), vec![(97, 97), (120, 121), (257, 257)]);
    assert_eq!(tokenizer.merges().get((97, 97)), Some(256));
    assert_eq!(tokenizer.merges().get((120, 121)), Some(257));
    assert_eq!(tokenizer.merges().get((257, 257)), Some(258));
}

#[test]
fn later_training_with_a_smaller_vocab_size_changes_nothing() {
    let mut tokenizer = fresh();
    tokenizer.train_chunks(&bytes(&["aaabdaaabac"]), 258);
    tokenizer.train_chunks(&bytes(&["xyxyxy"]), 258);
    tokenizer.train_chunks(&bytes(&["xyxyxy"]), 100);
    assert_eq!(pairs_in_order(tokenizer.merges()), vec![(97, 97), (97, 98)]);
}

#[test]
fn a_pair_learned_again_takes_the_new_id() {
    let mut tokenizer = fresh();
    tokenizer.train_chunks(&bytes(&["aaaa"]), 257);
    assert_eq!(tokenizer.merges().get((97, 97)), Some(256));
    tokenizer.train_chunks(&bytes(&["aaaa"]), 258);
    assert_eq!(pairs_in_order(tokenizer.merges()), vec![(97, 97), (97, 97)]);
    assert_eq!(tokenizer.merges().get((97, 97)), Some(257));
    assert_eq!(tokenizer.encode_chunks(&bytes(&["aaaa"])), vec![257, 257]);
    let ranks = tokenizer.get_mergeable_ranks();
    assert_eq!(ranks.len(), 258);
    assert_eq!(ranks[256], (b"aa".to_vec(), 256));
    assert_eq!(ranks[257], (b"aa".to_vec(), 257));
}

#[test]
fn train_chunks_keeps_chunks_apart() {
    let mut tokenizer = fresh();
    tokenizer.train_chunks(&bytes(&["ab", "ab", "ba", "b", "a"]), 300);
    assert_eq!(pairs_in_order(tokenizer.merges()), vec![(97, 98), (98, 97)]);
}

#[test]
fn train_from_iterator_joins_the_fragments() {
    let mut joined = fresh();
    let fragments = vec!["aaab".to_string(), "daa".to_string(), String::new(), "abac".to_string()];
    assert_eq!(joined.train_from_iterator(&fragments, 258), Ok(()));
    let mut whole = fresh();
    whole.train("aaabdaaabac", 258).unwrap();
    assert_eq!(pairs_in_order(joined.merges()), pairs_in_order(whole.merges()));
    assert_eq!(pairs_in_order(joined.merges()), vec![(97, 97), (97, 98)]);
}

#[test]
fn train_from_iterator_without_fragments_learns_nothing() {
    let mut tokenizer = fresh();
    assert_eq!(tokenizer.train_from_iterator(&vec![], 300), Ok(()));
    assert_eq!(tokenizer.merges().len(), 0);
}
