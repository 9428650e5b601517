use mybpe::encoder::{encode_chunk, encode_chunks, find_lowest_token_merge_in_chunk};
use mybpe::Tokenizer;

fn trained(chunks: &[&str], vocab_size: u32) -> Tokenizer {
    let mut tokenizer = Tokenizer::new().expect("the default pattern compiles");
    let chunks: Vec<Vec<u8>> = chunks.iter().map(|chunk| chunk.as_bytes().to_vec()).collect();
    tokenizer.train_chunks(&chunks, vocab_size);
    tokenizer
}

#[test]
fn lowest_merge_is_the_earliest_learned() {
    let tokenizer = trained(&["aaabdaaabac"], 258);
    let table = tokenizer.merges();
    assert_eq!(find_lowest_token_merge_in_chunk(table, &[97, 98, 97, 97]), Some(((97, 97), 256)));
    assert_eq!(find_lowest_token_merge_in_chunk(table, &[97, 98, 100]), Some(((97, 98), 257)));
}

#[test]
fn lowest_merge_is_none_where_no_known_pair_occurs() {
    let tokenizer = trained(&["aaabdaaabac"], 258);
    let table = tokenizer.merges();
    assert_eq!(find_lowest_token_merge_in_chunk(table, &[98, 97]), None);
    assert_eq!(find_lowest_token_merge_in_chunk(table, &[97]), None);
    assert_eq!(find_lowest_token_merge_in_chunk(table, &[]), None);
}

#[test]
fn lowest_merge_in_an_empty_table_is_none() {
    let tokenizer = trained(&[], 300);
    assert_eq!(find_lowest_token_merge_in_chunk(tokenizer.merges(), &[97, 97, 98]), None);
}

#[test]
fn encode_chunk_applies_merges_by_id_not_by_position() {
    let tokenizer = trained(&["aaabdaaabac"], 258);
    assert_eq!(encode_chunk(tokenizer.merges(), vec![97, 98, 97, 97]), vec![257, 256]);
    assert_eq!(encode_chunk(tokenizer.merges(), vec![97, 97, 97, 98]), vec![256, 257]);
    assert_eq!(encode_chunk(tokenizer.merges(), vec![97, 97, 98]), vec![256, 98]);
}

#[test]
fn encode_chunk_builds_on_merged_symbols() {
    let tokenizer = trained(&["aaabdaaabac"], 259);
    assert_eq!(encode_chunk(tokenizer.merges(), vec![97, 97, 97, 98]), vec![258]);
    assert_eq!(encode_chunk(tokenizer.merges(), vec![256, 257]), vec![258]);
}

#[test]
fn encode_chunk_leaves_unknown_symbols() {
    let tokenizer = trained(&["aaabdaaabac"], 258);
    assert_eq!(encode_chunk(tokenizer.merges(), vec![]), Vec::<u32>::new());
    assert_eq!(encode_chunk(tokenizer.merges(), vec![1, 2, 3]), vec![1, 2, 3]);
}

#[test]
fn encode_chunks_joins_the_chunks_in_order() {
    let tokenizer = trained(&["aaabdaaabac"], 258);
    let chunks = vec![b"ab".to_vec(), vec![], b"a".to_vec(), b"aab".to_vec()];
    assert_eq!(encode_chunks(tokenizer.merges(), &chunks), vec![257, 97, 256, 98]);
    assert_eq!(encode_chunks(tokenizer.merges(), &vec![]), Vec::<u32>::new());
}

#[test]
fn encode_chunks_never_merges_across_chunks() {
    let tokenizer = trained(&["aaabdaaabac"], 258);
    let apart = vec![b"a".to_vec(), b"a".to_vec(), b"b".to_vec()];
    assert_eq!(tokenizer.encode_chunks(&apart), vec![97, 97, 98]);
    let together = vec![b"aab".to_vec()];
    assert_eq!(tokenizer.encode_chunks(&together), vec![256, 98]);
}

#[test]
fn encode_chunks_of_parts_is_the_parts_encoded() {
    let tokenizer = trained(&["aaabdaaabac"], 259);
    let front = vec![b"aaab".to_vec(), b"d".to_vec()];
    let back = vec![b"aa".to_vec(), b"bac".to_vec()];
    let mut all = front.clone();
    all.extend(back.clone());
    let mut expected = tokenizer.encode_chunks(&front);
    expected.extend(tokenizer.encode_chunks(&back));
    assert_eq!(tokenizer.encode_chunks(&all), expected);
    assert_eq!(expected, vec![258, 100, 256, 98, 97, 99]);
}
