use mybpe::{Tokenizer, TokenizerError, GPT4_PATTERN};

fn fresh() -> Tokenizer {
    Tokenizer::new().expect("the default pattern compiles")
}

#[test]
fn new_tokenizer_has_no_merges_and_the_default_pattern() {
    let tokenizer = fresh();
    assert_eq!(tokenizer.merges().len(), 0);
    assert_eq!(tokenizer.get_pattern(), GPT4_PATTERN);
}

#[test]
fn fresh_vocabulary_is_the_256_bytes() {
    let ranks = fresh().get_mergeable_ranks();
    assert_eq!(ranks.len(), 256);
    for (i, (bytes, rank)) in ranks.iter().enumerate() {
        assert_eq!(*rank as usize, i);
        assert_eq!(bytes, &vec![i as u8]);
    }
}

#[test]
fn encode_of_empty_text_is_empty() {
    let mut tokenizer = fresh();
    assert_eq!(tokenizer.encode(""), Ok(vec![]));
    tokenizer.train("aaabdaaabac", 258).unwrap();
    assert_eq!(tokenizer.encode(""), Ok(vec![]));
}

#[test]
fn encode_without_merges_gives_the_bytes() {
    let tokenizer = fresh();
    assert_eq!(tokenizer.encode("Hi!"), Ok(vec![72, 105, 33]));
    assert_eq!(tokenizer.encode("é"), Ok(vec![0xC3, 0xA9]));
}

#[test]
fn training_example_learns_two_merges() {
    let mut tokenizer = fresh();
    tokenizer.train("aaabdaaabac", 258).unwrap();
    assert_eq!(tokenizer.merges().len(), 2);
    assert_eq!(tokenizer.merges().get((97, 97)), Some(256));
    assert_eq!(tokenizer.merges().pair_at_rank(0), Some((97, 97)));
    assert_eq!(tokenizer.merges().pair_at_rank(1), Some((97, 98)));
    assert_eq!(tokenizer.merges().get((97, 98)), Some(257));
    assert_eq!(tokenizer.merges().pair_at_rank(2), None);
    let tokens = tokenizer.encode("aaabdaaabac").unwrap();
    assert_eq!(tokens, vec![256, 257, 100, 256, 257, 97, 99]);
    assert!(tokens.len() <= 11);
}

#[test]
fn default_pattern_is_the_gpt4_rule_set() {
    assert_eq!(
        GPT4_PATTERN,
        r"'(?i:[sdmt]|ll|ve|re)|[^\r\n\p{L}\p{N}]?+\p{L}+|\p{N}{1,3}| ?[^\s\p{L}\p{N}]++[\r\n]*|\s*[\r\n]|\s+(?!\S)|\s+"
    );
}

#[test]
fn encode_covers_the_text_chunk_by_chunk() {
    let tokenizer = fresh();
    let text = "Hello, world! Don't worry.";
    let expected: Vec<u32> = text.bytes().map(u32::from).collect();
    assert_eq!(tokenizer.encode(text), Ok(expected));
}

#[test]
fn encode_never_merges_across_a_chunk_boundary() {
    let mut tokenizer = fresh();
    tokenizer.train("ab ab ab", 300).unwrap();
    assert_eq!(tokenizer.merges().len(), 2);
    assert_eq!(tokenizer.merges().get((97, 98)), Some(256));
    assert_eq!(tokenizer.merges().get((32, 256)), Some(257));
    assert_eq!(tokenizer.merges().get((98, 32)), None);
    assert_eq!(tokenizer.encode("ab ab ab"), Ok(vec![256, 257, 257]));
    assert_eq!(tokenizer.encode("a b"), Ok(vec![97, 32, 98]));
    assert_eq!(tokenizer.encode("b ab"), Ok(vec![98, 257]));
}

#[test]
fn space_is_never_merged_with_the_letter_before_it() {
    let mut tokenizer = fresh();
    tokenizer.train("a b a b a b a b", 400).unwrap();
    assert_eq!(tokenizer.merges().get((97, 32)), None);
    assert_eq!(tokenizer.merges().get((98, 32)), None);
    let tokens = tokenizer.encode("a b").unwrap();
    assert_eq!(tokens[0], 97);
    assert_eq!(tokens, vec![97, 256]);
}

#[test]
fn encoding_a_token_s_bytes_gives_the_token() {
    let mut tokenizer = fresh();
    tokenizer.train("aaabdaaabac", 259).unwrap();
    let ranks = tokenizer.get_mergeable_ranks();
    for id in [97u32, 256, 257, 258] {
        let text = String::from_utf8(ranks[id as usize].0.clone()).unwrap();
        assert_eq!(tokenizer.encode(&text), Ok(vec![id]));
    }
}

#[test]
fn encoding_the_training_text_gives_what_training_came_to() {
    let mut tokenizer = fresh();
    tokenizer.train("aaabdaaabac", 10000).unwrap();
    assert_eq!(tokenizer.encode("aaabdaaabac"), Ok(vec![262]));
}

#[test]
fn encode_is_the_same_every_time() {
    let mut tokenizer = fresh();
    tokenizer.train("low lower lowest newer newest", 280).unwrap();
    let once = tokenizer.encode("lowest newer").unwrap();
    let twice = tokenizer.encode("lowest newer").unwrap();
    assert_eq!(once, twice);
}

#[test]
fn training_twice_never_loses_a_merge() {
    let mut tokenizer = fresh();
    tokenizer.train("aaabdaaabac", 257).unwrap();
    let before = tokenizer.merges().len();
    let first = tokenizer.merges().get((97, 97));
    tokenizer.train("xyxyxy", 260).unwrap();
    assert!(tokenizer.merges().len() >= before);
    assert_eq!(tokenizer.merges().get((97, 97)), first);
    assert_eq!(tokenizer.merges().len(), 4);
    assert_eq!(tokenizer.merges().get((258, 257)), Some(259));
}

#[test]
fn digits_are_cut_in_groups_of_three() {
    let mut tokenizer = fresh();
    tokenizer.train("1234", 300).unwrap();
    assert_eq!(tokenizer.merges().len(), 2);
    assert_eq!(tokenizer.merges().get((49, 50)), Some(256));
    assert_eq!(tokenizer.merges().get((256, 51)), Some(257));
    assert_eq!(tokenizer.merges().get((51, 52)), None);
    assert_eq!(tokenizer.encode("1234"), Ok(vec![257, 52]));
}

#[test]
fn failed_scan_is_reported_and_changes_nothing() {
    let mut tokenizer = fresh();
    tokenizer.train("aaabdaaabac", 258).unwrap();
    let text = " ".repeat(1_000_001);
    assert_eq!(tokenizer.encode(&text), Err(TokenizerError::ScanFailed));
    assert_eq!(tokenizer.train(&text, 300), Err(TokenizerError::ScanFailed));
    assert_eq!(tokenizer.train_from_iterator(&vec![text], 300), Err(TokenizerError::ScanFailed));
    assert_eq!(tokenizer.merges().len(), 2);
    assert_eq!(tokenizer.merges().get((97, 97)), Some(256));
}

#[test]
fn long_runs_of_white_space_below_the_engine_s_limit_are_encoded() {
    let tokenizer = fresh();
    let text = " ".repeat(5000);
    assert_eq!(tokenizer.encode(&text), Ok(vec![32; 5000]));
}

#[test]
fn train_on_single_byte_chunks_learns_nothing() {
    let mut tokenizer = fresh();
    assert_eq!(tokenizer.train("a", 1000), Ok(()));
    assert_eq!(tokenizer.train("", 1000), Ok(()));
    assert_eq!(tokenizer.merges().len(), 0);
}

#[test]
fn pattern_does_not_change_with_training() {
    let mut tokenizer = fresh();
    tokenizer.train("aaabdaaabac", 300).unwrap();
    assert_eq!(tokenizer.get_pattern(), GPT4_PATTERN);
}
