use mybpe::vocab::mergeable_ranks;
use mybpe::{MergeTable, Tokenizer};

fn trained(text: &str, vocab_size: u32) -> Tokenizer {
    let mut tokenizer = Tokenizer::new().expect("the default pattern compiles");
    tokenizer.train(text, vocab_size).unwrap();
    tokenizer
}

#[test]
fn ranks_of_an_empty_table_are_the_bytes() {
    let ranks = mergeable_ranks(&MergeTable::new());
    assert_eq!(ranks.len(), 256);
    assert_eq!(ranks[0], (vec![0u8], 0));
    assert_eq!(ranks[255], (vec![255u8], 255));
}

#[test]
fn ranks_hold_the_bytes_of_every_merge() {
    let tokenizer = trained("aaabdaaabac", 259);
    let ranks = tokenizer.get_mergeable_ranks();
    assert_eq!(ranks.len(), 259);
    assert_eq!(ranks[97], (b"a".to_vec(), 97));
    assert_eq!(ranks[256], (b"aa".to_vec(), 256));
    assert_eq!(ranks[257], (b"ab".to_vec(), 257));
    assert_eq!(ranks[258], (b"aaab".to_vec(), 258));
}

#[test]
fn ranks_are_numbered_by_position() {
    let tokenizer = trained("the cat sat on the mat, the rat sat on the cat", 300);
    let ranks = tokenizer.get_mergeable_ranks();
    assert_eq!(ranks.len(), 256 + tokenizer.merges().len());
    for (position, (_, rank)) in ranks.iter().enumerate() {
        assert_eq!(*rank as usize, position);
    }
}

#[test]
fn bytes_of_a_merge_are_the_bytes_of_its_halves() {
    let tokenizer = trained("the cat sat on the mat, the rat sat on the cat", 300);
    let ranks = tokenizer.get_mergeable_ranks();
    for id in 0..256 {
        assert_eq!(ranks[id].0.len(), 1);
    }
    for rank in 0..tokenizer.merges().len() {
        let (left, right) = tokenizer.merges().pair_at_rank(rank).unwrap();
        let mut expected = ranks[left as usize].0.clone();
        expected.extend(ranks[right as usize].0.iter());
        assert_eq!(ranks[256 + rank].0, expected);
        assert_eq!(
            ranks[256 + rank].0.len(),
            ranks[left as usize].0.len() + ranks[right as usize].0.len()
        );
    }
}

#[test]
fn mergeable_ranks_agrees_with_the_tokenizer() {
    let tokenizer = trained("aaabdaaabac", 258);
    assert_eq!(mergeable_ranks(tokenizer.merges()), tokenizer.get_mergeable_ranks());
}

#[test]
fn tokens_of_a_text_stand_for_its_bytes() {
    let text = "the cat sat on the mat, the rat sat on the cat";
    let tokenizer = trained(text, 290);
    let ranks = tokenizer.get_mergeable_ranks();
    for sample in [text, "that cat", "ßeta é", "  \n\ttabs"] {
        let tokens = tokenizer.encode(sample).unwrap();
        let mut bytes: Vec<u8> = Vec::new();
        for token in tokens {
            bytes.extend(ranks[token as usize].0.iter());
        }
        assert_eq!(bytes, sample.as_bytes());
    }
}
