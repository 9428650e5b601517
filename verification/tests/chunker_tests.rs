use mybpe::chunker::{cut_chunks, to_symbols, to_symbols_all};

#[test]
fn cut_chunks_copies_each_span() {
    let chunks = cut_chunks(b"hello world", &vec![(0, 5), (5, 11)]);
    assert_eq!(chunks, vec![b"hello".to_vec(), b" world".to_vec()]);
}

#[test]
fn cut_chunks_without_spans_is_empty() {
    assert_eq!(cut_chunks(b"abc", &vec![]), Vec::<Vec<u8>>::new());
}

#[test]
fn cut_chunks_takes_spans_as_they_come() {
    let chunks = cut_chunks(b"abcdef", &vec![(4, 6), (1, 1), (0, 2), (6, 6)]);
    assert_eq!(chunks, vec![b"ef".to_vec(), vec![], b"ab".to_vec(), vec![]]);
}

#[test]
fn to_symbols_keeps_the_byte_values() {
    assert_eq!(to_symbols(&[0, 97, 255]), vec![0, 97, 255]);
    assert_eq!(to_symbols(&[]), Vec::<u32>::new());
}

#[test]
fn to_symbols_all_converts_chunk_by_chunk() {
    let all = to_symbols_all(&vec![vec![1, 2], vec![], vec![200]]);
    assert_eq!(all, vec![vec![1, 2], vec![], vec![200]]);
}
