use mybpe::merge::merge_pair;

#[test]
fn merge_pair_replaces_every_occurrence() {
    assert_eq!(merge_pair(&[1, 2, 3, 1, 2], (1, 2), 256), vec![256, 3, 256]);
}

#[test]
fn merge_pair_on_empty_input() {
    assert_eq!(merge_pair(&[], (1, 2), 256), Vec::<u32>::new());
}

#[test]
fn merge_pair_on_single_symbol() {
    assert_eq!(merge_pair(&[1], (1, 2), 256), vec![1]);
}

#[test]
fn merge_pair_without_occurrence_changes_nothing() {
    assert_eq!(merge_pair(&[2, 1, 3, 2], (1, 2), 256), vec![2, 1, 3, 2]);
}

#[test]
fn merge_pair_does_not_overlap() {
    assert_eq!(merge_pair(&[7, 7, 7], (7, 7), 300), vec![300, 7]);
    assert_eq!(merge_pair(&[7, 7, 7, 7], (7, 7), 300), vec![300, 300]);
    assert_eq!(merge_pair(&[7, 7, 7, 7, 7], (7, 7), 300), vec![300, 300, 7]);
}

#[test]
fn merge_pair_respects_the_order_of_the_pair() {
    assert_eq!(merge_pair(&[2, 1, 2, 1], (1, 2), 256), vec![2, 256, 1]);
}

#[test]
fn merge_pair_keeps_the_other_symbols_in_place() {
    assert_eq!(merge_pair(&[9, 1, 2, 8, 1, 2, 7], (1, 2), 500), vec![9, 500, 8, 500, 7]);
}
