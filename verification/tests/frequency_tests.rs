use mybpe::frequency::most_frequent_pair;

#[test]
fn no_pair_without_two_adjacent_symbols() {
    assert_eq!(most_frequent_pair(&vec![]), None);
    assert_eq!(most_frequent_pair(&vec![vec![], vec![5], vec![6]]), None);
}

#[test]
fn single_pair_is_chosen() {
    assert_eq!(most_frequent_pair(&vec![vec![3, 4]]), Some((3, 4)));
}

#[test]
fn most_frequent_pair_wins_over_smaller_pairs() {
    assert_eq!(most_frequent_pair(&vec![vec![9, 9, 9, 9], vec![1, 2]]), Some((9, 9)));
}

#[test]
fn counts_add_up_over_chunks() {
    let chunks = vec![vec![5, 6], vec![1, 2, 1], vec![5, 6], vec![5, 6]];
    assert_eq!(most_frequent_pair(&chunks), Some((5, 6)));
}

#[test]
fn pairs_do_not_reach_across_chunks() {
    let chunks = vec![vec![1], vec![2], vec![1], vec![2], vec![3, 4]];
    assert_eq!(most_frequent_pair(&chunks), Some((3, 4)));
}

#[test]
fn every_position_is_counted() {
    let chunks = vec![vec![7, 7, 7], vec![8, 9], vec![8, 9], vec![8, 9]];
    assert_eq!(most_frequent_pair(&chunks), Some((8, 9)));
    let chunks = vec![vec![7, 7, 7, 7], vec![8, 9], vec![8, 9]];
    assert_eq!(most_frequent_pair(&chunks), Some((7, 7)));
}

#[test]
fn equally_frequent_pairs_give_the_smallest() {
    assert_eq!(most_frequent_pair(&vec![vec![1, 2, 1, 2], vec![2, 1]]), Some((1, 2)));
    assert_eq!(most_frequent_pair(&vec![vec![2, 1], vec![1, 2]]), Some((1, 2)));
    assert_eq!(most_frequent_pair(&vec![vec![3, 0], vec![2, 9]]), Some((2, 9)));
    assert_eq!(most_frequent_pair(&vec![vec![2, 9], vec![2, 3]]), Some((2, 3)));
}

#[test]
fn large_symbols_are_kept_apart() {
    let top = u32::MAX;
    let chunks = vec![vec![top, 0], vec![top, 0], vec![0, top]];
    assert_eq!(most_frequent_pair(&chunks), Some((top, 0)));
    let chunks = vec![vec![top, top], vec![top - 1, top]];
    assert_eq!(most_frequent_pair(&chunks), Some((top - 1, top)));
}
