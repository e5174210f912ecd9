//! The orders things are put in.

use inillucent_engine::radix::radix_by_word;
use inillucent_engine::sorting::by_weight;

#[test]
fn words_are_sorted_and_ties_keep_their_order() {
    let mut pairs: Vec<(u64, u32)> = vec![(3, 0), (1, 1), (3, 2), (0x1_0000_0000, 3), (1, 4)];
    let mut scratch: Vec<(u64, u32)> = Vec::new();
    radix_by_word(&mut pairs, &mut scratch);
    assert_eq!(
        pairs,
        vec![(1, 1), (1, 4), (3, 0), (3, 2), (0x1_0000_0000, 3)]
    );
}

#[test]
fn equal_words_stay_where_they_are() {
    let mut pairs: Vec<(u64, u32)> = vec![(7, 2), (7, 0), (7, 1)];
    let mut scratch: Vec<(u64, u32)> = vec![(1, 1)];
    radix_by_word(&mut pairs, &mut scratch);
    assert_eq!(pairs, vec![(7, 2), (7, 0), (7, 1)]);
}

#[test]
fn the_greatest_word_comes_last() {
    let mut pairs: Vec<(u64, u32)> = vec![(u64::MAX, 0), (u64::MAX - 1, 1), (0, 2)];
    let mut scratch: Vec<(u64, u32)> = Vec::new();
    radix_by_word(&mut pairs, &mut scratch);
    assert_eq!(pairs, vec![(0, 2), (u64::MAX - 1, 1), (u64::MAX, 0)]);
}

#[test]
fn the_lightest_comes_first_and_ties_keep_their_order() {
    assert_eq!(by_weight(&[5, 1, 5, 0]), vec![3, 1, 0, 2]);
    assert_eq!(by_weight(&[]), Vec::<usize>::new());
}
