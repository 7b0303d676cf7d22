use sorts::insertionsort::{binary_search, find_slot, rightmost, shift_left};
use sorts::mergesort::{merge, put_back, reversed, sort_vec, take_all, MIN_SIZE};
use sorts::order::{is_le, is_lt, is_tied};
use sorts::quicksort::{find_pivot, partition};
use sorts::rot::{rot_char, rot_str, RANGE};
use std::cmp::Ordering;

/// Ordered by `key` alone, so that two values can compare equal and still be
/// told apart; deliberately neither `Clone` nor `Copy`.
#[derive(Debug)]
struct Tagged {
    key: u32,
    tag: u32,
}

impl PartialEq for Tagged {
    fn eq(&self, other: &Self) -> bool {
        self.key == other.key
    }
}

impl Eq for Tagged {}

impl PartialOrd for Tagged {
    fn partial_cmp(&self, other: &Self) -> Option<Ordering> {
        Some(self.cmp(other))
    }
}

impl Ord for Tagged {
    fn cmp(&self, other: &Self) -> Ordering {
        self.key.cmp(&other.key)
    }
}

fn tagged(pairs: &[(u32, u32)]) -> Vec<Tagged> {
    pairs.iter().map(|&(key, tag)| Tagged { key, tag }).collect()
}

fn pairs_of(list: &[Tagged]) -> Vec<(u32, u32)> {
    list.iter().map(|t| (t.key, t.tag)).collect()
}

#[test]
fn five_integers_under_insertion_sort() {
    let mut v = vec![5, 3, 4, 1, 2];
    sorts::inssort(&mut v);
    assert_eq!(v, vec![1, 2, 3, 4, 5]);
}

#[test]
fn five_integers_under_quicksort() {
    let mut v = vec![5, 3, 4, 1, 2];
    sorts::qsort(&mut v);
    assert_eq!(v, vec![1, 2, 3, 4, 5]);
}

#[test]
fn five_integers_under_merge_sort() {
    let mut v = vec![5, 3, 4, 1, 2];
    sorts::msort(&mut v);
    assert_eq!(v, vec![1, 2, 3, 4, 5]);
    assert_eq!(sorts::msort_vec(vec![5, 3, 4, 1, 2]), vec![1, 2, 3, 4, 5]);
}

#[test]
fn module_entry_points_sort_five_integers() {
    let mut v = vec![5, 3, 4, 1, 2];
    sorts::insertionsort::sort(&mut v);
    assert_eq!(v, vec![1, 2, 3, 4, 5]);
    let mut v = vec![5, 3, 4, 1, 2];
    sorts::quicksort::sort(&mut v);
    assert_eq!(v, vec![1, 2, 3, 4, 5]);
    let mut v = vec![5, 3, 4, 1, 2];
    sorts::mergesort::sort(&mut v);
    assert_eq!(v, vec![1, 2, 3, 4, 5]);
    assert_eq!(sort_vec(vec![5, 3, 4, 1, 2]), vec![1, 2, 3, 4, 5]);
}

#[test]
fn fruit_names_with_a_duplicate() {
    let input = || -> Vec<String> {
        ["banana", "apple", "apple", "cherry"].iter().map(|s| s.to_string()).collect()
    };
    let expected: Vec<String> =
        ["apple", "apple", "banana", "cherry"].iter().map(|s| s.to_string()).collect();

    let mut v = input();
    sorts::inssort(&mut v);
    assert_eq!(v, expected);
    let mut v = input();
    sorts::qsort(&mut v);
    assert_eq!(v, expected);
    let mut v = input();
    sorts::msort(&mut v);
    assert_eq!(v, expected);
    assert_eq!(sorts::msort_vec(input()), expected);
}

#[test]
fn empty_and_single_are_left_alone() {
    let mut empty: Vec<i32> = vec![];
    sorts::inssort(&mut empty);
    assert_eq!(empty, Vec::<i32>::new());
    sorts::qsort(&mut empty);
    assert_eq!(empty, Vec::<i32>::new());
    sorts::msort(&mut empty);
    assert_eq!(empty, Vec::<i32>::new());
    assert_eq!(sorts::msort_vec(Vec::<i32>::new()), Vec::<i32>::new());

    let mut one = vec![7];
    sorts::inssort(&mut one);
    assert_eq!(one, vec![7]);
    sorts::qsort(&mut one);
    assert_eq!(one, vec![7]);
    sorts::msort(&mut one);
    assert_eq!(one, vec![7]);
    assert_eq!(sorts::msort_vec(vec![7]), vec![7]);
}

#[test]
fn sorted_input_comes_back_unchanged() {
    let sorted: Vec<i64> = vec![-4, -4, 0, 1, 1, 2, 9, 9, 9, 10, 11, 15, 20, 20, 31];
    let mut v = sorted.clone();
    sorts::inssort(&mut v);
    assert_eq!(v, sorted);
    sorts::qsort(&mut v);
    assert_eq!(v, sorted);
    sorts::msort(&mut v);
    assert_eq!(v, sorted);
    assert_eq!(sorts::msort_vec(v), sorted);
}

#[test]
fn length_and_elements_are_kept() {
    let input = vec![3u8, 1, 3, 3, 0, 2, 1, 0, 3, 2, 2, 1, 0];
    let mut q = input.clone();
    sorts::qsort(&mut q);
    let mut m = input.clone();
    sorts::msort(&mut m);
    let mut i = input.clone();
    sorts::inssort(&mut i);
    let expected = vec![0u8, 0, 0, 1, 1, 1, 2, 2, 2, 3, 3, 3, 3];
    assert_eq!(q, expected);
    assert_eq!(m, expected);
    assert_eq!(i, expected);
    assert_eq!(q.len(), input.len());
}

#[test]
fn merge_sort_moves_each_element_once() {
    let keys: Vec<u32> = vec![9, 2, 7, 7, 1, 8, 3, 3, 3, 0, 6, 5, 4, 12, 11, 10, 2, 9, 1, 13, 7, 6, 5];
    let mut list: Vec<Tagged> =
        keys.iter().enumerate().map(|(tag, &key)| Tagged { key, tag: tag as u32 }).collect();
    sorts::msort(&mut list);
    assert_eq!(list.len(), keys.len());
    // ascending by key
    for w in list.windows(2) {
        assert!(w[0].key <= w[1].key);
    }
    // every tag is there exactly once, with the key it came with
    let mut tags: Vec<u32> = list.iter().map(|t| t.tag).collect();
    tags.sort();
    assert_eq!(tags, (0..keys.len() as u32).collect::<Vec<u32>>());
    for t in &list {
        assert_eq!(t.key, keys[t.tag as usize]);
    }
}

#[test]
fn taking_all_and_putting_back() {
    let mut list = tagged(&[(3, 0), (1, 1), (2, 2)]);
    let taken = take_all(&mut list);
    assert!(list.is_empty());
    assert_eq!(pairs_of(&taken), vec![(3, 0), (1, 1), (2, 2)]);
    put_back(taken, &mut list);
    assert_eq!(pairs_of(&list), vec![(3, 0), (1, 1), (2, 2)]);
}

#[test]
fn merge_of_two_sorted_vectors() {
    assert_eq!(merge(vec![1, 4, 6, 9], vec![2, 3, 7, 10, 11]), vec![1, 2, 3, 4, 6, 7, 9, 10, 11]);
    assert_eq!(merge(Vec::<i32>::new(), vec![1, 2]), vec![1, 2]);
    assert_eq!(merge(vec![1, 2], Vec::<i32>::new()), vec![1, 2]);
    assert_eq!(merge(Vec::<i32>::new(), Vec::<i32>::new()), Vec::<i32>::new());
    assert_eq!(merge(vec![1, 1, 2], vec![1, 2, 2]), vec![1, 1, 1, 2, 2, 2]);
}

#[test]
fn merge_takes_the_first_head_when_heads_tie() {
    let a = tagged(&[(1, 10), (2, 11), (2, 12)]);
    let b = tagged(&[(1, 20), (2, 21), (3, 22)]);
    let out = merge(a, b);
    assert_eq!(pairs_of(&out), vec![(1, 10), (1, 20), (2, 11), (2, 12), (2, 21), (3, 22)]);
}

#[test]
fn merge_of_two_tied_elements_keeps_the_first_in_front() {
    let out = merge(tagged(&[(1, 0)]), tagged(&[(1, 1)]));
    assert_eq!(pairs_of(&out), vec![(1, 0), (1, 1)]);
}

#[test]
fn merge_of_unsorted_input_follows_the_heads() {
    assert_eq!(merge(vec![3, 1], vec![2, 0]), vec![2, 0, 3, 1]);
}

#[test]
fn insertion_puts_an_equal_element_after_its_duplicates() {
    let mut list = tagged(&[(1, 0), (1, 1), (1, 2)]);
    sorts::inssort(&mut list);
    assert_eq!(pairs_of(&list), vec![(1, 0), (1, 1), (1, 2)]);
    let mut list = tagged(&[(2, 0), (1, 1), (2, 2), (1, 3)]);
    sorts::inssort(&mut list);
    assert_eq!(pairs_of(&list), vec![(1, 1), (1, 3), (2, 0), (2, 2)]);
}

#[test]
fn sorted_input_with_ties_comes_back_unchanged() {
    let sorted_pairs: Vec<(u32, u32)> = (0..30).map(|tag| (tag / 4, tag)).collect();
    let mut list = tagged(&sorted_pairs);
    sorts::inssort(&mut list);
    assert_eq!(pairs_of(&list), sorted_pairs);
    sorts::msort(&mut list);
    assert_eq!(pairs_of(&list), sorted_pairs);
    assert_eq!(pairs_of(&sorts::msort_vec(list)), sorted_pairs);
    let mut two = tagged(&[(1, 0), (1, 1)]);
    sorts::inssort(&mut two);
    assert_eq!(pairs_of(&two), vec![(1, 0), (1, 1)]);
    sorts::msort(&mut two);
    assert_eq!(pairs_of(&two), vec![(1, 0), (1, 1)]);
}

#[test]
fn threshold_is_ten() {
    assert_eq!(MIN_SIZE, 10);
    // eleven elements take the split-and-merge path
    let v = vec![11, 10, 9, 8, 7, 6, 5, 4, 3, 2, 1];
    assert_eq!(sort_vec(v), vec![1, 2, 3, 4, 5, 6, 7, 8, 9, 10, 11]);
    // ten are sorted by insertion
    let v = vec![10, 9, 8, 7, 6, 5, 4, 3, 2, 1];
    assert_eq!(sort_vec(v), vec![1, 2, 3, 4, 5, 6, 7, 8, 9, 10]);
}

#[test]
fn partition_around_the_middle() {
    let mut v = vec![5, 3, 4, 1, 2];
    assert_eq!(find_pivot(&v), 2);
    let boundary = partition(&mut v, 2);
    assert_eq!(boundary, 3);
    assert_eq!(v, vec![3, 2, 1, 4, 5]);
}

#[test]
fn partition_around_the_smallest_and_the_largest() {
    let mut v = vec![2, 1];
    assert_eq!(partition(&mut v, 1), 0);
    assert_eq!(v, vec![1, 2]);
    let mut v = vec![1, 9, 3];
    assert_eq!(partition(&mut v, 1), 2);
    assert_eq!(v, vec![1, 3, 9]);
    let mut v = vec![4];
    assert_eq!(partition(&mut v, 0), 0);
    assert_eq!(v, vec![4]);
}

#[test]
fn pivot_is_the_middle_index() {
    assert_eq!(find_pivot(&[0u8; 0]), 0);
    assert_eq!(find_pivot(&[1]), 0);
    assert_eq!(find_pivot(&[1, 2]), 1);
    assert_eq!(find_pivot(&[1, 2, 3, 4, 5, 6, 7]), 3);
}

#[test]
fn rightmost_of_a_run() {
    let v = vec![1, 2, 2, 2, 3];
    assert_eq!(rightmost(&v, 1), 3);
    assert_eq!(rightmost(&v, 2), 3);
    assert_eq!(rightmost(&v, 3), 3);
    assert_eq!(rightmost(&v, 0), 0);
    assert_eq!(rightmost(&v, 4), 4);
}

#[test]
fn shift_left_moves_one_element() {
    let mut v = vec![10, 20, 30, 40, 50];
    shift_left(&mut v, 3, 1);
    assert_eq!(v, vec![10, 40, 20, 30, 50]);
    shift_left(&mut v, 2, 2);
    assert_eq!(v, vec![10, 40, 20, 30, 50]);
    shift_left(&mut v, 4, 0);
    assert_eq!(v, vec![50, 10, 40, 20, 30]);
}

#[test]
fn binary_search_finds_or_places() {
    let v = vec![1, 3, 5, 7, 9];
    assert_eq!(binary_search(&v, &5), Ok(2));
    assert_eq!(binary_search(&v, &0), Err(0));
    assert_eq!(binary_search(&v, &4), Err(2));
    assert_eq!(binary_search(&v, &10), Err(5));
    assert_eq!(binary_search(&[0u8; 0], &10), Err(0));
}

#[test]
fn slot_of_the_next_element() {
    assert_eq!(find_slot(&[1, 3, 5, 4], 3), 2);
    assert_eq!(find_slot(&[1, 3, 3, 3], 3), 3);
    assert_eq!(find_slot(&[3, 3, 5, 3], 3), 2);
    assert_eq!(find_slot(&[1, 3, 5, 0], 3), 0);
    assert_eq!(find_slot(&[1, 3, 5, 6], 3), 3);
}

#[test]
fn reversed_reads_from_the_end() {
    assert_eq!(reversed(vec![1, 2, 3]), vec![3, 2, 1]);
    assert_eq!(reversed(Vec::<u8>::new()), Vec::<u8>::new());
}

#[test]
fn comparisons_follow_ord() {
    assert!(is_le(&1, &1));
    assert!(is_le(&1, &2));
    assert!(!is_le(&2, &1));
    assert!(is_lt(&1, &2));
    assert!(!is_lt(&1, &1));
    assert!(is_tied(&3, &3));
    assert!(!is_tied(&3, &4));
}

#[test]
fn rot_char_goes_round_the_alphabet() {
    assert_eq!(rot_char('a', 1), 'b');
    assert_eq!(rot_char('z', 1), 'a');
    assert_eq!(rot_char('a', -1), 'z');
    assert_eq!(rot_char('A', -1), 'Z');
    assert_eq!(rot_char('Z', 25), 'Y');
    assert_eq!(rot_char('m', 13), 'z');
    assert_eq!(rot_char('n', 13), 'a');
    assert_eq!(rot_char('M', -13), 'Z');
    assert_eq!(rot_char('x', 0), 'x');
    assert_eq!(rot_char('!', 5), '!');
    assert_eq!(rot_char('5', -5), '5');
    assert_eq!(rot_char('é', 3), 'é');
    assert_eq!(rot_char('[', 3), '[');
    assert_eq!(rot_char('`', 3), '`');
}

#[test]
fn rot_str_rotates_every_letter() {
    assert_eq!(RANGE, 26);
    let rotate = |text: &str, by_n: isize| -> String {
        let mut chars: Vec<char> = text.chars().collect();
        rot_str(&mut chars, by_n);
        chars.into_iter().collect()
    };
    assert_eq!(rotate("Hello, World!", 13), "Uryyb, Jbeyq!");
    assert_eq!(rotate("Uryyb, Jbeyq!", 13), "Hello, World!");
    assert_eq!(rotate("abc xyz", 3), "def abc");
    assert_eq!(rotate("abc xyz", -3), "xyz uvw");
    assert_eq!(rotate("abc xyz", 29), "def abc");
    assert_eq!(rotate("abc xyz", -29), "xyz uvw");
    assert_eq!(rotate("abc", 26), "abc");
    assert_eq!(rotate("", 5), "");
    assert_eq!(rotate("naïve\n", 1), "obïwf\n");
}

fn tied_keys() -> Vec<Tagged> {
    let keys: [u32; 23] = [3, 1, 2, 3, 1, 2, 3, 1, 2, 0, 3, 1, 2, 0, 3, 1, 2, 3, 1, 2, 3, 1, 2];
    keys.iter().enumerate().map(|(tag, &key)| Tagged { key, tag: tag as u32 }).collect()
}

#[test]
fn where_equal_elements_go_under_merge_sort() {
    let mut list = tied_keys();
    sorts::msort(&mut list);
    assert_eq!(
        pairs_of(&list),
        vec![
            (0, 9), (0, 13), (1, 1), (1, 4), (1, 7), (1, 11), (1, 15), (1, 18), (1, 21), (2, 2),
            (2, 5), (2, 8), (2, 12), (2, 16), (2, 19), (2, 22), (3, 0), (3, 3), (3, 6), (3, 10),
            (3, 14), (3, 17), (3, 20)
        ]
    );
    assert_eq!(pairs_of(&sorts::msort_vec(tied_keys())), pairs_of(&list));
}

#[test]
fn where_equal_elements_go_under_quicksort() {
    let mut list = tied_keys();
    sorts::qsort(&mut list);
    assert_eq!(
        pairs_of(&list),
        vec![
            (0, 9), (0, 13), (1, 18), (1, 7), (1, 15), (1, 1), (1, 4), (1, 21), (1, 11), (2, 19),
            (2, 22), (2, 16), (2, 12), (2, 2), (2, 8), (2, 5), (3, 20), (3, 10), (3, 3), (3, 17),
            (3, 14), (3, 6), (3, 0)
        ]
    );
    let mut three = tagged(&[(1, 0), (1, 1), (1, 2)]);
    sorts::qsort(&mut three);
    assert_eq!(pairs_of(&three), vec![(1, 0), (1, 2), (1, 1)]);
}

#[test]
fn where_equal_elements_go_under_insertion_sort() {
    let mut list = tied_keys();
    sorts::inssort(&mut list);
    assert_eq!(
        pairs_of(&list),
        vec![
            (0, 9), (0, 13), (1, 1), (1, 4), (1, 7), (1, 11), (1, 15), (1, 18), (1, 21), (2, 2),
            (2, 5), (2, 8), (2, 12), (2, 16), (2, 19), (2, 22), (3, 0), (3, 3), (3, 6), (3, 10),
            (3, 14), (3, 17), (3, 20)
        ]
    );
}
