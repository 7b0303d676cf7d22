use rand::{distributions, Rng};

const TIMES_PER_TEST: usize = 100;

fn random_vec(v_size: usize, lower: isize, upper: isize) -> Vec<isize> {
    let mut rng = rand::thread_rng();
    (0..v_size).map(|_| rng.gen_range(lower, upper)).collect()
}

fn random_strings(v_size: usize) -> Vec<String> {
    let mut rng = rand::thread_rng();
    (0..v_size)
        .map(|_| {
            // make a random String
            rng.sample_iter(&distributions::Alphanumeric)
                // of random length [0, 10)
                .take(rng.gen_range(0, 10))
                .collect()
        })
        .collect()
}

#[test]
pub fn qsort() {
    for _ in 0..TIMES_PER_TEST {
        let mut val = random_vec(30, -99, 100);
        println!("prior:  {:?}", &val);
        let mut v2 = val.clone();
        sorts::qsort(&mut val);
        v2.sort();
        println!("mine:   {:?}\nstdlib: {:?}\n", &val, &v2);
        assert_eq!(val, v2);
    }
}

#[test]
pub fn msort() {
    for _ in 0..TIMES_PER_TEST {
        let mut val = random_vec(30, -99, 100);
        println!("prior:\t{:?}", &val);
        let mut v2 = val.clone();
        sorts::msort(&mut val);
        v2.sort();
        println!("msort:\t{:?}\nstdlib:\t{:?}\n", &val, &v2);
        assert_eq!(val, v2);
    }
}

#[test]
pub fn msort_strings() {
    for _ in 0..TIMES_PER_TEST {
        let mut val = random_strings(100);
        let mut v2 = val.clone();
        println!("prior:\t{:?}", &val);
        sorts::msort(&mut val);
        v2.sort();
        println!("qsort:\t{:?}\nstdlib:\t{:?}\n", &val, &v2);
        assert_eq!(val, v2);
    }
}

#[test]
pub fn inssort() {
    for _ in 0..TIMES_PER_TEST {
        let mut val = random_vec(30, -99, 100);
        println!("prior:\t{:?}", &val);
        let mut v2 = val.clone();
        sorts::inssort(&mut val);
        v2.sort();
        println!("isort:\t{:?}\nstdlib:\t{:?}\n", &val, &v2);
        assert_eq!(val, v2);
    }
}

#[test]
fn all_sorts_agree_with_std_on_a_thousand_integers() {
    let input = random_vec(1000, -5000, 5000);
    let mut expected = input.clone();
    expected.sort();

    let mut by_insertion = input.clone();
    sorts::inssort(&mut by_insertion);
    assert_eq!(by_insertion, expected);

    let mut by_merge = input.clone();
    sorts::msort(&mut by_merge);
    assert_eq!(by_merge, expected);

    assert_eq!(sorts::msort_vec(input.clone()), expected);
}

// Quicksort starts two threads at every split, so its inputs are kept to a
// size whose threads any machine will grant.
#[test]
fn quicksort_agrees_with_std_on_random_integers() {
    for size in [0usize, 1, 2, 3, 10, 50, 100] {
        let mut val = random_vec(size, -1000, 1000);
        let mut expected = val.clone();
        expected.sort();
        sorts::qsort(&mut val);
        assert_eq!(val, expected);
    }
}

#[test]
fn all_sorts_agree_with_std_on_a_thousand_strings() {
    let input = random_strings(1000);
    let mut expected = input.clone();
    expected.sort();

    let mut by_insertion = input.clone();
    sorts::inssort(&mut by_insertion);
    assert_eq!(by_insertion, expected);

    let mut by_merge = input.clone();
    sorts::msort(&mut by_merge);
    assert_eq!(by_merge, expected);
}

#[test]
fn qsort_strings_match_std() {
    for _ in 0..20 {
        let mut val = random_strings(100);
        let mut v2 = val.clone();
        sorts::qsort(&mut val);
        v2.sort();
        assert_eq!(val, v2);
    }
}

/// Ordered by `key` alone; `tag` tells apart elements that compare equal.
#[derive(Debug)]
struct Keyed {
    key: isize,
    tag: usize,
}

impl PartialEq for Keyed {
    fn eq(&self, other: &Self) -> bool {
        self.key == other.key
    }
}

impl Eq for Keyed {}

impl PartialOrd for Keyed {
    fn partial_cmp(&self, other: &Self) -> Option<std::cmp::Ordering> {
        Some(self.cmp(other))
    }
}

impl Ord for Keyed {
    fn cmp(&self, other: &Self) -> std::cmp::Ordering {
        self.key.cmp(&other.key)
    }
}

fn keyed(keys: &[isize]) -> Vec<Keyed> {
    keys.iter().enumerate().map(|(tag, &key)| Keyed { key, tag }).collect()
}

fn pairs(list: &[Keyed]) -> Vec<(isize, usize)> {
    list.iter().map(|k| (k.key, k.tag)).collect()
}

#[test]
fn insertion_and_merge_sort_keep_equal_elements_in_order() {
    for _ in 0..20 {
        let keys = random_vec(200, -5, 6);
        let mut expected: Vec<(isize, usize)> =
            keys.iter().enumerate().map(|(tag, &key)| (key, tag)).collect();
        // the standard sort keeps equal elements in order
        expected.sort_by_key(|p| p.0);

        let mut by_insertion = keyed(&keys);
        sorts::inssort(&mut by_insertion);
        assert_eq!(pairs(&by_insertion), expected);

        let mut by_merge = keyed(&keys);
        sorts::msort(&mut by_merge);
        assert_eq!(pairs(&by_merge), expected);

        assert_eq!(pairs(&sorts::msort_vec(keyed(&keys))), expected);
    }
}
