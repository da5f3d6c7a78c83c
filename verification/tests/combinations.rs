use teleora::statement::combinations::{combinations, CombinationSplit};

#[test]
fn splits_in_lexicographic_order() {
    let mut c = combinations(vec!['a', 'b', 'c'], 2);
    assert_eq!(c.k(), 2);
    assert_eq!(c.next(), Some((vec!['a', 'b'], vec!['c'])));
    assert_eq!(c.next(), Some((vec!['a', 'c'], vec!['b'])));
    assert_eq!(c.next(), Some((vec!['b', 'c'], vec!['a'])));
    assert_eq!(c.next(), None);
    assert_eq!(c.next(), None);
}

#[test]
fn counts_every_combination_once() {
    let mut c = combinations(vec![1, 2, 3, 4, 5], 3);
    let mut seen = Vec::new();
    while let Some((p, rest)) = c.next() {
        assert_eq!(p.len() + rest.len(), 5);
        seen.push(p);
    }
    assert_eq!(seen.len(), 10);
    let mut sorted = seen.clone();
    sorted.sort();
    sorted.dedup();
    assert_eq!(sorted, seen);
}

#[test]
fn choosing_none_gives_one_split() {
    let mut c = combinations(vec![1, 2], 0);
    assert_eq!(c.next(), Some((vec![], vec![1, 2])));
    assert_eq!(c.next(), None);
}

#[test]
fn choosing_more_than_the_pool_gives_nothing() {
    let mut c = combinations(vec![1, 2], 3);
    assert_eq!(c.next(), None);
    assert_eq!(c.next(), None);
}

#[test]
fn choosing_all_gives_one_split() {
    let mut c = vec![7, 8].combinations_split(2);
    assert_eq!(c.next(), Some((vec![7, 8], vec![])));
    assert_eq!(c.next(), None);
}

#[test]
fn reset_before_the_start_starts_over_with_the_new_size() {
    let mut c = combinations(vec![1, 2, 3], 2);
    c.reset(1);
    assert_eq!(c.k(), 1);
    assert_eq!(c.next(), Some((vec![1], vec![2, 3])));
    assert_eq!(c.next(), Some((vec![2], vec![1, 3])));
    assert_eq!(c.next(), Some((vec![3], vec![1, 2])));
    assert_eq!(c.next(), None);
}

#[test]
fn reset_after_the_start_goes_back_to_the_first_split() {
    let mut c = combinations(vec![1, 2, 3], 2);
    assert_eq!(c.next(), Some((vec![1, 2], vec![3])));
    c.reset(2);
    assert_eq!(c.k(), 2);
    assert_eq!(c.next(), Some((vec![1, 2], vec![3])));
    assert_eq!(c.next(), Some((vec![1, 3], vec![2])));
}

#[test]
fn reset_after_the_end_to_a_larger_size_gives_nothing() {
    let mut c = combinations(vec![1, 2], 1);
    while c.next().is_some() {}
    c.reset(3);
    assert_eq!(c.next(), None);
}
