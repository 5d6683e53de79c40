use std::collections::HashSet;
use std::iter::FromIterator;
use takuzu::{combinations, pairs};

#[test]
fn pairs_test() {
    const EXPECTED: &[[i32; 2]] = &[[1, 2], [2, 3], [3, 4], [4, 1], [1, 3], [2, 4]];

    let pairs: Vec<_> = pairs(&[1, 2, 3, 4])
        .into_iter()
        .map(|(e1, e2)| HashSet::<_>::from_iter(vec![*e1, *e2]))
        .collect();

    assert_eq!(EXPECTED.len(), pairs.len(), "{:?}", pairs);
    for expected_pair in EXPECTED {
        let expected_pair = &HashSet::<_>::from_iter(expected_pair.into_iter().copied());
        assert!(
            pairs.contains(expected_pair),
            "{:?} ∉ {:?}",
            expected_pair,
            pairs,
        );
    }
}

#[test]
fn combinations_test() {
    let list = ['A', 'B', 'C', 'D'];
    let named: Vec<Vec<char>> = combinations(list.len(), 2)
        .into_iter()
        .map(|c| c.into_iter().map(|i| list[i]).collect())
        .collect();
    println!("{:#?}", named);
    assert_eq!(
        named,
        vec![
            vec!['A', 'B'],
            vec!['A', 'C'],
            vec!['A', 'D'],
            vec!['B', 'C'],
            vec!['B', 'D'],
            vec!['C', 'D'],
        ]
    );
}

#[test]
fn pairs_come_in_order() {
    let list = ['a', 'b', 'c'];
    let found: Vec<(char, char)> = pairs(&list).into_iter().map(|(a, b)| (*a, *b)).collect();
    assert_eq!(found, vec![('a', 'b'), ('a', 'c'), ('b', 'c')]);
    assert!(pairs::<u8>(&[]).is_empty());
    assert!(pairs(&[1]).is_empty());
}

#[test]
fn combinations_of_four_by_two() {
    assert_eq!(
        combinations(4, 2),
        vec![vec![0, 1], vec![0, 2], vec![0, 3], vec![1, 2], vec![1, 3], vec![2, 3]]
    );
}

#[test]
fn combinations_at_the_edges() {
    assert_eq!(combinations(3, 0), vec![Vec::<usize>::new()]);
    assert_eq!(combinations(0, 0), vec![Vec::<usize>::new()]);
    assert_eq!(combinations(3, 3), vec![vec![0, 1, 2]]);
    assert_eq!(combinations(3, 4), Vec::<Vec<usize>>::new());
    assert_eq!(combinations(0, 1), Vec::<Vec<usize>>::new());
    assert_eq!(combinations(3, 1), vec![vec![0], vec![1], vec![2]]);
}

fn binomial(n: usize, k: usize) -> usize {
    if k == 0 {
        1
    } else if n == 0 {
        0
    } else {
        binomial(n - 1, k - 1) + binomial(n - 1, k)
    }
}

#[test]
fn combinations_are_all_the_subsets() {
    for n in 0..9usize {
        for k in 0..=n + 1 {
            let all = combinations(n, k);
            assert_eq!(all.len(), binomial(n, k));
            for c in &all {
                assert_eq!(c.len(), k);
                assert!(c.windows(2).all(|w| w[0] < w[1]));
                assert!(c.iter().all(|i| *i < n));
            }
            assert!(all.windows(2).all(|w| w[0] < w[1]));
            let distinct: HashSet<&Vec<usize>> = all.iter().collect();
            assert_eq!(distinct.len(), all.len());
        }
    }
}
