use std::collections::HashSet;
use std::iter::FromIterator;
use takuzu::dnf_to_cnf;

#[test]
fn dnf_to_cnf_simple() {
    const EXPECTED_CNF: &[&[char]] = &[
        &['c', 'a'],
        &['d', 'a'],
        &['c', 'b'],
        &['b', 'd'],
        &['c'],
        &['c', 'd'],
    ];

    let cnf = dnf_to_cnf::<char>(&[&['a', 'b', 'c'], &['c', 'd']]);

    assert_eq!(cnf.len(), EXPECTED_CNF.len());
    for clause in EXPECTED_CNF {
        assert!(cnf.contains(&HashSet::from_iter(clause.into_iter().copied())))
    }
}

#[test]
fn dnf_to_cnf_less_simple() {
    const EXPECTED_CNF: &[&[char]] = &[
        &['c', 'a', 'e'],
        &['d', 'a', 'e'],
        &['c', 'b', 'e'],
        &['b', 'd', 'e'],
        &['c', 'e'],
        &['c', 'd', 'e'],
    ];

    let cnf = dnf_to_cnf::<char>(&[&['a', 'b', 'c'], &['c', 'd'], &['e']]);

    assert_eq!(cnf.len(), EXPECTED_CNF.len());
    for clause in EXPECTED_CNF {
        assert!(cnf.contains(&HashSet::from_iter(clause.into_iter().copied())))
    }
}

#[test]
fn dnf_to_cnf_keeps_the_order_of_the_fold() {
    let cnf = dnf_to_cnf::<u8>(&[&[1, 2], &[3, 4, 5]]);
    let expected: Vec<HashSet<u8>> = vec![
        HashSet::from_iter(vec![1, 3]),
        HashSet::from_iter(vec![1, 4]),
        HashSet::from_iter(vec![1, 5]),
        HashSet::from_iter(vec![2, 3]),
        HashSet::from_iter(vec![2, 4]),
        HashSet::from_iter(vec![2, 5]),
    ];
    assert_eq!(cnf, expected);
}

#[test]
fn dnf_to_cnf_of_one_term_is_its_unit_clauses() {
    let cnf = dnf_to_cnf::<i32>(&[&[7, -8, 9]]);
    let expected: Vec<HashSet<i32>> = vec![
        HashSet::from_iter(vec![7]),
        HashSet::from_iter(vec![-8]),
        HashSet::from_iter(vec![9]),
    ];
    assert_eq!(cnf, expected);
}

#[test]
fn dnf_to_cnf_with_an_empty_term_has_no_clause() {
    let cnf = dnf_to_cnf::<u8>(&[&[1, 2], &[]]);
    assert!(cnf.is_empty());
}

fn dnf_value(dnf: &[&[u8]], assignment: u32) -> bool {
    dnf.iter().any(|term| term.iter().all(|l| assignment & (1 << l) != 0))
}

fn cnf_value(cnf: &[HashSet<u8>], assignment: u32) -> bool {
    cnf.iter().all(|clause| clause.iter().any(|l| assignment & (1 << l) != 0))
}

#[test]
fn dnf_to_cnf_is_equivalent_under_every_assignment() {
    let formulas: Vec<Vec<&[u8]>> = vec![
        vec![&[0, 1, 2], &[2, 3]],
        vec![&[0], &[1], &[2], &[3]],
        vec![&[0, 1], &[2, 3], &[4, 0]],
        vec![&[0, 1, 2, 3, 4]],
        vec![&[0, 1], &[1, 0], &[2]],
        vec![&[3], &[]],
    ];
    for dnf in &formulas {
        let cnf = dnf_to_cnf::<u8>(dnf);
        let product: usize = dnf.iter().map(|term| term.len()).product();
        assert_eq!(cnf.len(), product);
        for assignment in 0..32u32 {
            assert_eq!(dnf_value(dnf, assignment), cnf_value(&cnf, assignment));
        }
    }
}
