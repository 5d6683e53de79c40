use std::collections::HashSet;
use std::convert::TryFrom;
use takuzu::{write_rule_1, write_rule_2, write_rule_3, CNFFile, Cell, Grid, Literal};

fn grid_of(rows: &[&str]) -> Grid {
    let cells: Vec<Cell> = rows
        .iter()
        .flat_map(|row| row.chars())
        .map(|c| match c {
            '0' => Cell::Filled(false),
            '1' => Cell::Filled(true),
            _ => Cell::Empty,
        })
        .collect();
    Grid::try_from(cells).unwrap()
}

fn holds(grid: &Grid, clause: &[Literal]) -> bool {
    clause.iter().any(|l| grid.get(l.x, l.y) == Cell::Filled(!l.negated))
}

fn as_sets(clauses: &[Vec<Literal>]) -> Vec<HashSet<Literal>> {
    clauses.iter().map(|c| c.iter().copied().collect()).collect()
}

fn set_of(literals: &[(usize, usize, bool)]) -> HashSet<Literal> {
    literals.iter().map(|(x, y, p)| Literal::new(*x, *y, *p)).collect()
}

#[test]
fn no_triples_on_an_empty_grid_of_side_six() {
    let grid = Grid::new(6);
    let mut out = CNFFile::new_varisat(&grid);
    write_rule_2(&mut out, &grid);
    assert_eq!(out.clauses.len(), 96);
    for (columns, part) in [(true, &out.clauses[..48]), (false, &out.clauses[48..])] {
        for k in 0..6 {
            let on_line: Vec<&Vec<Literal>> = part
                .iter()
                .filter(|c| c.iter().all(|l| if columns { l.x == k } else { l.y == k }))
                .collect();
            assert_eq!(on_line.len(), 8);
            let one_false = on_line.iter().filter(|c| c.iter().all(|l| l.negated)).count();
            let one_true = on_line.iter().filter(|c| c.iter().all(|l| !l.negated)).count();
            assert_eq!(one_false, 4);
            assert_eq!(one_true, 4);
        }
    }
    assert!(out.clauses.iter().all(|c| c.len() == 3));
}

#[test]
fn no_triples_on_a_grid_of_side_four() {
    let grid = Grid::new(4);
    let mut out = CNFFile::new_varisat(&grid);
    write_rule_2(&mut out, &grid);
    assert_eq!(out.clauses.len(), 32);
    let l = |x, y, p| Literal::new(x, y, p);
    assert_eq!(
        out.clauses[..4].to_vec(),
        vec![
            vec![l(0, 0, false), l(0, 1, false), l(0, 2, false)],
            vec![l(0, 0, true), l(0, 1, true), l(0, 2, true)],
            vec![l(0, 1, false), l(0, 2, false), l(0, 3, false)],
            vec![l(0, 1, true), l(0, 2, true), l(0, 3, true)],
        ]
    );
    assert_eq!(
        out.clauses[16..18].to_vec(),
        vec![
            vec![l(0, 0, false), l(1, 0, false), l(2, 0, false)],
            vec![l(0, 0, true), l(1, 0, true), l(2, 0, true)],
        ]
    );
    assert_eq!(
        out.clauses[31],
        vec![l(1, 3, true), l(2, 3, true), l(3, 3, true)]
    );
}

#[test]
fn no_triples_has_no_window_on_a_grid_of_side_two() {
    let grid = Grid::new(2);
    let mut out = CNFFile::new_varisat(&grid);
    write_rule_2(&mut out, &grid);
    assert!(out.clauses.is_empty());
}

#[test]
fn balance_on_a_grid_of_side_two() {
    let grid = Grid::new(2);
    let mut out = CNFFile::new_varisat(&grid);
    write_rule_1(&mut out, &grid);
    let expected = vec![
        // row 0: (x0 and not x1) or (not x0 and x1)
        set_of(&[(0, 0, true), (0, 0, false)]),
        set_of(&[(0, 0, true), (1, 0, true)]),
        set_of(&[(1, 0, false), (0, 0, false)]),
        set_of(&[(1, 0, false), (1, 0, true)]),
        // column 0
        set_of(&[(0, 0, true), (0, 0, false)]),
        set_of(&[(0, 0, true), (0, 1, true)]),
        set_of(&[(0, 1, false), (0, 0, false)]),
        set_of(&[(0, 1, false), (0, 1, true)]),
        // row 1
        set_of(&[(0, 1, true), (0, 1, false)]),
        set_of(&[(0, 1, true), (1, 1, true)]),
        set_of(&[(1, 1, false), (0, 1, false)]),
        set_of(&[(1, 1, false), (1, 1, true)]),
        // column 1
        set_of(&[(1, 0, true), (1, 0, false)]),
        set_of(&[(1, 0, true), (1, 1, true)]),
        set_of(&[(1, 1, false), (1, 0, false)]),
        set_of(&[(1, 1, false), (1, 1, true)]),
    ];
    assert_eq!(as_sets(&out.clauses), expected);
}

#[test]
fn balance_on_a_grid_of_side_four() {
    let grid = Grid::new(4);
    let mut out = CNFFile::new_varisat(&grid);
    write_rule_1(&mut out, &grid);
    // six ways to choose two of four cells, four literals in each term
    assert_eq!(out.clauses.len(), 8 * 4096);
    for clause in &out.clauses {
        let distinct: HashSet<&Literal> = clause.iter().collect();
        assert_eq!(distinct.len(), clause.len());
    }
}

#[test]
fn distinct_lines_on_a_grid_of_side_two() {
    let grid = Grid::new(2);
    let mut out = CNFFile::new_varisat(&grid);
    write_rule_3(&mut out, &grid);
    // four terms of two literals for the one pair of lines, rows then columns
    assert_eq!(out.clauses.len(), 32);
    let sets = as_sets(&out.clauses);
    assert_eq!(
        sets[0],
        set_of(&[(0, 0, true), (0, 0, false), (1, 0, true), (1, 0, false)])
    );
    assert_eq!(
        sets[1],
        set_of(&[(0, 0, true), (0, 0, false), (1, 0, true), (1, 1, true)])
    );
    assert_eq!(
        sets[15],
        set_of(&[(0, 1, false), (0, 1, true), (1, 1, false), (1, 1, true)])
    );
    assert_eq!(
        sets[16],
        set_of(&[(0, 0, true), (0, 0, false), (0, 1, true), (0, 1, false)])
    );
    assert_eq!(
        sets[17],
        set_of(&[(0, 0, true), (0, 0, false), (0, 1, true), (1, 1, true)])
    );
}

#[test]
fn distinct_lines_on_a_grid_of_side_four() {
    let grid = Grid::new(4);
    let mut out = CNFFile::new_varisat(&grid);
    write_rule_3(&mut out, &grid);
    assert_eq!(out.clauses.len(), 6 * 2 * 256);
    // the pairs come in order, the rows of a pair before its columns
    assert!(out.clauses[..256].iter().all(|c| c.iter().all(|l| l.y == 0 || l.y == 1)));
    assert!(out.clauses[256..512].iter().all(|c| c.iter().all(|l| l.x == 0 || l.x == 1)));
    assert!(out.clauses[512..768].iter().all(|c| c.iter().all(|l| l.y == 0 || l.y == 2)));
    assert!(out.clauses[5 * 512..5 * 512 + 256]
        .iter()
        .all(|c| c.iter().all(|l| l.y == 2 || l.y == 3)));
}

#[test]
fn rules_write_nothing_for_lines_that_do_not_exist() {
    let grid = Grid::try_from(vec![Cell::Empty]).unwrap();
    let mut out = CNFFile::new_varisat(&grid);
    write_rule_2(&mut out, &grid);
    write_rule_3(&mut out, &grid);
    assert!(out.clauses.is_empty());
}

#[test]
fn clauses_hold_in_every_solved_grid() {
    let solutions = [
        grid_of(&["0110", "1001", "0011", "1100"]),
        grid_of(&["1010", "0101", "1100", "0011"]),
        grid_of(&["10", "01"]),
        grid_of(&["01", "10"]),
    ];
    for solution in &solutions {
        let empty = Grid::new(solution.size);
        let mut out = CNFFile::new_varisat(&empty);
        write_rule_1(&mut out, &empty);
        write_rule_2(&mut out, &empty);
        write_rule_3(&mut out, &empty);
        assert!(!out.clauses.is_empty());
        for clause in &out.clauses {
            assert!(holds(solution, clause));
        }
    }
}

#[test]
fn each_rule_rejects_a_grid_that_breaks_it() {
    let empty = Grid::new(4);
    let unbalanced = grid_of(&["0111", "1001", "0011", "1100"]);
    let mut out = CNFFile::new_varisat(&empty);
    write_rule_1(&mut out, &empty);
    assert!(out.clauses.iter().any(|c| !holds(&unbalanced, c)));

    let empty = Grid::new(6);
    let triple = grid_of(&["000111", "111000", "010101", "101010", "001011", "110100"]);
    let mut out = CNFFile::new_varisat(&empty);
    write_rule_2(&mut out, &empty);
    assert!(out.clauses.iter().any(|c| !holds(&triple, c)));

    let empty = Grid::new(4);
    let repeated = grid_of(&["0110", "1001", "0110", "1001"]);
    let mut out = CNFFile::new_varisat(&empty);
    write_rule_3(&mut out, &empty);
    assert!(out.clauses.iter().any(|c| !holds(&repeated, c)));
}

#[test]
fn rules_keep_no_clause_with_an_initial_literal() {
    let mut puzzle = Grid::new(4);
    puzzle.set(0, 0, false);
    puzzle.set(3, 1, true);
    let initial = puzzle.to_literals();
    let empty = Grid::new(4);
    let mut filtered = CNFFile::new_varisat(&puzzle);
    let mut full = CNFFile::new_varisat(&empty);
    for out in [&mut filtered, &mut full] {
        write_rule_1(out, &puzzle);
        write_rule_2(out, &puzzle);
        write_rule_3(out, &puzzle);
    }
    assert!(filtered.clauses.len() < full.clauses.len());
    for clause in &filtered.clauses {
        assert!(clause.iter().all(|l| !initial.contains(l)));
    }
    let kept: Vec<HashSet<Literal>> = as_sets(&full.clauses)
        .into_iter()
        .filter(|c| c.iter().all(|l| !initial.contains(l)))
        .collect();
    assert_eq!(as_sets(&filtered.clauses), kept);
}
