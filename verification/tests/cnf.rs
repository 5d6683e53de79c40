use takuzu::cnf::{decode_model, search_result};
use takuzu::{model_to_grid, write_all, CNFFile, Cell, Grid, Literal, SolveError};

#[test]
fn numeric_form_of_the_worked_example() {
    assert_eq!(Literal::new(0, 1, true).into_numeric(2), 3);
    assert_eq!(Literal::new(1, 1, true).into_numeric(2), 4);
    assert_eq!(Literal::new(1, 1, false).into_numeric(2), -4);
    assert_eq!(Literal::new(0, 0, true).into_numeric(2), 1);
    assert_eq!(Literal::new(0, 0, false).into_numeric(6), -1);
    assert_eq!(Literal::new(5, 5, true).into_numeric(6), 36);
    assert_eq!(Literal::new(2, 3, false).into_numeric(8), -27);
}

#[test]
fn decoding_undoes_encoding() {
    for size in 1..10usize {
        for y in 0..size {
            for x in 0..size {
                for positive in [true, false] {
                    let literal = Literal::new(x, y, positive);
                    let n = literal.into_numeric(size);
                    assert_ne!(n, 0);
                    assert_eq!(n > 0, positive);
                    assert_eq!(Literal::from_numeric(n, size), literal);
                }
            }
        }
    }
}

#[test]
fn encoding_undoes_decoding() {
    for size in 1..7usize {
        for n in 1..=(size * size) as isize {
            assert_eq!(Literal::from_numeric(n, size).into_numeric(size), n);
            assert_eq!(Literal::from_numeric(-n, size).into_numeric(size), -n);
        }
    }
    assert_eq!(Literal::from_numeric(7, 3), Literal::new(0, 2, true));
    assert_eq!(Literal::from_numeric(-6, 3), Literal::new(2, 1, false));
}

#[test]
fn literals_are_equal_when_their_fields_are() {
    assert_eq!(Literal::new(1, 2, true), Literal::new(1, 2, true));
    assert_ne!(Literal::new(1, 2, true), Literal::new(1, 2, false));
    assert_ne!(Literal::new(1, 2, true), Literal::new(2, 1, true));
    assert!(!Literal::new(3, 4, true).negated);
    assert!(Literal::new(3, 4, false).negated);
}

#[test]
fn literal_for_the_solver() {
    assert_eq!(Literal::new(1, 1, false).into_lit(2).to_dimacs(), -4);
    assert_eq!(Literal::new(0, 1, true).into_lit(2).to_dimacs(), 3);
    assert_eq!(Literal::new(3, 2, true).into_lit(4), varisat::Lit::from_dimacs(12));
}

#[test]
fn literal_text() {
    assert_eq!(Literal::new(1, 2, false).to_text(), "\u{ac}(1, 2)");
    assert_eq!(Literal::new(0, 13, true).to_text(), "(0, 13)");
}

#[test]
fn literals_of_the_filled_cells() {
    let mut grid = Grid::new(4);
    grid.set(2, 0, true);
    grid.set(0, 1, false);
    grid.set(3, 3, true);
    assert_eq!(
        grid.to_literals(),
        vec![
            Literal::new(2, 0, true),
            Literal::new(0, 1, false),
            Literal::new(3, 3, true),
        ]
    );
    assert!(Grid::new(2).to_literals().is_empty());
}

#[test]
fn clause_with_an_initial_literal_is_dropped() {
    let mut grid = Grid::new(2);
    grid.set(0, 0, true);
    let l = Literal::new(0, 0, true);
    let m = Literal::new(1, 0, true);
    let mut out = CNFFile::new_varisat(&grid);
    assert!(out.clauses.is_empty());
    out.push(vec![l]);
    assert!(out.clauses.is_empty());
    out.push(vec![l, m]);
    assert!(out.clauses.is_empty());
    out.push(vec![m, l]);
    assert!(out.clauses.is_empty());
    out.push(vec![m]);
    assert_eq!(out.clauses, vec![vec![m]]);
    let not_l = Literal::new(0, 0, false);
    out.push(vec![not_l, m]);
    assert_eq!(out.clauses, vec![vec![m], vec![not_l, m]]);
    out.push(vec![]);
    assert_eq!(out.clauses, vec![vec![m], vec![not_l, m], vec![]]);
}

#[test]
fn push_multiple_keeps_the_accepted_clauses_in_order() {
    let mut grid = Grid::new(2);
    grid.set(1, 1, false);
    let fixed = Literal::new(1, 1, false);
    let a = Literal::new(0, 0, true);
    let b = Literal::new(1, 0, false);
    let mut out = CNFFile::new_varisat(&grid);
    out.push(vec![b]);
    out.push_multiple(vec![vec![a, b], vec![a, fixed], vec![fixed], vec![b, a], vec![a]]);
    assert_eq!(out.clauses, vec![vec![b], vec![a, b], vec![b, a], vec![a]]);
    assert_eq!(out.grid.inner, grid.inner);
}

#[test]
fn dimacs_of_the_worked_example() {
    let grid = Grid::new(2);
    let mut out = CNFFile::new_varisat(&grid);
    assert_eq!(out.to_dimacs(), "p cnf 4 0\n");
    out.push(vec![Literal::new(0, 1, true), Literal::new(1, 1, false)]);
    out.push(vec![Literal::new(0, 0, true), Literal::new(1, 1, true)]);
    assert_eq!(out.to_dimacs(), "p cnf 4 2\n3 -4 0\n1 4 0\n");
}

#[test]
fn dimacs_counts_every_cell_as_a_variable() {
    let grid = Grid::new(12);
    let mut out = CNFFile::new_varisat(&grid);
    out.push(vec![Literal::new(11, 11, false)]);
    out.push(vec![]);
    assert_eq!(out.to_dimacs(), "p cnf 144 2\n-144 0\n0\n");
}

#[test]
fn solver_finds_the_only_solution() {
    let mut grid = Grid::new(2);
    grid.set(0, 0, true);
    let mut out = CNFFile::new_varisat(&grid);
    assert_eq!(write_all(&mut out, &grid), Ok(()));
    assert_eq!(out.solve(), Ok(true));
    let model = out.model().unwrap();
    assert_eq!(
        model,
        vec![
            Literal::new(0, 0, true),
            Literal::new(1, 0, false),
            Literal::new(0, 1, false),
            Literal::new(1, 1, true),
        ]
    );
    let solved = model_to_grid(&model).unwrap();
    assert_eq!(solved.to_text(), "10\n01\n");
}

#[test]
fn solver_uses_the_clauses_it_is_given() {
    let grid = Grid::new(2);
    let mut out = CNFFile::new_varisat(&grid);
    out.push(vec![Literal::new(0, 0, false)]);
    out.push(vec![Literal::new(1, 0, true)]);
    out.push(vec![Literal::new(0, 1, true), Literal::new(0, 0, true)]);
    out.push(vec![Literal::new(1, 1, false), Literal::new(1, 0, false)]);
    assert_eq!(out.solve(), Ok(true));
    let solved = model_to_grid(&out.model().unwrap()).unwrap();
    assert_eq!(solved.to_text(), "01\n10\n");
}

#[test]
fn puzzle_without_solution_is_unsatisfiable() {
    let mut grid = Grid::new(2);
    grid.set(0, 0, true);
    grid.set(1, 0, true);
    let mut out = CNFFile::new_varisat(&grid);
    assert_eq!(write_all(&mut out, &grid), Ok(()));
    assert_eq!(out.solve(), Ok(false));
    assert!(out.usable);
    assert_eq!(out.model(), None);
}

#[test]
fn model_before_any_search_is_none() {
    let grid = Grid::new(2);
    let out = CNFFile::new_varisat(&grid);
    assert_eq!(out.model(), None);
}

fn line(grid: &Grid, k: usize, column: bool) -> Vec<Cell> {
    (0..grid.size).map(|i| if column { grid.get(k, i) } else { grid.get(i, k) }).collect()
}

fn is_solution(grid: &Grid) -> bool {
    let n = grid.size;
    for column in [false, true] {
        for k in 0..n {
            let cells = line(grid, k, column);
            if cells.iter().any(|c| *c == Cell::Empty) {
                return false;
            }
            if cells.iter().filter(|c| **c == Cell::Filled(true)).count() != n / 2 {
                return false;
            }
            if cells.windows(3).any(|w| w[0] == w[1] && w[1] == w[2]) {
                return false;
            }
            for other in 0..k {
                if line(grid, other, column) == cells {
                    return false;
                }
            }
        }
    }
    true
}

#[test]
fn solver_solves_a_puzzle_of_side_four() {
    let mut grid = Grid::new(4);
    grid.set(1, 0, true);
    grid.set(0, 1, true);
    grid.set(3, 2, true);
    grid.set(2, 3, false);
    let mut out = CNFFile::new_varisat(&grid);
    assert_eq!(write_all(&mut out, &grid), Ok(()));
    assert_eq!(out.solve(), Ok(true));
    let model = out.model().unwrap();
    assert_eq!(model.len(), 16);
    for (i, literal) in model.iter().enumerate() {
        assert_eq!((literal.x, literal.y), (i % 4, i / 4));
    }
    let solved = model_to_grid(&model).unwrap();
    assert_eq!(solved.size, 4);
    assert!(is_solution(&solved));
    assert_eq!(solved.get(1, 0), Cell::Filled(true));
    assert_eq!(solved.get(0, 1), Cell::Filled(true));
    assert_eq!(solved.get(3, 2), Cell::Filled(true));
    assert_eq!(solved.get(2, 3), Cell::Filled(false));
}

#[test]
fn search_result_by_case() {
    assert_eq!(search_result(Ok(true)), Ok(true));
    assert_eq!(search_result(Ok(false)), Ok(false));
    assert_eq!(search_result(Err(true)), Err(SolveError::Interrupted));
    assert_eq!(search_result(Err(false)), Err(SolveError::Unrecoverable));
}

#[test]
fn model_is_decoded_literal_by_literal() {
    assert_eq!(
        decode_model(&vec![-1, 2, 3, -4], 2),
        vec![
            Literal::new(0, 0, false),
            Literal::new(1, 0, true),
            Literal::new(0, 1, true),
            Literal::new(1, 1, false),
        ]
    );
    assert_eq!(decode_model(&vec![9, -2], 3), vec![Literal::new(2, 2, true), Literal::new(1, 0, false)]);
    assert!(decode_model(&vec![], 3).is_empty());
}

#[test]
fn solver_that_cannot_search_is_not_asked() {
    let grid = Grid::new(2);
    let mut out = CNFFile::new_varisat(&grid);
    out.usable = false;
    assert_eq!(out.solve(), Err(SolveError::Unrecoverable));
    assert!(!out.usable);
    assert_eq!(write_all(&mut out, &grid), Err(SolveError::Unrecoverable));
    // the first two rules were written, the third was not
    assert_eq!(out.clauses.len(), 16);
}

#[test]
fn formula_as_numbers() {
    let mut grid = Grid::new(2);
    grid.set(1, 0, false);
    grid.set(1, 1, true);
    let mut out = CNFFile::new_varisat(&grid);
    out.push(vec![Literal::new(0, 0, true), Literal::new(1, 0, true)]);
    out.push(vec![Literal::new(1, 1, true)]);
    out.push(vec![Literal::new(0, 1, false), Literal::new(1, 1, false)]);
    let (clauses, initial) = out.into_solver_input();
    assert_eq!(clauses, vec![vec![1, 2], vec![-3, -4]]);
    assert_eq!(initial, vec![-2, 4]);
}

#[test]
fn numeric_form_needs_only_the_number_to_fit() {
    let side = usize::MAX / 2;
    let literal = Literal::new(5, 0, false);
    assert_eq!(literal.into_numeric(side), -6);
    assert_eq!(Literal::from_numeric(-6, side), literal);
    let last = Literal::new(side - 1, 0, true);
    assert_eq!(last.into_numeric(side), side as isize);
    assert_eq!(Literal::from_numeric(side as isize, side), last);
}

#[test]
fn push_multiple_hands_the_solver_the_accepted_clauses() {
    let mut grid = Grid::new(2);
    grid.set(0, 0, true);
    let mut out = CNFFile::new_varisat(&grid);
    out.push_multiple(vec![
        vec![Literal::new(0, 0, true), Literal::new(1, 0, true)],
        vec![Literal::new(1, 0, false)],
        vec![Literal::new(0, 1, false)],
        vec![Literal::new(1, 1, true)],
    ]);
    assert_eq!(out.clauses.len(), 3);
    assert_eq!(out.solve(), Ok(true));
    let solved = model_to_grid(&out.model().unwrap()).unwrap();
    assert_eq!(solved.to_text(), "10\n01\n");
}

#[test]
fn push_multiple_of_a_contradiction_is_unsatisfiable() {
    let grid = Grid::new(2);
    let mut out = CNFFile::new_varisat(&grid);
    out.push_multiple(vec![vec![Literal::new(1, 1, true)], vec![Literal::new(1, 1, false)]]);
    assert_eq!(out.solve(), Ok(false));
}
