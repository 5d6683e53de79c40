use std::convert::TryFrom;
use takuzu::{fill_grid_from_file, parse_grid, published_grids, size, Cell, Grid};

const BASIC: &str = "2\n01\n11\n";

#[test]
fn basic() {
    let grid = {
        let mut grid = Grid::new(size(BASIC).unwrap());
        fill_grid_from_file(&mut grid, BASIC);
        grid
    };

    assert_eq!(grid.size, 2);
    assert_eq!(grid.get(0, 0), Cell::Filled(false));
    assert_eq!(grid.get(0, 1), Cell::Filled(true));
    assert_eq!(grid.get(1, 0), Cell::Filled(true));
    assert_eq!(grid.get(1, 1), Cell::Filled(true));
}

#[test]
fn grid_get_set() {
    let mut g = Grid::new(6);
    g.set(0, 1, true);
    g.set(0, 0, false);
    assert_eq!(g.get(0, 1), Cell::Filled(true));
    assert_eq!(g.get(0, 0), Cell::Filled(false));
    assert_eq!(g.get(0, 0), Cell::Filled(false));
}

#[test]
fn new_grid_is_empty() {
    let g = Grid::new(4);
    assert_eq!(g.size, 4);
    assert_eq!(g.inner, vec![Cell::Empty; 16]);
}

#[test]
fn set_touches_one_cell() {
    let mut g = Grid::new(4);
    g.set(3, 1, true);
    for y in 0..4 {
        for x in 0..4 {
            let expected = if (x, y) == (3, 1) { Cell::Filled(true) } else { Cell::Empty };
            assert_eq!(g.get(x, y), expected);
        }
    }
    assert_eq!(g.inner[1 * 4 + 3], Cell::Filled(true));
}

#[test]
fn cell_to_char() {
    assert_eq!(Cell::Filled(false).to_char(), '0');
    assert_eq!(Cell::Filled(true).to_char(), '1');
    assert_eq!(Cell::Empty.to_char(), '.');
}

#[test]
fn try_from_accepts_squares_only() {
    for n in 0..40usize {
        let cells = vec![Cell::Empty; n];
        let root = (0..=n).find(|s| s * s == n);
        match (Grid::try_from(cells), root) {
            (Ok(grid), Some(s)) => {
                assert_eq!(grid.size, s);
                assert_eq!(grid.inner.len(), n);
            }
            (Err(()), None) => {}
            (other, _) => panic!("{} cells gave {:?}", n, other.map(|g| g.size)),
        }
    }
}

#[test]
fn try_from_keeps_the_cells() {
    let cells = vec![Cell::Filled(true), Cell::Empty, Cell::Filled(false), Cell::Empty];
    let grid = Grid::try_from(cells.clone()).unwrap();
    assert_eq!(grid.size, 2);
    assert_eq!(grid.inner, cells);
    assert_eq!(grid.get(0, 0), Cell::Filled(true));
    assert_eq!(grid.get(0, 1), Cell::Filled(false));
}

#[test]
fn int_sqrt_values() {
    assert_eq!(takuzu::grid::int_sqrt(0), Some(0));
    assert_eq!(takuzu::grid::int_sqrt(1), Some(1));
    assert_eq!(takuzu::grid::int_sqrt(2), None);
    assert_eq!(takuzu::grid::int_sqrt(36), Some(6));
    assert_eq!(takuzu::grid::int_sqrt(63), None);
    assert_eq!(takuzu::grid::int_sqrt(64), Some(8));
    assert_eq!(takuzu::grid::int_sqrt(1 << 40), Some(1 << 20));
    assert_eq!(takuzu::grid::int_sqrt((1 << 40) + 1), None);
}

#[test]
fn grid_text() {
    let mut g = Grid::new(2);
    g.set(0, 0, true);
    g.set(1, 1, false);
    assert_eq!(g.to_text(), "1.\n.0\n");
}

#[test]
fn size_of_first_line() {
    assert_eq!(size("6\n......"), Some(6));
    assert_eq!(size("12"), Some(12));
    assert_eq!(size("+4\n"), Some(4));
    assert_eq!(size("008\r\n"), Some(8));
    assert_eq!(size(""), None);
    assert_eq!(size("\n4"), None);
    assert_eq!(size("0\n"), None);
    assert_eq!(size("-4\n"), None);
    assert_eq!(size("4 \n"), None);
    assert_eq!(size("4\r"), None);
    assert_eq!(size("+\n"), None);
    assert_eq!(size("four\n"), None);
    assert_eq!(size("99999999999999999999999999\n"), None);
    assert_eq!(size(&format!("{}\n", usize::MAX)), Some(usize::MAX));
}

#[test]
fn fill_passes_over_line_endings_and_other_characters() {
    let mut grid = Grid::new(2);
    fill_grid_from_file(&mut grid, "2\r\n1x\r\n\n.0\r\n");
    assert_eq!(
        grid.inner,
        vec![Cell::Filled(true), Cell::Empty, Cell::Empty, Cell::Filled(false)]
    );
}

#[test]
fn fill_leaves_what_lies_beyond_the_grid() {
    let mut grid = Grid::new(2);
    grid.set(1, 1, true);
    fill_grid_from_file(&mut grid, "2\n01\n0.1111\n");
    assert_eq!(
        grid.inner,
        vec![Cell::Filled(false), Cell::Filled(true), Cell::Filled(false), Cell::Filled(true)]
    );
    let mut untouched = Grid::new(2);
    fill_grid_from_file(&mut untouched, "1111");
    assert_eq!(untouched.inner, vec![Cell::Empty; 4]);
}

#[test]
fn parse_grid_reads_the_three_characters() {
    let grid = parse_grid("\"01.1\";").unwrap();
    assert_eq!(grid.size, 2);
    assert_eq!(
        grid.inner,
        vec![Cell::Filled(false), Cell::Filled(true), Cell::Empty, Cell::Filled(true)]
    );
    assert_eq!(parse_grid("01.").unwrap_err(), "invalid grid size");
}

#[test]
fn published_file_holds_a_puzzle_and_its_solution() {
    let text = "id:2001,\ngrille:\"0..1\",\r\nniveau:1\nsolution:\"0110\"\n";
    let (puzzle, solution) = published_grids(text);
    let puzzle = puzzle.unwrap().unwrap();
    assert_eq!(
        puzzle.inner,
        vec![Cell::Filled(false), Cell::Empty, Cell::Empty, Cell::Filled(true)]
    );
    let solution = solution.unwrap().unwrap();
    assert_eq!(solution.to_text(), "01\n10\n");
}

#[test]
fn published_file_is_read_line_by_line() {
    let (puzzle, solution) = published_grids(" grille:\"0110\"\nsolution:\"011\"");
    assert!(puzzle.is_none());
    assert_eq!(solution.unwrap().unwrap_err(), "invalid grid size");
    let (puzzle, solution) = published_grids("grille:\"0\"\ngrille:\"1111\"\n");
    assert_eq!(puzzle.unwrap().unwrap().size, 2);
    assert!(solution.is_none());
    let (puzzle, solution) = published_grids("");
    assert!(puzzle.is_none() && solution.is_none());
}
