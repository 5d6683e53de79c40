use takuzu::{create_grid, model_to_grid, read_sat_file, Cell, Error, Literal};

#[test]
fn unsat() {
    const FILE: &str = "c File created by MyIncredibleSAT\n\ns UNSATISFIABLE\n";

    assert_eq!(read_sat_file(FILE).unwrap_err(), Error::Unsatisfiable,);
}

#[test]
fn sat_no_model() {
    const FILE: &str = "s SATISFIABLE\n";

    assert_eq!(read_sat_file(FILE).unwrap_err(), Error::UndefinedModel,);
}

#[test]
fn sat_minisat() {
    const FILE: &str = "SAT\n-1 2 -3 4 0\n";

    let grid = read_sat_file(FILE).unwrap();

    assert_eq!(
        grid.inner,
        vec![
            Cell::Filled(false),
            Cell::Filled(true),
            Cell::Filled(false),
            Cell::Filled(true),
        ]
    );
}

#[test]
fn sat_varisat() {
    const FILE: &str = "s SATISFIABLE\nv -1 2 -3 4 0\n";

    let grid = read_sat_file(FILE).unwrap();

    assert_eq!(
        grid.inner,
        vec![
            Cell::Filled(false),
            Cell::Filled(true),
            Cell::Filled(false),
            Cell::Filled(true),
        ]
    );
}

#[test]
fn unsat_of_minisat() {
    assert_eq!(read_sat_file("UNSAT\n").unwrap_err(), Error::Unsatisfiable);
    assert_eq!(read_sat_file("s UNSATISFIABLE\n").unwrap_err(), Error::Unsatisfiable);
}

#[test]
fn empty_text_has_no_model() {
    assert_eq!(read_sat_file("").unwrap_err(), Error::UndefinedModel);
    assert_eq!(read_sat_file("\n\n  \nc comment\nSAT").unwrap_err(), Error::UndefinedModel);
}

#[test]
fn lines_are_trimmed() {
    let grid = read_sat_file("  SAT \r\n\t1 -2 3 -4 0  \r\n").unwrap();
    assert_eq!(grid.size, 2);
    assert_eq!(
        grid.inner,
        vec![
            Cell::Filled(true),
            Cell::Filled(false),
            Cell::Filled(true),
            Cell::Filled(false),
        ]
    );
}

#[test]
fn reading_stops_at_the_first_model() {
    let grid = read_sat_file("v 1 0\nthis line is never read\n").unwrap();
    assert_eq!(grid.inner, vec![Cell::Filled(true)]);
    assert_eq!(
        read_sat_file("s UNSATISFIABLE\nv 1 0\n").unwrap_err(),
        Error::Unsatisfiable
    );
}

#[test]
fn unknown_line_is_invalid() {
    assert_eq!(
        read_sat_file("SAT\n  hello world \n1 0\n").unwrap_err(),
        Error::InvalidLine("hello world".into())
    );
    assert_eq!(read_sat_file("c\n").unwrap_err(), Error::InvalidLine("c".into()));
    assert_eq!(read_sat_file("v\n").unwrap_err(), Error::InvalidLine("v".into()));
    assert_eq!(read_sat_file("sat\n").unwrap_err(), Error::InvalidLine("sat".into()));
}

#[test]
fn model_line_must_end_with_zero() {
    assert_eq!(
        read_sat_file("SAT\n1 -2 3 4\n").unwrap_err(),
        Error::InvalidLine("1 -2 3 4".into())
    );
    assert_eq!(read_sat_file("v 1 2 3 4\n").unwrap_err(), Error::InvalidLine("1 2 3 4".into()));
    assert_eq!(read_sat_file("0\n").unwrap_err(), Error::InvalidLine("0".into()));
    assert_eq!(create_grid("1 2 3 40").unwrap_err(), Error::InvalidLine("1 2 3 40".into()));
    assert_eq!(create_grid("").unwrap_err(), Error::InvalidLine("".into()));
}

#[test]
fn literals_must_come_in_order() {
    assert_eq!(
        read_sat_file("1 3 2 4 0\n").unwrap_err(),
        Error::InvalidLiteral("3".into())
    );
    assert_eq!(create_grid("1 -2 -4 4 0").unwrap_err(), Error::InvalidLiteral("-4".into()));
    assert_eq!(create_grid("2 0").unwrap_err(), Error::InvalidLiteral("2".into()));
    assert_eq!(create_grid("01 0").unwrap_err(), Error::InvalidLiteral("01".into()));
    assert_eq!(create_grid("+1 0").unwrap_err(), Error::InvalidLiteral("+1".into()));
    assert_eq!(create_grid("- 0").unwrap_err(), Error::InvalidLiteral("-".into()));
    assert_eq!(create_grid("1 --2 0").unwrap_err(), Error::InvalidLiteral("--2".into()));
    assert_eq!(create_grid("1 x y 0").unwrap_err(), Error::InvalidLiteral("x".into()));
}

#[test]
fn number_of_literals_must_be_a_square() {
    assert_eq!(read_sat_file("1 2 3 0\n").unwrap_err(), Error::InvalidModel);
    assert_eq!(create_grid("1 -2 0").unwrap_err(), Error::InvalidModel);
}

#[test]
fn create_grid_reads_a_model_line() {
    let grid = create_grid("1 -2\t-3   4 5 6 -7 8 -9 0").unwrap();
    assert_eq!(grid.size, 3);
    let expected: Vec<Cell> = [true, false, false, true, true, true, false, true, false]
        .iter()
        .map(|b| Cell::Filled(*b))
        .collect();
    assert_eq!(grid.inner, expected);
    let empty = create_grid(" 0").unwrap();
    assert_eq!(empty.size, 0);
    assert!(empty.inner.is_empty());
}

#[test]
fn long_models_count_in_decimal() {
    let mut line = String::new();
    for i in 1..=144 {
        if i % 3 == 0 {
            line.push('-');
        }
        line.push_str(&i.to_string());
        line.push(' ');
    }
    line.push('0');
    let grid = create_grid(&line).unwrap();
    assert_eq!(grid.size, 12);
    for i in 0..144usize {
        assert_eq!(grid.inner[i], Cell::Filled((i + 1) % 3 != 0));
    }
}

#[test]
fn model_of_literals_becomes_a_grid() {
    let model = vec![
        Literal::new(0, 0, false),
        Literal::new(1, 0, true),
        Literal::new(0, 1, true),
        Literal::new(1, 1, false),
    ];
    let grid = model_to_grid(&model).unwrap();
    assert_eq!(grid.size, 2);
    assert_eq!(
        grid.inner,
        vec![
            Cell::Filled(false),
            Cell::Filled(true),
            Cell::Filled(true),
            Cell::Filled(false),
        ]
    );
    assert_eq!(model_to_grid(&model[..3].to_vec()).unwrap_err(), Error::InvalidModel);
}
