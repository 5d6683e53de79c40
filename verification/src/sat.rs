//! Reading what a SAT solver answered: the model as the solver holds it, or
//! the text that it printed, in the formats of MiniSAT, of Varisat and of
//! the SAT competitions.

use crate::cnf::Literal;
use crate::grid::{is_square, lemma_try_from_wf, Cell, Grid};
use crate::text::{
    decimal, decimal_chars, is_ascii_space, is_digit, is_white_space, range_is, range_starts_with,
    spec_is_ascii_space, spec_is_digit, spec_is_white_space, starts_with, to_chars,
};
use vstd::prelude::*;
use vstd::string::{StrSliceExecFns, StringExecFns};

verus! {

/// Why the answer of a solver gives no grid.
#[derive(Debug, PartialEq, Eq)]
pub enum Error {
    /// The solver found that no model exists.
    Unsatisfiable,
    /// The text holds no line with a model.
    UndefinedModel,
    /// The line has none of the known forms.
    InvalidLine(String),
    /// The literal of a model is not the one expected at its place.
    InvalidLiteral(String),
    /// The number of variables of the model is not a square, so that no
    /// grid has that many cells.
    InvalidModel,
}

/// What reading an answer gives: the cells of a grid, row by row, or the
/// reason why there are none.
pub enum Outcome {
    Cells(Seq<Cell>),
    Unsatisfiable,
    UndefinedModel,
    InvalidLine(Seq<char>),
    InvalidLiteral(Seq<char>),
    InvalidModel,
}

/// The outcome that a result stands for.
pub open spec fn outcome(r: Result<Grid, Error>) -> Outcome {
    match r {
        Ok(grid) => Outcome::Cells(grid.inner@),
        Err(Error::Unsatisfiable) => Outcome::Unsatisfiable,
        Err(Error::UndefinedModel) => Outcome::UndefinedModel,
        Err(Error::InvalidLine(line)) => Outcome::InvalidLine(line@),
        Err(Error::InvalidLiteral(literal)) => Outcome::InvalidLiteral(literal@),
        Err(Error::InvalidModel) => Outcome::InvalidModel,
    }
}

/// The kinds of line in the text of an answer.
#[derive(Clone, Copy, Debug, PartialEq, Eq, Structural)]
pub enum LineKind {
    /// Nothing but white space.
    Blank,
    /// A comment: it starts with `c` and a space.
    Comment,
    /// `SAT` or `s SATISFIABLE`.
    StatusSat,
    /// `UNSAT` or `s UNSATISFIABLE`.
    StatusUnsat,
    /// A model: the line starts with a digit or a minus sign.
    Model,
    /// A model after `v` and a space.
    PrefixedModel,
    /// Anything else.
    Unrecognized,
}

/// The kind of a line whose outer white space has been taken off.
pub open spec fn classify(line: Seq<char>) -> LineKind {
    if line.len() == 0 {
        LineKind::Blank
    } else if line == "SAT"@ || line == "s SATISFIABLE"@ {
        LineKind::StatusSat
    } else if starts_with(line, "c "@) {
        LineKind::Comment
    } else if line == "UNSAT"@ || line == "s UNSATISFIABLE"@ {
        LineKind::StatusUnsat
    } else if line[0] == '-' || spec_is_digit(line[0]) {
        LineKind::Model
    } else if starts_with(line, "v "@) {
        LineKind::PrefixedModel
    } else {
        LineKind::Unrecognized
    }
}

/// The number of characters from `from` to the end of its line.
pub open spec fn line_len(s: Seq<char>, from: int) -> nat
    decreases s.len() - from,
{
    if from < 0 || from >= s.len() || s[from] == '\n' {
        0
    } else {
        1 + line_len(s, from + 1)
    }
}

/// The number of characters from `from` to the end of its token.
pub open spec fn token_len(s: Seq<char>, from: int) -> nat
    decreases s.len() - from,
{
    if from < 0 || from >= s.len() || spec_is_ascii_space(s[from]) {
        0
    } else {
        1 + token_len(s, from + 1)
    }
}

/// The first position from `from` on, and before `to`, that holds no white
/// space; `to` if there is none.
pub open spec fn lead(s: Seq<char>, from: int, to: int) -> int
    decreases to - from,
{
    if from < to && spec_is_white_space(s[from]) {
        lead(s, from + 1, to)
    } else {
        from
    }
}

/// The position after the last one before `to`, and not before `from`,
/// that holds no white space; `from` if there is none.
pub open spec fn trail(s: Seq<char>, from: int, to: int) -> int
    decreases to - from,
{
    if from < to && spec_is_white_space(s[to - 1]) {
        trail(s, from, to - 1)
    } else {
        to
    }
}

/// The cell that a token of a model stands for, when the token names the
/// variable `expected`: the number itself for a true cell, the number after
/// a minus sign for a false one.
pub open spec fn token_cell(token: Seq<char>, expected: nat) -> Option<Cell> {
    if token.len() > 0 && token[0] == '-' {
        if token.skip(1) == decimal(expected) {
            Some(Cell::Filled(false))
        } else {
            None
        }
    } else if token == decimal(expected) {
        Some(Cell::Filled(true))
    } else {
        None
    }
}

/// `cells` put before the cells of a result.
pub open spec fn prepend(cells: Seq<Cell>, rest: Result<Seq<Cell>, Seq<char>>) -> Result<
    Seq<Cell>,
    Seq<char>,
> {
    match rest {
        Ok(more) => Ok(cells + more),
        Err(token) => Err(token),
    }
}

/// The cells of the tokens of `s` from `from` on, where `count` tokens came
/// before: the tokens are parted by ASCII white space, and the token at
/// place `i`, counted from one, must name the variable `i`. The first token
/// that does not is the error.
pub open spec fn parse_tokens(s: Seq<char>, from: int, count: nat) -> Result<Seq<Cell>, Seq<char>>
    decreases s.len() - from,
    via parse_tokens_decreases
{
    if from < 0 || from >= s.len() {
        Ok(Seq::empty())
    } else if spec_is_ascii_space(s[from]) {
        parse_tokens(s, from + 1, count)
    } else {
        let end = from + 1 + token_len(s, from + 1);
        let token = s.subrange(from, end);
        match token_cell(token, count + 1) {
            Some(cell) => prepend(seq![cell], parse_tokens(s, end, count + 1)),
            None => Err(token),
        }
    }
}

#[via_fn]
proof fn parse_tokens_decreases(s: Seq<char>, from: int, count: nat) {
    if 0 <= from < s.len() {
        lemma_token_len_bound(s, from + 1);
    }
}

/// A token ends within the text.
pub proof fn lemma_token_len_bound(s: Seq<char>, from: int)
    requires
        0 <= from <= s.len(),
    ensures
        from + token_len(s, from) <= s.len(),
    decreases s.len() - from,
{
    if from < s.len() && !spec_is_ascii_space(s[from]) {
        lemma_token_len_bound(s, from + 1);
    }
}

/// A line ends within the text.
pub proof fn lemma_line_len_bound(s: Seq<char>, from: int)
    requires
        0 <= from <= s.len(),
    ensures
        from + line_len(s, from) <= s.len(),
    decreases s.len() - from,
{
    if from < s.len() && s[from] != '\n' {
        lemma_line_len_bound(s, from + 1);
    }
}

/// The grid of a model line: the line must end with a space and a zero;
/// what stands before is the list of the literals.
pub open spec fn spec_create_grid(model: Seq<char>) -> Outcome {
    if model.len() >= 2 && model[model.len() - 2] == ' ' && model[model.len() - 1] == '0' {
        match parse_tokens(model.take(model.len() - 2), 0, 0) {
            Ok(cells) => if is_square(cells.len()) {
                Outcome::Cells(cells)
            } else {
                Outcome::InvalidModel
            },
            Err(token) => Outcome::InvalidLiteral(token),
        }
    } else {
        Outcome::InvalidLine(model)
    }
}

/// What the lines of `s` from position `from` on give. Each line is taken
/// without its outer white space. Blank lines, comments and the status of a
/// satisfiable formula are passed over; the status of an unsatisfiable one
/// ends the reading, and so does the first line of any other kind: a model
/// gives its grid, any other line is an error.
pub open spec fn read_from(s: Seq<char>, from: int) -> Outcome
    decreases s.len() - from + 1,
    via read_from_decreases
{
    if from < 0 || from >= s.len() {
        Outcome::UndefinedModel
    } else {
        let end = from + line_len(s, from);
        let a = lead(s, from, end);
        let b = trail(s, a, end);
        let line = s.subrange(a, b);
        match classify(line) {
            LineKind::Blank | LineKind::Comment | LineKind::StatusSat => read_from(s, end + 1),
            LineKind::StatusUnsat => Outcome::Unsatisfiable,
            LineKind::Model => spec_create_grid(line),
            LineKind::PrefixedModel => spec_create_grid(line.skip(2)),
            LineKind::Unrecognized => Outcome::InvalidLine(line),
        }
    }
}

#[via_fn]
proof fn read_from_decreases(s: Seq<char>, from: int) {
    if 0 <= from < s.len() {
        lemma_line_len_bound(s, from);
    }
}

/// What the text of an answer gives.
pub open spec fn spec_read_sat_file(s: Seq<char>) -> Outcome {
    read_from(s, 0)
}

/// The kind of the line that the characters from `a` to `b` form.
pub fn classify_line(chars: &Vec<char>, a: usize, b: usize) -> (kind: LineKind)
    requires
        a <= b <= chars.len(),
    ensures
        kind == classify(chars@.subrange(a as int, b as int)),
{
    if a == b {
        LineKind::Blank
    } else if range_is(chars, a, b, "SAT") || range_is(chars, a, b, "s SATISFIABLE") {
        LineKind::StatusSat
    } else if range_starts_with(chars, a, b, "c ") {
        LineKind::Comment
    } else if range_is(chars, a, b, "UNSAT") || range_is(chars, a, b, "s UNSATISFIABLE") {
        LineKind::StatusUnsat
    } else if chars[a] == '-' || is_digit(chars[a]) {
        LineKind::Model
    } else if range_starts_with(chars, a, b, "v ") {
        LineKind::PrefixedModel
    } else {
        LineKind::Unrecognized
    }
}

/// The characters of `text` from `a` to `b`, as a text of its own.
fn text_of(text: &str, a: usize, b: usize) -> (s: String)
    requires
        a <= b <= text@.len(),
    ensures
        s@ == text@.subrange(a as int, b as int),
{
    String::from_str(text.substring_char(a, b))
}

/// Whether the characters from `a` to `b` are the decimal writing of
/// `expected`.
fn range_is_number(chars: &Vec<char>, a: usize, b: usize, expected: usize) -> (r: bool)
    requires
        a <= b <= chars.len(),
    ensures
        r == (chars@.subrange(a as int, b as int) == decimal(expected as nat)),
{
    let digits = decimal_chars(expected);
    let ghost token = chars@.subrange(a as int, b as int);
    assert(token.len() == b - a);
    if b - a != digits.len() {
        return false;
    }
    let mut i: usize = 0;
    while i < digits.len()
        invariant
            i <= digits.len(),
            a + digits.len() == b,
            b <= chars.len(),
            token == chars@.subrange(a as int, b as int),
            digits@ == decimal(expected as nat),
            forall|k: int| 0 <= k < i ==> token[k] == digits[k],
        decreases digits.len() - i,
    {
        if chars[a + i] != digits[i] {
            assert(token[i as int] != digits@[i as int]);
            return false;
        }
        i += 1;
    }
    assert(token =~= digits@);
    true
}

/// The cell of the token that the characters from `a` to `b` form.
fn cell_of_token(chars: &Vec<char>, a: usize, b: usize, expected: usize) -> (r: Option<Cell>)
    requires
        a < b <= chars.len(),
    ensures
        r == token_cell(chars@.subrange(a as int, b as int), expected as nat),
{
    let ghost token = chars@.subrange(a as int, b as int);
    if chars[a] == '-' {
        assert(token.skip(1) =~= chars@.subrange(a + 1, b as int));
        if range_is_number(chars, a + 1, b, expected) {
            Some(Cell::Filled(false))
        } else {
            None
        }
    } else if range_is_number(chars, a, b, expected) {
        Some(Cell::Filled(true))
    } else {
        None
    }
}

/// The grid of the model line that the characters of `text` from `a` to `b`
/// form.
fn grid_of_range(text: &str, chars: &Vec<char>, a: usize, b: usize) -> (r: Result<Grid, Error>)
    requires
        chars@ == text@,
        a <= b <= chars.len(),
    ensures
        outcome(r) == spec_create_grid(chars@.subrange(a as int, b as int)),
        r matches Ok(grid) ==> grid.wf(),
{
    let ghost model = chars@.subrange(a as int, b as int);
    if b - a < 2 || chars[b - 2] != ' ' || chars[b - 1] != '0' {
        return Err(Error::InvalidLine(text_of(text, a, b)));
    }
    let stop: usize = b - 2;
    let ghost body = model.take(model.len() - 2);
    assert(body =~= chars@.subrange(a as int, stop as int));
    let mut cells: Vec<Cell> = Vec::new();
    let mut from: usize = a;
    assert(prepend(cells@, parse_tokens(body, 0, 0)) == parse_tokens(body, 0, 0)) by {
        match parse_tokens(body, 0, 0) {
            Ok(more) => {
                assert(cells@ + more =~= more);
            },
            Err(_) => {},
        }
    }
    while from < stop
        invariant
            a <= from <= stop,
            stop == b - 2,
            b <= chars.len(),
            chars@ == text@,
            model == chars@.subrange(a as int, b as int),
            chars[b - 2] == ' ',
            chars[b - 1] == '0',
            body == model.take(model.len() - 2),
            body == chars@.subrange(a as int, stop as int),
            cells.len() <= from - a,
            parse_tokens(body, 0, 0) == prepend(
                cells@,
                parse_tokens(body, from - a, cells.len() as nat),
            ),
        decreases stop - from,
    {
        if is_ascii_space(chars[from]) {
            from += 1;
        } else {
            let mut end: usize = from + 1;
            while end < stop && !is_ascii_space(chars[end])
                invariant
                    from < end <= stop,
                    stop <= chars.len(),
                    a <= from,
                    body == chars@.subrange(a as int, stop as int),
                    token_len(body, from + 1 - a) == (end - from - 1) + token_len(body, end - a),
                decreases stop - end,
            {
                end += 1;
            }
            let ghost token = body.subrange(from - a, end - a);
            assert(token =~= chars@.subrange(from as int, end as int));
            assert(token_len(body, end - a) == 0);
            assert(from - a + 1 + token_len(body, from - a + 1) == end - a);
            assert(body[from - a] == chars[from as int]);
            match cell_of_token(chars, from, end, cells.len() + 1) {
                Some(cell) => {
                    proof {
                        let rest = parse_tokens(body, end - a, (cells.len() + 1) as nat);
                        match rest {
                            Ok(more) => {
                                assert(cells@ + (seq![cell] + more) =~= cells@.push(cell) + more);
                            },
                            Err(_) => {},
                        }
                    }
                    cells.push(cell);
                    from = end;
                },
                None => {
                    assert(parse_tokens(body, from - a, cells.len() as nat) == Err::<
                        Seq<Cell>,
                        Seq<char>,
                    >(token));
                    return Err(Error::InvalidLiteral(text_of(text, from, end)));
                },
            }
        }
    }
    proof {
        assert(parse_tokens(body, 0, 0) == Ok::<Seq<Cell>, Seq<char>>(cells@)) by {
            assert(cells@ + Seq::<Cell>::empty() =~= cells@);
        }
    }
    proof {
        lemma_try_from_wf(cells);
    }
    match Grid::try_from(cells) {
        Ok(grid) => Ok(grid),
        Err(_) => Err(Error::InvalidModel),
    }
}

/// The grid that a model line stands for. The line ends with a space and a
/// zero; before them stand the literals, parted by white space, the literal
/// at place `i` being `i` for a true cell and `-i` for a false one.
pub fn create_grid(model: &str) -> (r: Result<Grid, Error>)
    ensures
        outcome(r) == spec_create_grid(model@),
        r matches Ok(grid) ==> grid.wf(),
{
    let chars = to_chars(model);
    assert(chars@.subrange(0, chars.len() as int) =~= model@);
    grid_of_range(model, &chars, 0, chars.len())
}

/// Reads the text that a solver printed and gives the grid of its model.
pub fn read_sat_file(content: &str) -> (r: Result<Grid, Error>)
    ensures
        outcome(r) == spec_read_sat_file(content@),
        r matches Ok(grid) ==> grid.wf(),
{
    let chars = to_chars(content);
    let ghost s = chars@;
    let mut from: usize = 0;
    while from < chars.len()
        invariant
            from <= chars.len(),
            chars@ == content@,
            s == chars@,
            read_from(s, 0) == read_from(s, from as int),
        decreases chars.len() - from,
    {
        let mut end: usize = from;
        while end < chars.len() && chars[end] != '\n'
            invariant
                from <= end <= chars.len(),
                s == chars@,
                line_len(s, from as int) == (end - from) + line_len(s, end as int),
            decreases chars.len() - end,
        {
            end += 1;
        }
        let mut a: usize = from;
        while a < end && is_white_space(chars[a])
            invariant
                from <= a <= end <= chars.len(),
                s == chars@,
                lead(s, from as int, end as int) == lead(s, a as int, end as int),
            decreases end - a,
        {
            a += 1;
        }
        let mut b: usize = end;
        while a < b && is_white_space(chars[b - 1])
            invariant
                a <= b <= end <= chars.len(),
                s == chars@,
                trail(s, a as int, end as int) == trail(s, a as int, b as int),
            decreases b - a,
        {
            b -= 1;
        }
        match classify_line(&chars, a, b) {
            LineKind::Blank | LineKind::Comment | LineKind::StatusSat => {},
            LineKind::StatusUnsat => {
                return Err(Error::Unsatisfiable);
            },
            LineKind::Model => {
                return grid_of_range(content, &chars, a, b);
            },
            LineKind::PrefixedModel => {
                proof {
                    reveal_strlit("v ");
                    assert(s.subrange(a as int, b as int).skip(2) =~= s.subrange(a + 2, b as int));
                }
                return grid_of_range(content, &chars, a + 2, b);
            },
            LineKind::Unrecognized => {
                return Err(Error::InvalidLine(text_of(content, a, b)));
            },
        }
        if end == chars.len() {
            from = end;
            assert(read_from(s, end + 1) == Outcome::UndefinedModel);
        } else {
            from = end + 1;
        }
    }
    Err(Error::UndefinedModel)
}

/// The grid of a model as the solver holds it: one literal for each cell,
/// row by row, the cell being true for a positive literal. The number of
/// literals must be a square.
pub fn model_to_grid(model: &Vec<Literal>) -> (r: Result<Grid, Error>)
    ensures
        outcome(r) == if is_square(model.len() as nat) {
            Outcome::Cells(model_cells(model@))
        } else {
            Outcome::InvalidModel
        },
        r matches Ok(grid) ==> grid.wf(),
{
    let mut cells: Vec<Cell> = Vec::new();
    let mut i: usize = 0;
    while i < model.len()
        invariant
            i <= model.len(),
            cells.len() == i,
            forall|k: int| 0 <= k < i ==> cells[k] == Cell::Filled(!model[k].negated),
        decreases model.len() - i,
    {
        cells.push(Cell::Filled(!model[i].negated));
        i += 1;
    }
    assert(cells@ =~= model_cells(model@));
    proof {
        lemma_try_from_wf(cells);
    }
    match Grid::try_from(cells) {
        Ok(grid) => Ok(grid),
        Err(_) => Err(Error::InvalidModel),
    }
}

/// The cells that a model gives when its literals are read in order.
pub open spec fn model_cells(model: Seq<Literal>) -> Seq<Cell> {
    Seq::new(model.len(), |i: int| Cell::Filled(!model[i].negated))
}

/// When the literals of a model come in the order of their cells, as a
/// solver hands them out, the grid read from the model has every literal at
/// the cell that the literal names.
pub proof fn lemma_model_in_order(model: Seq<Literal>, grid: Grid)
    requires
        grid.wf(),
        grid.inner@ == model_cells(model),
        forall|i: int|
            0 <= i < model.len() ==> (#[trigger] model[i]).in_grid(grid.size as int)
                && model[i].spec_variable(grid.size as int) == i + 1,
    ensures
        forall|i: int| 0 <= i < model.len() ==> grid.fixes(#[trigger] model[i]),
{
    assert forall|i: int| 0 <= i < model.len() implies grid.fixes(#[trigger] model[i]) by {
        let l = model[i];
        assert(grid.spec_index(l.x as int, l.y as int) == i);
        assert(grid.inner[i] == Cell::Filled(!l.negated));
    }
}

} // verus!
