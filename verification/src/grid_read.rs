//! Reading a puzzle from its text: the side of the grid on the first line,
//! then the cells, row by row.

use crate::grid::{lemma_index_in_range, lemma_try_from_wf, is_square, Cell, Grid};
use crate::sat::line_len;
use crate::text::{is_digit, range_starts_with, spec_is_digit, starts_with, to_chars};
use vstd::prelude::*;
use vstd::string::{StrSliceExecFns, StringExecFns};

verus! {

/// The first line of a text, without its line ending: a line feed, or a
/// carriage return and a line feed.
pub open spec fn first_line(s: Seq<char>) -> Seq<char> {
    let n = line_len(s, 0) as int;
    if n < s.len() && n > 0 && s[n - 1] == '\r' {
        s.take(n - 1)
    } else {
        s.take(n)
    }
}

/// The number that a sequence of digits writes.
pub open spec fn digits_value(digits: Seq<char>) -> nat
    decreases digits.len(),
{
    if digits.len() == 0 {
        0
    } else {
        digits_value(digits.drop_last()) * 10 + ((digits.last() as u32) - ('0' as u32)) as nat
    }
}

/// Every character is a digit.
pub open spec fn all_digits(digits: Seq<char>) -> bool {
    forall|i: int| 0 <= i < digits.len() ==> spec_is_digit(#[trigger] digits[i])
}

/// The positive number that a line writes: digits, after a plus sign or
/// without one, and nothing else. There is none when the line is empty,
/// holds anything but digits, or writes zero or a number too large for the
/// machine.
pub open spec fn parse_size(line: Seq<char>) -> Option<usize> {
    let digits = if line.len() > 0 && line[0] == '+' {
        line.skip(1)
    } else {
        line
    };
    if digits.len() > 0 && all_digits(digits) && 0 < digits_value(digits) <= usize::MAX {
        Some(digits_value(digits) as usize)
    } else {
        None
    }
}

/// The side of the grid that a text announces on its first line.
pub open spec fn spec_size(s: Seq<char>) -> Option<usize> {
    if s.len() == 0 {
        None
    } else {
        parse_size(first_line(s))
    }
}

/// More digits do not write a smaller number.
pub proof fn lemma_digits_value_grows(digits: Seq<char>, i: int)
    requires
        0 <= i <= digits.len(),
        all_digits(digits),
    ensures
        digits_value(digits.take(i)) <= digits_value(digits),
    decreases digits.len() - i,
{
    if i < digits.len() {
        lemma_digits_value_grows(digits, i + 1);
        let longer = digits.take(i + 1);
        assert(longer.drop_last() =~= digits.take(i));
        assert(spec_is_digit(digits[i]));
        assert(longer.last() == digits[i]);
    } else {
        assert(digits.take(i) =~= digits);
    }
}

/// The side of the grid, read from the first line of the text of a puzzle;
/// `None` when that line is not a positive number.
pub fn size(content: &str) -> (r: Option<usize>)
    ensures
        r == spec_size(content@),
        r matches Some(n) ==> n != 0,
{
    let chars = to_chars(content);
    let ghost s = chars@;
    if chars.len() == 0 {
        return None;
    }
    let mut end: usize = 0;
    while end < chars.len() && chars[end] != '\n'
        invariant
            end <= chars.len(),
            s == chars@,
            line_len(s, 0) == end + line_len(s, end as int),
        decreases chars.len() - end,
    {
        end += 1;
    }
    let stop: usize = if end < chars.len() && end > 0 && chars[end - 1] == '\r' {
        end - 1
    } else {
        end
    };
    let ghost line = first_line(s);
    assert(line =~= s.take(stop as int));
    let start: usize = if stop > 0 && chars[0] == '+' {
        1
    } else {
        0
    };
    let ghost digits = if line.len() > 0 && line[0] == '+' {
        line.skip(1)
    } else {
        line
    };
    assert(digits =~= s.subrange(start as int, stop as int));
    let ghost answer = spec_size(s);
    assert(answer == if digits.len() > 0 && all_digits(digits) && 0 < digits_value(digits)
        <= usize::MAX {
        Some(digits_value(digits) as usize)
    } else {
        None
    });
    if start == stop {
        return None;
    }
    let mut value: usize = 0;
    let mut i: usize = start;
    assert(digits.take(0) =~= Seq::<char>::empty());
    while i < stop
        invariant
            start <= i <= stop <= chars.len(),
            s == chars@,
            digits == s.subrange(start as int, stop as int),
            s == content@,
            answer == spec_size(s),
            answer == if digits.len() > 0 && all_digits(digits) && 0 < digits_value(digits)
                <= usize::MAX {
                Some(digits_value(digits) as usize)
            } else {
                None
            },
            forall|k: int| 0 <= k < i - start ==> spec_is_digit(#[trigger] digits[k]),
            value == digits_value(digits.take(i - start)),
        decreases stop - i,
    {
        let c = chars[i];
        if !is_digit(c) {
            assert(!spec_is_digit(digits[i - start]));
            return None;
        }
        let d: usize = ((c as u32) - ('0' as u32)) as usize;
        proof {
            let longer = digits.take(i - start + 1);
            assert(longer.drop_last() =~= digits.take(i - start));
            assert(longer.last() == c);
        }
        if value > (usize::MAX - d) / 10 {
            proof {
                if all_digits(digits) {
                    lemma_digits_value_grows(digits, i - start + 1);
                }
            }
            return None;
        }
        value = value * 10 + d;
        i += 1;
    }
    assert(digits.take(stop - start) =~= digits);
    if value == 0 {
        None
    } else {
        Some(value)
    }
}

/// Whether the character stands in a cell: line endings do not.
pub open spec fn in_cell(c: char) -> bool {
    c != '\r' && c != '\n'
}

/// The characters of the cells of a puzzle text, in their order: what
/// follows the first line, without the line endings.
pub open spec fn payload(s: Seq<char>) -> Seq<char> {
    if line_len(s, 0) < s.len() {
        s.skip(line_len(s, 0) as int + 1).filter(|c: char| in_cell(c))
    } else {
        Seq::empty()
    }
}

/// The cell at row-major position `p` once the puzzle text is read: filled
/// if the character for it is `0` or `1`, and as it was otherwise.
pub open spec fn filled_cell(before: Cell, cells: Seq<char>, p: int) -> Cell {
    if p < cells.len() && cells[p] == '1' {
        Cell::Filled(true)
    } else if p < cells.len() && cells[p] == '0' {
        Cell::Filled(false)
    } else {
        before
    }
}

/// The cells of a grid after the characters `cells` are read into it.
pub open spec fn filled_cells(before: Seq<Cell>, cells: Seq<char>) -> Seq<Cell> {
    Seq::new(before.len(), |p: int| filled_cell(before[p], cells, p))
}

/// Fills the grid from the text of a puzzle: the first line is passed over;
/// of the characters after it, line endings left out, the one at place `p`
/// stands for the cell at row-major position `p`. `1` fills the cell with
/// true and `0` with false; any other character leaves the cell as it was,
/// and so do characters beyond the last cell.
pub fn fill_grid_from_file(grid: &mut Grid, content: &str)
    requires
        old(grid).wf(),
    ensures
        final(grid).wf(),
        final(grid).size == old(grid).size,
        final(grid).inner@ == filled_cells(old(grid).inner@, payload(content@)),
{
    let chars = to_chars(content);
    let ghost s = chars@;
    let size = grid.size;
    let mut start: usize = 0;
    while start < chars.len() && chars[start] != '\n'
        invariant
            start <= chars.len(),
            s == chars@,
            line_len(s, 0) == start + line_len(s, start as int),
        decreases chars.len() - start,
    {
        start += 1;
    }
    let ghost keep = |c: char| in_cell(c);
    let ghost rest = s.skip(line_len(s, 0) as int + 1);
    if start == chars.len() {
        proof {
            assert(grid.inner@ =~= filled_cells(grid.inner@, payload(s)));
        }
        return ;
    }
    start += 1;
    assert(rest =~= s.subrange(start as int, s.len() as int));
    let mut x: usize = 0;
    let mut y: usize = 0;
    let mut i: usize = start;
    let ghost mut seen: Seq<char> = Seq::empty();
    proof {
        assert(rest.take(0) =~= Seq::<char>::empty());
        crate::logic_utils::lemma_filter_empty(keep);
        assert(grid.inner@ =~= filled_cells(grid.inner@, seen));
        assert(y * size == 0) by (nonlinear_arith)
            requires
                y == 0,
        ;
    }
    while i < chars.len()
        invariant
            start <= i <= chars.len(),
            s == chars@,
            rest == s.subrange(start as int, s.len() as int),
            keep == (|c: char| in_cell(c)),
            seen == rest.take(i - start).filter(keep),
            seen.len() <= i - start,
            size == grid.size,
            grid.wf(),
            size == old(grid).size,
            size > 0 ==> x < size && x + y * size == seen.len(),
            size == 0 ==> y == 0 && x == seen.len(),
            grid.inner@ == filled_cells(old(grid).inner@, seen),
        decreases chars.len() - i,
    {
        let c = chars[i];
        proof {
            assert(rest.take(i - start + 1) =~= rest.take(i - start).push(c));
            rest.take(i - start).lemma_filter_push(c, keep);
        }
        if c != '\r' && c != '\n' {
            let ghost p = seen.len() as int;
            let ghost before = grid.inner@;
            if x < size && y < size {
                proof {
                    lemma_index_in_range(x as int, y as int, size as int);
                }
                if c == '1' {
                    grid.set(x, y, true);
                } else if c == '0' {
                    grid.set(x, y, false);
                }
            }
            proof {
                if size > 0 && y >= size {
                    assert(y * size >= size * size) by (nonlinear_arith)
                        requires
                            y >= size,
                            size > 0,
                    ;
                }
                let longer = seen.push(c);
                assert forall|q: int| 0 <= q < grid.inner.len() implies grid.inner[q]
                    == filled_cell(old(grid).inner[q], longer, q) by {
                    assert(before[q] == filled_cell(old(grid).inner[q], seen, q));
                    if q == p {
                        assert(size > 0) by (nonlinear_arith)
                            requires
                                size * size > 0,
                                size >= 0,
                        ;
                        if y >= size {
                            assert(y * size >= size * size) by (nonlinear_arith)
                                requires
                                    y >= size,
                                    size > 0,
                            ;
                        }
                        assert(y * size + x == p);
                    } else if x < size && y < size {
                        assert(y * size + x == p);
                    }
                }
                seen = longer;
                assert(grid.inner@ =~= filled_cells(old(grid).inner@, seen));
            }
            x += 1;
            if x == size {
                proof {
                    assert((y + 1) * size == y * size + size) by (nonlinear_arith);
                    assert(y * size >= y) by (nonlinear_arith)
                        requires
                            size >= 1,
                            y >= 0,
                    ;
                }
                y += 1;
                x = 0;
            }
        }
        i += 1;
    }
    proof {
        assert(rest.take(chars.len() - start) =~= rest);
    }
}

/// The cell that a character of a grid text stands for, if it stands for
/// one.
pub open spec fn cell_of_char(c: char) -> Option<Cell> {
    if c == '.' {
        Some(Cell::Empty)
    } else if c == '0' {
        Some(Cell::Filled(false))
    } else if c == '1' {
        Some(Cell::Filled(true))
    } else {
        None
    }
}

/// The cells that a grid text holds: one for each `.`, `0` and `1`.
pub open spec fn spec_parse_cells(s: Seq<char>) -> Seq<Cell> {
    s.filter_map(|c: char| cell_of_char(c))
}

/// The grid that a text like `01..10` writes: `.` stands for an empty cell,
/// `0` and `1` for the filled ones, and every other character is passed
/// over. The number of cells must be a square.
pub fn parse_grid(text: &str) -> (r: Result<Grid, String>)
    ensures
        match r {
            Ok(grid) => is_square(spec_parse_cells(text@).len()) && grid.wf() && grid.inner@
                == spec_parse_cells(text@),
            Err(message) => !is_square(spec_parse_cells(text@).len()) && message@
                == "invalid grid size"@,
        },
{
    let chars = to_chars(text);
    let ghost f = |c: char| cell_of_char(c);
    let mut cells: Vec<Cell> = Vec::new();
    let mut i: usize = 0;
    assert(chars@.take(0).filter_map(f) =~= Seq::<Cell>::empty()) by {
        assert(chars@.take(0) =~= Seq::<char>::empty());
    }
    while i < chars.len()
        invariant
            i <= chars.len(),
            f == (|c: char| cell_of_char(c)),
            cells@ == chars@.take(i as int).filter_map(f),
        decreases chars.len() - i,
    {
        let c = chars[i];
        proof {
            chars@.lemma_filter_map_take_succ(f, i as int);
        }
        if c == '.' {
            cells.push(Cell::Empty);
        } else if c == '0' {
            cells.push(Cell::Filled(false));
        } else if c == '1' {
            cells.push(Cell::Filled(true));
        }
        proof {
            assert(cells@ =~= chars@.take(i + 1).filter_map(f));
        }
        i += 1;
    }
    proof {
        assert(chars@.take(chars.len() as int) =~= chars@);
        lemma_try_from_wf(cells);
    }
    match Grid::try_from(cells) {
        Ok(grid) => Ok(grid),
        Err(_) => Err(String::from_str("invalid grid size")),
    }
}

/// What the line of a published grid file gives, when it begins with
/// `prefix`: the grid text that follows the prefix.
pub open spec fn after_prefix(line: Seq<char>, prefix: Seq<char>) -> Option<Seq<char>> {
    if starts_with(line, prefix) {
        Some(line.skip(prefix.len() as int))
    } else {
        None
    }
}

/// The grid texts found in the lines of `s` from position `from` on, where
/// `puzzle` and `answer` were found before: the puzzle follows `grille:"`
/// and its solution follows `solution:"`, each at the beginning of a line;
/// of several such lines the last one counts.
pub open spec fn find_grids(
    s: Seq<char>,
    from: int,
    puzzle: Option<Seq<char>>,
    answer: Option<Seq<char>>,
) -> (Option<Seq<char>>, Option<Seq<char>>)
    decreases s.len() - from + 1,
    via find_grids_decreases
{
    if from < 0 || from >= s.len() {
        (puzzle, answer)
    } else {
        let end = from + line_len(s, from);
        let line = s.subrange(from, end);
        find_grids(
            s,
            end + 1,
            match after_prefix(line, "grille:\""@) {
                Some(text) => Some(text),
                None => puzzle,
            },
            match after_prefix(line, "solution:\""@) {
                Some(text) => Some(text),
                None => answer,
            },
        )
    }
}

#[via_fn]
proof fn find_grids_decreases(
    s: Seq<char>,
    from: int,
    puzzle: Option<Seq<char>>,
    answer: Option<Seq<char>>,
) {
    if 0 <= from < s.len() {
        crate::sat::lemma_line_len_bound(s, from);
    }
}

/// What reading a grid text gives: its cells when their number is a square.
pub open spec fn parsed(text: Seq<char>) -> Option<Seq<Cell>> {
    if is_square(spec_parse_cells(text).len()) {
        Some(spec_parse_cells(text))
    } else {
        None
    }
}

/// Whether a result of `parse_grid` is the one that `text` gives.
pub open spec fn is_parsed(r: Result<Grid, String>, text: Seq<char>) -> bool {
    match r {
        Ok(grid) => grid.wf() && parsed(text) == Some(grid.inner@),
        Err(message) => parsed(text) is None && message@ == "invalid grid size"@,
    }
}

/// Whether a result, if there is one, is the one that the text found gives.
pub open spec fn is_found(r: Option<Result<Grid, String>>, text: Option<Seq<char>>) -> bool {
    match (r, text) {
        (Some(result), Some(text)) => is_parsed(result, text),
        (None, None) => true,
        _ => false,
    }
}

/// The puzzle and its solution in the text of a published grid file. Each
/// is looked for at the beginning of a line, the puzzle after `grille:"`
/// and the solution after `solution:"`, and read as `parse_grid` reads it.
pub fn published_grids(content: &str) -> (r: (
    Option<Result<Grid, String>>,
    Option<Result<Grid, String>>,
))
    ensures
        is_found(r.0, find_grids(content@, 0, None, None).0),
        is_found(r.1, find_grids(content@, 0, None, None).1),
{
    let chars = to_chars(content);
    let ghost s = chars@;
    let mut puzzle: Option<Result<Grid, String>> = None;
    let mut answer: Option<Result<Grid, String>> = None;
    let ghost mut puzzle_text: Option<Seq<char>> = None;
    let ghost mut answer_text: Option<Seq<char>> = None;
    let mut from: usize = 0;
    while from < chars.len()
        invariant
            from <= chars.len(),
            chars@ == content@,
            s == chars@,
            is_found(puzzle, puzzle_text),
            is_found(answer, answer_text),
            find_grids(s, 0, None, None) == find_grids(s, from as int, puzzle_text, answer_text),
        decreases chars.len() - from,
    {
        let mut end: usize = from;
        while end < chars.len() && chars[end] != '\n'
            invariant
                from <= end <= chars.len(),
                s == chars@,
                line_len(s, from as int) == (end - from) + line_len(s, end as int),
            decreases chars.len() - end,
        {
            end += 1;
        }
        let ghost line = s.subrange(from as int, end as int);
        let ghost puzzle_before = puzzle_text;
        let ghost answer_before = answer_text;
        if range_starts_with(&chars, from, end, "grille:\"") {
            let skip = "grille:\"".unicode_len();
            let text = content.substring_char(from + skip, end);
            assert(text@ =~= line.skip(skip as int));
            puzzle = Some(parse_grid(text));
            proof {
                puzzle_text = Some(text@);
            }
        }
        if range_starts_with(&chars, from, end, "solution:\"") {
            let skip = "solution:\"".unicode_len();
            let text = content.substring_char(from + skip, end);
            assert(text@ =~= line.skip(skip as int));
            answer = Some(parse_grid(text));
            proof {
                answer_text = Some(text@);
            }
        }
        proof {
            assert(end == from + line_len(s, from as int));
            assert(find_grids(s, from as int, puzzle_before, answer_before) == find_grids(
                s,
                end + 1,
                puzzle_text,
                answer_text,
            ));
            if end == chars.len() {
                assert(find_grids(s, end + 1, puzzle_text, answer_text) == find_grids(
                    s,
                    end as int,
                    puzzle_text,
                    answer_text,
                ));
            }
        }
        if end == chars.len() {
            from = end;
        } else {
            from = end + 1;
        }
    }
    (puzzle, answer)
}

} // verus!
