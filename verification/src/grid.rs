//! The puzzle state: a square matrix of tri-state cells.

use vstd::prelude::*;
use vstd::string::StringExecFns;

verus! {

/// One cell of a grid: filled with a boolean value, or still unknown.
#[derive(Clone, Copy, Debug, PartialEq, Eq, Structural)]
pub enum Cell {
    Filled(bool),
    Empty,
}

impl Cell {
    /// The character that shows this cell in a grid text.
    pub open spec fn spec_to_char(self) -> char {
        match self {
            Cell::Filled(false) => '0',
            Cell::Filled(true) => '1',
            Cell::Empty => '.',
        }
    }

    /// `0` or `1` for a filled cell, `.` for an empty one.
    pub fn to_char(self) -> (c: char)
        ensures
            c == self.spec_to_char(),
    {
        match self {
            Cell::Filled(false) => '0',
            Cell::Filled(true) => '1',
            Cell::Empty => '.',
        }
    }
}

/// A square grid, stored row by row.
#[derive(Clone, Debug)]
pub struct Grid {
    pub size: usize,
    pub inner: Vec<Cell>,
}

/// Whether `n` is the square of a natural number.
pub open spec fn is_square(n: nat) -> bool {
    exists|s: nat| #[trigger] (s * s) == n
}

/// The strict integer square root: `Some(s)` with `s * s == n` when `n` is a
/// perfect square, `None` otherwise.
pub fn int_sqrt(n: usize) -> (r: Option<usize>)
    ensures
        match r {
            Some(s) => s * s == n,
            None => !is_square(n as nat),
        },
{
    let mut s: usize = 0;
    while s < n && s + 1 <= n / (s + 1)
        invariant
            s * s <= n,
        decreases n - s,
    {
        proof {
            lemma_quotient_bounds(n as int, s + 1);
        }
        s = s + 1;
    }
    if s * s == n {
        Some(s)
    } else {
        proof {
            // s * s < n < (s + 1) * (s + 1): no natural number squares to n
            if s < n {
                lemma_quotient_bounds(n as int, s + 1);
            } else {
                assert(s * s >= s) by (nonlinear_arith)
                    requires
                        s >= 0,
                ;
                assert(false) by (nonlinear_arith)
                    requires
                        s >= n,
                        s * s < n,
                        s >= 0,
                ;
            }
            assert((s + 1) * (s + 1) > n);
            assert forall|t: nat| #[trigger] (t * t) != n by {
                if t <= s {
                    assert(t * t <= s * s) by (nonlinear_arith)
                        requires
                            t <= s,
                    ;
                } else {
                    assert(t * t >= (s + 1) * (s + 1)) by (nonlinear_arith)
                        requires
                            t >= s + 1,
                            s >= 0,
                    ;
                }
            }
        }
        None
    }
}

/// For a positive divisor, `d <= n / d` says that `d * d <= n`.
pub proof fn lemma_quotient_bounds(n: int, d: int)
    requires
        n >= 0,
        d > 0,
    ensures
        d <= n / d <==> d * d <= n,
{
    vstd::arithmetic::div_mod::lemma_fundamental_div_mod(n, d);
    vstd::arithmetic::div_mod::lemma_mod_bound(n, d);
    let q = n / d;
    if d <= q {
        assert(d * d <= d * q) by (nonlinear_arith)
            requires
                d <= q,
                d > 0,
        ;
    } else {
        assert(d * (q + 1) <= d * d) by (nonlinear_arith)
            requires
                q + 1 <= d,
                d > 0,
        ;
        assert(d * (q + 1) == d * q + d) by (nonlinear_arith);
    }
}

impl Grid {
    /// The grid holds exactly `size * size` cells.
    pub open spec fn wf(&self) -> bool {
        self.inner.len() == self.size * self.size
    }

    /// The position of cell `(x, y)` in the row-major cell list.
    pub open spec fn spec_index(&self, x: int, y: int) -> int {
        y * self.size + x
    }

    /// The cell at column `x` of row `y`.
    pub open spec fn spec_get(&self, x: int, y: int) -> Cell {
        self.inner[self.spec_index(x, y)]
    }

    /// An empty grid of the given side.
    pub fn new(size: usize) -> (g: Grid)
        requires
            size != 0,
            size % 2 == 0,
            size * size <= usize::MAX,
        ensures
            g.wf(),
            g.size == size,
            forall|i: int| 0 <= i < size * size ==> g.inner[i] == Cell::Empty,
    {
        let inner = vec![Cell::Empty; size * size];
        Grid { size, inner }
    }

    /// The cell at column `x` of row `y`.
    pub fn get(&self, x: usize, y: usize) -> (c: Cell)
        requires
            self.wf(),
            x < self.size,
            y < self.size,
        ensures
            c == self.spec_get(x as int, y as int),
    {
        proof {
            lemma_index_in_range(x as int, y as int, self.size as int);
        }
        let i: usize = y * self.size + x;
        self.inner[i]
    }

    /// Fills the cell at column `x` of row `y` with `value`.
    pub fn set(&mut self, x: usize, y: usize, value: bool)
        requires
            old(self).wf(),
            x < old(self).size,
            y < old(self).size,
        ensures
            final(self).wf(),
            final(self).size == old(self).size,
            final(self).inner@ == old(self).inner@.update(
                old(self).spec_index(x as int, y as int),
                Cell::Filled(value),
            ),
    {
        proof {
            lemma_index_in_range(x as int, y as int, self.size as int);
        }
        let i: usize = y * self.size + x;
        self.inner[i] = Cell::Filled(value);
    }
}

/// Builds a grid from a flat, row-major cell list; the list is accepted when
/// its length is a perfect square, whose root becomes the side of the grid.
impl TryFrom<Vec<Cell>> for Grid {
    type Error = ();

    fn try_from(value: Vec<Cell>) -> (r: Result<Grid, ()>)
    {
        match int_sqrt(value.len()) {
            Some(size) => {
                proof {
                    lemma_sqrt_unique(size as nat, value.len() as nat);
                }
                Ok(Grid { size, inner: value })
            },
            None => Err(()),
        }
    }
}

impl vstd::std_specs::convert::TryFromSpecImpl<Vec<Cell>> for Grid {
    open spec fn obeys_try_from_spec() -> bool {
        true
    }

    open spec fn try_from_spec(value: Vec<Cell>) -> Result<Grid, ()> {
        if is_square(value.len() as nat) {
            Ok(Grid { size: spec_sqrt(value.len() as nat) as usize, inner: value })
        } else {
            Err(())
        }
    }
}

/// The root of a perfect square.
pub open spec fn spec_sqrt(n: nat) -> nat
    recommends
        is_square(n),
{
    choose|s: nat| #[trigger] (s * s) == n
}

/// The root of a perfect square squares to it, and is not above it.
pub proof fn lemma_sqrt_square(n: nat)
    requires
        is_square(n),
    ensures
        spec_sqrt(n) * spec_sqrt(n) == n,
        spec_sqrt(n) <= n,
{
    let s = spec_sqrt(n);
    assert(s * s == n);
    if s > n {
        assert(s * s > n) by (nonlinear_arith)
            requires
                s > n,
                n >= 0,
        ;
    }
}

/// A grid made from a list of cells holds exactly these cells.
pub proof fn lemma_try_from_wf(cells: Vec<Cell>)
    ensures
        match <Grid as vstd::std_specs::convert::TryFromSpec<Vec<Cell>>>::try_from_spec(cells) {
            Ok(grid) => grid.wf() && grid.inner == cells && is_square(cells.len() as nat),
            Err(_) => !is_square(cells.len() as nat),
        },
{
    if is_square(cells.len() as nat) {
        lemma_sqrt_square(cells.len() as nat);
    }
}

/// A natural number has at most one natural square root.
pub proof fn lemma_sqrt_unique(s: nat, n: nat)
    requires
        s * s == n,
    ensures
        is_square(n),
        spec_sqrt(n) == s,
{
    let t = spec_sqrt(n);
    assert(t * t == n);
    if t < s {
        assert(t * t < s * s) by (nonlinear_arith)
            requires
                t < s,
        ;
    } else if t > s {
        assert(t * t > s * s) by (nonlinear_arith)
            requires
                t > s,
        ;
    }
}

/// Row-major positions of in-range coordinates stay below `size * size`.
pub proof fn lemma_index_in_range(x: int, y: int, size: int)
    requires
        0 <= x < size,
        0 <= y < size,
    ensures
        0 <= y * size + x < size * size,
        0 <= y * size <= y * size + x,
{
    assert(y * size + size <= size * size) by (nonlinear_arith)
        requires
            0 <= y < size,
    ;
    assert(0 <= y * size) by (nonlinear_arith)
        requires
            0 <= y,
            0 <= size,
    ;
}

impl Cell {
    /// The character of the cell as a text.
    fn to_text(self) -> (s: &'static str)
        ensures
            s@ == seq![self.spec_to_char()],
    {
        proof {
            reveal_strlit("0");
            reveal_strlit("1");
            reveal_strlit(".");
        }
        let s = match self {
            Cell::Filled(false) => "0",
            Cell::Filled(true) => "1",
            Cell::Empty => ".",
        };
        assert(s@ =~= seq![self.spec_to_char()]);
        s
    }
}

impl Grid {
    /// The characters of the first `upto` cells of row `y`.
    pub open spec fn row_text(&self, y: int, upto: int) -> Seq<char>
        decreases upto,
    {
        if upto <= 0 {
            Seq::empty()
        } else {
            self.row_text(y, upto - 1).push(self.spec_get(upto - 1, y).spec_to_char())
        }
    }

    /// The first `rows` rows as a text, each row on a line of its own.
    pub open spec fn rows_text(&self, rows: int) -> Seq<char>
        decreases rows,
    {
        if rows <= 0 {
            Seq::empty()
        } else {
            self.rows_text(rows - 1) + self.row_text(rows - 1, self.size as int) + seq!['\n']
        }
    }

    /// The grid as a text: one line for each row, with `0` and `1` for the
    /// filled cells and `.` for the empty ones.
    pub open spec fn spec_to_text(&self) -> Seq<char> {
        self.rows_text(self.size as int)
    }

    /// The grid as a text.
    pub fn to_text(&self) -> (text: String)
        requires
            self.wf(),
        ensures
            text@ == self.spec_to_text(),
    {
        let mut text = String::new();
        let mut y: usize = 0;
        while y < self.size
            invariant
                y <= self.size,
                self.wf(),
                text@ == self.rows_text(y as int),
            decreases self.size - y,
        {
            let ghost before = text@;
            let mut x: usize = 0;
            assert(text@ =~= before + self.row_text(y as int, 0));
            while x < self.size
                invariant
                    x <= self.size,
                    y < self.size,
                    self.wf(),
                    text@ == before + self.row_text(y as int, x as int),
                decreases self.size - x,
            {
                text.append(self.get(x, y).to_text());
                assert(text@ =~= before + self.row_text(y as int, x + 1));
                x += 1;
            }
            text.append("\n");
            proof {
                reveal_strlit("\n");
            }
            assert("\n"@ =~= seq!['\n']);
            assert(text@ =~= self.rows_text(y + 1));
            y += 1;
        }
        text
    }
}

} // verus!
