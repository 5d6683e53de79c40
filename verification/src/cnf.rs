//! Literals over grid cells, their numeric (DIMACS) form, and the clause
//! accumulator that feeds the solver.

use crate::grid::{lemma_index_in_range, Cell, Grid};
use crate::logic_utils::{lemma_filter_empty, lemma_position_row};
use crate::solver::{
    lit_from_dimacs, lit_number, lit_numbers, lit_to_dimacs, solver_add_clause,
    clause_numbers, solver_add_formula, solver_clauses, solver_error_is_recoverable, solver_invoked,
    solver_model, solver_model_numbers, solver_new, solver_plain, solver_ready, solver_solve,
    MAX_VARIABLES,
};
use crate::text::{append_decimal, append_signed, decimal, signed_decimal};
use varisat::{Lit, Solver};
use vstd::string::StringExecFns;
use vstd::prelude::*;

verus! {

/// The proposition "cell `(x, y)` is true", or its negation.
#[derive(Clone, Copy, Debug, PartialEq, Eq, Hash, Structural)]
pub struct Literal {
    pub x: usize,
    pub y: usize,
    /// Whether the literal is the negated atom.
    pub negated: bool,
}

impl Literal {
    /// Whether the literal names a cell of a grid of side `grid_size`.
    pub open spec fn in_grid(self, grid_size: int) -> bool {
        self.x < grid_size && self.y < grid_size
    }

    /// The 1-based number of the literal's cell, counted row by row.
    pub open spec fn spec_variable(self, grid_size: int) -> int {
        1 + self.x + self.y * grid_size
    }

    /// The signed non-zero number that stands for the literal: the number of
    /// its cell, negative for a negated atom.
    pub open spec fn spec_numeric(self, grid_size: int) -> int {
        if self.negated {
            -self.spec_variable(grid_size)
        } else {
            self.spec_variable(grid_size)
        }
    }

    /// The literal that a signed non-zero number stands for.
    pub open spec fn spec_from_numeric(n: int, grid_size: int) -> Literal {
        let index = if n > 0 {
            n - 1
        } else {
            -n - 1
        };
        Literal {
            x: (index % grid_size) as usize,
            y: (index / grid_size) as usize,
            negated: !(n > 0),
        }
    }

    /// The literal that says that cell `(x, y)` is true, or, when `positive`
    /// is false, that it is false.
    pub fn new(x: usize, y: usize, positive: bool) -> (l: Literal)
        ensures
            l == (Literal { x, y, negated: !positive }),
    {
        Literal { x, y, negated: !positive }
    }

    /// Encodes the literal as a signed variable number. The literal names a
    /// cell of the grid, and the number of that cell is one that the machine
    /// can hold; decoding the result gives the literal back.
    pub fn into_numeric(self, grid_size: usize) -> (n: isize)
        requires
            self.in_grid(grid_size as int),
            self.spec_variable(grid_size as int) <= isize::MAX,
        ensures
            n == self.spec_numeric(grid_size as int),
            n != 0,
            (n > 0) == !self.negated,
            -(grid_size * grid_size) <= n <= grid_size * grid_size,
            Literal::spec_from_numeric(n as int, grid_size as int) == self,
    {
        proof {
            crate::grid::lemma_index_in_range(self.x as int, self.y as int, grid_size as int);
            lemma_numeric_round_trip(self, grid_size as int);
        }
        let index: usize = self.x + self.y * grid_size;
        let variable: isize = 1 + index as isize;
        if self.negated {
            -variable
        } else {
            variable
        }
    }

    /// Decodes a signed variable number.
    pub fn from_numeric(n: isize, grid_size: usize) -> (l: Literal)
        requires
            n != 0,
            grid_size != 0,
        ensures
            l == Literal::spec_from_numeric(n as int, grid_size as int),
            l.x < grid_size,
            l.spec_numeric(grid_size as int) == n,
    {
        let index: usize = if n > 0 {
            (n - 1) as usize
        } else {
            (-(n + 1)) as usize
        };
        proof {
            vstd::arithmetic::div_mod::lemma_fundamental_div_mod(index as int, grid_size as int);
            vstd::arithmetic::div_mod::lemma_mod_bound(index as int, grid_size as int);
            vstd::arithmetic::div_mod::lemma_div_pos_is_pos(index as int, grid_size as int);
            assert((index / grid_size) * grid_size == grid_size * (index / grid_size))
                by (nonlinear_arith);
        }
        Literal { x: index % grid_size, y: index / grid_size, negated: !(n > 0) }
    }
}

/// Decoding undoes encoding, for every literal inside a grid of any side:
/// with `n` the numeric form of the literal, `(|n| - 1) % size` is its
/// column, `(|n| - 1) / size` is its row, and `n` is positive exactly when
/// the literal is not negated; so `spec_from_numeric(spec_numeric(l)) == l`.
pub proof fn lemma_numeric_round_trip(l: Literal, grid_size: int)
    requires
        l.in_grid(grid_size),
    ensures
        l.spec_numeric(grid_size) != 0,
        1 <= l.spec_variable(grid_size) <= grid_size * grid_size,
        (l.spec_variable(grid_size) - 1) % grid_size == l.x,
        (l.spec_variable(grid_size) - 1) / grid_size == l.y,
        (l.spec_numeric(grid_size) > 0) == !l.negated,
        Literal::spec_from_numeric(l.spec_numeric(grid_size), grid_size) == l,
{
    crate::grid::lemma_index_in_range(l.x as int, l.y as int, grid_size);
    let index = l.x + l.y * grid_size;
    vstd::arithmetic::div_mod::lemma_fundamental_div_mod_converse(
        index,
        grid_size,
        l.y as int,
        l.x as int,
    );
}

/// Encoding undoes decoding: every non-zero number is the numeric form of
/// the literal it decodes to.
pub proof fn lemma_numeric_decode_encode(n: int, grid_size: int)
    requires
        n != 0,
        grid_size > 0,
        -usize::MAX <= n <= usize::MAX,
    ensures
        Literal::spec_from_numeric(n, grid_size).spec_numeric(grid_size) == n,
        Literal::spec_from_numeric(n, grid_size).x < grid_size,
{
    let index = if n > 0 {
        n - 1
    } else {
        -n - 1
    };
    vstd::arithmetic::div_mod::lemma_fundamental_div_mod(index, grid_size);
    vstd::arithmetic::div_mod::lemma_mod_bound(index, grid_size);
    vstd::arithmetic::div_mod::lemma_div_pos_is_pos(index, grid_size);
    vstd::arithmetic::div_mod::lemma_div_is_ordered_by_denominator(index, 1, grid_size);
    vstd::arithmetic::div_mod::lemma_div_basics(index);
    assert((index / grid_size) * grid_size == grid_size * (index / grid_size))
        by (nonlinear_arith);
}

/// Distinct literals of a grid have distinct numeric forms.
pub proof fn lemma_numeric_injective(a: Literal, b: Literal, grid_size: int)
    requires
        a.in_grid(grid_size),
        b.in_grid(grid_size),
        a.spec_numeric(grid_size) == b.spec_numeric(grid_size),
    ensures
        a == b,
{
    lemma_numeric_round_trip(a, grid_size);
    lemma_numeric_round_trip(b, grid_size);
}

impl Literal {
    /// The solver's literal for this literal.
    pub fn into_lit(self, grid_size: usize) -> (l: Lit)
        requires
            self.in_grid(grid_size as int),
            grid_size * grid_size <= MAX_VARIABLES,
        ensures
            lit_number(l) == self.spec_numeric(grid_size as int),
    {
        proof {
            lemma_numeric_round_trip(self, grid_size as int);
        }
        lit_from_dimacs(self.into_numeric(grid_size))
    }
}

/// The numeric forms of the literals of a clause.
pub open spec fn numeric_clause(clause: Seq<Literal>, grid_size: int) -> Seq<int> {
    Seq::new(clause.len(), |i: int| clause[i].spec_numeric(grid_size))
}

/// Every literal of the clause names a cell of the grid.
pub open spec fn clause_in_grid(clause: Seq<Literal>, grid_size: int) -> bool {
    forall|i: int| 0 <= i < clause.len() ==> (#[trigger] clause[i]).in_grid(grid_size)
}

/// The solver's literals for the literals of a clause.
fn literal_to_lits(literals: &Vec<Literal>, grid_size: usize) -> (lits: Vec<Lit>)
    requires
        clause_in_grid(literals@, grid_size as int),
        grid_size * grid_size <= MAX_VARIABLES,
    ensures
        lit_numbers(lits@) == numeric_clause(literals@, grid_size as int),
{
    let mut lits: Vec<Lit> = Vec::new();
    let mut i: usize = 0;
    while i < literals.len()
        invariant
            i <= literals.len(),
            clause_in_grid(literals@, grid_size as int),
            grid_size * grid_size <= MAX_VARIABLES,
            lits.len() == i,
            forall|j: int|
                0 <= j < i ==> lit_number(#[trigger] lits[j]) == literals[j].spec_numeric(
                    grid_size as int,
                ),
        decreases literals.len() - i,
    {
        assert(literals[i as int].in_grid(grid_size as int));
        lits.push(literals[i].into_lit(grid_size));
        i += 1;
    }
    assert(lit_numbers(lits@) =~= numeric_clause(literals@, grid_size as int));
    lits
}

impl Grid {
    /// The literal that a filled cell at row-major position `index` stands for.
    pub open spec fn literal_at(&self, index: int, value: bool) -> Literal {
        Literal {
            x: (index % (self.size as int)) as usize,
            y: (index / (self.size as int)) as usize,
            negated: !value,
        }
    }

    /// Whether the grid has the cell of `l` filled with the value that `l`
    /// states.
    pub open spec fn fixes(&self, l: Literal) -> bool {
        l.in_grid(self.size as int) && self.spec_get(l.x as int, l.y as int) == Cell::Filled(
            !l.negated,
        )
    }

    /// The literals of the filled cells among the first `i` cells, in cell
    /// order.
    pub open spec fn literals_below(&self, i: int) -> Seq<Literal>
        decreases i,
    {
        if i <= 0 {
            Seq::empty()
        } else {
            match self.inner[i - 1] {
                Cell::Filled(value) => self.literals_below(i - 1).push(
                    self.literal_at(i - 1, value),
                ),
                Cell::Empty => self.literals_below(i - 1),
            }
        }
    }

    /// The literals of the filled cells, in cell order.
    pub open spec fn spec_literals(&self) -> Seq<Literal> {
        self.literals_below(self.inner.len() as int)
    }

    /// The literals of the filled cells are exactly the literals that the
    /// grid fixes.
    pub proof fn lemma_literals_below(&self, i: int, l: Literal)
        requires
            self.wf(),
            0 <= i <= self.inner.len(),
        ensures
            self.literals_below(i).contains(l) <==> (self.fixes(l) && self.spec_index(
                l.x as int,
                l.y as int,
            ) < i),
        decreases i,
    {
        if i > 0 {
            self.lemma_literals_below(i - 1, l);
            let size = self.size as int;
            let rest = self.literals_below(i - 1);
            assert(size > 0) by (nonlinear_arith)
                requires
                    size * size > 0,
                    size >= 0,
            ;
            lemma_position_row(i - 1, size, size);
            if l.in_grid(size) {
                lemma_index_in_range(l.x as int, l.y as int, size);
                crate::logic_utils::lemma_row_column(l.y as int, l.x as int, size);
            }
            match self.inner[i - 1] {
                Cell::Filled(value) => {
                    let added = self.literal_at(i - 1, value);
                    assert(self.spec_index(added.x as int, added.y as int) == i - 1);
                    assert(self.fixes(added));
                    assert(self.literals_below(i) == rest.push(added));
                    if self.literals_below(i).contains(l) {
                        let j = choose|j: int|
                            0 <= j < self.literals_below(i).len() && self.literals_below(i)[j]
                                == l;
                        if j < rest.len() {
                            assert(rest[j] == l);
                        }
                    }
                    if self.fixes(l) && self.spec_index(l.x as int, l.y as int) < i {
                        if self.spec_index(l.x as int, l.y as int) == i - 1 {
                            assert(l == added);
                            assert(rest.push(added)[rest.len() as int] == l);
                        } else {
                            let j = choose|j: int| 0 <= j < rest.len() && rest[j] == l;
                            assert(rest.push(added)[j] == l);
                        }
                    }
                },
                Cell::Empty => {},
            }
        }
    }

    /// The literals that the filled cells stand for, in cell order.
    pub fn to_literals(&self) -> (literals: Vec<Literal>)
        requires
            self.wf(),
        ensures
            literals@ == self.spec_literals(),
            forall|l: Literal| literals@.contains(l) <==> self.fixes(l),
            clause_in_grid(literals@, self.size as int),
    {
        let mut literals: Vec<Literal> = Vec::new();
        let mut index: usize = 0;
        while index < self.inner.len()
            invariant
                self.wf(),
                index <= self.inner.len(),
                literals@ == self.literals_below(index as int),
            decreases self.inner.len() - index,
        {
            proof {
                if self.size == 0 {
                    assert(self.size * self.size == 0);
                }
            }
            match self.inner[index] {
                Cell::Empty => {},
                Cell::Filled(value) => {
                    literals.push(Literal::new(index % self.size, index / self.size, value));
                },
            }
            index += 1;
        }
        proof {
            assert forall|l: Literal| literals@.contains(l) <==> self.fixes(l) by {
                self.lemma_literals_below(self.inner.len() as int, l);
                if self.fixes(l) {
                    lemma_index_in_range(l.x as int, l.y as int, self.size as int);
                }
            }
            assert forall|i: int| 0 <= i < literals.len() implies (#[trigger] literals[i]).in_grid(
                self.size as int,
            ) by {
                assert(literals@.contains(literals[i]));
                self.lemma_literals_below(self.inner.len() as int, literals[i]);
            }
        }
        literals
    }
}

/// Why a search gave no answer.
#[derive(Clone, Copy, Debug, PartialEq, Eq, Structural)]
pub enum SolveError {
    /// The search was interrupted; the solver can be asked again.
    Interrupted,
    /// The solver met an error after which it cannot search any more.
    Unrecoverable,
}

/// The sequences held by a list of clauses.
pub open spec fn clause_views(clauses: Seq<Vec<Literal>>) -> Seq<Seq<Literal>> {
    Seq::new(clauses.len(), |i: int| clauses[i]@)
}

/// The unit clauses that state the given literals, in numeric form.
pub open spec fn numeric_units(literals: Seq<Literal>, grid_size: int) -> Seq<Seq<int>> {
    Seq::new(literals.len(), |i: int| seq![literals[i].spec_numeric(grid_size)])
}

/// The numeric forms of a list of clauses.
pub open spec fn numeric_clauses(clauses: Seq<Seq<Literal>>, grid_size: int) -> Seq<Seq<int>> {
    Seq::new(clauses.len(), |i: int| numeric_clause(clauses[i], grid_size))
}

/// The clauses of a list as sets of literals.
pub open spec fn clause_sets(clauses: Seq<Seq<Literal>>) -> Seq<Set<Literal>> {
    Seq::new(clauses.len(), |i: int| clauses[i].to_set())
}

/// The clauses that an accumulator for `grid` accepts: those that hold none
/// of the literals that the grid fixes.
pub open spec fn accepted_by(grid: Grid) -> spec_fn(Seq<Literal>) -> bool {
    |clause: Seq<Literal>| forall|i: int| 0 <= i < clause.len() ==> !grid.fixes(#[trigger] clause[i])
}

/// The same test on a clause given as a set.
pub open spec fn accepted_set_by(grid: Grid) -> spec_fn(Set<Literal>) -> bool {
    |clause: Set<Literal>| forall|l: Literal| clause.contains(l) ==> !grid.fixes(l)
}

/// A clause is accepted as a sequence exactly when it is accepted as a set.
pub proof fn lemma_accepted_set(grid: Grid, clause: Seq<Literal>)
    ensures
        accepted_by(grid)(clause) == accepted_set_by(grid)(clause.to_set()),
{
    if accepted_by(grid)(clause) {
        assert forall|l: Literal| clause.to_set().contains(l) implies !grid.fixes(l) by {
            let i = choose|i: int| 0 <= i < clause.len() && clause[i] == l;
            assert(!grid.fixes(clause[i]));
        }
    }
    if accepted_set_by(grid)(clause.to_set()) {
        assert forall|i: int| 0 <= i < clause.len() implies !grid.fixes(#[trigger] clause[i]) by {
            assert(clause.to_set().contains(clause[i]));
        }
    }
}

/// Dropping the clauses that are not accepted gives the same sets whether
/// the clauses are taken as sequences or as sets.
pub proof fn lemma_sets_filter(clauses: Seq<Seq<Literal>>, grid: Grid)
    ensures
        clause_sets(clauses.filter(accepted_by(grid))) == clause_sets(clauses).filter(
            accepted_set_by(grid),
        ),
    decreases clauses.len(),
{
    reveal(Seq::filter);
    if clauses.len() == 0 {
        assert(clause_sets(clauses) =~= Seq::empty());
        assert(clause_sets(clauses.filter(accepted_by(grid))) =~= Seq::empty());
    } else {
        let front = clauses.drop_last();
        let last = clauses.last();
        lemma_sets_filter(front, grid);
        lemma_accepted_set(grid, last);
        assert(clause_sets(clauses).drop_last() =~= clause_sets(front));
        assert(clause_sets(clauses).last() == last.to_set());
        if accepted_by(grid)(last) {
            assert(clause_sets(front.filter(accepted_by(grid)).push(last)) =~= clause_sets(
                front.filter(accepted_by(grid)),
            ).push(last.to_set()));
        }
    }
}

/// The sets of a concatenation are the sets of its parts.
pub proof fn lemma_sets_add(a: Seq<Seq<Literal>>, b: Seq<Seq<Literal>>)
    ensures
        clause_sets(a + b) == clause_sets(a) + clause_sets(b),
{
    assert(clause_sets(a + b) =~= clause_sets(a) + clause_sets(b));
}

/// The clause accumulator of one puzzle. It keeps the grid as it was given,
/// whose filled cells are the initial literals, and the clauses accepted so
/// far; a clause that holds one of the initial literals is dropped.
///
/// The accumulator's own solver is handed each initial literal as a unit
/// clause, and then every accepted clause: its models are the models of the
/// accepted clauses in which the initial literals hold. The accepted clauses
/// alone, with the initial literals apart from them, are what `to_dimacs`
/// and `into_solver_input` give.
pub struct CNFFile<'a> {
    pub grid: Grid,
    pub clauses: Vec<Vec<Literal>>,
    pub solver: Solver<'a>,
    /// Cleared once the solver has met an unrecoverable error.
    pub usable: bool,
}

impl<'a> CNFFile<'a> {
    /// The accepted clauses, in the order of their arrival.
    pub open spec fn clause_seqs(&self) -> Seq<Seq<Literal>> {
        clause_views(self.clauses@)
    }

    /// The accepted clauses as sets of literals.
    pub open spec fn formula(&self) -> Seq<Set<Literal>> {
        clause_sets(self.clause_seqs())
    }

    /// A clause is accepted when it holds none of the initial literals.
    pub open spec fn accepts(&self, clause: Seq<Literal>) -> bool {
        accepted_by(self.grid)(clause)
    }

    /// What the solver has been given.
    pub open spec fn solver_input(&self) -> Seq<Seq<int>> {
        numeric_units(self.grid.spec_literals(), self.grid.size as int) + numeric_clauses(
            self.clause_seqs(),
            self.grid.size as int,
        )
    }

    /// The grid is a grid whose cells the solver can number, every clause
    /// names cells of the grid, and the solver was handed exactly the
    /// initial literals and the accepted clauses.
    pub open spec fn wf(&self) -> bool {
        &&& self.grid.wf()
        &&& self.grid.size > 0
        &&& self.grid.size * self.grid.size <= MAX_VARIABLES
        &&& forall|i: int|
            0 <= i < self.clauses.len() ==> clause_in_grid(
                (#[trigger] self.clauses[i])@,
                self.grid.size as int,
            )
        &&& solver_clauses(&self.solver) == self.solver_input()
        &&& solver_plain(&self.solver)
        &&& self.usable ==> solver_ready(&self.solver)
    }

    /// Whether the solver was asked to search at least once.
    pub open spec fn searched(&self) -> bool {
        solver_invoked(&self.solver)
    }

    /// The model that the solver holds, if it holds one: each of its
    /// literals decoded for this grid, in the solver's order.
    pub open spec fn spec_model(&self) -> Option<Seq<Literal>> {
        match solver_model_numbers(&self.solver) {
            Some(numbers) => Some(
                numbers.map_values(
                    |n: int| Literal::spec_from_numeric(n, self.grid.size as int),
                ),
            ),
            None => None,
        }
    }

    /// An accumulator for the puzzle `grid`, with no clause yet. Its solver
    /// is new, and is handed one unit clause for each filled cell of the
    /// grid, in cell order, and none for an empty cell.
    pub fn new_varisat(grid: &Grid) -> (out: CNFFile<'a>)
        requires
            grid.wf(),
            grid.size > 0,
            grid.size * grid.size <= MAX_VARIABLES,
        ensures
            out.wf(),
            out.usable,
            !out.searched(),
            out.grid.size == grid.size,
            out.grid.inner@ == grid.inner@,
            out.clauses@.len() == 0,
            solver_clauses(&out.solver) == numeric_units(grid.spec_literals(), grid.size as int),
    {
        let initial = grid.to_literals();
        let mut solver = solver_new();
        let mut i: usize = 0;
        while i < initial.len()
            invariant
                i <= initial.len(),
                grid.size * grid.size <= MAX_VARIABLES,
                clause_in_grid(initial@, grid.size as int),
                solver_ready(&solver),
                solver_plain(&solver),
                !solver_invoked(&solver),
                solver_clauses(&solver) == numeric_units(initial@.take(i as int), grid.size as int),
            decreases initial.len() - i,
        {
            let mut unit: Vec<Lit> = Vec::new();
            assert(initial[i as int].in_grid(grid.size as int));
            unit.push(initial[i].into_lit(grid.size));
            solver_add_clause(&mut solver, unit.as_slice());
            proof {
                assert(lit_numbers(unit@) =~= seq![initial[i as int].spec_numeric(grid.size as int)]);
                assert(numeric_units(initial@.take(i + 1), grid.size as int) =~= numeric_units(
                    initial@.take(i as int),
                    grid.size as int,
                ).push(seq![initial[i as int].spec_numeric(grid.size as int)]));
            }
            i += 1;
        }
        let mut inner: Vec<Cell> = Vec::new();
        let mut j: usize = 0;
        while j < grid.inner.len()
            invariant
                j <= grid.inner.len(),
                inner@ == grid.inner@.take(j as int),
            decreases grid.inner.len() - j,
        {
            inner.push(grid.inner[j]);
            assert(grid.inner@.take(j + 1) == grid.inner@.take(j as int).push(grid.inner[j as int]));
            j += 1;
        }
        let out = CNFFile {
            grid: Grid { size: grid.size, inner },
            clauses: Vec::new(),
            solver,
            usable: true,
        };
        proof {
            assert(grid.inner@.take(grid.inner.len() as int) == grid.inner@);
            assert(initial@.take(initial.len() as int) == initial@);
            out.grid.lemma_same_literals(*grid, out.grid.inner.len() as int);
            assert(numeric_clauses(out.clause_seqs(), grid.size as int) =~= Seq::empty());
            assert(out.solver_input() =~= numeric_units(initial@, grid.size as int));
        }
        out
    }

    /// Whether the clause holds one of the initial literals.
    fn is_redundant(&self, clause: &Vec<Literal>) -> (b: bool)
        requires
            self.grid.wf(),
            clause_in_grid(clause@, self.grid.size as int),
        ensures
            b == !self.accepts(clause@),
    {
        let mut i: usize = 0;
        while i < clause.len()
            invariant
                i <= clause.len(),
                self.grid.wf(),
                clause_in_grid(clause@, self.grid.size as int),
                forall|j: int| 0 <= j < i ==> !self.grid.fixes(#[trigger] clause[j]),
            decreases clause.len() - i,
        {
            let literal = clause[i];
            assert(clause[i as int].in_grid(self.grid.size as int));
            if self.grid.get(literal.x, literal.y) == Cell::Filled(!literal.negated) {
                assert(self.grid.fixes(clause[i as int]));
                return true;
            }
            i += 1;
        }
        false
    }

    /// Adds a clause, unless it holds one of the initial literals: such a
    /// clause is dropped.
    pub fn push(&mut self, clause: Vec<Literal>)
        requires
            old(self).wf(),
            clause_in_grid(clause@, old(self).grid.size as int),
        ensures
            final(self).wf(),
            final(self).grid == old(self).grid,
            final(self).usable == old(self).usable,
            final(self).searched() == old(self).searched(),
            final(self).clause_seqs() == if old(self).accepts(clause@) {
                old(self).clause_seqs().push(clause@)
            } else {
                old(self).clause_seqs()
            },
    {
        if self.is_redundant(&clause) {
            return ;
        }
        let lits = literal_to_lits(&clause, self.grid.size);
        solver_add_clause(&mut self.solver, lits.as_slice());
        let ghost before = self.clause_seqs();
        self.clauses.push(clause);
        proof {
            let size = self.grid.size as int;
            assert(self.clause_seqs() =~= before.push(clause@));
            assert(numeric_clauses(self.clause_seqs(), size) =~= numeric_clauses(before, size).push(
                numeric_clause(clause@, size),
            ));
            assert(self.solver_input() =~= old(self).solver_input().push(
                numeric_clause(clause@, size),
            ));
        }
    }

    /// Adds the clauses in their order, dropping those that hold one of the
    /// initial literals. The solver is handed the accepted ones as one
    /// formula.
    pub fn push_multiple(&mut self, new_clauses: Vec<Vec<Literal>>)
        requires
            old(self).wf(),
            forall|i: int|
                0 <= i < new_clauses.len() ==> clause_in_grid(
                    (#[trigger] new_clauses[i])@,
                    old(self).grid.size as int,
                ),
        ensures
            final(self).wf(),
            final(self).grid == old(self).grid,
            final(self).usable == old(self).usable,
            final(self).searched() == old(self).searched(),
            final(self).clause_seqs() == old(self).clause_seqs() + clause_views(
                new_clauses@,
            ).filter(accepted_by(old(self).grid)),
    {
        let ghost all = clause_views(new_clauses@);
        let ghost accepted = accepted_by(old(self).grid);
        let ghost size = self.grid.size as int;
        let mut formula: Vec<Vec<Lit>> = Vec::new();
        let mut i: usize = 0;
        proof {
            assert(all.take(0) =~= Seq::empty());
            lemma_filter_empty(accepted);
            assert(self.clause_seqs() =~= old(self).clause_seqs() + all.take(0).filter(accepted));
            assert(clause_numbers(formula@) =~= numeric_clauses(all.take(0).filter(accepted), size));
        }
        while i < new_clauses.len()
            invariant
                i <= new_clauses.len(),
                old(self).wf(),
                self.grid == old(self).grid,
                self.usable == old(self).usable,
                self.solver == old(self).solver,
                size == self.grid.size,
                all == clause_views(new_clauses@),
                accepted == accepted_by(old(self).grid),
                forall|i: int|
                    0 <= i < new_clauses.len() ==> clause_in_grid(
                        (#[trigger] new_clauses[i])@,
                        size,
                    ),
                forall|i: int|
                    0 <= i < self.clauses.len() ==> clause_in_grid(
                        (#[trigger] self.clauses[i])@,
                        size,
                    ),
                self.clause_seqs() == old(self).clause_seqs() + all.take(i as int).filter(accepted),
                clause_numbers(formula@) == numeric_clauses(
                    all.take(i as int).filter(accepted),
                    size,
                ),
            decreases new_clauses.len() - i,
        {
            proof {
                assert(all.take(i + 1) == all.take(i as int).push(all[i as int]));
                all.take(i as int).lemma_filter_push(all[i as int], accepted);
            }
            if !self.is_redundant(&new_clauses[i]) {
                let clause = copy_clause(&new_clauses[i]);
                let lits = literal_to_lits(&clause, self.grid.size);
                let ghost kept = all.take(i as int).filter(accepted);
                let ghost before = self.clause_seqs();
                let ghost numbers = clause_numbers(formula@);
                formula.push(lits);
                self.clauses.push(clause);
                proof {
                    assert(self.clause_seqs() =~= before.push(all[i as int]));
                    assert(before.push(all[i as int]) =~= old(self).clause_seqs() + kept.push(
                        all[i as int],
                    ));
                    assert(clause_numbers(formula@) =~= numbers.push(
                        numeric_clause(all[i as int], size),
                    ));
                    assert(numeric_clauses(kept.push(all[i as int]), size) =~= numeric_clauses(
                        kept,
                        size,
                    ).push(numeric_clause(all[i as int], size)));
                }
            }
            i += 1;
        }
        proof {
            assert(all.take(new_clauses.len() as int) == all);
            let kept = all.filter(accepted);
            assert(numeric_clauses(old(self).clause_seqs() + kept, size) =~= numeric_clauses(
                old(self).clause_seqs(),
                size,
            ) + numeric_clauses(kept, size));
            assert(old(self).solver_input() + numeric_clauses(kept, size) =~= numeric_units(
                self.grid.spec_literals(),
                size,
            ) + (numeric_clauses(old(self).clause_seqs(), size) + numeric_clauses(kept, size)));
        }
        solver_add_formula(&mut self.solver, formula);
    }

    /// Asks the solver whether the clauses can all hold together with the
    /// initial literals. This changes neither the grid nor the clauses. A
    /// solver that has met an unrecoverable error is not asked again; any
    /// other is asked, once.
    pub fn solve(&mut self) -> (r: Result<bool, SolveError>)
        requires
            old(self).wf(),
        ensures
            final(self).wf(),
            final(self).grid == old(self).grid,
            final(self).clauses == old(self).clauses,
            !old(self).usable ==> r == Err::<bool, SolveError>(SolveError::Unrecoverable)
                && !final(self).usable,
            r is Ok ==> final(self).usable,
            r == Err::<bool, SolveError>(SolveError::Interrupted) ==> final(self).usable,
            r == Err::<bool, SolveError>(SolveError::Unrecoverable) ==> !final(self).usable,
            r matches Ok(found) ==> (final(self).spec_model() is Some) == found,
            final(self).searched() == (old(self).searched() || old(self).usable),
    {
        if !self.usable {
            return Err(SolveError::Unrecoverable);
        }
        let answer: Result<bool, bool> = match solver_solve(&mut self.solver) {
            Ok(satisfiable) => Ok(satisfiable),
            Err(error) => Err(solver_error_is_recoverable(&error)),
        };
        let r = search_result(answer);
        match r {
            Err(SolveError::Unrecoverable) => {
                self.usable = false;
            },
            _ => {},
        }
        r
    }

    /// The formula as plain numbers, for a solver of the caller's own: the
    /// accepted clauses in their order, and with them the initial literals,
    /// which such a solver is to take for true.
    pub fn into_solver_input(self) -> (r: (Vec<Vec<isize>>, Vec<isize>))
        requires
            self.wf(),
        ensures
            r.0.len() == self.clauses.len(),
            forall|i: int|
                0 <= i < r.0.len() ==> (#[trigger] r.0[i])@.map_values(|n: isize| n as int)
                    == numeric_clause(self.clauses[i]@, self.grid.size as int),
            r.1@.map_values(|n: isize| n as int) == numeric_clause(
                self.grid.spec_literals(),
                self.grid.size as int,
            ),
    {
        let size = self.grid.size;
        let mut clauses: Vec<Vec<isize>> = Vec::new();
        let mut i: usize = 0;
        while i < self.clauses.len()
            invariant
                i <= self.clauses.len(),
                self.wf(),
                size == self.grid.size,
                clauses.len() == i,
                forall|k: int|
                    0 <= k < i ==> (#[trigger] clauses[k])@.map_values(|n: isize| n as int)
                        == numeric_clause(self.clauses[k]@, size as int),
            decreases self.clauses.len() - i,
        {
            let numbers = numeric_literals(&self.clauses[i], size);
            clauses.push(numbers);
            i += 1;
        }
        let initial = self.grid.to_literals();
        let assumed = numeric_literals(&initial, size);
        (clauses, assumed)
    }

    /// The model that the last search found, if it found one: each literal
    /// of the solver decoded for this grid. There is one after a search that
    /// answered `true`, and none after one that answered `false`.
    pub fn model(self) -> (r: Option<Vec<Literal>>)
        requires
            self.wf(),
        ensures
            self.spec_model() == match r {
                Some(model) => Some(model@),
                None => None,
            },
            match r {
                Some(model) => forall|i: int|
                    0 <= i < model.len() ==> (#[trigger] model[i]).x < self.grid.size
                        && Literal::spec_from_numeric(
                        model[i].spec_numeric(self.grid.size as int),
                        self.grid.size as int,
                    ) == model[i],
                None => true,
            },
    {
        match solver_model(&self.solver) {
            None => None,
            Some(lits) => {
                let mut numbers: Vec<isize> = Vec::new();
                let mut i: usize = 0;
                while i < lits.len()
                    invariant
                        i <= lits.len(),
                        numbers.len() == i,
                        forall|j: int| 0 <= j < i ==> #[trigger] numbers[j] != 0,
                        forall|j: int| 0 <= j < i ==> #[trigger] numbers[j] == lit_number(lits[j]),
                    decreases lits.len() - i,
                {
                    numbers.push(lit_to_dimacs(lits[i]));
                    i += 1;
                }
                let model = decode_model(&numbers, self.grid.size);
                assert(model@ =~= lit_numbers(lits@).map_values(
                    |n: int| Literal::spec_from_numeric(n, self.grid.size as int),
                ));
                Some(model)
            },
        }
    }
}

/// What a search gave: the answer of the solver, or the kind of its error,
/// which is told by whether the solver can recover from it.
pub fn search_result(answer: Result<bool, bool>) -> (r: Result<bool, SolveError>)
    ensures
        r == match answer {
            Ok(satisfiable) => Ok::<bool, SolveError>(satisfiable),
            Err(true) => Err(SolveError::Interrupted),
            Err(false) => Err(SolveError::Unrecoverable),
        },
{
    match answer {
        Ok(satisfiable) => Ok(satisfiable),
        Err(true) => Err(SolveError::Interrupted),
        Err(false) => Err(SolveError::Unrecoverable),
    }
}

/// The literals of a model that is given by the numbers of its literals.
pub fn decode_model(numbers: &Vec<isize>, grid_size: usize) -> (model: Vec<Literal>)
    requires
        grid_size != 0,
        forall|i: int| 0 <= i < numbers.len() ==> #[trigger] numbers[i] != 0,
    ensures
        model.len() == numbers.len(),
        forall|i: int|
            0 <= i < model.len() ==> #[trigger] model[i] == Literal::spec_from_numeric(
                numbers[i] as int,
                grid_size as int,
            ),
        forall|i: int|
            0 <= i < model.len() ==> (#[trigger] model[i]).x < grid_size && model[i].spec_numeric(
                grid_size as int,
            ) == numbers[i],
{
    let mut model: Vec<Literal> = Vec::new();
    let mut i: usize = 0;
    while i < numbers.len()
        invariant
            i <= numbers.len(),
            grid_size != 0,
            forall|i: int| 0 <= i < numbers.len() ==> #[trigger] numbers[i] != 0,
            model.len() == i,
            forall|j: int|
                0 <= j < i ==> #[trigger] model[j] == Literal::spec_from_numeric(
                    numbers[j] as int,
                    grid_size as int,
                ),
            forall|j: int|
                0 <= j < i ==> (#[trigger] model[j]).x < grid_size && model[j].spec_numeric(
                    grid_size as int,
                ) == numbers[j],
        decreases numbers.len() - i,
    {
        model.push(Literal::from_numeric(numbers[i], grid_size));
        i += 1;
    }
    model
}

/// The numeric forms of a list of literals.
fn numeric_literals(literals: &Vec<Literal>, grid_size: usize) -> (numbers: Vec<isize>)
    requires
        clause_in_grid(literals@, grid_size as int),
        grid_size * grid_size <= MAX_VARIABLES,
    ensures
        numbers@.map_values(|n: isize| n as int) == numeric_clause(literals@, grid_size as int),
{
    let mut numbers: Vec<isize> = Vec::new();
    let mut j: usize = 0;
    while j < literals.len()
        invariant
            j <= literals.len(),
            clause_in_grid(literals@, grid_size as int),
            grid_size * grid_size <= MAX_VARIABLES,
            numbers.len() == j,
            forall|k: int|
                0 <= k < j ==> #[trigger] numbers[k] == literals[k].spec_numeric(grid_size as int),
        decreases literals.len() - j,
    {
        assert(literals[j as int].in_grid(grid_size as int));
        proof {
            lemma_numeric_round_trip(literals[j as int], grid_size as int);
        }
        numbers.push(literals[j].into_numeric(grid_size));
        j += 1;
    }
    assert(numbers@.map_values(|n: isize| n as int) =~= numeric_clause(
        literals@,
        grid_size as int,
    ));
    numbers
}

/// A copy of a clause.
fn copy_clause(clause: &Vec<Literal>) -> (out: Vec<Literal>)
    ensures
        out@ == clause@,
{
    let mut out: Vec<Literal> = Vec::new();
    let mut i: usize = 0;
    while i < clause.len()
        invariant
            i <= clause.len(),
            out@ == clause@.take(i as int),
        decreases clause.len() - i,
    {
        out.push(clause[i]);
        assert(clause@.take(i + 1) == clause@.take(i as int).push(clause[i as int]));
        i += 1;
    }
    assert(clause@.take(clause.len() as int) == clause@);
    out
}

impl Grid {
    /// Grids with the same side and the same cells have the same literals.
    pub proof fn lemma_same_literals(&self, other: Grid, i: int)
        requires
            self.size == other.size,
            self.inner@ == other.inner@,
            0 <= i <= self.inner.len(),
        ensures
            self.literals_below(i) == other.literals_below(i),
        decreases i,
    {
        if i > 0 {
            self.lemma_same_literals(other, i - 1);
        }
    }
}

impl Literal {
    /// How the literal is written: its coordinates in brackets, after a
    /// negation sign if it is negated.
    pub open spec fn spec_to_text(self) -> Seq<char> {
        (if self.negated {
            "\u{ac}"@
        } else {
            Seq::<char>::empty()
        }) + "("@ + decimal(self.x as nat) + ", "@ + decimal(self.y as nat) + ")"@
    }

    /// The literal as a text.
    pub fn to_text(self) -> (text: String)
        ensures
            text@ == self.spec_to_text(),
    {
        let mut text = String::new();
        if self.negated {
            text.append("\u{ac}");
        }
        text.append("(");
        append_decimal(&mut text, self.x);
        text.append(", ");
        append_decimal(&mut text, self.y);
        text.append(")");
        assert(text@ =~= self.spec_to_text());
        text
    }
}

/// The literals of a clause as numbers, each followed by a space.
pub open spec fn clause_text(clause: Seq<Literal>, grid_size: int) -> Seq<char>
    decreases clause.len(),
{
    if clause.len() == 0 {
        Seq::empty()
    } else {
        clause_text(clause.drop_last(), grid_size) + signed_decimal(
            clause.last().spec_numeric(grid_size),
        ) + " "@
    }
}

/// The lines of a list of clauses: each clause is followed by a zero and
/// ends its line.
pub open spec fn clauses_text(clauses: Seq<Seq<Literal>>, grid_size: int) -> Seq<char>
    decreases clauses.len(),
{
    if clauses.len() == 0 {
        Seq::empty()
    } else {
        clauses_text(clauses.drop_last(), grid_size) + clause_text(clauses.last(), grid_size)
            + "0\n"@
    }
}

/// A formula in the DIMACS format: the header gives the number of
/// variables, one for each cell, and the number of clauses.
pub open spec fn spec_to_dimacs(clauses: Seq<Seq<Literal>>, grid_size: int) -> Seq<char> {
    "p cnf "@ + decimal((grid_size * grid_size) as nat) + " "@ + decimal(clauses.len()) + "\n"@
        + clauses_text(clauses, grid_size)
}

impl<'a> CNFFile<'a> {
    /// The accepted clauses in the DIMACS format.
    pub fn to_dimacs(&self) -> (text: String)
        requires
            self.wf(),
        ensures
            text@ == spec_to_dimacs(self.clause_seqs(), self.grid.size as int),
    {
        let size = self.grid.size;
        let ghost all = self.clause_seqs();
        let mut text = String::new();
        text.append("p cnf ");
        append_decimal(&mut text, size * size);
        text.append(" ");
        append_decimal(&mut text, self.clauses.len());
        text.append("\n");
        let ghost header = text@;
        assert(header =~= "p cnf "@ + decimal((size * size) as nat) + " "@ + decimal(all.len())
            + "\n"@);
        let mut i: usize = 0;
        assert(all.take(0) =~= Seq::<Seq<Literal>>::empty());
        assert(text@ =~= header + clauses_text(all.take(0), size as int));
        while i < self.clauses.len()
            invariant
                i <= self.clauses.len(),
                self.wf(),
                size == self.grid.size,
                all == self.clause_seqs(),
                text@ == header + clauses_text(all.take(i as int), size as int),
            decreases self.clauses.len() - i,
        {
            let clause = &self.clauses[i];
            let ghost before = text@;
            let mut j: usize = 0;
            assert(clause@.take(0) =~= Seq::<Literal>::empty());
            assert(text@ =~= before + clause_text(clause@.take(0), size as int));
            while j < clause.len()
                invariant
                    j <= clause.len(),
                    size == self.grid.size,
                    size * size <= MAX_VARIABLES,
                    clause_in_grid(clause@, size as int),
                    text@ == before + clause_text(clause@.take(j as int), size as int),
                decreases clause.len() - j,
            {
                let ghost so_far = text@;
                assert(clause[j as int].in_grid(size as int));
                proof {
                    lemma_numeric_round_trip(clause[j as int], size as int);
                }
                append_signed(&mut text, clause[j].into_numeric(size));
                text.append(" ");
                proof {
                    let longer = clause@.take(j + 1);
                    assert(longer.drop_last() =~= clause@.take(j as int));
                    assert(longer.last() == clause[j as int]);
                    assert(text@ =~= before + clause_text(longer, size as int));
                }
                j += 1;
            }
            text.append("0\n");
            proof {
                assert(clause@.take(clause.len() as int) =~= clause@);
                let longer = all.take(i + 1);
                assert(longer.drop_last() =~= all.take(i as int));
                assert(longer.last() == clause@);
                assert(text@ =~= header + clauses_text(longer, size as int));
            }
            i += 1;
        }
        assert(all.take(self.clauses.len() as int) =~= all);
        text
    }
}

} // verus!
