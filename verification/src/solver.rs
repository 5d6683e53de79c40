//! The interface to the SAT solver, Varisat: its types, and one contract for
//! each of its functions that the library calls. These contracts are not
//! proved: they state what the solver's documentation and code promise.

use vstd::prelude::*;
use varisat::solver::SolverError;
use varisat::{CnfFormula, ExtendFormula, Lit, Solver};

verus! {

/// The solver, `varisat::Solver`, as a type whose values are only handed on.
#[verifier::external_type_specification]
#[verifier::external_body]
pub struct ExSolver<'a>(Solver<'a>);

/// A literal of the solver, `varisat::Lit`.
#[verifier::external_type_specification]
#[verifier::external_body]
pub struct ExLit(Lit);

/// The error of a search, `varisat::solver::SolverError`.
#[verifier::external_type_specification]
#[verifier::external_body]
pub struct ExSolverError(SolverError);

/// The largest variable number that the solver supports: `Var::max_count()`.
pub const MAX_VARIABLES: usize = 0x1000_0000;

/// The signed, 1-based number of a solver literal, as `Lit::to_dimacs` gives it.
pub uninterp spec fn lit_number(l: Lit) -> int;

/// The clauses handed to a solver since it was made, in the order in which
/// they were handed over, each literal by its number. This is a record of
/// the calls, not of what the solver keeps of them: the solver is free to
/// simplify what it is given.
pub uninterp spec fn solver_clauses(s: &Solver) -> Seq<Seq<int>>;

/// Whether a solver can still search: it cannot once a search has ended with
/// an error that is not recoverable.
pub uninterp spec fn solver_ready(s: &Solver) -> bool;

/// Whether clauses may name every variable that a solver knows: a solver
/// panics when it is handed a clause that names a variable whose sampling
/// mode is not the one that new variables get. Only the functions that set
/// sampling modes, such as `Solver::witness_var`, change that, and this
/// library calls none of them.
pub uninterp spec fn solver_plain(s: &Solver) -> bool;

/// Whether `Solver::solve` was called on a solver at least once.
pub uninterp spec fn solver_invoked(s: &Solver) -> bool;

/// What `Solver::model` hands out for a solver: the numbers of the literals
/// of the model that the solver holds, in the solver's order, or nothing
/// when it holds no model. The solver holds a model exactly when its last
/// search found the clauses satisfiable and nothing was handed to it since.
pub uninterp spec fn solver_model_numbers(s: &Solver) -> Option<Seq<int>>;

/// What `SolverError::is_recoverable` answers for an error.
pub uninterp spec fn error_recoverable(e: &SolverError) -> bool;

/// The numbers of a sequence of solver literals.
pub open spec fn lit_numbers(lits: Seq<Lit>) -> Seq<int> {
    lits.map_values(|l: Lit| lit_number(l))
}

/// `Lit::from_dimacs`: the literal with the given number. The outside
/// function takes any non-zero number whose magnitude names a supported
/// variable; `Lit::to_dimacs` is documented as its opposite.
#[verifier::external_body]
pub(crate) fn lit_from_dimacs(n: isize) -> (l: Lit)
    requires
        n != 0,
        -MAX_VARIABLES <= n <= MAX_VARIABLES,
    ensures
        lit_number(l) == n,
{
    Lit::from_dimacs(n)
}

/// `Lit::to_dimacs`: the number of a literal, which is never zero since
/// variables are counted from one.
#[verifier::external_body]
pub(crate) fn lit_to_dimacs(l: Lit) -> (n: isize)
    ensures
        n == lit_number(l),
        n != 0,
{
    l.to_dimacs()
}

/// `Solver::new`: a solver that was handed no clause yet, knows no variable,
/// was never asked to search, and can search.
#[verifier::external_body]
pub(crate) fn solver_new<'a>() -> (s: Solver<'a>)
    ensures
        solver_clauses(&s) == Seq::<Seq<int>>::empty(),
        solver_ready(&s),
        solver_plain(&s),
        !solver_invoked(&s),
{
    Solver::new()
}

/// `Solver::add_clause`, of the trait `ExtendFormula`: hands the solver one
/// more clause. The solver makes the variables that the clause names and
/// that it does not know yet, with the sampling mode of new variables. The
/// outside function panics on a clause that names a variable of another
/// sampling mode.
#[verifier::external_body]
pub(crate) fn solver_add_clause(s: &mut Solver, clause: &[Lit])
    requires
        solver_plain(old(s)),
    ensures
        solver_clauses(final(s)) == solver_clauses(old(s)).push(lit_numbers(clause@)),
        solver_ready(final(s)) == solver_ready(old(s)),
        solver_plain(final(s)),
        solver_invoked(final(s)) == solver_invoked(old(s)),
{
    s.add_clause(clause)
}

/// The numbers of the literals of each clause of a list.
pub open spec fn clause_numbers(clauses: Seq<Vec<Lit>>) -> Seq<Seq<int>> {
    Seq::new(clauses.len(), |i: int| lit_numbers(clauses[i]@))
}

/// `Solver::add_formula`, on the formula that `CnfFormula::from` makes of a
/// list of clauses: hands the solver each clause of the list, in order, as
/// `Solver::add_clause` does, and panics where that one does.
#[verifier::external_body]
pub(crate) fn solver_add_formula(s: &mut Solver, clauses: Vec<Vec<Lit>>)
    requires
        solver_plain(old(s)),
    ensures
        solver_clauses(final(s)) == solver_clauses(old(s)) + clause_numbers(clauses@),
        solver_ready(final(s)) == solver_ready(old(s)),
        solver_plain(final(s)),
        solver_invoked(final(s)) == solver_invoked(old(s)),
{
    s.add_formula(&CnfFormula::from(clauses))
}

/// `Solver::solve`: searches for a model of the clauses, and notes that it
/// was called. Nothing is claimed of whether the answer is right. The outside function answers `true`
/// exactly when it ends the search holding a model, which `Solver::model`
/// then hands out. It panics when called after an error that is not
/// recoverable; after a recoverable one, or none, the solver can search
/// again.
#[verifier::external_body]
pub(crate) fn solver_solve(s: &mut Solver) -> (r: Result<bool, SolverError>)
    requires
        solver_ready(old(s)),
    ensures
        solver_clauses(final(s)) == solver_clauses(old(s)),
        solver_plain(final(s)) == solver_plain(old(s)),
        solver_invoked(final(s)),
        match r {
            Ok(found) => solver_ready(final(s)) && (solver_model_numbers(final(s)) is Some)
                == found,
            Err(e) => error_recoverable(&e) ==> solver_ready(final(s)),
        },
{
    s.solve()
}

/// `Solver::model`: the literals of the model that the solver holds, if it
/// holds one. Nothing is claimed of the literals but that they are what the
/// solver holds.
#[verifier::external_body]
pub(crate) fn solver_model(s: &Solver) -> (r: Option<Vec<Lit>>)
    ensures
        solver_model_numbers(s) == match r {
            Some(lits) => Some(lit_numbers(lits@)),
            None => None,
        },
{
    s.model()
}

/// `SolverError::is_recoverable`: whether the solver can be used after the
/// error.
#[verifier::external_body]
pub(crate) fn solver_error_is_recoverable(e: &SolverError) -> (b: bool)
    ensures
        b == error_recoverable(e),
{
    e.is_recoverable()
}

} // verus!
