//! The three rules of the puzzle as clauses: each line holds as many true
//! cells as false ones, no three neighbours in a line are equal, and no two
//! rows, nor two columns, are the same.

use crate::cnf::{
    accepted_by, accepted_set_by, clause_in_grid, clause_sets, clause_views, lemma_numeric_round_trip,
    lemma_sets_add, lemma_sets_filter, CNFFile, Literal, SolveError,
};
use crate::combinatorics::{
    combinations, holds_pair, lemma_binomial_positive, lemma_combinations_len, pairs,
    spec_combinations, spec_pairs, views,
};
use crate::grid::Grid;
use crate::logic_utils::{
    cnf_view, dnf_to_cnf, dnf_view, lemma_dnf_to_cnf_literals, lemma_dnf_to_cnf_map, map_clauses,
    map_terms, spec_dnf_to_cnf, terms_satisfy,
};
use std::collections::HashSet;
use vstd::prelude::*;

verus! {

/// The numbers held by a set, in the order in which the set hands them out.
fn set_elements(set: &HashSet<isize>) -> (v: Vec<isize>)
    ensures
        v@.to_set() == set@,
        v@.no_duplicates(),
{
    broadcast use vstd::std_specs::hash::group_hash_axioms;

    let mut v: Vec<isize> = Vec::new();
    for n in it: set.iter()
        invariant
            it.seq().unref().to_set() == set@,
            it.seq().unref().no_duplicates(),
            it.seq().len() == set@.len(),
            v@.len() == it.index(),
            forall|j: int| 0 <= j < v.len() ==> v[j] == #[trigger] it.seq().unref()[j],
            forall|j: int| 0 <= j < v.len() ==> set@.contains(#[trigger] v[j]),
            v@.no_duplicates(),
    {
        assert(it.seq().unref()[it.index()] == *n);
        assert(it.seq().unref().contains(*n));
        v.push(*n);
        assert forall|i: int, j: int| 0 <= i < j < v.len() implies v[i] != v[j] by {
            assert(v[i] == it.seq().unref()[i]);
            assert(v[j] == it.seq().unref()[j]);
        }
    }
    proof {
        v@.unique_seq_to_set();
        assert(v@.to_set().subset_of(set@));
        vstd::set_lib::lemma_subset_equality(v@.to_set(), set@);
    }
    v
}

/// The numeric form of a literal, as a function.
pub open spec fn numeric_of(width: int) -> spec_fn(Literal) -> isize {
    |l: Literal| l.spec_numeric(width) as isize
}

/// The literals in a grid of side `width`, as a predicate.
pub open spec fn within(width: int) -> spec_fn(Literal) -> bool {
    |l: Literal| l.in_grid(width)
}

/// The numeric forms of the terms.
fn numeric_terms(terms: &Vec<Vec<Literal>>, width: usize) -> (numeric: Vec<Vec<isize>>)
    requires
        terms_satisfy(clause_views(terms@), within(width as int)),
        width * width <= isize::MAX,
    ensures
        numeric.len() == terms.len(),
        forall|t: int|
            0 <= t < numeric.len() ==> (#[trigger] numeric[t])@ == terms[t]@.map_values(
                numeric_of(width as int),
            ),
{
    let mut numeric: Vec<Vec<isize>> = Vec::new();
    let mut t: usize = 0;
    while t < terms.len()
        invariant
            t <= terms.len(),
            terms_satisfy(clause_views(terms@), within(width as int)),
            width * width <= isize::MAX,
            numeric.len() == t,
            forall|u: int|
                0 <= u < numeric.len() ==> (#[trigger] numeric[u])@ == terms[u]@.map_values(
                    numeric_of(width as int),
                ),
        decreases terms.len() - t,
    {
        let term = &terms[t];
        let mut numbers: Vec<isize> = Vec::new();
        let mut j: usize = 0;
        while j < term.len()
            invariant
                j <= term.len(),
                t < terms.len(),
                *term == terms[t as int],
                terms_satisfy(clause_views(terms@), within(width as int)),
                width * width <= isize::MAX,
                numbers.len() == j,
                forall|k: int|
                    0 <= k < j ==> #[trigger] numbers[k] == numeric_of(width as int)(term[k]),
            decreases term.len() - j,
        {
            assert(within(width as int)(clause_views(terms@)[t as int][j as int]));
            proof {
                lemma_numeric_round_trip(term[j as int], width as int);
            }
            numbers.push(term[j].into_numeric(width));
            j += 1;
        }
        assert(numbers@ =~= term@.map_values(numeric_of(width as int)));
        numeric.push(numbers);
        t += 1;
    }
    numeric
}

/// The literals that a set of numeric forms stands for.
fn decode_clause(set: &HashSet<isize>, width: usize, Ghost(literals): Ghost<Set<Literal>>) -> (clause: Vec<Literal>)
    requires
        width > 0,
        width * width <= isize::MAX,
        set@ == literals.map(numeric_of(width as int)),
        forall|l: Literal| literals.contains(l) ==> l.in_grid(width as int),
    ensures
        clause@.to_set() == literals,
        clause_in_grid(clause@, width as int),
{
    let numbers = set_elements(set);
    let mut clause: Vec<Literal> = Vec::new();
    let mut j: usize = 0;
    while j < numbers.len()
        invariant
            j <= numbers.len(),
            width > 0,
            width * width <= isize::MAX,
            numbers@.to_set() == set@,
            set@ == literals.map(numeric_of(width as int)),
            forall|l: Literal| literals.contains(l) ==> l.in_grid(width as int),
            clause.len() == j,
            forall|k: int|
                0 <= k < j ==> literals.contains(#[trigger] clause[k]) && numeric_of(width as int)(
                    clause[k],
                ) == numbers[k],
        decreases numbers.len() - j,
    {
        let number = numbers[j];
        proof {
            assert(numbers@.to_set().contains(number));
            let l = choose|l: Literal| literals.contains(l) && number == numeric_of(width as int)(l);
            lemma_numeric_round_trip(l, width as int);
        }
        clause.push(Literal::from_numeric(number, width));
        j += 1;
    }
    proof {
        assert forall|l: Literal| clause@.to_set().contains(l) <==> literals.contains(l) by {
            if literals.contains(l) {
                let number = numeric_of(width as int)(l);
                assert(set@.contains(number));
                assert(numbers@.to_set().contains(number));
                let k = choose|k: int| 0 <= k < numbers.len() && numbers[k] == number;
                lemma_numeric_round_trip(l, width as int);
                lemma_numeric_round_trip(clause[k], width as int);
                crate::cnf::lemma_numeric_injective(l, clause[k], width as int);
            }
        }
        assert(clause@.to_set() =~= literals);
        assert forall|k: int| 0 <= k < clause.len() implies (#[trigger] clause[k]).in_grid(
            width as int,
        ) by {
            assert(literals.contains(clause[k]));
        }
    }
    clause
}

/// The clauses of a disjunction of conjunctive terms over literals. The
/// conversion works on the numeric forms of the literals.
fn literal_dnf_to_cnf(terms: &Vec<Vec<Literal>>, width: usize) -> (clauses: Vec<Vec<Literal>>)
    requires
        terms.len() > 0,
        width > 0,
        width * width <= isize::MAX,
        terms_satisfy(clause_views(terms@), within(width as int)),
    ensures
        clause_sets(clause_views(clauses@)) == spec_dnf_to_cnf(clause_views(terms@)),
        forall|i: int| 0 <= i < clauses.len() ==> clause_in_grid((#[trigger] clauses[i])@, width as int),
{
    broadcast use vstd::std_specs::hash::group_hash_axioms;

    let ghost dnf = clause_views(terms@);
    let ghost f = numeric_of(width as int);
    let numeric = numeric_terms(terms, width);
    let mut slices: Vec<&[isize]> = Vec::new();
    let mut t: usize = 0;
    while t < numeric.len()
        invariant
            t <= numeric.len(),
            slices.len() == t,
            forall|u: int| 0 <= u < t ==> (#[trigger] slices[u])@ == numeric[u]@,
        decreases numeric.len() - t,
    {
        slices.push(numeric[t].as_slice());
        t += 1;
    }
    assert(dnf_view(slices@) =~= map_terms(dnf, f));
    let cnf = dnf_to_cnf(slices.as_slice());
    proof {
        lemma_dnf_to_cnf_map(dnf, f);
    }
    let ghost sets = spec_dnf_to_cnf(dnf);
    assert(cnf_view(cnf@) == map_clauses(sets, f));
    assert(cnf_view(cnf@).len() == sets.len());
    let mut clauses: Vec<Vec<Literal>> = Vec::new();
    let mut i: usize = 0;
    while i < cnf.len()
        invariant
            i <= cnf.len(),
            cnf.len() == sets.len(),
            width > 0,
            width * width <= isize::MAX,
            dnf == clause_views(terms@),
            sets == spec_dnf_to_cnf(dnf),
            terms_satisfy(dnf, within(width as int)),
            cnf_view(cnf@) == map_clauses(sets, numeric_of(width as int)),
            clauses.len() == i,
            forall|k: int| 0 <= k < i ==> (#[trigger] clauses[k])@.to_set() == sets[k],
            forall|k: int| 0 <= k < i ==> clause_in_grid((#[trigger] clauses[k])@, width as int),
        decreases cnf.len() - i,
    {
        proof {
            assert(cnf_view(cnf@)[i as int] == cnf[i as int]@);
            assert(map_clauses(sets, numeric_of(width as int))[i as int] == sets[i as int].map(
                numeric_of(width as int),
            ));
            assert forall|l: Literal| sets[i as int].contains(l) implies l.in_grid(width as int) by {
                lemma_dnf_to_cnf_literals(dnf, within(width as int), i as int, l);
            }
        }
        let clause = decode_clause(&cnf[i], width, Ghost(sets[i as int]));
        clauses.push(clause);
        i += 1;
    }
    assert(cnf_view(cnf@).len() == sets.len());
    assert(clause_sets(clause_views(clauses@)) =~= sets);
    clauses
}

/// The literal for position `pos` of a line: of row `line`, or of column
/// `line` when `transposed`.
pub open spec fn line_literal(line: int, pos: int, transposed: bool, positive: bool) -> Literal {
    if transposed {
        Literal { x: line as usize, y: pos as usize, negated: !positive }
    } else {
        Literal { x: pos as usize, y: line as usize, negated: !positive }
    }
}

/// The literal for a position of a line.
fn literal_on_line(line: usize, pos: usize, transposed: bool, positive: bool) -> (l: Literal)
    ensures
        l == line_literal(line as int, pos as int, transposed, positive),
{
    if transposed {
        Literal::new(line, pos, positive)
    } else {
        Literal::new(pos, line, positive)
    }
}

/// Adds one clause to the accumulator, which holds `base` and what it
/// accepted of `built`.
fn emit(
    out: &mut CNFFile,
    clause: Vec<Literal>,
    Ghost(base): Ghost<Seq<Seq<Literal>>>,
    Ghost(built): Ghost<Seq<Seq<Literal>>>,
)
    requires
        old(out).wf(),
        clause_in_grid(clause@, old(out).grid.size as int),
        old(out).clause_seqs() == base + built.filter(accepted_by(old(out).grid)),
    ensures
        final(out).wf(),
        final(out).grid == old(out).grid,
        final(out).usable == old(out).usable,
        final(out).searched() == old(out).searched(),
        final(out).clause_seqs() == base + built.push(clause@).filter(accepted_by(old(out).grid)),
{
    proof {
        built.lemma_filter_push(clause@, accepted_by(out.grid));
        if accepted_by(out.grid)(clause@) {
            assert((base + built.filter(accepted_by(out.grid))).push(clause@) =~= base
                + built.filter(accepted_by(out.grid)).push(clause@));
        }
    }
    out.push(clause);
}

/// The clause over three neighbours of a line, from position `start` on:
/// one of them is true (`positive`), or one of them is false.
pub open spec fn window_clause(line: int, start: int, transposed: bool, positive: bool) -> Seq<
    Literal,
> {
    seq![
        line_literal(line, start, transposed, positive),
        line_literal(line, start + 1, transposed, positive),
        line_literal(line, start + 2, transposed, positive),
    ]
}

/// The clauses for one line: for each window of three neighbours, first
/// "one of them is false", then "one of them is true".
pub open spec fn line_windows(size: int, line: int, transposed: bool) -> Seq<Seq<Literal>> {
    Seq::new(
        if size >= 2 {
            (2 * (size - 2)) as nat
        } else {
            0
        },
        |q: int| window_clause(line, q / 2, transposed, q % 2 == 1),
    )
}

/// The clauses for the lines before `line`.
pub open spec fn windows_below(size: int, line: int, transposed: bool) -> Seq<Seq<Literal>>
    decreases line,
{
    if line <= 0 {
        Seq::empty()
    } else {
        windows_below(size, line - 1, transposed) + line_windows(size, line - 1, transposed)
    }
}

/// The clauses that forbid three equal neighbours: those of the columns,
/// then those of the rows.
pub open spec fn rule_2_clauses(size: int) -> Seq<Seq<Literal>> {
    windows_below(size, size, true) + windows_below(size, size, false)
}

/// The clause over the three neighbours from position `start` on.
fn window(line: usize, start: usize, transposed: bool, positive: bool) -> (clause: Vec<Literal>)
    requires
        start + 2 <= usize::MAX,
    ensures
        clause@ == window_clause(line as int, start as int, transposed, positive),
{
    let mut clause: Vec<Literal> = Vec::new();
    clause.push(literal_on_line(line, start, transposed, positive));
    clause.push(literal_on_line(line, start + 1, transposed, positive));
    clause.push(literal_on_line(line, start + 2, transposed, positive));
    assert(clause@ =~= window_clause(line as int, start as int, transposed, positive));
    clause
}

/// Writes the window clauses of all rows, or of all columns.
fn write_windows(out: &mut CNFFile, transposed: bool)
    requires
        old(out).wf(),
    ensures
        final(out).wf(),
        final(out).grid == old(out).grid,
        final(out).usable == old(out).usable,
        final(out).searched() == old(out).searched(),
        final(out).clause_seqs() == old(out).clause_seqs() + windows_below(
            old(out).grid.size as int,
            old(out).grid.size as int,
            transposed,
        ).filter(accepted_by(old(out).grid)),
{
    let size = out.grid.size;
    let ghost base = out.clause_seqs();
    let ghost mut built: Seq<Seq<Literal>> = Seq::empty();
    proof {
        crate::logic_utils::lemma_filter_empty(accepted_by(out.grid));
        assert(base + Seq::<Seq<Literal>>::empty() =~= base);
    }
    let mut line: usize = 0;
    while line < size
        invariant
            line <= size,
            size == out.grid.size,
            out.wf(),
            out.grid == old(out).grid,
            out.usable == old(out).usable,
            out.searched() == old(out).searched(),
            built == windows_below(size as int, line as int, transposed),
            out.clause_seqs() == base + built.filter(accepted_by(out.grid)),
        decreases size - line,
    {
        let ghost before = built;
        let ghost row = line_windows(size as int, line as int, transposed);
        let mut start: usize = 0;
        assert(before + row.take(0) =~= before);
        while start + 2 < size
            invariant
                line < size,
                start + 2 <= size || start == 0,
                size == out.grid.size,
                out.wf(),
                out.grid == old(out).grid,
                out.usable == old(out).usable,
                out.searched() == old(out).searched(),
                row == line_windows(size as int, line as int, transposed),
                built == before + row.take(2 * start),
                out.clause_seqs() == base + built.filter(accepted_by(out.grid)),
            decreases size - start,
        {
            let negative = window(line, start, transposed, false);
            let positive = window(line, start, transposed, true);
            proof {
                assert(row[2 * start] == negative@);
                assert(row[2 * start + 1] == positive@);
                assert(before + row.take(2 * (start + 1)) =~= (before + row.take(2 * start)).push(
                    negative@,
                ).push(positive@));
            }
            emit(out, negative, Ghost(base), Ghost(built));
            proof {
                built = built.push(negative@);
            }
            emit(out, positive, Ghost(base), Ghost(built));
            proof {
                built = built.push(positive@);
            }
            start += 1;
        }
        assert(row.take(2 * start) =~= row);
        line += 1;
    }
}

/// Forbids three equal neighbours in any column and in any row: for every
/// window of three neighbours, one clause says that one of them is false
/// and one that one of them is true. A grid whose side is below three has
/// no window.
pub fn write_rule_2(out: &mut CNFFile, grid: &Grid)
    requires
        old(out).wf(),
        grid.size == old(out).grid.size,
    ensures
        final(out).wf(),
        final(out).grid == old(out).grid,
        final(out).usable == old(out).usable,
        final(out).searched() == old(out).searched(),
        final(out).clause_seqs() == old(out).clause_seqs() + rule_2_clauses(
            grid.size as int,
        ).filter(accepted_by(old(out).grid)),
{
    write_windows(out, true);
    write_windows(out, false);
    proof {
        let size = grid.size as int;
        let p = accepted_by(old(out).grid);
        Seq::filter_distributes_over_add(
            windows_below(size, size, true),
            windows_below(size, size, false),
            p,
        );
        assert(old(out).clause_seqs() + windows_below(size, size, true).filter(p) + windows_below(
            size,
            size,
            false,
        ).filter(p) =~= old(out).clause_seqs() + (windows_below(size, size, true).filter(p)
            + windows_below(size, size, false).filter(p)));
    }
}

/// The conjunctive term that says of a line that its true cells are exactly
/// those at the positions of the combination `c`.
pub open spec fn balance_term(size: int, line: int, transposed: bool, c: Seq<usize>) -> Seq<
    Literal,
> {
    Seq::new(size as nat, |pos: int| line_literal(line, pos, transposed, c.contains(pos as usize)))
}

/// The terms of a list of combinations.
pub open spec fn balance_terms(
    size: int,
    line: int,
    transposed: bool,
    combos: Seq<Seq<usize>>,
) -> Seq<Seq<Literal>> {
    Seq::new(combos.len(), |m: int| balance_term(size, line, transposed, combos[m]))
}

/// "Half of the cells of the line are true", as a disjunction: one term for
/// each way to choose the true half.
pub open spec fn balance_dnf(size: int, line: int, transposed: bool) -> Seq<Seq<Literal>> {
    balance_terms(size, line, transposed, spec_combinations(size as nat, (size / 2) as nat))
}

/// The clauses that say that half of the cells of a line are true.
pub open spec fn balance_sets(size: int, line: int, transposed: bool) -> Seq<Set<Literal>> {
    spec_dnf_to_cnf(balance_dnf(size, line, transposed))
}

/// The balance clauses of the rows and columns before `line`: for each
/// number, those of the row and then those of the column.
pub open spec fn balance_below(size: int, line: int) -> Seq<Set<Literal>>
    decreases line,
{
    if line <= 0 {
        Seq::empty()
    } else {
        balance_below(size, line - 1) + balance_sets(size, line - 1, false) + balance_sets(
            size,
            line - 1,
            true,
        )
    }
}

/// The clauses that say that every row and every column holds as many true
/// cells as false ones.
pub open spec fn rule_1_sets(size: int) -> Seq<Set<Literal>> {
    balance_below(size, size)
}

/// Whether a combination holds the position.
fn holds_position(c: &Vec<usize>, pos: usize) -> (b: bool)
    ensures
        b == c@.contains(pos),
{
    let mut i: usize = 0;
    while i < c.len()
        invariant
            i <= c.len(),
            forall|j: int| 0 <= j < i ==> c[j] != pos,
        decreases c.len() - i,
    {
        if c[i] == pos {
            return true;
        }
        i += 1;
    }
    false
}

/// The balance terms of one line.
fn line_terms(combos: &Vec<Vec<usize>>, size: usize, line: usize, transposed: bool) -> (terms: Vec<
    Vec<Literal>,
>)
    requires
        line < size,
    ensures
        clause_views(terms@) == balance_terms(size as int, line as int, transposed, views(combos@)),
        terms_satisfy(clause_views(terms@), within(size as int)),
{
    let mut terms: Vec<Vec<Literal>> = Vec::new();
    let mut m: usize = 0;
    while m < combos.len()
        invariant
            m <= combos.len(),
            line < size,
            terms.len() == m,
            forall|k: int|
                0 <= k < m ==> (#[trigger] terms[k])@ == balance_term(
                    size as int,
                    line as int,
                    transposed,
                    combos[k]@,
                ),
        decreases combos.len() - m,
    {
        let mut term: Vec<Literal> = Vec::new();
        let mut pos: usize = 0;
        while pos < size
            invariant
                pos <= size,
                m < combos.len(),
                term.len() == pos,
                forall|q: int|
                    0 <= q < pos ==> #[trigger] term[q] == line_literal(
                        line as int,
                        q,
                        transposed,
                        combos[m as int]@.contains(q as usize),
                    ),
            decreases size - pos,
        {
            let positive = holds_position(&combos[m], pos);
            term.push(literal_on_line(line, pos, transposed, positive));
            pos += 1;
        }
        assert(term@ =~= balance_term(size as int, line as int, transposed, combos[m as int]@));
        terms.push(term);
        m += 1;
    }
    proof {
        assert(clause_views(terms@) =~= balance_terms(
            size as int,
            line as int,
            transposed,
            views(combos@),
        ));
        assert forall|t: int, j: int|
            0 <= t < clause_views(terms@).len() && 0 <= j < clause_views(
                terms@,
            )[t].len() implies within(size as int)(#[trigger] clause_views(terms@)[t][j]) by {
            assert(terms[t]@ == balance_term(size as int, line as int, transposed, combos[t]@));
        }
    }
    terms
}

/// Writes the balance clauses of one row, or of one column.
fn write_balance_line(
    out: &mut CNFFile,
    combos: &Vec<Vec<usize>>,
    line: usize,
    transposed: bool,
    Ghost(base): Ghost<Seq<Seq<Literal>>>,
    Ghost(built): Ghost<Seq<Seq<Literal>>>,
) -> (added: Ghost<Seq<Seq<Literal>>>)
    requires
        old(out).wf(),
        line < old(out).grid.size,
        views(combos@) == spec_combinations(
            old(out).grid.size as nat,
            (old(out).grid.size / 2) as nat,
        ),
        old(out).clause_seqs() == base + built.filter(accepted_by(old(out).grid)),
    ensures
        final(out).wf(),
        final(out).grid == old(out).grid,
        final(out).usable == old(out).usable,
        final(out).searched() == old(out).searched(),
        clause_sets(added@) == balance_sets(old(out).grid.size as int, line as int, transposed),
        final(out).clause_seqs() == base + (built + added@).filter(accepted_by(old(out).grid)),
{
    let size = out.grid.size;
    let terms = line_terms(combos, size, line, transposed);
    proof {
        lemma_combinations_len(0, size as nat, (size / 2) as nat);
        lemma_binomial_positive(size as nat, (size / 2) as nat);
        assert(clause_views(terms@).len() == views(combos@).len());
        assert(terms.len() == clause_views(terms@).len());
    }
    let clauses = literal_dnf_to_cnf(&terms, size);
    let ghost added = clause_views(clauses@);
    proof {
        Seq::filter_distributes_over_add(built, added, accepted_by(out.grid));
        assert(base + built.filter(accepted_by(out.grid)) + added.filter(accepted_by(out.grid))
            =~= base + (built.filter(accepted_by(out.grid)) + added.filter(
            accepted_by(out.grid),
        )));
    }
    out.push_multiple(clauses);
    Ghost(added)
}

/// Says that every row and every column holds as many true cells as false
/// ones. For each line, every way to choose the true half of its cells
/// gives a conjunctive term; the disjunction of these terms is converted
/// into clauses. The rows and columns are taken by number, each row before
/// the column of the same number.
///
/// A line of `n` cells gives `binomial(n, n / 2)` terms of `n` literals, and
/// so `n` to the power of `binomial(n, n / 2)` clauses: 4 for a side of two,
/// 4096 for a side of four.
pub fn write_rule_1(out: &mut CNFFile, grid: &Grid)
    requires
        old(out).wf(),
        grid.size == old(out).grid.size,
    ensures
        final(out).wf(),
        final(out).grid == old(out).grid,
        final(out).usable == old(out).usable,
        final(out).searched() == old(out).searched(),
        final(out).formula() == old(out).formula() + rule_1_sets(grid.size as int).filter(
            accepted_set_by(old(out).grid),
        ),
{
    let size = out.grid.size;
    let combos = combinations(size, size / 2);
    let ghost base = out.clause_seqs();
    let ghost mut built: Seq<Seq<Literal>> = Seq::empty();
    proof {
        crate::logic_utils::lemma_filter_empty(accepted_by(out.grid));
        assert(base + Seq::<Seq<Literal>>::empty() =~= base);
        assert(clause_sets(built) =~= balance_below(size as int, 0));
    }
    let mut line: usize = 0;
    while line < size
        invariant
            line <= size,
            size == out.grid.size,
            out.wf(),
            out.grid == old(out).grid,
            out.usable == old(out).usable,
            out.searched() == old(out).searched(),
            views(combos@) == spec_combinations(size as nat, (size / 2) as nat),
            clause_sets(built) == balance_below(size as int, line as int),
            out.clause_seqs() == base + built.filter(accepted_by(out.grid)),
        decreases size - line,
    {
        let row = write_balance_line(out, &combos, line, false, Ghost(base), Ghost(built));
        let column = write_balance_line(
            out,
            &combos,
            line,
            true,
            Ghost(base),
            Ghost(built + row@),
        );
        proof {
            lemma_sets_add(built, row@);
            lemma_sets_add(built + row@, column@);
            built = built + row@ + column@;
        }
        line += 1;
    }
    proof {
        lemma_sets_add(base, built.filter(accepted_by(out.grid)));
        lemma_sets_filter(built, out.grid);
    }
}

/// A literal of the template that compares two lines: position `pos` of the
/// first line, or of the second.
pub open spec fn template_literal(pos: int, second: bool, positive: bool) -> Literal {
    Literal {
        x: pos as usize,
        y: if second {
            1
        } else {
            0
        },
        negated: !positive,
    }
}

/// Term `t` of the template: the lines differ at position `t / 2`, the
/// first line holding true there for an even `t` and false for an odd one.
pub open spec fn template_term(t: int) -> Seq<Literal> {
    seq![
        template_literal(t / 2, false, t % 2 == 0),
        template_literal(t / 2, true, t % 2 != 0),
    ]
}

/// "The two lines differ", as a disjunction over the positions.
pub open spec fn template_dnf(size: int) -> Seq<Seq<Literal>> {
    Seq::new((2 * size) as nat, |t: int| template_term(t))
}

/// The clauses that say that the two lines of the template differ.
pub open spec fn template_cnf(size: int) -> Seq<Set<Literal>> {
    spec_dnf_to_cnf(template_dnf(size))
}

/// Puts rows `a` and `b` in place of the lines of the template, or columns
/// `a` and `b` when `transposed`.
pub open spec fn bind(a: int, b: int, transposed: bool) -> spec_fn(Literal) -> Literal {
    |l: Literal|
        line_literal(
            if l.y == 0 {
                a
            } else {
                b
            },
            l.x as int,
            transposed,
            !l.negated,
        )
}

/// The clauses that say that rows `a` and `b` differ, then those that say
/// that columns `a` and `b` differ.
pub open spec fn pair_sets(size: int, a: int, b: int) -> Seq<Set<Literal>> {
    map_clauses(template_cnf(size), bind(a, b, false)) + map_clauses(
        template_cnf(size),
        bind(a, b, true),
    )
}

/// The clauses for the first `p` pairs of lines.
pub open spec fn differ_below(size: int, p: int) -> Seq<Set<Literal>>
    decreases p,
{
    if p <= 0 {
        Seq::empty()
    } else {
        differ_below(size, p - 1) + pair_sets(
            size,
            spec_pairs(size)[p - 1].0,
            spec_pairs(size)[p - 1].1,
        )
    }
}

/// The clauses that say that no two rows are the same, and no two columns.
pub open spec fn rule_3_sets(size: int) -> Seq<Set<Literal>> {
    differ_below(size, spec_pairs(size).len() as int)
}

/// The terms of the template.
fn template_terms(size: usize) -> (terms: Vec<Vec<Literal>>)
    requires
        2 <= size,
        2 * size <= usize::MAX,
    ensures
        clause_views(terms@) == template_dnf(size as int),
        terms_satisfy(clause_views(terms@), within(size as int)),
{
    let mut terms: Vec<Vec<Literal>> = Vec::new();
    let mut pos: usize = 0;
    while pos < size
        invariant
            pos <= size,
            terms.len() == 2 * pos,
            forall|t: int| 0 <= t < terms.len() ==> (#[trigger] terms[t])@ == template_term(t),
        decreases size - pos,
    {
        let mut first: Vec<Literal> = Vec::new();
        first.push(Literal::new(pos, 0, true));
        first.push(Literal::new(pos, 1, false));
        let mut second: Vec<Literal> = Vec::new();
        second.push(Literal::new(pos, 0, false));
        second.push(Literal::new(pos, 1, true));
        assert(first@ =~= template_term(2 * pos));
        assert(second@ =~= template_term(2 * pos + 1));
        terms.push(first);
        terms.push(second);
        pos += 1;
    }
    proof {
        assert(clause_views(terms@) =~= template_dnf(size as int));
        assert forall|t: int, j: int|
            0 <= t < clause_views(terms@).len() && 0 <= j < clause_views(
                terms@,
            )[t].len() implies within(size as int)(#[trigger] clause_views(terms@)[t][j]) by {
            assert(terms[t]@ == template_term(t));
        }
    }
    terms
}

/// The clauses of the template with two rows, or two columns, in place of
/// its lines.
fn substitute(template: &Vec<Vec<Literal>>, a: usize, b: usize, transposed: bool, out: &mut Vec<
    Vec<Literal>,
>)
    ensures
        clause_views(final(out)@) == clause_views(old(out)@) + Seq::new(
            template.len() as nat,
            |i: int| template[i]@.map_values(bind(a as int, b as int, transposed)),
        ),
{
    let ghost before = clause_views(out@);
    let ghost f = bind(a as int, b as int, transposed);
    let mut i: usize = 0;
    assert(clause_views(out@) =~= before + Seq::new(0, |i: int| template[i]@.map_values(f)));
    while i < template.len()
        invariant
            i <= template.len(),
            f == bind(a as int, b as int, transposed),
            clause_views(out@) == before + Seq::new(
                i as nat,
                |k: int| template[k]@.map_values(f),
            ),
        decreases template.len() - i,
    {
        let clause = &template[i];
        let mut bound: Vec<Literal> = Vec::new();
        let mut j: usize = 0;
        while j < clause.len()
            invariant
                j <= clause.len(),
                f == bind(a as int, b as int, transposed),
                bound.len() == j,
                forall|k: int| 0 <= k < j ==> #[trigger] bound[k] == f(clause[k]),
            decreases clause.len() - j,
        {
            let l = clause[j];
            let line = if l.y == 0 {
                a
            } else {
                b
            };
            bound.push(literal_on_line(line, l.x, transposed, !l.negated));
            j += 1;
        }
        assert(bound@ =~= clause@.map_values(f));
        let ghost old_views = clause_views(out@);
        out.push(bound);
        assert(clause_views(out@) =~= old_views.push(clause@.map_values(f)));
        assert(before + Seq::new((i + 1) as nat, |k: int| template[k]@.map_values(f)) =~= (before
            + Seq::new(i as nat, |k: int| template[k]@.map_values(f))).push(
            clause@.map_values(f),
        ));
        i += 1;
    }
}

/// The sets of the substituted clauses are the clauses of the template
/// with the substitution applied.
proof fn lemma_substituted_sets(template: Seq<Vec<Literal>>, size: int, f: spec_fn(Literal) -> Literal)
    requires
        clause_sets(clause_views(template)) == template_cnf(size),
    ensures
        clause_sets(Seq::new(template.len(), |i: int| template[i]@.map_values(f))) == map_clauses(
            template_cnf(size),
            f,
        ),
{
    let left = clause_sets(Seq::new(template.len(), |i: int| template[i]@.map_values(f)));
    let right = map_clauses(template_cnf(size), f);
    assert(clause_sets(clause_views(template)).len() == template.len());
    assert forall|i: int| 0 <= i < left.len() implies left[i] == right[i] by {
        template[i]@.lemma_to_set_map_commutes(f);
        assert(clause_sets(clause_views(template))[i] == template[i]@.to_set());
    }
    assert(left =~= right);
}

/// Says that no two rows are the same, and no two columns. "The two lines
/// differ" is converted into clauses once, over the literals of a template;
/// then, for every pair of line numbers, the two rows are put in place of
/// the lines of the template, and then the two columns.
pub fn write_rule_3(out: &mut CNFFile, grid: &Grid)
    requires
        old(out).wf(),
        grid.size == old(out).grid.size,
    ensures
        final(out).wf(),
        final(out).grid == old(out).grid,
        final(out).usable == old(out).usable,
        final(out).searched() == old(out).searched(),
        final(out).formula() == old(out).formula() + rule_3_sets(grid.size as int).filter(
            accepted_set_by(old(out).grid),
        ),
{
    let size = out.grid.size;
    let ghost base = out.clause_seqs();
    let ghost mut built: Seq<Seq<Literal>> = Seq::empty();
    proof {
        crate::logic_utils::lemma_filter_empty(accepted_by(out.grid));
        assert(base + Seq::<Seq<Literal>>::empty() =~= base);
        assert(clause_sets(built) =~= differ_below(size as int, 0));
        crate::combinatorics::lemma_pairs_len(size as int);
    }
    if size >= 2 {
        assert(2 * size <= size * size) by (nonlinear_arith)
            requires
                size >= 2,
        ;
        let terms = template_terms(size);
        assert(terms.len() == clause_views(terms@).len());
        let template = literal_dnf_to_cnf(&terms, size);
        let mut indices: Vec<usize> = Vec::new();
        let mut i: usize = 0;
        while i < size
            invariant
                i <= size,
                indices.len() == i,
                forall|k: int| 0 <= k < i ==> indices[k] == k,
            decreases size - i,
        {
            indices.push(i);
            i += 1;
        }
        let all_pairs = pairs(indices.as_slice());
        let mut p: usize = 0;
        while p < all_pairs.len()
            invariant
                p <= all_pairs.len(),
                size == out.grid.size,
                size >= 2,
                indices.len() == size,
                forall|k: int| 0 <= k < size ==> indices[k] == k,
                all_pairs.len() == spec_pairs(size as int).len(),
                forall|k: int|
                    0 <= k < all_pairs.len() ==> #[trigger] holds_pair(
                        all_pairs[k],
                        indices@,
                        spec_pairs(size as int)[k],
                    ),
                clause_sets(clause_views(template@)) == template_cnf(size as int),
                forall|k: int|
                    0 <= k < template.len() ==> clause_in_grid(
                        (#[trigger] template[k])@,
                        size as int,
                    ),
                out.wf(),
                out.grid == old(out).grid,
                out.usable == old(out).usable,
                out.searched() == old(out).searched(),
                clause_sets(built) == differ_below(size as int, p as int),
                out.clause_seqs() == base + built.filter(accepted_by(out.grid)),
            decreases all_pairs.len() - p,
        {
            assert(holds_pair(all_pairs[p as int], indices@, spec_pairs(size as int)[p as int]));
            let a: usize = *all_pairs[p].0;
            let b: usize = *all_pairs[p].1;
            let mut bound: Vec<Vec<Literal>> = Vec::new();
            substitute(&template, a, b, false, &mut bound);
            substitute(&template, a, b, true, &mut bound);
            let ghost rows = Seq::new(
                template.len() as nat,
                |i: int| template[i]@.map_values(bind(a as int, b as int, false)),
            );
            let ghost columns = Seq::new(
                template.len() as nat,
                |i: int| template[i]@.map_values(bind(a as int, b as int, true)),
            );
            proof {
                assert(clause_views(Seq::<Vec<Literal>>::empty()) =~= Seq::empty());
                assert(clause_views(bound@) =~= rows + columns);
                assert forall|k: int| 0 <= k < bound.len() implies clause_in_grid(
                    (#[trigger] bound[k])@,
                    size as int,
                ) by {
                    assert(bound[k]@ == clause_views(bound@)[k]);
                    let source = if k < template.len() {
                        template[k]@
                    } else {
                        template[k - template.len()]@
                    };
                    assert(clause_in_grid(source, size as int));
                    assert forall|j: int| 0 <= j < bound[k]@.len() implies (#[trigger] bound[k]@[j]).in_grid(
                        size as int,
                    ) by {
                        assert(source[j].in_grid(size as int));
                    }
                }
                lemma_substituted_sets(template@, size as int, bind(a as int, b as int, false));
                lemma_substituted_sets(template@, size as int, bind(a as int, b as int, true));
                lemma_sets_add(rows, columns);
                lemma_sets_add(built, rows + columns);
                Seq::filter_distributes_over_add(built, rows + columns, accepted_by(out.grid));
                assert(base + built.filter(accepted_by(out.grid)) + (rows + columns).filter(
                    accepted_by(out.grid),
                ) =~= base + (built.filter(accepted_by(out.grid)) + (rows + columns).filter(
                    accepted_by(out.grid),
                )));
            }
            out.push_multiple(bound);
            proof {
                built = built + (rows + columns);
            }
            p += 1;
        }
    }
    proof {
        assert(clause_sets(built) == rule_3_sets(size as int)) by {
            if size < 2 {
                assert(size * (size - 1) == 0) by (nonlinear_arith)
                    requires
                        0 <= size < 2,
                ;
            }
        }
        lemma_sets_add(base, built.filter(accepted_by(out.grid)));
        lemma_sets_filter(built, out.grid);
    }
}

/// The sets of the clauses of the second rule.
pub open spec fn rule_2_sets(size: int) -> Seq<Set<Literal>> {
    clause_sets(rule_2_clauses(size))
}

/// The clauses of the first two rules.
pub open spec fn first_rules_sets(size: int) -> Seq<Set<Literal>> {
    rule_1_sets(size) + rule_2_sets(size)
}

/// The clauses of the three rules.
pub open spec fn all_rules_sets(size: int) -> Seq<Set<Literal>> {
    rule_1_sets(size) + rule_2_sets(size) + rule_3_sets(size)
}

/// Writes the three rules, in their order. Between the second and the third
/// the solver is asked once, so that it can work on the smaller formula
/// first; when that search fails, the third rule is not written and the
/// failure is returned. A solver that has met an unrecoverable error is not
/// asked, and that is the failure returned.
pub fn write_all(out: &mut CNFFile, grid: &Grid) -> (r: Result<(), SolveError>)
    requires
        old(out).wf(),
        grid.size == old(out).grid.size,
    ensures
        final(out).wf(),
        final(out).grid == old(out).grid,
        r is Ok ==> final(out).formula() == old(out).formula() + all_rules_sets(
            grid.size as int,
        ).filter(accepted_set_by(old(out).grid)),
        r is Err ==> final(out).formula() == old(out).formula() + first_rules_sets(
            grid.size as int,
        ).filter(accepted_set_by(old(out).grid)),
        !old(out).usable ==> r is Err,
        r is Ok ==> final(out).usable,
        r == Err::<(), SolveError>(SolveError::Interrupted) ==> final(out).usable,
        r == Err::<(), SolveError>(SolveError::Unrecoverable) ==> !final(out).usable,
        final(out).searched() == (old(out).searched() || old(out).usable),
{
    let ghost size = grid.size as int;
    let ghost q = accepted_set_by(out.grid);
    let ghost start = out.formula();
    write_rule_1(out, grid);
    let ghost seqs_1 = out.clause_seqs();
    write_rule_2(out, grid);
    proof {
        let added = rule_2_clauses(size).filter(accepted_by(out.grid));
        lemma_sets_add(seqs_1, added);
        lemma_sets_filter(rule_2_clauses(size), out.grid);
        Seq::filter_distributes_over_add(rule_1_sets(size), rule_2_sets(size), q);
        assert(out.formula() =~= start + first_rules_sets(size).filter(q));
    }
    let answer = out.solve();
    match answer {
        Err(e) => Err(e),
        Ok(_) => {
            write_rule_3(out, grid);
            proof {
                Seq::filter_distributes_over_add(first_rules_sets(size), rule_3_sets(size), q);
                assert(out.formula() =~= start + all_rules_sets(size).filter(q));
            }
            Ok(())
        },
    }
}

} // verus!
