//! What a solved grid is, and the proof that the clauses of the three rules
//! hold in every solved grid.

use crate::cnf::{accepted_set_by, clause_sets, Literal};
use crate::combinatorics::{
    is_combination, lemma_binomial_positive, lemma_combinations_complete, lemma_combinations_len,
    lemma_combinations_valid, lemma_pairs_complete, spec_combinations, spec_pairs,
};
use crate::grid::{lemma_index_in_range, Cell, Grid};
use crate::logic_utils::{
    clause_holds, cnf_holds, dnf_holds, lemma_dnf_to_cnf_equivalent, map_clauses, term_holds,
    Valuation,
};
use crate::rules::{
    all_rules_sets, balance_below, balance_dnf, balance_sets, balance_term, bind, differ_below,
    line_literal, line_windows, pair_sets, rule_1_sets, rule_2_sets, rule_3_sets,
    template_cnf, template_dnf, template_literal, template_term, window_clause, windows_below,
};
use vstd::prelude::*;

verus! {

/// The cell at position `pos` of row `line`, or of column `line` when
/// `transposed`.
pub open spec fn line_cell(grid: Grid, line: int, pos: int, transposed: bool) -> Cell {
    if transposed {
        grid.spec_get(line, pos)
    } else {
        grid.spec_get(pos, line)
    }
}

/// No cell is empty.
pub open spec fn is_full(grid: Grid) -> bool {
    forall|i: int| 0 <= i < grid.inner.len() ==> #[trigger] grid.inner[i] != Cell::Empty
}

/// The positions before `upto` at which a line holds a true cell, in
/// ascending order.
pub open spec fn true_positions(grid: Grid, line: int, transposed: bool, upto: int) -> Seq<usize>
    decreases upto,
{
    if upto <= 0 {
        Seq::empty()
    } else if line_cell(grid, line, upto - 1, transposed) == Cell::Filled(true) {
        true_positions(grid, line, transposed, upto - 1).push((upto - 1) as usize)
    } else {
        true_positions(grid, line, transposed, upto - 1)
    }
}

/// Half of the cells of every row and of every column are true.
pub open spec fn is_balanced(grid: Grid) -> bool {
    forall|line: int, transposed: bool|
        0 <= line < grid.size ==> (#[trigger] true_positions(
            grid,
            line,
            transposed,
            grid.size as int,
        )).len() == grid.size / 2
}

/// The three cells of a line from position `start` on are equal.
pub open spec fn is_triple(grid: Grid, line: int, start: int, transposed: bool) -> bool {
    line_cell(grid, line, start, transposed) == line_cell(grid, line, start + 1, transposed)
        && line_cell(grid, line, start + 1, transposed) == line_cell(
        grid,
        line,
        start + 2,
        transposed,
    )
}

/// No row and no column holds three equal cells side by side.
pub open spec fn has_no_triple(grid: Grid) -> bool {
    forall|line: int, start: int, transposed: bool|
        0 <= line < grid.size && 0 <= start && start + 2 < grid.size ==> !#[trigger] is_triple(
            grid,
            line,
            start,
            transposed,
        )
}

/// Two rows, or two columns, differ at some position.
pub open spec fn lines_differ(grid: Grid, a: int, b: int, transposed: bool) -> bool {
    exists|pos: int|
        0 <= pos < grid.size && #[trigger] line_cell(grid, a, pos, transposed) != line_cell(
            grid,
            b,
            pos,
            transposed,
        )
}

/// No two rows are the same, and no two columns.
pub open spec fn has_distinct_lines(grid: Grid) -> bool {
    forall|a: int, b: int, transposed: bool|
        0 <= a < b < grid.size ==> #[trigger] lines_differ(grid, a, b, transposed)
}

/// A solved grid: full, and in keeping with the three rules.
pub open spec fn is_solution(grid: Grid) -> bool {
    &&& grid.wf()
    &&& is_full(grid)
    &&& is_balanced(grid)
    &&& has_no_triple(grid)
    &&& has_distinct_lines(grid)
}

/// The truth assignment that a grid gives: a literal holds when the grid has
/// its cell filled with the value that the literal states.
pub open spec fn holds_in(grid: Grid) -> Valuation<Literal> {
    |l: Literal| grid.fixes(l)
}

/// In a full grid, the literal for a position of a line holds exactly when
/// the cell there has the stated value, and every cell has a value.
pub proof fn lemma_line_literal(grid: Grid, line: int, pos: int, transposed: bool, positive: bool)
    requires
        grid.wf(),
        is_full(grid),
        0 <= line < grid.size,
        0 <= pos < grid.size,
    ensures
        grid.fixes(line_literal(line, pos, transposed, positive)) <==> line_cell(
            grid,
            line,
            pos,
            transposed,
        ) == Cell::Filled(positive),
        line_cell(grid, line, pos, transposed) == Cell::Filled(true) || line_cell(
            grid,
            line,
            pos,
            transposed,
        ) == Cell::Filled(false),
{
    let size = grid.size as int;
    lemma_index_in_range(line, pos, size);
    lemma_index_in_range(pos, line, size);
    let cell = line_cell(grid, line, pos, transposed);
    if transposed {
        assert(cell == grid.inner[pos * size + line]);
    } else {
        assert(cell == grid.inner[line * size + pos]);
    }
    assert(cell != Cell::Empty);
    match cell {
        Cell::Filled(value) => {},
        Cell::Empty => {},
    }
}

/// A conjunction of two parts holds when both parts hold.
pub proof fn lemma_cnf_holds_add(a: Seq<Set<Literal>>, b: Seq<Set<Literal>>, v: Valuation<Literal>)
    requires
        cnf_holds(a, v),
        cnf_holds(b, v),
    ensures
        cnf_holds(a + b, v),
{
    assert forall|i: int| 0 <= i < (a + b).len() implies clause_holds(#[trigger] (a + b)[i], v) by {
        if i < a.len() {
            assert((a + b)[i] == a[i]);
        } else {
            assert((a + b)[i] == b[i - a.len()]);
        }
    }
}

/// The window clauses of the lines before `n` hold in a solved grid.
pub proof fn lemma_windows_sound(sol: Grid, n: int, transposed: bool)
    requires
        is_solution(sol),
        0 <= n <= sol.size,
    ensures
        cnf_holds(clause_sets(windows_below(sol.size as int, n, transposed)), holds_in(sol)),
    decreases n,
{
    let size = sol.size as int;
    let v = holds_in(sol);
    if n > 0 {
        lemma_windows_sound(sol, n - 1, transposed);
        let line = n - 1;
        let row = line_windows(size, line, transposed);
        assert forall|q: int| 0 <= q < row.len() implies clause_holds(
            #[trigger] clause_sets(row)[q],
            v,
        ) by {
            let start = q / 2;
            let positive = q % 2 == 1;
            let clause = window_clause(line, start, transposed, positive);
            assert(row[q] == clause);
            lemma_line_literal(sol, line, start, transposed, positive);
            lemma_line_literal(sol, line, start + 1, transposed, positive);
            lemma_line_literal(sol, line, start + 2, transposed, positive);
            let c0 = line_cell(sol, line, start, transposed);
            let c1 = line_cell(sol, line, start + 1, transposed);
            let c2 = line_cell(sol, line, start + 2, transposed);
            assert(!is_triple(sol, line, start, transposed));
            let k = if c0 == Cell::Filled(positive) {
                0int
            } else if c1 == Cell::Filled(positive) {
                1int
            } else {
                2int
            };
            assert(c0 == Cell::Filled(positive) || c1 == Cell::Filled(positive) || c2
                == Cell::Filled(positive));
            let l = clause[k];
            assert(clause.to_set().contains(l));
            assert(v(l));
        }
        crate::cnf::lemma_sets_add(windows_below(size, n - 1, transposed), row);
        lemma_cnf_holds_add(
            clause_sets(windows_below(size, n - 1, transposed)),
            clause_sets(row),
            v,
        );
    }
}

/// The clauses that forbid three equal neighbours hold in every solved grid.
pub proof fn lemma_rule_2_sound(sol: Grid)
    requires
        is_solution(sol),
    ensures
        cnf_holds(rule_2_sets(sol.size as int), holds_in(sol)),
{
    let size = sol.size as int;
    lemma_windows_sound(sol, size, true);
    lemma_windows_sound(sol, size, false);
    crate::cnf::lemma_sets_add(windows_below(size, size, true), windows_below(size, size, false));
    lemma_cnf_holds_add(
        clause_sets(windows_below(size, size, true)),
        clause_sets(windows_below(size, size, false)),
        holds_in(sol),
    );
}

/// The true positions of a line ascend, lie before `upto`, and are the
/// positions of its true cells.
pub proof fn lemma_true_positions(grid: Grid, line: int, transposed: bool, upto: int)
    requires
        0 <= upto <= usize::MAX,
    ensures
        is_combination(
            true_positions(grid, line, transposed, upto),
            0,
            upto,
            true_positions(grid, line, transposed, upto).len() as int,
        ),
        forall|pos: usize|
            true_positions(grid, line, transposed, upto).contains(pos) <==> (pos < upto
                && line_cell(grid, line, pos as int, transposed) == Cell::Filled(true)),
    decreases upto,
{
    if upto > 0 {
        lemma_true_positions(grid, line, transposed, upto - 1);
        let rest = true_positions(grid, line, transposed, upto - 1);
        let c = true_positions(grid, line, transposed, upto);
        if line_cell(grid, line, upto - 1, transposed) == Cell::Filled(true) {
            let last = (upto - 1) as usize;
            assert(c == rest.push(last));
            assert forall|pos: usize| c.contains(pos) <==> (pos < upto && line_cell(
                grid,
                line,
                pos as int,
                transposed,
            ) == Cell::Filled(true)) by {
                if c.contains(pos) {
                    let i = choose|i: int| 0 <= i < c.len() && c[i] == pos;
                    if i < rest.len() {
                        assert(rest[i] == pos);
                        assert(rest.contains(pos));
                    }
                }
                if pos < upto && line_cell(grid, line, pos as int, transposed) == Cell::Filled(
                    true,
                ) {
                    if pos == last {
                        assert(c[rest.len() as int] == pos);
                    } else {
                        assert(rest.contains(pos));
                        let i = choose|i: int| 0 <= i < rest.len() && rest[i] == pos;
                        assert(c[i] == pos);
                    }
                }
            }
        } else {
            assert(c == rest);
        }
    }
}

/// The balance clauses of a line hold in a solved grid.
pub proof fn lemma_balance_line_sound(sol: Grid, line: int, transposed: bool)
    requires
        is_solution(sol),
        0 <= line < sol.size,
    ensures
        cnf_holds(balance_sets(sol.size as int, line, transposed), holds_in(sol)),
{
    let size = sol.size as int;
    let v = holds_in(sol);
    let c = true_positions(sol, line, transposed, size);
    lemma_true_positions(sol, line, transposed, size);
    assert(c.len() == size / 2);
    lemma_combinations_complete(0, size as nat, (size / 2) as nat, c);
    let combos = spec_combinations(size as nat, (size / 2) as nat);
    let m = choose|m: int| 0 <= m < combos.len() && combos[m] == c;
    let dnf = balance_dnf(size, line, transposed);
    let term = balance_term(size, line, transposed, c);
    assert(dnf[m] == term);
    assert forall|pos: int| 0 <= pos < term.len() implies v(#[trigger] term[pos]) by {
        lemma_line_literal(sol, line, pos, transposed, c.contains(pos as usize));
    }
    assert(term_holds(dnf[m], v));
    assert(dnf_holds(dnf, v));
    lemma_dnf_to_cnf_equivalent(dnf, v);
}

/// The balance clauses of the lines before `n` hold in a solved grid.
pub proof fn lemma_balance_sound(sol: Grid, n: int)
    requires
        is_solution(sol),
        0 <= n <= sol.size,
    ensures
        cnf_holds(balance_below(sol.size as int, n), holds_in(sol)),
    decreases n,
{
    let size = sol.size as int;
    if n > 0 {
        lemma_balance_sound(sol, n - 1);
        lemma_balance_line_sound(sol, n - 1, false);
        lemma_balance_line_sound(sol, n - 1, true);
        lemma_cnf_holds_add(
            balance_below(size, n - 1),
            balance_sets(size, n - 1, false),
            holds_in(sol),
        );
        lemma_cnf_holds_add(
            balance_below(size, n - 1) + balance_sets(size, n - 1, false),
            balance_sets(size, n - 1, true),
            holds_in(sol),
        );
    }
}

/// The clauses that say that two lines differ hold in a solved grid.
pub proof fn lemma_pair_sound(sol: Grid, a: int, b: int, transposed: bool)
    requires
        is_solution(sol),
        0 <= a < b < sol.size,
    ensures
        cnf_holds(map_clauses(template_cnf(sol.size as int), bind(a, b, transposed)), holds_in(sol)),
{
    let size = sol.size as int;
    let v = holds_in(sol);
    let f = bind(a, b, transposed);
    let w = |l: Literal| v(f(l));
    assert(lines_differ(sol, a, b, transposed));
    let pos = choose|pos: int|
        0 <= pos < sol.size && #[trigger] line_cell(sol, a, pos, transposed) != line_cell(
            sol,
            b,
            pos,
            transposed,
        );
    lemma_line_literal(sol, a, pos, transposed, true);
    lemma_line_literal(sol, a, pos, transposed, false);
    lemma_line_literal(sol, b, pos, transposed, true);
    lemma_line_literal(sol, b, pos, transposed, false);
    let dnf = template_dnf(size);
    let t = if line_cell(sol, a, pos, transposed) == Cell::Filled(true) {
        2 * pos
    } else {
        2 * pos + 1
    };
    let term = template_term(t);
    assert(dnf[t] == term);
    assert(t / 2 == pos);
    assert forall|j: int| 0 <= j < term.len() implies w(#[trigger] term[j]) by {
        if j == 0 {
            assert(term[0] == template_literal(pos, false, t % 2 == 0));
            assert(f(term[0]) == line_literal(a, pos, transposed, t % 2 == 0));
        } else {
            assert(term[1] == template_literal(pos, true, t % 2 != 0));
            assert(f(term[1]) == line_literal(b, pos, transposed, t % 2 != 0));
        }
    }
    assert(term_holds(dnf[t], w));
    assert(dnf_holds(dnf, w));
    lemma_dnf_to_cnf_equivalent(dnf, w);
    let cnf = template_cnf(size);
    let bound = map_clauses(cnf, f);
    assert forall|i: int| 0 <= i < bound.len() implies clause_holds(#[trigger] bound[i], v) by {
        assert(clause_holds(cnf[i], w));
        let l = choose|l: Literal| cnf[i].contains(l) && #[trigger] w(l);
        assert(bound[i].contains(f(l)));
        assert(v(f(l)));
    }
}

/// The clauses for the first `p` pairs of lines hold in a solved grid.
pub proof fn lemma_differ_sound(sol: Grid, p: int)
    requires
        is_solution(sol),
        0 <= p <= spec_pairs(sol.size as int).len(),
    ensures
        cnf_holds(differ_below(sol.size as int, p), holds_in(sol)),
    decreases p,
{
    let size = sol.size as int;
    if p > 0 {
        lemma_differ_sound(sol, p - 1);
        crate::combinatorics::lemma_pairs_valid(size, size, p - 1);
        let a = spec_pairs(size)[p - 1].0;
        let b = spec_pairs(size)[p - 1].1;
        lemma_pair_sound(sol, a, b, false);
        lemma_pair_sound(sol, a, b, true);
        lemma_cnf_holds_add(
            map_clauses(template_cnf(size), bind(a, b, false)),
            map_clauses(template_cnf(size), bind(a, b, true)),
            holds_in(sol),
        );
        lemma_cnf_holds_add(differ_below(size, p - 1), pair_sets(size, a, b), holds_in(sol));
    }
}

/// The encoding is sound: every clause of the three rules holds in every
/// solved grid.
pub proof fn lemma_rules_sound(sol: Grid)
    requires
        is_solution(sol),
    ensures
        cnf_holds(rule_1_sets(sol.size as int), holds_in(sol)),
        cnf_holds(rule_2_sets(sol.size as int), holds_in(sol)),
        cnf_holds(rule_3_sets(sol.size as int), holds_in(sol)),
        cnf_holds(all_rules_sets(sol.size as int), holds_in(sol)),
{
    let size = sol.size as int;
    lemma_balance_sound(sol, size);
    lemma_rule_2_sound(sol);
    lemma_differ_sound(sol, spec_pairs(size).len() as int);
    lemma_cnf_holds_add(rule_1_sets(size), rule_2_sets(size), holds_in(sol));
    lemma_cnf_holds_add(rule_1_sets(size) + rule_2_sets(size), rule_3_sets(size), holds_in(sol));
}

/// So is what an accumulator keeps of them: every clause of the three rules
/// that the accumulator of any puzzle of the same side accepts holds in
/// every solved grid.
pub proof fn lemma_accepted_rules_sound(sol: Grid, puzzle: Grid)
    requires
        is_solution(sol),
    ensures
        cnf_holds(
            all_rules_sets(sol.size as int).filter(accepted_set_by(puzzle)),
            holds_in(sol),
        ),
{
    let all = all_rules_sets(sol.size as int);
    let kept = all.filter(accepted_set_by(puzzle));
    lemma_rules_sound(sol);
    assert forall|i: int| 0 <= i < kept.len() implies clause_holds(
        #[trigger] kept[i],
        holds_in(sol),
    ) by {
        assert(kept.contains(kept[i]));
        all.lemma_filter_contains_rev(accepted_set_by(puzzle), kept[i]);
        let k = choose|k: int| 0 <= k < all.len() && all[k] == kept[i];
        assert(clause_holds(all[k], holds_in(sol)));
    }
}

/// When a conjunction of two parts holds, both parts hold.
pub proof fn lemma_cnf_holds_parts(a: Seq<Set<Literal>>, b: Seq<Set<Literal>>, v: Valuation<Literal>)
    requires
        cnf_holds(a + b, v),
    ensures
        cnf_holds(a, v),
        cnf_holds(b, v),
{
    assert forall|i: int| 0 <= i < a.len() implies clause_holds(#[trigger] a[i], v) by {
        assert((a + b)[i] == a[i]);
    }
    assert forall|i: int| 0 <= i < b.len() implies clause_holds(#[trigger] b[i], v) by {
        assert((a + b)[i + a.len()] == b[i]);
    }
}

/// A full grid in which the window clauses of the lines before `n` hold has
/// no three equal neighbours in these lines.
pub proof fn lemma_windows_complete(grid: Grid, n: int, transposed: bool, line: int, start: int)
    requires
        grid.wf(),
        is_full(grid),
        0 <= line < n <= grid.size,
        0 <= start,
        start + 2 < grid.size,
        cnf_holds(clause_sets(windows_below(grid.size as int, n, transposed)), holds_in(grid)),
    ensures
        !is_triple(grid, line, start, transposed),
    decreases n,
{
    let size = grid.size as int;
    let v = holds_in(grid);
    let row = line_windows(size, n - 1, transposed);
    crate::cnf::lemma_sets_add(windows_below(size, n - 1, transposed), row);
    lemma_cnf_holds_parts(
        clause_sets(windows_below(size, n - 1, transposed)),
        clause_sets(row),
        v,
    );
    if line < n - 1 {
        lemma_windows_complete(grid, n - 1, transposed, line, start);
    } else {
        lemma_line_literal(grid, line, start, transposed, true);
        lemma_line_literal(grid, line, start + 1, transposed, true);
        lemma_line_literal(grid, line, start + 2, transposed, true);
        lemma_line_literal(grid, line, start, transposed, false);
        lemma_line_literal(grid, line, start + 1, transposed, false);
        lemma_line_literal(grid, line, start + 2, transposed, false);
        let negative = window_clause(line, start, transposed, false);
        let positive = window_clause(line, start, transposed, true);
        assert(row[2 * start] == negative);
        assert(row[2 * start + 1] == positive);
        assert(clause_holds(clause_sets(row)[2 * start], v));
        assert(clause_holds(clause_sets(row)[2 * start + 1], v));
        let l0 = choose|l: Literal| negative.to_set().contains(l) && #[trigger] v(l);
        let k0 = choose|k: int| 0 <= k < negative.len() && negative[k] == l0;
        let l1 = choose|l: Literal| positive.to_set().contains(l) && #[trigger] v(l);
        let k1 = choose|k: int| 0 <= k < positive.len() && positive[k] == l1;
        assert(line_cell(grid, line, start + k0, transposed) == Cell::Filled(false));
        assert(line_cell(grid, line, start + k1, transposed) == Cell::Filled(true));
    }
}

/// Two ascending sequences that hold the same indices are equally long.
pub proof fn lemma_same_members(a: Seq<usize>, b: Seq<usize>, n: int)
    requires
        is_combination(a, 0, n, a.len() as int),
        is_combination(b, 0, n, b.len() as int),
        forall|x: usize| a.contains(x) <==> b.contains(x),
    ensures
        a.len() == b.len(),
    decreases a.len(),
{
    if a.len() == 0 {
        if b.len() > 0 {
            assert(b.contains(b[0]));
        }
    } else if b.len() == 0 {
        assert(a.contains(a[0]));
    } else {
        let x = a.last();
        let y = b.last();
        assert(a.contains(x));
        assert(b.contains(y));
        let i = choose|i: int| 0 <= i < b.len() && b[i] == x;
        let j = choose|j: int| 0 <= j < a.len() && a[j] == y;
        assert(x == y) by {
            if i < b.len() - 1 {
                assert(b[i] < b[b.len() - 1]);
            }
            if j < a.len() - 1 {
                assert(a[j] < a[a.len() - 1]);
            }
        }
        let a2 = a.drop_last();
        let b2 = b.drop_last();
        assert forall|z: usize| a2.contains(z) <==> b2.contains(z) by {
            if a2.contains(z) {
                let k = choose|k: int| 0 <= k < a2.len() && a2[k] == z;
                assert(a[k] == z);
                assert(a[k] < a[a.len() - 1]);
                assert(a.contains(z));
                let m = choose|m: int| 0 <= m < b.len() && b[m] == z;
                assert(b2[m] == z);
            }
            if b2.contains(z) {
                let k = choose|k: int| 0 <= k < b2.len() && b2[k] == z;
                assert(b[k] == z);
                assert(b[k] < b[b.len() - 1]);
                assert(b.contains(z));
                let m = choose|m: int| 0 <= m < a.len() && a[m] == z;
                assert(a2[m] == z);
            }
        }
        lemma_same_members(a2, b2, n);
    }
}

/// A full grid in which the balance clauses of a line hold has as many true
/// cells as false ones in that line.
pub proof fn lemma_balance_line_complete(grid: Grid, line: int, transposed: bool)
    requires
        grid.wf(),
        is_full(grid),
        0 <= line < grid.size,
        cnf_holds(balance_sets(grid.size as int, line, transposed), holds_in(grid)),
    ensures
        true_positions(grid, line, transposed, grid.size as int).len() == grid.size / 2,
{
    let size = grid.size as int;
    let v = holds_in(grid);
    let dnf = balance_dnf(size, line, transposed);
    let combos = spec_combinations(size as nat, (size / 2) as nat);
    lemma_combinations_len(0, size as nat, (size / 2) as nat);
    lemma_binomial_positive(size as nat, (size / 2) as nat);
    lemma_dnf_to_cnf_equivalent(dnf, v);
    let m = choose|m: int| 0 <= m < dnf.len() && term_holds(#[trigger] dnf[m], v);
    let c = combos[m];
    lemma_combinations_valid(0, size as nat, (size / 2) as nat, m);
    let t = true_positions(grid, line, transposed, size);
    lemma_true_positions(grid, line, transposed, size);
    let term = balance_term(size, line, transposed, c);
    assert(dnf[m] == term);
    assert forall|x: usize| c.contains(x) <==> t.contains(x) by {
        if c.contains(x) {
            let i = choose|i: int| 0 <= i < c.len() && c[i] == x;
            assert(c[i] < size);
        }
        if x < size {
            lemma_line_literal(grid, line, x as int, transposed, c.contains(x));
            assert(v(term[x as int]));
        }
    }
    lemma_same_members(c, t, size);
}

/// A full grid in which the balance clauses of the lines before `n` hold is
/// balanced in these lines.
pub proof fn lemma_balance_complete(grid: Grid, n: int, line: int, transposed: bool)
    requires
        grid.wf(),
        is_full(grid),
        0 <= line < n <= grid.size,
        cnf_holds(balance_below(grid.size as int, n), holds_in(grid)),
    ensures
        true_positions(grid, line, transposed, grid.size as int).len() == grid.size / 2,
    decreases n,
{
    let size = grid.size as int;
    let v = holds_in(grid);
    lemma_cnf_holds_parts(
        balance_below(size, n - 1) + balance_sets(size, n - 1, false),
        balance_sets(size, n - 1, true),
        v,
    );
    lemma_cnf_holds_parts(balance_below(size, n - 1), balance_sets(size, n - 1, false), v);
    if line < n - 1 {
        lemma_balance_complete(grid, n - 1, line, transposed);
    } else {
        lemma_balance_line_complete(grid, line, transposed);
    }
}

/// A full grid in which the clauses for a pair of lines hold has these
/// lines differ.
pub proof fn lemma_pair_complete(grid: Grid, a: int, b: int, transposed: bool)
    requires
        grid.wf(),
        is_full(grid),
        0 <= a < b < grid.size,
        cnf_holds(
            map_clauses(template_cnf(grid.size as int), bind(a, b, transposed)),
            holds_in(grid),
        ),
    ensures
        lines_differ(grid, a, b, transposed),
{
    let size = grid.size as int;
    let v = holds_in(grid);
    let f = bind(a, b, transposed);
    let w = |l: Literal| v(f(l));
    let cnf = template_cnf(size);
    let bound = map_clauses(cnf, f);
    let dnf = template_dnf(size);
    assert forall|i: int| 0 <= i < cnf.len() implies clause_holds(#[trigger] cnf[i], w) by {
        assert(clause_holds(bound[i], v));
        let l = choose|l: Literal| bound[i].contains(l) && #[trigger] v(l);
        let x = choose|x: Literal| cnf[i].contains(x) && l == f(x);
        assert(cnf[i].contains(x) && w(x));
    }
    lemma_dnf_to_cnf_equivalent(dnf, w);
    let t = choose|t: int| 0 <= t < dnf.len() && term_holds(#[trigger] dnf[t], w);
    let term = template_term(t);
    assert(dnf[t] == term);
    let pos = t / 2;
    assert(w(term[0]));
    assert(w(term[1]));
    assert(f(term[0]) == line_literal(a, pos, transposed, t % 2 == 0));
    assert(f(term[1]) == line_literal(b, pos, transposed, t % 2 != 0));
    lemma_line_literal(grid, a, pos, transposed, t % 2 == 0);
    lemma_line_literal(grid, b, pos, transposed, t % 2 != 0);
    assert(line_cell(grid, a, pos, transposed) != line_cell(grid, b, pos, transposed));
}

/// A full grid in which the clauses for the first `p` pairs of lines hold
/// has each of these pairs differ.
pub proof fn lemma_differ_complete(grid: Grid, p: int, k: int, transposed: bool)
    requires
        grid.wf(),
        is_full(grid),
        0 <= k < p <= spec_pairs(grid.size as int).len(),
        cnf_holds(differ_below(grid.size as int, p), holds_in(grid)),
    ensures
        lines_differ(
            grid,
            spec_pairs(grid.size as int)[k].0,
            spec_pairs(grid.size as int)[k].1,
            transposed,
        ),
    decreases p,
{
    let size = grid.size as int;
    let v = holds_in(grid);
    let a = spec_pairs(size)[p - 1].0;
    let b = spec_pairs(size)[p - 1].1;
    lemma_cnf_holds_parts(differ_below(size, p - 1), pair_sets(size, a, b), v);
    if k < p - 1 {
        lemma_differ_complete(grid, p - 1, k, transposed);
    } else {
        crate::combinatorics::lemma_pairs_valid(size, size, p - 1);
        lemma_cnf_holds_parts(
            map_clauses(template_cnf(size), bind(a, b, false)),
            map_clauses(template_cnf(size), bind(a, b, true)),
            v,
        );
        lemma_pair_complete(grid, a, b, transposed);
    }
}

/// The encoding is complete: a full grid in which every clause of the three
/// rules holds is a solved grid.
pub proof fn lemma_rules_complete(grid: Grid)
    requires
        grid.wf(),
        is_full(grid),
        cnf_holds(all_rules_sets(grid.size as int), holds_in(grid)),
    ensures
        is_solution(grid),
{
    let size = grid.size as int;
    let v = holds_in(grid);
    lemma_cnf_holds_parts(rule_1_sets(size) + rule_2_sets(size), rule_3_sets(size), v);
    lemma_cnf_holds_parts(rule_1_sets(size), rule_2_sets(size), v);
    crate::cnf::lemma_sets_add(windows_below(size, size, true), windows_below(size, size, false));
    lemma_cnf_holds_parts(
        clause_sets(windows_below(size, size, true)),
        clause_sets(windows_below(size, size, false)),
        v,
    );
    assert forall|line: int, transposed: bool| 0 <= line < grid.size implies (#[trigger] true_positions(
        grid,
        line,
        transposed,
        grid.size as int,
    )).len() == grid.size / 2 by {
        lemma_balance_complete(grid, size, line, transposed);
    }
    assert forall|line: int, start: int, transposed: bool|
        0 <= line < grid.size && 0 <= start && start + 2 < grid.size implies !#[trigger] is_triple(
        grid,
        line,
        start,
        transposed,
    ) by {
        lemma_windows_complete(grid, size, transposed, line, start);
    }
    assert forall|a: int, b: int, transposed: bool| 0 <= a < b < grid.size implies #[trigger] lines_differ(
        grid,
        a,
        b,
        transposed,
    ) by {
        lemma_pairs_complete(size, size, a, b);
        let k = choose|k: int| 0 <= k < spec_pairs(size).len() && spec_pairs(size)[k] == (a, b);
        lemma_differ_complete(grid, spec_pairs(size).len() as int, k, transposed);
    }
}

/// The clauses of the three rules say what a solved grid is: a full grid is
/// solved exactly when all of them hold in it.
pub proof fn lemma_rules_exact(grid: Grid)
    requires
        grid.wf(),
        is_full(grid),
    ensures
        is_solution(grid) <==> cnf_holds(all_rules_sets(grid.size as int), holds_in(grid)),
{
    if is_solution(grid) {
        lemma_rules_sound(grid);
    }
    if cnf_holds(all_rules_sets(grid.size as int), holds_in(grid)) {
        lemma_rules_complete(grid);
    }
}

} // verus!
