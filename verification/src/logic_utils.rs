//! Conversion of a disjunction of conjunctive terms into an equivalent
//! conjunction of disjunctive clauses.

use std::collections::HashSet;
use std::hash::Hash;
use vstd::prelude::*;
use vstd::std_specs::hash::obeys_key_model;

verus! {

/// A truth assignment to literals of type `F`.
pub type Valuation<F> = spec_fn(F) -> bool;

/// A conjunctive term holds when each of its literals does.
pub open spec fn term_holds<F>(term: Seq<F>, v: Valuation<F>) -> bool {
    forall|j: int| 0 <= j < term.len() ==> v(#[trigger] term[j])
}

/// A disjunction of conjunctive terms holds when one of its terms does.
pub open spec fn dnf_holds<F>(dnf: Seq<Seq<F>>, v: Valuation<F>) -> bool {
    exists|t: int| 0 <= t < dnf.len() && term_holds(#[trigger] dnf[t], v)
}

/// A clause holds when one of its literals does.
pub open spec fn clause_holds<F>(clause: Set<F>, v: Valuation<F>) -> bool {
    exists|l: F| clause.contains(l) && #[trigger] v(l)
}

/// A conjunction of clauses holds when each of its clauses does.
pub open spec fn cnf_holds<F>(cnf: Seq<Set<F>>, v: Valuation<F>) -> bool {
    forall|i: int| 0 <= i < cnf.len() ==> clause_holds(#[trigger] cnf[i], v)
}

/// The clauses of a single conjunctive term: one unit clause for each literal.
pub open spec fn unit_clauses<F>(term: Seq<F>) -> Seq<Set<F>> {
    Seq::new(term.len(), |j: int| Set::empty().insert(term[j]))
}

/// Every clause of `cnf` joined with every literal of `term`: clause `i` of
/// the result is clause `i / term.len()` of `cnf` with literal
/// `i % term.len()` of `term` added.
pub open spec fn distribute<F>(cnf: Seq<Set<F>>, term: Seq<F>) -> Seq<Set<F>> {
    Seq::new(
        cnf.len() * term.len(),
        |i: int| cnf[i / (term.len() as int)].insert(term[i % (term.len() as int)]),
    )
}

/// The conjunctive normal form of a disjunction of conjunctive terms: the
/// unit clauses of the first term, distributed over each later term in turn.
pub open spec fn spec_dnf_to_cnf<F>(dnf: Seq<Seq<F>>) -> Seq<Set<F>>
    decreases dnf.len(),
{
    if dnf.len() == 0 {
        Seq::empty()
    } else if dnf.len() == 1 {
        unit_clauses(dnf[0])
    } else {
        distribute(spec_dnf_to_cnf(dnf.drop_last()), dnf.last())
    }
}

/// The terms of a disjunctive normal form given as slices.
pub open spec fn dnf_view<F>(dnf: Seq<&[F]>) -> Seq<Seq<F>> {
    Seq::new(dnf.len(), |t: int| dnf[t]@)
}

/// The clauses held by a list of hash sets.
pub open spec fn cnf_view<F>(cnf: Seq<HashSet<F>>) -> Seq<Set<F>> {
    Seq::new(cnf.len(), |i: int| cnf[i]@)
}

/// The clauses spelled by a list of literal lists.
pub open spec fn list_clauses<F>(lists: Seq<Vec<F>>) -> Seq<Set<F>> {
    Seq::new(lists.len(), |i: int| lists[i]@.to_set())
}

/// Position `i * width + j` of a table lies in row `i` and column `j`.
pub proof fn lemma_row_column(i: int, j: int, width: int)
    requires
        0 <= i,
        0 <= j < width,
    ensures
        (i * width + j) / width == i,
        (i * width + j) % width == j,
        i * width + j >= 0,
{
    vstd::arithmetic::div_mod::lemma_fundamental_div_mod_converse(i * width + j, width, i, j);
    assert(i * width >= 0) by (nonlinear_arith)
        requires
            i >= 0,
            width > 0,
    ;
}

/// Every position below `rows * width` lies in a row below `rows`.
pub proof fn lemma_position_row(p: int, rows: int, width: int)
    requires
        0 <= p < rows * width,
        0 < width,
    ensures
        0 <= p / width < rows,
        0 <= p % width < width,
        p == (p / width) * width + p % width,
{
    vstd::arithmetic::div_mod::lemma_fundamental_div_mod(p, width);
    vstd::arithmetic::div_mod::lemma_mod_bound(p, width);
    vstd::arithmetic::div_mod::lemma_div_pos_is_pos(p, width);
    let q = p / width;
    assert(width * q == q * width) by (nonlinear_arith);
    if q >= rows {
        assert(q * width >= rows * width) by (nonlinear_arith)
            requires
                q >= rows,
                width > 0,
        ;
    }
}

/// Distributing a conjunction of clauses over a term gives a formula that
/// holds exactly when the conjunction or the term holds.
pub proof fn lemma_distribute_holds<F>(cnf: Seq<Set<F>>, term: Seq<F>, v: Valuation<F>)
    ensures
        cnf_holds(distribute(cnf, term), v) <==> (cnf_holds(cnf, v) || term_holds(term, v)),
{
    let out = distribute(cnf, term);
    let width = term.len() as int;
    if cnf_holds(cnf, v) || term_holds(term, v) {
        assert forall|i: int| 0 <= i < out.len() implies clause_holds(#[trigger] out[i], v) by {
            lemma_position_row(i, cnf.len() as int, width);
            let c = cnf[i / width];
            let l = term[i % width];
            if cnf_holds(cnf, v) {
                assert(clause_holds(c, v));
                let w = choose|w: F| c.contains(w) && #[trigger] v(w);
                assert(out[i].contains(w) && v(w));
            } else {
                assert(out[i].contains(l) && v(l));
            }
        }
    } else {
        let i0 = choose|i: int| 0 <= i < cnf.len() && !clause_holds(#[trigger] cnf[i], v);
        let j0 = choose|j: int| 0 <= j < term.len() && !v(#[trigger] term[j]);
        let p = i0 * width + j0;
        lemma_row_column(i0, j0, width);
        assert(p < cnf.len() * width) by (nonlinear_arith)
            requires
                p == i0 * width + j0,
                0 <= i0 < cnf.len(),
                0 <= j0 < width,
        ;
        assert(out[p] == cnf[i0].insert(term[j0]));
        if clause_holds(out[p], v) {
            let w = choose|w: F| out[p].contains(w) && #[trigger] v(w);
            assert(cnf[i0].contains(w) && v(w));
        }
        assert(!clause_holds(out[p], v));
    }
}

/// The conversion keeps the meaning: under every truth assignment, a
/// non-empty disjunction of conjunctive terms holds exactly when its
/// conjunctive normal form does.
pub proof fn lemma_dnf_to_cnf_equivalent<F>(dnf: Seq<Seq<F>>, v: Valuation<F>)
    requires
        dnf.len() > 0,
    ensures
        dnf_holds(dnf, v) <==> cnf_holds(spec_dnf_to_cnf(dnf), v),
    decreases dnf.len(),
{
    if dnf.len() == 1 {
        let cnf = unit_clauses(dnf[0]);
        if dnf_holds(dnf, v) {
            let t = choose|t: int| 0 <= t < dnf.len() && term_holds(#[trigger] dnf[t], v);
            assert forall|i: int| 0 <= i < cnf.len() implies clause_holds(#[trigger] cnf[i], v) by {
                assert(cnf[i].contains(dnf[0][i]) && v(dnf[0][i]));
            }
        }
        if cnf_holds(cnf, v) {
            assert forall|j: int| 0 <= j < dnf[0].len() implies v(#[trigger] dnf[0][j]) by {
                assert(clause_holds(cnf[j], v));
            }
            assert(term_holds(dnf[0], v));
        }
    } else {
        let front = dnf.drop_last();
        lemma_dnf_to_cnf_equivalent(front, v);
        lemma_distribute_holds(spec_dnf_to_cnf(front), dnf.last(), v);
        if dnf_holds(dnf, v) {
            let t = choose|t: int| 0 <= t < dnf.len() && term_holds(#[trigger] dnf[t], v);
            if t < front.len() {
                assert(front[t] == dnf[t]);
                assert(dnf_holds(front, v));
            }
        }
        if dnf_holds(front, v) {
            let t = choose|t: int| 0 <= t < front.len() && term_holds(#[trigger] front[t], v);
            assert(front[t] == dnf[t]);
        }
        if term_holds(dnf.last(), v) {
            assert(dnf[dnf.len() - 1] == dnf.last());
        }
    }
}

/// The terms of a disjunction with each literal renamed by `f`.
pub open spec fn map_terms<A, B>(dnf: Seq<Seq<A>>, f: spec_fn(A) -> B) -> Seq<Seq<B>> {
    Seq::new(dnf.len(), |t: int| dnf[t].map_values(f))
}

/// The clauses of a conjunction with each literal renamed by `f`.
pub open spec fn map_clauses<A, B>(cnf: Seq<Set<A>>, f: spec_fn(A) -> B) -> Seq<Set<B>> {
    Seq::new(cnf.len(), |i: int| cnf[i].map(f))
}

/// Renaming the literals of a set with one more member.
pub proof fn lemma_insert_map<A, B>(s: Set<A>, a: A, f: spec_fn(A) -> B)
    ensures
        s.insert(a).map(f) == s.map(f).insert(f(a)),
{
    assert forall|b: B| s.insert(a).map(f).contains(b) <==> s.map(f).insert(f(a)).contains(b) by {
        if s.insert(a).map(f).contains(b) {
            let x = choose|x: A| s.insert(a).contains(x) && b == f(x);
            if x != a {
                assert(s.contains(x) && b == f(x));
            }
        }
        if s.map(f).insert(f(a)).contains(b) {
            if b == f(a) {
                assert(s.insert(a).contains(a));
            } else {
                let x = choose|x: A| s.contains(x) && b == f(x);
                assert(s.insert(a).contains(x));
            }
        }
    }
    assert(s.insert(a).map(f) =~= s.map(f).insert(f(a)));
}

/// The conversion does not look at what the literals are: renaming the
/// literals before it gives the clauses that renaming after it gives.
pub proof fn lemma_dnf_to_cnf_map<A, B>(dnf: Seq<Seq<A>>, f: spec_fn(A) -> B)
    ensures
        spec_dnf_to_cnf(map_terms(dnf, f)) == map_clauses(spec_dnf_to_cnf(dnf), f),
    decreases dnf.len(),
{
    let renamed = map_terms(dnf, f);
    let left = spec_dnf_to_cnf(renamed);
    let right = map_clauses(spec_dnf_to_cnf(dnf), f);
    if dnf.len() == 0 {
        assert(left =~= right);
    } else if dnf.len() == 1 {
        assert forall|j: int| 0 <= j < left.len() implies left[j] == right[j] by {
            lemma_insert_map(Set::<A>::empty(), dnf[0][j], f);
            assert(Set::<A>::empty().map(f) =~= Set::<B>::empty());
        }
        assert(left =~= right);
    } else {
        let front = dnf.drop_last();
        lemma_dnf_to_cnf_map(front, f);
        assert(renamed.drop_last() =~= map_terms(front, f));
        assert(renamed.last() == dnf.last().map_values(f));
        let acc = spec_dnf_to_cnf(front);
        let term = dnf.last();
        let width = term.len() as int;
        assert(left.len() == right.len());
        assert forall|i: int| 0 <= i < left.len() implies left[i] == right[i] by {
            lemma_position_row(i, acc.len() as int, width);
            lemma_insert_map(acc[i / width], term[i % width], f);
        }
        assert(left =~= right);
    }
}

/// Every literal of every term satisfies `p`.
pub open spec fn terms_satisfy<F>(dnf: Seq<Seq<F>>, p: spec_fn(F) -> bool) -> bool {
    forall|t: int, j: int| 0 <= t < dnf.len() && 0 <= j < dnf[t].len() ==> p(#[trigger] dnf[t][j])
}

/// The clauses hold no literal that the terms do not hold: what is true of
/// every literal of the terms is true of every literal of the clauses.
pub proof fn lemma_dnf_to_cnf_literals<F>(dnf: Seq<Seq<F>>, p: spec_fn(F) -> bool, i: int, l: F)
    requires
        terms_satisfy(dnf, p),
        0 <= i < spec_dnf_to_cnf(dnf).len(),
        spec_dnf_to_cnf(dnf)[i].contains(l),
    ensures
        p(l),
    decreases dnf.len(),
{
    if dnf.len() == 1 {
        assert(l == dnf[0][i]);
    } else if dnf.len() > 1 {
        let front = dnf.drop_last();
        let acc = spec_dnf_to_cnf(front);
        let term = dnf.last();
        let width = term.len() as int;
        lemma_position_row(i, acc.len() as int, width);
        assert forall|t: int, j: int| 0 <= t < front.len() && 0 <= j < front[t].len() implies p(
            #[trigger] front[t][j],
        ) by {
            assert(front[t] == dnf[t]);
            assert(p(dnf[t][j]));
        }
        if l == term[i % width] {
            assert(p(dnf[dnf.len() - 1][i % width]));
        } else {
            assert(acc[i / width].contains(l));
            lemma_dnf_to_cnf_literals(front, p, i / width, l);
        }
    }
}

/// The number of clauses of the normal form is the product of the lengths of
/// the terms.
pub open spec fn product_of_lengths<F>(dnf: Seq<Seq<F>>) -> nat
    decreases dnf.len(),
{
    if dnf.len() == 0 {
        1
    } else {
        product_of_lengths(dnf.drop_last()) * dnf.last().len()
    }
}

/// The normal form has one clause for each way to choose a literal in every
/// term.
pub proof fn lemma_dnf_to_cnf_len<F>(dnf: Seq<Seq<F>>)
    requires
        dnf.len() > 0,
    ensures
        spec_dnf_to_cnf(dnf).len() == product_of_lengths(dnf),
    decreases dnf.len(),
{
    if dnf.len() == 1 {
        assert(dnf.drop_last().len() == 0);
        assert(product_of_lengths(dnf.drop_last()) == 1);
        assert(dnf.last() == dnf[0]);
        assert(product_of_lengths(dnf) == 1 * dnf[0].len());
    } else {
        lemma_dnf_to_cnf_len(dnf.drop_last());
    }
}

/// The literal lists of the unit clauses of one term.
fn unit_lists<F: Copy>(term: &[F]) -> (lists: Vec<Vec<F>>)
    ensures
        list_clauses(lists@) == unit_clauses(term@),
{
    let mut lists: Vec<Vec<F>> = Vec::new();
    let mut j: usize = 0;
    while j < term.len()
        invariant
            j <= term.len(),
            lists.len() == j,
            forall|k: int| 0 <= k < j ==> (#[trigger] lists[k])@ == seq![term[k]],
        decreases term.len() - j,
    {
        let mut list: Vec<F> = Vec::new();
        list.push(term[j]);
        assert(list@ == seq![term[j as int]]);
        lists.push(list);
        j += 1;
    }
    proof {
        let a = list_clauses(lists@);
        let b = unit_clauses(term@);
        assert forall|k: int| 0 <= k < a.len() implies a[k] == b[k] by {
            assert(lists[k]@ == seq![term[k]]);
            assert(seq![term[k]][0] == term[k]);
            assert(a[k] =~= b[k]);
        }
        assert(a =~= b);
    }
    lists
}

/// A copy of `list` with `literal` added at its end.
fn extended<F: Copy>(list: &Vec<F>, literal: F) -> (out: Vec<F>)
    ensures
        out@ == list@.push(literal),
{
    let mut out: Vec<F> = Vec::new();
    let mut k: usize = 0;
    while k < list.len()
        invariant
            k <= list.len(),
            out@ == list@.take(k as int),
        decreases list.len() - k,
    {
        out.push(list[k]);
        assert(list@.take(k as int + 1) == list@.take(k as int).push(list[k as int]));
        k += 1;
    }
    assert(list@.take(list.len() as int) == list@);
    out.push(literal);
    out
}

/// The literal lists of `lists` distributed over `term`.
fn distribute_lists<F: Copy>(lists: &Vec<Vec<F>>, term: &[F]) -> (out: Vec<Vec<F>>)
    ensures
        list_clauses(out@) == distribute(list_clauses(lists@), term@),
{
    let mut out: Vec<Vec<F>> = Vec::new();
    let width = term.len();
    let mut i: usize = 0;
    while i < lists.len()
        invariant
            i <= lists.len(),
            width == term.len(),
            out.len() == i * width,
            forall|p: int|
                0 <= p < out.len() ==> (#[trigger] out[p])@ == lists[p / (width as int)]@.push(
                    term[p % (width as int)],
                ),
        decreases lists.len() - i,
    {
        let mut j: usize = 0;
        while j < width
            invariant
                i < lists.len(),
                j <= width,
                width == term.len(),
                out.len() == i * width + j,
                forall|p: int|
                    0 <= p < out.len() ==> (#[trigger] out[p])@ == lists[p / (width as int)]@.push(
                        term[p % (width as int)],
                    ),
            decreases width - j,
        {
            let list = extended(&lists[i], term[j]);
            proof {
                lemma_row_column(i as int, j as int, width as int);
            }
            out.push(list);
            j += 1;
        }
        proof {
            assert(i * width + width == (i + 1) * width) by (nonlinear_arith);
        }
        i += 1;
    }
    proof {
        let a = list_clauses(out@);
        let b = distribute(list_clauses(lists@), term@);
        assert(a.len() == b.len());
        assert forall|p: int| 0 <= p < a.len() implies a[p] == b[p] by {
            lemma_position_row(p, lists.len() as int, width as int);
            let list = lists[p / (width as int)]@;
            let literal = term[p % (width as int)];
            assert(out[p]@ == list.push(literal));
            list.lemma_push_to_set_commute(literal);
        }
        assert(a =~= b);
    }
    out
}

/// The set of the literals of a list.
fn list_to_set<F: Copy + Eq + Hash>(list: &Vec<F>) -> (set: HashSet<F>)
    requires
        obeys_key_model::<F>(),
    ensures
        set@ == list@.to_set(),
{
    let mut set: HashSet<F> = HashSet::new();
    let mut k: usize = 0;
    assert(list@.take(0).to_set() =~= Set::<F>::empty());
    while k < list.len()
        invariant
            k <= list.len(),
            obeys_key_model::<F>(),
            set@ == list@.take(k as int).to_set(),
        decreases list.len() - k,
    {
        proof {
            assert(list@.take(k as int + 1) == list@.take(k as int).push(list[k as int]));
            list@.take(k as int).lemma_push_to_set_commute(list[k as int]);
        }
        set.insert(list[k]);
        k += 1;
    }
    assert(list@.take(list.len() as int) == list@);
    set
}

/// Folds the terms from left to right: the unit clauses of the first term
/// are distributed over each later term in turn.
pub fn dnf_to_cnf_rec<F: Copy + Eq + Hash>(dnf: &[&[F]]) -> (cnf: Vec<HashSet<F>>)
    requires
        dnf.len() > 0,
        obeys_key_model::<F>(),
    ensures
        cnf_view(cnf@) == spec_dnf_to_cnf(dnf_view(dnf@)),
{
    let ghost terms = dnf_view(dnf@);
    let mut lists = unit_lists(dnf[0]);
    proof {
        assert(terms.take(1).len() == 1);
        assert(terms.take(1)[0] == dnf[0]@);
    }
    let mut t: usize = 1;
    while t < dnf.len()
        invariant
            1 <= t <= dnf.len(),
            terms == dnf_view(dnf@),
            list_clauses(lists@) == spec_dnf_to_cnf(terms.take(t as int)),
        decreases dnf.len() - t,
    {
        proof {
            let next = terms.take(t as int + 1);
            assert(next.drop_last() == terms.take(t as int));
            assert(next.last() == dnf[t as int]@);
        }
        lists = distribute_lists(&lists, dnf[t]);
        t += 1;
    }
    assert(terms.take(t as int) == terms);
    let mut cnf: Vec<HashSet<F>> = Vec::new();
    let mut i: usize = 0;
    while i < lists.len()
        invariant
            i <= lists.len(),
            obeys_key_model::<F>(),
            cnf.len() == i,
            forall|k: int| 0 <= k < i ==> (#[trigger] cnf[k])@ == lists[k]@.to_set(),
        decreases lists.len() - i,
    {
        let set = list_to_set(&lists[i]);
        cnf.push(set);
        i += 1;
    }
    assert(cnf_view(cnf@) =~= list_clauses(lists@));
    cnf
}

/// Converts the disjunction of the conjunctive terms `dnf` into clauses whose
/// conjunction is equivalent to it.
pub fn dnf_to_cnf<F: Copy + Eq + Hash>(dnf: &[&[F]]) -> (cnf: Vec<HashSet<F>>)
    requires
        dnf.len() > 0,
        obeys_key_model::<F>(),
    ensures
        cnf_view(cnf@) == spec_dnf_to_cnf(dnf_view(dnf@)),
        cnf.len() == product_of_lengths(dnf_view(dnf@)),
        forall|v: Valuation<F>|
            cnf_holds(cnf_view(cnf@), v) <==> dnf_holds(dnf_view(dnf@), v),
{
    let cnf = dnf_to_cnf_rec(dnf);
    proof {
        lemma_dnf_to_cnf_len(dnf_view(dnf@));
        assert forall|v: Valuation<F>|
            cnf_holds(cnf_view(cnf@), v) <==> dnf_holds(dnf_view(dnf@), v) by {
            lemma_dnf_to_cnf_equivalent(dnf_view(dnf@), v);
        }
    }
    cnf
}

/// Filtering the empty sequence leaves it empty.
pub proof fn lemma_filter_empty<A>(pred: spec_fn(A) -> bool)
    ensures
        Seq::<A>::empty().filter(pred) == Seq::<A>::empty(),
{
    reveal(Seq::filter);
}

} // verus!
