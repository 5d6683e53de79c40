//! Enumeration of the subsets of a given size of an index range, and of the
//! unordered pairs of a list.

use vstd::prelude::*;

verus! {

/// The number of `k`-element subsets of an `n`-element set.
pub open spec fn binomial(n: nat, k: nat) -> nat
    decreases n,
{
    if k == 0 {
        1
    } else if n == 0 {
        0
    } else {
        binomial((n - 1) as nat, (k - 1) as nat) + binomial((n - 1) as nat, k)
    }
}

/// A `k`-element subset of the indices from `lo` up to `n`, written in
/// ascending order.
pub open spec fn is_combination(c: Seq<usize>, lo: int, n: int, k: int) -> bool {
    &&& c.len() == k
    &&& forall|i: int| 0 <= i < c.len() ==> lo <= #[trigger] c[i] < n
    &&& forall|i: int, j: int| 0 <= i < j < c.len() ==> c[i] < c[j]
}

/// Lexicographic order on index sequences.
pub open spec fn lex_less(a: Seq<usize>, b: Seq<usize>) -> bool {
    exists|p: int|
        0 <= p < a.len() && p < b.len() && #[trigger] a[p] < b[p] && a.take(p) == b.take(p)
}

/// `c` with index `first` put in front.
pub open spec fn prefixed(first: usize, c: Seq<usize>) -> Seq<usize> {
    seq![first] + c
}

/// All `k`-element subsets of the indices from `lo` up to `n`: first those
/// that hold `lo`, then those that do not.
pub open spec fn combinations_from(lo: nat, n: nat, k: nat) -> Seq<Seq<usize>>
    decreases n - lo,
{
    if k == 0 {
        seq![Seq::<usize>::empty()]
    } else if lo >= n {
        Seq::<Seq<usize>>::empty()
    } else {
        combinations_from(lo + 1, n, (k - 1) as nat).map_values(
            |c: Seq<usize>| prefixed(lo as usize, c),
        ) + combinations_from(lo + 1, n, k)
    }
}

/// All `k`-element subsets of `{0, .., n - 1}`, each in ascending order, in
/// lexicographic order.
pub open spec fn spec_combinations(n: nat, k: nat) -> Seq<Seq<usize>> {
    combinations_from(0, n, k)
}

/// The sequences held by a list of vectors.
pub open spec fn views(v: Seq<Vec<usize>>) -> Seq<Seq<usize>> {
    Seq::new(v.len(), |i: int| v[i]@)
}

/// Position `i` of a combination holds the largest index it can hold.
pub open spec fn at_limit(c: Seq<usize>, i: int, n: int) -> bool {
    c[i] == i + n - c.len()
}

/// The last position of `c` that is not at its limit is `i`.
pub open spec fn is_pivot(c: Seq<usize>, i: int, n: int) -> bool {
    &&& 0 <= i < c.len()
    &&& !at_limit(c, i, n)
    &&& forall|j: int| i < j < c.len() ==> at_limit(c, j, n)
}

/// The combination after `c`: position `i` is raised by one and the later
/// positions follow it one by one.
pub open spec fn successor(c: Seq<usize>, i: int) -> Seq<usize> {
    Seq::new(
        c.len(),
        |j: int|
            if j < i {
                c[j]
            } else {
                (c[i] + 1 + (j - i)) as usize
            },
    )
}

/// A set has subsets of a given size exactly when the size is not above its
/// own.
pub proof fn lemma_binomial_positive(n: nat, k: nat)
    ensures
        binomial(n, k) > 0 <==> k <= n,
    decreases n,
{
    if k != 0 && n != 0 {
        lemma_binomial_positive((n - 1) as nat, (k - 1) as nat);
        lemma_binomial_positive((n - 1) as nat, k);
    }
}

/// There are `binomial(n - lo, k)` combinations over the indices from `lo`.
pub proof fn lemma_combinations_len(lo: nat, n: nat, k: nat)
    requires
        lo <= n,
    ensures
        combinations_from(lo, n, k).len() == binomial((n - lo) as nat, k),
    decreases n - lo,
{
    if k != 0 && lo < n {
        lemma_combinations_len(lo + 1, n, (k - 1) as nat);
        lemma_combinations_len(lo + 1, n, k);
    }
}

/// The first combination takes the `k` smallest indices.
pub proof fn lemma_first_combination(lo: nat, n: nat, k: nat)
    requires
        lo + k <= n,
        n <= usize::MAX,
    ensures
        combinations_from(lo, n, k).len() > 0,
        combinations_from(lo, n, k)[0] == Seq::new(k, |j: int| (lo + j) as usize),
    decreases k,
{
    let first = Seq::new(k, |j: int| (lo + j) as usize);
    if k == 0 {
        assert(combinations_from(lo, n, k)[0] =~= first);
    } else {
        lemma_first_combination(lo + 1, n, (k - 1) as nat);
        let sub = combinations_from(lo + 1, n, (k - 1) as nat);
        let with_lo = sub.map_values(|c: Seq<usize>| prefixed(lo as usize, c));
        assert(combinations_from(lo, n, k)[0] == with_lo[0]);
        assert(with_lo[0] == prefixed(lo as usize, sub[0]));
        assert(prefixed(lo as usize, sub[0]) =~= first);
    }
}

/// Every member of the enumeration is a combination.
pub proof fn lemma_combinations_valid(lo: nat, n: nat, k: nat, m: int)
    requires
        n <= usize::MAX,
        0 <= m < combinations_from(lo, n, k).len(),
    ensures
        is_combination(combinations_from(lo, n, k)[m], lo as int, n as int, k as int),
    decreases n - lo,
{
    if k != 0 && lo < n {
        let sub = combinations_from(lo + 1, n, (k - 1) as nat);
        let with_lo = sub.map_values(|c: Seq<usize>| prefixed(lo as usize, c));
        if m < with_lo.len() {
            lemma_combinations_valid(lo + 1, n, (k - 1) as nat, m);
            let c = prefixed(lo as usize, sub[m]);
            assert(combinations_from(lo, n, k)[m] == c);
            assert forall|i: int| 0 <= i < c.len() implies lo <= #[trigger] c[i] < n by {
                if i > 0 {
                    assert(c[i] == sub[m][i - 1]);
                }
            }
            assert forall|i: int, j: int| 0 <= i < j < c.len() implies c[i] < c[j] by {
                assert(c[j] == sub[m][j - 1]);
                if i > 0 {
                    assert(c[i] == sub[m][i - 1]);
                }
            }
        } else {
            lemma_combinations_valid(lo + 1, n, k, m - with_lo.len());
        }
    }
}

/// Every combination is a member of the enumeration.
pub proof fn lemma_combinations_complete(lo: nat, n: nat, k: nat, c: Seq<usize>)
    requires
        n <= usize::MAX,
        is_combination(c, lo as int, n as int, k as int),
    ensures
        combinations_from(lo, n, k).contains(c),
    decreases n - lo,
{
    let all = combinations_from(lo, n, k);
    if k == 0 {
        assert(c =~= Seq::<usize>::empty());
        assert(all[0] == c);
    } else if lo >= n {
        assert(lo <= c[0] < n);
    } else {
        let sub = combinations_from(lo + 1, n, (k - 1) as nat);
        let with_lo = sub.map_values(|c: Seq<usize>| prefixed(lo as usize, c));
        let rest = combinations_from(lo + 1, n, k);
        if c[0] == lo {
            let tail = c.drop_first();
            assert forall|i: int| 0 <= i < tail.len() implies lo + 1 <= #[trigger] tail[i] < n by {
                assert(tail[i] == c[i + 1]);
                assert(c[0] < c[i + 1]);
            }
            assert forall|i: int, j: int| 0 <= i < j < tail.len() implies tail[i] < tail[j] by {
                assert(c[i + 1] < c[j + 1]);
            }
            lemma_combinations_complete(lo + 1, n, (k - 1) as nat, tail);
            let m = choose|m: int| 0 <= m < sub.len() && sub[m] == tail;
            assert(with_lo[m] == prefixed(lo as usize, tail));
            assert(prefixed(lo as usize, tail) =~= c);
            assert(all[m] == c);
        } else {
            assert forall|i: int| 0 <= i < c.len() implies lo + 1 <= #[trigger] c[i] < n by {
                if i > 0 {
                    assert(c[0] < c[i]);
                }
            }
            lemma_combinations_complete(lo + 1, n, k, c);
            let m = choose|m: int| 0 <= m < rest.len() && rest[m] == c;
            assert(all[with_lo.len() + m] == c);
        }
    }
}

/// The enumeration is in strictly ascending lexicographic order, so no
/// combination occurs twice.
pub proof fn lemma_combinations_sorted(lo: nat, n: nat, k: nat, a: int, b: int)
    requires
        n <= usize::MAX,
        0 <= a < b < combinations_from(lo, n, k).len(),
    ensures
        lex_less(combinations_from(lo, n, k)[a], combinations_from(lo, n, k)[b]),
        combinations_from(lo, n, k)[a] != combinations_from(lo, n, k)[b],
    decreases n - lo,
{
    let all = combinations_from(lo, n, k);
    if k != 0 && lo < n {
        let sub = combinations_from(lo + 1, n, (k - 1) as nat);
        let with_lo = sub.map_values(|c: Seq<usize>| prefixed(lo as usize, c));
        let rest = combinations_from(lo + 1, n, k);
        if b < with_lo.len() {
            lemma_combinations_sorted(lo + 1, n, (k - 1) as nat, a, b);
            let p = choose|p: int|
                0 <= p < sub[a].len() && p < sub[b].len() && #[trigger] sub[a][p] < sub[b][p]
                    && sub[a].take(p) == sub[b].take(p);
            assert(all[a] == prefixed(lo as usize, sub[a]));
            assert(all[b] == prefixed(lo as usize, sub[b]));
            assert(all[a][p + 1] == sub[a][p]);
            assert(all[b][p + 1] == sub[b][p]);
            assert(all[a].take(p + 1) =~= prefixed(lo as usize, sub[a].take(p)));
            assert(all[b].take(p + 1) =~= prefixed(lo as usize, sub[b].take(p)));
            assert(all[a][p + 1] < all[b][p + 1]);
        } else if a >= with_lo.len() {
            lemma_combinations_sorted(lo + 1, n, k, a - with_lo.len(), b - with_lo.len());
        } else {
            lemma_combinations_valid(lo + 1, n, k, b - with_lo.len());
            assert(all[a] == prefixed(lo as usize, sub[a]));
            assert(all[b] == rest[b - with_lo.len()]);
            assert(all[a][0] == lo);
            assert(all[b][0] > lo);
            assert(all[a].take(0) =~= all[b].take(0));
            assert(all[a][0] < all[b][0]);
        }
        let p = choose|p: int|
            0 <= p < all[a].len() && p < all[b].len() && #[trigger] all[a][p] < all[b][p]
                && all[a].take(p) == all[b].take(p);
        assert(all[a][p] != all[b][p]);
    }
}

/// How the enumeration goes from one member to the next: the last member has
/// every position at its limit; any other member has a pivot, and raising
/// the pivot gives the member after it.
pub proof fn lemma_next_combination(lo: nat, n: nat, k: nat, m: int)
    requires
        lo <= n <= usize::MAX,
        0 <= m < combinations_from(lo, n, k).len(),
    ensures
        m + 1 == combinations_from(lo, n, k).len() ==> forall|i: int|
            0 <= i < k ==> at_limit(combinations_from(lo, n, k)[m], i, n as int),
        m + 1 < combinations_from(lo, n, k).len() ==> exists|i: int|
            #[trigger] is_pivot(combinations_from(lo, n, k)[m], i, n as int)
                && combinations_from(lo, n, k)[m + 1] == successor(
                combinations_from(lo, n, k)[m],
                i,
            ),
    decreases n - lo,
{
    let all = combinations_from(lo, n, k);
    if k == 0 {
    } else if lo >= n {
    } else {
        let sub = combinations_from(lo + 1, n, (k - 1) as nat);
        let with_lo = sub.map_values(|c: Seq<usize>| prefixed(lo as usize, c));
        let rest = combinations_from(lo + 1, n, k);
        lemma_combinations_len(lo + 1, n, (k - 1) as nat);
        lemma_combinations_len(lo + 1, n, k);
        lemma_binomial_positive((n - lo - 1) as nat, (k - 1) as nat);
        lemma_binomial_positive((n - lo - 1) as nat, k);
        if m < with_lo.len() {
            let d = sub[m];
            let c = prefixed(lo as usize, d);
            assert(all[m] == c);
            lemma_combinations_valid(lo + 1, n, (k - 1) as nat, m);
            lemma_next_combination(lo + 1, n, (k - 1) as nat, m);
            assert forall|j: int| 0 <= j < d.len() implies at_limit(c, j + 1, n as int)
                == at_limit(d, j, n as int) by {
                assert(c[j + 1] == d[j]);
            }
            if m + 1 < with_lo.len() {
                let i = choose|i: int|
                    #[trigger] is_pivot(d, i, n as int) && sub[m + 1] == successor(d, i);
                assert(!at_limit(c, i + 1, n as int));
                assert forall|j: int| i + 1 < j < c.len() implies at_limit(c, j, n as int) by {
                    assert(at_limit(d, j - 1, n as int));
                }
                assert(is_pivot(c, i + 1, n as int));
                assert(all[m + 1] == prefixed(lo as usize, sub[m + 1]));
                assert(c[i + 1] == d[i]);
                assert(prefixed(lo as usize, successor(d, i)) =~= successor(c, i + 1));
            } else {
                assert forall|j: int| 1 <= j < c.len() implies at_limit(c, j, n as int) by {
                    assert(at_limit(d, j - 1, n as int));
                }
                assert(c[0] == lo);
                if rest.len() > 0 {
                    assert(!at_limit(c, 0, n as int));
                    assert(is_pivot(c, 0, n as int));
                    lemma_first_combination(lo + 1, n, k);
                    assert(all[m + 1] == rest[0]);
                    assert(rest[0] =~= successor(c, 0));
                } else {
                    assert(at_limit(c, 0, n as int));
                }
            }
        } else {
            let m2 = m - with_lo.len();
            lemma_next_combination(lo + 1, n, k, m2);
            assert(all[m] == rest[m2]);
            if m + 1 < all.len() {
                assert(all[m + 1] == rest[m2 + 1]);
            }
        }
    }
}

/// Position `i` of a combination leaves room for the positions after it.
pub proof fn lemma_combination_limit(c: Seq<usize>, lo: int, n: int, i: int)
    requires
        is_combination(c, lo, n, c.len() as int),
        0 <= i < c.len(),
    ensures
        c[i] <= i + n - c.len(),
    decreases c.len() - i,
{
    if i + 1 < c.len() {
        lemma_combination_limit(c, lo, n, i + 1);
        assert(c[i] < c[i + 1]);
    }
}

/// A combination has at most one pivot.
pub proof fn lemma_pivot_unique(c: Seq<usize>, i: int, j: int, n: int)
    requires
        is_pivot(c, i, n),
        is_pivot(c, j, n),
    ensures
        i == j,
{
}

/// A copy of a list of indices.
fn copy_indices(v: &Vec<usize>) -> (out: Vec<usize>)
    ensures
        out@ == v@,
{
    let mut out: Vec<usize> = Vec::new();
    let mut j: usize = 0;
    while j < v.len()
        invariant
            j <= v.len(),
            out@ == v@.take(j as int),
        decreases v.len() - j,
    {
        out.push(v[j]);
        assert(v@.take(j as int + 1) == v@.take(j as int).push(v[j as int]));
        j += 1;
    }
    assert(v@.take(v.len() as int) == v@);
    out
}

/// All `k`-element subsets of `{0, .., n - 1}`, each in ascending order, in
/// lexicographic order. There is none when `k > n`, and one, the empty
/// subset, when `k == 0`.
pub fn combinations(n: usize, k: usize) -> (ret: Vec<Vec<usize>>)
    ensures
        views(ret@) == spec_combinations(n as nat, k as nat),
        ret.len() == binomial(n as nat, k as nat),
        forall|m: int| 0 <= m < ret.len() ==> is_combination(#[trigger] ret[m]@, 0, n as int, k as int),
        forall|a: int, b: int| 0 <= a < b < ret.len() ==> lex_less(#[trigger] ret[a]@, #[trigger] ret[b]@),
        forall|c: Seq<usize>|
            is_combination(c, 0, n as int, k as int) ==> exists|m: int|
                0 <= m < ret.len() && #[trigger] ret[m]@ == c,
{
    let ghost all = spec_combinations(n as nat, k as nat);
    proof {
        lemma_combinations_len(0, n as nat, k as nat);
        lemma_binomial_positive(n as nat, k as nat);
    }
    let mut ret: Vec<Vec<usize>> = Vec::new();
    if k <= n {
        let mut indices: Vec<usize> = Vec::new();
        let mut j: usize = 0;
        while j < k
            invariant
                j <= k <= n,
                indices@ == Seq::new(j as nat, |q: int| q as usize),
            decreases k - j,
        {
            indices.push(j);
            assert(indices@ =~= Seq::new((j + 1) as nat, |q: int| q as usize));
            j += 1;
        }
        proof {
            lemma_first_combination(0, n as nat, k as nat);
            assert(all[0] =~= indices@);
        }
        ret.push(copy_indices(&indices));
        assert(views(ret@) =~= all.take(1));
        let mut done = false;
        while !done
            invariant
                k <= n,
                all == spec_combinations(n as nat, k as nat),
                1 <= ret.len() <= all.len(),
                views(ret@) == all.take(ret.len() as int),
                indices@ == all[ret.len() - 1],
                done ==> ret.len() == all.len(),
            decreases all.len() - ret.len() + (if done { 0int } else { 1int }),
        {
            let ghost m = ret.len() - 1;
            let ghost current = indices@;
            proof {
                lemma_combinations_valid(0, n as nat, k as nat, m);
                lemma_next_combination(0, n as nat, k as nat, m);
            }
            // the last position that is not at its limit, if there is one
            let mut i: usize = k;
            let mut found = false;
            while i > 0 && !found
                invariant
                    i <= k <= n,
                    indices@ == current,
                    current.len() == k,
                    found ==> i < k && !at_limit(current, i as int, n as int),
                    forall|q: int|
                        (if found {
                            i + 1
                        } else {
                            i as int
                        }) <= q < k ==> at_limit(current, q, n as int),
                decreases i + (if found { 0int } else { 1int }),
            {
                if indices[i - 1] != (i - 1) + (n - k) {
                    found = true;
                }
                i = i - 1;
            }
            if !found {
                proof {
                    if m + 1 < all.len() {
                        let p = choose|p: int|
                            #[trigger] is_pivot(current, p, n as int) && all[m + 1] == successor(
                                current,
                                p,
                            );
                        assert(at_limit(current, p, n as int));
                    }
                }
                done = true;
            } else {
                proof {
                    assert(is_pivot(current, i as int, n as int));
                    if m + 1 == all.len() {
                        assert(at_limit(current, i as int, n as int));
                    }
                    let p = choose|p: int|
                        #[trigger] is_pivot(current, p, n as int) && all[m + 1] == successor(
                            current,
                            p,
                        );
                    lemma_pivot_unique(current, i as int, p, n as int);
                    lemma_combinations_valid(0, n as nat, k as nat, m + 1);
                    lemma_combination_limit(current, 0, n as int, i as int);
                }
                let raised: usize = indices[i] + 1;
                indices[i] = raised;
                let mut j: usize = i + 1;
                while j < k
                    invariant
                        i < j <= k <= n,
                        indices.len() == k,
                        current.len() == k,
                        current[i as int] < i + n - k,
                        forall|q: int| 0 <= q < i ==> indices[q] == current[q],
                        forall|q: int| i <= q < j ==> indices[q] == current[i as int] + 1 + (q - i),
                    decreases k - j,
                {
                    let next: usize = indices[j - 1] + 1;
                    indices[j] = next;
                    j += 1;
                }
                assert(indices@ =~= successor(current, i as int));
                ret.push(copy_indices(&indices));
                assert(views(ret@) =~= all.take(ret.len() as int));
            }
        }
        assert(all.take(all.len() as int) == all);
    } else {
        assert(views(ret@) =~= all);
    }
    proof {
        assert forall|m: int| 0 <= m < ret.len() implies is_combination(
            #[trigger] ret[m]@,
            0,
            n as int,
            k as int,
        ) by {
            assert(views(ret@)[m] == ret[m]@);
            lemma_combinations_valid(0, n as nat, k as nat, m);
        }
        assert forall|a: int, b: int| 0 <= a < b < ret.len() implies lex_less(
            #[trigger] ret[a]@,
            #[trigger] ret[b]@,
        ) by {
            assert(views(ret@)[a] == ret[a]@);
            assert(views(ret@)[b] == ret[b]@);
            lemma_combinations_sorted(0, n as nat, k as nat, a, b);
        }
        assert forall|c: Seq<usize>| is_combination(c, 0, n as int, k as int) implies exists|m: int|
            0 <= m < ret.len() && #[trigger] ret[m]@ == c by {
            lemma_combinations_complete(0, n as nat, k as nat, c);
            let m = choose|m: int| 0 <= m < all.len() && all[m] == c;
            assert(views(ret@)[m] == ret[m]@);
        }
    }
    ret
}

/// The pairs that index `a` forms with the later indices below `n`.
pub open spec fn pairs_with(a: int, n: int) -> Seq<(int, int)> {
    Seq::new((n - 1 - a) as nat, |d: int| (a, a + 1 + d))
}

/// The pairs `(a, b)` with `a < b < n` whose first index is below `i`,
/// ordered by first index and then by second index.
pub open spec fn pairs_below(i: int, n: int) -> Seq<(int, int)>
    decreases i,
{
    if i <= 0 {
        Seq::empty()
    } else {
        pairs_below(i - 1, n) + pairs_with(i - 1, n)
    }
}

/// All pairs of indices `(a, b)` with `a < b < n`, each once.
pub open spec fn spec_pairs(n: int) -> Seq<(int, int)> {
    pairs_below(n, n)
}

/// Twice the number of pairs with first index below `i` is `i * (2n - i - 1)`.
pub proof fn lemma_pairs_below_len(i: int, n: int)
    requires
        0 <= i <= n,
    ensures
        2 * pairs_below(i, n).len() == i * (2 * n - i - 1),
    decreases i,
{
    if i > 0 {
        lemma_pairs_below_len(i - 1, n);
        assert((i - 1) * (2 * n - (i - 1) - 1) + 2 * (n - 1 - (i - 1)) == i * (2 * n - i - 1))
            by (nonlinear_arith);
        assert(pairs_below(i, n).len() == pairs_below(i - 1, n).len() + (n - 1 - (i - 1)));
    } else {
        assert(i * (2 * n - i - 1) == 0) by (nonlinear_arith)
            requires
                i == 0,
        ;
    }
}

/// There are `n * (n - 1) / 2` pairs among `n` indices.
pub proof fn lemma_pairs_len(n: int)
    requires
        0 <= n,
    ensures
        2 * spec_pairs(n).len() == n * (n - 1),
{
    lemma_pairs_below_len(n, n);
    assert(n * (2 * n - n - 1) == n * (n - 1)) by (nonlinear_arith);
}

/// Every enumerated pair is ascending and within the range.
pub proof fn lemma_pairs_valid(i: int, n: int, p: int)
    requires
        0 <= i <= n,
        0 <= p < pairs_below(i, n).len(),
    ensures
        0 <= pairs_below(i, n)[p].0 < pairs_below(i, n)[p].1 < n,
        pairs_below(i, n)[p].0 < i,
    decreases i,
{
    if i > 0 {
        if p < pairs_below(i - 1, n).len() {
            lemma_pairs_valid(i - 1, n, p);
        }
    }
}

/// Every ascending pair within the range is enumerated.
pub proof fn lemma_pairs_complete(i: int, n: int, a: int, b: int)
    requires
        0 <= a < b < n,
        a < i <= n,
    ensures
        pairs_below(i, n).contains((a, b)),
    decreases i,
{
    let front = pairs_below(i - 1, n);
    if a == i - 1 {
        assert(pairs_with(a, n)[b - a - 1] == (a, b));
        assert(pairs_below(i, n)[front.len() + (b - a - 1)] == (a, b));
    } else {
        lemma_pairs_complete(i - 1, n, a, b);
        let p = choose|p: int| 0 <= p < front.len() && front[p] == (a, b);
        assert(pairs_below(i, n)[p] == (a, b));
    }
}

/// The entry holds the elements of `slice` at the positions of `pair`.
pub open spec fn holds_pair<T>(entry: (&T, &T), slice: Seq<T>, pair: (int, int)) -> bool {
    &&& 0 <= pair.0 < pair.1 < slice.len()
    &&& *entry.0 == slice[pair.0]
    &&& *entry.1 == slice[pair.1]
}

/// All unordered pairs of elements of `slice`, each once: the element at the
/// earlier position comes first, and the pairs are ordered by the positions
/// of their elements.
pub fn pairs<T>(slice: &[T]) -> (ret: Vec<(&T, &T)>)
    ensures
        ret.len() == spec_pairs(slice.len() as int).len(),
        2 * ret.len() == slice.len() * (slice.len() - 1),
        forall|p: int|
            0 <= p < ret.len() ==> #[trigger] holds_pair(
                ret[p],
                slice@,
                spec_pairs(slice.len() as int)[p],
            ),
{
    let n = slice.len();
    let mut ret: Vec<(&T, &T)> = Vec::new();
    let mut i: usize = 0;
    while i < n
        invariant
            i <= n,
            n == slice.len(),
            ret.len() == pairs_below(i as int, n as int).len(),
            forall|p: int|
                0 <= p < ret.len() ==> #[trigger] holds_pair(
                    ret[p],
                    slice@,
                    pairs_below(i as int, n as int)[p],
                ),
        decreases n - i,
    {
        let ghost front = pairs_below(i as int, n as int);
        let ghost row = pairs_with(i as int, n as int);
        let ghost both = front + row;
        let mut j: usize = i + 1;
        assert forall|p: int| 0 <= p < ret.len() implies #[trigger] holds_pair(
            ret[p],
            slice@,
            both[p],
        ) by {
            assert(holds_pair(ret[p], slice@, front[p]));
            assert(both[p] == front[p]);
        }
        while j < n
            invariant
                i < j <= n,
                n == slice.len(),
                front == pairs_below(i as int, n as int),
                row == pairs_with(i as int, n as int),
                both == front + row,
                ret.len() == front.len() + (j - i - 1),
                forall|p: int| 0 <= p < ret.len() ==> #[trigger] holds_pair(ret[p], slice@, both[p]),
            decreases n - j,
        {
            let ghost before = ret@;
            assert(both[ret.len() as int] == row[j - i - 1]);
            assert(row[j - i - 1] == (i as int, j as int));
            ret.push((&slice[i], &slice[j]));
            assert forall|p: int| 0 <= p < ret.len() implies #[trigger] holds_pair(
                ret[p],
                slice@,
                both[p],
            ) by {
                if p < before.len() {
                    assert(ret[p] == before[p]);
                    assert(holds_pair(before[p], slice@, both[p]));
                }
            }
            j += 1;
        }
        assert(pairs_below(i + 1, n as int) == both);
        i += 1;
    }
    proof {
        lemma_pairs_len(n as int);
        assert(n * (n - 1) == slice.len() * (slice.len() - 1));
    }
    ret
}

} // verus!
