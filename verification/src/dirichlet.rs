//! Dirichlet boundary structure: which states are absorbing, which are
//! interior, and how the boundary acts on an operator's rows.
use std::collections::HashSet;
use vstd::prelude::*;

verus! {

/// The interior states among `0..k`: those not listed in `boundary`,
/// in increasing order.
pub open spec fn interior_upto(k: nat, boundary: Seq<usize>) -> Seq<usize>
    decreases k,
{
    if k == 0 {
        Seq::empty()
    } else {
        let prev = interior_upto((k - 1) as nat, boundary);
        let s = (k - 1) as usize;
        if boundary.contains(s) {
            prev
        } else {
            prev.push(s)
        }
    }
}

/// The states listed in `v`, as a hash set.
fn state_set(v: &Vec<usize>) -> (r: HashSet<usize>)
    ensures
        forall|x: usize| #[trigger] r@.contains(x) <==> v@.contains(x),
{
    broadcast use vstd::std_specs::hash::group_hash_axioms;

    let mut r: HashSet<usize> = HashSet::new();
    let mut k: usize = 0;
    while k < v.len()
        invariant
            k <= v.len(),
            forall|x: usize| #[trigger] r@.contains(x) <==> v@.take(k as int).contains(x),
        decreases v.len() - k,
    {
        let ghost before = r@;
        r.insert(v[k]);
        proof {
            let taken = v@.take(k as int + 1);
            assert forall|x: usize| #[trigger] r@.contains(x) <==> taken.contains(x) by {
                if taken.contains(x) {
                    let w = choose|w: int| 0 <= w < taken.len() && taken[w] == x;
                    if w < k {
                        assert(v@.take(k as int)[w] == x);
                    }
                }
                if before.contains(x) {
                    let w = choose|w: int| 0 <= w < k && v@.take(k as int)[w] == x;
                    assert(taken[w] == x);
                }
                if x == v@[k as int] {
                    assert(taken[k as int] == x);
                }
            }
        }
        k = k + 1;
    }
    assert(v@.take(v@.len() as int) =~= v@);
    r
}

/// The rows of a matrix stored as a vector of row vectors, each row by its view.
pub open spec fn rows_view<T>(m: Seq<Vec<T>>) -> Seq<Seq<T>> {
    Seq::new(m.len(), |i: int| m[i]@)
}

/// The length of the first row of `m` (0 when `m` has no rows).
pub open spec fn row_len<T>(m: Seq<Vec<T>>) -> nat {
    if m.len() == 0 {
        0
    } else {
        m[0]@.len()
    }
}

/// `m` has `n_rows` rows of `n_cols` entries each.
pub open spec fn is_matrix<T>(m: Seq<Vec<T>>, n_rows: nat, n_cols: nat) -> bool {
    &&& m.len() == n_rows
    &&& forall|i: int| 0 <= i < n_rows ==> (#[trigger] m[i])@.len() == n_cols
}

/// Every listed state is an index below `n`.
pub open spec fn states_in_range(states: Seq<usize>, n: nat) -> bool {
    forall|k: int| 0 <= k < states.len() ==> (#[trigger] states[k]) < n
}

/// The matrix `m` (with `n` rows) in which every row whose index is listed
/// in `boundary` has its first `n` entries set to `zero` (absorbing
/// condition); for a square matrix the whole row becomes `zero`.
pub open spec fn dirichlet_rows<T>(m: Seq<Seq<T>>, boundary: Seq<usize>, zero: T) -> Seq<Seq<T>> {
    Seq::new(
        m.len(),
        |i: int|
            if boundary.contains(i as usize) {
                Seq::new(m[i].len(), |j: int| if j < m.len() { zero } else { m[i][j] })
            } else {
                m[i]
            },
    )
}

/// The square submatrix of `m` on the index list `idx`:
/// entry `(a, b)` is `m[idx[a]][idx[b]]`.
pub open spec fn submatrix<T>(m: Seq<Seq<T>>, idx: Seq<usize>) -> Seq<Seq<T>> {
    Seq::new(idx.len(), |a: int| Seq::new(idx.len(), |b: int| m[idx[a] as int][idx[b] as int]))
}

/// `row` with its first `n` entries replaced by `zero`.
fn zero_prefix<T: Copy>(row: &Vec<T>, n: usize, zero: T) -> (r: Vec<T>)
    requires
        n <= row@.len(),
    ensures
        r@ == Seq::new(row@.len(), |j: int| if j < n { zero } else { row@[j] }),
{
    let ghost target = Seq::new(row@.len(), |j: int| if j < n { zero } else { row@[j] });
    let mut r: Vec<T> = Vec::new();
    let mut j: usize = 0;
    while j < row.len()
        invariant
            j <= row@.len(),
            n <= row@.len(),
            target == Seq::new(row@.len(), |k: int| if k < n { zero } else { row@[k] }),
            r@ == target.take(j as int),
        decreases row@.len() - j,
    {
        if j < n {
            r.push(zero);
        } else {
            r.push(row[j]);
        }
        j = j + 1;
        assert(r@ =~= target.take(j as int));
    }
    assert(r@ =~= target);
    r
}

/// Applies the absorbing (Dirichlet) condition to an `n`-row matrix: every
/// row listed in `rows` gets its first `n` entries set to `zero`.
pub fn apply_dirichlet_boundary<T: Copy>(m: &mut Vec<Vec<T>>, rows: &Vec<usize>, zero: T)
    requires
        is_matrix(old(m)@, old(m)@.len(), row_len(old(m)@)),
        rows@.len() > 0 ==> row_len(old(m)@) >= old(m)@.len(),
        states_in_range(rows@, old(m)@.len()),
    ensures
        is_matrix(final(m)@, old(m)@.len(), row_len(old(m)@)),
        rows_view(final(m)@) == dirichlet_rows(rows_view(old(m)@), rows@, zero),
        forall|k: int, j: int|
            0 <= k < rows@.len() && 0 <= j < old(m)@.len() ==> #[trigger] final(m)@[rows@[k] as int]@[j]
                == zero,
        forall|i: int, j: int|
            0 <= i < old(m)@.len() && 0 <= j < row_len(old(m)@) && (old(m)@.len() <= j || forall|k: int|
                0 <= k < rows@.len() ==> rows@[k] != i) ==> #[trigger] final(m)@[i]@[j] == old(
                m,
            )@[i]@[j],
{
    proof {
        assert(rows_view(old(m)@).len() == old(m)@.len());
        assert(old(m)@.len() == old(m).len());
        lemma_dirichlet_rows_entries(rows_view(old(m)@), rows@, zero);
    }
    let ghost orig = rows_view(m@);
    let ghost n = m@.len();
    let ghost c = row_len(m@);
    let n_rows = m.len();
    let mut k: usize = 0;
    while k < rows.len()
        invariant
            k <= rows.len(),
            n == m@.len(),
            n_rows == n,
            orig.len() == n,
            is_matrix(m@, n, c),
            rows@.len() > 0 ==> c >= n,
            forall|i: int| 0 <= i < n ==> (#[trigger] orig[i]).len() == c,
            states_in_range(rows@, n),
            rows_view(m@) == dirichlet_rows(orig, rows@.take(k as int), zero),
        decreases rows.len() - k,
    {
        let s = rows[k];
        let ghost prev = rows_view(m@);
        let row = zero_prefix(&m[s], n_rows, zero);
        m.set(s, row);
        proof {
            let taken = rows@.take(k as int + 1);
            assert(taken =~= rows@.take(k as int).push(s));
            assert forall|i: int| 0 <= i < n implies #[trigger] m@[i]@.len() == c by {
                if i != s as int {
                    assert(m@[i]@ == rows_view(m@)[i]);
                }
            }
            assert forall|i: int| 0 <= i < n implies #[trigger] rows_view(m@)[i] == dirichlet_rows(orig, taken, zero)[i] by {
                if i == s as int {
                    assert(taken[k as int] == s);
                    assert(taken.contains(s));
                    assert(prev[i] == dirichlet_rows(orig, rows@.take(k as int), zero)[i]);
                    assert(prev[i].len() == orig[i].len());
                    assert forall|j: int| n <= j < orig[i].len() implies prev[i][j] == orig[i][j] by {
                    }
                    assert(rows_view(m@)[i] =~= dirichlet_rows(orig, taken, zero)[i]);
                } else {
                    assert(rows_view(m@)[i] == prev[i]);
                    if taken.contains(i as usize) {
                        let w = choose|w: int| 0 <= w < taken.len() && taken[w] == i as usize;
                        assert(w < k);
                        assert(rows@.take(k as int)[w] == i as usize);
                    }
                    if rows@.take(k as int).contains(i as usize) {
                        let w = choose|w: int| 0 <= w < k && rows@.take(k as int)[w] == i as usize;
                        assert(taken[w] == i as usize);
                    }
                }
            }
            assert(rows_view(m@) =~= dirichlet_rows(orig, taken, zero));
        }
        k = k + 1;
    }
    assert(rows@.take(rows@.len() as int) =~= rows@);
    let ghost d = dirichlet_rows(orig, rows@, zero);
    assert forall|k: int, j: int| 0 <= k < rows@.len() && 0 <= j < n implies #[trigger] m@[rows@[k] as int]@[j] == zero by {
        assert(rows_view(m@)[rows@[k] as int] == m@[rows@[k] as int]@);
        assert(d[rows@[k] as int][j] == zero);
    }
    assert forall|i: int, j: int|
        0 <= i < n && 0 <= j < c && (n <= j || forall|k: int| 0 <= k < rows@.len() ==> rows@[k] != i)
        implies #[trigger] m@[i]@[j] == old(m)@[i]@[j] by {
        assert(rows_view(m@)[i] == m@[i]@);
        assert(orig[i] == old(m)@[i]@);
        assert(d[i][j] == orig[i][j]);
    }
}

/// Interior and boundary states partition `0..n`: the interior listing is
/// strictly increasing, holds only indices below `n`, and holds exactly the
/// indices below `n` that are not boundary states.
pub proof fn lemma_interior_partition(n: nat, boundary: Seq<usize>)
    requires
        n <= usize::MAX + 1,
    ensures
        forall|a: int, b: int|
            0 <= a < b < interior_upto(n, boundary).len() ==> interior_upto(n, boundary)[a]
                < interior_upto(n, boundary)[b],
        forall|a: int|
            0 <= a < interior_upto(n, boundary).len() ==> (#[trigger] interior_upto(n, boundary)[a])
                < n,
        forall|s: usize|
            (s < n && !boundary.contains(s)) <==> #[trigger] interior_upto(n, boundary).contains(s),
    decreases n,
{
    if n > 0 {
        let k = (n - 1) as nat;
        lemma_interior_partition(k, boundary);
        let prev = interior_upto(k, boundary);
        let cur = interior_upto(n, boundary);
        let last = k as usize;
        assert forall|s: usize| (s < n && !boundary.contains(s)) <==> #[trigger] cur.contains(s) by {
            if cur.contains(s) {
                let w = choose|w: int| 0 <= w < cur.len() && cur[w] == s;
                if w < prev.len() {
                    assert(prev[w] == s);
                    assert(prev.contains(s));
                }
            }
            if s < n && !boundary.contains(s) {
                if s < k {
                    assert(prev.contains(s));
                    let w = choose|w: int| 0 <= w < prev.len() && prev[w] == s;
                    assert(cur[w] == s);
                } else {
                    assert(cur[cur.len() - 1] == s);
                }
            }
        }
    }
}

/// The boundary states below `k`, as a set.
pub open spec fn boundary_upto(k: nat, boundary: Seq<usize>) -> Set<usize>
    decreases k,
{
    if k == 0 {
        Set::empty()
    } else {
        let prev = boundary_upto((k - 1) as nat, boundary);
        let s = (k - 1) as usize;
        if boundary.contains(s) {
            prev.insert(s)
        } else {
            prev
        }
    }
}

proof fn lemma_count_upto(k: nat, boundary: Seq<usize>)
    requires
        k <= usize::MAX + 1,
    ensures
        boundary_upto(k, boundary).finite(),
        forall|s: usize| #[trigger] boundary_upto(k, boundary).contains(s) <==> (s < k && boundary.contains(s)),
        interior_upto(k, boundary).len() + boundary_upto(k, boundary).len() == k,
    decreases k,
{
    if k > 0 {
        lemma_count_upto((k - 1) as nat, boundary);
    }
}

/// The interior states and the distinct boundary states together number
/// exactly `n`: every state is one or the other, never both.
pub proof fn lemma_interior_count(n: nat, boundary: Seq<usize>)
    requires
        n <= usize::MAX + 1,
        states_in_range(boundary, n),
    ensures
        interior_upto(n, boundary).len() + boundary.to_set().len() == n,
{
    lemma_count_upto(n, boundary);
    assert forall|s: usize| #[trigger] boundary.to_set().contains(s) <==> boundary_upto(n, boundary).contains(s) by {
        if boundary.contains(s) {
            let w = choose|w: int| 0 <= w < boundary.len() && boundary[w] == s;
            assert(boundary[w] < n);
        }
    }
    assert(boundary.to_set() =~= boundary_upto(n, boundary));
}

/// Imposing the absorbing condition leaves the interior submatrix unchanged:
/// only boundary rows are replaced, and no interior index is a boundary state.
pub proof fn lemma_interior_unaffected_by_boundary<T>(m: Seq<Seq<T>>, boundary: Seq<usize>, zero: T)
    requires
        m.len() <= usize::MAX + 1,
    ensures
        submatrix(dirichlet_rows(m, boundary, zero), interior_upto(m.len(), boundary))
            == submatrix(m, interior_upto(m.len(), boundary)),
{
    let idx = interior_upto(m.len(), boundary);
    lemma_interior_partition(m.len(), boundary);
    let d = dirichlet_rows(m, boundary, zero);
    assert forall|a: int| 0 <= a < idx.len() implies #[trigger] submatrix(d, idx)[a] == submatrix(m, idx)[a] by {
        assert(idx.contains(idx[a]));
        assert(!boundary.contains(idx[a]));
        assert(d[idx[a] as int] == m[idx[a] as int]);
        assert(submatrix(d, idx)[a] =~= submatrix(m, idx)[a]);
    }
    assert(submatrix(d, idx) =~= submatrix(m, idx));
}

/// The absorbing condition is idempotent: imposing it twice on the same
/// states gives the same operator as imposing it once.
pub proof fn lemma_dirichlet_rows_idempotent<T>(m: Seq<Seq<T>>, boundary: Seq<usize>, zero: T)
    ensures
        dirichlet_rows(dirichlet_rows(m, boundary, zero), boundary, zero)
            == dirichlet_rows(m, boundary, zero),
{
    let d = dirichlet_rows(m, boundary, zero);
    let dd = dirichlet_rows(d, boundary, zero);
    assert forall|i: int| 0 <= i < m.len() implies #[trigger] dd[i] == d[i] by {
        if boundary.contains(i as usize) {
            assert(dd[i] =~= d[i]);
        }
    }
    assert(dd =~= d);
}

/// The listed boundary states that are not among `targets`, in their order.
pub open spec fn states_outside(states: Seq<usize>, targets: Seq<usize>) -> Seq<usize>
    decreases states.len(),
{
    if states.len() == 0 {
        Seq::empty()
    } else {
        let prev = states_outside(states.drop_last(), targets);
        if targets.contains(states.last()) {
            prev
        } else {
            prev.push(states.last())
        }
    }
}

/// The boundary states kept for a committor are exactly the listed
/// boundary states that are not targets, whatever the order of either list,
/// in the order of the boundary list (the boundary list filtered by
/// "not a target").
pub proof fn lemma_states_outside_filter(states: Seq<usize>, targets: Seq<usize>)
    ensures
        states_outside(states, targets) == states.filter(|x: usize| !targets.contains(x)),
        forall|x: usize| #[trigger]
            states_outside(states, targets).contains(x) <==> (states.contains(x) && !targets.contains(
                x,
            )),
    decreases states.len(),
{
    reveal(Seq::filter);
    if states.len() > 0 {
        let init = states.drop_last();
        let last = states.last();
        lemma_states_outside_filter(init, targets);
        let prev = states_outside(init, targets);
        let cur = states_outside(states, targets);
        assert forall|x: usize| #[trigger] cur.contains(x) <==> (states.contains(x) && !targets.contains(x)) by {
            if cur.contains(x) {
                let w = choose|w: int| 0 <= w < cur.len() && cur[w] == x;
                if w < prev.len() {
                    assert(prev[w] == x);
                    assert(prev.contains(x));
                    let v = choose|v: int| 0 <= v < init.len() && init[v] == x;
                    assert(states[v] == x);
                } else {
                    assert(x == last);
                    assert(states[states.len() - 1] == x);
                }
            }
            if states.contains(x) && !targets.contains(x) {
                let v = choose|v: int| 0 <= v < states.len() && states[v] == x;
                if v < states.len() - 1 {
                    assert(init[v] == x);
                    assert(prev.contains(x));
                    let w = choose|w: int| 0 <= w < prev.len() && prev[w] == x;
                    assert(cur[w] == x);
                } else {
                    assert(cur[cur.len() - 1] == x);
                }
            }
        }
    }
}

/// The absorbing condition, entry by entry: in the row of every listed
/// boundary state (whatever the order of the list, repeats included) every
/// entry before column `n` is `zero`, diagonal included; every entry of a
/// row that no listed state names, and every entry from column `n` on, is
/// the input's; the shape is unchanged.
pub proof fn lemma_dirichlet_rows_entries<T>(m: Seq<Seq<T>>, boundary: Seq<usize>, zero: T)
    requires
        m.len() <= usize::MAX + 1,
    ensures
        dirichlet_rows(m, boundary, zero).len() == m.len(),
        forall|i: int|
            0 <= i < m.len() ==> (#[trigger] dirichlet_rows(m, boundary, zero)[i]).len() == m[i].len(),
        forall|k: int, j: int|
            0 <= k < boundary.len() && boundary[k] < m.len() && 0 <= j < m.len() && j
                < m[boundary[k] as int].len() ==> #[trigger] dirichlet_rows(m, boundary, zero)[boundary[k] as int][j]
                == zero,
        forall|i: int, j: int|
            0 <= i < m.len() && 0 <= j < m[i].len() && (m.len() <= j || forall|k: int|
                0 <= k < boundary.len() ==> boundary[k] != i) ==> #[trigger] dirichlet_rows(
                m,
                boundary,
                zero,
            )[i][j] == m[i][j],
{
    let d = dirichlet_rows(m, boundary, zero);
    assert forall|k: int, j: int|
        0 <= k < boundary.len() && boundary[k] < m.len() && 0 <= j < m.len() && j
            < m[boundary[k] as int].len() implies #[trigger] d[boundary[k] as int][j] == zero by {
        assert(boundary.contains(boundary[k]));
        assert((boundary[k] as int) as usize == boundary[k]);
    }
    assert forall|i: int, j: int|
        0 <= i < m.len() && 0 <= j < m[i].len() && (m.len() <= j || forall|k: int|
            0 <= k < boundary.len() ==> boundary[k] != i) implies #[trigger] d[i][j] == m[i][j] by {
        if boundary.contains(i as usize) && j < m.len() {
            let k = choose|k: int| 0 <= k < boundary.len() && boundary[k] == i as usize;
            assert(boundary[k] == i);
        }
    }
}

/// Entry `(a, b)` of a submatrix on an index list is the matrix entry at row
/// `idx[a]` and column `idx[b]`, for every `a` and `b` below the list's length.
pub proof fn lemma_submatrix_entries<T>(m: Seq<Seq<T>>, idx: Seq<usize>)
    ensures
        submatrix(m, idx).len() == idx.len(),
        forall|a: int| 0 <= a < idx.len() ==> (#[trigger] submatrix(m, idx)[a]).len() == idx.len(),
        forall|a: int, b: int|
            0 <= a < idx.len() && 0 <= b < idx.len() ==> #[trigger] submatrix(m, idx)[a][b]
                == m[idx[a] as int][idx[b] as int],
{
}

/// The transition operator of a killed (absorbing) process: rows of the
/// boundary states are zero.  Entries have the generic type `T`.
pub struct DirichletLaplacian<T> {
    /// The operator matrix, one vector per row.
    pub operator: Vec<Vec<T>>,
    /// Number of states.
    pub n_states: usize,
    /// Indices of the boundary (absorbing) states.
    pub boundary_states: Vec<usize>,
}

impl<T: Copy> DirichletLaplacian<T> {
    /// The operator has `n_states` rows of equal length and every boundary
    /// state is a state index.
    pub open spec fn wf(&self) -> bool {
        &&& is_matrix(self.operator@, self.n_states as nat, row_len(self.operator@))
        &&& states_in_range(self.boundary_states@, self.n_states as nat)
    }

    /// The interior states of this operator, in increasing order.
    pub open spec fn interior(&self) -> Seq<usize> {
        interior_upto(self.n_states as nat, self.boundary_states@)
    }

    /// Builds the operator from a transition kernel with `n` rows: in the row
    /// of each boundary state the first `n` entries are set to `zero` (the
    /// whole row, for a square kernel).
    pub fn new(transition_kernel: Vec<Vec<T>>, boundary_states: Vec<usize>, zero: T) -> (r: Self)
        requires
            is_matrix(transition_kernel@, transition_kernel@.len(), row_len(transition_kernel@)),
            boundary_states@.len() > 0 ==> row_len(transition_kernel@) >= transition_kernel@.len(),
            states_in_range(boundary_states@, transition_kernel@.len()),
        ensures
            r.wf(),
            r.n_states == transition_kernel@.len(),
            r.boundary_states@ == boundary_states@,
            rows_view(r.operator@) == dirichlet_rows(
                rows_view(transition_kernel@),
                boundary_states@,
                zero,
            ),
            forall|k: int, j: int|
                0 <= k < boundary_states@.len() && 0 <= j < transition_kernel@.len()
                    ==> #[trigger] r.operator@[boundary_states@[k] as int]@[j] == zero,
            forall|i: int, j: int|
                0 <= i < transition_kernel@.len() && 0 <= j < row_len(transition_kernel@) && (
                transition_kernel@.len() <= j || forall|k: int|
                    0 <= k < boundary_states@.len() ==> boundary_states@[k] != i)
                    ==> #[trigger] r.operator@[i]@[j] == transition_kernel@[i]@[j],
    {
        let n = transition_kernel.len();
        let mut op = transition_kernel;
        apply_dirichlet_boundary(&mut op, &boundary_states, zero);
        proof {
            if n > 0 {
                assert(op@[0]@.len() == row_len(transition_kernel@));
            }
        }
        DirichletLaplacian { operator: op, n_states: n, boundary_states }
    }

    /// The non-boundary state indices, in increasing order.
    pub fn interior_states(&self) -> (r: Vec<usize>)
        ensures
            r@ == self.interior(),
            forall|a: int, b: int| 0 <= a < b < r@.len() ==> r@[a] < r@[b],
            forall|s: usize| #[trigger]
                r@.contains(s) <==> (s < self.n_states && !self.boundary_states@.contains(s)),
    {
        proof {
            lemma_interior_partition(self.n_states as nat, self.boundary_states@);
        }
        broadcast use vstd::std_specs::hash::group_hash_axioms;

        let boundary = state_set(&self.boundary_states);
        let mut r: Vec<usize> = Vec::new();
        let mut s: usize = 0;
        while s < self.n_states
            invariant
                s <= self.n_states,
                forall|x: usize| #[trigger] boundary@.contains(x) <==> self.boundary_states@.contains(x),
                r@ == interior_upto(s as nat, self.boundary_states@),
            decreases self.n_states - s,
        {
            if !boundary.contains(&s) {
                r.push(s);
            }
            s = s + 1;
        }
        r
    }

    /// The operator restricted to the interior states: entry `(a, b)` is the
    /// operator's entry at `(interior[a], interior[b])`.
    pub fn interior_operator(&self) -> (r: Vec<Vec<T>>)
        requires
            forall|k: int|
                0 <= k < self.interior().len() ==> (#[trigger] self.interior()[k])
                    < self.operator@.len(),
            forall|k: int, l: int|
                #![trigger self.interior()[k], self.interior()[l]]
                0 <= k < self.interior().len() && 0 <= l < self.interior().len() ==> self.interior()[l]
                    < self.operator@[self.interior()[k] as int]@.len(),
        ensures
            rows_view(r@) == submatrix(rows_view(self.operator@), self.interior()),
            is_matrix(r@, self.interior().len(), self.interior().len()),
            forall|a: int, b: int|
                0 <= a < self.interior().len() && 0 <= b < self.interior().len() ==> #[trigger] r@[a]@[b]
                    == self.operator@[self.interior()[a] as int]@[self.interior()[b] as int],
    {
        let interior = self.interior_states();
        let m = interior.len();
        let ghost full = rows_view(self.operator@);
        let ghost target = submatrix(full, interior@);
        let mut sub: Vec<Vec<T>> = Vec::new();
        let mut a: usize = 0;
        while a < m
            invariant
                a <= m,
                m == interior@.len(),
                interior@ == self.interior(),
                full == rows_view(self.operator@),
                target == submatrix(full, interior@),
                forall|k: int| 0 <= k < m ==> (#[trigger] interior@[k]) < self.operator@.len(),
                forall|k: int, l: int|
                    #![trigger interior@[k], interior@[l]]
                    0 <= k < m && 0 <= l < m ==> interior@[l] < self.operator@[interior@[k] as int]@.len(),
                sub@.len() == a,
                forall|i: int| 0 <= i < a ==> (#[trigger] sub@[i])@ == target[i],
            decreases m - a,
        {
            let si = interior[a];
            let mut row: Vec<T> = Vec::new();
            let mut b: usize = 0;
            while b < m
                invariant
                    b <= m,
                    a < m,
                    m == interior@.len(),
                    si == interior@[a as int],
                    full == rows_view(self.operator@),
                    target == submatrix(full, interior@),
                    forall|k: int| 0 <= k < m ==> (#[trigger] interior@[k]) < self.operator@.len(),
                    forall|k: int, l: int|
                        #![trigger interior@[k], interior@[l]]
                        0 <= k < m && 0 <= l < m ==> interior@[l] < self.operator@[interior@[k] as int]@.len(),
                    row@ == target[a as int].take(b as int),
                decreases m - b,
            {
                let sj = interior[b];
                let x = self.operator[si][sj];
                proof {
                    assert(full[si as int] == self.operator@[si as int]@);
                }
                row.push(x);
                b = b + 1;
                assert(row@ =~= target[a as int].take(b as int));
            }
            assert(row@ =~= target[a as int]);
            sub.push(row);
            a = a + 1;
        }
        assert(rows_view(sub@) =~= target);
        proof {
            lemma_submatrix_entries(full, interior@);
            assert forall|a: int, b: int| 0 <= a < m && 0 <= b < m implies #[trigger] sub@[a]@[b]
                == self.operator@[interior@[a] as int]@[interior@[b] as int] by {
                assert(rows_view(sub@)[a] == sub@[a]@);
                assert(full[interior@[a] as int] == self.operator@[interior@[a] as int]@);
            }
        }
        sub
    }

    /// The boundary states that are not among `target_boundary`, in the
    /// order in which the boundary lists them.
    pub fn other_boundary_states(&self, target_boundary: &Vec<usize>) -> (r: Vec<usize>)
        ensures
            r@ == states_outside(self.boundary_states@, target_boundary@),
            r@ == self.boundary_states@.filter(|x: usize| !target_boundary@.contains(x)),
            forall|x: usize| #[trigger]
                r@.contains(x) <==> (self.boundary_states@.contains(x) && !target_boundary@.contains(x)),
    {
        proof {
            lemma_states_outside_filter(self.boundary_states@, target_boundary@);
        }
        broadcast use vstd::std_specs::hash::group_hash_axioms;

        let targets = state_set(target_boundary);
        let mut r: Vec<usize> = Vec::new();
        let mut k: usize = 0;
        while k < self.boundary_states.len()
            invariant
                k <= self.boundary_states@.len(),
                forall|x: usize| #[trigger] targets@.contains(x) <==> target_boundary@.contains(x),
                r@ == states_outside(self.boundary_states@.take(k as int), target_boundary@),
            decreases self.boundary_states@.len() - k,
        {
            let s = self.boundary_states[k];
            proof {
                let t = self.boundary_states@.take(k as int + 1);
                assert(t.drop_last() =~= self.boundary_states@.take(k as int));
                assert(t.last() == s);
            }
            if !targets.contains(&s) {
                r.push(s);
            }
            k = k + 1;
        }
        assert(self.boundary_states@.take(self.boundary_states@.len() as int) =~= self.boundary_states@);
        r
    }
}

} // verus!
