//! Transition structure of the grid-world and chain MDPs: which successor
//! states carry the (uniform) passive transition probability of each state.
use vstd::prelude::*;

verus! {

/// The neighbours of `state` in a `size` by `size` grid (row-major), in the
/// order up, down, left, right, keeping those inside the grid.
pub open spec fn grid_neighbors(size: nat, state: nat) -> Seq<usize> {
    let r = state / size;
    let c = state % size;
    let up = if r > 0 { seq![((r - 1) * size + c) as usize] } else { Seq::empty() };
    let down = if r + 1 < size { seq![((r + 1) * size + c) as usize] } else { Seq::empty() };
    let left = if c > 0 { seq![(r * size + (c - 1)) as usize] } else { Seq::empty() };
    let right = if c + 1 < size { seq![(r * size + (c + 1)) as usize] } else { Seq::empty() };
    up + down + left + right
}

/// Row and column of a cell: `r * size + c` with `c < size` has row `r` and
/// column `c`.
pub proof fn lemma_cell_coords(size: nat, r: nat, c: nat)
    requires
        c < size,
    ensures
        (r * size + c) / size == r,
        (r * size + c) % size == c,
{
    vstd::arithmetic::div_mod::lemma_fundamental_div_mod_converse(
        (r * size + c) as int,
        size as int,
        r as int,
        c as int,
    );
}

/// A cell whose row and column are below `size` lies inside the grid.
pub proof fn lemma_cell_in_grid(size: nat, r: nat, c: nat)
    requires
        r < size,
        c < size,
    ensures
        r * size + c < size * size,
{
    assert(r * size + c < size * size) by (nonlinear_arith)
        requires
            r < size,
            c < size,
    ;
}

/// A state inside the grid has a row and a column below `size` and is
/// recovered from them.
pub proof fn lemma_state_coords(size: nat, state: nat)
    requires
        state < size * size,
    ensures
        size > 0,
        state / size < size,
        state % size < size,
        state == (state / size) * size + state % size,
{
    if size == 0 {
        assert(size * size == 0);
    }
    vstd::arithmetic::div_mod::lemma_fundamental_div_mod(state as int, size as int);
    let r = state / size;
    let c = state % size;
    assert(state == size * r + c);
    assert(r * size == size * r) by (nonlinear_arith);
    if r >= size {
        assert(r * size >= size * size) by (nonlinear_arith)
            requires
                r >= size,
        ;
    }
}

/// The neighbours of `state` in a `size` by `size` grid world.
pub fn gridworld_neighbors(size: usize, state: usize) -> (r: Vec<usize>)
    requires
        size * size <= usize::MAX,
        state < size * size,
    ensures
        r@ == grid_neighbors(size as nat, state as nat),
        r@.no_duplicates(),
        forall|x: usize| #[trigger]
            r@.contains(x) <==> (x < size * size && grid_adjacent(size as nat, state as nat, x as nat)),
{
    proof {
        lemma_state_coords(size as nat, state as nat);
    }
    let row = state / size;
    let col = state % size;
    let mut nb: Vec<usize> = Vec::new();
    if row > 0 {
        proof {
            lemma_cell_in_grid(size as nat, (row - 1) as nat, col as nat);
        }
        nb.push((row - 1) * size + col);
    }
    if row + 1 < size {
        proof {
            lemma_cell_in_grid(size as nat, (row + 1) as nat, col as nat);
        }
        nb.push((row + 1) * size + col);
    }
    if col > 0 {
        proof {
            lemma_cell_in_grid(size as nat, row as nat, (col - 1) as nat);
        }
        nb.push(row * size + (col - 1));
    }
    if col + 1 < size {
        proof {
            lemma_cell_in_grid(size as nat, row as nat, (col + 1) as nat);
        }
        nb.push(row * size + (col + 1));
    }
    assert(nb@ =~= grid_neighbors(size as nat, state as nat));
    proof {
        lemma_grid_neighbors_facts(size as nat, state as nat);
        assert forall|x: usize| #[trigger] nb@.contains(x) <==> (x < size * size && grid_adjacent(size as nat, state as nat, x as nat)) by {
            lemma_grid_neighbors_adjacent(size as nat, state as nat, x);
        }
    }
    nb
}

/// Two grid cells are adjacent when they lie in the same row in adjacent
/// columns, or in the same column in adjacent rows.
pub open spec fn grid_adjacent(size: nat, i: nat, j: nat) -> bool {
    let ri = i / size;
    let ci = i % size;
    let rj = j / size;
    let cj = j % size;
    ||| ri == rj && (ci + 1 == cj || cj + 1 == ci)
    ||| ci == cj && (ri + 1 == rj || rj + 1 == ri)
}

proof fn lemma_singleton_contains(v: usize, x: usize)
    ensures
        seq![v].contains(x) <==> x == v,
{
    if x == v {
        assert(seq![v][0] == x);
    }
}

/// The neighbours of a grid cell are exactly the cells adjacent to it.
pub proof fn lemma_grid_neighbors_adjacent(size: nat, i: nat, x: usize)
    requires
        size * size <= usize::MAX + 1,
        i < size * size,
    ensures
        grid_neighbors(size, i).contains(x) <==> (x < size * size && grid_adjacent(size, i, x as nat)),
{
    broadcast use vstd::seq_lib::lemma_seq_concat_contains_all_elements;

    lemma_state_coords(size, i);
    let r = i / size;
    let c = i % size;
    let up = ((r - 1) * size + c) as usize;
    let down = ((r + 1) * size + c) as usize;
    let left = (r * size + (c - 1)) as usize;
    let right = (r * size + (c + 1)) as usize;
    lemma_singleton_contains(up, x);
    lemma_singleton_contains(down, x);
    lemma_singleton_contains(left, x);
    lemma_singleton_contains(right, x);
    if r > 0 {
        lemma_cell_in_grid(size, (r - 1) as nat, c);
        lemma_cell_coords(size, (r - 1) as nat, c);
    }
    if r + 1 < size {
        lemma_cell_in_grid(size, (r + 1) as nat, c);
        lemma_cell_coords(size, (r + 1) as nat, c);
    }
    if c > 0 {
        lemma_cell_in_grid(size, r, (c - 1) as nat);
        lemma_cell_coords(size, r, (c - 1) as nat);
    }
    if c + 1 < size {
        lemma_cell_in_grid(size, r, (c + 1) as nat);
        lemma_cell_coords(size, r, (c + 1) as nat);
    }
    if x < size * size && grid_adjacent(size, i, x as nat) {
        lemma_state_coords(size, x as nat);
    }
}

/// Grid adjacency is symmetric: `j` is a neighbour of `i` exactly when `i`
/// is a neighbour of `j`, so every passive transition can be reversed.
pub proof fn lemma_grid_neighbors_symmetric(size: nat, i: usize, j: usize)
    requires
        size * size <= usize::MAX + 1,
        i < size * size,
        j < size * size,
    ensures
        grid_neighbors(size, i as nat).contains(j) <==> grid_neighbors(size, j as nat).contains(i),
{
    lemma_grid_neighbors_adjacent(size, i as nat, j);
    lemma_grid_neighbors_adjacent(size, j as nat, i);
}

/// Every neighbour is a cell of the grid other than the state itself, no
/// neighbour is listed twice, and a cell has at most four neighbours; in a
/// grid of side at least 2 every cell has at least two, so each row of the
/// uniform passive dynamics is well defined.
pub proof fn lemma_grid_neighbors_facts(size: nat, i: nat)
    requires
        size * size <= usize::MAX + 1,
        i < size * size,
    ensures
        forall|k: int|
            0 <= k < grid_neighbors(size, i).len() ==> (#[trigger] grid_neighbors(size, i)[k])
                < size * size,
        !grid_neighbors(size, i).contains(i as usize),
        grid_neighbors(size, i).no_duplicates(),
        grid_neighbors(size, i).len() <= 4,
        size >= 2 ==> grid_neighbors(size, i).len() >= 2,
{
    let nb = grid_neighbors(size, i);
    lemma_state_coords(size, i);
    let r = i / size;
    let c = i % size;
    assert forall|k: int| 0 <= k < nb.len() implies (#[trigger] nb[k]) < size * size && grid_adjacent(size, i, nb[k] as nat) by {
        assert(nb.contains(nb[k]));
        lemma_grid_neighbors_adjacent(size, i, nb[k]);
    }
    lemma_grid_neighbors_adjacent(size, i, i as usize);
    assert forall|a: int, b: int| 0 <= a < nb.len() && 0 <= b < nb.len() && a != b implies nb[a] != nb[b] by {
        if r > 0 {
            lemma_cell_coords(size, (r - 1) as nat, c);
            lemma_cell_in_grid(size, (r - 1) as nat, c);
        }
        if r + 1 < size {
            lemma_cell_coords(size, (r + 1) as nat, c);
            lemma_cell_in_grid(size, (r + 1) as nat, c);
        }
        if c > 0 {
            lemma_cell_coords(size, r, (c - 1) as nat);
            lemma_cell_in_grid(size, r, (c - 1) as nat);
        }
        if c + 1 < size {
            lemma_cell_coords(size, r, (c + 1) as nat);
            lemma_cell_in_grid(size, r, (c + 1) as nat);
        }
    }
}

/// `path` is a walk along grid neighbours (consecutive entries adjacent).
pub open spec fn is_grid_walk(size: nat, path: Seq<usize>) -> bool {
    &&& path.len() > 0
    &&& forall|k: int|
        0 <= k < path.len() - 1 ==> grid_neighbors(size, path[k] as nat).contains(#[trigger] path[k + 1])
}

/// Steps between two cells moving one row or column at a time.
pub open spec fn grid_distance(size: nat, i: nat, j: nat) -> nat {
    let ri = (i / size) as int;
    let ci = (i % size) as int;
    let rj = (j / size) as int;
    let cj = (j % size) as int;
    ((if ri >= rj { ri - rj } else { rj - ri }) + (if ci >= cj { ci - cj } else { cj - ci })) as nat
}

/// The passive dynamics of a grid world is irreducible: from every cell
/// there is a walk along neighbours to every other cell (here one of
/// `grid_distance` steps, moving first along the column, then along the row).
pub proof fn lemma_grid_connected(size: nat, i: usize, j: usize) -> (path: Seq<usize>)
    requires
        size * size <= usize::MAX + 1,
        i < size * size,
        j < size * size,
    ensures
        is_grid_walk(size, path),
        path[0] == i,
        path.last() == j,
        path.len() == grid_distance(size, i as nat, j as nat) + 1,
    decreases grid_distance(size, i as nat, j as nat),
{
    lemma_state_coords(size, i as nat);
    lemma_state_coords(size, j as nat);
    let ri = i as nat / size;
    let ci = i as nat % size;
    let rj = j as nat / size;
    let cj = j as nat % size;
    if i == j {
        seq![i]
    } else {
        let (nr, nc) = if ri < rj {
            ((ri + 1) as nat, ci)
        } else if ri > rj {
            ((ri - 1) as nat, ci)
        } else if ci < cj {
            (ri, (ci + 1) as nat)
        } else {
            (ri, (ci - 1) as nat)
        };
        if ri == rj && ci == cj {
            assert(i as nat == j as nat);
        }
        lemma_cell_in_grid(size, nr, nc);
        lemma_cell_coords(size, nr, nc);
        let next = (nr * size + nc) as usize;
        assert(next as nat == nr * size + nc);
        assert(grid_adjacent(size, i as nat, next as nat));
        lemma_grid_neighbors_adjacent(size, i as nat, next);
        let rest = lemma_grid_connected(size, next, j);
        let path = seq![i] + rest;
        assert forall|k: int| 0 <= k < path.len() - 1 implies grid_neighbors(size, path[k] as nat).contains(#[trigger] path[k + 1]) by {
            if k > 0 {
                let kk = k - 1;
                assert(path[k] == rest[kk]);
                assert(path[k + 1] == rest[kk + 1]);
                assert(grid_neighbors(size, rest[kk] as nat).contains(rest[kk + 1]));
            } else {
                assert(path[1] == next);
            }
        }
        path
    }
}

/// The successors of `state` in an `n`-state chain: the last state is
/// absorbing (itself), state `0` moves to itself or to `1`, any other state
/// to its left or right neighbour.
pub open spec fn chain_next(n: nat, state: nat) -> Seq<usize> {
    if state + 1 == n {
        seq![state as usize]
    } else if state == 0 {
        seq![0usize, 1usize]
    } else {
        seq![(state - 1) as usize, (state + 1) as usize]
    }
}

/// The successors of `state` in the chain MDP with `n` states.
pub fn chain_successors(n: usize, state: usize) -> (r: Vec<usize>)
    requires
        state < n,
    ensures
        r@ == chain_next(n as nat, state as nat),
        r@.no_duplicates(),
        forall|t: usize| #[trigger]
            r@.contains(t) <==> (if state + 1 == n {
                t == state
            } else {
                t == state + 1 || t + 1 == state || (state == 0 && t == 0)
            }),
{
    proof {
        lemma_chain_facts(n as nat, state as nat);
        lemma_chain_successor_members(n as nat, state as nat);
    }
    let mut next: Vec<usize> = Vec::new();
    if state == n - 1 {
        next.push(state);
    } else if state == 0 {
        next.push(state);
        next.push(state + 1);
    } else {
        next.push(state - 1);
        next.push(state + 1);
    }
    assert(next@ =~= chain_next(n as nat, state as nat));
    next
}


/// Every successor of a chain state is a state; successors are distinct and
/// each lies at most one step away.  The last state is absorbing (its only
/// successor is itself); every other state has exactly two successors, one
/// of them the next state towards the absorbing end.
pub proof fn lemma_chain_facts(n: nat, state: nat)
    requires
        state < n,
        n <= usize::MAX + 1,
    ensures
        forall|k: int|
            0 <= k < chain_next(n, state).len() ==> {
                let t = #[trigger] chain_next(n, state)[k] as int;
                &&& t < n
                &&& state - 1 <= t <= state + 1
            },
        chain_next(n, state).no_duplicates(),
        state + 1 == n ==> chain_next(n, state) == seq![state as usize],
        state + 1 < n ==> chain_next(n, state).len() == 2 && chain_next(n, state).contains(
            (state + 1) as usize,
        ),
{
    if state + 1 < n {
        assert(chain_next(n, state)[1] == (state + 1) as usize);
    }
}

/// The chain's successors by membership: the last state moves only to
/// itself; every other state moves to the next state and to the previous
/// one, state `0` to itself in place of a previous state.  So a state lists
/// itself exactly when it is state `0` or the last state, and an interior
/// state's successors are exactly `state - 1` and `state + 1`.
pub proof fn lemma_chain_successor_members(n: nat, state: nat)
    requires
        state < n,
        n <= usize::MAX + 1,
    ensures
        forall|t: usize| #[trigger]
            chain_next(n, state).contains(t) <==> (if state + 1 == n {
                t == state
            } else {
                t == state + 1 || t + 1 == state || (state == 0 && t == 0)
            }),
        chain_next(n, state).len() == (if state + 1 == n { 1nat } else { 2nat }),
        chain_next(n, state).contains(state as usize) <==> (state == 0 || state + 1 == n),
        0 < state && state + 1 < n ==> chain_next(n, state).contains((state - 1) as usize),
{
    let c = chain_next(n, state);
    assert forall|t: usize| #[trigger] c.contains(t) <==> (if state + 1 == n {
        t == state
    } else {
        t == state + 1 || t + 1 == state || (state == 0 && t == 0)
    }) by {
        if state + 1 == n {
            if t == state {
                assert(c[0] == t);
            }
        } else {
            if t == state + 1 {
                assert(c[1] == t);
            }
            if t + 1 == state || (state == 0 && t == 0) {
                assert(c[0] == t);
            }
        }
    }
    if state == 0 || state + 1 == n {
        assert(c[0] == state as usize);
    }
    if 0 < state && state + 1 < n {
        assert(c[0] == (state - 1) as usize);
    }
}

/// `path` follows chain successors from its first entry to its last.
pub open spec fn is_chain_walk(n: nat, path: Seq<usize>) -> bool {
    &&& path.len() > 0
    &&& forall|k: int|
        0 <= k < path.len() - 1 ==> chain_next(n, path[k] as nat).contains(#[trigger] path[k + 1])
}

/// The absorbing end of the chain is reached from every state: moving right
/// one state at a time is a walk along successors of `n - 1 - state` steps.
pub proof fn lemma_chain_reaches_end(n: nat, state: nat) -> (path: Seq<usize>)
    requires
        state < n,
        n <= usize::MAX + 1,
    ensures
        is_chain_walk(n, path),
        path[0] == state,
        path.last() == n - 1,
        path.len() == n - state,
{
    let path = Seq::new((n - state) as nat, |k: int| (state + k) as usize);
    assert forall|k: int| 0 <= k < path.len() - 1 implies chain_next(n, path[k] as nat).contains(#[trigger] path[k + 1]) by {
        lemma_chain_facts(n, (state + k) as nat);
    }
    path
}


/// The successor lists of an MDP structure, each by its view.
pub open spec fn successor_lists(successors: Seq<Vec<usize>>) -> Seq<Seq<usize>> {
    Seq::new(successors.len(), |s: int| successors[s]@)
}

/// The part of a linearly-solvable MDP that involves no probabilities: the
/// number of states and actions, the terminal (absorbing) states, and for
/// each state the successors among which every action's passive dynamics
/// spreads its probability uniformly.
pub struct MdpStructure {
    /// Number of states.
    pub n_states: usize,
    /// Number of actions.
    pub n_actions: usize,
    /// Terminal states (Dirichlet boundary).
    pub terminal_states: Vec<usize>,
    /// `successors[s]`: the states reached from `s` with equal probability.
    pub successors: Vec<Vec<usize>>,
}

impl MdpStructure {
    /// The structure of a `size` by `size` grid world with its goal at
    /// `goal`: four actions, the goal as the only terminal state, and each
    /// cell moving to its grid neighbours.
    pub fn gridworld(size: usize, goal: usize) -> (r: Self)
        requires
            size * size <= usize::MAX,
            goal < size * size,
        ensures
            r.n_states == size * size,
            r.n_actions == 4,
            r.terminal_states@ == seq![goal],
            successor_lists(r.successors@) == Seq::new(
                (size * size) as nat,
                |s: int| grid_neighbors(size as nat, s as nat),
            ),
    {
        let n = size * size;
        let mut successors: Vec<Vec<usize>> = Vec::new();
        let mut i: usize = 0;
        while i < n
            invariant
                i <= n,
                n == size * size,
                n <= usize::MAX,
                successors@.len() == i,
                successor_lists(successors@) == Seq::new(
                    i as nat,
                    |s: int| grid_neighbors(size as nat, s as nat),
                ),
            decreases n - i,
        {
            let nb = gridworld_neighbors(size, i);
            let ghost prev = successors@;
            successors.push(nb);
            proof {
                assert forall|k: int| 0 <= k < i + 1 implies #[trigger] successor_lists(successors@)[k] == (grid_neighbors(size as nat, k as nat)) by {
                    if k < i {
                        assert(successors@[k] == prev[k]);
                        assert(successor_lists(prev)[k] == prev[k]@);
                    }
                }
            }
            i = i + 1;
            assert(successor_lists(successors@) =~= Seq::new(
                i as nat,
                |s: int| grid_neighbors(size as nat, s as nat),
            ));
        }
        let mut terminal_states: Vec<usize> = Vec::new();
        terminal_states.push(goal);
        assert(terminal_states@ =~= seq![goal]);
        MdpStructure { n_states: n, n_actions: 4, terminal_states, successors }
    }

    /// The structure of an `n`-state chain (1D random walk with an absorbing
    /// last state): two actions, the last state as the only terminal state,
    /// and each state moving to its chain successors.
    pub fn chain(n: usize) -> (r: Self)
        requires
            n >= 1,
        ensures
            r.n_states == n,
            r.n_actions == 2,
            r.terminal_states@ == seq![(n - 1) as usize],
            successor_lists(r.successors@) == Seq::new(
                n as nat,
                |s: int| chain_next(n as nat, s as nat),
            ),
    {
        let mut successors: Vec<Vec<usize>> = Vec::new();
        let mut i: usize = 0;
        while i < n
            invariant
                i <= n,
                successors@.len() == i,
                successor_lists(successors@) == Seq::new(i as nat, |s: int| chain_next(n as nat, s as nat)),
            decreases n - i,
        {
            let next = chain_successors(n, i);
            let ghost prev = successors@;
            successors.push(next);
            proof {
                assert forall|k: int| 0 <= k < i + 1 implies #[trigger] successor_lists(successors@)[k] == (chain_next(n as nat, k as nat)) by {
                    if k < i {
                        assert(successors@[k] == prev[k]);
                        assert(successor_lists(prev)[k] == prev[k]@);
                    }
                }
            }
            i = i + 1;
            assert(successor_lists(successors@) =~= Seq::new(
                i as nat,
                |s: int| chain_next(n as nat, s as nat),
            ));
        }
        let mut terminal_states: Vec<usize> = Vec::new();
        terminal_states.push(n - 1);
        assert(terminal_states@ =~= seq![(n - 1) as usize]);
        MdpStructure { n_states: n, n_actions: 2, terminal_states, successors }
    }
}

} // verus!
