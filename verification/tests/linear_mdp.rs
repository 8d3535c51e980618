use lau_eigenfunction_policy::linear_mdp::{chain_successors, gridworld_neighbors, MdpStructure};

#[test]
fn test_gridworld_creation() {
    let mdp = MdpStructure::gridworld(3, 8);
    assert_eq!(mdp.n_states, 9);
    assert_eq!(mdp.n_actions, 4);
    assert_eq!(mdp.terminal_states, vec![8]);
}

#[test]
fn test_chain_creation() {
    let mdp = MdpStructure::chain(5);
    assert_eq!(mdp.n_states, 5);
    assert_eq!(mdp.n_actions, 2);
    assert_eq!(mdp.terminal_states, vec![4]);
}

#[test]
fn structure_successor_lists() {
    let grid = MdpStructure::gridworld(2, 0);
    assert_eq!(grid.successors, vec![vec![2, 1], vec![3, 0], vec![0, 3], vec![1, 2]]);
    let chain = MdpStructure::chain(3);
    assert_eq!(chain.successors, vec![vec![0, 1], vec![0, 2], vec![2]]);
    assert_eq!(chain.terminal_states, vec![2]);
}

#[test]
fn gridworld_corner_edge_and_centre() {
    // 3 x 3 grid, row-major: up, down, left, right in that order.
    assert_eq!(gridworld_neighbors(3, 0), vec![3, 1]);
    assert_eq!(gridworld_neighbors(3, 1), vec![4, 0, 2]);
    assert_eq!(gridworld_neighbors(3, 4), vec![1, 7, 3, 5]);
    assert_eq!(gridworld_neighbors(3, 8), vec![5, 7]);
}

#[test]
fn gridworld_single_cell_has_no_neighbours() {
    assert_eq!(gridworld_neighbors(1, 0), Vec::<usize>::new());
}

#[test]
fn gridworld_neighbours_are_symmetric_and_bounded() {
    let size = 4;
    let n = size * size;
    for i in 0..n {
        let nb = gridworld_neighbors(size, i);
        assert!(nb.len() >= 2 && nb.len() <= 4);
        assert!(!nb.contains(&i));
        for &j in &nb {
            assert!(j < n);
            assert!(gridworld_neighbors(size, j).contains(&i));
        }
    }
}

#[test]
fn chain_structure() {
    assert_eq!(chain_successors(5, 4), vec![4]);
    assert_eq!(chain_successors(5, 0), vec![0, 1]);
    assert_eq!(chain_successors(5, 2), vec![1, 3]);
    assert_eq!(chain_successors(1, 0), vec![0]);
    assert_eq!(chain_successors(2, 0), vec![0, 1]);
}

#[test]
fn chain_reaches_absorbing_end() {
    let n = 6;
    for start in 0..n {
        let mut s = start;
        let mut steps = 0;
        while s != n - 1 {
            let next = chain_successors(n, s);
            assert!(next.contains(&(s + 1)));
            s += 1;
            steps += 1;
        }
        assert_eq!(steps, n - 1 - start);
    }
}

#[test]
fn gridworld_is_connected() {
    let size = 4;
    let n = size * size;
    for goal in 0..n {
        let mut seen = vec![false; n];
        let mut stack = vec![goal];
        seen[goal] = true;
        while let Some(s) = stack.pop() {
            for j in gridworld_neighbors(size, s) {
                if !seen[j] {
                    seen[j] = true;
                    stack.push(j);
                }
            }
        }
        assert!(seen.iter().all(|&b| b));
    }
}
