use lau_eigenfunction_policy::dirichlet::{apply_dirichlet_boundary, DirichletLaplacian};

fn identity(n: usize) -> Vec<Vec<f64>> {
    (0..n)
        .map(|i| (0..n).map(|j| if i == j { 1.0 } else { 0.0 }).collect())
        .collect()
}

#[test]
fn test_basic_construction() {
    let p = identity(3);
    let dl = DirichletLaplacian::new(p, vec![2], 0.0);
    assert_eq!(dl.n_states, 3);
    assert_eq!(dl.boundary_states, vec![2]);
    // Row 2 should be zeroed
    assert_eq!(dl.operator[2][0], 0.0);
    assert_eq!(dl.operator[2][1], 0.0);
    assert_eq!(dl.operator[2][2], 0.0);
}

#[test]
fn test_interior_states() {
    let p = identity(4);
    let dl = DirichletLaplacian::new(p, vec![0, 3], 0.0);
    assert_eq!(dl.interior_states(), vec![1, 2]);
}

#[test]
fn test_interior_operator() {
    // Rows of the matrix whose columns are [0, 0, 0], [0.5, 0.5, 0], [0.5, 0.5, 0].
    let p = vec![
        vec![0.0, 0.5, 0.5],
        vec![0.0, 0.5, 0.5],
        vec![0.0, 0.0, 0.0],
    ];
    let dl = DirichletLaplacian::new(p, vec![0, 2], 0.0);
    let sub = dl.interior_operator();
    assert_eq!(sub.len(), 1);
    assert_eq!(sub[0].len(), 1);
    // Only state 1 is interior
    assert_eq!(sub[0][0], 0.5);
}

#[test]
fn test_dirichlet_boundary() {
    let mut op = identity(3);
    apply_dirichlet_boundary(&mut op, &vec![2], 0.0);
    // Row 2 should be all zeros (Dirichlet boundary)
    assert_eq!(op[2][0], 0.0);
    assert_eq!(op[2][1], 0.0);
    assert_eq!(op[2][2], 0.0);
}

#[test]
fn interior_operator_ignores_out_of_range_boundary_entries() {
    let dl = DirichletLaplacian {
        operator: vec![vec![1, 2], vec![3, 4]],
        n_states: 2,
        boundary_states: vec![1, 7],
    };
    assert_eq!(dl.interior_states(), vec![0]);
    assert_eq!(dl.interior_operator(), vec![vec![1]]);
}

#[test]
fn boundary_rows_vanish_and_others_stay() {
    let p = vec![
        vec![0.1, 0.2, 0.7],
        vec![0.3, 0.3, 0.4],
        vec![0.5, 0.25, 0.25],
    ];
    let dl = DirichletLaplacian::new(p.clone(), vec![1], 0.0);
    assert_eq!(dl.operator[0], p[0]);
    assert_eq!(dl.operator[1], vec![0.0, 0.0, 0.0]);
    assert_eq!(dl.operator[2], p[2]);
}

#[test]
fn wide_kernel_keeps_columns_beyond_the_states() {
    let p = vec![vec![1, 2, 3], vec![4, 5, 6]];
    let dl = DirichletLaplacian::new(p, vec![0], 0);
    assert_eq!(dl.operator, vec![vec![0, 0, 3], vec![4, 5, 6]]);
}

#[test]
fn no_boundary_keeps_kernel() {
    let p = vec![vec![1, 2], vec![3, 4]];
    let dl = DirichletLaplacian::new(p.clone(), vec![], 0);
    assert_eq!(dl.operator, p);
    assert_eq!(dl.interior_states(), vec![0, 1]);
    assert_eq!(dl.interior_operator(), p);
}

#[test]
fn interior_and_boundary_partition_states() {
    // Boundary listed out of order and with a repeat.
    let dl = DirichletLaplacian::new(identity(6), vec![4, 1, 4], 0.0);
    let interior = dl.interior_states();
    assert_eq!(interior, vec![0, 2, 3, 5]);
    // 4 interior states + 2 distinct boundary states = 6 states
    assert_eq!(interior.len() + 2, 6);
}

#[test]
fn interior_operator_picks_interior_entries() {
    let p: Vec<Vec<i32>> = (0..4).map(|i| (0..4).map(|j| 10 * i + j).collect()).collect();
    let dl = DirichletLaplacian::new(p, vec![1], -1);
    assert_eq!(
        dl.interior_operator(),
        vec![vec![0, 2, 3], vec![20, 22, 23], vec![30, 32, 33]]
    );
}

#[test]
fn interior_operator_ignores_the_boundary_condition() {
    let p: Vec<Vec<i32>> = (0..4).map(|i| (0..4).map(|j| 10 * i + j).collect()).collect();
    let killed = DirichletLaplacian::new(p.clone(), vec![0, 2], 0);
    let free = DirichletLaplacian {
        operator: p,
        n_states: 4,
        boundary_states: vec![0, 2],
    };
    assert_eq!(killed.interior_operator(), free.interior_operator());
}

#[test]
fn applying_boundary_twice_is_applying_once() {
    let mut once = vec![vec![1, 2, 3], vec![4, 5, 6], vec![7, 8, 9]];
    apply_dirichlet_boundary(&mut once, &vec![0, 2], 0);
    let mut twice = once.clone();
    apply_dirichlet_boundary(&mut twice, &vec![0, 2], 0);
    assert_eq!(once, vec![vec![0, 0, 0], vec![4, 5, 6], vec![0, 0, 0]]);
    assert_eq!(twice, once);
}

#[test]
fn other_boundary_states_excludes_targets() {
    let dl = DirichletLaplacian::new(identity(5), vec![0, 4, 2], 0.0);
    assert_eq!(dl.other_boundary_states(&vec![4]), vec![0, 2]);
    assert_eq!(dl.other_boundary_states(&vec![0, 2, 4]), Vec::<usize>::new());
    assert_eq!(dl.other_boundary_states(&vec![]), vec![0, 4, 2]);
}
