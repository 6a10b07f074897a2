use totalistic::scheduler::batch_sizes;
use totalistic::totalistic_2d::{check_grid, check_rule_table, grids_equal, Totalistic2D};
use totalistic::totalistic_2d::neighbor_counts;

fn life_like_model() -> Totalistic2D {
    Totalistic2D {
        on_state: 2,
        thresholds: vec![
            vec![2, 0, 1, 1, 1, 1, 2, 2, 2],
            vec![0, 0, 0, 0, 0, 0, 0, 0, 1],
            vec![0, 0, 0, 0, 0, 2, 2, 2, 2],
        ],
    }
}

/// Toroidal translation invariance on a concrete grid: the neighbor counts
/// of a rotated grid are the rotated neighbor counts.
#[test]
fn test_neighbor_counts_shifted() {
    let grid = vec![vec![2, 1, 0, 2], vec![0, 2, 1, 1], vec![2, 0, 0, 1]];
    let rows = grid.len();
    let cols = grid[0].len();
    // the same grid rotated down by 1 and right by 2 on the torus
    let mut shifted = vec![vec![0usize; cols]; rows];
    for r in 0..rows {
        for c in 0..cols {
            shifted[r][c] = grid[(r + 1) % rows][(c + 2) % cols];
        }
    }
    let counts = neighbor_counts(&grid, 2);
    let shifted_counts = neighbor_counts(&shifted, 2);
    for r in 0..rows {
        for c in 0..cols {
            assert_eq!(shifted_counts[r][c], counts[(r + 1) % rows][(c + 2) % cols]);
        }
    }
}

/// A cell of a 1x1 grid is its own neighbor through every one of the 8
/// wrapped offsets.
#[test]
fn test_neighbor_counts_degenerate_single_cell() {
    let on = vec![vec![2]];
    let off = vec![vec![1]];
    assert_eq!(neighbor_counts(&on, 2), vec![vec![8]]);
    assert_eq!(neighbor_counts(&off, 2), vec![vec![0]]);
}

/// In a single row the vertical wrap makes each cell and its two side
/// neighbors count triple.
#[test]
fn test_neighbor_counts_degenerate_single_row() {
    let grid = vec![vec![2, 0, 0]];
    // neighbors of cell 0: itself twice (up and down), each side cell
    // three times; only the cell itself holds state 2.
    assert_eq!(neighbor_counts(&grid, 2), vec![vec![2, 3, 3]]);
}

/// Stepping twice from the same grid gives bit-identical results.
#[test]
fn test_step_deterministic() {
    let model = life_like_model();
    let grid = vec![vec![1, 0, 2], vec![1, 2, 1], vec![0, 0, 1]];
    let a = model.step(&grid);
    let b = model.step(&grid);
    assert_eq!(a, b);
}

/// A one-step simulation is the initial grid alone, and an n-step
/// simulation holds exactly n grids.
#[test]
fn test_simulate_length_convention() {
    let model = life_like_model();
    let grid = vec![vec![1, 0, 2], vec![1, 2, 1], vec![0, 0, 1]];
    let traj = model.simulate(grid.clone(), 1);
    assert_eq!(traj, vec![grid.clone()]);
    for n in 1..8 {
        let traj = model.simulate(grid.clone(), n);
        assert_eq!(traj.len(), n);
        assert_eq!(traj[0], grid);
    }
}

/// The reported transient prefix holds pairwise distinct grids, none of
/// them equal to the grid at the repeat point.
#[test]
fn test_transient_prefix_distinct() {
    let model = life_like_model();
    let initial = vec![vec![2, 1, 2], vec![2, 0, 1], vec![0, 1, 1]];
    let traj = model.simulate(initial.clone(), 10);
    let t = model.simulate_transient(initial, 10);
    assert_eq!(t.length, 3);
    assert_eq!(t.states.len(), t.length);
    let repeat = &traj[t.length];
    for i in 0..t.states.len() {
        assert!(!grids_equal(&t.states[i], repeat));
        for j in (i + 1)..t.states.len() {
            assert!(!grids_equal(&t.states[i], &t.states[j]));
        }
    }
}

/// A trajectory that never repeats within the horizon reports length 0
/// and an empty prefix.
#[test]
fn test_transient_not_found() {
    let model = life_like_model();
    let initial = vec![vec![2, 1, 2], vec![2, 0, 1], vec![0, 1, 1]];
    // within 2 steps this trajectory has no repeat yet
    let t = model.simulate_transient(initial, 2);
    assert_eq!(t.length, 0);
    assert!(t.states.is_empty());
}

/// Batch planning executes every run exactly once, however the run count
/// divides by the worker count.
#[test]
fn test_batch_sizes_cover_all_runs() {
    for runs in 0..25usize {
        for workers in 1..8usize {
            let sizes = batch_sizes(runs, workers);
            assert_eq!(sizes.len(), runs / workers + 1);
            let total: usize = sizes.iter().sum();
            assert_eq!(total, runs);
            for i in 0..sizes.len() - 1 {
                assert_eq!(sizes[i], workers);
            }
            assert_eq!(sizes[sizes.len() - 1], runs % workers);
        }
    }
}

#[test]
fn test_batch_sizes_exact_division() {
    let sizes = batch_sizes(12, 4);
    assert_eq!(sizes, vec![4, 4, 4, 0]);
}

#[test]
fn test_batch_sizes_with_remainder() {
    let sizes = batch_sizes(10, 4);
    assert_eq!(sizes, vec![4, 4, 2]);
}

#[test]
fn test_batch_sizes_fewer_runs_than_workers() {
    let sizes = batch_sizes(3, 8);
    assert_eq!(sizes, vec![3]);
}

#[test]
fn test_check_rule_table_accepts_valid() {
    let table = vec![
        vec![2, 0, 1, 1, 1, 1, 2, 2, 2],
        vec![0, 0, 0, 0, 0, 0, 0, 0, 1],
        vec![0, 0, 0, 0, 0, 2, 2, 2, 2],
    ];
    assert!(check_rule_table(&table));
}

#[test]
fn test_check_rule_table_rejects_malformed() {
    // empty table
    assert!(!check_rule_table(&vec![]));
    // wrong column count
    assert!(!check_rule_table(&vec![vec![0, 0, 0], vec![0, 0, 0]]));
    // entry out of range: state index 2 in a 2-state table
    assert!(!check_rule_table(&vec![
        vec![0, 0, 0, 0, 0, 0, 0, 0, 1],
        vec![0, 0, 0, 0, 0, 0, 0, 0, 2],
    ]));
}

#[test]
fn test_check_grid() {
    assert!(check_grid(&vec![vec![0, 1], vec![2, 0]], 3));
    // empty grid
    assert!(!check_grid(&vec![], 3));
    // empty row
    assert!(!check_grid(&vec![vec![]], 3));
    // ragged rows
    assert!(!check_grid(&vec![vec![0, 1], vec![0]], 3));
    // state out of range
    assert!(!check_grid(&vec![vec![0, 3]], 3));
}

#[test]
fn test_grids_equal() {
    let a = vec![vec![1, 2], vec![3, 4]];
    let b = vec![vec![1, 2], vec![3, 4]];
    let c = vec![vec![1, 2], vec![3, 5]];
    let d = vec![vec![1, 2]];
    assert!(grids_equal(&a, &b));
    assert!(!grids_equal(&a, &c));
    assert!(!grids_equal(&a, &d));
}
