use totalistic::totalistic_2d::Totalistic2D;

fn test_model() -> Totalistic2D {
    Totalistic2D {
        on_state: 2,
        // neighbors        0  1  2  3  4  5  6  7  8
        thresholds: vec![
            vec![2, 0, 1, 1, 1, 1, 2, 2, 2],
            vec![0, 0, 0, 0, 0, 0, 0, 0, 1],
            vec![0, 0, 0, 0, 0, 2, 2, 2, 2],
        ],
    }
}

#[test]
#[allow(non_snake_case)]
fn Totalistic2D_test_step() {
    let model = test_model();
    let in_grid = vec![vec![1, 0, 0], vec![1, 0, 1], vec![0, 0, 1]];
    let out_grid = vec![vec![0, 2, 2], vec![0, 2, 0], vec![2, 2, 0]];
    assert_eq!(out_grid, model.step(&in_grid))
}

#[test]
#[allow(non_snake_case)]
fn Totalistic2D_test_simulate() {
    let model = test_model();
    let in_grid = vec![vec![2, 1, 2], vec![2, 0, 1], vec![0, 1, 1]];
    let out_grids = vec![
        vec![vec![2, 1, 2], vec![2, 0, 1], vec![0, 1, 1]],
        vec![vec![0, 0, 0], vec![0, 1, 0], vec![1, 0, 0]],
        vec![vec![2, 2, 2], vec![2, 0, 2], vec![0, 2, 2]],
        vec![vec![2, 2, 2], vec![2, 2, 2], vec![2, 2, 2]],
        vec![vec![2, 2, 2], vec![2, 2, 2], vec![2, 2, 2]],
        vec![vec![2, 2, 2], vec![2, 2, 2], vec![2, 2, 2]],
    ];
    assert_eq!(out_grids, model.simulate(in_grid, 6))
}

#[test]
fn test_step() {
    let model = test_model();
    let in_grid = vec![vec![1, 0, 0], vec![1, 0, 1], vec![0, 0, 1]];
    let out_grid = vec![vec![0, 2, 2], vec![0, 2, 0], vec![2, 2, 0]];
    assert_eq!(out_grid, model.step(&in_grid))
}

#[test]
fn test_simulate() {
    let model = test_model();
    let in_grid = vec![vec![2, 1, 2], vec![2, 0, 1], vec![0, 1, 1]];
    let out_grids = vec![
        vec![vec![2, 1, 2], vec![2, 0, 1], vec![0, 1, 1]],
        vec![vec![0, 0, 0], vec![0, 1, 0], vec![1, 0, 0]],
        vec![vec![2, 2, 2], vec![2, 0, 2], vec![0, 2, 2]],
        vec![vec![2, 2, 2], vec![2, 2, 2], vec![2, 2, 2]],
        vec![vec![2, 2, 2], vec![2, 2, 2], vec![2, 2, 2]],
        vec![vec![2, 2, 2], vec![2, 2, 2], vec![2, 2, 2]],
    ];
    assert_eq!(out_grids, model.simulate(in_grid, 6))
}

#[test]
fn test_simulate_transient() {
    let model = test_model();
    let initial = vec![vec![2, 1, 2], vec![2, 0, 1], vec![0, 1, 1]];
    let t_states = vec![
        vec![vec![2, 1, 2], vec![2, 0, 1], vec![0, 1, 1]],
        vec![vec![0, 0, 0], vec![0, 1, 0], vec![1, 0, 0]],
        vec![vec![2, 2, 2], vec![2, 0, 2], vec![0, 2, 2]],
    ];
    let t_out = model.simulate_transient(initial, 10);
    assert_eq!(t_out.length, 3);
    assert_eq!(t_out.states, t_states);
}
