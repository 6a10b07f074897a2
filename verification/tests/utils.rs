use totalistic::utils::{filter_grid, flat_conv2d, wrap_edges};

#[test]
fn test_filter_grid() {
    let unfiltered_grid = vec![vec![1, 2, 1, 3], vec![2, 1, 2, 1], vec![1, 2, 3, 4]];
    let filtered_grid = vec![vec![0, 1, 0, 0], vec![1, 0, 1, 0], vec![0, 1, 0, 0]];
    assert_eq!(filtered_grid, filter_grid(&unfiltered_grid, 2))
}

#[test]
fn test_wrap_edges() {
    let unwrapped_grid = vec![vec![1, 0, 1, 0], vec![0, 1, 0, 1], vec![1, 0, 0, 0]];
    let wrapped_grid = vec![
        vec![0, 1, 0, 0, 0, 1],
        vec![0, 1, 0, 1, 0, 1],
        vec![1, 0, 1, 0, 1, 0],
        vec![0, 1, 0, 0, 0, 1],
        vec![0, 1, 0, 1, 0, 1],
    ];
    let output_grid = wrap_edges(unwrapped_grid);
    assert_eq!(wrapped_grid, output_grid)
}

#[test]
fn test_flat_conv2d() {
    let unwrapped_grid = vec![vec![1, 0, 1, 0], vec![0, 1, 0, 1], vec![1, 0, 0, 0]];
    let neighbors = vec![vec![1, 3, 2, 2], vec![3, 3, 3, 1], vec![1, 2, 2, 1]];
    let filter = vec![vec![1, 1, 1], vec![1, 0, 1], vec![1, 1, 1]];
    let conv_out = flat_conv2d(unwrapped_grid, filter);
    assert_eq!(conv_out, neighbors)
}
