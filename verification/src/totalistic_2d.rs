//! The outer-totalistic automaton engine: neighbor counting on the torus,
//! the table-driven step, multi-step trajectories, and transient detection.

use vstd::prelude::*;

use crate::utils::{
    cols, conv_at, conv_spec, filter_grid, flat_conv2d, grid_view, grid_wf, mask_spec, padded_get,
    rows, shift_grid, torus_get, wrap_edges, wrap_spec,
};

verus! {

/// 1 when the condition holds, 0 otherwise: one summand of a neighbor count.
pub open spec fn one_if(b: bool) -> int {
    if b {
        1
    } else {
        0
    }
}

/// How many of the 8 Moore neighbors of cell (r, c) hold the state `on`,
/// with neighbors taken toroidally, so a cell of a degenerate grid can be
/// its own neighbor more than once.
pub open spec fn count_on(g: Seq<Seq<usize>>, on: usize, r: int, c: int) -> int {
    one_if(torus_get(g, r - 1, c - 1) == on) + one_if(torus_get(g, r - 1, c) == on) + one_if(
        torus_get(g, r - 1, c + 1) == on,
    ) + one_if(torus_get(g, r, c - 1) == on) + one_if(torus_get(g, r, c + 1) == on) + one_if(
        torus_get(g, r + 1, c - 1) == on,
    ) + one_if(torus_get(g, r + 1, c) == on) + one_if(torus_get(g, r + 1, c + 1) == on)
}

/// The neighbor-count grid: cell (r, c) holds the Moore-neighbor count of
/// cell (r, c) of `g`.
pub open spec fn counts_spec(g: Seq<Seq<usize>>, on: usize) -> Seq<Seq<usize>> {
    Seq::new(
        g.len(),
        |r: int| Seq::new(g[0].len(), |c: int| count_on(g, on, r, c) as usize),
    )
}

/// The 3x3 kernel with 1 everywhere except the center: convolving the
/// binary mask with it adds up the 8 surrounding mask cells.
pub open spec fn moore_kernel_spec() -> Seq<Seq<usize>> {
    seq![
        seq![1usize, 1usize, 1usize],
        seq![1usize, 0usize, 1usize],
        seq![1usize, 1usize, 1usize],
    ]
}

/// A neighbor count is one of 0 through 8.
pub proof fn lemma_count_on_range(g: Seq<Seq<usize>>, on: usize, r: int, c: int)
    ensures
        0 <= count_on(g, on, r, c) <= 8,
{
}

/// Convolving with the Moore kernel adds up the 8 cells around (r, c) of
/// the zero-extended input.
proof fn lemma_conv3_unfold(a: Seq<Seq<usize>>, r: int, c: int)
    ensures
        conv_at(a, moore_kernel_spec(), r, c) == padded_get(a, r - 1, c - 1) + padded_get(
            a,
            r - 1,
            c,
        ) + padded_get(a, r - 1, c + 1) + padded_get(a, r, c - 1) + padded_get(a, r, c + 1)
            + padded_get(a, r + 1, c - 1) + padded_get(a, r + 1, c) + padded_get(a, r + 1, c + 1),
{
    let k = moore_kernel_spec();
    assert(rows(k) == 3);
    assert(cols(k) == 3);
    assert(k[0][0] == 1usize && k[0][1] == 1usize && k[0][2] == 1usize);
    assert(k[1][0] == 1usize && k[1][1] == 0usize && k[1][2] == 1usize);
    assert(k[2][0] == 1usize && k[2][1] == 1usize && k[2][2] == 1usize);
    reveal_with_fuel(crate::utils::conv_row_from, 5);
    reveal_with_fuel(crate::utils::conv_from, 5);
    assert(crate::utils::conv_row_from(a, k, r, c, 0, 0) == padded_get(a, r - 1, c - 1)
        + padded_get(a, r - 1, c) + padded_get(a, r - 1, c + 1));
    assert(crate::utils::conv_row_from(a, k, r, c, 1, 0) == padded_get(a, r, c - 1) + padded_get(
        a,
        r,
        c + 1,
    ));
    assert(crate::utils::conv_row_from(a, k, r, c, 2, 0) == padded_get(a, r + 1, c - 1)
        + padded_get(a, r + 1, c) + padded_get(a, r + 1, c + 1));
}

/// On the toroidal padding of the binary mask, the Moore convolution at the
/// inner cell (r + 1, c + 1) is exactly the neighbor count at (r, c).
proof fn lemma_conv_counts(g: Seq<Seq<usize>>, on: usize, r: int, c: int)
    requires
        grid_wf(g),
        0 <= r < rows(g),
        0 <= c < cols(g),
    ensures
        conv_at(wrap_spec(mask_spec(g, on)), moore_kernel_spec(), r + 1, c + 1) == count_on(
            g,
            on,
            r,
            c,
        ),
{
    let m = mask_spec(g, on);
    let w = wrap_spec(m);
    let nr = rows(g);
    let nc = cols(g);
    assert(w.len() == nr + 2);
    assert(w[0].len() == nc + 2);
    lemma_conv3_unfold(w, r + 1, c + 1);
    assert forall|dr: int, dc: int| -1 <= dr <= 1 && -1 <= dc <= 1 implies #[trigger] padded_get(
        w,
        r + 1 + dr,
        c + 1 + dc,
    ) == one_if(torus_get(g, r + dr, c + dc) == on) by {
        let i = r + 1 + dr;
        let j = c + 1 + dc;
        assert(0 <= i < w.len());
        assert(0 <= j < w[0].len());
        assert(w[i] == Seq::new((m[0].len() + 2) as nat, |j2: int| m[(i - 1) % rows(m)][(j2 - 1)
            % cols(m)]));
        vstd::arithmetic::div_mod::lemma_mod_division_less_than_divisor(r + dr, nr);
        vstd::arithmetic::div_mod::lemma_mod_division_less_than_divisor(c + dc, nc);
        assert(w[i][j] == m[(r + dr) % nr][(c + dc) % nc]);
        assert(m[(r + dr) % nr][(c + dc) % nc] == (if g[(r + dr) % nr][(c + dc) % nc] == on {
            1usize
        } else {
            0usize
        }));
    }
}

/// Count, for every cell at once, how many of its 8 Moore neighbors hold
/// the state `on_state`, under toroidal wrap-around: the mask of `on_state`
/// cells is padded toroidally and convolved with the Moore kernel.
pub fn neighbor_counts(grid: &Vec<Vec<usize>>, on_state: usize) -> (counts: Vec<Vec<usize>>)
    requires
        grid_wf(grid_view(*grid)),
    ensures
        grid_view(counts) == counts_spec(grid_view(*grid), on_state),
{
    let ghost g = grid_view(*grid);
    let ghost m = mask_spec(g, on_state);
    let ghost w = wrap_spec(m);
    let ghost k = moore_kernel_spec();
    let mask = filter_grid(grid, on_state);
    proof {
        assert(grid_wf(m));
    }
    let padded = wrap_edges(mask);
    let kernel_mid: Vec<usize> = vec![1, 0, 1];
    let kernel_edge0: Vec<usize> = vec![1, 1, 1];
    let kernel_edge1: Vec<usize> = vec![1, 1, 1];
    let mut kernel: Vec<Vec<usize>> = Vec::new();
    kernel.push(kernel_edge0);
    kernel.push(kernel_mid);
    kernel.push(kernel_edge1);
    proof {
        assert(kernel@[0]@ =~= k[0]);
        assert(kernel@[1]@ =~= k[1]);
        assert(kernel@[2]@ =~= k[2]);
        assert(grid_view(kernel) =~= k);
        assert(grid_wf(k));
        assert(w.len() == m.len() + 2);
        assert forall|i: int| 0 <= i < w.len() implies #[trigger] w[i].len() == w[0].len() by {
            assert(w[i] == Seq::new((m[0].len() + 2) as nat, |j2: int| m[(i - 1) % rows(m)][(j2
                - 1) % cols(m)]));
        }
        assert(grid_wf(w));
        assert forall|i: int, j: int| 0 <= i < w.len() && 0 <= j < w[0].len() implies #[trigger] w[i][j]
            <= 1 by {
            assert(w[i] == Seq::new((m[0].len() + 2) as nat, |j2: int| m[(i - 1) % rows(m)][(j2
                - 1) % cols(m)]));
            vstd::arithmetic::div_mod::lemma_mod_division_less_than_divisor(i - 1, rows(m));
            vstd::arithmetic::div_mod::lemma_mod_division_less_than_divisor(j - 1, cols(m));
        }
        assert forall|r: int, c: int| 0 <= r < rows(w) && 0 <= c < cols(w) implies #[trigger] conv_at(
            w,
            k,
            r,
            c,
        ) <= usize::MAX by {
            lemma_conv3_unfold(w, r, c);
        }
    }
    let conv = flat_conv2d(padded, kernel);
    let ghost cs = counts_spec(g, on_state);
    let nrows = grid.len();
    let ncols = grid[0].len();
    proof {
        assert(conv@.len() == conv_spec(w, k).len());
        assert(conv_spec(w, k).len() == w.len());
        assert forall|i: int| 0 <= i < conv@.len() implies #[trigger] conv@[i]@.len() == ncols
            + 2 by {
            assert(conv@[i]@ == grid_view(conv)[i]);
            assert(conv_spec(w, k)[i] == Seq::new(
                w[0].len(),
                |c: int| conv_at(w, k, i, c) as usize,
            ));
        }
    }
    let mut counts: Vec<Vec<usize>> = Vec::new();
    for r in 0..nrows
        invariant
            grid_wf(g),
            g == grid_view(*grid),
            m == mask_spec(g, on_state),
            w == wrap_spec(m),
            k == moore_kernel_spec(),
            cs == counts_spec(g, on_state),
            grid_view(conv) == conv_spec(w, k),
            nrows == g.len(),
            ncols == cols(g),
            conv@.len() == nrows + 2,
            forall|i: int| 0 <= i < conv@.len() ==> #[trigger] conv@[i]@.len() == ncols + 2,
            counts@.len() == r,
            forall|i: int| 0 <= i < r ==> #[trigger] counts@[i]@ == cs[i],
    {
        let mut row: Vec<usize> = Vec::new();
        for c in 0..ncols
            invariant
                grid_wf(g),
                g == grid_view(*grid),
                m == mask_spec(g, on_state),
                w == wrap_spec(m),
                k == moore_kernel_spec(),
                cs == counts_spec(g, on_state),
                grid_view(conv) == conv_spec(w, k),
                nrows == g.len(),
                ncols == cols(g),
                conv@.len() == nrows + 2,
                forall|i: int| 0 <= i < conv@.len() ==> #[trigger] conv@[i]@.len() == ncols + 2,
                r < nrows,
                row@.len() == c,
                forall|j: int| 0 <= j < c ==> row@[j] == cs[r as int][j],
        {
            let v = conv[r + 1][c + 1];
            proof {
                lemma_conv_counts(g, on_state, r as int, c as int);
                lemma_count_on_range(g, on_state, r as int, c as int);
                assert(conv@[r + 1]@[c + 1] == grid_view(conv)[r + 1][c + 1]);
                assert(grid_view(conv)[r + 1][c + 1] == conv_at(w, k, r + 1, c + 1) as usize);
                assert(v == count_on(g, on_state, r as int, c as int) as usize);
            }
            row.push(v);
        }
        assert(row@ =~= cs[r as int]);
        counts.push(row);
    }
    assert(grid_view(counts) =~= cs);
    counts
}

/// Neighbor counting is invariant under reducing the center cell's indices
/// modulo the grid dimensions.
proof fn lemma_count_on_mod(g: Seq<Seq<usize>>, on: usize, r: int, c: int)
    requires
        grid_wf(g),
    ensures
        count_on(g, on, r, c) == count_on(g, on, r % rows(g), c % cols(g)),
{
    let x = r % rows(g);
    let y = c % cols(g);
    crate::utils::lemma_mod_shift(r, -1, rows(g));
    crate::utils::lemma_mod_shift(r, 0, rows(g));
    crate::utils::lemma_mod_shift(r, 1, rows(g));
    crate::utils::lemma_mod_shift(c, -1, cols(g));
    crate::utils::lemma_mod_shift(c, 0, cols(g));
    crate::utils::lemma_mod_shift(c, 1, cols(g));
    assert(torus_get(g, x - 1, y - 1) == torus_get(g, r - 1, c - 1));
    assert(torus_get(g, x - 1, y) == torus_get(g, r - 1, c));
    assert(torus_get(g, x - 1, y + 1) == torus_get(g, r - 1, c + 1));
    assert(torus_get(g, x, y - 1) == torus_get(g, r, c - 1));
    assert(torus_get(g, x, y + 1) == torus_get(g, r, c + 1));
    assert(torus_get(g, x + 1, y - 1) == torus_get(g, r + 1, c - 1));
    assert(torus_get(g, x + 1, y) == torus_get(g, r + 1, c));
    assert(torus_get(g, x + 1, y + 1) == torus_get(g, r + 1, c + 1));
}

/// Toroidal translation invariance of a single neighbor count: counting on
/// the shifted grid at (r, c) is counting on the grid at (r + dr, c + dc).
pub proof fn lemma_count_translation(
    g: Seq<Seq<usize>>,
    on: usize,
    dr: int,
    dc: int,
    r: int,
    c: int,
)
    requires
        grid_wf(g),
    ensures
        count_on(shift_grid(g, dr, dc), on, r, c) == count_on(g, on, r + dr, c + dc),
{
    let s = shift_grid(g, dr, dc);
    crate::utils::lemma_torus_get_shift(g, dr, dc, r - 1, c - 1);
    crate::utils::lemma_torus_get_shift(g, dr, dc, r - 1, c);
    crate::utils::lemma_torus_get_shift(g, dr, dc, r - 1, c + 1);
    crate::utils::lemma_torus_get_shift(g, dr, dc, r, c - 1);
    crate::utils::lemma_torus_get_shift(g, dr, dc, r, c + 1);
    crate::utils::lemma_torus_get_shift(g, dr, dc, r + 1, c - 1);
    crate::utils::lemma_torus_get_shift(g, dr, dc, r + 1, c);
    crate::utils::lemma_torus_get_shift(g, dr, dc, r + 1, c + 1);
    assert(torus_get(s, r - 1, c - 1) == torus_get(g, (r + dr) - 1, (c + dc) - 1));
    assert(torus_get(s, r - 1, c) == torus_get(g, (r + dr) - 1, c + dc));
    assert(torus_get(s, r - 1, c + 1) == torus_get(g, (r + dr) - 1, (c + dc) + 1));
    assert(torus_get(s, r, c - 1) == torus_get(g, r + dr, (c + dc) - 1));
    assert(torus_get(s, r, c + 1) == torus_get(g, r + dr, (c + dc) + 1));
    assert(torus_get(s, r + 1, c - 1) == torus_get(g, (r + dr) + 1, (c + dc) - 1));
    assert(torus_get(s, r + 1, c) == torus_get(g, (r + dr) + 1, c + dc));
    assert(torus_get(s, r + 1, c + 1) == torus_get(g, (r + dr) + 1, (c + dc) + 1));
}

/// Toroidal translation invariance of neighbor counting as a whole: the
/// neighbor-count grid of a toroidally shifted grid is the equally shifted
/// neighbor-count grid of the original.
pub proof fn lemma_neighbor_counts_translation(g: Seq<Seq<usize>>, on: usize, dr: int, dc: int)
    requires
        grid_wf(g),
    ensures
        counts_spec(shift_grid(g, dr, dc), on) == shift_grid(counts_spec(g, on), dr, dc),
{
    let s = shift_grid(g, dr, dc);
    let cg = counts_spec(g, on);
    let lhs = counts_spec(s, on);
    let rhs = shift_grid(cg, dr, dc);
    assert(s.len() == g.len());
    assert(s[0].len() == g[0].len());
    assert(cg.len() == g.len());
    assert(cg[0].len() == g[0].len());
    assert forall|r: int| 0 <= r < lhs.len() implies #[trigger] lhs[r] == rhs[r] by {
        assert forall|c: int| 0 <= c < g[0].len() implies lhs[r][c] == rhs[r][c] by {
            lemma_count_translation(g, on, dr, dc, r, c);
            vstd::arithmetic::div_mod::lemma_mod_division_less_than_divisor(r + dr, rows(g));
            vstd::arithmetic::div_mod::lemma_mod_division_less_than_divisor(c + dc, cols(g));
            assert(torus_get(cg, r + dr, c + dc) == cg[(r + dr) % rows(g)][(c + dc) % cols(g)]);
            lemma_count_on_mod(g, on, r + dr, c + dc);
            assert(lhs[r][c] == count_on(g, on, r + dr, c + dc) as usize);
            assert(rhs[r][c] == count_on(g, on, (r + dr) % rows(g), (c + dc) % cols(g)) as usize);
        }
        assert(lhs[r] =~= rhs[r]);
    }
    assert(lhs =~= rhs);
}

/// A well-formed rule table: at least one state, one row of exactly 9
/// entries per state (one per neighbor count 0 through 8), and every entry
/// a valid state index.
pub open spec fn table_wf(tab: Seq<Seq<usize>>) -> bool {
    &&& tab.len() >= 1
    &&& forall|i: int| 0 <= i < tab.len() ==> #[trigger] tab[i].len() == 9
    &&& forall|i: int, j: int| 0 <= i < tab.len() && 0 <= j < 9 ==> #[trigger] tab[i][j] < tab.len()
}

/// Every cell of the grid is a valid state index below `states`.
pub open spec fn grid_in_range(g: Seq<Seq<usize>>, states: int) -> bool {
    forall|r: int, c: int|
        0 <= r < g.len() && 0 <= c < g[r].len() ==> #[trigger] g[r][c] < states
}

/// The grid after one synchronous update: every cell is sent through the
/// rule table, indexed by its current state and its toroidal Moore-neighbor
/// count of the `on` state.
pub open spec fn step_spec(g: Seq<Seq<usize>>, tab: Seq<Seq<usize>>, on: usize) -> Seq<Seq<usize>> {
    Seq::new(
        g.len(),
        |r: int|
            Seq::new(g[0].len(), |c: int| tab[g[r][c] as int][count_on(g, on, r, c)]),
    )
}

/// One step keeps the grid shape, and a well-formed table keeps every cell
/// a valid state index.
pub proof fn lemma_step_spec_wf(g: Seq<Seq<usize>>, tab: Seq<Seq<usize>>, on: usize)
    requires
        grid_wf(g),
        table_wf(tab),
        grid_in_range(g, tab.len() as int),
    ensures
        grid_wf(step_spec(g, tab, on)),
        step_spec(g, tab, on).len() == g.len(),
        step_spec(g, tab, on)[0].len() == g[0].len(),
        grid_in_range(step_spec(g, tab, on), tab.len() as int),
{
    let s = step_spec(g, tab, on);
    assert forall|r: int| 0 <= r < s.len() implies #[trigger] s[r].len() == s[0].len() by {
        assert(s[r] == Seq::new(g[0].len(), |c: int| tab[g[r][c] as int][count_on(g, on, r, c)]));
        assert(s[0] == Seq::new(g[0].len(), |c: int| tab[g[0][c] as int][count_on(g, on, 0, c)]));
    }
    assert forall|r: int, c: int| 0 <= r < s.len() && 0 <= c < s[r].len() implies #[trigger] s[r][c]
        < tab.len() by {
        lemma_count_on_range(g, on, r, c);
        assert(g[r].len() == g[0].len());
        assert(g[r][c] < tab.len());
        assert(s[r][c] == tab[g[r][c] as int][count_on(g, on, r, c)]);
    }
}

/// Stepping is deterministic: the next grid is a function of the current
/// grid, the rule table, and the counted state alone, so any two results
/// obtained from equal inputs are equal.
pub proof fn lemma_step_deterministic(
    g1: Seq<Seq<usize>>,
    g2: Seq<Seq<usize>>,
    tab1: Seq<Seq<usize>>,
    tab2: Seq<Seq<usize>>,
    on1: usize,
    on2: usize,
)
    requires
        g1 == g2,
        tab1 == tab2,
        on1 == on2,
    ensures
        step_spec(g1, tab1, on1) == step_spec(g2, tab2, on2),
{
}

/// The mathematical value of a trajectory held as a vector of grids.
pub open spec fn traj_view(v: Vec<Vec<Vec<usize>>>) -> Seq<Seq<Seq<usize>>> {
    Seq::new(v@.len(), |i: int| grid_view(v@[i]))
}

/// The trajectory of `steps` grids starting from `g`: entry 0 is `g`
/// itself and every later entry is the step of the one before it.
pub open spec fn trajectory_spec(
    g: Seq<Seq<usize>>,
    tab: Seq<Seq<usize>>,
    on: usize,
    steps: int,
) -> Seq<Seq<Seq<usize>>>
    decreases steps,
{
    if steps <= 1 {
        seq![g]
    } else {
        let t = trajectory_spec(g, tab, on, steps - 1);
        t.push(step_spec(t.last(), tab, on))
    }
}

/// A trajectory of `steps >= 1` grids has exactly `steps` entries, starts
/// at the initial grid, and advances by one step from each entry to the
/// next.
pub proof fn lemma_trajectory_props(g: Seq<Seq<usize>>, tab: Seq<Seq<usize>>, on: usize, steps: int)
    requires
        steps >= 1,
    ensures
        trajectory_spec(g, tab, on, steps).len() == steps,
        trajectory_spec(g, tab, on, steps)[0] == g,
        forall|i: int|
            0 <= i < steps - 1 ==> #[trigger] trajectory_spec(g, tab, on, steps)[i + 1]
                == step_spec(trajectory_spec(g, tab, on, steps)[i], tab, on),
    decreases steps,
{
    if steps == 1 {
    } else {
        lemma_trajectory_props(g, tab, on, steps - 1);
        let t = trajectory_spec(g, tab, on, steps - 1);
        let t2 = trajectory_spec(g, tab, on, steps);
        assert(t2 == t.push(step_spec(t.last(), tab, on)));
        assert forall|i: int| 0 <= i < steps - 1 implies #[trigger] t2[i + 1] == step_spec(
            t2[i],
            tab,
            on,
        ) by {
            if i < steps - 2 {
                assert(t2[i + 1] == t[i + 1]);
                assert(t2[i] == t[i]);
            } else {
                assert(t2[i] == t.last());
            }
        }
    }
}

/// Every grid of a trajectory from a well-formed start is well formed, has
/// the shape of the start, and stays within the table's states.
pub proof fn lemma_trajectory_wf(g: Seq<Seq<usize>>, tab: Seq<Seq<usize>>, on: usize, steps: int)
    requires
        steps >= 1,
        grid_wf(g),
        table_wf(tab),
        grid_in_range(g, tab.len() as int),
    ensures
        forall|i: int|
            0 <= i < steps ==> {
                let gi = #[trigger] trajectory_spec(g, tab, on, steps)[i];
                &&& grid_wf(gi)
                &&& gi.len() == g.len()
                &&& gi[0].len() == g[0].len()
                &&& grid_in_range(gi, tab.len() as int)
            },
    decreases steps,
{
    if steps == 1 {
    } else {
        lemma_trajectory_wf(g, tab, on, steps - 1);
        let t = trajectory_spec(g, tab, on, steps - 1);
        lemma_trajectory_props(g, tab, on, steps - 1);
        lemma_step_spec_wf(t.last(), tab, on);
    }
}

/// Copy a grid cell by cell.
fn clone_grid(g: &Vec<Vec<usize>>) -> (out: Vec<Vec<usize>>)
    ensures
        grid_view(out) == grid_view(*g),
{
    let mut out: Vec<Vec<usize>> = Vec::new();
    let nrows = g.len();
    for ri in 0..nrows
        invariant
            nrows == g@.len(),
            out@.len() == ri,
            forall|i: int| 0 <= i < ri ==> #[trigger] out@[i]@ == g@[i]@,
    {
        let mut row: Vec<usize> = Vec::new();
        let ncols = g[ri].len();
        for ci in 0..ncols
            invariant
                nrows == g@.len(),
                ri < nrows,
                ncols == g@[ri as int]@.len(),
                row@.len() == ci,
                forall|j: int| 0 <= j < ci ==> row@[j] == g@[ri as int]@[j],
        {
            row.push(g[ri][ci]);
        }
        assert(row@ =~= g@[ri as int]@);
        out.push(row);
    }
    assert(grid_view(out) =~= grid_view(*g));
    out
}

/// Decide whether two grids hold exactly the same cells.
pub fn grids_equal(a: &Vec<Vec<usize>>, b: &Vec<Vec<usize>>) -> (eq: bool)
    ensures
        eq == (grid_view(*a) == grid_view(*b)),
{
    let ghost ga = grid_view(*a);
    let ghost gb = grid_view(*b);
    if a.len() != b.len() {
        assert(ga.len() != gb.len());
        return false;
    }
    let nrows = a.len();
    for ri in 0..nrows
        invariant
            ga == grid_view(*a),
            gb == grid_view(*b),
            nrows == a@.len(),
            nrows == b@.len(),
            forall|i: int| 0 <= i < ri ==> #[trigger] a@[i]@ == b@[i]@,
    {
        if a[ri].len() != b[ri].len() {
            assert(ga[ri as int].len() != gb[ri as int].len());
            return false;
        }
        let ncols = a[ri].len();
        for ci in 0..ncols
            invariant
                ga == grid_view(*a),
                gb == grid_view(*b),
                nrows == a@.len(),
                nrows == b@.len(),
                ri < nrows,
                ncols == a@[ri as int]@.len(),
                ncols == b@[ri as int]@.len(),
                forall|j: int| 0 <= j < ci ==> a@[ri as int]@[j] == b@[ri as int]@[j],
        {
            if a[ri][ci] != b[ri][ci] {
                assert(ga[ri as int][ci as int] != gb[ri as int][ci as int]);
                return false;
            }
        }
        assert(a@[ri as int]@ =~= b@[ri as int]@);
    }
    assert(ga =~= gb);
    true
}

/// Decide whether `thresholds` is a well-formed rule table: at least one
/// state row, exactly 9 entries in every row (one per neighbor count 0
/// through 8), and every entry a valid state index. A malformed table is
/// thereby rejected before an engine is built around it.
pub fn check_rule_table(thresholds: &Vec<Vec<usize>>) -> (ok: bool)
    ensures
        ok == table_wf(grid_view(*thresholds)),
{
    let ghost tab = grid_view(*thresholds);
    let n = thresholds.len();
    if n == 0 {
        return false;
    }
    for i in 0..n
        invariant
            tab == grid_view(*thresholds),
            n == thresholds@.len(),
            n >= 1,
            forall|i2: int| 0 <= i2 < i ==> #[trigger] tab[i2].len() == 9,
            forall|i2: int, j: int| 0 <= i2 < i && 0 <= j < 9 ==> #[trigger] tab[i2][j] < n,
    {
        if thresholds[i].len() != 9 {
            assert(tab[i as int].len() != 9);
            return false;
        }
        for j in 0..9usize
            invariant
                tab == grid_view(*thresholds),
                n == thresholds@.len(),
                n >= 1,
                i < n,
                thresholds@[i as int]@.len() == 9,
                forall|j2: int| 0 <= j2 < j ==> tab[i as int][j2] < n,
        {
            if thresholds[i][j] >= n {
                assert(tab[i as int][j as int] >= n);
                return false;
            }
        }
    }
    true
}

/// Decide whether `grid` is a non-empty rectangular grid whose cells all
/// hold state indices below `states`, as the engine's step requires.
pub fn check_grid(grid: &Vec<Vec<usize>>, states: usize) -> (ok: bool)
    ensures
        ok == (grid_wf(grid_view(*grid)) && grid_in_range(grid_view(*grid), states as int)),
{
    let ghost g = grid_view(*grid);
    let n = grid.len();
    if n == 0 {
        return false;
    }
    let ncols = grid[0].len();
    if ncols == 0 {
        assert(g[0].len() == 0);
        return false;
    }
    for i in 0..n
        invariant
            g == grid_view(*grid),
            n == grid@.len(),
            n >= 1,
            ncols == g[0].len(),
            ncols >= 1,
            forall|i2: int| 0 <= i2 < i ==> #[trigger] g[i2].len() == ncols,
            forall|i2: int, j: int|
                0 <= i2 < i && 0 <= j < g[i2].len() ==> #[trigger] g[i2][j] < states,
    {
        if grid[i].len() != ncols {
            assert(g[i as int].len() != g[0].len());
            return false;
        }
        for j in 0..ncols
            invariant
                g == grid_view(*grid),
                n == grid@.len(),
                n >= 1,
                i < n,
                ncols == g[0].len(),
                grid@[i as int]@.len() == ncols,
                forall|j2: int| 0 <= j2 < j ==> g[i as int][j2] < states,
        {
            if grid[i][j] >= states {
                assert(g[i as int][j as int] >= states);
                assert(0 <= j < g[i as int].len());
                return false;
            }
        }
    }
    true
}

/// The earliest index in [from, active) whose grid equals the grid at
/// index `active` of the trajectory, if any.
pub open spec fn match_before(traj: Seq<Seq<Seq<usize>>>, active: int, from: int) -> Option<int>
    decreases active - from,
{
    if from < 0 || from >= active {
        None
    } else if traj[from] == traj[active] {
        Some(from)
    } else {
        match_before(traj, active, from + 1)
    }
}

/// The first repeat of the trajectory in scan order: candidate indices
/// `active` ascending from `from`, and for each of them the earliest
/// earlier index holding an equal grid. The result pairs the repeating
/// index with the index of the first occurrence.
pub open spec fn scan_from(traj: Seq<Seq<Seq<usize>>>, from: int) -> Option<(int, int)>
    decreases traj.len() - from,
{
    if from < 0 || from >= traj.len() {
        None
    } else {
        match match_before(traj, from, 0) {
            Some(c) => Some((from, c)),
            None => scan_from(traj, from + 1),
        }
    }
}

/// What a match scan guarantees: a found index is the earliest equal one,
/// and a miss means no index in range holds an equal grid.
proof fn lemma_match_before_props(traj: Seq<Seq<Seq<usize>>>, active: int, from: int)
    requires
        0 <= from,
    ensures
        match match_before(traj, active, from) {
            Some(c) => {
                &&& from <= c < active
                &&& traj[c] == traj[active]
                &&& forall|j: int| from <= j < c ==> traj[j] != traj[active]
            },
            None => forall|j: int| from <= j < active ==> traj[j] != traj[active],
        },
    decreases active - from,
{
    if from >= active {
    } else if traj[from] == traj[active] {
    } else {
        lemma_match_before_props(traj, active, from + 1);
    }
}

/// What the repeat scan guarantees: a found pair is the first repeat in
/// scan order, and a miss means no index from `from` on repeats an earlier
/// grid.
proof fn lemma_scan_props(traj: Seq<Seq<Seq<usize>>>, from: int)
    requires
        0 <= from,
    ensures
        match scan_from(traj, from) {
            Some(ac) => {
                &&& from <= ac.0 < traj.len()
                &&& match_before(traj, ac.0, 0) == Some(ac.1)
                &&& forall|a: int| from <= a < ac.0 ==> match_before(traj, a, 0) is None
            },
            None => forall|a: int| from <= a < traj.len() ==> match_before(traj, a, 0) is None,
        },
    decreases traj.len() - from,
{
    if from >= traj.len() {
    } else {
        match match_before(traj, from, 0) {
            Some(c) => {},
            None => {
                lemma_scan_props(traj, from + 1);
            },
        }
    }
}

/// Transient monotonicity: when the scan reports its first repeat, the
/// grids before the index of first occurrence are pairwise distinct and
/// none of them equals the repeated grid, so the reported prefix is
/// exactly the non-periodic transient.
pub proof fn lemma_transient_prefix_distinct(traj: Seq<Seq<Seq<usize>>>, a: int, c: int)
    requires
        scan_from(traj, 1) == Some((a, c)),
    ensures
        1 <= a < traj.len(),
        0 <= c < a,
        traj[a] == traj[c],
        forall|i: int, j: int| 0 <= i < j < c ==> traj[i] != traj[j],
        forall|i: int| 0 <= i < c ==> traj[i] != traj[c],
{
    lemma_scan_props(traj, 1);
    lemma_match_before_props(traj, a, 0);
    assert forall|i: int, j: int| 0 <= i < j < c implies traj[i] != traj[j] by {
        lemma_match_before_props(traj, j, 0);
    }
}

/// The outcome of a transient search: the length of the non-periodic
/// prefix and the prefix itself, both zero and empty when no repeat was
/// found within the simulated horizon.
pub struct Transient {
    /// The index of the first grid that is later revisited, or 0 when no
    /// repeat was found.
    pub length: usize,
    /// The trajectory prefix before that grid, empty when no repeat was
    /// found.
    pub states: Vec<Vec<Vec<usize>>>,
}

/// An outer-totalistic two-dimensional automaton: the state counted in
/// neighbors, and the rule table sending (current state, neighbor count)
/// to the next state.
pub struct Totalistic2D {
    /// The state that is counted in a cell's neighbors.
    pub on_state: usize,
    /// A (states x 9) table relating current state and neighbor count to
    /// the next state: entry (s, n) is the successor of a cell in state s
    /// with n neighbors in the counted state.
    pub thresholds: Vec<Vec<usize>>,
}

impl Totalistic2D {
    /// A usable engine: its rule table is well formed.
    pub open spec fn wf(self) -> bool {
        table_wf(grid_view(self.thresholds))
    }

    /// The number of states of the rule table.
    pub open spec fn states(self) -> int {
        grid_view(self.thresholds).len() as int
    }

    /// Advance the grid by one synchronous step: every cell is replaced by
    /// the table entry for its current state and its toroidal Moore-neighbor
    /// count of `on_state`.
    pub fn step(&self, grid: &Vec<Vec<usize>>) -> (next: Vec<Vec<usize>>)
        requires
            self.wf(),
            grid_wf(grid_view(*grid)),
            grid_in_range(grid_view(*grid), self.states()),
        ensures
            grid_view(next) == step_spec(
                grid_view(*grid),
                grid_view(self.thresholds),
                self.on_state,
            ),
    {
        let ghost g = grid_view(*grid);
        let ghost tab = grid_view(self.thresholds);
        let ghost s = step_spec(g, tab, self.on_state);
        let neighbors = neighbor_counts(grid, self.on_state);
        let nrows = grid.len();
        let ncols = grid[0].len();
        proof {
            assert forall|i: int| 0 <= i < grid@.len() implies #[trigger] grid@[i]@.len()
                == ncols by {
                assert(g[i] == grid@[i]@);
                assert(g[i].len() == g[0].len());
            }
            assert(neighbors@.len() == counts_spec(g, self.on_state).len());
            assert forall|i: int| 0 <= i < neighbors@.len() implies #[trigger] neighbors@[i]@.len()
                == ncols by {
                assert(neighbors@[i]@ == grid_view(neighbors)[i]);
                assert(counts_spec(g, self.on_state)[i] == Seq::new(
                    g[0].len(),
                    |c: int| count_on(g, self.on_state, i, c) as usize,
                ));
            }
        }
        let mut next: Vec<Vec<usize>> = Vec::new();
        for r in 0..nrows
            invariant
                grid_wf(g),
                g == grid_view(*grid),
                tab == grid_view(self.thresholds),
                table_wf(tab),
                grid_in_range(g, tab.len() as int),
                s == step_spec(g, tab, self.on_state),
                grid_view(neighbors) == counts_spec(g, self.on_state),
                nrows == g.len(),
                ncols == cols(g),
                nrows == grid@.len(),
                nrows == neighbors@.len(),
                forall|i: int| 0 <= i < grid@.len() ==> #[trigger] grid@[i]@.len() == ncols,
                forall|i: int| 0 <= i < neighbors@.len() ==> #[trigger] neighbors@[i]@.len()
                    == ncols,
                next@.len() == r,
                forall|i: int| 0 <= i < r ==> #[trigger] next@[i]@ == s[i],
        {
            let mut row: Vec<usize> = Vec::new();
            for c in 0..ncols
                invariant
                    grid_wf(g),
                    g == grid_view(*grid),
                    tab == grid_view(self.thresholds),
                    table_wf(tab),
                    grid_in_range(g, tab.len() as int),
                    s == step_spec(g, tab, self.on_state),
                    grid_view(neighbors) == counts_spec(g, self.on_state),
                    nrows == g.len(),
                    ncols == cols(g),
                    nrows == grid@.len(),
                    nrows == neighbors@.len(),
                    forall|i: int| 0 <= i < grid@.len() ==> #[trigger] grid@[i]@.len() == ncols,
                    forall|i: int| 0 <= i < neighbors@.len() ==> #[trigger] neighbors@[i]@.len()
                        == ncols,
                    r < nrows,
                    row@.len() == c,
                    forall|j: int| 0 <= j < c ==> row@[j] == s[r as int][j],
            {
                let state = grid[r][c];
                let count = neighbors[r][c];
                proof {
                    assert(g[r as int] == grid@[r as int]@);
                    assert(g[r as int][c as int] < tab.len());
                    assert(state == g[r as int][c as int]);
                    assert(neighbors@[r as int]@[c as int] == grid_view(neighbors)[r as int][
                        c as int]);
                    assert(counts_spec(g, self.on_state)[r as int] == Seq::new(
                        g[0].len(),
                        |c2: int| count_on(g, self.on_state, r as int, c2) as usize,
                    ));
                    lemma_count_on_range(g, self.on_state, r as int, c as int);
                    assert(count == count_on(g, self.on_state, r as int, c as int));
                    assert(grid_view(self.thresholds)[state as int] == self.thresholds@[
                        state as int]@);
                    assert(tab[state as int].len() == 9);
                }
                let v = self.thresholds[state][count];
                proof {
                    assert(v == tab[state as int][count as int]);
                    assert(s[r as int][c as int] == tab[g[r as int][c as int] as int][count_on(
                        g, self.on_state, r as int, c as int)]);
                }
                row.push(v);
            }
            assert(row@ =~= s[r as int]);
            next.push(row);
        }
        assert(grid_view(next) =~= s);
        next
    }

    /// Simulate `steps` time steps from `initial`: the returned trajectory
    /// has exactly `steps` grids, the first of which is `initial` itself
    /// and each later one the step of its predecessor, so `steps == 1`
    /// returns the initial grid alone with no step performed.
    pub fn simulate(&self, initial: Vec<Vec<usize>>, steps: usize) -> (traj: Vec<Vec<Vec<usize>>>)
        requires
            self.wf(),
            grid_wf(grid_view(initial)),
            grid_in_range(grid_view(initial), self.states()),
            steps >= 1,
        ensures
            traj_view(traj) == trajectory_spec(
                grid_view(initial),
                grid_view(self.thresholds),
                self.on_state,
                steps as int,
            ),
            traj_view(traj).len() == steps,
            traj_view(traj)[0] == grid_view(initial),
    {
        let ghost g0 = grid_view(initial);
        let ghost tab = grid_view(self.thresholds);
        let mut cur = clone_grid(&initial);
        let mut out: Vec<Vec<Vec<usize>>> = Vec::new();
        out.push(initial);
        proof {
            assert(traj_view(out) =~= trajectory_spec(g0, tab, self.on_state, 1));
            lemma_trajectory_props(g0, tab, self.on_state, steps as int);
        }
        for i in 1..steps
            invariant
                self.wf(),
                tab == grid_view(self.thresholds),
                grid_wf(g0),
                grid_in_range(g0, tab.len() as int),
                out@.len() == i,
                traj_view(out) == trajectory_spec(g0, tab, self.on_state, i as int),
                grid_view(cur) == trajectory_spec(g0, tab, self.on_state, i as int).last(),
                grid_wf(grid_view(cur)),
                grid_in_range(grid_view(cur), tab.len() as int),
        {
            let next = self.step(&cur);
            proof {
                lemma_step_spec_wf(grid_view(cur), tab, self.on_state);
            }
            cur = next;
            let copy = clone_grid(&cur);
            out.push(copy);
            proof {
                let t = trajectory_spec(g0, tab, self.on_state, i as int);
                let t2 = trajectory_spec(g0, tab, self.on_state, i + 1 as int);
                assert(t2 == t.push(step_spec(t.last(), tab, self.on_state)));
                assert(traj_view(out) =~= t2);
            }
        }
        proof {
            lemma_trajectory_props(g0, tab, self.on_state, steps as int);
        }
        out
    }

    /// Simulate `max_steps` steps from `initial` and report the transient:
    /// the trajectory is scanned forward, each grid compared against all
    /// earlier ones, and on the first repeat the index of the earlier, first
    /// occurrence is reported together with the trajectory prefix before it.
    /// Without a repeat within the horizon the result is length 0 with an
    /// empty prefix.
    pub fn simulate_transient(&self, initial: Vec<Vec<usize>>, max_steps: usize) -> (t: Transient)
        requires
            self.wf(),
            grid_wf(grid_view(initial)),
            grid_in_range(grid_view(initial), self.states()),
            max_steps >= 1,
        ensures
            ({
                let traj = trajectory_spec(
                    grid_view(initial),
                    grid_view(self.thresholds),
                    self.on_state,
                    max_steps as int,
                );
                match scan_from(traj, 1) {
                    Some(ac) => t.length == ac.1 && traj_view(t.states) == traj.subrange(0, ac.1),
                    None => t.length == 0 && traj_view(t.states) == Seq::<Seq<Seq<usize>>>::empty(),
                }
            }),
    {
        let ghost tv = trajectory_spec(
            grid_view(initial),
            grid_view(self.thresholds),
            self.on_state,
            max_steps as int,
        );
        let traj = self.simulate(initial, max_steps);
        let n = traj.len();
        proof {
            assert(n == tv.len());
        }
        let mut active: usize = 1;
        let mut found = false;
        let mut check_found: usize = 0;
        while active < n && !found
            invariant
                n == traj@.len(),
                tv == traj_view(traj),
                1 <= active <= n,
                !found ==> scan_from(tv, 1) == scan_from(tv, active as int),
                found ==> active < n && scan_from(tv, 1) == Some((active as int, check_found as int)),
                found ==> check_found < active,
            decreases n - active + (if found { 0int } else { 1int }),
        {
            let mut check: usize = 0;
            let mut inner_found = false;
            while check < active && !inner_found
                invariant
                    n == traj@.len(),
                    tv == traj_view(traj),
                    1 <= active < n,
                    check <= active,
                    !inner_found ==> match_before(tv, active as int, 0) == match_before(
                        tv, active as int, check as int),
                    inner_found ==> check < active && match_before(tv, active as int, 0) == Some(
                        check as int),
                decreases active - check + (if inner_found { 0int } else { 1int }),
            {
                if grids_equal(&traj[check], &traj[active]) {
                    proof {
                        assert(grid_view(traj@[check as int]) == tv[check as int]);
                        assert(grid_view(traj@[active as int]) == tv[active as int]);
                        assert(match_before(tv, active as int, check as int) == Some(
                            check as int));
                    }
                    inner_found = true;
                } else {
                    proof {
                        assert(grid_view(traj@[check as int]) == tv[check as int]);
                        assert(grid_view(traj@[active as int]) == tv[active as int]);
                        assert(match_before(tv, active as int, check as int) == match_before(
                            tv, active as int, check as int + 1));
                    }
                    check = check + 1;
                }
            }
            if inner_found {
                proof {
                    assert(scan_from(tv, active as int) == Some((active as int, check as int)));
                }
                check_found = check;
                found = true;
            } else {
                proof {
                    assert(check == active);
                    assert(match_before(tv, active as int, active as int) is None);
                    assert(match_before(tv, active as int, 0) is None);
                    assert(scan_from(tv, active as int) == scan_from(tv, active as int + 1));
                }
                active = active + 1;
            }
        }
        if found {
            let mut states: Vec<Vec<Vec<usize>>> = Vec::new();
            for i in 0..check_found
                invariant
                    n == traj@.len(),
                    tv == traj_view(traj),
                    check_found < n,
                    states@.len() == i,
                    forall|j: int| 0 <= j < i ==> grid_view(#[trigger] states@[j]) == tv[j],
            {
                let copy = clone_grid(&traj[i]);
                states.push(copy);
                proof {
                    assert(grid_view(traj@[i as int]) == tv[i as int]);
                }
            }
            proof {
                assert(traj_view(states) =~= tv.subrange(0, check_found as int));
            }
            Transient { length: check_found, states }
        } else {
            proof {
                assert(active == n);
                assert(scan_from(tv, n as int) is None);
            }
            let states: Vec<Vec<Vec<usize>>> = Vec::new();
            proof {
                assert(traj_view(states) =~= Seq::<Seq<Seq<usize>>>::empty());
            }
            Transient { length: 0, states }
        }
    }
}

} // verus!
