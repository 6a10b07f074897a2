//! Grid helpers: the mathematical model of a rectangular grid of cell
//! states, the binary mask, toroidal edge wrapping, and the same-shape
//! integer convolution that realizes neighbor counting.

use vstd::prelude::*;

verus! {

/// The mathematical value of a grid held as a vector of rows.
pub open spec fn grid_view(v: Vec<Vec<usize>>) -> Seq<Seq<usize>> {
    Seq::new(v@.len(), |i: int| v@[i]@)
}

/// A well-formed grid: at least one row, at least one column, and every row
/// of the same length.
pub open spec fn grid_wf(g: Seq<Seq<usize>>) -> bool {
    &&& g.len() >= 1
    &&& g[0].len() >= 1
    &&& forall|i: int| 0 <= i < g.len() ==> #[trigger] g[i].len() == g[0].len()
}

/// Number of rows of a grid.
pub open spec fn rows(g: Seq<Seq<usize>>) -> int {
    g.len() as int
}

/// Number of columns of a well-formed grid.
pub open spec fn cols(g: Seq<Seq<usize>>) -> int {
    g[0].len() as int
}

/// The cell at (r, c) under toroidal wrap-around: indices are reduced
/// modulo the grid dimensions, so every integer pair addresses a cell.
pub open spec fn torus_get(g: Seq<Seq<usize>>, r: int, c: int) -> usize {
    g[r % rows(g)][c % cols(g)]
}

/// The grid translated by (dr, dc) on the torus: cell (r, c) of the result
/// is cell (r + dr, c + dc) of `g` under wrap-around.
pub open spec fn shift_grid(g: Seq<Seq<usize>>, dr: int, dc: int) -> Seq<Seq<usize>> {
    Seq::new(g.len(), |r: int| Seq::new(g[0].len(), |c: int| torus_get(g, r + dr, c + dc)))
}

/// Reducing a summand modulo n first does not change a sum modulo n.
pub proof fn lemma_mod_shift(x: int, d: int, n: int)
    requires
        n > 0,
    ensures
        ((x % n) + d) % n == (x + d) % n,
{
    vstd::arithmetic::div_mod::lemma_mod_twice(x, n);
    vstd::arithmetic::div_mod::lemma_add_mod_noop(x % n, d, n);
    vstd::arithmetic::div_mod::lemma_add_mod_noop(x, d, n);
}

/// Toroidal lookup commutes with toroidal translation: reading the shifted
/// grid anywhere is reading the grid at the shifted place.
pub proof fn lemma_torus_get_shift(g: Seq<Seq<usize>>, dr: int, dc: int, r: int, c: int)
    requires
        grid_wf(g),
    ensures
        torus_get(shift_grid(g, dr, dc), r, c) == torus_get(g, r + dr, c + dc),
{
    let s = shift_grid(g, dr, dc);
    assert(s.len() == g.len());
    assert(s[0].len() == g[0].len());
    vstd::arithmetic::div_mod::lemma_mod_division_less_than_divisor(r, rows(g));
    vstd::arithmetic::div_mod::lemma_mod_division_less_than_divisor(c, cols(g));
    assert(s[r % rows(s)] == Seq::new(
        g[0].len(),
        |c2: int| torus_get(g, (r % rows(g)) + dr, c2 + dc),
    ));
    assert(torus_get(s, r, c) == g[((r % rows(g)) + dr) % rows(g)][((c % cols(g)) + dc) % cols(g)]);
    lemma_mod_shift(r, dr, rows(g));
    lemma_mod_shift(c, dc, cols(g));
}

/// The binary mask of a grid: 1 where a cell equals `keep_state`, else 0.
pub open spec fn mask_spec(g: Seq<Seq<usize>>, keep_state: usize) -> Seq<Seq<usize>> {
    Seq::new(
        g.len(),
        |r: int| Seq::new(g[0].len(), |c: int| if g[r][c] == keep_state { 1usize } else { 0usize }),
    )
}

/// The toroidal padding of a grid: one extra layer on every side, each
/// padding cell copied from the opposite edge, so that cell (i, j) of the
/// result is cell (i - 1, j - 1) of the input under wrap-around.
pub open spec fn wrap_spec(a: Seq<Seq<usize>>) -> Seq<Seq<usize>> {
    Seq::new(
        (a.len() + 2) as nat,
        |i: int|
            Seq::new(
                (a[0].len() + 2) as nat,
                |j: int| a[(i - 1) % rows(a)][(j - 1) % cols(a)],
            ),
    )
}

/// Produce the binary mask of `a`: 1 where a cell equals `keep_state` and 0
/// everywhere else, keeping the shape.
pub fn filter_grid(a: &Vec<Vec<usize>>, keep_state: usize) -> (out: Vec<Vec<usize>>)
    requires
        grid_wf(grid_view(*a)),
    ensures
        grid_view(out) == mask_spec(grid_view(*a), keep_state),
{
    let ghost g = grid_view(*a);
    let ghost m = mask_spec(g, keep_state);
    let mut out: Vec<Vec<usize>> = Vec::new();
    let nrows = a.len();
    let ncols = a[0].len();
    assert forall|i: int| 0 <= i < a@.len() implies #[trigger] a@[i]@.len() == ncols by {
        assert(g[i] == a@[i]@);
        assert(g[i].len() == g[0].len());
    }
    for ri in 0..nrows
        invariant
            grid_wf(g),
            g == grid_view(*a),
            m == mask_spec(g, keep_state),
            nrows == g.len(),
            ncols == cols(g),
            nrows == a@.len(),
            forall|i: int| 0 <= i < a@.len() ==> #[trigger] a@[i]@.len() == ncols,
            out@.len() == ri,
            forall|i: int| 0 <= i < ri ==> #[trigger] out@[i]@ == m[i],
    {
        let mut row: Vec<usize> = Vec::new();
        for ci in 0..ncols
            invariant
                grid_wf(g),
                g == grid_view(*a),
                m == mask_spec(g, keep_state),
                nrows == g.len(),
                ncols == cols(g),
                nrows == a@.len(),
                forall|i: int| 0 <= i < a@.len() ==> #[trigger] a@[i]@.len() == ncols,
                ri < nrows,
                row@.len() == ci,
                forall|j: int| 0 <= j < ci ==> row@[j] == m[ri as int][j],
        {
            if a[ri][ci] == keep_state {
                row.push(1);
            } else {
                row.push(0);
            }
        }
        assert(row@ =~= m[ri as int]);
        out.push(row);
    }
    assert(grid_view(out) =~= m);
    out
}

/// One row of the toroidal padding: the row extended by a copy of its last
/// element on the left and of its first element on the right.
fn wrapped_row(src: &Vec<usize>) -> (row: Vec<usize>)
    requires
        src@.len() >= 1,
    ensures
        row@.len() == src@.len() + 2,
        forall|j: int| 0 <= j < row@.len() ==> row@[j] == src@[(j - 1) % (src@.len() as int)],
{
    let n = src.len();
    let mut row: Vec<usize> = Vec::new();
    row.push(src[n - 1]);
    for ci in 0..n
        invariant
            n == src@.len(),
            n >= 1,
            row@.len() == ci + 1,
            row@[0] == src@[n - 1],
            forall|j: int| 1 <= j < row@.len() ==> row@[j] == src@[j - 1],
    {
        row.push(src[ci]);
    }
    row.push(src[0]);
    assert forall|j: int| 0 <= j < row@.len() implies row@[j] == src@[(j - 1) % (src@.len() as int)] by {
        let c = src@.len() as int;
        if j == 0 {
            vstd::arithmetic::div_mod::lemma_fundamental_div_mod_converse_mod(-1, c, -1, c - 1);
        } else if j == c + 1 {
            vstd::arithmetic::div_mod::lemma_fundamental_div_mod_converse_mod(c, c, 1, 0);
        } else {
            vstd::arithmetic::div_mod::lemma_fundamental_div_mod_converse_mod(j - 1, c, 0, j - 1);
        }
    }
    row
}

/// Pad a grid by one layer on every side so that the inner cells see
/// toroidal boundary conditions: the added border holds copies of the
/// opposite edges and corners.
pub fn wrap_edges(a: Vec<Vec<usize>>) -> (out: Vec<Vec<usize>>)
    requires
        grid_wf(grid_view(a)),
    ensures
        grid_view(out) == wrap_spec(grid_view(a)),
{
    let ghost g = grid_view(a);
    let ghost w = wrap_spec(g);
    let arows = a.len();
    let acols = a[0].len();
    assert forall|i: int| 0 <= i < a@.len() implies #[trigger] a@[i]@.len() == acols by {
        assert(g[i] == a@[i]@);
        assert(g[i].len() == g[0].len());
    }
    let mut out: Vec<Vec<usize>> = Vec::new();
    let top_row = wrapped_row(&a[arows - 1]);
    proof {
        let r = arows as int;
        vstd::arithmetic::div_mod::lemma_fundamental_div_mod_converse_mod(-1, r, -1, r - 1);
        assert(top_row@ =~= w[0]);
    }
    out.push(top_row);
    for ri in 0..arows
        invariant
            grid_wf(g),
            g == grid_view(a),
            w == wrap_spec(g),
            arows == g.len(),
            acols == cols(g),
            arows == a@.len(),
            forall|i: int| 0 <= i < a@.len() ==> #[trigger] a@[i]@.len() == acols,
            out@.len() == ri + 1,
            forall|i: int| 0 <= i < out@.len() ==> #[trigger] out@[i]@ == w[i],
    {
        let mid_row = wrapped_row(&a[ri]);
        proof {
            let r = arows as int;
            vstd::arithmetic::div_mod::lemma_fundamental_div_mod_converse_mod(
                ri as int, r, 0, ri as int);
            assert(mid_row@ =~= w[ri + 1]);
        }
        out.push(mid_row);
    }
    let bot_row = wrapped_row(&a[0]);
    proof {
        let r = arows as int;
        vstd::arithmetic::div_mod::lemma_fundamental_div_mod_converse_mod(r, r, 1, 0);
        assert(bot_row@ =~= w[arows + 1]);
    }
    out.push(bot_row);
    assert(grid_view(out) =~= w);
    out
}

/// The value of cell (r, c) of grid `a` extended by zeros on every side.
pub open spec fn padded_get(a: Seq<Seq<usize>>, r: int, c: int) -> int {
    if 0 <= r < a.len() && 0 <= c < a[0].len() {
        a[r][c] as int
    } else {
        0
    }
}

/// One term of the convolution sum at output cell (r, c): kernel cell
/// (kr, kc) times the input cell it overlays when the kernel is centered
/// on (r, c), with zeros outside the input.
pub open spec fn conv_term(
    a: Seq<Seq<usize>>,
    k: Seq<Seq<usize>>,
    r: int,
    c: int,
    kr: int,
    kc: int,
) -> int {
    k[kr][kc] * padded_get(a, r + kr - (rows(k) - 1) / 2, c + kc - (cols(k) - 1) / 2)
}

/// Partial convolution sum: the terms of kernel row `kr` from column `kc` on.
pub open spec fn conv_row_from(
    a: Seq<Seq<usize>>,
    k: Seq<Seq<usize>>,
    r: int,
    c: int,
    kr: int,
    kc: int,
) -> int
    decreases cols(k) - kc,
{
    if kc < 0 || kc >= cols(k) {
        0
    } else {
        conv_term(a, k, r, c, kr, kc) + conv_row_from(a, k, r, c, kr, kc + 1)
    }
}

/// Partial convolution sum: the terms of kernel rows `kr` and below.
pub open spec fn conv_from(a: Seq<Seq<usize>>, k: Seq<Seq<usize>>, r: int, c: int, kr: int) -> int
    decreases rows(k) - kr,
{
    if kr < 0 || kr >= rows(k) {
        0
    } else {
        conv_row_from(a, k, r, c, kr, 0) + conv_from(a, k, r, c, kr + 1)
    }
}

/// The full convolution sum at output cell (r, c): the kernel centered on
/// (r, c) of the zero-extended input, all terms added.
pub open spec fn conv_at(a: Seq<Seq<usize>>, k: Seq<Seq<usize>>, r: int, c: int) -> int {
    conv_from(a, k, r, c, 0)
}

/// The same-shape convolution of a grid with a kernel, as a grid.
pub open spec fn conv_spec(a: Seq<Seq<usize>>, k: Seq<Seq<usize>>) -> Seq<Seq<usize>> {
    Seq::new(a.len(), |r: int| Seq::new(a[0].len(), |c: int| conv_at(a, k, r, c) as usize))
}

/// Every convolution term is non-negative: both factors are.
proof fn lemma_conv_row_from_nonneg(
    a: Seq<Seq<usize>>,
    k: Seq<Seq<usize>>,
    r: int,
    c: int,
    kr: int,
    kc: int,
)
    ensures
        conv_row_from(a, k, r, c, kr, kc) >= 0,
    decreases cols(k) - kc,
{
    if kc < 0 || kc >= cols(k) {
    } else {
        vstd::arithmetic::mul::lemma_mul_nonnegative(
            k[kr][kc] as int,
            padded_get(a, r + kr - (rows(k) - 1) / 2, c + kc - (cols(k) - 1) / 2),
        );
        lemma_conv_row_from_nonneg(a, k, r, c, kr, kc + 1);
    }
}

/// A partial convolution sum is non-negative.
proof fn lemma_conv_from_nonneg(a: Seq<Seq<usize>>, k: Seq<Seq<usize>>, r: int, c: int, kr: int)
    ensures
        conv_from(a, k, r, c, kr) >= 0,
    decreases rows(k) - kr,
{
    if kr < 0 || kr >= rows(k) {
    } else {
        lemma_conv_row_from_nonneg(a, k, r, c, kr, 0);
        lemma_conv_from_nonneg(a, k, r, c, kr + 1);
    }
}

/// Convolve `a` with `kernel`, keeping the shape of `a`: the kernel is
/// centered on each cell in turn and the input is extended with zeros,
/// so cell (r, c) of the result is the full convolution sum there.
pub fn flat_conv2d(a: Vec<Vec<usize>>, kernel: Vec<Vec<usize>>) -> (out: Vec<Vec<usize>>)
    requires
        grid_wf(grid_view(a)),
        grid_wf(grid_view(kernel)),
        forall|r: int, c: int|
            0 <= r < rows(grid_view(a)) && 0 <= c < cols(grid_view(a)) ==> #[trigger] conv_at(
                grid_view(a),
                grid_view(kernel),
                r,
                c,
            ) <= usize::MAX,
    ensures
        grid_view(out) == conv_spec(grid_view(a), grid_view(kernel)),
{
    let ghost ga = grid_view(a);
    let ghost gk = grid_view(kernel);
    let ghost cv = conv_spec(ga, gk);
    let nrows = a.len();
    let ncols = a[0].len();
    let krows = kernel.len();
    let kcols = kernel[0].len();
    let hoff = (krows - 1) / 2;
    let woff = (kcols - 1) / 2;
    assert forall|i: int| 0 <= i < a@.len() implies #[trigger] a@[i]@.len() == ncols by {
        assert(ga[i] == a@[i]@);
        assert(ga[i].len() == ga[0].len());
    }
    assert forall|i: int| 0 <= i < kernel@.len() implies #[trigger] kernel@[i]@.len() == kcols by {
        assert(gk[i] == kernel@[i]@);
        assert(gk[i].len() == gk[0].len());
    }
    let mut out: Vec<Vec<usize>> = Vec::new();
    for r in 0..nrows
        invariant
            grid_wf(ga),
            grid_wf(gk),
            ga == grid_view(a),
            gk == grid_view(kernel),
            cv == conv_spec(ga, gk),
            nrows == ga.len(),
            ncols == cols(ga),
            krows == gk.len(),
            kcols == cols(gk),
            hoff == (krows - 1) / 2,
            woff == (kcols - 1) / 2,
            nrows == a@.len(),
            krows == kernel@.len(),
            forall|i: int| 0 <= i < a@.len() ==> #[trigger] a@[i]@.len() == ncols,
            forall|i: int| 0 <= i < kernel@.len() ==> #[trigger] kernel@[i]@.len() == kcols,
            forall|r2: int, c2: int|
                0 <= r2 < nrows && 0 <= c2 < ncols ==> #[trigger] conv_at(ga, gk, r2, c2)
                    <= usize::MAX,
            out@.len() == r,
            forall|i: int| 0 <= i < r ==> #[trigger] out@[i]@ == cv[i],
    {
        let mut row: Vec<usize> = Vec::new();
        for c in 0..ncols
            invariant
                grid_wf(ga),
                grid_wf(gk),
                ga == grid_view(a),
                gk == grid_view(kernel),
                nrows == ga.len(),
                ncols == cols(ga),
                krows == gk.len(),
                kcols == cols(gk),
                hoff == (krows - 1) / 2,
                woff == (kcols - 1) / 2,
                nrows == a@.len(),
                krows == kernel@.len(),
                forall|i: int| 0 <= i < a@.len() ==> #[trigger] a@[i]@.len() == ncols,
                forall|i: int| 0 <= i < kernel@.len() ==> #[trigger] kernel@[i]@.len() == kcols,
                forall|r2: int, c2: int|
                    0 <= r2 < nrows && 0 <= c2 < ncols ==> #[trigger] conv_at(ga, gk, r2, c2)
                        <= usize::MAX,
                r < nrows,
                row@.len() == c,
                forall|j: int| 0 <= j < c ==> row@[j] == conv_at(ga, gk, r as int, j) as usize,
        {
            let mut acc: usize = 0;
            proof {
                assert(conv_at(ga, gk, r as int, c as int) == conv_from(
                    ga, gk, r as int, c as int, 0));
            }
            for kr in 0..krows
                invariant
                    grid_wf(ga),
                    grid_wf(gk),
                    ga == grid_view(a),
                    gk == grid_view(kernel),
                    nrows == ga.len(),
                    ncols == cols(ga),
                    krows == gk.len(),
                    kcols == cols(gk),
                    hoff == (krows - 1) / 2,
                    woff == (kcols - 1) / 2,
                    nrows == a@.len(),
                    krows == kernel@.len(),
                    forall|i: int| 0 <= i < a@.len() ==> #[trigger] a@[i]@.len() == ncols,
                    forall|i: int| 0 <= i < kernel@.len() ==> #[trigger] kernel@[i]@.len() == kcols,
                    r < nrows,
                    c < ncols,
                    conv_at(ga, gk, r as int, c as int) <= usize::MAX,
                    acc + conv_from(ga, gk, r as int, c as int, kr as int) == conv_at(
                        ga, gk, r as int, c as int),
            {
                for kc in 0..kcols
                    invariant
                        grid_wf(ga),
                        grid_wf(gk),
                        ga == grid_view(a),
                        gk == grid_view(kernel),
                        nrows == ga.len(),
                        ncols == cols(ga),
                        krows == gk.len(),
                        kcols == cols(gk),
                        hoff == (krows - 1) / 2,
                        woff == (kcols - 1) / 2,
                        nrows == a@.len(),
                        krows == kernel@.len(),
                        forall|i: int| 0 <= i < a@.len() ==> #[trigger] a@[i]@.len() == ncols,
                        forall|i: int| 0 <= i < kernel@.len() ==> #[trigger] kernel@[i]@.len()
                            == kcols,
                        r < nrows,
                        c < ncols,
                        kr < krows,
                        conv_at(ga, gk, r as int, c as int) <= usize::MAX,
                        acc + conv_row_from(ga, gk, r as int, c as int, kr as int, kc as int)
                            + conv_from(ga, gk, r as int, c as int, kr as int + 1) == conv_at(
                            ga, gk, r as int, c as int),
                {
                    let kval = kernel[kr][kc];
                    let mut aval: usize = 0;
                    if kr >= hoff {
                        let dr = kr - hoff;
                        if dr < nrows - r {
                            if kc >= woff {
                                let dc = kc - woff;
                                if dc < ncols - c {
                                    aval = a[r + dr][c + dc];
                                }
                            } else {
                                let dc = woff - kc;
                                if c >= dc {
                                    aval = a[r + dr][c - dc];
                                }
                            }
                        }
                    } else {
                        let dr = hoff - kr;
                        if r >= dr {
                            if kc >= woff {
                                let dc = kc - woff;
                                if dc < ncols - c {
                                    aval = a[r - dr][c + dc];
                                }
                            } else {
                                let dc = woff - kc;
                                if c >= dc {
                                    aval = a[r - dr][c - dc];
                                }
                            }
                        }
                    }
                    proof {
                        let ri = r as int;
                        let ci = c as int;
                        let kri = kr as int;
                        let kci = kc as int;
                        assert(gk[kri] == kernel@[kri]@);
                        assert(kval == gk[kri][kci]);
                        if 0 <= ri + kri - hoff < nrows && 0 <= ci + kci - woff < ncols {
                            assert(ga[ri + kri - hoff] == a@[ri + kri - hoff]@);
                        }
                        assert(aval == padded_get(ga, ri + kri - hoff, ci + kci - woff));
                        assert(conv_term(ga, gk, ri, ci, kri, kci) == kval * padded_get(
                            ga, ri + kri - hoff, ci + kci - woff));
                        assert(conv_row_from(ga, gk, ri, ci, kri, kci) == conv_term(
                            ga, gk, ri, ci, kri, kci) + conv_row_from(ga, gk, ri, ci, kri, kci + 1));
                        lemma_conv_row_from_nonneg(ga, gk, ri, ci, kri, kci + 1);
                        lemma_conv_from_nonneg(ga, gk, ri, ci, kri + 1);
                        vstd::arithmetic::mul::lemma_mul_nonnegative(
                            kval as int,
                            padded_get(ga, ri + kri - hoff, ci + kci - woff),
                        );
                        assert(acc + kval * aval <= conv_at(ga, gk, ri, ci));
                    }
                    acc = acc + kval * aval;
                }
                proof {
                    assert(conv_row_from(ga, gk, r as int, c as int, kr as int, kcols as int) == 0);
                }
            }
            proof {
                assert(conv_from(ga, gk, r as int, c as int, krows as int) == 0);
                lemma_conv_from_nonneg(ga, gk, r as int, c as int, 0);
            }
            row.push(acc);
        }
        proof {
            assert(row@ =~= cv[r as int]);
        }
        out.push(row);
    }
    assert(grid_view(out) =~= cv);
    out
}

} // verus!
