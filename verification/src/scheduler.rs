//! Partitioning a number of independent simulation runs over a fixed pool
//! of concurrent workers: full batches of one run per worker, then one
//! final batch holding the remainder.

use vstd::prelude::*;

verus! {

/// The total number of runs held by a sequence of batch sizes.
pub open spec fn total_runs(s: Seq<usize>) -> int
    decreases s.len(),
{
    if s.len() == 0 {
        0
    } else {
        s[0] + total_runs(s.drop_first())
    }
}

/// Appending a batch adds its size to the total.
proof fn lemma_total_runs_push(s: Seq<usize>, x: usize)
    ensures
        total_runs(s.push(x)) == total_runs(s) + x,
    decreases s.len(),
{
    if s.len() == 0 {
        assert(s.push(x).drop_first() =~= Seq::<usize>::empty());
        assert(total_runs(Seq::<usize>::empty()) == 0);
        assert(s.push(x)[0] == x);
        assert(total_runs(s.push(x)) == x + total_runs(s.push(x).drop_first()));
    } else {
        assert(s.push(x).drop_first() =~= s.drop_first().push(x));
        lemma_total_runs_push(s.drop_first(), x);
        assert(s.push(x)[0] == s[0]);
        assert(total_runs(s.push(x)) == s[0] + total_runs(s.push(x).drop_first()));
        assert(total_runs(s) == s[0] + total_runs(s.drop_first()));
    }
}

/// The sizes of the batches in which `runs` independent runs are executed
/// on `workers` concurrent workers: floor(runs / workers) full batches of
/// `workers` runs each, followed by one final batch of the remaining
/// `runs % workers`, so the batches hold exactly `runs` runs in all.
pub fn batch_sizes(runs: usize, workers: usize) -> (sizes: Vec<usize>)
    requires
        workers >= 1,
    ensures
        sizes@.len() == runs / workers + 1,
        forall|i: int| 0 <= i < sizes@.len() - 1 ==> #[trigger] sizes@[i] == workers,
        sizes@[sizes@.len() - 1] == runs % workers,
        total_runs(sizes@) == runs,
{
    let chunks = runs / workers;
    let rem = runs % workers;
    let mut sizes: Vec<usize> = Vec::new();
    for i in 0..chunks
        invariant
            chunks == runs / workers,
            rem == runs % workers,
            workers >= 1,
            sizes@.len() == i,
            forall|j: int| 0 <= j < i ==> #[trigger] sizes@[j] == workers,
            total_runs(sizes@) == i * workers,
    {
        let ghost prev = sizes@;
        sizes.push(workers);
        proof {
            lemma_total_runs_push(prev, workers);
            assert((i + 1) * workers == i * workers + workers) by (nonlinear_arith);
        }
    }
    let ghost prev = sizes@;
    sizes.push(rem);
    proof {
        lemma_total_runs_push(prev, rem);
        vstd::arithmetic::div_mod::lemma_fundamental_div_mod(runs as int, workers as int);
        assert(chunks * workers == workers * chunks) by (nonlinear_arith);
    }
    sizes
}

/// Each of the `runs` runs is executed exactly once, however `runs`
/// divides by `workers`: run n belongs to batch n / workers at offset
/// n % workers, every such slot exists, every slot (b, s) of the batches
/// holds the single run b * workers + s, and the two assignments are
/// mutually inverse, so no run is duplicated or dropped.
pub proof fn lemma_batches_cover(runs: usize, workers: usize, sizes: Seq<usize>)
    requires
        workers >= 1,
        sizes.len() == runs / workers + 1,
        forall|i: int| 0 <= i < sizes.len() - 1 ==> #[trigger] sizes[i] == workers,
        sizes[sizes.len() - 1] == runs % workers,
    ensures
        forall|n: int|
            0 <= n < runs ==> {
                let b = #[trigger] (n / (workers as int));
                &&& 0 <= b < sizes.len()
                &&& 0 <= n % (workers as int) < sizes[b]
                &&& b * (workers as int) + n % (workers as int) == n
            },
        forall|b: int, s: int|
            0 <= b < sizes.len() && 0 <= s < sizes[b] ==> {
                let n = #[trigger] (b * (workers as int) + s);
                &&& 0 <= n < runs
                &&& n / (workers as int) == b
                &&& n % (workers as int) == s
            },
{
    let w = workers as int;
    let full = runs / workers;
    assert forall|n: int| 0 <= n < runs implies {
        let b = #[trigger] (n / w);
        &&& 0 <= b < sizes.len()
        &&& 0 <= n % w < sizes[b]
        &&& b * w + n % w == n
    } by {
        let b = n / w;
        vstd::arithmetic::div_mod::lemma_fundamental_div_mod(n, w);
        vstd::arithmetic::div_mod::lemma_mod_division_less_than_divisor(n, w);
        vstd::arithmetic::div_mod::lemma_div_pos_is_pos(n, w);
        vstd::arithmetic::div_mod::lemma_div_is_ordered(n, runs as int, w);
        vstd::arithmetic::div_mod::lemma_fundamental_div_mod(runs as int, w);
        vstd::arithmetic::div_mod::lemma_mod_division_less_than_divisor(runs as int, w);
        assert(b * w == w * b) by (nonlinear_arith);
        if b == full as int {
            assert(w * b + n % w == n);
            assert(w * b + (runs % workers) == runs);
            assert(n % w < runs % workers);
        } else {
            assert(b < full as int);
            assert(sizes[b] == workers);
        }
    }
    assert forall|b: int, s: int| 0 <= b < sizes.len() && 0 <= s < sizes[b] implies {
        let n = #[trigger] (b * w + s);
        &&& 0 <= n < runs
        &&& n / w == b
        &&& n % w == s
    } by {
        let n = b * w + s;
        vstd::arithmetic::div_mod::lemma_fundamental_div_mod(runs as int, w);
        vstd::arithmetic::div_mod::lemma_mod_division_less_than_divisor(runs as int, w);
        assert(s < w);
        vstd::arithmetic::mul::lemma_mul_nonnegative(b, w);
        vstd::arithmetic::div_mod::lemma_fundamental_div_mod_converse_div(n, w, b, s);
        vstd::arithmetic::div_mod::lemma_fundamental_div_mod_converse_mod(n, w, b, s);
        if b == full as int {
            assert(b * w == w * b) by (nonlinear_arith);
            assert(n < runs);
        } else {
            assert(b + 1 <= full as int);
            vstd::arithmetic::mul::lemma_mul_inequality(b + 1, full as int, w);
            assert((b + 1) * w == b * w + w) by (nonlinear_arith);
            assert((full as int) * w == w * (full as int)) by (nonlinear_arith);
            assert(n < (b + 1) * w);
        }
    }
}

} // verus!
