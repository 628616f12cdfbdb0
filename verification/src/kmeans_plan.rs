//! How assignment work is cut into blocks that fit a memory budget.
use crate::arith::{
    larger, quotient_up, saturating_product, saturating_rest, saturating_total, smaller,
};
use vstd::prelude::*;

verus! {

/// Elements of scratch memory that all workers may hold together.
pub const MAX_MATRIX_ELEMS: usize = 4_194_304;

/// Rows below which a parallel block is not worth starting.
pub const MIN_BLOCK_ROWS: usize = 32;

/// Operations below which a parallel block is not worth starting.
pub const MIN_BLOCK_FLOPS: usize = 4_000_000;

/// Blocks that a parallel assignment aims for.
pub const TARGET_BLOCKS: usize = 64;

/// Rows per thread below which rows are measured one by one.
pub const DIRECT_ROWS_PER_THREAD: usize = 8;

/// Dimension below which rows are measured one by one.
pub const MIN_GEMM_DIM: usize = 32;

/// Widest tile of centroids.
pub const CENTROID_TILE_COLS: usize = 4096;

pub open spec fn min_of(a: int, b: int) -> int {
    if a <= b {
        a
    } else {
        b
    }
}

pub open spec fn max_of(a: int, b: int) -> int {
    if a >= b {
        a
    } else {
        b
    }
}

/// Elements of scratch memory that one pair of distance and index takes.
pub open spec fn tuple_elems() -> int {
    crate::arith::ceil_div(vstd::layout::size_of::<(u32, usize)>() as int, 4)
}

pub fn topk_tuple_elems() -> (elems: usize)
    ensures
        elems == tuple_elems(),
{
    quotient_up(std::mem::size_of::<(u32, usize)>(), 4)
}

/// Rows are measured one by one: there are too few, or they are too short.
pub open spec fn is_direct_batch(rows: int, d: int, threads: int) -> bool {
    d < MIN_GEMM_DIM || rows < crate::arith::sat_mul(
        DIRECT_ROWS_PER_THREAD as int,
        max_of(threads, 1),
    )
}

pub fn use_direct_batch(rows: usize, d: usize, threads: usize) -> (direct: bool)
    ensures
        direct == is_direct_batch(rows as int, d as int, threads as int),
{
    d < MIN_GEMM_DIM || rows < saturating_product(DIRECT_ROWS_PER_THREAD, larger(threads, 1))
}

/// Workers that can each keep all candidates of one query.
pub open spec fn linear_workers(k: int, nprobe: int, workers: int) -> int {
    let tuples = if nprobe <= 1 {
        1
    } else {
        k
    };
    let per_worker = crate::arith::sat_mul(tuples, tuple_elems());
    if per_worker == 0 {
        0
    } else {
        min_of(MAX_MATRIX_ELEMS as int / per_worker, workers)
    }
}

pub fn direct_topk_linear_worker_limit(k: usize, nprobe: usize, workers: usize) -> (limit: usize)
    ensures
        limit == linear_workers(k as int, nprobe as int, workers as int),
{
    let tuples: usize = if nprobe <= 1 {
        1
    } else {
        k
    };
    let per_worker: usize = saturating_product(tuples, topk_tuple_elems());
    if per_worker == 0 {
        return 0;
    }
    smaller(MAX_MATRIX_ELEMS / per_worker, workers)
}

/// All candidates of every worker would exceed the budget, and fewer suffice.
pub open spec fn is_bounded_topk(k: int, nprobe: int, threads: int) -> bool {
    &&& nprobe > 1
    &&& nprobe < k
    &&& crate::arith::sat_mul(crate::arith::sat_mul(k, tuple_elems()), max_of(threads, 1))
        > MAX_MATRIX_ELEMS
}

pub fn use_bounded_direct_topk(k: usize, nprobe: usize, threads: usize) -> (bounded: bool)
    ensures
        bounded == is_bounded_topk(k as int, nprobe as int, threads as int),
{
    nprobe > 1 && nprobe < k && saturating_product(
        saturating_product(k, topk_tuple_elems()),
        larger(threads, 1),
    ) > MAX_MATRIX_ELEMS
}

/// The candidates that one worker keeps.
pub open spec fn kept_tuples(k: int, nprobe: int, workers: int) -> int {
    if is_bounded_topk(k, nprobe, workers) {
        nprobe
    } else if nprobe <= 1 {
        1
    } else {
        k
    }
}

/// The candidates that all workers keep fit the budget.
pub open spec fn is_parallel_topk(nq: int, k: int, nprobe: int, threads: int) -> bool {
    let probes = min_of(nprobe, k);
    let workers = max_of(min_of(nq, max_of(threads, 1)), 1);
    crate::arith::sat_mul(
        crate::arith::sat_mul(kept_tuples(k, probes, workers), tuple_elems()),
        workers,
    ) <= MAX_MATRIX_ELEMS
}

pub fn use_parallel_direct_topk(nq: usize, k: usize, nprobe: usize, threads: usize) -> (parallel:
    bool)
    ensures
        parallel == is_parallel_topk(nq as int, k as int, nprobe as int, threads as int),
{
    let probes: usize = smaller(nprobe, k);
    let workers: usize = larger(smaller(nq, larger(threads, 1)), 1);
    let tuples: usize = if use_bounded_direct_topk(k, probes, workers) {
        probes
    } else if probes <= 1 {
        1
    } else {
        k
    };
    saturating_product(saturating_product(tuples, topk_tuple_elems()), workers) <= MAX_MATRIX_ELEMS
}

/// Scratch that selecting from all candidates takes: one buffer, and a second
/// one where only some of them are wanted.
pub open spec fn worker_scratch(k: int, nprobe: int) -> int {
    let buffers = if nprobe > 1 && nprobe < k {
        2
    } else {
        1int
    };
    let tuples = if nprobe == 1 {
        1
    } else {
        k
    };
    crate::arith::sat_mul(crate::arith::sat_mul(tuples, tuple_elems()), buffers)
}

pub fn topk_worker_scratch(k: usize, nprobe: usize) -> (scratch: usize)
    ensures
        scratch == worker_scratch(k as int, nprobe as int),
{
    let buffers: usize = if nprobe > 1 && nprobe < k {
        2
    } else {
        1
    };
    let tuples: usize = if nprobe == 1 {
        1
    } else {
        k
    };
    saturating_product(saturating_product(tuples, topk_tuple_elems()), buffers)
}

/// Scratch of two bounded selections.
pub open spec fn heap_scratch(nprobe: int) -> int {
    crate::arith::sat_mul(crate::arith::sat_mul(nprobe, tuple_elems()), 2)
}

/// A whole row of centroids would not fit one worker's share.
pub open spec fn needs_tiles(k: int, nprobe: int, budget: int) -> bool {
    if nprobe == 1 {
        crate::arith::sat_mul(k, 2) >= budget
    } else {
        worker_scratch(k, nprobe) >= budget
    }
}

/// Centroids per tile, where a row of centroids has to be cut into tiles.
pub open spec fn tile_size(k: int, d: int, nprobe: int, threads: int) -> Option<int> {
    let budget = MAX_MATRIX_ELEMS as int / max_of(threads, 1);
    let row = crate::arith::sat_add(crate::arith::sat_add(d, heap_scratch(nprobe)), 4);
    let tile = min_of(
        min_of(CENTROID_TILE_COLS as int, crate::arith::sat_sub(budget, row)),
        k,
    );
    if nprobe == 0 || nprobe >= k || !needs_tiles(k, nprobe, budget) {
        None
    } else if 0 < tile < k {
        Some(tile)
    } else {
        None
    }
}

pub fn centroid_tile_size(k: usize, d: usize, nprobe: usize, threads: usize) -> (size: Option<
    usize,
>)
    ensures
        match size {
            Some(tile) => tile_size(k as int, d as int, nprobe as int, threads as int) == Some(
                tile as int,
            ),
            None => tile_size(k as int, d as int, nprobe as int, threads as int) is None,
        },
{
    let budget: usize = MAX_MATRIX_ELEMS / larger(threads, 1);
    if nprobe == 0 || nprobe >= k {
        return None;
    }
    let needed: bool = if nprobe == 1 {
        saturating_product(k, 2) >= budget
    } else {
        topk_worker_scratch(k, nprobe) >= budget
    };
    if !needed {
        return None;
    }
    let heaps: usize = saturating_product(saturating_product(nprobe, topk_tuple_elems()), 2);
    let row: usize = saturating_total(saturating_total(d, heaps), 4);
    let tile: usize = smaller(smaller(CENTROID_TILE_COLS, saturating_rest(budget, row)), k);
    if tile > 0 && tile < k {
        Some(tile)
    } else {
        None
    }
}

/// Elements that a row of a block takes.
pub open spec fn row_elems(k: int, row_scratch: int) -> int {
    crate::arith::sat_add(max_of(k, 1), row_scratch)
}

/// Most rows of a block that fit the whole budget, but at least one.
pub open spec fn block_limit(k: int, fixed_scratch: int, row_scratch: int) -> int {
    max_of(
        crate::arith::sat_sub(MAX_MATRIX_ELEMS as int, fixed_scratch) / row_elems(k, row_scratch),
        1,
    )
}

/// Operations per row, at least one.
pub open spec fn row_flops(k: int, d: int) -> int {
    max_of(crate::arith::sat_mul(crate::arith::sat_mul(k, d), 2), 1)
}

/// Fewest rows that make a parallel block worth while.
pub open spec fn block_minimum(k: int, d: int, limit: int) -> int {
    min_of(
        max_of(
            MIN_BLOCK_ROWS as int,
            crate::arith::ceil_div(MIN_BLOCK_FLOPS as int, row_flops(k, d)),
        ),
        limit,
    )
}

/// Most rows of a block that fit one worker's share, but at least one.
pub open spec fn share_limit(k: int, share: int, fixed_scratch: int, row_scratch: int, limit: int) -> int {
    min_of(max_of((share - fixed_scratch) / row_elems(k, row_scratch), 1), limit)
}

/// Rows of a block, and whether blocks run in parallel.
pub open spec fn block_plan(
    n: int,
    d: int,
    k: int,
    threads: int,
    fixed_scratch: int,
    row_scratch: int,
) -> (int, bool) {
    let limit = block_limit(k, fixed_scratch, row_scratch);
    let minimum = block_minimum(k, d, limit);
    let share = MAX_MATRIX_ELEMS as int / threads;
    let rows = share_limit(k, share, fixed_scratch, row_scratch, limit);
    if threads <= 1 || fixed_scratch >= share {
        (limit, false)
    } else if rows < minimum && crate::arith::sat_mul(rows, row_flops(k, d)) < MIN_BLOCK_FLOPS {
        (rows, false)
    } else {
        (
            min_of(
                min_of(
                    max_of(crate::arith::ceil_div(n, TARGET_BLOCKS as int), minimum),
                    limit,
                ),
                rows,
            ),
            true,
        )
    }
}

/// Plans the blocks of an assignment of `n` rows of dimension `d` to `k`
/// centroids. A worker holds `fixed_scratch` elements, and `row_scratch` more
/// for each of its rows besides the row of `k` scores.
pub fn assignment_block_plan(
    n: usize,
    d: usize,
    k: usize,
    threads: usize,
    fixed_scratch: usize,
    row_scratch: usize,
) -> (plan: (usize, bool))
    ensures
        (plan.0 as int, plan.1) == block_plan(
            n as int,
            d as int,
            k as int,
            threads as int,
            fixed_scratch as int,
            row_scratch as int,
        ),
        plan.0 > 0,
{
    let per_row: usize = saturating_total(larger(k, 1), row_scratch);
    let limit: usize = larger(saturating_rest(MAX_MATRIX_ELEMS, fixed_scratch) / per_row, 1);
    if threads <= 1 {
        return (limit, false);
    }
    let flops: usize = larger(saturating_product(saturating_product(k, d), 2), 1);
    let minimum: usize = smaller(larger(MIN_BLOCK_ROWS, quotient_up(MIN_BLOCK_FLOPS, flops)), limit);
    let share: usize = MAX_MATRIX_ELEMS / threads;
    if fixed_scratch >= share {
        return (limit, false);
    }
    let rows: usize = smaller(larger((share - fixed_scratch) / per_row, 1), limit);
    if rows < minimum && saturating_product(rows, flops) < MIN_BLOCK_FLOPS {
        return (rows, false);
    }
    let wanted: usize = larger(quotient_up(n, TARGET_BLOCKS), minimum);
    (smaller(smaller(wanted, limit), rows), true)
}

/// A block never takes more than the budget unless a single row does, and
/// blocks that run in parallel fit each worker's share likewise.
pub proof fn law_blocks_fit_the_budget(
    n: int,
    d: int,
    k: int,
    threads: int,
    fixed_scratch: int,
    row_scratch: int,
)
    requires
        0 <= n,
        0 <= d,
        0 <= k,
        0 <= threads,
        0 <= fixed_scratch,
        0 <= row_scratch,
    ensures
        ({
            let (rows, parallel) = block_plan(n, d, k, threads, fixed_scratch, row_scratch);
            &&& rows >= 1
            &&& rows == 1 || rows * row_elems(k, row_scratch) + fixed_scratch <= MAX_MATRIX_ELEMS
            &&& parallel ==> rows == 1 || (rows * row_elems(k, row_scratch) + fixed_scratch)
                * threads <= MAX_MATRIX_ELEMS
        }),
{
    let (rows, parallel) = block_plan(n, d, k, threads, fixed_scratch, row_scratch);
    let each = row_elems(k, row_scratch);
    let room = crate::arith::sat_sub(MAX_MATRIX_ELEMS as int, fixed_scratch);
    assert(each >= 1);
    let limit = block_limit(k, fixed_scratch, row_scratch);
    assert(rows <= limit);
    if rows > 1 {
        assert(rows * each <= room) by (nonlinear_arith)
            requires
                rows <= room / each,
                each >= 1,
                rows >= 1,
        ;
    }
    if parallel {
        let share = MAX_MATRIX_ELEMS as int / threads;
        if rows > 1 {
            assert(rows * each <= share - fixed_scratch) by (nonlinear_arith)
                requires
                    rows <= (share - fixed_scratch) / each,
                    each >= 1,
                    rows >= 1,
            ;
            let total = rows * each + fixed_scratch;
            assert(total * threads <= MAX_MATRIX_ELEMS) by (nonlinear_arith)
                requires
                    total <= share,
                    share == MAX_MATRIX_ELEMS as int / threads,
                    threads > 1,
                    total >= 0,
            ;
        }
    }
}

/// The parameters of a training run. The balance factor is a bit pattern: a
/// positive one penalises large clusters.
pub struct KMeansConfig {
    pub niter: usize,
    pub nredo: usize,
    pub max_points_per_centroid: usize,
    pub seed: u64,
    pub balance_factor: u32,
}

impl KMeansConfig {
    /// The default parameters with the given iterations and seed.
    pub fn with_iterations(niter: usize, seed: u64) -> (config: Self)
        ensures
            config.niter == niter,
            config.seed == seed,
            config.nredo == 1,
            config.max_points_per_centroid == 256,
            config.balance_factor == 0,
    {
        KMeansConfig {
            niter,
            nredo: 1,
            max_points_per_centroid: 256,
            seed,
            balance_factor: 0,
        }
    }
}

impl Default for KMeansConfig {
    fn default() -> (config: Self)
        ensures
            config.niter == 25,
            config.nredo == 1,
            config.max_points_per_centroid == 256,
            config.seed == 1234,
            config.balance_factor == 0,
    {
        KMeansConfig::with_iterations(25, 1234)
    }
}

} // verus!
