//! Nearest centroids of many rows at once.
use crate::arith::{larger, quotient_up, saturating_product, saturating_total, smaller};
use crate::certified::certified_topk_row;
use crate::kmeans_plan::{
    assignment_block_plan, centroid_tile_size, direct_topk_linear_worker_limit, topk_tuple_elems,
    topk_worker_scratch, use_direct_batch, use_parallel_direct_topk, MIN_BLOCK_FLOPS,
};
use crate::lists::empty_lists;
use crate::nearest::{find_nearest, find_topk_with_workers, split_candidates, Candidate};
use crate::order::{float_less, MAX_DISTANCE};
use crate::tiled::TiledRow;
use vstd::prelude::*;
use vstd::slice::slice_subrange;

verus! {

/// What a batch needs to know of its rows. `is_safe` tells whether a row's
/// approximate distances can be relied on. `products_of` gives the approximate
/// distances of some rows to consecutive centroids, row by row. `band_of` gives
/// the band around a distance, and `distance_of` the exact distance.
pub struct BatchKernel<
    S: Fn(usize) -> bool,
    P: Fn(Vec<usize>, usize, usize) -> Vec<u32>,
    B: Fn(usize, u32) -> (u32, u32),
    D: Fn(usize, usize) -> u32,
> {
    pub is_safe: S,
    pub products_of: P,
    pub band_of: B,
    pub distance_of: D,
}

/// All rows are below `n`.
pub open spec fn rows_below(rows: Seq<usize>, n: int) -> bool {
    forall|i: int| 0 <= i < rows.len() ==> #[trigger] rows[i] < n
}

/// The approximate distances of rows can be computed.
pub open spec fn gives_products<P: Fn(Vec<usize>, usize, usize) -> Vec<u32>>(
    products_of: P,
    n: nat,
    k: nat,
) -> bool {
    &&& forall|rows: Vec<usize>, first: usize, columns: usize|
        rows_below(rows@, n as int) && first + columns <= k ==> #[trigger] call_requires(
            products_of,
            (rows, first, columns),
        )
    &&& forall|rows: Vec<usize>, first: usize, columns: usize, matrix: Vec<u32>| #[trigger]
        call_ensures(products_of, (rows, first, columns), matrix) ==> matrix@.len() == rows@.len()
            * columns
}

/// The kernel answers for `n` rows and `k` centroids.
pub open spec fn kernel_fits<
    S: Fn(usize) -> bool,
    P: Fn(Vec<usize>, usize, usize) -> Vec<u32>,
    B: Fn(usize, u32) -> (u32, u32),
    D: Fn(usize, usize) -> u32,
>(kernel: BatchKernel<S, P, B, D>, n: nat, k: nat) -> bool {
    &&& gives_products(kernel.products_of, n, k)
    &&& forall|row: usize| row < n ==> #[trigger] call_requires(kernel.is_safe, (row,))
    &&& forall|row: usize| row < n ==> #[trigger] crate::certified::bands_row(kernel.band_of, row)
    &&& forall|row: usize|
        row < n ==> #[trigger] crate::nearest::measures_row(kernel.distance_of, row, k)
}

/// Row `at` of a matrix.
pub open spec fn matrix_row(matrix: Seq<u32>, at: int, columns: int) -> Seq<u32> {
    matrix.subrange(at * columns, at * columns + columns)
}

/// The approximate distances of a row to some centroids, as some call gave
/// them.
pub open spec fn approximated<P: Fn(Vec<usize>, usize, usize) -> Vec<u32>>(
    products_of: P,
    row: usize,
    first: usize,
    columns: usize,
    values: Seq<u32>,
) -> bool {
    exists|rows: Vec<usize>, matrix: Vec<u32>, at: int|
        #![trigger call_ensures(products_of, (rows, first, columns), matrix), rows@[at]]
        call_ensures(products_of, (rows, first, columns), matrix) && 0 <= at < rows@.len()
            && rows@[at] == row && values == matrix_row(matrix@, at, columns as int)
}

/// The approximate distances of a row to all centroids, as calls gave them
/// tile by tile.
pub open spec fn tiles_approximated<P: Fn(Vec<usize>, usize, usize) -> Vec<u32>>(
    products_of: P,
    row: usize,
    cols: usize,
    k: nat,
    tiles: nat,
    values: Seq<u32>,
) -> bool {
    &&& values.len() == k
    &&& forall|t: int|
        0 <= t < tiles ==> #[trigger] tile_approximated(products_of, row, cols, k, t, values)
}

/// The same for one tile.
pub open spec fn tile_approximated<P: Fn(Vec<usize>, usize, usize) -> Vec<u32>>(
    products_of: P,
    row: usize,
    cols: usize,
    k: nat,
    t: int,
    values: Seq<u32>,
) -> bool {
    let start = t * cols;
    let end = crate::tiled::tile_end(start, cols as int, k as int);
    approximated(
        products_of,
        row,
        start as usize,
        (end - start) as usize,
        values.subrange(start, end),
    )
}

/// A row that can be relied on is answered from its approximate distances, all
/// at once or tile by tile; any other from all its exact distances.
pub open spec fn row_answered<
    S: Fn(usize) -> bool,
    P: Fn(Vec<usize>, usize, usize) -> Vec<u32>,
    B: Fn(usize, u32) -> (u32, u32),
    D: Fn(usize, usize) -> u32,
>(
    kernel: BatchKernel<S, P, B, D>,
    row: usize,
    k: nat,
    nprobe: nat,
    tile: Option<usize>,
    items: Seq<Candidate>,
) -> bool {
    let distances = crate::nearest::distances_of(kernel.distance_of, row, k);
    ||| call_ensures(kernel.is_safe, (row,), false) && items == crate::nearest::nearest(
        distances,
        nprobe,
    )
    ||| call_ensures(kernel.is_safe, (row,), true) && exists|values: Seq<u32>| #[trigger]
        row_settled(kernel, row, k, nprobe, tile, values, items)
}

/// The approximate distances of a row to all centroids, as calls gave them all
/// at once or tile by tile.
pub open spec fn row_approximated<P: Fn(Vec<usize>, usize, usize) -> Vec<u32>>(
    products_of: P,
    row: usize,
    k: nat,
    tile: Option<usize>,
    values: Seq<u32>,
) -> bool {
    &&& values.len() == k
    &&& match tile {
        None => approximated(products_of, row, 0, k as usize, values),
        Some(cols) => tiles_approximated(
            products_of,
            row,
            cols,
            k,
            tile_count(k as int, cols as int),
            values,
        ),
    }
}

/// Tiles that cover `k` centroids.
pub open spec fn tile_count(k: int, cols: int) -> nat {
    crate::arith::ceil_div(k, cols) as nat
}

/// The answer of a row from its approximate distances.
pub open spec fn row_settled<
    S: Fn(usize) -> bool,
    P: Fn(Vec<usize>, usize, usize) -> Vec<u32>,
    B: Fn(usize, u32) -> (u32, u32),
    D: Fn(usize, usize) -> u32,
>(
    kernel: BatchKernel<S, P, B, D>,
    row: usize,
    k: nat,
    nprobe: nat,
    tile: Option<usize>,
    values: Seq<u32>,
    items: Seq<Candidate>,
) -> bool {
    let distances = crate::nearest::distances_of(kernel.distance_of, row, k);
    let bands = crate::certified::bands_of(kernel.band_of, row);
    &&& row_approximated(kernel.products_of, row, k, tile, values)
    &&& match tile {
        None => items == crate::certified::certified(values, distances, bands, nprobe),
        Some(cols) => items == crate::tiled::settled(
            crate::tiled::tiles_state(
                values,
                distances,
                cols as int,
                bands,
                nprobe,
                tile_count(k as int, cols as int),
            ),
            distances,
            nprobe,
        ),
    }
}

/// The bands of a row are wide enough for all approximate distances that the
/// calls can give.
pub open spec fn row_is_sound<
    S: Fn(usize) -> bool,
    P: Fn(Vec<usize>, usize, usize) -> Vec<u32>,
    B: Fn(usize, u32) -> (u32, u32),
    D: Fn(usize, usize) -> u32,
>(kernel: BatchKernel<S, P, B, D>, row: usize, k: nat, tile: Option<usize>) -> bool {
    forall|values: Seq<u32>| #[trigger]
        row_approximated(kernel.products_of, row, k, tile, values)
            ==> crate::tiled::separates_everywhere(
            values,
            crate::nearest::distances_of(kernel.distance_of, row, k),
            crate::certified::bands_of(kernel.band_of, row),
        )
}

/// Where the bands are wide enough, a row of a batch is answered exactly as a
/// row by itself.
pub proof fn law_batch_answers_are_exact<
    S: Fn(usize) -> bool,
    P: Fn(Vec<usize>, usize, usize) -> Vec<u32>,
    B: Fn(usize, u32) -> (u32, u32),
    D: Fn(usize, usize) -> u32,
>(
    kernel: BatchKernel<S, P, B, D>,
    row: usize,
    k: nat,
    nprobe: nat,
    tile: Option<usize>,
    items: Seq<Candidate>,
)
    requires
        0 < nprobe,
        0 < k <= usize::MAX,
        tile matches Some(cols) ==> cols > 0,
        row_answered(kernel, row, k, nprobe, tile, items),
        row_is_sound(kernel, row, k, tile),
    ensures
        items == crate::nearest::nearest(
            crate::nearest::distances_of(kernel.distance_of, row, k),
            nprobe,
        ),
{
    let distances = crate::nearest::distances_of(kernel.distance_of, row, k);
    let bands = crate::certified::bands_of(kernel.band_of, row);
    if !(call_ensures(kernel.is_safe, (row,), false) && items == crate::nearest::nearest(
        distances,
        nprobe,
    )) {
        let values = choose|values: Seq<u32>| #[trigger]
            row_settled(kernel, row, k, nprobe, tile, values, items);
        assert(row_approximated(kernel.products_of, row, k, tile, values));
        assert(crate::tiled::separates_everywhere(values, distances, bands));
        match tile {
            None => {
                let middle = crate::certified::kth(values, nprobe);
                if crate::pq::all_finite(values) && nprobe < k {
                    crate::certified::lemma_kth(values, nprobe);
                    assert(crate::certified::separates(values, distances, middle, bands(middle)));
                    crate::certified::law_certified_answer_is_exact(
                        values,
                        distances,
                        bands,
                        nprobe,
                    );
                }
            },
            Some(cols) => {
                let tiles = tile_count(k as int, cols as int);
                lemma_tile_count(k as int, cols as int);
                crate::tiled::law_tiled_answer_is_exact(
                    values,
                    distances,
                    cols as int,
                    bands,
                    nprobe,
                    tiles,
                );
            },
        }
    }
}

/// The tiles just cover the centroids.
proof fn lemma_tile_count(k: int, cols: int)
    requires
        0 < k,
        0 < cols,
    ensures
        0 < tile_count(k, cols),
        (tile_count(k, cols) - 1) * cols < k <= tile_count(k, cols) * cols,
{
    let q = (k + cols - 1) / cols;
    assert(q > 0 && (q - 1) * cols < k <= q * cols) by (nonlinear_arith)
        requires
            0 < k,
            0 < cols,
            q == (k + cols - 1) / cols,
    ;
}

/// A part of a list of rows.
fn copy_range(rows: &Vec<usize>, from: usize, to: usize) -> (part: Vec<usize>)
    requires
        from <= to <= rows@.len(),
    ensures
        part@ == rows@.subrange(from as int, to as int),
{
    let mut part: Vec<usize> = Vec::new();
    let mut i: usize = from;
    while i < to
        invariant
            from <= i <= to <= rows@.len(),
            part@ == rows@.subrange(from as int, i as int),
        decreases to - i,
    {
        part.push(rows[i]);
        assert(rows@.subrange(from as int, i + 1) =~= part@);
        i = i + 1;
    }
    part
}

/// The rows of a block are in order, and each belongs to the block.
spec fn block_part(part: Seq<usize>, start: int, rows: int) -> bool {
    &&& forall|j: int| 0 <= j < part.len() ==> start <= #[trigger] part[j] < start + rows
    &&& forall|i: int, j: int| 0 <= i < j < part.len() ==> #[trigger] part[i] < #[trigger] part[j]
}

/// Answers that are given for the rows of a part; the others are unchanged.
spec fn part_answered<
    S: Fn(usize) -> bool,
    P: Fn(Vec<usize>, usize, usize) -> Vec<u32>,
    B: Fn(usize, u32) -> (u32, u32),
    D: Fn(usize, usize) -> u32,
>(
    kernel: BatchKernel<S, P, B, D>,
    part: Seq<usize>,
    start: int,
    k: nat,
    nprobe: nat,
    tile: Option<usize>,
    before: Seq<Vec<Candidate>>,
    after: Seq<Vec<Candidate>>,
) -> bool {
    &&& after.len() == before.len()
    &&& forall|j: int|
        0 <= j < part.len() ==> row_answered(
            kernel,
            #[trigger] part[j],
            k,
            nprobe,
            tile,
            after[part[j] - start]@,
        )
    &&& forall|i: int|
        0 <= i < after.len() && !part.contains((start + i) as usize) ==> #[trigger] after[i]
            == before[i]
}

/// Computes the approximate distances of some rows in one go and answers them.
fn answer_batch<
    S: Fn(usize) -> bool,
    P: Fn(Vec<usize>, usize, usize) -> Vec<u32>,
    B: Fn(usize, u32) -> (u32, u32),
    D: Fn(usize, usize) -> u32,
>(
    kernel: &BatchKernel<S, P, B, D>,
    batch: &Vec<usize>,
    start: usize,
    n: usize,
    k: usize,
    nprobe: usize,
    workers: usize,
    out: &mut Vec<Vec<Candidate>>,
)
    requires
        0 < nprobe,
        kernel_fits(*kernel, n as nat, k as nat),
        start + old(out)@.len() <= n,
        block_part(batch@, start as int, old(out)@.len() as int),
        forall|j: int|
            0 <= j < batch@.len() ==> call_ensures(kernel.is_safe, (#[trigger] batch@[j],), true),
    ensures
        part_answered(
            *kernel,
            batch@,
            start as int,
            k as nat,
            nprobe as nat,
            None,
            old(out)@,
            final(out)@,
        ),
{
    let ghost before = out@;
    let total: usize = batch.len();
    let request = copy_range(batch, 0, total);
    let ghost asked = request;
    assert(asked@ =~= batch@);
    assert(rows_below(asked@, n as int));
    let matrix: Vec<u32> = (kernel.products_of)(request, 0, k);
    assert(call_ensures(kernel.products_of, (asked, 0usize, k), matrix));
    let size: usize = matrix.len();
    let mut p: usize = 0;
    while p < total
        invariant
            p <= total,
            total == batch@.len(),
            0 < nprobe,
            asked@ == batch@,
            call_ensures(kernel.products_of, (asked, 0usize, k), matrix),
            size == matrix@.len() == total * k,
            kernel_fits(*kernel, n as nat, k as nat),
            start + before.len() <= n,
            out@.len() == before.len(),
            block_part(batch@, start as int, before.len() as int),
            forall|j: int|
                0 <= j < batch@.len() ==> call_ensures(
                    kernel.is_safe,
                    (#[trigger] batch@[j],),
                    true,
                ),
            forall|j: int|
                0 <= j < p ==> row_answered(
                    *kernel,
                    #[trigger] batch@[j],
                    k as nat,
                    nprobe as nat,
                    None,
                    out@[batch@[j] - start]@,
                ),
            forall|i: int|
                0 <= i < out@.len() && !batch@.contains((start + i) as usize) ==> #[trigger] out@[i]
                    == before[i],
        decreases total - p,
    {
        let row: usize = batch[p];
        proof {
            assert(p * k + k <= total * k) by (nonlinear_arith)
                requires
                    p + 1 <= total,
            ;
            assert(0 <= p * k) by (nonlinear_arith);
        }
        let first: usize = p * k;
        let values: &[u32] = slice_subrange(matrix.as_slice(), first, first + k);
        assert(values@ == matrix_row(matrix@, p as int, k as int));
        let items = certified_topk_row(
            row,
            values,
            nprobe,
            workers,
            &kernel.band_of,
            &kernel.distance_of,
        );
        let ghost answer = items@;
        let ghost last = out@;
        out[row - start] = items;
        proof {
            assert(asked@[p as int] == row);
            assert(approximated(kernel.products_of, row, 0, k, values@));
            assert(row_settled(*kernel, row, k as nat, nprobe as nat, None, values@, answer));
            assert(out@ =~= last.update(row - start, out@[row - start]));
            assert forall|j: int| 0 <= j < p + 1 implies row_answered(
                *kernel,
                #[trigger] batch@[j],
                k as nat,
                nprobe as nat,
                None,
                out@[batch@[j] - start]@,
            ) by {
                if j < p {
                    assert(batch@[j] < batch@[p as int]);
                }
            }
            assert forall|i: int|
                0 <= i < out@.len() && !batch@.contains((start + i) as usize) implies
                #[trigger] out@[i] == before[i] by {
                assert(batch@.contains(batch@[p as int]));
            }
        }
        p = p + 1;
    }
}

/// The rows of a block that can be relied on. The others are answered at once.
fn screen_rows<
    S: Fn(usize) -> bool,
    P: Fn(Vec<usize>, usize, usize) -> Vec<u32>,
    B: Fn(usize, u32) -> (u32, u32),
    D: Fn(usize, usize) -> u32,
>(
    kernel: &BatchKernel<S, P, B, D>,
    start: usize,
    n: usize,
    k: usize,
    nprobe: usize,
    tile: Ghost<Option<usize>>,
    workers: usize,
    out: &mut Vec<Vec<Candidate>>,
) -> (safe: Vec<usize>)
    requires
        kernel_fits(*kernel, n as nat, k as nat),
        start + old(out)@.len() <= n,
    ensures
        final(out)@.len() == old(out)@.len(),
        block_part(safe@, start as int, final(out)@.len() as int),
        forall|j: int|
            0 <= j < safe@.len() ==> call_ensures(kernel.is_safe, (#[trigger] safe@[j],), true),
        forall|i: int|
            0 <= i < final(out)@.len() && !safe@.contains((start + i) as usize) ==> row_answered(
                *kernel,
                (start + i) as usize,
                k as nat,
                nprobe as nat,
                tile@,
                #[trigger] final(out)@[i]@,
            ),
{
    let rows: usize = out.len();
    let mut safe: Vec<usize> = Vec::new();
    let mut i: usize = 0;
    while i < rows
        invariant
            i <= rows,
            rows == out@.len(),
            start + rows <= n,
            kernel_fits(*kernel, n as nat, k as nat),
            block_part(safe@, start as int, i as int),
            forall|j: int|
                0 <= j < safe@.len() ==> call_ensures(kernel.is_safe, (#[trigger] safe@[j],), true),
            forall|a: int|
                0 <= a < i && !safe@.contains((start + a) as usize) ==> row_answered(
                    *kernel,
                    (start + a) as usize,
                    k as nat,
                    nprobe as nat,
                    tile@,
                    #[trigger] out@[a]@,
                ),
        decreases rows - i,
    {
        let row: usize = start + i;
        let ghost before = safe@;
        let ghost last = out@;
        let reliable: bool = (kernel.is_safe)(row);
        if reliable {
            safe.push(row);
            proof {
                assert forall|a: int|
                    0 <= a < i + 1 && !safe@.contains((start + a) as usize) implies row_answered(
                    *kernel,
                    (start + a) as usize,
                    k as nat,
                    nprobe as nat,
                    tile@,
                    #[trigger] out@[a]@,
                ) by {
                    if a == i {
                        assert(safe@[before.len() as int] == (start + a) as usize);
                    } else if before.contains((start + a) as usize) {
                        let j = choose|j: int|
                            0 <= j < before.len() && before[j] == (start + a) as usize;
                        assert(safe@[j] == (start + a) as usize);
                    }
                }
            }
        } else {
            let items = find_topk_with_workers(row, k, nprobe, workers, &kernel.distance_of);
            out[i] = items;
            proof {
                assert(out@ =~= last.update(i as int, out@[i as int]));
            }
        }
        i = i + 1;
    }
    safe
}

/// Every row of a block is answered.
pub open spec fn block_answered<
    S: Fn(usize) -> bool,
    P: Fn(Vec<usize>, usize, usize) -> Vec<u32>,
    B: Fn(usize, u32) -> (u32, u32),
    D: Fn(usize, usize) -> u32,
>(
    kernel: BatchKernel<S, P, B, D>,
    start: int,
    k: nat,
    nprobe: nat,
    tile: Option<usize>,
    answers: Seq<Vec<Candidate>>,
) -> bool {
    forall|i: int|
        0 <= i < answers.len() ==> row_answered(
            kernel,
            (start + i) as usize,
            k,
            nprobe,
            tile,
            #[trigger] answers[i]@,
        )
}

/// Answers the rows `start..start + rows`. Those that cannot be relied on are
/// measured one by one; the others go through approximate distances, all at
/// once or, where some had to be left out, packed into batches that fit the
/// memory budget.
pub fn certified_topk_block<
    S: Fn(usize) -> bool,
    P: Fn(Vec<usize>, usize, usize) -> Vec<u32>,
    B: Fn(usize, u32) -> (u32, u32),
    D: Fn(usize, usize) -> u32,
>(
    kernel: &BatchKernel<S, P, B, D>,
    start: usize,
    rows: usize,
    n: usize,
    d: usize,
    k: usize,
    nprobe: usize,
    threads: usize,
    workers: usize,
) -> (answers: Vec<Vec<Candidate>>)
    requires
        0 < nprobe,
        kernel_fits(*kernel, n as nat, k as nat),
        start + rows <= n,
    ensures
        answers@.len() == rows,
        block_answered(*kernel, start as int, k as nat, nprobe as nat, None, answers@),
{
    let mut out = empty_lists::<Candidate>(rows);
    let safe = screen_rows(kernel, start, n, k, nprobe, Ghost(None), workers, &mut out);
    let total: usize = safe.len();
    let packed: usize = if total == rows {
        larger(rows, 1)
    } else {
        let scratch: usize = saturating_total(
            topk_worker_scratch(k, nprobe),
            saturating_product(rows, 2),
        );
        assignment_block_plan(total, d, k, threads, scratch, saturating_total(d, 2)).0
    };
    let mut pos: usize = 0;
    while pos < total
        invariant
            pos <= total,
            total == safe@.len(),
            packed > 0,
            0 < nprobe,
            kernel_fits(*kernel, n as nat, k as nat),
            start + rows <= n,
            out@.len() == rows,
            block_part(safe@, start as int, rows as int),
            forall|j: int|
                0 <= j < safe@.len() ==> call_ensures(kernel.is_safe, (#[trigger] safe@[j],), true),
            forall|i: int|
                0 <= i < out@.len() && !safe@.contains((start + i) as usize) ==> row_answered(
                    *kernel,
                    (start + i) as usize,
                    k as nat,
                    nprobe as nat,
                    None,
                    #[trigger] out@[i]@,
                ),
            forall|j: int|
                0 <= j < pos ==> row_answered(
                    *kernel,
                    #[trigger] safe@[j],
                    k as nat,
                    nprobe as nat,
                    None,
                    out@[safe@[j] - start]@,
                ),
        decreases total - pos,
    {
        let end: usize = if total - pos <= packed {
            total
        } else {
            pos + packed
        };
        let batch = copy_range(&safe, pos, end);
        proof {
            assert forall|j: int| 0 <= j < batch@.len() implies #[trigger] batch@[j] == safe@[pos
                + j] by {}
            assert(block_part(batch@, start as int, rows as int)) by {
                assert forall|i: int, j: int| 0 <= i < j < batch@.len() implies #[trigger] batch@[i]
                    < #[trigger] batch@[j] by {
                    assert(safe@[pos + i] < safe@[pos + j]);
                }
            }
            assert forall|j: int| 0 <= j < batch@.len() implies call_ensures(
                kernel.is_safe,
                (#[trigger] batch@[j],),
                true,
            ) by {
                assert(call_ensures(kernel.is_safe, (safe@[pos + j],), true));
            }
        }
        let ghost before = out@;
        answer_batch(kernel, &batch, start, n, k, nprobe, workers, &mut out);
        proof {
            assert forall|i: int|
                0 <= i < out@.len() && !safe@.contains((start + i) as usize) implies row_answered(
                *kernel,
                (start + i) as usize,
                k as nat,
                nprobe as nat,
                None,
                #[trigger] out@[i]@,
            ) by {
                if batch@.contains((start + i) as usize) {
                    let j = choose|j: int|
                        0 <= j < batch@.len() && batch@[j] == (start + i) as usize;
                    assert(safe@[pos + j] == (start + i) as usize);
                }
                assert(out@[i] == before[i]);
                assert(row_answered(
                    *kernel,
                    (start + i) as usize,
                    k as nat,
                    nprobe as nat,
                    None,
                    before[i]@,
                ));
            }
            assert forall|j: int| 0 <= j < end implies row_answered(
                *kernel,
                #[trigger] safe@[j],
                k as nat,
                nprobe as nat,
                None,
                out@[safe@[j] - start]@,
            ) by {
                if j >= pos {
                    assert(batch@[j - pos] == safe@[j]);
                } else {
                    let i = safe@[j] - start;
                    if batch@.contains(safe@[j]) {
                        let q = choose|q: int| 0 <= q < batch@.len() && batch@[q] == safe@[j];
                        assert(safe@[pos + q] == safe@[j]);
                        assert(safe@[j] < safe@[pos + q]);
                    }
                    assert((start + i) as usize == safe@[j]);
                    assert(out@[i] == before[i]);
                }
            }
        }
        pos = end;
    }
    proof {
        lemma_block_answered(
            *kernel,
            safe@,
            start as int,
            k as nat,
            nprobe as nat,
            None,
            out@,
        );
    }
    out
}

/// A block is answered once its reliable rows and its others are.
proof fn lemma_block_answered<
    S: Fn(usize) -> bool,
    P: Fn(Vec<usize>, usize, usize) -> Vec<u32>,
    B: Fn(usize, u32) -> (u32, u32),
    D: Fn(usize, usize) -> u32,
>(
    kernel: BatchKernel<S, P, B, D>,
    safe: Seq<usize>,
    start: int,
    k: nat,
    nprobe: nat,
    tile: Option<usize>,
    out: Seq<Vec<Candidate>>,
)
    requires
        0 <= start,
        start + out.len() <= usize::MAX,
        forall|i: int|
            0 <= i < out.len() && !safe.contains((start + i) as usize) ==> row_answered(
                kernel,
                (start + i) as usize,
                k,
                nprobe,
                tile,
                #[trigger] out[i]@,
            ),
        forall|j: int|
            0 <= j < safe.len() ==> row_answered(
                kernel,
                #[trigger] safe[j],
                k,
                nprobe,
                tile,
                out[safe[j] - start]@,
            ),
    ensures
        block_answered(kernel, start, k, nprobe, tile, out),
{
    assert forall|i: int| 0 <= i < out.len() implies row_answered(
        kernel,
        (start + i) as usize,
        k,
        nprobe,
        tile,
        #[trigger] out[i]@,
    ) by {
        let row = (start + i) as usize;
        if safe.contains(row) {
            let j = choose|j: int| 0 <= j < safe.len() && safe[j] == row;
            assert(safe[j] - start == i);
        }
    }
}

/// A row of approximate distances with a tile filled in.
spec fn filled(values: Seq<u32>, first: int, part: Seq<u32>) -> Seq<u32> {
    Seq::new(
        values.len(),
        |i: int|
            if first <= i < first + part.len() {
                part[i - first]
            } else {
                values[i]
            },
    )
}

/// The state after some tiles depends on these tiles alone.
proof fn lemma_tiles_agree(
    a: Seq<u32>,
    b: Seq<u32>,
    distances: Seq<u32>,
    cols: int,
    band: spec_fn(u32) -> (u32, u32),
    nprobe: nat,
    tiles: nat,
)
    requires
        a.len() == b.len(),
        0 < cols,
        tiles * cols <= a.len(),
        forall|i: int| 0 <= i < tiles * cols ==> #[trigger] a[i] == b[i],
    ensures
        crate::tiled::tiles_state(a, distances, cols, band, nprobe, tiles)
            == crate::tiled::tiles_state(b, distances, cols, band, nprobe, tiles),
    decreases tiles,
{
    if tiles > 0 {
        let t = (tiles - 1) as nat;
        assert(t * cols + cols == tiles * cols) by (nonlinear_arith)
            requires
                t == tiles - 1,
        ;
        assert(0 <= t * cols) by (nonlinear_arith)
            requires
                cols > 0,
        ;
        lemma_tiles_agree(a, b, distances, cols, band, nprobe, t);
        assert(a.subrange(t * cols, tiles * cols) =~= b.subrange(t * cols, tiles * cols));
    }
}

/// A tile that was filled in stays as it was given.
proof fn lemma_tile_stays<P: Fn(Vec<usize>, usize, usize) -> Vec<u32>>(
    products_of: P,
    row: usize,
    cols: usize,
    k: nat,
    t: int,
    a: Seq<u32>,
    b: Seq<u32>,
)
    requires
        0 <= t,
        0 < cols,
        a.len() == b.len() == k,
        t * cols + cols <= k,
        forall|i: int| 0 <= i < t * cols + cols ==> #[trigger] a[i] == b[i],
        tile_approximated(products_of, row, cols, k, t, a),
    ensures
        tile_approximated(products_of, row, cols, k, t, b),
{
    assert(0 <= t * cols) by (nonlinear_arith)
        requires
            0 <= t,
    ;
    assert(a.subrange(t * cols, t * cols + cols) =~= b.subrange(t * cols, t * cols + cols));
}

/// What the search of one row has seen after some tiles.
spec fn row_scanned<
    S: Fn(usize) -> bool,
    P: Fn(Vec<usize>, usize, usize) -> Vec<u32>,
    B: Fn(usize, u32) -> (u32, u32),
    D: Fn(usize, usize) -> u32,
>(
    kernel: BatchKernel<S, P, B, D>,
    row: usize,
    k: nat,
    nprobe: nat,
    cols: usize,
    tiles: nat,
    values: Seq<u32>,
    state: TiledRow,
) -> bool {
    &&& state.well_formed()
    &&& state.probes() == nprobe
    &&& tiles_approximated(kernel.products_of, row, cols, k, tiles, values)
    &&& state.progress() == crate::tiled::tiles_state(
        values,
        crate::nearest::distances_of(kernel.distance_of, row, k),
        cols as int,
        crate::certified::bands_of(kernel.band_of, row),
        nprobe,
        tiles,
    )
}

/// A row takes in one more tile.
fn scan_row_tile<
    S: Fn(usize) -> bool,
    P: Fn(Vec<usize>, usize, usize) -> Vec<u32>,
    B: Fn(usize, u32) -> (u32, u32),
    D: Fn(usize, usize) -> u32,
>(
    kernel: &BatchKernel<S, P, B, D>,
    row: usize,
    n: usize,
    k: usize,
    cols: usize,
    t: Ghost<nat>,
    first: usize,
    part: &[u32],
    values: Ghost<Seq<u32>>,
    state: &mut TiledRow,
)
    requires
        row < n,
        0 < cols,
        0 < old(state).probes(),
        kernel_fits(*kernel, n as nat, k as nat),
        first == t@ * cols,
        first < k,
        first + part@.len() == crate::tiled::tile_end(first as int, cols as int, k as int),
        row_scanned(
            *kernel,
            row,
            k as nat,
            old(state).probes(),
            cols,
            t@,
            values@,
            *old(state),
        ),
        approximated(kernel.products_of, row, first, part@.len() as usize, part@),
    ensures
        final(state).probes() == old(state).probes(),
        row_scanned(
            *kernel,
            row,
            k as nat,
            old(state).probes(),
            cols,
            t@ + 1,
            filled(values@, first as int, part@),
            *final(state),
        ),
{
    let ghost next = filled(values@, first as int, part@);
    let ghost probes = state.probes();
    proof {
        assert(next.subrange(first as int, first + part@.len()) =~= part@);
        lemma_tiles_agree(
            values@,
            next,
            crate::nearest::distances_of(kernel.distance_of, row, k as nat),
            cols as int,
            crate::certified::bands_of(kernel.band_of, row),
            probes,
            t@,
        );
        assert forall|u: int| 0 <= u < t@ + 1 implies #[trigger] tile_approximated(
            kernel.products_of,
            row,
            cols,
            k as nat,
            u,
            next,
        ) by {
            if u < t@ {
                assert(u * cols + cols <= first) by (nonlinear_arith)
                    requires
                        first == t@ * cols,
                        u + 1 <= t@,
                ;
                assert(tile_approximated(kernel.products_of, row, cols, k as nat, u, values@));
                lemma_tile_stays(kernel.products_of, row, cols, k as nat, u, values@, next);
            } else {
                assert(u * cols == first);
            }
        }
    }
    state.scan_tile(row, k, first, part, &kernel.band_of, &kernel.distance_of);
}

/// Answers the rows `start..start + rows` with the centroids cut into tiles.
#[verifier::rlimit(40)]
#[verifier::spinoff_prover]
pub fn certified_topk_block_tiled<
    S: Fn(usize) -> bool,
    P: Fn(Vec<usize>, usize, usize) -> Vec<u32>,
    B: Fn(usize, u32) -> (u32, u32),
    D: Fn(usize, usize) -> u32,
>(
    kernel: &BatchKernel<S, P, B, D>,
    start: usize,
    rows: usize,
    n: usize,
    k: usize,
    nprobe: usize,
    cols: usize,
    workers: usize,
) -> (answers: Vec<Vec<Candidate>>)
    requires
        0 < nprobe,
        0 < cols,
        0 < k,
        kernel_fits(*kernel, n as nat, k as nat),
        start + rows <= n,
    ensures
        answers@.len() == rows,
        block_answered(*kernel, start as int, k as nat, nprobe as nat, Some(cols), answers@),
{
    let mut out = empty_lists::<Candidate>(rows);
    let safe = screen_rows(kernel, start, n, k, nprobe, Ghost(Some(cols)), workers, &mut out);
    let total: usize = safe.len();
    if total == 0 {
        proof {
            lemma_block_answered(
                *kernel,
                safe@,
                start as int,
                k as nat,
                nprobe as nat,
                Some(cols),
                out@,
            );
        }
        return out;
    }
    let mut states: Vec<TiledRow> = Vec::new();
    let ghost mut values: Seq<Seq<u32>> = Seq::empty();
    let mut p: usize = 0;
    while p < total
        invariant
            p <= total,
            total == safe@.len(),
            states@.len() == p,
            values.len() == p,
            forall|q: int|
                0 <= q < p ==> row_scanned(
                    *kernel,
                    safe@[q],
                    k as nat,
                    nprobe as nat,
                    cols,
                    0,
                    values[q],
                    #[trigger] states@[q],
                ),
        decreases total - p,
    {
        states.push(TiledRow::new(nprobe));
        proof {
            values = values.push(Seq::new(k as nat, |i: int| 0u32));
        }
        p = p + 1;
    }
    let mut first: usize = 0;
    let ghost mut t: nat = 0;
    let ghost tiles = tile_count(k as int, cols as int);
    proof {
        lemma_tile_count(k as int, cols as int);
        assert(0 * cols == 0);
    }
    while first < k
        invariant
            0 < nprobe,
            0 < cols,
            0 < k,
            kernel_fits(*kernel, n as nat, k as nat),
            start + rows <= n,
            total == safe@.len() == states@.len() == values.len(),
            block_part(safe@, start as int, rows as int),
            t <= tiles,
            (tiles - 1) * cols < k <= tiles * cols,
            first == (if t == tiles { k as int } else { t * cols }),
            forall|q: int|
                0 <= q < total ==> row_scanned(
                    *kernel,
                    safe@[q],
                    k as nat,
                    nprobe as nat,
                    cols,
                    t,
                    values[q],
                    #[trigger] states@[q],
                ),
        decreases k - first,
    {
        let len: usize = smaller(cols, k - first);
        let request = copy_range(&safe, 0, total);
        let ghost asked = request;
        assert(asked@ =~= safe@);
        assert(rows_below(asked@, n as int));
        let matrix: Vec<u32> = (kernel.products_of)(request, first, len);
        assert(call_ensures(kernel.products_of, (asked, first, len), matrix));
        let size: usize = matrix.len();
        let ghost old_values = values;
        proof {
            values = Seq::new(
                total as nat,
                |q: int| filled(
                    old_values[q],
                    first as int,
                    matrix_row(matrix@, q, len as int),
                ),
            );
        }
        let mut q: usize = 0;
        while q < total
            invariant
                q <= total,
                0 < nprobe,
                0 < cols,
                first < k,
                first == t * cols,
                len == (if cols <= k - first { cols } else { (k - first) as usize }),
                kernel_fits(*kernel, n as nat, k as nat),
                start + rows <= n,
                total == safe@.len() == states@.len() == values.len() == old_values.len(),
                asked@ == safe@,
                call_ensures(kernel.products_of, (asked, first, len), matrix),
                size == matrix@.len() == total * len,
                block_part(safe@, start as int, rows as int),
                values == Seq::new(
                    total as nat,
                    |q: int| filled(
                        old_values[q],
                        first as int,
                        matrix_row(matrix@, q, len as int),
                    ),
                ),
                forall|r: int|
                    0 <= r < q ==> row_scanned(
                        *kernel,
                        safe@[r],
                        k as nat,
                        nprobe as nat,
                        cols,
                        t + 1,
                        values[r],
                        #[trigger] states@[r],
                    ),
                forall|r: int|
                    q <= r < total ==> row_scanned(
                        *kernel,
                        safe@[r],
                        k as nat,
                        nprobe as nat,
                        cols,
                        t,
                        old_values[r],
                        #[trigger] states@[r],
                    ),
            decreases total - q,
        {
            proof {
                assert(q * len + len <= total * len) by (nonlinear_arith)
                    requires
                        q + 1 <= total,
                ;
                assert(0 <= q * len) by (nonlinear_arith);
            }
            let from: usize = q * len;
            let part: &[u32] = slice_subrange(matrix.as_slice(), from, from + len);
            assert(part@ == matrix_row(matrix@, q as int, len as int));
            let row: usize = safe[q];
            assert(asked@[q as int] == row);
            assert(approximated(kernel.products_of, row, first, len, part@));
            let ghost last = states@;
            assert(row_scanned(
                *kernel,
                safe@[q as int],
                k as nat,
                nprobe as nat,
                cols,
                t,
                old_values[q as int],
                states@[q as int],
            ));
            scan_row_tile(
                kernel,
                row,
                n,
                k,
                cols,
                Ghost(t),
                first,
                part,
                Ghost(old_values[q as int]),
                &mut states[q],
            );
            assert(states@ =~= last.update(q as int, states@[q as int]));
            q = q + 1;
        }
        proof {
            lemma_next_tile(k as int, cols as int, t, tiles);
            t = t + 1;
        }
        first = first + len;
    }
    assert(t == tiles) by {
        if t < tiles {
            assert(t * cols <= (tiles - 1) * cols) by (nonlinear_arith)
                requires
                    t <= tiles - 1,
                    cols > 0,
            ;
        }
    }
    let ghost screened = out@;
    while states.len() > 0
        invariant
            0 < nprobe,
            0 < k,
            kernel_fits(*kernel, n as nat, k as nat),
            start + rows <= n,
            out@.len() == rows,
            screened.len() == rows,
            total == safe@.len() == values.len(),
            states@.len() <= total,
            tiles == tile_count(k as int, cols as int),
            block_part(safe@, start as int, rows as int),
            forall|j: int|
                0 <= j < safe@.len() ==> call_ensures(kernel.is_safe, (#[trigger] safe@[j],), true),
            forall|q: int|
                0 <= q < states@.len() ==> row_scanned(
                    *kernel,
                    safe@[q],
                    k as nat,
                    nprobe as nat,
                    cols,
                    tiles,
                    values[q],
                    #[trigger] states@[q],
                ),
            forall|i: int|
                0 <= i < out@.len() && !safe@.contains((start + i) as usize) ==> #[trigger] out@[i]
                    == screened[i],
            forall|j: int|
                states@.len() <= j < total ==> row_answered(
                    *kernel,
                    #[trigger] safe@[j],
                    k as nat,
                    nprobe as nat,
                    Some(cols),
                    out@[safe@[j] - start]@,
                ),
        decreases states@.len(),
    {
        let q: usize = states.len() - 1;
        let row: usize = safe[q];
        let ghost before = states@;
        match states.pop() {
            Some(state) => {
                assert(state == before[q as int]);
                let items = state.settle(row, k, workers, &kernel.distance_of);
                let ghost answer = items@;
                let ghost last = out@;
                out[row - start] = items;
                proof {
                    assert(row_settled(
                        *kernel,
                        row,
                        k as nat,
                        nprobe as nat,
                        Some(cols),
                        values[q as int],
                        answer,
                    ));
                    assert(out@ =~= last.update(row - start, out@[row - start]));
                    assert forall|j: int| q <= j < total implies row_answered(
                        *kernel,
                        #[trigger] safe@[j],
                        k as nat,
                        nprobe as nat,
                        Some(cols),
                        out@[safe@[j] - start]@,
                    ) by {
                        if j > q {
                            assert(safe@[q as int] < safe@[j]);
                        }
                    }
                    assert forall|i: int|
                        0 <= i < out@.len() && !safe@.contains((start + i) as usize) implies
                        #[trigger] out@[i] == screened[i] by {
                        assert(safe@.contains(safe@[q as int]));
                    }
                }
            },
            None => {},
        }
    }
    proof {
        lemma_block_answered(
            *kernel,
            safe@,
            start as int,
            k as nat,
            nprobe as nat,
            Some(cols),
            out@,
        );
    }
    out
}

/// Where the tile after the current one begins.
proof fn lemma_next_tile(k: int, cols: int, t: nat, tiles: nat)
    requires
        0 < cols,
        t * cols < k,
        t < tiles,
        (tiles - 1) * cols < k <= tiles * cols,
    ensures
        crate::tiled::tile_end(t * cols, cols, k) == (if t + 1 == tiles {
            k
        } else {
            (t + 1) * cols
        }),
{
    assert((t + 1) * cols == t * cols + cols) by (nonlinear_arith);
    if t + 1 < tiles {
        assert((t + 1) * cols <= (tiles - 1) * cols) by (nonlinear_arith)
            requires
                t + 1 <= tiles - 1,
                cols > 0,
        ;
    }
}

/// How a batch is cut up: centroids per tile, if they are cut into tiles; rows
/// per block; whether blocks run in parallel; and how many of them at a time.
#[derive(Debug, Clone, Copy, PartialEq, Eq, Structural)]
pub struct BlocksPlan {
    pub tile: Option<usize>,
    pub block_rows: usize,
    pub parallel: bool,
    pub workers: usize,
}

/// Workers that have a block at a time.
pub open spec fn block_workers(n: int, block_rows: int, parallel: bool, threads: int) -> int {
    if parallel {
        crate::kmeans_plan::max_of(
            crate::kmeans_plan::min_of(crate::arith::ceil_div(n, block_rows), threads),
            1,
        )
    } else {
        1
    }
}

/// Blocks that see the centroids tile by tile run in parallel also where the
/// tiles together are enough work.
pub open spec fn tiled_in_parallel(block_rows: int, k: int, d: int, threads: int) -> bool {
    threads > 1 && crate::arith::sat_mul(
        crate::arith::sat_mul(crate::arith::sat_mul(block_rows, k), d),
        2,
    ) >= MIN_BLOCK_FLOPS
}

pub fn plan_blocks(n: usize, d: usize, k: usize, nprobe: usize, threads: usize) -> (plan: BlocksPlan)
    ensures
        plan.block_rows > 0,
        plan.tile matches Some(cols) ==> 0 < cols < k,
        match plan.tile {
            Some(cols) => {
                let row = crate::arith::sat_add(
                    crate::arith::sat_add(d as int, crate::kmeans_plan::heap_scratch(nprobe as int)),
                    4,
                );
                let (rows, planned) = crate::kmeans_plan::block_plan(
                    n as int,
                    d as int,
                    cols as int,
                    threads as int,
                    0,
                    row,
                );
                &&& crate::kmeans_plan::tile_size(k as int, d as int, nprobe as int, threads as int)
                    == Some(cols as int)
                &&& plan.block_rows == rows
                &&& plan.parallel == (planned || tiled_in_parallel(
                    rows,
                    k as int,
                    d as int,
                    threads as int,
                ))
            },
            None => {
                let scratch = crate::kmeans_plan::worker_scratch(k as int, nprobe as int);
                &&& crate::kmeans_plan::tile_size(k as int, d as int, nprobe as int, threads as int)
                    is None
                &&& (plan.block_rows as int, plan.parallel) == crate::kmeans_plan::block_plan(
                    n as int,
                    d as int,
                    k as int,
                    threads as int,
                    scratch,
                    2,
                )
            },
        },
        plan.workers == block_workers(
            n as int,
            plan.block_rows as int,
            plan.parallel,
            threads as int,
        ),
{
    let tile: Option<usize> = centroid_tile_size(k, d, nprobe, threads);
    let (block_rows, parallel): (usize, bool) = match tile {
        Some(cols) => {
            let heaps: usize = saturating_product(
                saturating_product(nprobe, topk_tuple_elems()),
                2,
            );
            let row: usize = saturating_total(saturating_total(d, heaps), 4);
            let (rows, planned): (usize, bool) = assignment_block_plan(n, d, cols, threads, 0, row);
            let flops: usize = saturating_product(
                saturating_product(saturating_product(rows, k), d),
                2,
            );
            (rows, planned || (threads > 1 && flops >= MIN_BLOCK_FLOPS))
        },
        None => assignment_block_plan(n, d, k, threads, topk_worker_scratch(k, nprobe), 2),
    };
    let workers: usize = if parallel {
        larger(smaller(quotient_up(n, block_rows), threads), 1)
    } else {
        1
    };
    BlocksPlan { tile, block_rows, parallel, workers }
}

/// The nearest centroids of each of `n` rows, block by block.
pub fn certified_topk_blocks<
    S: Fn(usize) -> bool,
    P: Fn(Vec<usize>, usize, usize) -> Vec<u32>,
    B: Fn(usize, u32) -> (u32, u32),
    D: Fn(usize, usize) -> u32,
>(
    kernel: &BatchKernel<S, P, B, D>,
    n: usize,
    d: usize,
    k: usize,
    nprobe: usize,
    threads: usize,
) -> (answers: Vec<Vec<Candidate>>)
    requires
        0 < nprobe,
        kernel_fits(*kernel, n as nat, k as nat),
    ensures
        answers@.len() == n,
        exists|tile: Option<usize>| #[trigger]
            is_tile(tile, d as int, k as int, nprobe as int, threads as int) && block_answered(
                *kernel,
                0,
                k as nat,
                nprobe as nat,
                tile,
                answers@,
            ),
{
    let plan: BlocksPlan = plan_blocks(n, d, k, nprobe, threads);
    let mut answers: Vec<Vec<Candidate>> = Vec::new();
    let mut start: usize = 0;
    while start < n
        invariant
            start <= n,
            0 < nprobe,
            plan.block_rows > 0,
            plan.tile matches Some(cols) ==> 0 < cols < k,
            kernel_fits(*kernel, n as nat, k as nat),
            answers@.len() == start,
            block_answered(*kernel, 0, k as nat, nprobe as nat, plan.tile, answers@),
        decreases n - start,
    {
        let rows: usize = smaller(plan.block_rows, n - start);
        let mut block = match plan.tile {
            Some(cols) => certified_topk_block_tiled(
                kernel,
                start,
                rows,
                n,
                k,
                nprobe,
                cols,
                plan.workers,
            ),
            None => certified_topk_block(
                kernel,
                start,
                rows,
                n,
                d,
                k,
                nprobe,
                if plan.parallel {
                    threads
                } else {
                    1
                },
                plan.workers,
            ),
        };
        let ghost before = answers@;
        let ghost added = block@;
        answers.append(&mut block);
        proof {
            assert(answers@ =~= before + added);
            assert forall|i: int| 0 <= i < answers@.len() implies row_answered(
                *kernel,
                (0 + i) as usize,
                k as nat,
                nprobe as nat,
                plan.tile,
                #[trigger] answers@[i]@,
            ) by {
                if i < before.len() {
                    assert(answers@[i] == before[i]);
                    let _ = before[i]@;
                } else {
                    assert(answers@[i] == added[i - start]);
                    let _ = added[i - start]@;
                }
            }
        }
        start = start + rows;
    }
    assert(is_tile(plan.tile, d as int, k as int, nprobe as int, threads as int));
    answers
}

/// The tile width that a batch uses.
pub open spec fn is_tile(tile: Option<usize>, d: int, k: int, nprobe: int, threads: int) -> bool {
    match tile {
        Some(cols) => crate::kmeans_plan::tile_size(k, d, nprobe, threads) == Some(cols as int),
        None => crate::kmeans_plan::tile_size(k, d, nprobe, threads) is None,
    }
}

/// How rows that are measured one by one are scheduled: in waves of so many at
/// a time, or all in parallel or in sequence; and the workers at a time.
#[derive(Debug, Clone, Copy, PartialEq, Eq, Structural)]
pub struct DirectPlan {
    pub wave: Option<usize>,
    pub parallel: bool,
    pub workers: usize,
}

pub fn plan_direct(nq: usize, k: usize, nprobe: usize, threads: usize) -> (plan: DirectPlan)
    ensures
        ({
            let wanted = crate::kmeans_plan::max_of(
                crate::kmeans_plan::min_of(nq as int, threads as int),
                1,
            );
            let linear = crate::kmeans_plan::linear_workers(k as int, nprobe as int, wanted);
            let parallel = crate::kmeans_plan::is_parallel_topk(
                nq as int,
                k as int,
                nprobe as int,
                threads as int,
            );
            if linear > 0 {
                &&& plan.wave == Some(plan.workers)
                &&& plan.parallel
                &&& plan.workers == linear
            } else {
                &&& plan.wave is None
                &&& plan.parallel == parallel
                &&& plan.workers == (if parallel {
                    wanted
                } else {
                    1
                })
            }
        }),
        plan.workers > 0,
{
    let wanted: usize = larger(smaller(nq, threads), 1);
    let linear: usize = direct_topk_linear_worker_limit(k, nprobe, wanted);
    if linear > 0 {
        return DirectPlan { wave: Some(linear), parallel: true, workers: linear };
    }
    let parallel: bool = use_parallel_direct_topk(nq, k, nprobe, threads);
    DirectPlan {
        wave: None,
        parallel,
        workers: if parallel {
            wanted
        } else {
            1
        },
    }
}

/// The nearest centroids of `row`, as indexes and distances.
pub open spec fn found<D: Fn(usize, usize) -> u32>(
    distance_of: D,
    row: int,
    k: nat,
    nprobe: nat,
) -> Seq<Candidate> {
    crate::nearest::nearest(
        crate::nearest::distances_of(distance_of, row as usize, k),
        nprobe,
    )
}

/// Measures every row by itself.
pub fn find_topk_batch_direct<D: Fn(usize, usize) -> u32>(
    nq: usize,
    k: usize,
    nprobe: usize,
    threads: usize,
    distance_of: &D,
) -> (answers: Vec<Vec<Candidate>>)
    requires
        forall|row: usize|
            row < nq ==> #[trigger] crate::nearest::measures_row(*distance_of, row, k as nat),
    ensures
        answers@.len() == nq,
        forall|q: int|
            0 <= q < nq ==> (#[trigger] answers@[q])@ == found(
                *distance_of,
                q,
                k as nat,
                nprobe as nat,
            ),
{
    let plan: DirectPlan = plan_direct(nq, k, nprobe, threads);
    let mut answers: Vec<Vec<Candidate>> = Vec::new();
    let mut q: usize = 0;
    while q < nq
        invariant
            q <= nq,
            forall|row: usize|
                row < nq ==> #[trigger] crate::nearest::measures_row(*distance_of, row, k as nat),
            answers@.len() == q,
            forall|i: int|
                0 <= i < q ==> (#[trigger] answers@[i])@ == found(
                    *distance_of,
                    i,
                    k as nat,
                    nprobe as nat,
                ),
        decreases nq - q,
    {
        let items = find_topk_with_workers(q, k, nprobe, plan.workers, distance_of);
        answers.push(items);
        q = q + 1;
    }
    answers
}

/// The batch goes row by row: it is small, or all centroids are wanted.
pub open spec fn goes_direct(nq: int, d: int, k: int, nprobe: int, threads: int) -> bool {
    nprobe >= k || crate::kmeans_plan::is_direct_batch(nq, d, threads)
}

/// The `nprobe` nearest of `k` centroids for each of `nq` rows, nearest first.
pub fn find_topk_batch_with_centroid_norms<
    S: Fn(usize) -> bool,
    P: Fn(Vec<usize>, usize, usize) -> Vec<u32>,
    B: Fn(usize, u32) -> (u32, u32),
    D: Fn(usize, usize) -> u32,
>(
    kernel: &BatchKernel<S, P, B, D>,
    nq: usize,
    d: usize,
    k: usize,
    nprobe: usize,
    threads: usize,
) -> (answers: Vec<Vec<Candidate>>)
    requires
        kernel_fits(*kernel, nq as nat, k as nat),
    ensures
        answers@.len() == nq,
        nprobe == 0 || goes_direct(nq as int, d as int, k as int, nprobe as int, threads as int)
            ==> forall|q: int|
            0 <= q < nq ==> (#[trigger] answers@[q])@ == found(
                kernel.distance_of,
                q,
                k as nat,
                nprobe as nat,
            ),
        nprobe > 0 && !goes_direct(nq as int, d as int, k as int, nprobe as int, threads as int)
            ==> exists|tile: Option<usize>| #[trigger]
            is_tile(tile, d as int, k as int, nprobe as int, threads as int) && block_answered(
                *kernel,
                0,
                k as nat,
                nprobe as nat,
                tile,
                answers@,
            ),
{
    if nprobe == 0 || nprobe >= k || use_direct_batch(nq, d, threads) {
        return find_topk_batch_direct(nq, k, nprobe, threads, &kernel.distance_of);
    }
    certified_topk_blocks(kernel, nq, d, k, nprobe, threads)
}

/// Where the bands of all rows are wide enough, a batch finds exactly what
/// each row would find by itself.
pub proof fn law_batch_search_is_exact<
    S: Fn(usize) -> bool,
    P: Fn(Vec<usize>, usize, usize) -> Vec<u32>,
    B: Fn(usize, u32) -> (u32, u32),
    D: Fn(usize, usize) -> u32,
>(
    kernel: BatchKernel<S, P, B, D>,
    k: nat,
    nprobe: nat,
    tile: Option<usize>,
    answers: Seq<Vec<Candidate>>,
)
    requires
        0 < nprobe,
        0 < k <= usize::MAX,
        answers.len() <= usize::MAX,
        tile matches Some(cols) ==> cols > 0,
        block_answered(kernel, 0, k, nprobe, tile, answers),
        forall|row: usize| row < answers.len() ==> #[trigger] row_is_sound(kernel, row, k, tile),
    ensures
        forall|q: int|
            0 <= q < answers.len() ==> (#[trigger] answers[q])@ == found(
                kernel.distance_of,
                q,
                k,
                nprobe,
            ),
{
    assert forall|q: int| 0 <= q < answers.len() implies (#[trigger] answers[q])@ == found(
        kernel.distance_of,
        q,
        k,
        nprobe,
    ) by {
        let row = q as usize;
        let items = answers[q]@;
        assert(row_answered(kernel, (0 + q) as usize, k, nprobe, tile, items));
        assert(row_is_sound(kernel, row, k, tile));
        law_batch_answers_are_exact(kernel, row, k, nprobe, tile, items);
    }
}

/// The `nprobe` nearest of `k` centroids for each of `nq` rows, as indexes and
/// as distances.
pub fn find_topk_batch<
    S: Fn(usize) -> bool,
    P: Fn(Vec<usize>, usize, usize) -> Vec<u32>,
    B: Fn(usize, u32) -> (u32, u32),
    D: Fn(usize, usize) -> u32,
>(
    kernel: &BatchKernel<S, P, B, D>,
    nq: usize,
    d: usize,
    k: usize,
    nprobe: usize,
    threads: usize,
) -> (found: (Vec<Vec<usize>>, Vec<Vec<u32>>))
    requires
        kernel_fits(*kernel, nq as nat, k as nat),
    ensures
        exists|answers: Seq<Vec<Candidate>>| #[trigger]
            batch_found(
                *kernel,
                nq as nat,
                d as int,
                k as nat,
                nprobe as nat,
                threads as int,
                answers,
            ) && split_answers(answers, found.0@, found.1@),
{
    let answers = find_topk_batch_with_centroid_norms(kernel, nq, d, k, nprobe, threads);
    let mut rows: Vec<Vec<usize>> = Vec::new();
    let mut distances: Vec<Vec<u32>> = Vec::new();
    let mut q: usize = 0;
    while q < nq
        invariant
            q <= nq,
            answers@.len() == nq,
            split_answers(answers@.take(q as int), rows@, distances@),
        decreases nq - q,
    {
        let (indexes, measures) = split_candidates(&answers[q]);
        rows.push(indexes);
        distances.push(measures);
        q = q + 1;
    }
    assert(answers@.take(nq as int) =~= answers@);
    assert(batch_found(
        *kernel,
        nq as nat,
        d as int,
        k as nat,
        nprobe as nat,
        threads as int,
        answers@,
    ));
    (rows, distances)
}

/// Answers taken apart into indexes and distances.
pub open spec fn split_answers(
    answers: Seq<Vec<Candidate>>,
    rows: Seq<Vec<usize>>,
    distances: Seq<Vec<u32>>,
) -> bool {
    &&& rows.len() == answers.len()
    &&& distances.len() == answers.len()
    &&& forall|q: int|
        0 <= q < answers.len() ==> (#[trigger] rows[q])@ == crate::nearest::indexes(answers[q]@)
    &&& forall|q: int|
        0 <= q < answers.len() ==> (#[trigger] distances[q])@ == crate::nearest::measures(
            answers[q]@,
        )
}

/// The answers that a batch search gives.
pub open spec fn batch_found<
    S: Fn(usize) -> bool,
    P: Fn(Vec<usize>, usize, usize) -> Vec<u32>,
    B: Fn(usize, u32) -> (u32, u32),
    D: Fn(usize, usize) -> u32,
>(
    kernel: BatchKernel<S, P, B, D>,
    nq: nat,
    d: int,
    k: nat,
    nprobe: nat,
    threads: int,
    answers: Seq<Vec<Candidate>>,
) -> bool {
    &&& answers.len() == nq
    &&& if nprobe == 0 || goes_direct(nq as int, d, k as int, nprobe as int, threads) {
        forall|q: int|
            0 <= q < nq ==> (#[trigger] answers[q])@ == found(kernel.distance_of, q, k, nprobe)
    } else {
        exists|tile: Option<usize>| #[trigger]
            is_tile(tile, d, k as int, nprobe as int, threads) && block_answered(
                kernel,
                0,
                k,
                nprobe,
                tile,
                answers,
            )
    }
}

/// The centroid that a row of a batch is assigned to.
pub open spec fn row_assigned<
    S: Fn(usize) -> bool,
    P: Fn(Vec<usize>, usize, usize) -> Vec<u32>,
    B: Fn(usize, u32) -> (u32, u32),
    D: Fn(usize, usize) -> u32,
>(
    kernel: BatchKernel<S, P, B, D>,
    row: usize,
    k: nat,
    tile: Option<usize>,
    assigned: int,
) -> bool {
    exists|items: Seq<Candidate>|
        {
            &&& #[trigger] row_answered(kernel, row, k, 1, tile, items)
            &&& if items.len() > 0 && crate::order::less(items[0].0, MAX_DISTANCE) {
                assigned == items[0].1
            } else {
                crate::pq::is_argmin(
                    crate::nearest::distances_of(kernel.distance_of, row, k),
                    assigned,
                )
            }
        }
}

/// The nearest centroid of each of `n` rows; nothing if there are no centroids.
pub fn find_nearest_batch<
    S: Fn(usize) -> bool,
    P: Fn(Vec<usize>, usize, usize) -> Vec<u32>,
    B: Fn(usize, u32) -> (u32, u32),
    D: Fn(usize, usize) -> u32,
>(kernel: &BatchKernel<S, P, B, D>, n: usize, d: usize, k: usize, threads: usize) -> (assigned: Vec<
    usize,
>)
    requires
        kernel_fits(*kernel, n as nat, k as nat),
    ensures
        k == 0 ==> assigned@.len() == 0,
        k > 0 ==> assigned@.len() == n,
        k > 0 && crate::kmeans_plan::is_direct_batch(n as int, d as int, threads as int)
            ==> forall|i: int|
            0 <= i < n ==> crate::pq::is_argmin(
                crate::nearest::distances_of(kernel.distance_of, i as usize, k as nat),
                #[trigger] assigned@[i] as int,
            ),
        k > 0 && !crate::kmeans_plan::is_direct_batch(n as int, d as int, threads as int)
            ==> exists|tile: Option<usize>| #[trigger]
            is_tile(tile, d as int, k as int, 1, threads as int) && forall|i: int|
            0 <= i < n ==> row_assigned(
                *kernel,
                i as usize,
                k as nat,
                tile,
                #[trigger] assigned@[i] as int,
            ),
{
    let mut assigned: Vec<usize> = Vec::new();
    if n == 0 || k == 0 {
        assert(n == 0 ==> crate::kmeans_plan::is_direct_batch(n as int, d as int, threads as int));
        return assigned;
    }
    let direct: bool = use_direct_batch(n, d, threads);
    let answers = if direct {
        Vec::new()
    } else {
        certified_topk_blocks(kernel, n, d, k, 1, threads)
    };
    let ghost tile: Option<usize> = choose|tile: Option<usize>| #[trigger]
        is_tile(tile, d as int, k as int, 1, threads as int) && block_answered(
            *kernel,
            0,
            k as nat,
            1,
            tile,
            answers@,
        );
    let mut i: usize = 0;
    while i < n
        invariant
            i <= n,
            k > 0,
            kernel_fits(*kernel, n as nat, k as nat),
            !direct ==> answers@.len() == n && block_answered(
                *kernel,
                0,
                k as nat,
                1,
                tile,
                answers@,
            ),
            assigned@.len() == i,
            direct ==> forall|j: int|
                0 <= j < i ==> crate::pq::is_argmin(
                    crate::nearest::distances_of(kernel.distance_of, j as usize, k as nat),
                    #[trigger] assigned@[j] as int,
                ),
            !direct ==> forall|j: int|
                0 <= j < i ==> row_assigned(
                    *kernel,
                    j as usize,
                    k as nat,
                    tile,
                    #[trigger] assigned@[j] as int,
                ),
        decreases n - i,
    {
        if direct {
            let best: usize = find_nearest(i, k, &kernel.distance_of);
            assigned.push(best);
        } else {
            let items: &Vec<Candidate> = &answers[i];
            assert(row_answered(*kernel, (0 + i) as usize, k as nat, 1, tile, items@));
            let best: usize = if items.len() > 0 && float_less(items[0].0, MAX_DISTANCE) {
                items[0].1
            } else {
                find_nearest(i, k, &kernel.distance_of)
            };
            assigned.push(best);
            assert(row_assigned(*kernel, i, k as nat, tile, best as int));
        }
        i = i + 1;
    }
    assigned
}

} // verus!
