//! Assigning rows to centroids, and keeping every cluster in use.
use crate::arith::{larger, smaller};
use crate::float_ops::operate;
use crate::kmeans_plan::{assignment_block_plan, MAX_MATRIX_ELEMS};
use crate::order::{float_is_nan, float_key, float_less, MAX_DISTANCE};
use crate::sampling::draw_between;
use rand::rngs::StdRng;
use vstd::prelude::*;
use vstd::slice::slice_subrange;

verus! {

/// The distance to the nearest centroid; the largest finite number if none is
/// below it.
pub open spec fn row_objective(distances: Seq<u32>, best: int) -> u32 {
    if 0 <= best < distances.len() && crate::order::less(distances[best], MAX_DISTANCE) {
        distances[best]
    } else {
        MAX_DISTANCE
    }
}

/// The nearest centroid of a row and its distance.
pub fn assign_row(distances: &[u32]) -> (nearest: (usize, u32))
    ensures
        crate::pq::is_argmin(distances@, nearest.0 as int),
        nearest.1 == row_objective(distances@, nearest.0 as int),
{
    let k: usize = distances.len();
    let mut best: usize = 0;
    let mut best_distance: u32 = MAX_DISTANCE;
    let mut c: usize = 0;
    while c < k
        invariant
            c <= k,
            k == distances@.len(),
            best <= c,
            best_distance == MAX_DISTANCE ==> best == 0 && forall|i: int|
                0 <= i < c ==> !crate::order::less(#[trigger] distances@[i], MAX_DISTANCE),
            best_distance != MAX_DISTANCE ==> {
                &&& best < c
                &&& best_distance == distances@[best as int]
                &&& crate::order::less(best_distance, MAX_DISTANCE)
                &&& forall|i: int|
                    0 <= i < c ==> !crate::order::less(#[trigger] distances@[i], best_distance)
                &&& forall|i: int|
                    0 <= i < best ==> crate::order::is_nan(#[trigger] distances@[i])
                        || crate::order::less(best_distance, distances@[i])
            },
        decreases k - c,
    {
        if float_less(distances[c], best_distance) {
            best_distance = distances[c];
            best = c;
        }
        c = c + 1;
    }
    (best, best_distance)
}

/// A block of distances, one row of `k` for each of its rows.
pub open spec fn is_block<M: Fn(usize, usize) -> Vec<u32>>(distances_of: M, n: nat, k: nat) -> bool {
    &&& forall|start: usize, rows: usize|
        start + rows <= n ==> #[trigger] call_requires(distances_of, (start, rows))
    &&& forall|start: usize, rows: usize, matrix: Vec<u32>| #[trigger]
        call_ensures(distances_of, (start, rows), matrix) ==> matrix@.len() == rows * k
}

/// The distances of row `i`, in a block that a call gave.
pub open spec fn block_row<M: Fn(usize, usize) -> Vec<u32>>(
    distances_of: M,
    i: int,
    k: nat,
    values: Seq<u32>,
) -> bool {
    exists|start: usize, rows: usize, matrix: Vec<u32>|
        {
            &&& #[trigger] call_ensures(distances_of, (start, rows), matrix)
            &&& start <= i < start + rows
            &&& values == crate::batch_nearest::matrix_row(matrix@, i - start, k as int)
        }
}

/// Row `i` is assigned to its nearest centroid.
pub open spec fn row_nearest<M: Fn(usize, usize) -> Vec<u32>>(
    distances_of: M,
    i: int,
    k: nat,
    assigned: usize,
    objective: u32,
) -> bool {
    exists|values: Seq<u32>|
        {
            &&& #[trigger] block_row(distances_of, i, k, values)
            &&& crate::pq::is_argmin(values, assigned as int)
            &&& objective == row_objective(values, assigned as int)
        }
}

/// Assigns the rows of one block.
fn assign_block<M: Fn(usize, usize) -> Vec<u32>>(
    start: usize,
    rows: usize,
    n: usize,
    k: usize,
    distances_of: &M,
    assignments: &mut Vec<usize>,
    objectives: &mut Vec<u32>,
)
    requires
        start + rows <= n,
        is_block(*distances_of, n as nat, k as nat),
        old(assignments)@.len() == start,
        old(objectives)@.len() == start,
        forall|i: int|
            0 <= i < start ==> row_nearest(
                *distances_of,
                i,
                k as nat,
                #[trigger] old(assignments)@[i],
                old(objectives)@[i],
            ),
    ensures
        final(assignments)@.len() == start + rows,
        final(objectives)@.len() == start + rows,
        forall|i: int|
            0 <= i < start + rows ==> row_nearest(
                *distances_of,
                i,
                k as nat,
                #[trigger] final(assignments)@[i],
                final(objectives)@[i],
            ),
{
    let matrix: Vec<u32> = distances_of(start, rows);
    let size: usize = matrix.len();
    let mut p: usize = 0;
    while p < rows
        invariant
            p <= rows,
            start + rows <= n,
            call_ensures(*distances_of, (start, rows), matrix),
            size == matrix@.len() == rows * k,
            assignments@.len() == start + p,
            objectives@.len() == start + p,
            forall|i: int|
                0 <= i < start + p ==> row_nearest(
                    *distances_of,
                    i,
                    k as nat,
                    #[trigger] assignments@[i],
                    objectives@[i],
                ),
        decreases rows - p,
    {
        proof {
            assert(p * k + k <= rows * k) by (nonlinear_arith)
                requires
                    p + 1 <= rows,
            ;
            assert(0 <= p * k) by (nonlinear_arith);
        }
        let first: usize = p * k;
        let values: &[u32] = slice_subrange(matrix.as_slice(), first, first + k);
        let (best, objective): (usize, u32) = assign_row(values);
        assignments.push(best);
        objectives.push(objective);
        proof {
            assert(values@ == crate::batch_nearest::matrix_row(
                matrix@,
                (start + p) - start,
                k as int,
            ));
            assert(block_row(*distances_of, start + p, k as nat, values@));
        }
        p = p + 1;
    }
}

/// Rows whose objectives are summed before the sums are. It does not depend on
/// how the work is cut into blocks.
pub open spec fn objective_chunk(k: int) -> int {
    crate::kmeans_plan::max_of(MAX_MATRIX_ELEMS as int / crate::kmeans_plan::max_of(k, 1), 1)
}

pub fn objective_chunk_rows(k: usize) -> (rows: usize)
    ensures
        rows == objective_chunk(k as int),
        rows > 0,
{
    larger(MAX_MATRIX_ELEMS / larger(k, 1), 1)
}

/// The numbers, added one after the other to zero.
pub open spec fn running_total<A: Fn(u32, u32) -> u32>(sum: A, values: Seq<u32>) -> u32
    decreases values.len(),
{
    if values.len() == 0 {
        0
    } else {
        crate::float_ops::result_of(sum, running_total(sum, values.drop_last()), values.last())
    }
}

/// The numbers of chunk `t`; the last chunk can be shorter.
pub open spec fn chunk_values(values: Seq<u32>, chunk: int, t: int) -> Seq<u32> {
    values.subrange(t * chunk, crate::kmeans_plan::min_of((t + 1) * chunk, values.len() as int))
}

/// The totals of the first `chunks` chunks, added one after the other to zero.
pub open spec fn chunks_total<A: Fn(u32, u32) -> u32>(
    sum: A,
    values: Seq<u32>,
    chunk: int,
    chunks: nat,
) -> u32
    decreases chunks,
{
    if chunks == 0 {
        0
    } else {
        let last = (chunks - 1) as nat;
        crate::float_ops::result_of(
            sum,
            chunks_total(sum, values, chunk, last),
            running_total(sum, chunk_values(values, chunk, last as int)),
        )
    }
}

/// As many chunks as it takes to hold all rows.
pub open spec fn chunk_count(n: int, chunk: int) -> int {
    (n + chunk - 1) / chunk
}

/// The total of the objectives. More rows than a chunk holds are added up by
/// chunks: each chunk on its own, then the totals of the chunks.
pub open spec fn total_objective<A: Fn(u32, u32) -> u32>(
    sum: A,
    objectives: Seq<u32>,
    chunk: int,
) -> u32 {
    if objectives.len() <= chunk {
        running_total(sum, objectives)
    } else {
        chunks_total(
            sum,
            objectives,
            chunk,
            chunk_count(objectives.len() as int, chunk) as nat,
        )
    }
}

/// The running total of the rows from `start` to `end`.
fn sum_rows<A: Fn(u32, u32) -> u32>(values: &[u32], start: usize, end: usize, sum: &A) -> (total:
    u32)
    requires
        start <= end <= values@.len(),
        crate::float_ops::is_operation(*sum),
    ensures
        total == running_total(*sum, values@.subrange(start as int, end as int)),
{
    let ghost part = values@.subrange(start as int, end as int);
    let mut total: u32 = 0;
    let mut i: usize = start;
    while i < end
        invariant
            start <= i <= end <= values@.len(),
            crate::float_ops::is_operation(*sum),
            part == values@.subrange(start as int, end as int),
            total == running_total(*sum, part.take(i - start)),
        decreases end - i,
    {
        proof {
            assert(part.take(i + 1 - start).drop_last() =~= part.take(i - start));
            assert(part.take(i + 1 - start).last() == values@[i as int]);
        }
        total = operate(sum, total, values[i]);
        i = i + 1;
    }
    assert(part.take(end - start) =~= part);
    total
}

/// Adds up the objectives of rows, chunk by chunk.
pub fn sum_objectives<A: Fn(u32, u32) -> u32>(objectives: &[u32], chunk: usize, sum: &A) -> (total:
    u32)
    requires
        chunk > 0,
        crate::float_ops::is_operation(*sum),
    ensures
        total == total_objective(*sum, objectives@, chunk as int),
{
    let n: usize = objectives.len();
    let ghost values = objectives@;
    if n <= chunk {
        let total: u32 = sum_rows(objectives, 0, n, sum);
        assert(values.subrange(0, n as int) =~= values);
        return total;
    }
    let mut total: u32 = 0;
    let mut start: usize = 0;
    let ghost mut t: int = 0;
    assert(0 * chunk == 0) by (nonlinear_arith);
    while start < n
        invariant
            start <= n,
            n == objectives@.len(),
            values == objectives@,
            chunk > 0,
            crate::float_ops::is_operation(*sum),
            0 <= t,
            start == crate::kmeans_plan::min_of(t * chunk, n as int),
            start < n ==> start == t * chunk,
            (t - 1) * chunk < n || t == 0,
            total == chunks_total(*sum, values, chunk as int, t as nat),
        decreases n - start,
    {
        let rows: usize = smaller(chunk, n - start);
        assert((t + 1) * chunk == t * chunk + chunk) by (nonlinear_arith);
        let part_total: u32 = sum_rows(objectives, start, start + rows, sum);
        total = operate(sum, total, part_total);
        start = start + rows;
        proof {
            t = t + 1;
        }
    }
    proof {
        assert(t as int == chunk_count(n as int, chunk as int)) by (nonlinear_arith)
            requires
                chunk > 0,
                0 <= t,
                t * chunk >= n,
                (t - 1) * chunk < n || t == 0,
                0 <= n,
                t == 0 ==> n == 0,
                chunk_count(n as int, chunk as int) == (n as int + chunk as int - 1) / chunk as int,
        ;
    }
    total
}

/// Assigns every row to its nearest centroid, block by block. Gives the
/// centroid and the distance of each row, and the total of the distances.
/// Vectors without components are all at distance zero from the first
/// centroid.
pub fn assign_clusters_fast<M: Fn(usize, usize) -> Vec<u32>, A: Fn(u32, u32) -> u32>(
    n: usize,
    d: usize,
    k: usize,
    threads: usize,
    distances_of: &M,
    sum: &A,
) -> (assigned: (Vec<usize>, Vec<u32>, u32))
    requires
        is_block(*distances_of, n as nat, k as nat),
        crate::float_ops::is_operation(*sum),
    ensures
        assigned.2 == (if d == 0 {
            0
        } else {
            total_objective(*sum, assigned.1@, objective_chunk(k as int))
        }),
        assigned.0@.len() == n,
        assigned.1@.len() == n,
        d == 0 ==> forall|i: int|
            0 <= i < n ==> #[trigger] assigned.0@[i] == 0 && assigned.1@[i] == 0,
        d > 0 ==> forall|i: int|
            0 <= i < n ==> row_nearest(
                *distances_of,
                i,
                k as nat,
                #[trigger] assigned.0@[i],
                assigned.1@[i],
            ),
{
    let mut assignments: Vec<usize> = Vec::new();
    let mut objectives: Vec<u32> = Vec::new();
    if d == 0 {
        let mut i: usize = 0;
        while i < n
            invariant
                i <= n,
                assignments@.len() == i,
                objectives@.len() == i,
                forall|j: int|
                    0 <= j < i ==> #[trigger] assignments@[j] == 0 && objectives@[j] == 0,
            decreases n - i,
        {
            assignments.push(0);
            objectives.push(0);
            i = i + 1;
        }
        return (assignments, objectives, 0);
    }
    let (block_rows, _parallel): (usize, bool) = assignment_block_plan(n, d, k, threads, 0, 0);
    let mut start: usize = 0;
    while start < n
        invariant
            start <= n,
            block_rows > 0,
            is_block(*distances_of, n as nat, k as nat),
            assignments@.len() == start,
            objectives@.len() == start,
            forall|i: int|
                0 <= i < start ==> row_nearest(
                    *distances_of,
                    i,
                    k as nat,
                    #[trigger] assignments@[i],
                    objectives@[i],
                ),
        decreases n - start,
    {
        let rows: usize = smaller(block_rows, n - start);
        assign_block(start, rows, n, k, distances_of, &mut assignments, &mut objectives);
        start = start + rows;
    }
    let total: u32 = sum_objectives(objectives.as_slice(), objective_chunk_rows(k), sum);
    (assignments, objectives, total)
}

/// Rows assigned to a cluster.
pub open spec fn cluster_size(assignments: Seq<usize>, cluster: int) -> nat
    decreases assignments.len(),
{
    if assignments.len() == 0 {
        0
    } else {
        cluster_size(assignments.drop_last(), cluster) + (if assignments.last() == cluster {
            1nat
        } else {
            0nat
        })
    }
}

/// A cluster has no more rows than there are.
pub proof fn lemma_cluster_size_fits(assignments: Seq<usize>, cluster: int)
    ensures
        cluster_size(assignments, cluster) <= assignments.len(),
    decreases assignments.len(),
{
    if assignments.len() > 0 {
        lemma_cluster_size_fits(assignments.drop_last(), cluster);
    }
}

/// The size of each cluster. Rows that are not assigned to one do not count.
pub fn cluster_sizes(assignments: &[usize], k: usize) -> (sizes: Vec<usize>)
    ensures
        sizes@.len() == k,
        forall|c: int|
            0 <= c < k ==> #[trigger] sizes@[c] == cluster_size(assignments@, c),
{
    let mut sizes: Vec<usize> = Vec::new();
    let mut c: usize = 0;
    while c < k
        invariant
            c <= k,
            sizes@.len() == c,
            forall|b: int| 0 <= b < c ==> #[trigger] sizes@[b] == 0,
        decreases k - c,
    {
        sizes.push(0);
        c = c + 1;
    }
    let total: usize = assignments.len();
    let mut i: usize = 0;
    while i < total
        invariant
            i <= total,
            total == assignments@.len(),
            sizes@.len() == k,
            forall|c: int|
                0 <= c < k ==> #[trigger] sizes@[c] == cluster_size(
                    assignments@.take(i as int),
                    c,
                ),
        decreases total - i,
    {
        let a: usize = assignments[i];
        let ghost before = sizes@;
        proof {
            assert(assignments@.take(i + 1).drop_last() =~= assignments@.take(i as int));
            assert(assignments@.take(i + 1).last() == a);
        }
        if a < k {
            proof {
                lemma_cluster_size_fits(assignments@.take(i as int), a as int);
                let _ = sizes@[a as int];
            }
            let size: usize = sizes[a];
            sizes.set(a, size + 1);
        }
        assert forall|c: int| 0 <= c < k implies #[trigger] sizes@[c] == cluster_size(
            assignments@.take(i + 1),
            c,
        ) by {
            assert(before[c] == cluster_size(assignments@.take(i as int), c));
        }
        i = i + 1;
    }
    assert(assignments@.take(total as int) =~= assignments@);
    sizes
}

/// A block of distances that depend on the sizes of the clusters.
pub open spec fn is_balanced_block<M: Fn(usize, usize, Vec<usize>) -> Vec<u32>>(
    distances_of: M,
    n: nat,
    k: nat,
) -> bool {
    &&& forall|start: usize, rows: usize, sizes: Vec<usize>|
        start + rows <= n && sizes@.len() == k ==> #[trigger] call_requires(
            distances_of,
            (start, rows, sizes),
        )
    &&& forall|start: usize, rows: usize, sizes: Vec<usize>, matrix: Vec<u32>| #[trigger]
        call_ensures(distances_of, (start, rows, sizes), matrix) ==> matrix@.len() == rows * k
}

/// Rows of a chunk of a balanced assignment.
pub open spec fn balanced_chunk(n: int, k: int) -> int {
    if n * k > MAX_MATRIX_ELEMS {
        MAX_MATRIX_ELEMS as int / k
    } else {
        n
    }
}

/// The first row of the chunk that row `i` is in, and the end of that chunk.
pub open spec fn chunk_of(i: int, chunk: int, n: int) -> (int, int) {
    let start = i / chunk * chunk;
    (start, crate::kmeans_plan::min_of(start + chunk, n))
}

/// Row `i` is assigned to its nearest centroid by distances that take the
/// clusters' sizes into account: those that the rows of its chunk had before.
pub open spec fn row_balanced<M: Fn(usize, usize, Vec<usize>) -> Vec<u32>>(
    distances_of: M,
    i: int,
    start: int,
    end: int,
    k: nat,
    before: Seq<usize>,
    assigned: usize,
    objective: u32,
) -> bool {
    exists|sizes: Vec<usize>, matrix: Vec<u32>|
        {
            let values = crate::batch_nearest::matrix_row(matrix@, i - start, k as int);
            &&& #[trigger] call_ensures(
                distances_of,
                (start as usize, (end - start) as usize, sizes),
                matrix,
            )
            &&& sizes@.len() == k
            &&& forall|c: int|
                0 <= c < k ==> #[trigger] sizes@[c] == cluster_size(before.subrange(start, end), c)
            &&& crate::pq::is_argmin(values, assigned as int)
            &&& objective == row_objective(values, assigned as int)
        }
}

/// Assigns the rows of one chunk by balanced distances.
fn assign_balanced_chunk<M: Fn(usize, usize, Vec<usize>) -> Vec<u32>>(
    start: usize,
    end: usize,
    n: usize,
    k: usize,
    distances_of: &M,
    before: &Vec<usize>,
    assignments: &mut Vec<usize>,
    objectives: &mut Vec<u32>,
)
    requires
        start <= end <= n,
        before@.len() == n,
        is_balanced_block(*distances_of, n as nat, k as nat),
        old(assignments)@.len() == start,
        old(objectives)@.len() == start,
    ensures
        final(assignments)@.len() == end,
        final(objectives)@.len() == end,
        forall|i: int|
            0 <= i < start ==> #[trigger] final(assignments)@[i] == old(assignments)@[i],
        forall|i: int| 0 <= i < start ==> #[trigger] final(objectives)@[i] == old(objectives)@[i],
        forall|i: int|
            start <= i < end ==> row_balanced(
                *distances_of,
                i,
                start as int,
                end as int,
                k as nat,
                before@,
                #[trigger] final(assignments)@[i],
                final(objectives)@[i],
            ),
{
    let ghost old_assignments = assignments@;
    let ghost old_objectives = objectives@;
    let sizes = cluster_sizes(slice_subrange(before.as_slice(), start, end), k);
    let ghost counted = sizes;
    let rows: usize = end - start;
    let matrix: Vec<u32> = distances_of(start, rows, sizes);
    assert(call_ensures(*distances_of, (start, rows, counted), matrix));
    let size: usize = matrix.len();
    let mut p: usize = 0;
    while p < rows
        invariant
            p <= rows,
            rows == end - start,
            start <= end <= n,
            before@.len() == n,
            call_ensures(*distances_of, (start, rows, counted), matrix),
            size == matrix@.len() == rows * k,
            counted@.len() == k,
            forall|c: int|
                0 <= c < k ==> #[trigger] counted@[c] == cluster_size(
                    before@.subrange(start as int, end as int),
                    c,
                ),
            assignments@.len() == start + p,
            objectives@.len() == start + p,
            old_assignments.len() == start,
            old_objectives.len() == start,
            forall|i: int| 0 <= i < start ==> #[trigger] assignments@[i] == old_assignments[i],
            forall|i: int| 0 <= i < start ==> #[trigger] objectives@[i] == old_objectives[i],
            forall|i: int|
                start <= i < start + p ==> row_balanced(
                    *distances_of,
                    i,
                    start as int,
                    end as int,
                    k as nat,
                    before@,
                    #[trigger] assignments@[i],
                    objectives@[i],
                ),
        decreases rows - p,
    {
        proof {
            assert(p * k + k <= rows * k) by (nonlinear_arith)
                requires
                    p + 1 <= rows,
            ;
            assert(0 <= p * k) by (nonlinear_arith);
        }
        let first: usize = p * k;
        let values: &[u32] = slice_subrange(matrix.as_slice(), first, first + k);
        let (best, objective): (usize, u32) = assign_row(values);
        assignments.push(best);
        objectives.push(objective);
        proof {
            assert(values@ == crate::batch_nearest::matrix_row(
                matrix@,
                (start + p) - start,
                k as int,
            ));
            assert(call_ensures(
                *distances_of,
                (start as int as usize, (end as int - start as int) as usize, counted),
                matrix,
            ));
            assert(row_balanced(
                *distances_of,
                start + p,
                start as int,
                end as int,
                k as nat,
                before@,
                best,
                objective,
            ));
        }
        p = p + 1;
    }
}

/// Assigns every row by distances that penalise large clusters. The sizes are
/// those of the assignments before, counted chunk by chunk. The distances are
/// added up over the same chunks.
pub fn assign_clusters_balanced_serial<
    M: Fn(usize, usize, Vec<usize>) -> Vec<u32>,
    A: Fn(u32, u32) -> u32,
>(n: usize, k: usize, distances_of: &M, before: &Vec<usize>, sum: &A) -> (assigned: (
    Vec<usize>,
    Vec<u32>,
    u32,
))
    requires
        before@.len() == n,
        n * k <= usize::MAX,
        n * k > MAX_MATRIX_ELEMS ==> k <= MAX_MATRIX_ELEMS,
        is_balanced_block(*distances_of, n as nat, k as nat),
        crate::float_ops::is_operation(*sum),
    ensures
        assigned.0@.len() == n,
        assigned.1@.len() == n,
        assigned.2 == total_objective(*sum, assigned.1@, balanced_chunk(n as int, k as int)),
        forall|i: int|
            0 <= i < n ==> {
                let (start, end) = chunk_of(i, balanced_chunk(n as int, k as int), n as int);
                row_balanced(
                    *distances_of,
                    i,
                    start,
                    end,
                    k as nat,
                    before@,
                    #[trigger] assigned.0@[i],
                    assigned.1@[i],
                )
            },
{
    let mut assignments: Vec<usize> = Vec::new();
    let mut objectives: Vec<u32> = Vec::new();
    if n == 0 {
        return (assignments, objectives, 0);
    }
    let chunk: usize = if n * k > MAX_MATRIX_ELEMS {
        assert(k > 0) by (nonlinear_arith)
            requires
                n * k > 0,
        ;
        MAX_MATRIX_ELEMS / k
    } else {
        n
    };
    proof {
        assert(n * k > MAX_MATRIX_ELEMS ==> chunk >= 1) by (nonlinear_arith)
            requires
                n * k > MAX_MATRIX_ELEMS ==> chunk == MAX_MATRIX_ELEMS as int / k as int,
                n * k > MAX_MATRIX_ELEMS ==> 0 < k <= MAX_MATRIX_ELEMS,
        ;
    }
    let mut start: usize = 0;
    let ghost mut t: int = 0;
    while start < n
        invariant
            start <= n,
            0 < chunk,
            chunk == balanced_chunk(n as int, k as int),
            before@.len() == n,
            is_balanced_block(*distances_of, n as nat, k as nat),
            0 <= t,
            start == crate::kmeans_plan::min_of(t * chunk, n as int),
            assignments@.len() == start,
            objectives@.len() == start,
            forall|i: int|
                0 <= i < start ==> {
                    let (from, to) = chunk_of(i, chunk as int, n as int);
                    row_balanced(
                        *distances_of,
                        i,
                        from,
                        to,
                        k as nat,
                        before@,
                        #[trigger] assignments@[i],
                        objectives@[i],
                    )
                },
        decreases n - start,
    {
        let rows: usize = smaller(chunk, n - start);
        let ghost old_assignments = assignments@;
        let ghost old_objectives = objectives@;
        assign_balanced_chunk(
            start,
            start + rows,
            n,
            k,
            distances_of,
            before,
            &mut assignments,
            &mut objectives,
        );
        proof {
            assert((t + 1) * chunk == t * chunk + chunk) by (nonlinear_arith);
            assert forall|i: int| 0 <= i < start + rows implies ({
                let (from, to) = chunk_of(i, chunk as int, n as int);
                row_balanced(
                    *distances_of,
                    i,
                    from,
                    to,
                    k as nat,
                    before@,
                    #[trigger] assignments@[i],
                    objectives@[i],
                )
            }) by {
                if i < start {
                    assert(assignments@[i] == old_assignments[i]);
                    assert(objectives@[i] == old_objectives[i]);
                } else {
                    assert(i / chunk as int == t) by (nonlinear_arith)
                        requires
                            t * chunk <= i < t * chunk + chunk,
                            0 < chunk,
                    ;
                }
            }
            t = t + 1;
        }
        start = start + rows;
    }
    let total: u32 = sum_objectives(objectives.as_slice(), chunk, sum);
    (assignments, objectives, total)
}

/// The last of the largest sizes.
pub open spec fn is_donor(counts: Seq<usize>, donor: int) -> bool {
    &&& 0 <= donor < counts.len()
    &&& forall|c: int| 0 <= c < counts.len() ==> #[trigger] counts[c] <= counts[donor]
    &&& forall|c: int| donor < c < counts.len() ==> #[trigger] counts[c] < counts[donor]
}

pub fn largest_cluster(counts: &Vec<usize>) -> (donor: usize)
    requires
        counts@.len() > 0,
    ensures
        is_donor(counts@, donor as int),
{
    let k: usize = counts.len();
    let mut donor: usize = 0;
    let mut c: usize = 1;
    while c < k
        invariant
            1 <= c <= k,
            k == counts@.len(),
            donor < c,
            forall|b: int| 0 <= b < c ==> #[trigger] counts@[b] <= counts@[donor as int],
            forall|b: int| donor < b < c ==> #[trigger] counts@[b] < counts@[donor as int],
        decreases k - c,
    {
        if counts[c] >= counts[donor] {
            donor = c;
        }
        c = c + 1;
    }
    donor
}

/// Where the centroid of an empty cluster comes from.
#[derive(Debug, Clone, Copy, PartialEq, Eq, Structural)]
pub enum Reseed {
    /// A random row.
    Row(usize),
    /// Half of another cluster, whose centroid is pushed apart from its own.
    Split(usize),
}

/// A cluster that gets a new centroid, and from where.
#[derive(Debug, Clone, Copy, PartialEq, Eq, Structural)]
pub struct Reseeding {
    pub cluster: usize,
    pub from: Reseed,
}

/// The sizes after a cluster gave half of its rows to another.
pub open spec fn halved(counts: Seq<usize>, donor: int, to: int) -> Seq<usize> {
    let given = (counts[donor] / 2) as usize;
    counts.update(to, given).update(donor, (counts[donor] - given) as usize)
}

/// Sizes and what was done, after each cluster below `upto` was looked at in
/// turn. An empty one takes half of the largest, or a row if the largest has no
/// two.
pub open spec fn is_reseed_trace(
    start: Seq<usize>,
    upto: nat,
    n: nat,
    trace: Seq<(Seq<usize>, Seq<Reseeding>)>,
) -> bool {
    &&& trace.len() == upto + 1
    &&& trace[0] == (start, Seq::<Reseeding>::empty())
    &&& forall|c: int|
        0 <= c < upto ==> #[trigger] reseed_step(
            trace[c].0,
            c,
            n,
            trace[c].1,
            trace[c + 1].1,
            trace[c + 1].0,
        )
}

/// What was done and which sizes are left.
pub open spec fn reseeds(
    start: Seq<usize>,
    upto: nat,
    n: nat,
    done: Seq<Reseeding>,
    counts: Seq<usize>,
) -> bool {
    exists|trace: Seq<(Seq<usize>, Seq<Reseeding>)>| #[trigger]
        is_reseed_trace(start, upto, n, trace) && trace.last() == (counts, done)
}

/// One cluster is looked at.
pub open spec fn reseed_step(
    before: Seq<usize>,
    c: int,
    n: nat,
    earlier: Seq<Reseeding>,
    done: Seq<Reseeding>,
    counts: Seq<usize>,
) -> bool {
    if before[c] > 0 {
        done == earlier && counts == before
    } else {
        &&& done.len() == earlier.len() + 1
        &&& done.drop_last() == earlier
        &&& done.last().cluster == c
        &&& match done.last().from {
            Reseed::Row(row) => {
                &&& row < n
                &&& counts == before
                &&& forall|b: int| 0 <= b < before.len() ==> #[trigger] before[b] <= 1
            },
            Reseed::Split(donor) => {
                &&& is_donor(before, donor as int)
                &&& before[donor as int] > 1
                &&& counts == halved(before, donor as int, c)
            },
        }
    }
}

/// Gives every empty cluster a new centroid, in turn. Returns what was done and
/// leaves the sizes as they are then.
pub fn plan_reseeds(counts: &mut Vec<usize>, n: usize, rng: &mut StdRng) -> (done: Vec<Reseeding>)
    requires
        n > 0,
    ensures
        final(counts)@.len() == old(counts)@.len(),
        reseeds(old(counts)@, old(counts)@.len(), n as nat, done@, final(counts)@),
{
    let ghost start = counts@;
    let k: usize = counts.len();
    let mut done: Vec<Reseeding> = Vec::new();
    let ghost mut trace: Seq<(Seq<usize>, Seq<Reseeding>)> = seq![(start, done@)];
    let mut c: usize = 0;
    while c < k
        invariant
            c <= k,
            n > 0,
            k == counts@.len() == start.len(),
            is_reseed_trace(start, c as nat, n as nat, trace),
            trace.last() == (counts@, done@),
        decreases k - c,
    {
        let ghost before = counts@;
        let ghost earlier = done@;
        if counts[c] == 0 {
            let donor: usize = largest_cluster(counts);
            let size: usize = counts[donor];
            if size <= 1 {
                let row: usize = draw_between(rng, 0, n);
                done.push(Reseeding { cluster: c, from: Reseed::Row(row) });
            } else {
                let given: usize = size / 2;
                counts.set(c, given);
                counts.set(donor, size - given);
                done.push(Reseeding { cluster: c, from: Reseed::Split(donor) });
                assert(counts@ =~= halved(before, donor as int, c as int));
            }
            assert(done@.drop_last() =~= earlier);
        }
        proof {
            assert(reseed_step(before, c as int, n as nat, earlier, done@, counts@));
            let next = trace.push((counts@, done@));
            assert forall|b: int| 0 <= b < c + 1 implies #[trigger] reseed_step(
                next[b].0,
                b,
                n as nat,
                next[b].1,
                next[b + 1].1,
                next[b + 1].0,
            ) by {
                if b < c {
                    assert(reseed_step(
                        trace[b].0,
                        b,
                        n as nat,
                        trace[b].1,
                        trace[b + 1].1,
                        trace[b + 1].0,
                    ));
                }
            }
            trace = next;
        }
        c = c + 1;
    }
    done
}

/// The rows of all clusters.
pub open spec fn total_count(counts: Seq<usize>) -> nat
    decreases counts.len(),
{
    if counts.len() == 0 {
        0
    } else {
        total_count(counts.drop_last()) + counts.last() as nat
    }
}

proof fn lemma_total_of_update(counts: Seq<usize>, i: int, value: usize)
    requires
        0 <= i < counts.len(),
    ensures
        total_count(counts.update(i, value)) == total_count(counts) - counts[i] + value,
    decreases counts.len(),
{
    let changed = counts.update(i, value);
    if i == counts.len() - 1 {
        assert(changed.drop_last() =~= counts.drop_last());
    } else {
        lemma_total_of_update(counts.drop_last(), i, value);
        assert(changed.drop_last() =~= counts.drop_last().update(i, value));
    }
}

/// Reseeding loses no row, and leaves a cluster empty only where no other has
/// two rows.
pub proof fn law_reseeding_conserves_rows(
    start: Seq<usize>,
    upto: nat,
    n: nat,
    done: Seq<Reseeding>,
    counts: Seq<usize>,
)
    requires
        upto <= start.len(),
        reseeds(start, upto, n, done, counts),
    ensures
        counts.len() == start.len(),
        total_count(counts) == total_count(start),
        forall|c: int|
            0 <= c < upto && #[trigger] counts[c] == 0 ==> forall|b: int|
                0 <= b < counts.len() ==> #[trigger] counts[b] <= 1,
{
    let trace = choose|trace: Seq<(Seq<usize>, Seq<Reseeding>)>| #[trigger]
        is_reseed_trace(start, upto, n, trace) && trace.last() == (counts, done);
    lemma_trace_conserves_rows(start, upto, n, trace, upto);
}

proof fn lemma_trace_conserves_rows(
    start: Seq<usize>,
    upto: nat,
    n: nat,
    trace: Seq<(Seq<usize>, Seq<Reseeding>)>,
    at: nat,
)
    requires
        at <= upto <= start.len(),
        is_reseed_trace(start, upto, n, trace),
    ensures
        trace[at as int].0.len() == start.len(),
        total_count(trace[at as int].0) == total_count(start),
        forall|c: int|
            0 <= c < at && #[trigger] trace[at as int].0[c] == 0 ==> forall|b: int|
                0 <= b < start.len() ==> #[trigger] trace[at as int].0[b] <= 1,
    decreases at,
{
    if at > 0 {
        let c = at - 1;
        lemma_trace_conserves_rows(start, upto, n, trace, c as nat);
        let before = trace[c].0;
        let counts = trace[c + 1].0;
        let done = trace[c + 1].1;
        assert(reseed_step(before, c, n, trace[c].1, done, counts));
        if before[c] == 0 {
            match done.last().from {
                Reseed::Row(row) => {},
                Reseed::Split(donor) => {
                    let d = donor as int;
                    let given = (before[d] / 2) as usize;
                    lemma_total_of_update(before, c, given);
                    lemma_total_of_update(before.update(c, given), d, (before[d] - given) as usize);
                    assert forall|x: int| 0 <= x < at && #[trigger] counts[x] == 0 implies forall|
                        b: int,
                    |
                        0 <= b < counts.len() ==> #[trigger] counts[b] <= 1 by {
                        assert(before[x] == 0);
                        assert(x < c);
                        assert(before[d] <= 1);
                    }
                },
            }
        }
    }
}

/// The first place where the running total reaches the target; the last place
/// if none does.
pub open spec fn is_reached(totals: Seq<u32>, target: u32, place: int) -> bool {
    &&& 0 <= place < totals.len()
    &&& forall|i: int|
        0 <= i < place ==> !crate::certified::at_most(target, #[trigger] totals[i])
    &&& place == totals.len() - 1 || crate::certified::at_most(target, totals[place])
}

/// Choosing initial centroids one by one, each with a probability that grows
/// with its distance from those chosen before.
pub struct SeedChoice {
    chosen: Vec<usize>,
    nearest: Vec<u32>,
}

impl SeedChoice {
    /// The rows chosen so far.
    pub closed spec fn rows(self) -> Seq<usize> {
        self.chosen@
    }

    /// The distance of each row to the nearest one chosen.
    pub closed spec fn distances(self) -> Seq<u32> {
        self.nearest@
    }

    /// All rows chosen are rows of the data.
    pub open spec fn well_formed(self) -> bool {
        &&& self.rows().len() > 0
        &&& forall|i: int|
            0 <= i < self.rows().len() ==> #[trigger] self.rows()[i] < self.distances().len()
    }

    /// Begins with a random one of `n` rows.
    pub fn begin(n: usize, rng: &mut StdRng) -> (choice: Self)
        requires
            n > 0,
        ensures
            choice.well_formed(),
            choice.rows().len() == 1,
            choice.distances() == Seq::new(n as nat, |i: int| MAX_DISTANCE),
    {
        let first: usize = draw_between(rng, 0, n);
        let mut chosen: Vec<usize> = Vec::new();
        chosen.push(first);
        let mut nearest: Vec<u32> = Vec::new();
        let mut i: usize = 0;
        while i < n
            invariant
                i <= n,
                nearest@ == Seq::new(i as nat, |j: int| MAX_DISTANCE),
            decreases n - i,
        {
            nearest.push(MAX_DISTANCE);
            assert(nearest@ =~= Seq::new((i + 1) as nat, |j: int| MAX_DISTANCE));
            i = i + 1;
        }
        SeedChoice { chosen, nearest }
    }

    /// Takes in the distances of all rows to the one chosen last.
    pub fn observe(&mut self, distances: &[u32])
        requires
            old(self).well_formed(),
            distances@.len() == old(self).distances().len(),
        ensures
            final(self).well_formed(),
            final(self).rows() == old(self).rows(),
            final(self).distances() == Seq::new(
                distances@.len(),
                |i: int|
                    if crate::order::less(distances@[i], old(self).distances()[i]) {
                        distances@[i]
                    } else {
                        old(self).distances()[i]
                    },
            ),
    {
        let ghost start = self.nearest@;
        let ghost chosen = self.chosen@;
        let n: usize = distances.len();
        let mut i: usize = 0;
        while i < n
            invariant
                i <= n,
                n == distances@.len() == start.len(),
                self.chosen@ == chosen,
                self.nearest@ == Seq::new(
                    n as nat,
                    |j: int|
                        if j < i && crate::order::less(distances@[j], start[j]) {
                            distances@[j]
                        } else {
                            start[j]
                        },
                ),
            decreases n - i,
        {
            let distance: u32 = distances[i];
            let ghost before = self.nearest@;
            if float_less(distance, self.nearest[i]) {
                self.nearest.set(i, distance);
            }
            assert(self.nearest@ =~= Seq::new(
                n as nat,
                |j: int|
                    if j < i + 1 && crate::order::less(distances@[j], start[j]) {
                        distances@[j]
                    } else {
                        start[j]
                    },
            ));
            i = i + 1;
        }
        assert(self.nearest@ =~= Seq::new(
            distances@.len(),
            |i: int|
                if crate::order::less(distances@[i], start[i]) {
                    distances@[i]
                } else {
                    start[i]
                },
        ));
    }

    /// The distance of each row to the nearest one chosen.
    pub fn nearest(&self) -> (nearest: &[u32])
        ensures
            nearest@ == self.distances(),
    {
        self.nearest.as_slice()
    }

    /// The row chosen last.
    pub fn last_chosen(&self) -> (row: usize)
        requires
            self.well_formed(),
        ensures
            row == self.rows().last(),
            row < self.distances().len(),
    {
        let row: usize = self.chosen[self.chosen.len() - 1];
        assert(row == self.rows()[self.rows().len() - 1]);
        row
    }

    /// Chooses the row at which the running totals of the distances reach the
    /// target.
    pub fn choose_row(&mut self, totals: &[u32], target: u32)
        requires
            old(self).well_formed(),
            totals@.len() == old(self).distances().len(),
        ensures
            final(self).well_formed(),
            final(self).distances() == old(self).distances(),
            final(self).rows().len() == old(self).rows().len() + 1,
            final(self).rows().drop_last() == old(self).rows(),
            is_reached(totals@, target, final(self).rows().last() as int),
    {
        let n: usize = totals.len();
        let ghost before = self.chosen@;
        proof {
            assert(before[0] < n);
        }
        let mut place: usize = 0;
        while place < n - 1 && !(!float_is_nan(target) && !float_is_nan(totals[place])
            && float_key(target) <= float_key(totals[place]))
            invariant
                0 < n,
                place <= n - 1,
                n == totals@.len(),
                forall|i: int|
                    0 <= i < place ==> !crate::certified::at_most(target, #[trigger] totals@[i]),
            decreases n - place,
        {
            place = place + 1;
        }
        self.chosen.push(place);
        assert(self.chosen@.drop_last() =~= before);
    }

    /// The rows chosen.
    pub fn into_rows(self) -> (rows: Vec<usize>)
        ensures
            rows@ == self.rows(),
    {
        self.chosen
    }
}

/// A new random row for each cluster without weight.
pub fn draw_replacements(weights: &[u32], n: usize, rng: &mut StdRng) -> (rows: Vec<Option<usize>>)
    requires
        n > 0,
    ensures
        rows@.len() == weights@.len(),
        forall|c: int|
            0 <= c < rows@.len() ==> (#[trigger] rows@[c] is None <==> crate::order::less(
                0,
                weights@[c],
            )),
        forall|c: int|
            0 <= c < rows@.len() ==> (#[trigger] rows@[c] matches Some(row) ==> row < n),
{
    let k: usize = weights.len();
    let mut rows: Vec<Option<usize>> = Vec::new();
    let mut c: usize = 0;
    while c < k
        invariant
            c <= k,
            n > 0,
            k == weights@.len(),
            rows@.len() == c,
            forall|b: int|
                0 <= b < c ==> (#[trigger] rows@[b] is None <==> crate::order::less(
                    0,
                    weights@[b],
                )),
            forall|b: int|
                0 <= b < c ==> (#[trigger] rows@[b] matches Some(row) ==> row < n),
        decreases k - c,
    {
        if float_less(0, weights[c]) {
            rows.push(None);
        } else {
            let row: usize = draw_between(rng, 0, n);
            rows.push(Some(row));
        }
        c = c + 1;
    }
    rows
}

} // verus!
