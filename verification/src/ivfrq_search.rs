//! Searching inverted lists of residual-quantized rows: the two-stage block
//! scan and what it counts.
use crate::arith::saturating_product;
use crate::filter::{is_row_allowed, RowIdFilter};
use crate::pruned::offer_one;
use crate::rq::RQ_SCAN_BLOCK_SIZE;
use crate::topk::{Neighbor, TopKHeap};
use vstd::prelude::*;

verus! {

/// Fewest padded dimensions for which blocks are scanned by quantized tables.
pub const FASTSCAN_MIN_PADDED_DIMENSION: usize = 256;

/// What a search counted.
#[derive(Debug, Clone, Copy, PartialEq, Eq, Structural)]
pub struct IVFRQSearchStats {
    pub query_count: usize,
    pub scanned_vectors: usize,
    pub eligible_vectors: usize,
    pub coarse_distance_evaluations: usize,
    pub refined_vectors: usize,
    pub refined_coarse_byte_lookups: usize,
    pub extra_plane_byte_lookups: usize,
    pub final_distance_evaluations: usize,
    pub heap_admissions: usize,
    pub fastscan_blocks: usize,
    pub scalar_blocks: usize,
    pub seeded_lists: usize,
    pub parallel_list_tasks: usize,
}

/// Nothing counted yet.
pub open spec fn no_stats() -> IVFRQSearchStats {
    IVFRQSearchStats {
        query_count: 0,
        scanned_vectors: 0,
        eligible_vectors: 0,
        coarse_distance_evaluations: 0,
        refined_vectors: 0,
        refined_coarse_byte_lookups: 0,
        extra_plane_byte_lookups: 0,
        final_distance_evaluations: 0,
        heap_admissions: 0,
        fastscan_blocks: 0,
        scalar_blocks: 0,
        seeded_lists: 0,
        parallel_list_tasks: 0,
    }
}

impl Default for IVFRQSearchStats {
    fn default() -> (stats: Self)
        ensures
            stats == no_stats(),
    {
        IVFRQSearchStats {
            query_count: 0,
            scanned_vectors: 0,
            eligible_vectors: 0,
            coarse_distance_evaluations: 0,
            refined_vectors: 0,
            refined_coarse_byte_lookups: 0,
            extra_plane_byte_lookups: 0,
            final_distance_evaluations: 0,
            heap_admissions: 0,
            fastscan_blocks: 0,
            scalar_blocks: 0,
            seeded_lists: 0,
            parallel_list_tasks: 0,
        }
    }
}

/// Saturating sum.
pub open spec fn plus(a: usize, b: usize) -> usize {
    crate::arith::sat_add(a as int, b as int) as usize
}

/// The counts of two searches together; a count that would overflow stays at
/// the largest value.
pub open spec fn merged(a: IVFRQSearchStats, b: IVFRQSearchStats) -> IVFRQSearchStats {
    IVFRQSearchStats {
        query_count: plus(a.query_count, b.query_count),
        scanned_vectors: plus(a.scanned_vectors, b.scanned_vectors),
        eligible_vectors: plus(a.eligible_vectors, b.eligible_vectors),
        coarse_distance_evaluations: plus(
            a.coarse_distance_evaluations,
            b.coarse_distance_evaluations,
        ),
        refined_vectors: plus(a.refined_vectors, b.refined_vectors),
        refined_coarse_byte_lookups: plus(
            a.refined_coarse_byte_lookups,
            b.refined_coarse_byte_lookups,
        ),
        extra_plane_byte_lookups: plus(a.extra_plane_byte_lookups, b.extra_plane_byte_lookups),
        final_distance_evaluations: plus(
            a.final_distance_evaluations,
            b.final_distance_evaluations,
        ),
        heap_admissions: plus(a.heap_admissions, b.heap_admissions),
        fastscan_blocks: plus(a.fastscan_blocks, b.fastscan_blocks),
        scalar_blocks: plus(a.scalar_blocks, b.scalar_blocks),
        seeded_lists: plus(a.seeded_lists, b.seeded_lists),
        parallel_list_tasks: plus(a.parallel_list_tasks, b.parallel_list_tasks),
    }
}

impl IVFRQSearchStats {
    /// Adds the counts of another search.
    pub fn merge(&mut self, other: Self)
        ensures
            *final(self) == merged(*old(self), other),
    {
        self.query_count = self.query_count.saturating_add(other.query_count);
        self.scanned_vectors = self.scanned_vectors.saturating_add(other.scanned_vectors);
        self.eligible_vectors = self.eligible_vectors.saturating_add(other.eligible_vectors);
        self.coarse_distance_evaluations = self.coarse_distance_evaluations.saturating_add(
            other.coarse_distance_evaluations,
        );
        self.refined_vectors = self.refined_vectors.saturating_add(other.refined_vectors);
        self.refined_coarse_byte_lookups = self.refined_coarse_byte_lookups.saturating_add(
            other.refined_coarse_byte_lookups,
        );
        self.extra_plane_byte_lookups = self.extra_plane_byte_lookups.saturating_add(
            other.extra_plane_byte_lookups,
        );
        self.final_distance_evaluations = self.final_distance_evaluations.saturating_add(
            other.final_distance_evaluations,
        );
        self.heap_admissions = self.heap_admissions.saturating_add(other.heap_admissions);
        self.fastscan_blocks = self.fastscan_blocks.saturating_add(other.fastscan_blocks);
        self.scalar_blocks = self.scalar_blocks.saturating_add(other.scalar_blocks);
        self.seeded_lists = self.seeded_lists.saturating_add(other.seeded_lists);
        self.parallel_list_tasks = self.parallel_list_tasks.saturating_add(
            other.parallel_list_tasks,
        );
    }
}

/// Merging does not depend on the order of the searches.
pub proof fn law_merge_is_commutative(a: IVFRQSearchStats, b: IVFRQSearchStats)
    ensures
        merged(a, b) == merged(b, a),
{
}

/// Merging does not depend on how the searches are grouped.
pub proof fn law_merge_is_associative(
    a: IVFRQSearchStats,
    b: IVFRQSearchStats,
    c: IVFRQSearchStats,
)
    ensures
        merged(merged(a, b), c) == merged(a, merged(b, c)),
{
}

/// Merging a search that counted nothing changes nothing.
pub proof fn law_merge_identity(a: IVFRQSearchStats)
    ensures
        merged(a, no_stats()) == a,
{
}

/// The layout of a list's codes.
#[derive(Debug, Clone, Copy, PartialEq, Eq, Structural)]
pub struct ScanShape {
    pub bits: usize,
    pub plane_size: usize,
    pub padded_d: usize,
}

/// Blocks of this shape can be scanned by quantized tables.
pub open spec fn fast_shape(shape: ScanShape, filtered: bool) -> bool {
    shape.bits > 1 && shape.padded_d >= FASTSCAN_MIN_PADDED_DIMENSION && !filtered
}

/// The row lies in a block that is scanned by quantized tables: only full
/// blocks are.
pub open spec fn fast_row(shape: ScanShape, filtered: bool, scan_end: int, row: int) -> bool {
    fast_shape(shape, filtered) && row / 32 * 32 + 32 <= scan_end
}

/// How many of the first `n` rows pass the filter.
pub open spec fn eligible_count(eligible: spec_fn(int) -> bool, n: nat) -> nat
    decreases n,
{
    if n == 0 {
        0
    } else {
        eligible_count(eligible, (n - 1) as nat) + (if eligible(n - 1) {
            1nat
        } else {
            0
        })
    }
}

/// How many of the taken rows lie in blocks scanned by quantized tables.
pub open spec fn fast_count(
    taken: Seq<usize>,
    shape: ScanShape,
    filtered: bool,
    scan_end: int,
) -> nat
    decreases taken.len(),
{
    if taken.len() == 0 {
        0
    } else {
        fast_count(taken.drop_last(), shape, filtered, scan_end) + (if fast_row(
            shape,
            filtered,
            scan_end,
            taken.last() as int,
        ) {
            1nat
        } else {
            0
        })
    }
}

/// The bound closure of a block scan: query, place of the list, row, and
/// whether the row's block is scanned by quantized tables.
pub open spec fn block_bounds<B: Fn(usize, usize, usize, bool) -> u32, A: Fn(usize, usize, usize) -> u32>(
    bound_of: B,
    approximate_of: A,
    query: usize,
    place: usize,
    shape: ScanShape,
    filtered: bool,
    scan_end: int,
) -> spec_fn(int, u32) -> bool {
    |p: int, bound: u32|
        call_ensures(
            bound_of,
            (query, place, p as usize, fast_row(shape, filtered, scan_end, p)),
            bound,
        ) || (fast_row(shape, filtered, scan_end, p) && call_ensures(
            approximate_of,
            (query, place, p as usize),
            bound,
        ))
}

/// The distances are those that the closure gives for the taken rows.
pub open spec fn measured<E: Fn(usize, usize, usize) -> u32>(
    distance_of: E,
    query: usize,
    place: usize,
    taken: Seq<usize>,
    distances: Seq<u32>,
) -> bool {
    &&& distances.len() == taken.len()
    &&& forall|i: int|
        0 <= i < taken.len() ==> call_ensures(
            distance_of,
            (query, place, #[trigger] taken[i]),
            distances[i],
        )
}

/// What block scans did.
pub struct Work {
    pub scanned: nat,
    pub eligible: nat,
    pub fast_blocks: nat,
    pub scalar_blocks: nat,
    pub refined: nat,
    pub taken: nat,
    pub fast_taken: nat,
    pub admitted: nat,
}

/// Nothing done.
pub open spec fn no_work() -> Work {
    Work {
        scanned: 0,
        eligible: 0,
        fast_blocks: 0,
        scalar_blocks: 0,
        refined: 0,
        taken: 0,
        fast_taken: 0,
        admitted: 0,
    }
}

/// What two scans did together.
pub open spec fn both(a: Work, b: Work) -> Work {
    Work {
        scanned: a.scanned + b.scanned,
        eligible: a.eligible + b.eligible,
        fast_blocks: a.fast_blocks + b.fast_blocks,
        scalar_blocks: a.scalar_blocks + b.scalar_blocks,
        refined: a.refined + b.refined,
        taken: a.taken + b.taken,
        fast_taken: a.fast_taken + b.fast_taken,
        admitted: a.admitted + b.admitted,
    }
}

/// Bytes that are looked up in the planes after the first, per row.
pub open spec fn extra_plane_bytes(shape: ScanShape) -> int {
    (shape.bits - 1) * shape.plane_size
}

/// The counts of block scans that did `work`.
pub open spec fn counts(
    before: IVFRQSearchStats,
    after: IVFRQSearchStats,
    shape: ScanShape,
    work: Work,
) -> bool {
    &&& after.query_count == before.query_count
    &&& after.seeded_lists == before.seeded_lists
    &&& after.parallel_list_tasks == before.parallel_list_tasks
    &&& after.scanned_vectors == crate::arith::sat_add(
        before.scanned_vectors as int,
        work.scanned as int,
    )
    &&& after.eligible_vectors == crate::arith::sat_add(
        before.eligible_vectors as int,
        work.eligible as int,
    )
    &&& after.coarse_distance_evaluations == crate::arith::sat_add(
        before.coarse_distance_evaluations as int,
        work.eligible as int,
    )
    &&& after.fastscan_blocks == crate::arith::sat_add(
        before.fastscan_blocks as int,
        work.fast_blocks as int,
    )
    &&& after.scalar_blocks == crate::arith::sat_add(
        before.scalar_blocks as int,
        work.scalar_blocks as int,
    )
    &&& after.heap_admissions == crate::arith::sat_add(
        before.heap_admissions as int,
        work.admitted as int,
    )
    &&& work.admitted <= work.taken
    &&& if shape.bits == 1 {
        &&& work.taken == work.eligible
        &&& work.refined == 0
        &&& work.fast_taken == 0
        &&& after.refined_vectors == before.refined_vectors
        &&& after.refined_coarse_byte_lookups == before.refined_coarse_byte_lookups
        &&& after.extra_plane_byte_lookups == before.extra_plane_byte_lookups
        &&& after.final_distance_evaluations == before.final_distance_evaluations
    } else {
        &&& work.fast_taken <= work.taken <= work.refined <= work.eligible
        &&& after.refined_vectors == crate::arith::sat_add(
            before.refined_vectors as int,
            work.refined as int,
        )
        &&& after.refined_coarse_byte_lookups == crate::arith::sat_add(
            before.refined_coarse_byte_lookups as int,
            work.fast_taken * shape.plane_size,
        )
        &&& after.extra_plane_byte_lookups == crate::arith::sat_add(
            before.extra_plane_byte_lookups as int,
            (work.refined + work.fast_taken) * extra_plane_bytes(shape),
        )
        &&& after.final_distance_evaluations == crate::arith::sat_add(
            before.final_distance_evaluations as int,
            work.taken as int,
        )
    }
}

/// Counting nothing changes nothing.
pub proof fn lemma_counts_nothing(stats: IVFRQSearchStats, shape: ScanShape)
    requires
        shape.bits >= 1,
    ensures
        counts(stats, stats, shape, no_work()),
{
    let extra = extra_plane_bytes(shape);
    assert(0 * extra == 0 && 0 * shape.plane_size == 0) by (nonlinear_arith);
}

/// The counts of one scan and then another are those of both.
pub proof fn law_counts_add_up(
    first: IVFRQSearchStats,
    second: IVFRQSearchStats,
    third: IVFRQSearchStats,
    shape: ScanShape,
    a: Work,
    b: Work,
)
    requires
        shape.bits >= 1,
        counts(first, second, shape, a),
        counts(second, third, shape, b),
    ensures
        counts(first, third, shape, both(a, b)),
{
    let extra = extra_plane_bytes(shape);
    assert(extra >= 0) by (nonlinear_arith)
        requires
            extra == (shape.bits - 1) * shape.plane_size,
            shape.bits >= 1,
    ;
    lemma_two_products(a.fast_taken as int, b.fast_taken as int, shape.plane_size as int);
    lemma_two_products(
        (a.refined + a.fast_taken) as int,
        (b.refined + b.fast_taken) as int,
        extra,
    );
    assert(both(a, b).refined + both(a, b).fast_taken == (a.refined + a.fast_taken) + (b.refined
        + b.fast_taken));
}

proof fn lemma_two_products(a: int, b: int, unit: int)
    requires
        0 <= a,
        0 <= b,
        0 <= unit,
    ensures
        (a + b) * unit == a * unit + b * unit,
        0 <= a * unit,
        0 <= b * unit,
{
    assert((a + b) * unit == a * unit + b * unit && 0 <= a * unit && 0 <= b * unit)
        by (nonlinear_arith)
        requires
            0 <= a,
            0 <= b,
            0 <= unit,
    ;
}

/// The rows, eligible rows and blocks of a scan of `rows` rows.
pub open spec fn scan_work(
    work: Work,
    shape: ScanShape,
    filtered: bool,
    rows: nat,
    eligible: nat,
) -> bool {
    let fast = if fast_shape(shape, filtered) {
        rows / 32
    } else {
        0
    };
    &&& work.scanned == rows
    &&& work.eligible == eligible
    &&& work.fast_blocks == fast
    &&& work.scalar_blocks == (rows + 31) / 32 - fast
}

/// A block scan of `scan_end` rows after its first `done` rows: it prunes by
/// the rows' bounds and counts its work.
pub open spec fn partial_scan<
    B: Fn(usize, usize, usize, bool) -> u32,
    A: Fn(usize, usize, usize) -> u32,
    E: Fn(usize, usize, usize) -> u32,
>(
    before: TopKHeap,
    after: TopKHeap,
    stats_before: IVFRQSearchStats,
    stats_after: IVFRQSearchStats,
    source: ScanSource,
    scan_end: nat,
    done: nat,
    bound_of: B,
    approximate_of: A,
    distance_of: E,
    taken: Seq<usize>,
    distances: Seq<u32>,
    work: Work,
) -> bool {
    &&& crate::pruned::pruned_scan(
        before,
        after,
        source.labels,
        source.eligible,
        block_bounds(
            bound_of,
            approximate_of,
            source.query,
            source.place,
            source.shape,
            source.filtered,
            scan_end as int,
        ),
        taken,
        distances,
        done,
    )
    &&& measured(distance_of, source.query, source.place, taken, distances)
    &&& counts(stats_before, stats_after, source.shape, work)
    &&& scan_work(
        work,
        source.shape,
        source.filtered,
        done,
        eligible_count(source.eligible, done),
    )
    &&& work.taken == taken.len()
    &&& work.fast_taken == fast_count(taken, source.shape, source.filtered, scan_end as int)
}

/// What a scan reads: the labels of a list's rows, which rows pass the
/// filter, and whose distances they are.
pub struct ScanSource {
    pub query: usize,
    pub place: usize,
    pub labels: Seq<i64>,
    pub eligible: spec_fn(int) -> bool,
    pub filtered: bool,
    pub shape: ScanShape,
}

/// The source of a scan.
pub open spec fn scan_source<F: RowIdFilter>(
    query: usize,
    place: usize,
    ids: Seq<i64>,
    labels: Seq<i64>,
    filter: Option<&F>,
    shape: ScanShape,
) -> ScanSource {
    ScanSource {
        query,
        place,
        labels,
        eligible: crate::pruned::eligible_rows(ids, filter),
        filtered: filter is Some,
        shape,
    }
}

/// A block scan of the first `scan_end` rows.
pub open spec fn blocked_scan<
    B: Fn(usize, usize, usize, bool) -> u32,
    A: Fn(usize, usize, usize) -> u32,
    E: Fn(usize, usize, usize) -> u32,
>(
    before: TopKHeap,
    after: TopKHeap,
    stats_before: IVFRQSearchStats,
    stats_after: IVFRQSearchStats,
    source: ScanSource,
    scan_end: nat,
    bound_of: B,
    approximate_of: A,
    distance_of: E,
    taken: Seq<usize>,
    distances: Seq<u32>,
    work: Work,
) -> bool {
    &&& partial_scan(
        before,
        after,
        stats_before,
        stats_after,
        source,
        scan_end,
        scan_end,
        bound_of,
        approximate_of,
        distance_of,
        taken,
        distances,
        work,
    )
    &&& has_trace(
        before,
        after,
        source,
        scan_end,
        bound_of,
        approximate_of,
        taken,
        distances,
        work,
    )
}

/// The rows were scanned one by one.
#[verifier::opaque]
pub open spec fn has_trace<
    B: Fn(usize, usize, usize, bool) -> u32,
    A: Fn(usize, usize, usize) -> u32,
>(
    before: TopKHeap,
    after: TopKHeap,
    source: ScanSource,
    scan_end: nat,
    bound_of: B,
    approximate_of: A,
    taken: Seq<usize>,
    distances: Seq<u32>,
    work: Work,
) -> bool {
    exists|moments: Seq<TopKHeap>, refined: Seq<bool>| #[trigger]
        traced(
            before,
            after,
            source,
            scan_end,
            scan_end,
            bound_of,
            approximate_of,
            taken,
            distances,
            work,
            moments,
            refined,
        )
}

/// The bounds of the rows' first planes, as a block gives them.
pub open spec fn first_bounds<B: Fn(usize, usize, usize, bool) -> u32>(
    bound_of: B,
    source: ScanSource,
    scan_end: int,
) -> spec_fn(int, u32) -> bool {
    |p: int, bound: u32|
        call_ensures(
            bound_of,
            (
                source.query,
                source.place,
                p as usize,
                fast_row(source.shape, source.filtered, scan_end, p),
            ),
            bound,
        )
}

/// The bounds of the rows' approximate distances.
pub open spec fn second_bounds<A: Fn(usize, usize, usize) -> u32>(
    approximate_of: A,
    source: ScanSource,
) -> spec_fn(int, u32) -> bool {
    |p: int, bound: u32|
        call_ensures(approximate_of, (source.query, source.place, p as usize), bound)
}

/// What becomes of a row. It is refined exactly if it is eligible and the
/// collection admits its first bound when its block begins; codes of one bit
/// have no such bound. A refined row is taken, except in a table-scanned block,
/// where it is taken exactly if the collection admits its second bound at that
/// moment.
pub open spec fn row_ruled(
    source: ScanSource,
    scan_end: int,
    first: spec_fn(int, u32) -> bool,
    second: spec_fn(int, u32) -> bool,
    taken: Seq<usize>,
    moments: Seq<TopKHeap>,
    refined: bool,
    p: int,
) -> bool {
    let fast = fast_row(source.shape, source.filtered, scan_end, p);
    let opening = moments[p / 32 * 32];
    let took = taken.contains(p as usize);
    &&& refined ==> (source.eligible)(p) && (source.shape.bits == 1 || crate::pruned::let_in(
        opening,
        first,
        p,
    ))
    &&& (source.eligible)(p) && !refined ==> source.shape.bits > 1 && crate::pruned::skipped(
        opening,
        first,
        p,
    )
    &&& took ==> refined && (!fast || crate::pruned::let_in(moments[p], second, p))
    &&& refined && !took ==> fast && crate::pruned::skipped(moments[p], second, p)
}

/// What becomes of a row by the bounds that functions give.
pub open spec fn row_decided<
    B: Fn(usize, usize, usize, bool) -> u32,
    A: Fn(usize, usize, usize) -> u32,
>(
    source: ScanSource,
    scan_end: int,
    bound_of: B,
    approximate_of: A,
    taken: Seq<usize>,
    moments: Seq<TopKHeap>,
    refined: bool,
    p: int,
) -> bool {
    row_ruled(
        source,
        scan_end,
        first_bounds(bound_of, source, scan_end),
        second_bounds(approximate_of, source),
        taken,
        moments,
        refined,
        p,
    )
}

/// How many of the first `n` offers entered the collection.
pub open spec fn admissions(
    moments: Seq<TopKHeap>,
    taken: Seq<usize>,
    distances: Seq<u32>,
    n: nat,
) -> nat
    decreases n,
{
    if n == 0 {
        0
    } else {
        let distance = distances[n - 1];
        admissions(moments, taken, distances, (n - 1) as nat) + (if !crate::order::is_nan(distance)
            && moments[taken[n - 1] as int].admits(distance) {
            1nat
        } else {
            0
        })
    }
}

/// The first `done` rows of a block scan one by one: which of them are refined,
/// and the states of the collection before and after each. The work counts the
/// refined rows and the offers that entered.
pub open spec fn traced<
    B: Fn(usize, usize, usize, bool) -> u32,
    A: Fn(usize, usize, usize) -> u32,
>(
    before: TopKHeap,
    after: TopKHeap,
    source: ScanSource,
    scan_end: nat,
    done: nat,
    bound_of: B,
    approximate_of: A,
    taken: Seq<usize>,
    distances: Seq<u32>,
    work: Work,
    moments: Seq<TopKHeap>,
    refined: Seq<bool>,
) -> bool {
    &&& distances.len() == taken.len()
    &&& crate::pruned::moments_of(before, after, source.labels, taken, distances, moments, done)
    &&& refined.len() == done
    &&& forall|p: int|
        0 <= p < done ==> row_decided(
            source,
            scan_end as int,
            bound_of,
            approximate_of,
            taken,
            moments,
            #[trigger] refined[p],
            p,
        )
    &&& work.refined == (if source.shape.bits == 1 {
        0
    } else {
        marked_count(refined, done)
    })
    &&& work.admitted == admissions(moments, taken, distances, taken.len())
}

proof fn lemma_admissions_agree(
    moments: Seq<TopKHeap>,
    taken: Seq<usize>,
    distances: Seq<u32>,
    more_moments: Seq<TopKHeap>,
    more: Seq<usize>,
    more_distances: Seq<u32>,
    n: nat,
)
    requires
        forall|i: int|
            0 <= i < n ==> #[trigger] taken[i] == more[i] && distances[i] == more_distances[i]
                && moments[taken[i] as int] == more_moments[taken[i] as int],
    ensures
        admissions(moments, taken, distances, n) == admissions(
            more_moments,
            more,
            more_distances,
            n,
        ),
    decreases n,
{
    if n > 0 {
        lemma_admissions_agree(
            moments,
            taken,
            distances,
            more_moments,
            more,
            more_distances,
            (n - 1) as nat,
        );
        assert(taken[n - 1] == more[n - 1]);
    }
}

proof fn lemma_marked_join(a: Seq<bool>, b: Seq<bool>, n: nat)
    requires
        n <= b.len(),
    ensures
        marked_count(a + b, a.len() + n) == marked_count(a, a.len()) + marked_count(b, n),
    decreases n,
{
    if n == 0 {
        lemma_marked_prefix(a, a + b, a.len());
    } else {
        lemma_marked_join(a, b, (n - 1) as nat);
        assert((a + b)[a.len() + n - 1] == b[n - 1]);
    }
}

/// One more block of a scan.
proof fn lemma_block_traced<
    B: Fn(usize, usize, usize, bool) -> u32,
    A: Fn(usize, usize, usize) -> u32,
>(
    before: TopKHeap,
    now: TopKHeap,
    after: TopKHeap,
    source: ScanSource,
    scan_end: nat,
    start: nat,
    bound_of: B,
    approximate_of: A,
    taken: Seq<usize>,
    distances: Seq<u32>,
    work: Work,
    moments: Seq<TopKHeap>,
    refined: Seq<bool>,
    marks: Seq<bool>,
    rows: Seq<usize>,
    dists: Seq<u32>,
    done: Work,
    later: Seq<TopKHeap>,
)
    requires
        start % 32 == 0,
        marks.len() <= 32,
        start + marks.len() <= usize::MAX,
        source.shape.bits >= 1,
        traced(
            before,
            now,
            source,
            scan_end,
            start,
            bound_of,
            approximate_of,
            taken,
            distances,
            work,
            moments,
            refined,
        ),
        dists.len() == rows.len(),
        taken.len() <= rows.len(),
        rows.take(taken.len() as int) == taken,
        forall|i: int|
            taken.len() <= i < rows.len() ==> start <= #[trigger] rows[i] < start + marks.len(),
        crate::pruned::moments_of(
            before,
            after,
            source.labels,
            rows,
            dists,
            later,
            start + marks.len(),
        ),
        later.take((start + 1) as int) == moments,
        forall|i: int|
            0 <= i < marks.len() ==> row_decided(
                source,
                scan_end as int,
                bound_of,
                approximate_of,
                rows,
                later,
                #[trigger] marks[i],
                start + i,
            ),
        done.refined == work.refined + (if source.shape.bits == 1 {
            0
        } else {
            marked_count(marks, marks.len())
        }),
        done.admitted == admissions(later, rows, dists, rows.len()),
    ensures
        traced(
            before,
            after,
            source,
            scan_end,
            start + marks.len(),
            bound_of,
            approximate_of,
            rows,
            dists,
            done,
            later,
            refined + marks,
        ),
{
    let all = refined + marks;
    assert forall|p: int| 0 <= p < start + marks.len() implies row_decided(
        source,
        scan_end as int,
        bound_of,
        approximate_of,
        rows,
        later,
        #[trigger] all[p],
        p,
    ) by {
        if p < start {
            assert(row_decided(
                source,
                scan_end as int,
                bound_of,
                approximate_of,
                taken,
                moments,
                refined[p],
                p,
            ));
            assert(later[p] == later.take((start + 1) as int)[p]);
            assert(later[p / 32 * 32] == later.take((start + 1) as int)[p / 32 * 32]);
            assert(rows.contains(p as usize) == taken.contains(p as usize)) by {
                if rows.contains(p as usize) {
                    let i = choose|i: int| 0 <= i < rows.len() && rows[i] == p as usize;
                    assert(i < taken.len());
                    assert(rows.take(taken.len() as int)[i] == p as usize);
                }
                if taken.contains(p as usize) {
                    let i = choose|i: int| 0 <= i < taken.len() && taken[i] == p as usize;
                    assert(rows.take(taken.len() as int)[i] == p as usize);
                    assert(rows[i] == p as usize);
                }
            }
        } else {
            assert(all[p] == marks[p - start]);
            assert(row_decided(
                source,
                scan_end as int,
                bound_of,
                approximate_of,
                rows,
                later,
                marks[p - start],
                start + (p - start),
            ));
        }
    }
    lemma_marked_join(refined, marks, marks.len());
}

/// Adding `count` more units to a saturating sum of `total` units.
proof fn lemma_units(base: int, total: int, count: int, unit: int)
    requires
        0 <= base <= usize::MAX,
        0 <= total,
        0 <= count,
        0 <= unit,
    ensures
        crate::arith::sat_add(
            crate::arith::sat_add(base, total * unit),
            crate::arith::sat_mul(count, unit),
        ) == crate::arith::sat_add(base, (total + count) * unit),
{
    assert((total + count) * unit == total * unit + count * unit && 0 <= total * unit && 0
        <= count * unit) by (nonlinear_arith)
        requires
            0 <= total,
            0 <= count,
            0 <= unit,
    ;
}

/// A saturating product of three factors.
proof fn lemma_product_of_three(a: int, b: int, c: int)
    requires
        0 <= a,
        0 <= b,
        1 <= c,
    ensures
        crate::arith::sat_mul(crate::arith::sat_mul(a, b), c) == crate::arith::sat_mul(a, b * c),
{
    assert(a * b * c == a * (b * c) && a * b <= a * b * c) by (nonlinear_arith)
        requires
            0 <= a,
            0 <= b,
            1 <= c,
    ;
    let most = usize::MAX as int;
    assert(most <= most * c) by (nonlinear_arith)
        requires
            1 <= c,
            0 <= most,
    ;
}

/// Rows of a list of `rows` rows that a limited scan visits.
pub open spec fn limited(rows: nat, vector_limit: nat) -> nat {
    if rows < vector_limit {
        rows
    } else {
        vector_limit
    }
}

/// Rows of the list that are scanned at most.
fn scan_length(rows: usize, vector_limit: usize) -> (end: usize)
    ensures
        end == limited(rows as nat, vector_limit as nat),
{
    if rows < vector_limit {
        rows
    } else {
        vector_limit
    }
}

/// Which rows of a block pass the filter, and how many.
fn mark_eligible<F: RowIdFilter>(
    ids: &[i64],
    filter: Option<&F>,
    start: usize,
    lanes: usize,
) -> (out: (Vec<bool>, usize))
    requires
        start + lanes <= ids@.len(),
    ensures
        out.0@.len() == lanes,
        forall|i: int|
            0 <= i < lanes ==> #[trigger] out.0@[i] == crate::pruned::eligible_rows(ids@, filter)(
                start + i,
            ),
        out.1 + eligible_count(crate::pruned::eligible_rows(ids@, filter), start as nat)
            == eligible_count(crate::pruned::eligible_rows(ids@, filter), (start + lanes) as nat),
{
    let ghost eligible = crate::pruned::eligible_rows(ids@, filter);
    let total: usize = ids.len();
    let mut marks: Vec<bool> = Vec::new();
    let mut count: usize = 0;
    let mut i: usize = 0;
    while i < lanes
        invariant
            i <= lanes,
            total == ids@.len(),
            start + lanes <= total,
            eligible == crate::pruned::eligible_rows(ids@, filter),
            marks@.len() == i,
            count <= i,
            forall|j: int| 0 <= j < i ==> #[trigger] marks@[j] == eligible(start + j),
            count + eligible_count(eligible, start as nat) == eligible_count(
                eligible,
                (start + i) as nat,
            ),
        decreases lanes - i,
    {
        let allowed: bool = is_row_allowed(filter, ids[start + i]);
        assert(allowed == eligible(start + i));
        marks.push(allowed);
        if allowed {
            count = count + 1;
        }
        i = i + 1;
    }
    (marks, count)
}

/// Which eligible rows of a block have a lower bound that the collection
/// admits, and how many.
fn mark_refined<B: Fn(usize, usize, usize, bool) -> u32>(
    allowed: &Vec<bool>,
    bound_of: &B,
    query: usize,
    place: usize,
    start: usize,
    fast: bool,
    heap: &TopKHeap,
) -> (out: (Vec<bool>, usize))
    requires
        heap.well_formed(),
        start + allowed@.len() <= usize::MAX,
        forall|p: usize| start <= p < start + allowed@.len() ==> call_requires(
                bound_of,
                (query, place, p, fast),
            ),
    ensures
        out.0@.len() == allowed@.len(),
        out.1 <= marked_count(allowed@, allowed@.len()),
        out.1 == marked_count(out.0@, allowed@.len()),
        forall|i: int| 0 <= i < allowed@.len() && #[trigger] out.0@[i] ==> allowed@[i],
        forall|i: int|
            0 <= i < allowed@.len() && allowed@[i] && !(#[trigger] out.0@[i]) ==> exists|bound: u32|
                #[trigger]
                call_ensures(bound_of, (query, place, (start + i) as usize, fast), bound)
                    && !heap.admits(bound),
        forall|i: int|
            0 <= i < allowed@.len() && #[trigger] out.0@[i] ==> exists|bound: u32| #[trigger]
                call_ensures(bound_of, (query, place, (start + i) as usize, fast), bound)
                    && heap.admits(bound),
{
    let mut marks: Vec<bool> = Vec::new();
    let mut count: usize = 0;
    let mut i: usize = 0;
    while i < allowed.len()
        invariant
            i <= allowed@.len(),
            heap.well_formed(),
            start + allowed@.len() <= usize::MAX,
            forall|p: usize|
                start <= p < start + allowed@.len() ==> call_requires(
                bound_of,
                (query, place, p, fast),
            ),
            marks@.len() == i,
            count <= i,
            count <= marked_count(allowed@, i as nat),
            count == marked_count(marks@, i as nat),
            forall|j: int| 0 <= j < i && #[trigger] marks@[j] ==> allowed@[j],
            forall|j: int|
                0 <= j < i && allowed@[j] && !(#[trigger] marks@[j]) ==> exists|bound: u32|
                    #[trigger]
                    call_ensures(bound_of, (query, place, (start + j) as usize, fast), bound)
                        && !heap.admits(bound),
            forall|j: int|
                0 <= j < i && #[trigger] marks@[j] ==> exists|bound: u32| #[trigger]
                    call_ensures(bound_of, (query, place, (start + j) as usize, fast), bound)
                        && heap.admits(bound),
        decreases allowed@.len() - i,
    {
        let mut refine: bool = false;
        if allowed[i] {
            let bound: u32 = bound_of(query, place, start + i, fast);
            refine = heap.should_consider(bound);
        }
        let ghost before = marks@;
        marks.push(refine);
        proof {
            lemma_marked_prefix(before, marks@, i as nat);
        }
        if refine {
            count = count + 1;
        }
        i = i + 1;
    }
    (marks, count)
}

/// How many of the first `n` marks are set.
pub open spec fn marked_count(marks: Seq<bool>, n: nat) -> nat
    decreases n,
{
    if n == 0 {
        0
    } else {
        marked_count(marks, (n - 1) as nat) + (if marks[n - 1] {
            1nat
        } else {
            0
        })
    }
}

proof fn lemma_marked_prefix(a: Seq<bool>, b: Seq<bool>, n: nat)
    requires
        n <= a.len(),
        n <= b.len(),
        forall|i: int| 0 <= i < n ==> a[i] == b[i],
    ensures
        marked_count(a, n) == marked_count(b, n),
    decreases n,
{
    if n > 0 {
        lemma_marked_prefix(a, b, (n - 1) as nat);
    }
}

/// What becomes of a row that is to be refined or not: in a table-scanned block
/// it is taken if the collection admits its approximate bound at that moment.
spec fn lane_decided<A: Fn(usize, usize, usize) -> u32>(
    approximate_of: A,
    query: usize,
    place: usize,
    row: int,
    fast: bool,
    moment: TopKHeap,
    refine: bool,
    took: bool,
) -> bool {
    &&& took ==> refine && (!fast || exists|bound: u32| #[trigger]
        call_ensures(approximate_of, (query, place, row as usize), bound) && moment.admits(bound))
    &&& refine && !took ==> fast && exists|bound: u32| #[trigger]
        call_ensures(approximate_of, (query, place, row as usize), bound) && !moment.admits(bound)
}

/// Offers the rows of a block that are to be refined, in row order. In a
/// table-scanned block the bound of the approximate distance is tried first.
/// Returns which rows were taken, how many, and how many of them entered.
fn refine_block<A: Fn(usize, usize, usize) -> u32, E: Fn(usize, usize, usize) -> u32>(
    labels: &[i64],
    refine: &Vec<bool>,
    approximate_of: &A,
    distance_of: &E,
    query: usize,
    place: usize,
    start: usize,
    fast: bool,
    heap: &mut TopKHeap,
    Ghost(before): Ghost<TopKHeap>,
    Ghost(eligible): Ghost<spec_fn(int) -> bool>,
    Ghost(is_bound): Ghost<spec_fn(int, u32) -> bool>,
    Ghost(taken): Ghost<Seq<usize>>,
    Ghost(distances): Ghost<Seq<u32>>,
    Ghost(moments): Ghost<Seq<TopKHeap>>,
) -> (out: (
    Vec<bool>,
    usize,
    usize,
    Ghost<Seq<usize>>,
    Ghost<Seq<u32>>,
    Ghost<Seq<TopKHeap>>,
))
    requires
        old(heap).well_formed(),
        start + refine@.len() <= labels@.len(),
        forall|p: usize|
            start <= p < start + refine@.len() ==> call_requires(
                approximate_of,
                (query, place, p),
            ),
        forall|p: usize|
            start <= p < start + refine@.len() ==> call_requires(distance_of, (query, place, p)),
        crate::pruned::pruned_scan(
            before,
            *old(heap),
            labels@,
            eligible,
            is_bound,
            taken,
            distances,
            start as nat,
        ),
        measured(*distance_of, query, place, taken, distances),
        crate::pruned::moments_of(
            before,
            *old(heap),
            labels@,
            taken,
            distances,
            moments,
            start as nat,
        ),
        forall|i: int| 0 <= i < refine@.len() && #[trigger] refine@[i] ==> eligible(start + i),
        forall|i: int|
            0 <= i < refine@.len() && !(#[trigger] refine@[i]) && eligible(start + i)
                ==> crate::pruned::skipped(*old(heap), is_bound, start + i),
        fast ==> forall|p: usize, bound: u32|
            start <= p < start + refine@.len() && #[trigger] call_ensures(
                approximate_of,
                (query, place, p),
                bound,
            ) ==> is_bound(p as int, bound),
    ensures
        final(heap).well_formed(),
        crate::pruned::pruned_scan(
            before,
            *final(heap),
            labels@,
            eligible,
            is_bound,
            out.3@,
            out.4@,
            (start + refine@.len()) as nat,
        ),
        measured(*distance_of, query, place, out.3@, out.4@),
        out.3@.len() == taken.len() + out.1,
        out.3@.take(taken.len() as int) == taken,
        forall|i: int|
            taken.len() <= i < out.3@.len() ==> start <= #[trigger] out.3@[i] < start
                + refine@.len(),
        out.0@.len() == refine@.len(),
        forall|i: int|
            0 <= i < refine@.len() ==> #[trigger] out.0@[i] == out.3@.contains(
                (start + i) as usize,
            ),
        out.2 <= out.1,
        out.1 <= marked_count(refine@, refine@.len()),
        !fast ==> out.1 == marked_count(refine@, refine@.len()),
        crate::pruned::moments_of(
            before,
            *final(heap),
            labels@,
            out.3@,
            out.4@,
            out.5@,
            (start + refine@.len()) as nat,
        ),
        out.5@.take(start + 1) == moments,
        forall|i: int|
            0 <= i < refine@.len() ==> lane_decided(
                *approximate_of,
                query,
                place,
                start + i,
                fast,
                out.5@[start + i],
                #[trigger] refine@[i],
                out.0@[i],
            ),
        admissions(out.5@, out.3@, out.4@, out.3@.len()) == admissions(
            moments,
            taken,
            distances,
            taken.len(),
        ) + out.2,
{
    let ghost entry = *heap;
    let ghost mut later: Seq<TopKHeap> = moments;
    let ghost entered_before = admissions(moments, taken, distances, taken.len());
    let ghost mut rows: Seq<usize> = taken;
    let ghost mut dists: Seq<u32> = distances;
    let total: usize = labels.len();
    let mut took: Vec<bool> = Vec::new();
    let mut count: usize = 0;
    let mut admitted: usize = 0;
    let mut i: usize = 0;
    assert(rows.take(taken.len() as int) =~= taken);
    assert(later.take(start + 1) =~= moments);
    while i < refine.len()
        invariant
            i <= refine@.len(),
            total == labels@.len(),
            start + refine@.len() <= total,
            forall|p: usize|
                start <= p < start + refine@.len() ==> call_requires(
                    approximate_of,
                    (query, place, p),
                ),
            forall|p: usize|
                start <= p < start + refine@.len() ==> call_requires(
                    distance_of,
                    (query, place, p),
                ),
            heap.well_formed(),
            crate::topk::only_tightens(entry, *heap),
            crate::pruned::pruned_scan(
                before,
                *heap,
                labels@,
                eligible,
                is_bound,
                rows,
                dists,
                (start + i) as nat,
            ),
            measured(*distance_of, query, place, rows, dists),
            crate::pruned::moments_of(
                before,
                *heap,
                labels@,
                rows,
                dists,
                later,
                (start + i) as nat,
            ),
            moments.len() == start + 1,
            later.take(start + 1) == moments,
            forall|j: int|
                0 <= j < i ==> lane_decided(
                    *approximate_of,
                    query,
                    place,
                    start + j,
                    fast,
                    later[start + j],
                    #[trigger] refine@[j],
                    took@[j],
                ),
            admissions(later, rows, dists, rows.len()) == entered_before + admitted,
            forall|j: int|
                0 <= j < refine@.len() && #[trigger] refine@[j] ==> eligible(start + j),
            forall|j: int|
                0 <= j < refine@.len() && !(#[trigger] refine@[j]) && eligible(start + j)
                    ==> crate::pruned::skipped(entry, is_bound, start + j),
            fast ==> forall|p: usize, bound: u32|
                start <= p < start + refine@.len() && #[trigger] call_ensures(
                    approximate_of,
                    (query, place, p),
                    bound,
                ) ==> is_bound(p as int, bound),
            rows.len() == taken.len() + count,
            rows.take(taken.len() as int) == taken,
            forall|j: int|
                taken.len() <= j < rows.len() ==> start <= #[trigger] rows[j] < start + i,
            took@.len() == i,
            forall|j: int|
                0 <= j < i ==> #[trigger] took@[j] == rows.contains((start + j) as usize),
            admitted <= count,
            count <= i,
            count <= marked_count(refine@, i as nat),
            !fast ==> count == marked_count(refine@, i as nat),
        decreases refine@.len() - i,
    {
        let row: usize = start + i;
        let mut skip: bool = !refine[i];
        if skip {
            proof {
                if eligible(row as int) {
                    assert(!refine@[i as int]);
                    crate::pruned::lemma_skipped_stays(entry, *heap, is_bound, row as int);
                }
            }
        } else if fast {
            let bound: u32 = approximate_of(query, place, row);
            assert(call_ensures(approximate_of, (query, place, row), bound));
            if !heap.should_consider(bound) {
                proof {
                    assert(is_bound(row as int, bound)
                        && !heap.admits(bound));
                    assert(crate::pruned::skipped(*heap, is_bound, row as int));
                }
                skip = true;
            }
        }
        let ghost rows_before = rows;
        let ghost before_row = later;
        let ghost opening = *heap;
        assert(!rows.contains(row)) by {
            if rows.contains(row) {
                let j = choose|j: int| 0 <= j < rows.len() && rows[j] == row;
                assert(rows[j] < start + i);
            }
        }
        if skip {
            proof {
                crate::pruned::lemma_scan_skips(
                    before,
                    *heap,
                    labels@,
                    eligible,
                    is_bound,
                    rows,
                    dists,
                    row as nat,
                );
                crate::pruned::lemma_moment_passes(
                    before,
                    *heap,
                    labels@,
                    rows,
                    dists,
                    later,
                    row as nat,
                );
                later = later.push(*heap);
                assert forall|j: int| 0 <= j < rows.len() implies before_row[
                #[trigger] rows[j] as int] == later[rows[j] as int] by {}
                lemma_admissions_agree(before_row, rows, dists, later, rows, dists, rows.len());
            }
        } else {
            let ghost now = *heap;
            let distance: u32 = distance_of(query, place, row);
            let entered: bool = offer_one(heap, distance, labels[row]);
            proof {
                assert(refine@[i as int]);
                crate::pruned::lemma_scan_takes(
                    before,
                    now,
                    *heap,
                    labels@,
                    eligible,
                    is_bound,
                    rows,
                    dists,
                    row as nat,
                    distance,
                );
                crate::pruned::lemma_moment_offers(
                    before,
                    now,
                    *heap,
                    labels@,
                    rows,
                    dists,
                    later,
                    row as nat,
                    distance,
                );
                later = later.push(*heap);
                let longer = rows.push(row);
                let longer_dists = dists.push(distance);
                assert forall|j: int| 0 <= j < rows.len() implies #[trigger] rows[j] == longer[j]
                    && dists[j] == longer_dists[j] && before_row[rows[j] as int]
                    == later[rows[j] as int] by {}
                lemma_admissions_agree(
                    before_row,
                    rows,
                    dists,
                    later,
                    longer,
                    longer_dists,
                    rows.len(),
                );
                assert(later[row as int] == now);
                assert(longer.take(taken.len() as int) =~= rows.take(taken.len() as int));
                rows = longer;
                dists = dists.push(distance);
            }
            count = count + 1;
            if entered {
                admitted = admitted + 1;
            }
        }
        took.push(!skip);
        proof {
            assert forall|j: int| 0 <= j < i + 1 implies #[trigger] took@[j] == rows.contains(
                (start + j) as usize,
            ) by {
                if !skip {
                    assert(rows[rows_before.len() as int] == row);
                    if rows.contains((start + j) as usize) && j < i {
                        let m = choose|m: int|
                            0 <= m < rows.len() && rows[m] == (start + j) as usize;
                        assert(m < rows_before.len());
                        assert(rows_before[m] == (start + j) as usize);
                    }
                    if rows_before.contains((start + j) as usize) {
                        let m = choose|m: int|
                            0 <= m < rows_before.len() && rows_before[m] == (start + j) as usize;
                        assert(rows[m] == (start + j) as usize);
                    }
                }
                if j < i {
                    assert(took@[j] == rows_before.contains((start + j) as usize));
                }
            }
        }
        proof {
            assert(later.take(start + 1) =~= before_row.take(start + 1));
            assert(later[row as int] == opening);
            assert forall|j: int| 0 <= j < i + 1 implies lane_decided(
                *approximate_of,
                query,
                place,
                start + j,
                fast,
                later[start + j],
                #[trigger] refine@[j],
                took@[j],
            ) by {
                if j < i {
                    assert(lane_decided(
                        *approximate_of,
                        query,
                        place,
                        start + j,
                        fast,
                        before_row[start + j],
                        refine@[j],
                        took@[j],
                    ));
                    assert(later[start + j] == before_row[start + j]);
                }
            }
        }
        i = i + 1;
    }
    (took, count, admitted, Ghost(rows), Ghost(dists), Ghost(later))
}

proof fn lemma_fast_count(
    taken: Seq<usize>,
    more: Seq<usize>,
    shape: ScanShape,
    filtered: bool,
    scan_end: int,
    fast: bool,
)
    requires
        taken.len() <= more.len(),
        more.take(taken.len() as int) == taken,
        forall|i: int|
            taken.len() <= i < more.len() ==> fast_row(
                shape,
                filtered,
                scan_end,
                #[trigger] more[i] as int,
            ) == fast,
    ensures
        fast_count(more, shape, filtered, scan_end) == fast_count(
            taken,
            shape,
            filtered,
            scan_end,
        ) + (if fast {
            more.len() - taken.len()
        } else {
            0
        }),
    decreases more.len(),
{
    if more.len() == taken.len() {
        assert(more =~= taken);
    } else {
        let shorter = more.drop_last();
        assert(shorter.take(taken.len() as int) =~= taken);
        assert forall|i: int| taken.len() <= i < shorter.len() implies fast_row(
            shape,
            filtered,
            scan_end,
            #[trigger] shorter[i] as int,
        ) == fast by {
            assert(shorter[i] == more[i]);
        }
        lemma_fast_count(taken, shorter, shape, filtered, scan_end, fast);
        assert(more[more.len() - 1] == more.last());
    }
}

proof fn lemma_marks_count_eligible(
    marks: Seq<bool>,
    eligible: spec_fn(int) -> bool,
    start: nat,
    n: nat,
)
    requires
        n <= marks.len(),
        forall|i: int| 0 <= i < n ==> #[trigger] marks[i] == eligible(start + i),
    ensures
        marked_count(marks, n) + eligible_count(eligible, start) == eligible_count(
            eligible,
            start + n,
        ),
    decreases n,
{
    if n > 0 {
        lemma_marks_count_eligible(marks, eligible, start, (n - 1) as nat);
        assert(marks[n - 1] == eligible(start + (n - 1)));
    }
}

/// The rows of a block, each decided by itself.
proof fn lemma_lanes_decided<
    B: Fn(usize, usize, usize, bool) -> u32,
    A: Fn(usize, usize, usize) -> u32,
>(
    source: ScanSource,
    scan_end: int,
    start: int,
    fast: bool,
    bound_of: B,
    approximate_of: A,
    rows: Seq<usize>,
    later: Seq<TopKHeap>,
    refine: Seq<bool>,
    took: Seq<bool>,
)
    requires
        0 <= start,
        start % 32 == 0,
        refine.len() <= 32,
        took.len() == refine.len(),
        forall|p: int|
            start <= p < start + refine.len() ==> #[trigger] fast_row(
                source.shape,
                source.filtered,
                scan_end,
                p,
            ) == fast,
        forall|i: int|
            0 <= i < refine.len() ==> #[trigger] took[i] == rows.contains((start + i) as usize),
        forall|i: int|
            0 <= i < refine.len() ==> lane_decided(
                approximate_of,
                source.query,
                source.place,
                start + i,
                fast,
                later[start + i],
                #[trigger] refine[i],
                took[i],
            ),
        forall|i: int|
            0 <= i < refine.len() && #[trigger] refine[i] ==> (source.eligible)(start + i) && (
            source.shape.bits == 1 || exists|bound: u32| #[trigger]
                call_ensures(
                    bound_of,
                    (source.query, source.place, (start + i) as usize, fast),
                    bound,
                ) && later[start].admits(bound)),
        forall|i: int|
            0 <= i < refine.len() && (source.eligible)(start + i) && !(#[trigger] refine[i])
                ==> source.shape.bits > 1 && exists|bound: u32| #[trigger]
                call_ensures(
                    bound_of,
                    (source.query, source.place, (start + i) as usize, fast),
                    bound,
                ) && !later[start].admits(bound),
    ensures
        forall|i: int|
            0 <= i < refine.len() ==> row_decided(
                source,
                scan_end,
                bound_of,
                approximate_of,
                rows,
                later,
                #[trigger] refine[i],
                start + i,
            ),
{
    assert forall|i: int| 0 <= i < refine.len() implies row_decided(
        source,
        scan_end,
        bound_of,
        approximate_of,
        rows,
        later,
        #[trigger] refine[i],
        start + i,
    ) by {
        let p = start + i;
        let first = first_bounds(bound_of, source, scan_end);
        let second = second_bounds(approximate_of, source);
        assert(p / 32 * 32 == start);
        assert(fast_row(source.shape, source.filtered, scan_end, p) == fast);
        assert(took[i] == rows.contains(p as usize));
        assert(lane_decided(
            approximate_of,
            source.query,
            source.place,
            start + i,
            fast,
            later[start + i],
            refine[i],
            took[i],
        ));
        if refine[i] && source.shape.bits != 1 {
            let bound = choose|bound: u32| #[trigger]
                call_ensures(
                    bound_of,
                    (source.query, source.place, (start + i) as usize, fast),
                    bound,
                ) && later[start].admits(bound);
            assert(first(p, bound));
        }
        if (source.eligible)(p) && !refine[i] {
            let bound = choose|bound: u32| #[trigger]
                call_ensures(
                    bound_of,
                    (source.query, source.place, (start + i) as usize, fast),
                    bound,
                ) && !later[start].admits(bound);
            assert(first(p, bound));
        }
        if took[i] && fast {
            let bound = choose|bound: u32| #[trigger]
                call_ensures(approximate_of, (source.query, source.place, p as usize), bound)
                    && later[p].admits(bound);
            assert(second(p, bound));
        }
        if refine[i] && !took[i] {
            let bound = choose|bound: u32| #[trigger]
                call_ensures(approximate_of, (source.query, source.place, p as usize), bound)
                    && !later[p].admits(bound);
            assert(second(p, bound));
        }
    }
}

/// Scans the block of `lanes` rows at `start`. The rows that pass the filter
/// are refined if the collection admits the lower bound of their coarse
/// estimate when the block begins; distances are computed for refined rows
/// only. One-bit codes have no second stage. Returns which rows were taken.
#[verifier::rlimit(60)]
#[verifier::spinoff_prover]
fn scan_block<
    F: RowIdFilter,
    B: Fn(usize, usize, usize, bool) -> u32,
    A: Fn(usize, usize, usize) -> u32,
    E: Fn(usize, usize, usize) -> u32,
>(
    query: usize,
    place: usize,
    ids: &[i64],
    labels: &[i64],
    filter: Option<&F>,
    shape: ScanShape,
    bound_of: &B,
    approximate_of: &A,
    distance_of: &E,
    start: usize,
    lanes: usize,
    heap: &mut TopKHeap,
    stats: &mut IVFRQSearchStats,
    Ghost(scan_end): Ghost<nat>,
    Ghost(before): Ghost<TopKHeap>,
    Ghost(stats_before): Ghost<IVFRQSearchStats>,
    Ghost(taken): Ghost<Seq<usize>>,
    Ghost(distances): Ghost<Seq<u32>>,
    Ghost(work): Ghost<Work>,
    Ghost(moments): Ghost<Seq<TopKHeap>>,
    Ghost(refined): Ghost<Seq<bool>>,
) -> (out: (
    Vec<bool>,
    Ghost<Seq<usize>>,
    Ghost<Seq<u32>>,
    Ghost<Work>,
    Ghost<Seq<TopKHeap>>,
    Ghost<Seq<bool>>,
))
    requires
        old(heap).well_formed(),
        shape.bits >= 1,
        shape.plane_size >= 1,
        labels@.len() == ids@.len(),
        scan_end <= ids@.len(),
        start % 32 == 0,
        start < scan_end,
        lanes == (if scan_end - start < 32 {
            scan_end - start
        } else {
            32
        }),
        scans_rows(*bound_of, *approximate_of, *distance_of, query, place, ids@.len()),
        partial_scan(
            before,
            *old(heap),
            stats_before,
            *old(stats),
            scan_source(query, place, ids@, labels@, filter, shape),
            scan_end,
            start as nat,
            *bound_of,
            *approximate_of,
            *distance_of,
            taken,
            distances,
            work,
        ),
        traced(
            before,
            *old(heap),
            scan_source(query, place, ids@, labels@, filter, shape),
            scan_end,
            start as nat,
            *bound_of,
            *approximate_of,
            taken,
            distances,
            work,
            moments,
            refined,
        ),
    ensures
        final(heap).well_formed(),
        partial_scan(
            before,
            *final(heap),
            stats_before,
            *final(stats),
            scan_source(query, place, ids@, labels@, filter, shape),
            scan_end,
            (start + lanes) as nat,
            *bound_of,
            *approximate_of,
            *distance_of,
            out.1@,
            out.2@,
            out.3@,
        ),
        traced(
            before,
            *final(heap),
            scan_source(query, place, ids@, labels@, filter, shape),
            scan_end,
            (start + lanes) as nat,
            *bound_of,
            *approximate_of,
            out.1@,
            out.2@,
            out.3@,
            out.4@,
            out.5@,
        ),
        out.0@.len() == lanes,
        forall|i: int|
            0 <= i < lanes ==> #[trigger] out.0@[i] == out.1@.contains((start + i) as usize),
{
    let ghost source = scan_source(query, place, ids@, labels@, filter, shape);
    let ghost eligible = source.eligible;
    let ghost opening = *heap;
    let total: usize = ids.len();
    assert(start + lanes <= total);
    let filtered: bool = match filter {
        Some(_) => true,
        None => false,
    };
    let ghost is_bound = block_bounds(
        *bound_of,
        *approximate_of,
        query,
        place,
        shape,
        filtered,
        scan_end as int,
    );
    let fast: bool = shape.bits > 1 && shape.padded_d >= FASTSCAN_MIN_PADDED_DIMENSION && !filtered
        && lanes == RQ_SCAN_BLOCK_SIZE;
    let ghost extra = extra_plane_bytes(shape);
    stats.scanned_vectors = stats.scanned_vectors.saturating_add(lanes);
    if fast {
        stats.fastscan_blocks = stats.fastscan_blocks.saturating_add(1);
    } else {
        stats.scalar_blocks = stats.scalar_blocks.saturating_add(1);
    }
    let (allowed, eligible_here) = mark_eligible(ids, filter, start, lanes);
    stats.eligible_vectors = stats.eligible_vectors.saturating_add(eligible_here);
    stats.coarse_distance_evaluations = stats.coarse_distance_evaluations.saturating_add(
        eligible_here,
    );
    assert forall|p: int| start <= p < start + lanes implies #[trigger] fast_row(
        shape,
        filtered,
        scan_end as int,
        p,
    ) == fast by {
        assert(p / 32 * 32 == start);
    }
    proof {
        lemma_marks_count_eligible(allowed@, eligible, start as nat, lanes as nat);
    }
    if shape.bits == 1 {
        let (took, count, entered, Ghost(rows), Ghost(dists), Ghost(later)) = refine_block(
            labels,
            &allowed,
            approximate_of,
            distance_of,
            query,
            place,
            start,
            false,
            heap,
            Ghost(before),
            Ghost(eligible),
            Ghost(is_bound),
            Ghost(taken),
            Ghost(distances),
            Ghost(moments),
        );
        stats.heap_admissions = stats.heap_admissions.saturating_add(entered);
        let ghost done = Work {
            scanned: work.scanned + lanes as nat,
            eligible: work.eligible + eligible_here as nat,
            fast_blocks: work.fast_blocks,
            scalar_blocks: work.scalar_blocks + 1,
            refined: 0,
            taken: rows.len(),
            fast_taken: 0,
            admitted: work.admitted + entered as nat,
        };
        proof {
            assert forall|i: int| taken.len() <= i < rows.len() implies fast_row(
                shape,
                filtered,
                scan_end as int,
                #[trigger] rows[i] as int,
            ) == fast by {}
            lemma_fast_count(taken, rows, shape, filtered, scan_end as int, fast);
            lemma_lanes_decided(
                source,
                scan_end as int,
                start as int,
                fast,
                *bound_of,
                *approximate_of,
                rows,
                later,
                allowed@,
                took@,
            );
            lemma_block_traced(
                before,
                opening,
                *heap,
                source,
                scan_end,
                start as nat,
                *bound_of,
                *approximate_of,
                taken,
                distances,
                work,
                moments,
                refined,
                allowed@,
                rows,
                dists,
                done,
                later,
            );
        }
        (took, Ghost(rows), Ghost(dists), Ghost(done), Ghost(later), Ghost(refined + allowed@))
    } else {
        let (refine, refined_here) = mark_refined(
            &allowed,
            bound_of,
            query,
            place,
            start,
            fast,
            heap,
        );
        assert forall|i: int|
            0 <= i < refine@.len() && !(#[trigger] refine@[i]) && eligible(
                start + i,
            ) implies crate::pruned::skipped(*heap, is_bound, start + i) by {
            assert(allowed@[i]);
            let bound = choose|bound: u32| #[trigger]
                call_ensures(bound_of, (query, place, (start + i) as usize, fast), bound)
                    && !heap.admits(bound);
            assert(fast_row(shape, filtered, scan_end as int, start + i) == fast);
            assert(is_bound(start + i, bound));
        }
        stats.refined_vectors = stats.refined_vectors.saturating_add(refined_here);
        let looked_up: usize = saturating_product(
            saturating_product(refined_here, shape.bits - 1),
            shape.plane_size,
        );
        stats.extra_plane_byte_lookups = stats.extra_plane_byte_lookups.saturating_add(looked_up);
        proof {
            lemma_product_of_three(refined_here as int, shape.bits - 1, shape.plane_size as int);
            assert(0 <= extra) by (nonlinear_arith)
                requires
                    extra == (shape.bits - 1) * shape.plane_size,
                    shape.bits >= 1,
            ;
            lemma_units(
                stats_before.extra_plane_byte_lookups as int,
                (work.refined + work.fast_taken) as int,
                refined_here as int,
                extra,
            );
        }
        let (took, count, entered, Ghost(rows), Ghost(dists), Ghost(later)) = refine_block(
            labels,
            &refine,
            approximate_of,
            distance_of,
            query,
            place,
            start,
            fast,
            heap,
            Ghost(before),
            Ghost(eligible),
            Ghost(is_bound),
            Ghost(taken),
            Ghost(distances),
            Ghost(moments),
        );
        stats.heap_admissions = stats.heap_admissions.saturating_add(entered);
        stats.final_distance_evaluations = stats.final_distance_evaluations.saturating_add(count);
        proof {
            assert forall|i: int| taken.len() <= i < rows.len() implies fast_row(
                shape,
                filtered,
                scan_end as int,
                #[trigger] rows[i] as int,
            ) == fast by {}
            lemma_fast_count(taken, rows, shape, filtered, scan_end as int, fast);
        }
        if fast {
            stats.refined_coarse_byte_lookups = stats.refined_coarse_byte_lookups.saturating_add(
                saturating_product(count, shape.plane_size),
            );
            stats.extra_plane_byte_lookups = stats.extra_plane_byte_lookups.saturating_add(
                saturating_product(saturating_product(count, shape.bits - 1), shape.plane_size),
            );
            proof {
                lemma_units(
                    stats_before.refined_coarse_byte_lookups as int,
                    work.fast_taken as int,
                    count as int,
                    shape.plane_size as int,
                );
                lemma_product_of_three(count as int, shape.bits - 1, shape.plane_size as int);
                lemma_units(
                    stats_before.extra_plane_byte_lookups as int,
                    (work.refined + work.fast_taken + refined_here) as int,
                    count as int,
                    extra,
                );
            }
        }
        let ghost done = Work {
            scanned: work.scanned + lanes as nat,
            eligible: work.eligible + eligible_here as nat,
            fast_blocks: work.fast_blocks + (if fast {
                1nat
            } else {
                0
            }),
            scalar_blocks: work.scalar_blocks + (if fast {
                0nat
            } else {
                1
            }),
            refined: work.refined + refined_here as nat,
            taken: rows.len(),
            fast_taken: fast_count(rows, shape, filtered, scan_end as int),
            admitted: work.admitted + entered as nat,
        };
        proof {
            lemma_lanes_decided(
                source,
                scan_end as int,
                start as int,
                fast,
                *bound_of,
                *approximate_of,
                rows,
                later,
                refine@,
                took@,
            );
            lemma_block_traced(
                before,
                opening,
                *heap,
                source,
                scan_end,
                start as nat,
                *bound_of,
                *approximate_of,
                taken,
                distances,
                work,
                moments,
                refined,
                refine@,
                rows,
                dists,
                done,
                later,
            );
        }
        (took, Ghost(rows), Ghost(dists), Ghost(done), Ghost(later), Ghost(refined + refine@))
    }
}

/// The closures answer for every row of the list.
pub open spec fn scans_rows<
    B: Fn(usize, usize, usize, bool) -> u32,
    A: Fn(usize, usize, usize) -> u32,
    E: Fn(usize, usize, usize) -> u32,
>(
    bound_of: B,
    approximate_of: A,
    distance_of: E,
    query: usize,
    place: usize,
    rows: nat,
) -> bool {
    &&& forall|p: usize, fast: bool|
        p < rows ==> #[trigger] call_requires(bound_of, (query, place, p, fast))
    &&& forall|p: usize| p < rows ==> #[trigger] call_requires(approximate_of, (query, place, p))
    &&& forall|p: usize| p < rows ==> #[trigger] call_requires(distance_of, (query, place, p))
}

proof fn lemma_scan_begins<
    B: Fn(usize, usize, usize, bool) -> u32,
    A: Fn(usize, usize, usize) -> u32,
    E: Fn(usize, usize, usize) -> u32,
>(
    heap: TopKHeap,
    stats: IVFRQSearchStats,
    source: ScanSource,
    scan_end: nat,
    bound_of: B,
    approximate_of: A,
    distance_of: E,
)
    requires
        heap.well_formed(),
        source.shape.bits >= 1,
    ensures
        partial_scan(
            heap,
            heap,
            stats,
            stats,
            source,
            scan_end,
            0,
            bound_of,
            approximate_of,
            distance_of,
            Seq::empty(),
            Seq::empty(),
            no_work(),
        ),
        traced(
            heap,
            heap,
            source,
            scan_end,
            0,
            bound_of,
            approximate_of,
            Seq::empty(),
            Seq::empty(),
            no_work(),
            seq![heap],
            Seq::empty(),
        ),
{
    crate::pruned::lemma_absorbs_nothing(heap);
    lemma_counts_nothing(stats, source.shape);
    assert(crate::pruned::taken_items(source.labels, Seq::empty(), Seq::empty()) =~= Seq::<
        Neighbor,
    >::empty());
}

/// Scans the first `vector_limit` rows of the list read at `place` for a query,
/// 32 rows at a time, and offers the rows by their labels.
pub fn scan_blocked_list<
    F: RowIdFilter,
    B: Fn(usize, usize, usize, bool) -> u32,
    A: Fn(usize, usize, usize) -> u32,
    E: Fn(usize, usize, usize) -> u32,
>(
    query: usize,
    place: usize,
    ids: &[i64],
    labels: &[i64],
    filter: Option<&F>,
    shape: ScanShape,
    bound_of: &B,
    approximate_of: &A,
    distance_of: &E,
    heap: &mut TopKHeap,
    stats: &mut IVFRQSearchStats,
    vector_limit: usize,
)
    requires
        old(heap).well_formed(),
        shape.bits >= 1,
        shape.plane_size >= 1,
        labels@.len() == ids@.len(),
        scans_rows(*bound_of, *approximate_of, *distance_of, query, place, ids@.len()),
    ensures
        exists|taken: Seq<usize>, distances: Seq<u32>, work: Work| #[trigger]
            blocked_scan(
                *old(heap),
                *final(heap),
                *old(stats),
                *final(stats),
                scan_source(query, place, ids@, labels@, filter, shape),
                limited(ids@.len(), vector_limit as nat),
                *bound_of,
                *approximate_of,
                *distance_of,
                taken,
                distances,
                work,
            ),
{
    let ghost before = *heap;
    let ghost stats_before = *stats;
    let ghost source = scan_source(query, place, ids@, labels@, filter, shape);
    let scan_end: usize = scan_length(ids.len(), vector_limit);
    let ghost mut taken: Seq<usize> = Seq::empty();
    let ghost mut distances: Seq<u32> = Seq::empty();
    let ghost mut work: Work = no_work();
    let ghost mut moments: Seq<TopKHeap> = seq![*heap];
    let ghost mut refined: Seq<bool> = Seq::empty();
    proof {
        lemma_scan_begins(
            before,
            stats_before,
            source,
            scan_end as nat,
            *bound_of,
            *approximate_of,
            *distance_of,
        );
    }
    let mut start: usize = 0;
    while start < scan_end
        invariant
            start <= scan_end <= ids@.len(),
            start % 32 == 0 || start == scan_end,
            shape.bits >= 1,
            shape.plane_size >= 1,
            labels@.len() == ids@.len(),
            source == scan_source(query, place, ids@, labels@, filter, shape),
            scans_rows(*bound_of, *approximate_of, *distance_of, query, place, ids@.len()),
            heap.well_formed(),
            partial_scan(
                before,
                *heap,
                stats_before,
                *stats,
                source,
                scan_end as nat,
                start as nat,
                *bound_of,
                *approximate_of,
                *distance_of,
                taken,
                distances,
                work,
            ),
            traced(
                before,
                *heap,
                source,
                scan_end as nat,
                start as nat,
                *bound_of,
                *approximate_of,
                taken,
                distances,
                work,
                moments,
                refined,
            ),
        decreases scan_end - start,
    {
        let left: usize = scan_end - start;
        let lanes: usize = if left < RQ_SCAN_BLOCK_SIZE {
            left
        } else {
            RQ_SCAN_BLOCK_SIZE
        };
        let (_, Ghost(rows), Ghost(dists), Ghost(done), Ghost(later), Ghost(marks)) = scan_block(
            query,
            place,
            ids,
            labels,
            filter,
            shape,
            bound_of,
            approximate_of,
            distance_of,
            start,
            lanes,
            heap,
            stats,
            Ghost(scan_end as nat),
            Ghost(before),
            Ghost(stats_before),
            Ghost(taken),
            Ghost(distances),
            Ghost(work),
            Ghost(moments),
            Ghost(refined),
        );
        proof {
            taken = rows;
            distances = dists;
            work = done;
            moments = later;
            refined = marks;
        }
        start = start + lanes;
    }
    reveal(has_trace);
    assert(blocked_scan(
        *old(heap),
        *heap,
        *old(stats),
        *stats,
        source,
        limited(ids@.len(), vector_limit as nat),
        *bound_of,
        *approximate_of,
        *distance_of,
        taken,
        distances,
        work,
    ));
}

/// Scans the first block of a list and tells which of its rows were taken.
pub fn scan_first_block<
    F: RowIdFilter,
    B: Fn(usize, usize, usize, bool) -> u32,
    A: Fn(usize, usize, usize) -> u32,
    E: Fn(usize, usize, usize) -> u32,
>(
    query: usize,
    place: usize,
    ids: &[i64],
    filter: Option<&F>,
    shape: ScanShape,
    bound_of: &B,
    approximate_of: &A,
    distance_of: &E,
    heap: &mut TopKHeap,
    stats: &mut IVFRQSearchStats,
) -> (took: Vec<bool>)
    requires
        old(heap).well_formed(),
        shape.bits >= 1,
        shape.plane_size >= 1,
        ids@.len() > 0,
        scans_rows(*bound_of, *approximate_of, *distance_of, query, place, ids@.len()),
    ensures
        final(heap).well_formed(),
        exists|taken: Seq<usize>, distances: Seq<u32>, work: Work| #[trigger]
            blocked_scan(
                *old(heap),
                *final(heap),
                *old(stats),
                *final(stats),
                scan_source(query, place, ids@, ids@, filter, shape),
                limited(ids@.len(), RQ_SCAN_BLOCK_SIZE as nat),
                *bound_of,
                *approximate_of,
                *distance_of,
                taken,
                distances,
                work,
            ) && marks_rows(took@, taken),
{
    let ghost before = *heap;
    let ghost stats_before = *stats;
    let ghost moments: Seq<TopKHeap> = seq![before];
    let ghost source = scan_source(query, place, ids@, ids@, filter, shape);
    let lanes: usize = scan_length(ids.len(), RQ_SCAN_BLOCK_SIZE);
    proof {
        lemma_scan_begins(
            before,
            stats_before,
            source,
            lanes as nat,
            *bound_of,
            *approximate_of,
            *distance_of,
        );
    }
    let (took, Ghost(rows), Ghost(dists), Ghost(done), Ghost(later), Ghost(marks)) = scan_block(
        query,
        place,
        ids,
        ids,
        filter,
        shape,
        bound_of,
        approximate_of,
        distance_of,
        0,
        lanes,
        heap,
        stats,
        Ghost(lanes as nat),
        Ghost(before),
        Ghost(stats_before),
        Ghost(Seq::empty()),
        Ghost(Seq::empty()),
        Ghost(no_work()),
        Ghost(moments),
        Ghost(Seq::empty()),
    );
    proof {
        reveal(has_trace);
        assert(blocked_scan(
            before,
            *heap,
            stats_before,
            *stats,
            source,
            limited(ids@.len(), RQ_SCAN_BLOCK_SIZE as nat),
            *bound_of,
            *approximate_of,
            *distance_of,
            rows,
            dists,
            done,
        ));
        assert forall|r: usize| #[trigger] rows.contains(r) <==> r < took@.len()
            && took@[r as int] by {
            if rows.contains(r) {
                let i = choose|i: int| 0 <= i < rows.len() && rows[i] == r;
                assert(rows[i] < lanes);
            }
            if r < took@.len() {
                assert(took@[r as int] == rows.contains((0 + r as int) as usize));
            }
        }
    }
    took
}

/// The marks are set for the taken rows.
pub open spec fn marks_rows(marks: Seq<bool>, taken: Seq<usize>) -> bool {
    forall|r: usize| #[trigger] taken.contains(r) <==> r < marks.len() && marks[r as int]
}

} // verus!
