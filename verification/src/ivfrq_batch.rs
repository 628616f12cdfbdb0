//! Batch search over residual-quantized lists: every probed list is read once,
//! and each query keeps its nearest rows. One query over many rows is answered
//! list by list, under a limit that a first block of rows gives.
use crate::filter::RowIdFilter;
use crate::ivfrq_search::{
    scan_blocked_list, scan_first_block, IVFRQSearchStats, ScanShape, Work,
};
use crate::ivfrq_trace::{QueryTrace, SeededTrace};
use crate::order::INFINITE_DISTANCE;
use crate::plan::{list_positions, query_seeds, unique_lists};
use crate::pruned::offer_one;
use crate::scan::{assemble_results, offer_all};
use crate::session::LoadedList;
use crate::topk::{Neighbor, TopKHeap};
use vstd::multiset::Multiset;
use vstd::prelude::*;

verus! {

/// A row of a loaded list: the place of the list and the position in it.
pub type RowKey = (usize, usize);

/// What computes the distances of a search. Every function takes the query,
/// the place of a loaded list and a row: a lower bound of the distance (for a
/// block scanned by quantized tables or not), a bound of the approximate
/// distance of a row of such a block, and the distance.
pub struct RowKernel<B, A, E> {
    pub bound_of: B,
    pub approximate_of: A,
    pub distance_of: E,
}

/// The same row always has the same distance.
pub open spec fn consistent<E: Fn(usize, usize, usize) -> u32>(distance_of: E) -> bool {
    forall|query: usize, place: usize, row: usize, a: u32, b: u32|
        #![trigger call_ensures(distance_of, (query, place, row), a), call_ensures(
            distance_of,
            (query, place, row),
            b,
        )]
        call_ensures(distance_of, (query, place, row), a) && call_ensures(
            distance_of,
            (query, place, row),
            b,
        ) ==> a == b
}

/// The kernel answers for every row of the loaded lists.
pub open spec fn kernel_fits<
    B: Fn(usize, usize, usize, bool) -> u32,
    A: Fn(usize, usize, usize) -> u32,
    E: Fn(usize, usize, usize) -> u32,
>(kernel: RowKernel<B, A, E>, queries: nat, loaded: Seq<LoadedList>) -> bool {
    &&& consistent(kernel.distance_of)
    &&& forall|query: usize, place: usize|
        query < queries && place < loaded.len() ==> #[trigger] crate::ivfrq_search::scans_rows(
            kernel.bound_of,
            kernel.approximate_of,
            kernel.distance_of,
            query,
            place,
            loaded[place as int].ids@.len(),
        )
}

/// Distances and ids of rows.
pub open spec fn row_items(loaded: Seq<LoadedList>, rows: Seq<RowKey>, distances: Seq<u32>) -> Seq<
    Neighbor,
> {
    Seq::new(
        rows.len(),
        |i: int| (distances[i], loaded[rows[i].0 as int].ids@[rows[i].1 as int]),
    )
}

/// A probe of a rank in `start..upto` names the list loaded at `place`.
pub open spec fn reached(
    probes: Seq<usize>,
    start: nat,
    upto: nat,
    loaded: Seq<LoadedList>,
    place: int,
) -> bool {
    exists|r: int|
        start <= r < upto && #[trigger] crate::plan::loaded_at(
            crate::session::loaded_ids(loaded),
            probes[r],
        ) == Some(place)
}

/// The row may be returned for the probes of ranks `start..upto`.
pub open spec fn returnable<F: RowIdFilter>(
    probes: Seq<usize>,
    start: nat,
    upto: nat,
    loaded: Seq<LoadedList>,
    filter: Option<&F>,
    row: RowKey,
) -> bool {
    &&& row.0 < loaded.len()
    &&& row.1 < loaded[row.0 as int].ids@.len()
    &&& crate::filter::row_allowed(filter, loaded[row.0 as int].ids@[row.1 as int])
    &&& reached(probes, start, upto, loaded, row.0 as int)
}

/// The bounds that the kernel may give for the rows.
pub open spec fn kernel_bounds<
    B: Fn(usize, usize, usize, bool) -> u32,
    A: Fn(usize, usize, usize) -> u32,
    E,
>(
    kernel: RowKernel<B, A, E>,
    query: usize,
    loaded: Seq<LoadedList>,
    filtered: bool,
    shape: ScanShape,
) -> spec_fn(RowKey, u32) -> bool {
    |row: RowKey, bound: u32|
        crate::ivfrq_search::block_bounds(
            kernel.bound_of,
            kernel.approximate_of,
            query,
            row.0,
            shape,
            filtered,
            loaded[row.0 as int].ids@.len() as int,
        )(row.1 as int, bound)
}

/// The collection refuses a bound of the row.
pub open spec fn turned_away(
    heap: TopKHeap,
    bounds: spec_fn(RowKey, u32) -> bool,
    row: RowKey,
) -> bool {
    exists|bound: u32| #[trigger] bounds(row, bound) && !heap.admits(bound)
}

/// A query was offered `rows` of the loaded lists by their distances; every
/// other row that may be returned has a bound that the query's collection
/// refuses.
pub open spec fn offered_rows<F: RowIdFilter, E: Fn(usize, usize, usize) -> u32>(
    before: TopKHeap,
    after: TopKHeap,
    query: usize,
    probes: Seq<usize>,
    start: nat,
    upto: nat,
    loaded: Seq<LoadedList>,
    filter: Option<&F>,
    bounds: spec_fn(RowKey, u32) -> bool,
    distance_of: E,
    rows: Seq<RowKey>,
    distances: Seq<u32>,
) -> bool {
    &&& distances.len() == rows.len()
    &&& rows.no_duplicates()
    &&& forall|i: int|
        0 <= i < rows.len() ==> returnable(probes, start, upto, loaded, filter, #[trigger] rows[i])
            && call_ensures(distance_of, (query, rows[i].0, rows[i].1), distances[i])
    &&& crate::pruned::absorbs(before, after, row_items(loaded, rows, distances))
    &&& forall|row: RowKey| #[trigger]
        returnable(probes, start, upto, loaded, filter, row) && !rows.contains(row) ==> turned_away(
            after,
            bounds,
            row,
        )
}

/// The rows of one list.
pub open spec fn rows_at(place: usize, taken: Seq<usize>) -> Seq<RowKey> {
    Seq::new(taken.len(), |i: int| (place, taken[i]))
}

/// No list is probed twice.
pub open spec fn distinct_probes(probes: Seq<Vec<usize>>) -> bool {
    forall|q: int| 0 <= q < probes.len() ==> (#[trigger] probes[q])@.no_duplicates()
}

proof fn lemma_turned_away_stays(
    before: TopKHeap,
    after: TopKHeap,
    bounds: spec_fn(RowKey, u32) -> bool,
    row: RowKey,
)
    requires
        turned_away(
            before,
            bounds,
            row,
        ),
        crate::topk::only_tightens(before, after),
    ensures
        turned_away(
            after,
            bounds,
            row,
        ),
{
    let bound = choose|bound: u32| #[trigger] bounds(row, bound) && !before.admits(bound);
    assert(bounds(row, bound) && !after.admits(bound));
}

/// A rank whose list was not loaded offers nothing.
pub proof fn lemma_rank_without_list<F: RowIdFilter, E: Fn(usize, usize, usize) -> u32>(
    before: TopKHeap,
    after: TopKHeap,
    query: usize,
    probes: Seq<usize>,
    start: nat,
    rank: nat,
    loaded: Seq<LoadedList>,
    filter: Option<&F>,
    bounds: spec_fn(RowKey, u32) -> bool,
    distance_of: E,
    rows: Seq<RowKey>,
    distances: Seq<u32>,
)
    requires
        start <= rank,
        offered_rows(
            before,
            after,
            query,
            probes,
            start,
            rank,
            loaded,
            filter,
            bounds,
            distance_of,
            rows,
            distances,
        ),
        crate::plan::loaded_at(crate::session::loaded_ids(loaded), probes[rank as int]) is None,
    ensures
        offered_rows(
            before,
            after,
            query,
            probes,
            start,
            rank + 1,
            loaded,
            filter,
            bounds,
            distance_of,
            rows,
            distances,
        ),
{
    assert forall|place: int|
        reached(probes, start, rank, loaded, place) == #[trigger] reached(
            probes,
            start,
            rank + 1,
            loaded,
            place,
        ) by {
        lemma_reached_step(probes, start, rank, loaded, place);
    }
    assert forall|i: int| 0 <= i < rows.len() implies returnable(
        probes,
        start,
        rank + 1,
        loaded,
        filter,
        #[trigger] rows[i],
    ) by {
        assert(returnable(probes, start, rank, loaded, filter, rows[i]));
        assert(reached(probes, start, rank + 1, loaded, rows[i].0 as int));
    }
    assert forall|row: RowKey| #[trigger]
        returnable(probes, start, rank + 1, loaded, filter, row) && !rows.contains(
            row,
        ) implies turned_away(
            after,
            bounds,
            row,
        ) by {
        assert(reached(probes, start, rank + 1, loaded, row.0 as int));
        assert(returnable(probes, start, rank, loaded, filter, row));
    }
}

proof fn lemma_reached_step(
    probes: Seq<usize>,
    start: nat,
    rank: nat,
    loaded: Seq<LoadedList>,
    place: int,
)
    requires
        start <= rank,
    ensures
        reached(probes, start, rank + 1, loaded, place) == (reached(
            probes,
            start,
            rank,
            loaded,
            place,
        ) || crate::plan::loaded_at(crate::session::loaded_ids(loaded), probes[rank as int])
            == Some(place)),
{
    let ids = crate::session::loaded_ids(loaded);
    if reached(probes, start, rank + 1, loaded, place) {
        let r = choose|r: int|
            start <= r < rank + 1 && #[trigger] crate::plan::loaded_at(ids, probes[r]) == Some(
                place,
            );
        if r < rank {
            assert(crate::plan::loaded_at(ids, probes[r]) == Some(place));
        }
    }
    if reached(probes, start, rank, loaded, place) {
        let r = choose|r: int|
            start <= r < rank && #[trigger] crate::plan::loaded_at(ids, probes[r]) == Some(place);
        assert(crate::plan::loaded_at(ids, probes[r]) == Some(place));
    }
}

/// A list is reached by one rank only.
proof fn lemma_reached_once(
    probes: Seq<usize>,
    start: nat,
    rank: nat,
    loaded: Seq<LoadedList>,
    place: int,
)
    requires
        probes.no_duplicates(),
        rank < probes.len(),
        crate::plan::loaded_at(crate::session::loaded_ids(loaded), probes[rank as int]) == Some(
            place,
        ),
    ensures
        !reached(probes, start, rank, loaded, place),
{
    let ids = crate::session::loaded_ids(loaded);
    if reached(probes, start, rank, loaded, place) {
        let r = choose|r: int|
            start <= r < rank && #[trigger] crate::plan::loaded_at(ids, probes[r]) == Some(place);
        crate::plan::lemma_loaded_at(ids, probes[r]);
        crate::plan::lemma_loaded_at(ids, probes[rank as int]);
        assert(probes[r] != probes[rank as int]);
    }
}

/// The scan of the list of the next rank.
pub proof fn lemma_rank_scanned<F: RowIdFilter, E: Fn(usize, usize, usize) -> u32>(
    before: TopKHeap,
    now: TopKHeap,
    after: TopKHeap,
    query: usize,
    probes: Seq<usize>,
    start: nat,
    rank: nat,
    loaded: Seq<LoadedList>,
    filter: Option<&F>,
    bounds: spec_fn(RowKey, u32) -> bool,
    distance_of: E,
    is_bound: spec_fn(int, u32) -> bool,
    rows: Seq<RowKey>,
    distances: Seq<u32>,
    place: usize,
    taken: Seq<usize>,
    dists: Seq<u32>,
)
    requires
        forall|p: int, bound: u32| #[trigger]
            is_bound(p, bound) && 0 <= p <= usize::MAX ==> bounds((place, p as usize), bound),
        start <= rank < probes.len(),
        probes.no_duplicates(),
        offered_rows(
            before,
            now,
            query,
            probes,
            start,
            rank,
            loaded,
            filter,
            bounds,
            distance_of,
            rows,
            distances,
        ),
        place < loaded.len(),
        loaded[place as int].ids@.len() <= usize::MAX,
        crate::plan::loaded_at(crate::session::loaded_ids(loaded), probes[rank as int]) == Some(
            place as int,
        ),
        crate::pruned::pruned_scan(
            now,
            after,
            loaded[place as int].ids@,
            crate::pruned::eligible_rows(loaded[place as int].ids@, filter),
            is_bound,
            taken,
            dists,
            loaded[place as int].ids@.len(),
        ),
        crate::ivfrq_search::measured(distance_of, query, place, taken, dists),
    ensures
        offered_rows(
            before,
            after,
            query,
            probes,
            start,
            rank + 1,
            loaded,
            filter,
            bounds,
            distance_of,
            rows + rows_at(place, taken),
            distances + dists,
        ),
{
    let ids = loaded[place as int].ids@;
    let eligible = crate::pruned::eligible_rows(ids, filter);
    let more = rows_at(place, taken);
    let all = rows + more;
    let dist = distances + dists;
    lemma_reached_once(probes, start, rank, loaded, place as int);
    assert forall|p: int| #[trigger]
        reached(probes, start, rank + 1, loaded, p) == (reached(probes, start, rank, loaded, p) || p
            == place) by {
        lemma_reached_step(probes, start, rank, loaded, p);
    }
    assert forall|i: int| 0 <= i < all.len() implies returnable(
        probes,
        start,
        rank + 1,
        loaded,
        filter,
        #[trigger] all[i],
    ) && call_ensures(distance_of, (query, all[i].0, all[i].1), dist[i]) by {
        if i < rows.len() {
            assert(returnable(probes, start, rank, loaded, filter, rows[i]));
            assert(reached(probes, start, rank + 1, loaded, rows[i].0 as int));
        } else {
            let t = i - rows.len();
            assert(all[i] == (place, taken[t]));
            assert(eligible(taken[t] as int));
            assert(reached(probes, start, rank + 1, loaded, place as int));
            assert(dist[i] == dists[t]);
        }
    }
    assert(all.no_duplicates()) by {
        assert forall|i: int, j: int|
            0 <= i < all.len() && 0 <= j < all.len() && i != j implies all[i] != all[j] by {
            if i < rows.len() && j < rows.len() {
            } else if i < rows.len() {
                assert(returnable(probes, start, rank, loaded, filter, rows[i]));
            } else if j < rows.len() {
                assert(returnable(probes, start, rank, loaded, filter, rows[j]));
            } else {
                assert(taken[i - rows.len()] != taken[j - rows.len()]);
            }
        }
    }
    assert(row_items(loaded, all, dist) =~= row_items(loaded, rows, distances)
        + crate::pruned::taken_items(ids, taken, dists));
    crate::pruned::lemma_absorbs_both(
        before,
        now,
        after,
        row_items(loaded, rows, distances),
        crate::pruned::taken_items(ids, taken, dists),
    );
    assert forall|row: RowKey| #[trigger]
        returnable(probes, start, rank + 1, loaded, filter, row) && !all.contains(
            row,
        ) implies turned_away(
            after,
            bounds,
            row,
        ) by {
        assert(reached(probes, start, rank + 1, loaded, row.0 as int));
        if row.0 == place {
            assert(eligible(row.1 as int));
            assert(!taken.contains(row.1)) by {
                if taken.contains(row.1) {
                    let t = choose|t: int| 0 <= t < taken.len() && taken[t] == row.1;
                    assert(all[rows.len() + t] == row);
                }
            }
            assert(crate::pruned::skipped(after, is_bound, row.1 as int));
            let bound = choose|bound: u32| #[trigger]
                is_bound(row.1 as int, bound) && !after.admits(bound);
            assert(bounds(row, bound));
        } else {
            assert(returnable(probes, start, rank, loaded, filter, row));
            assert(!rows.contains(row)) by {
                if rows.contains(row) {
                    let i = choose|i: int| 0 <= i < rows.len() && rows[i] == row;
                    assert(all[i] == row);
                }
            }
            lemma_turned_away_stays(
                now,
                after,
                bounds,
                row,
            );
        }
    }
}

/// The work that scanning all rows of a loaded list always takes.
pub open spec fn list_work<F: RowIdFilter>(
    loaded: Seq<LoadedList>,
    filter: Option<&F>,
    shape: ScanShape,
    place: int,
    rows: nat,
) -> Work {
    let fast = if crate::ivfrq_search::fast_shape(shape, filter is Some) {
        rows / 32
    } else {
        0
    };
    Work {
        scanned: rows,
        eligible: crate::ivfrq_search::eligible_count(
            crate::pruned::eligible_rows(loaded[place].ids@, filter),
            rows,
        ),
        fast_blocks: fast,
        scalar_blocks: ((rows + 31) / 32 - fast) as nat,
        refined: 0,
        taken: 0,
        fast_taken: 0,
        admitted: 0,
    }
}

/// The rows, eligible rows and blocks agree.
pub open spec fn same_scans(a: Work, b: Work) -> bool {
    &&& a.scanned == b.scanned
    &&& a.eligible == b.eligible
    &&& a.fast_blocks == b.fast_blocks
    &&& a.scalar_blocks == b.scalar_blocks
}

/// The work of scanning the lists that a query's probes of ranks
/// `start..upto` name.
pub open spec fn probe_work<F: RowIdFilter>(
    probes: Seq<usize>,
    start: nat,
    upto: nat,
    loaded: Seq<LoadedList>,
    filter: Option<&F>,
    shape: ScanShape,
) -> Work
    decreases upto,
{
    if upto <= start {
        crate::ivfrq_search::no_work()
    } else {
        let before = probe_work(probes, start, (upto - 1) as nat, loaded, filter, shape);
        match crate::plan::loaded_at(crate::session::loaded_ids(loaded), probes[upto - 1]) {
            Some(p) => crate::ivfrq_search::both(
                before,
                list_work(loaded, filter, shape, p, loaded[p].ids@.len()),
            ),
            None => before,
        }
    }
}

/// Scans the loaded lists that a query probes, in the order of its probes.
#[verifier::spinoff_prover]
fn scan_query<
    F: RowIdFilter,
    B: Fn(usize, usize, usize, bool) -> u32,
    A: Fn(usize, usize, usize) -> u32,
    E: Fn(usize, usize, usize) -> u32,
>(
    query: usize,
    probes: &Vec<usize>,
    start: usize,
    positions: &Vec<usize>,
    loaded: &Vec<LoadedList>,
    filter: Option<&F>,
    shape: ScanShape,
    kernel: &RowKernel<B, A, E>,
    heap: &mut TopKHeap,
    stats: &mut IVFRQSearchStats,
) -> (out: (Ghost<Seq<RowKey>>, Ghost<Seq<u32>>, Ghost<Work>, Ghost<QueryTrace>))
    requires
        old(heap).well_formed(),
        shape.bits >= 1,
        shape.plane_size >= 1,
        loaded@.len() < usize::MAX,
        probes@.no_duplicates(),
        forall|r: int| 0 <= r < probes@.len() ==> #[trigger] probes@[r] < positions@.len(),
        forall|l: int|
            0 <= l < positions@.len() ==> #[trigger] positions@[l] == (
            match crate::plan::loaded_at(crate::session::loaded_ids(loaded@), l as usize) {
                Some(p) => p as usize,
                None => usize::MAX,
            }),
        forall|place: usize|
            place < loaded@.len() ==> #[trigger] crate::ivfrq_search::scans_rows(
                kernel.bound_of,
                kernel.approximate_of,
                kernel.distance_of,
                query,
                place,
                loaded@[place as int].ids@.len(),
            ),
    ensures
        final(heap).well_formed(),
        offered_rows(
            *old(heap),
            *final(heap),
            query,
            probes@,
            start as nat,
            probes@.len(),
            loaded@,
            filter,
            kernel_bounds(*kernel, query, loaded@, filter is Some, shape),
            kernel.distance_of,
            out.0@,
            out.1@,
        ),
        crate::ivfrq_search::counts(*old(stats), *final(stats), shape, out.2@),
        same_scans(
            out.2@,
            probe_work(probes@, start as nat, probes@.len(), loaded@, filter, shape),
        ),
        crate::ivfrq_trace::query_traced(
            *old(heap),
            *final(heap),
            query,
            probes@,
            start as nat,
            probes@.len(),
            loaded@,
            filter,
            shape,
            crate::ivfrq_trace::kernel_rules(*kernel, query, loaded@, filter is Some, shape),
            out.3@,
        ),
        out.2@ == crate::ivfrq_trace::total_work(out.3@.works),
{
    let ghost before = *heap;
    let ghost rules = crate::ivfrq_trace::kernel_rules(
        *kernel,
        query,
        loaded@,
        filter is Some,
        shape,
    );
    let ghost mut trace = QueryTrace { states: seq![*heap], works: Seq::empty() };
    let ghost stats_before = *stats;
    let ghost mut rows: Seq<RowKey> = Seq::empty();
    let ghost mut distances: Seq<u32> = Seq::empty();
    let ghost mut work: Work = crate::ivfrq_search::no_work();
    proof {
        crate::pruned::lemma_absorbs_nothing(before);
        crate::ivfrq_search::lemma_counts_nothing(stats_before, shape);
        assert(row_items(loaded@, rows, distances) =~= Seq::<Neighbor>::empty());
    }
    let mut r: usize = start;
    while r < probes.len()
        invariant
            start <= r,
            start <= probes@.len() ==> r <= probes@.len(),
            start > probes@.len() ==> r == start,
            heap.well_formed(),
            shape.bits >= 1,
            shape.plane_size >= 1,
            loaded@.len() < usize::MAX,
            probes@.no_duplicates(),
            forall|i: int| 0 <= i < probes@.len() ==> #[trigger] probes@[i] < positions@.len(),
            forall|l: int|
                0 <= l < positions@.len() ==> #[trigger] positions@[l] == (
                match crate::plan::loaded_at(crate::session::loaded_ids(loaded@), l as usize) {
                    Some(p) => p as usize,
                    None => usize::MAX,
                }),
            forall|place: usize|
                place < loaded@.len() ==> #[trigger] crate::ivfrq_search::scans_rows(
                    kernel.bound_of,
                    kernel.approximate_of,
                    kernel.distance_of,
                    query,
                    place,
                    loaded@[place as int].ids@.len(),
                ),
            offered_rows(
                before,
                *heap,
                query,
                probes@,
                start as nat,
                r as nat,
                loaded@,
                filter,
                kernel_bounds(*kernel, query, loaded@, filter is Some, shape),
                kernel.distance_of,
                rows,
                distances,
            ),
            crate::ivfrq_search::counts(stats_before, *stats, shape, work),
            same_scans(work, probe_work(probes@, start as nat, r as nat, loaded@, filter, shape)),
            rules == crate::ivfrq_trace::kernel_rules(
                *kernel,
                query,
                loaded@,
                filter is Some,
                shape,
            ),
            crate::ivfrq_trace::query_traced(
                before,
                *heap,
                query,
                probes@,
                start as nat,
                r as nat,
                loaded@,
                filter,
                shape,
                rules,
                trace,
            ),
            work == crate::ivfrq_trace::total_work(trace.works),
        decreases probes@.len() - r,
    {
        let list: usize = probes[r];
        let position: usize = positions[list];
        proof {
            crate::plan::lemma_loaded_at(crate::session::loaded_ids(loaded@), list);
        }
        if position != usize::MAX {
            let entry = &loaded[position];
            let total: usize = entry.ids.len();
            let ghost now = *heap;
            let ghost stats_now = *stats;
            scan_blocked_list(
                query,
                position,
                entry.ids.as_slice(),
                entry.ids.as_slice(),
                filter,
                shape,
                &kernel.bound_of,
                &kernel.approximate_of,
                &kernel.distance_of,
                heap,
                stats,
                usize::MAX,
            );
            proof {
                let source = crate::ivfrq_search::scan_source(
                    query,
                    position,
                    entry.ids@,
                    entry.ids@,
                    filter,
                    shape,
                );
                assert(crate::ivfrq_search::limited(entry.ids@.len(), usize::MAX as nat)
                    == entry.ids@.len());
                let (taken, dists, done) = choose|
                    taken: Seq<usize>,
                    dists: Seq<u32>,
                    done: Work,
                | #[trigger]
                    crate::ivfrq_search::blocked_scan(
                        now,
                        *heap,
                        stats_now,
                        *stats,
                        source,
                        crate::ivfrq_search::limited(entry.ids@.len(), usize::MAX as nat),
                        kernel.bound_of,
                        kernel.approximate_of,
                        kernel.distance_of,
                        taken,
                        dists,
                        done,
                    );
                let is_bound = crate::ivfrq_search::block_bounds(
                    kernel.bound_of,
                    kernel.approximate_of,
                    query,
                    position,
                    shape,
                    filter is Some,
                    entry.ids@.len() as int,
                );
                lemma_rank_scanned(
                    before,
                    now,
                    *heap,
                    query,
                    probes@,
                    start as nat,
                    r as nat,
                    loaded@,
                    filter,
                    kernel_bounds(*kernel, query, loaded@, filter is Some, shape),
                    kernel.distance_of,
                    is_bound,
                    rows,
                    distances,
                    position,
                    taken,
                    dists,
                );
                crate::ivfrq_search::law_counts_add_up(
                    stats_before,
                    stats_now,
                    *stats,
                    shape,
                    work,
                    done,
                );
                crate::ivfrq_trace::lemma_blocked_scan_traced(
                    now,
                    *heap,
                    stats_now,
                    *stats,
                    source,
                    entry.ids@.len(),
                    *kernel,
                    loaded@,
                    taken,
                    dists,
                    done,
                );
                crate::ivfrq_trace::lemma_rank_joins(
                    before,
                    now,
                    *heap,
                    query,
                    probes@,
                    start as nat,
                    r as nat,
                    loaded@,
                    filter,
                    shape,
                    rules,
                    trace,
                    done,
                );
                trace = QueryTrace {
                    states: trace.states.push(*heap),
                    works: trace.works.push(done),
                };
                rows = rows + rows_at(position, taken);
                distances = distances + dists;
                work = crate::ivfrq_search::both(work, done);
            }
        } else {
            proof {
                lemma_rank_without_list(
                    before,
                    *heap,
                    query,
                    probes@,
                    start as nat,
                    r as nat,
                    loaded@,
                    filter,
                    kernel_bounds(*kernel, query, loaded@, filter is Some, shape),
                    kernel.distance_of,
                    rows,
                    distances,
                );
                let none = crate::ivfrq_search::no_work();
                crate::ivfrq_trace::lemma_rank_joins(
                    before,
                    *heap,
                    *heap,
                    query,
                    probes@,
                    start as nat,
                    r as nat,
                    loaded@,
                    filter,
                    shape,
                    rules,
                    trace,
                    none,
                );
                trace = QueryTrace {
                    states: trace.states.push(*heap),
                    works: trace.works.push(none),
                };
                assert(crate::ivfrq_search::both(work, none) == work);
            }
        }
        r = r + 1;
    }
    proof {
        if start > probes@.len() {
            assert forall|row: RowKey|
                returnable(
                    probes@,
                    start as nat,
                    start as nat,
                    loaded@,
                    filter,
                    row,
                ) == #[trigger] returnable(
                    probes@,
                    start as nat,
                    probes@.len(),
                    loaded@,
                    filter,
                    row,
                ) by {}
            assert forall|i: int| 0 <= i < rows.len() implies returnable(
                probes@,
                start as nat,
                probes@.len(),
                loaded@,
                filter,
                #[trigger] rows[i],
            ) by {
                assert(returnable(probes@, start as nat, r as nat, loaded@, filter, rows[i]));
            }
        }
    }
    (Ghost(rows), Ghost(distances), Ghost(work), Ghost(trace))
}

/// A row's position in the place of its id.
pub open spec fn row_label(row: usize) -> i64 {
    #[verifier::truncate]
    ((row as u64) as i64)
}

/// The position that a label stands for.
pub open spec fn labelled(label: i64) -> usize {
    #[verifier::truncate]
    ((label as u64) as usize)
}

proof fn lemma_row_label(row: usize)
    ensures
        labelled(row_label(row)) == row,
{
    let wide = row as u64;
    assert((wide as i64) as u64 == wide) by (bit_vector);
}

/// The positions of `n` rows as labels.
fn row_labels(n: usize) -> (labels: Vec<i64>)
    ensures
        labels@.len() == n,
        forall|i: int| 0 <= i < n ==> #[trigger] labels@[i] == row_label(i as usize),
{
    let mut labels: Vec<i64> = Vec::new();
    let mut i: usize = 0;
    while i < n
        invariant
            i <= n,
            labels@.len() == i,
            forall|j: int| 0 <= j < i ==> #[trigger] labels@[j] == row_label(j as usize),
        decreases n - i,
    {
        labels.push(
            #[verifier::truncate]
            ((i as u64) as i64),
        );
        i = i + 1;
    }
    labels
}

fn labelled_row(label: i64) -> (row: usize)
    ensures
        row == labelled(label),
{
    #[verifier::truncate]
    ((label as u64) as usize)
}

/// What a bounded scan of one list keeps: different rows, by the distances
/// that the scan gave them.
proof fn lemma_task_results(
    empty: TopKHeap,
    heap: TopKHeap,
    labels: Seq<i64>,
    eligible: spec_fn(int) -> bool,
    is_bound: spec_fn(int, u32) -> bool,
    taken: Seq<usize>,
    dists: Seq<u32>,
    n: nat,
    results: Seq<Neighbor>,
)
    requires
        n == labels.len(),
        n <= usize::MAX,
        forall|i: int| 0 <= i < n ==> #[trigger] labels[i] == row_label(i as usize),
        empty.items() == Seq::<Neighbor>::empty(),
        crate::pruned::pruned_scan(empty, heap, labels, eligible, is_bound, taken, dists, n),
        results.to_multiset() == heap.contents(),
    ensures
        forall|j: int|
            0 <= j < results.len() ==> exists|t: int|
                0 <= t < taken.len() && #[trigger] taken[t] == labelled(#[trigger] results[j].1)
                    && dists[t] == results[j].0,
        forall|i: int, j: int|
            0 <= i < j < results.len() ==> labelled(#[trigger] results[i].1) != labelled(
                #[trigger] results[j].1,
            ),
        crate::topk::nearest_of(
            crate::pruned::worthy(
                empty.max_distance(),
                crate::pruned::taken_items(labels, taken, dists),
            ).to_multiset(),
            results.to_multiset(),
            empty.spec_k() as nat,
        ),
{
    broadcast use vstd::seq_lib::group_to_multiset_ensures;

    let limit = empty.max_distance();
    let items = crate::pruned::taken_items(labels, taken, dists);
    let worthy = crate::pruned::worthy(limit, items);
    crate::scan::lemma_empty_heap(empty);
    assert(Multiset::<Neighbor>::empty().add(worthy.to_multiset()) =~= worthy.to_multiset());
    assert(items.no_duplicates()) by {
        assert forall|i: int, j: int|
            0 <= i < items.len() && 0 <= j < items.len() && i != j implies items[i] != items[j] by {
            lemma_row_label(taken[i]);
            lemma_row_label(taken[j]);
            assert(taken[i] != taken[j]);
        }
    }
    items.lemma_multiset_has_no_duplicates();
    crate::pruned::lemma_worthy_counts(limit, items);
    assert forall|x: Neighbor| results.to_multiset().contains(x) implies results.to_multiset().count(
        x,
    ) == 1 by {
        assert(results.to_multiset().count(x) <= worthy.to_multiset().count(x));
        assert(items.to_multiset().contains(x));
    }
    results.lemma_multiset_has_no_duplicates_conv();
    assert forall|j: int| 0 <= j < results.len() implies exists|t: int|
        0 <= t < taken.len() && #[trigger] taken[t] == labelled(#[trigger] results[j].1)
            && dists[t] == results[j].0 by {
        assert(results.contains(results[j]));
        assert(results.to_multiset().contains(results[j]));
        assert(items.to_multiset().contains(results[j]));
        assert(items.contains(results[j]));
        let t = choose|t: int| 0 <= t < items.len() && items[t] == results[j];
        lemma_row_label(taken[t]);
        assert(taken[t] == labelled(results[j].1) && dists[t] == results[j].0);
    }
    assert forall|i: int, j: int| 0 <= i < j < results.len() implies labelled(
        #[trigger] results[i].1,
    ) != labelled(#[trigger] results[j].1) by {
        if labelled(results[i].1) == labelled(results[j].1) {
            assert(items.contains(results[i]) && items.contains(results[j])) by {
                assert(results.to_multiset().contains(results[i]));
                assert(results.to_multiset().contains(results[j]));
                assert(items.to_multiset().contains(results[i]));
                assert(items.to_multiset().contains(results[j]));
            }
            let a = choose|t: int| 0 <= t < items.len() && items[t] == results[i];
            let b = choose|t: int| 0 <= t < items.len() && items[t] == results[j];
            lemma_row_label(taken[a]);
            lemma_row_label(taken[b]);
            if a != b {
                assert(taken[a] != taken[b]);
            }
            assert(results[i] == results[j]);
        }
    }
}

/// As `offered_rows`, with the lists at places before `done` accounted for.
spec fn accounted<F: RowIdFilter, E: Fn(usize, usize, usize) -> u32>(
    before: TopKHeap,
    after: TopKHeap,
    query: usize,
    probes: Seq<usize>,
    start: nat,
    loaded: Seq<LoadedList>,
    filter: Option<&F>,
    bounds: spec_fn(RowKey, u32) -> bool,
    distance_of: E,
    rows: Seq<RowKey>,
    distances: Seq<u32>,
    done: int,
) -> bool {
    &&& offers_measured(
        query,
        probes,
        start,
        loaded,
        filter,
        distance_of,
        rows,
        distances,
    )
    &&& crate::pruned::absorbs(before, after, row_items(loaded, rows, distances))
    &&& forall|row: RowKey| #[trigger]
        returnable(probes, start, probes.len(), loaded, filter, row) && row.0 < done
            && !rows.contains(row) ==> turned_away(
                after,
                bounds,
                row,
            )
}

/// Different rows that may be returned, by their distances.
spec fn offers_measured<F: RowIdFilter, E: Fn(usize, usize, usize) -> u32>(
    query: usize,
    probes: Seq<usize>,
    start: nat,
    loaded: Seq<LoadedList>,
    filter: Option<&F>,
    distance_of: E,
    rows: Seq<RowKey>,
    distances: Seq<u32>,
) -> bool {
    &&& distances.len() == rows.len()
    &&& rows.no_duplicates()
    &&& forall|i: int|
        0 <= i < rows.len() ==> returnable(
            probes,
            start,
            probes.len(),
            loaded,
            filter,
            #[trigger] rows[i],
        ) && call_ensures(distance_of, (query, rows[i].0, rows[i].1), distances[i])
}

/// A collection that was offered `rows`, among them `k` results of a list that
/// are as near as `bound`, refuses the bound.
proof fn lemma_full_task_refuses<F: RowIdFilter, E: Fn(usize, usize, usize) -> u32>(
    before: TopKHeap,
    after: TopKHeap,
    query: usize,
    probes: Seq<usize>,
    start: nat,
    loaded: Seq<LoadedList>,
    filter: Option<&F>,
    distance_of: E,
    rows: Seq<RowKey>,
    distances: Seq<u32>,
    place: usize,
    results: Seq<Neighbor>,
    bound: u32,
)
    requires
        before.well_formed(),
        before.max_distance() is None,
        consistent(distance_of),
        offers_measured(
            query,
            probes,
            start,
            loaded,
            filter,
            distance_of,
            rows,
            distances,
        ),
        crate::pruned::absorbs(before, after, row_items(loaded, rows, distances)),
        crate::scan::numbers(results),
        results.len() == before.spec_k(),
        forall|j: int|
            0 <= j < results.len() ==> rows.contains(
                (place, labelled(#[trigger] results[j].1)),
            ) && call_ensures(
                distance_of,
                (query, place, labelled(results[j].1)),
                results[j].0,
            ) && !crate::order::less(bound, results[j].0),
        forall|i: int, j: int|
            0 <= i < j < results.len() ==> labelled(#[trigger] results[i].1) != labelled(
                #[trigger] results[j].1,
            ),
    ensures
        !after.admits(bound),
{
    let k = before.spec_k() as nat;
    let items = row_items(loaded, rows, distances);
    let row_of = |j: int| (place, labelled(results[j].1));
    let at = Seq::new(results.len(), |j: int| rows.index_of(row_of(j)));
    let near = Seq::new(
        results.len(),
        |j: int| (results[j].0, loaded[place as int].ids@[row_of(j).1 as int]),
    );
    assert forall|j: int| 0 <= j < near.len() implies 0 <= #[trigger] at[j] < items.len()
        && items[at[j]] == near[j] by {
        assert(rows.contains((place, labelled(results[j].1))));
        let i = at[j];
        assert(rows[i] == row_of(j));
        assert(call_ensures(distance_of, (query, rows[i].0, rows[i].1), distances[i]));
        assert(distances[i] == results[j].0);
    }
    assert forall|i: int, j: int| 0 <= i < j < at.len() implies #[trigger] at[i]
        != #[trigger] at[j] by {
        assert(rows.contains((place, labelled(results[i].1))));
        assert(rows.contains((place, labelled(results[j].1))));
        assert(rows[at[i]] == row_of(i));
        assert(rows[at[j]] == row_of(j));
    }
    crate::pruned::lemma_placed_items(near, items, at);
    crate::pruned::lemma_worthy_counts(None, items);
    let worthy = crate::pruned::worthy(None, items).to_multiset();
    near.to_multiset_ensures();
    assert forall|x: Neighbor| near.to_multiset().contains(x) implies !crate::order::is_nan(x.0)
        && !crate::order::less(bound, x.0) by {
        assert(near.contains(x));
        let j = choose|j: int| 0 <= j < near.len() && near[j] == x;
        assert(!crate::order::is_nan(results[j].0));
        assert(rows.contains((place, labelled(results[j].1))));
    }
    let kept = before.contents();
    before.lemma_facts();
    lemma_itself(kept, k);
    let seen = kept.add(worthy);
    assert(crate::topk::nearest_of(seen, after.contents(), k));
    assert forall|v: Neighbor| near.to_multiset().count(v) <= seen.count(v) by {
        assert(near.to_multiset().count(v) <= items.to_multiset().count(v));
        if near.to_multiset().count(v) > 0 {
            assert(near.to_multiset().contains(v));
        }
    }
    crate::pruned::lemma_enough_seen(seen, after, near.to_multiset(), bound);
}

/// Few enough items are the nearest of themselves.
proof fn lemma_itself(items: Multiset<Neighbor>, k: nat)
    requires
        items.len() <= k,
    ensures
        crate::topk::nearest_of(items, items, k),
{
    assert forall|x: Neighbor, y: Neighbor|
        #![trigger items.contains(x), items.sub(items).contains(y)]
        items.contains(x) && items.sub(items).contains(y) implies crate::order::numeric_key(x.0)
        <= crate::order::numeric_key(y.0) by {
        assert(items.sub(items).count(y) == 0);
    }
}

/// Rows whose distances the collection refuses count as offered.
proof fn lemma_add_refused<F: RowIdFilter, E: Fn(usize, usize, usize) -> u32>(
    before: TopKHeap,
    after: TopKHeap,
    query: usize,
    probes: Seq<usize>,
    start: nat,
    loaded: Seq<LoadedList>,
    filter: Option<&F>,
    distance_of: E,
    rows: Seq<RowKey>,
    distances: Seq<u32>,
    place: usize,
    taken: Seq<usize>,
    dists: Seq<u32>,
) -> (out: (Seq<RowKey>, Seq<u32>))
    requires
        before.max_distance() is None,
        offers_measured(
            query,
            probes,
            start,
            loaded,
            filter,
            distance_of,
            rows,
            distances,
        ),
        crate::pruned::absorbs(before, after, row_items(loaded, rows, distances)),
        crate::ivfrq_search::measured(distance_of, query, place, taken, dists),
        forall|t: int|
            0 <= t < taken.len() ==> returnable(
                probes,
                start,
                probes.len(),
                loaded,
                filter,
                (place, #[trigger] taken[t]),
            ),
        forall|t: int|
            0 <= t < taken.len() ==> rows.contains((place, #[trigger] taken[t]))
                || crate::order::is_nan(dists[t]) || !after.admits(dists[t]),
    ensures
        offers_measured(
            query,
            probes,
            start,
            loaded,
            filter,
            distance_of,
            out.0,
            out.1,
        ),
        crate::pruned::absorbs(before, after, row_items(loaded, out.0, out.1)),
        forall|row: RowKey| #[trigger]
            out.0.contains(row) <==> rows.contains(row) || (row.0 == place && taken.contains(row.1)),
    decreases taken.len(),
{
    if taken.len() == 0 {
        (rows, distances)
    } else {
        let last = taken.len() - 1;
        let shorter = taken.drop_last();
        let (most, dist) = lemma_add_refused(
            before,
            after,
            query,
            probes,
            start,
            loaded,
            filter,
            distance_of,
            rows,
            distances,
            place,
            shorter,
            dists.drop_last(),
        );
        let row = (place, taken[last]);
        let out = if most.contains(row) {
            (most, dist)
        } else {
            assert(!rows.contains(row));
            let all = most.push(row);
            let all_dist = dist.push(dists[last]);
            let item = (dists[last], loaded[place as int].ids@[taken[last] as int]);
            crate::pruned::lemma_absorbs_refused(
                before,
                after,
                row_items(loaded, most, dist),
                item,
            );
            assert(row_items(loaded, all, all_dist) =~= row_items(loaded, most, dist).push(item));
            assert(returnable(
                probes,
                start,
                probes.len(),
                loaded,
                filter,
                (place, taken[last]),
            ));
            assert(all.no_duplicates()) by {
                assert forall|i: int, j: int|
                    0 <= i < all.len() && 0 <= j < all.len() && i != j implies all[i] != all[j] by {
                    if i == most.len() {
                        assert(most.contains(most[j]));
                    } else if j == most.len() {
                        assert(most.contains(most[i]));
                    }
                }
            }
            (all, all_dist)
        };
        assert forall|r: RowKey| #[trigger]
            out.0.contains(r) <==> rows.contains(r) || (r.0 == place && taken.contains(r.1)) by {
            if taken.contains(r.1) && r.1 != taken[last] {
                let t = choose|t: int| 0 <= t < taken.len() && taken[t] == r.1;
                assert(shorter[t] == r.1);
            }
            if shorter.contains(r.1) {
                let t = choose|t: int| 0 <= t < shorter.len() && shorter[t] == r.1;
                assert(taken[t] == r.1);
            }
            assert(taken.contains(taken[last]));
            if !most.contains(row) {
                let all = most.push(row);
                assert(all[most.len() as int] == row);
                if most.contains(r) {
                    let i = choose|i: int| 0 <= i < most.len() && most[i] == r;
                    assert(all[i] == r);
                }
                if all.contains(r) && r != row {
                    let i = choose|i: int| 0 <= i < all.len() && all[i] == r;
                    assert(most[i] == r);
                }
            }
        }
        out
    }
}

/// The rows are results of a list task that were not known already, by their
/// distances.
spec fn are_new_results(
    place: usize,
    rows: Seq<RowKey>,
    results: Seq<Neighbor>,
    pushed: Seq<RowKey>,
    dists: Seq<u32>,
) -> bool {
    forall|i: int|
        0 <= i < pushed.len() ==> (#[trigger] pushed[i]).0 == place && !rows.contains(pushed[i])
            && exists|j: int|
            0 <= j < results.len() && pushed[i].1 == labelled(#[trigger] results[j].1) && dists[i]
                == results[j].0
}

/// Offers the results of a list task, except for the rows that are known
/// already.
fn merge_task(
    place: usize,
    loaded: &Vec<LoadedList>,
    results: &Vec<Neighbor>,
    known: &Vec<bool>,
    heap: &mut TopKHeap,
    Ghost(rows): Ghost<Seq<RowKey>>,
) -> (out: (Ghost<Seq<RowKey>>, Ghost<Seq<u32>>))
    requires
        old(heap).well_formed(),
        place < loaded@.len(),
        forall|j: int|
            0 <= j < results@.len() ==> labelled(#[trigger] results@[j].1)
                < loaded@[place as int].ids@.len(),
        forall|i: int, j: int|
            0 <= i < j < results@.len() ==> labelled(#[trigger] results@[i].1) != labelled(
                #[trigger] results@[j].1,
            ),
        forall|r: usize| #[trigger]
            rows.contains((place, r)) <==> r < known@.len() && known@[r as int],
    ensures
        final(heap).well_formed(),
        out.1@.len() == out.0@.len(),
        crate::pruned::absorbs(*old(heap), *final(heap), row_items(loaded@, out.0@, out.1@)),
        out.0@.no_duplicates(),
        are_new_results(place, rows, results@, out.0@, out.1@),
        forall|j: int|
            0 <= j < results@.len() ==> rows.contains(
                (place, labelled(#[trigger] results@[j].1)),
            ) || out.0@.contains((place, labelled(results@[j].1))),
        final(heap).items() == crate::topk::all_pushed(
            old(heap).items(),
            old(heap).spec_k() as nat,
            crate::pruned::worthy(
                old(heap).max_distance(),
                crate::ivfrq_trace::new_items(
                    results@,
                    known@,
                    loaded@[place as int].ids@,
                ),
            ),
        ),
{
    let ghost before = *heap;
    let ghost mut pushed: Seq<RowKey> = Seq::empty();
    let ghost mut dists: Seq<u32> = Seq::empty();
    proof {
        crate::pruned::lemma_absorbs_nothing(before);
        assert(row_items(loaded@, pushed, dists) =~= Seq::<Neighbor>::empty());
        assert(results@.take(0) =~= Seq::<Neighbor>::empty());
    }
    let ids = &loaded[place].ids;
    let mut i: usize = 0;
    while i < results.len()
        invariant
            i <= results@.len(),
            heap.well_formed(),
            place < loaded@.len(),
            ids@ == loaded@[place as int].ids@,
            forall|j: int|
                0 <= j < results@.len() ==> labelled(#[trigger] results@[j].1) < ids@.len(),
            forall|a: int, b: int|
                0 <= a < b < results@.len() ==> labelled(#[trigger] results@[a].1) != labelled(
                    #[trigger] results@[b].1,
                ),
            forall|r: usize| #[trigger]
                rows.contains((place, r)) <==> r < known@.len() && known@[r as int],
            dists.len() == pushed.len(),
            crate::pruned::absorbs(before, *heap, row_items(loaded@, pushed, dists)),
            pushed.no_duplicates(),
            forall|m: int|
                0 <= m < pushed.len() ==> (#[trigger] pushed[m]).0 == place && !rows.contains(
                    pushed[m],
                ) && exists|j: int|
                    0 <= j < i && pushed[m].1 == labelled(#[trigger] results@[j].1)
                        && dists[m] == results@[j].0,
            forall|j: int|
                0 <= j < i ==> rows.contains(
                    (place, labelled(#[trigger] results@[j].1)),
                ) || pushed.contains((place, labelled(results@[j].1))),
            heap.items() == crate::topk::all_pushed(
                before.items(),
                before.spec_k() as nat,
                crate::pruned::worthy(
                    before.max_distance(),
                    crate::ivfrq_trace::new_items(results@.take(i as int), known@, ids@),
                ),
            ),
        decreases results@.len() - i,
    {
        let item: Neighbor = results[i];
        let row: usize = labelled_row(item.1);
        let ghost key = (place, row);
        assert(row == labelled(results@[i as int].1));
        let skip: bool = row < known.len() && known[row];
        assert(results@.take(i + 1).drop_last() =~= results@.take(i as int));
        if !skip {
            let ghost now = *heap;
            let ghost old_pushed = pushed;
            offer_one(heap, item.0, ids[row]);
            proof {
                crate::ivfrq_trace::lemma_offer_joins(
                    before.items(),
                    now,
                    *heap,
                    crate::ivfrq_trace::new_items(results@.take(i as int), known@, ids@),
                    (item.0, ids@[row as int]),
                );
                assert(!rows.contains((place, row)));
                crate::pruned::lemma_absorbs_push(
                    before,
                    now,
                    *heap,
                    row_items(loaded@, pushed, dists),
                    (item.0, ids@[row as int]),
                );
                assert(row_items(loaded@, pushed.push(key), dists.push(item.0)) =~= row_items(
                    loaded@,
                    pushed,
                    dists,
                ).push((item.0, ids@[row as int])));
                assert(!pushed.contains(key)) by {
                    if pushed.contains(key) {
                        let m = choose|m: int| 0 <= m < pushed.len() && pushed[m] == key;
                        assert(pushed[m].0 == place);
                        let j = choose|j: int|
                            0 <= j < i && pushed[m].1 == labelled(#[trigger] results@[j].1)
                                && dists[m] == results@[j].0;
                        assert(labelled(results@[j].1) != labelled(results@[i as int].1));
                    }
                }
                pushed = pushed.push(key);
                dists = dists.push(item.0);
                assert forall|m: int|
                    0 <= m < pushed.len() implies (#[trigger] pushed[m]).0 == place
                    && !rows.contains(pushed[m]) && exists|j: int|
                    0 <= j < i + 1 && pushed[m].1 == labelled(#[trigger] results@[j].1)
                        && dists[m] == results@[j].0 by {
                    if m < old_pushed.len() {
                        assert(pushed[m] == old_pushed[m]);
                        let j = choose|j: int|
                            0 <= j < i && old_pushed[m].1 == labelled(#[trigger] results@[j].1)
                                && dists[m] == results@[j].0;
                        assert(pushed[m].1 == labelled(results@[j].1));
                    } else {
                        assert(pushed[m].1 == labelled(results@[i as int].1));
                    }
                }
                assert(pushed.no_duplicates()) by {
                    assert forall|a: int, b: int|
                        0 <= a < pushed.len() && 0 <= b < pushed.len() && a != b implies pushed[a]
                        != pushed[b] by {
                        if a == old_pushed.len() {
                            assert(old_pushed.contains(old_pushed[b]));
                        } else if b == old_pushed.len() {
                            assert(old_pushed.contains(old_pushed[a]));
                        }
                    }
                }
                assert forall|j: int| 0 <= j < i + 1 implies rows.contains(
                    (place, labelled(#[trigger] results@[j].1)),
                ) || pushed.contains((place, labelled(results@[j].1))) by {
                    let r = (place, labelled(results@[j].1));
                    if j < i && old_pushed.contains(r) {
                        let m = choose|m: int| 0 <= m < old_pushed.len() && old_pushed[m] == r;
                        assert(pushed[m] == r);
                    }
                    if j == i {
                        assert(pushed[old_pushed.len() as int] == r);
                    }
                }
            }
        }
        i = i + 1;
    }
    assert(results@.take(results@.len() as int) =~= results@);
    (Ghost(pushed), Ghost(dists))
}

/// Merging the results of a list task accounts for the list.
#[verifier::spinoff_prover]
proof fn lemma_task_merged<F: RowIdFilter, E: Fn(usize, usize, usize) -> u32>(
    before: TopKHeap,
    now: TopKHeap,
    after: TopKHeap,
    query: usize,
    probes: Seq<usize>,
    start: nat,
    loaded: Seq<LoadedList>,
    filter: Option<&F>,
    bounds: spec_fn(RowKey, u32) -> bool,
    distance_of: E,
    is_bound: spec_fn(int, u32) -> bool,
    rows: Seq<RowKey>,
    distances: Seq<u32>,
    place: usize,
    limit: u32,
    empty: TopKHeap,
    task: TopKHeap,
    labels: Seq<i64>,
    taken: Seq<usize>,
    dists: Seq<u32>,
    results: Seq<Neighbor>,
    pushed: Seq<RowKey>,
    pushed_dists: Seq<u32>,
) -> (out: (Seq<RowKey>, Seq<u32>))
    requires
        forall|p: int, bound: u32| #[trigger]
            is_bound(p, bound) && 0 <= p <= usize::MAX ==> bounds((place, p as usize), bound),
        before.well_formed(),
        before.max_distance() is None,
        consistent(distance_of),
        accounted(
            before,
            now,
            query,
            probes,
            start,
            loaded,
            filter,
            bounds,
            distance_of,
            rows,
            distances,
            place as int,
        ),
        place < loaded.len(),
        loaded[place as int].ids@.len() <= usize::MAX,
        reached(probes, start, probes.len(), loaded, place as int),
        forall|d: u32| crate::order::less(limit, d) ==> !#[trigger] now.admits(d),
        empty.items() == Seq::<Neighbor>::empty(),
        empty.spec_k() == before.spec_k(),
        empty.max_distance() == Some(limit),
        task.well_formed(),
        labels.len() == loaded[place as int].ids@.len(),
        forall|i: int| 0 <= i < labels.len() ==> #[trigger] labels[i] == row_label(i as usize),
        crate::pruned::pruned_scan(
            empty,
            task,
            labels,
            crate::pruned::eligible_rows(loaded[place as int].ids@, filter),
            is_bound,
            taken,
            dists,
            loaded[place as int].ids@.len(),
        ),
        crate::ivfrq_search::measured(distance_of, query, place, taken, dists),
        results.to_multiset() == task.contents(),
        pushed_dists.len() == pushed.len(),
        crate::pruned::absorbs(now, after, row_items(loaded, pushed, pushed_dists)),
        pushed.no_duplicates(),
        are_new_results(place, rows, results, pushed, pushed_dists),
        forall|j: int|
            0 <= j < results.len() ==> rows.contains((place, labelled(#[trigger] results[j].1)))
                || pushed.contains((place, labelled(results[j].1))),
    ensures
        accounted(
            before,
            after,
            query,
            probes,
            start,
            loaded,
            filter,
            bounds,
            distance_of,
            out.0,
            out.1,
            place + 1,
        ),
        forall|row: RowKey| #[trigger]
            out.0.contains(row) <==> rows.contains(row) || (row.0 == place && taken.contains(row.1)),
{
    let ids = loaded[place as int].ids@;
    let eligible = crate::pruned::eligible_rows(ids, filter);
    let k = before.spec_k() as nat;
    lemma_task_results(
        empty,
        task,
        labels,
        eligible,
        is_bound,
        taken,
        dists,
        ids.len(),
        results,
    );
    results.to_multiset_ensures();
    task.lemma_facts();
    assert(crate::scan::numbers(results)) by {
        assert forall|j: int| 0 <= j < results.len() implies !crate::order::is_nan(
            (#[trigger] results[j]).0,
        ) by {
            assert(results.contains(results[j]));
            assert(task.contents().contains(results[j]));
        }
    }
    let all = rows + pushed;
    let all_dists = distances + pushed_dists;
    assert forall|t: int| 0 <= t < taken.len() implies returnable(
        probes,
        start,
        probes.len(),
        loaded,
        filter,
        (place, #[trigger] taken[t]),
    ) by {
        assert(eligible(taken[t] as int));
    }
    assert forall|r: RowKey| #[trigger] all.contains(r) <==> rows.contains(r) || pushed.contains(
        r,
    ) by {
        if rows.contains(r) {
            let i = choose|i: int| 0 <= i < rows.len() && rows[i] == r;
            assert(all[i] == r);
        }
        if pushed.contains(r) {
            let i = choose|i: int| 0 <= i < pushed.len() && pushed[i] == r;
            assert(all[rows.len() + i] == r);
        }
    }
    assert(offers_measured(
        query,
        probes,
        start,
        loaded,
        filter,
        distance_of,
        all,
        all_dists,
    )) by {
        assert forall|i: int| 0 <= i < all.len() implies returnable(
            probes,
            start,
            probes.len(),
            loaded,
            filter,
            #[trigger] all[i],
        ) && call_ensures(distance_of, (query, all[i].0, all[i].1), all_dists[i]) by {
            if i >= rows.len() {
                let m = i - rows.len();
                assert(all[i] == pushed[m]);
                let j = choose|j: int|
                    0 <= j < results.len() && pushed[m].1 == labelled(#[trigger] results[j].1)
                        && pushed_dists[m] == results[j].0;
                let t = choose|t: int|
                    0 <= t < taken.len() && #[trigger] taken[t] == labelled(results[j].1)
                        && dists[t] == results[j].0;
                assert(all[i] == (place, taken[t]));
            } else {
                assert(all[i] == rows[i]);
            }
        }
        assert(all.no_duplicates()) by {
            assert forall|i: int, j: int|
                0 <= i < all.len() && 0 <= j < all.len() && i != j implies all[i] != all[j] by {
                if i < rows.len() && j >= rows.len() {
                    assert(rows.contains(rows[i]));
                    assert(!rows.contains(pushed[j - rows.len()]));
                } else if i >= rows.len() && j < rows.len() {
                    assert(rows.contains(rows[j]));
                    assert(!rows.contains(pushed[i - rows.len()]));
                }
            }
        }
    }
    crate::pruned::lemma_absorbs_both(
        before,
        now,
        after,
        row_items(loaded, rows, distances),
        row_items(loaded, pushed, pushed_dists),
    );
    assert(row_items(loaded, all, all_dists) =~= row_items(loaded, rows, distances) + row_items(
        loaded,
        pushed,
        pushed_dists,
    ));
    assert forall|j: int| 0 <= j < results.len() implies all.contains(
        (place, labelled(#[trigger] results[j].1)),
    ) && call_ensures(
        distance_of,
        (query, place, labelled(results[j].1)),
        results[j].0,
    ) by {
        let t = choose|t: int|
            0 <= t < taken.len() && #[trigger] taken[t] == labelled(results[j].1) && dists[t]
                == results[j].0;
        assert(call_ensures(distance_of, (query, place, taken[t]), dists[t]));
    }
    let items = crate::pruned::taken_items(labels, taken, dists);
    let worthy = crate::pruned::worthy(Some(limit), items).to_multiset();
    assert forall|t: int| 0 <= t < taken.len() implies all.contains((place, #[trigger] taken[t]))
        || crate::order::is_nan(dists[t]) || !after.admits(dists[t]) by {
        let item = items[t];
        if !all.contains((place, taken[t])) && !crate::order::is_nan(dists[t]) {
            if crate::order::less(limit, dists[t]) {
                assert(!now.admits(dists[t]));
            } else {
                crate::pruned::lemma_worthy_counts(Some(limit), items);
                items.to_multiset_ensures();
                assert(items.contains(item));
                assert(worthy.count(item) > 0);
                lemma_row_label(taken[t]);
                assert(!results.contains(item)) by {
                    if results.contains(item) {
                        let j = choose|j: int| 0 <= j < results.len() && results[j] == item;
                        assert(all.contains((place, labelled(results[j].1))));
                    }
                }
                assert(results.to_multiset().count(item) == 0);
                assert(worthy.sub(results.to_multiset()).contains(item));
                assert(results.len() == k) by {
                    if worthy.len() <= k {
                        let rest = worthy.sub(results.to_multiset());
                        assert(rest.len() == worthy.len() - results.to_multiset().len());
                        assert(rest.len() == 0);
                        assert(rest.remove(item).len() == rest.len() - 1);
                    }
                }
                assert forall|j: int| 0 <= j < results.len() implies !crate::order::less(
                    dists[t],
                    (#[trigger] results[j]).0,
                ) by {
                    assert(results.contains(results[j]));
                    assert(results.to_multiset().contains(results[j]));
                }
                lemma_full_task_refuses(
                    before,
                    after,
                    query,
                    probes,
                    start,
                    loaded,
                    filter,
                    distance_of,
                    all,
                    all_dists,
                    place,
                    results,
                    dists[t],
                );
            }
        }
    }
    let out = lemma_add_refused(
        before,
        after,
        query,
        probes,
        start,
        loaded,
        filter,
        distance_of,
        all,
        all_dists,
        place,
        taken,
        dists,
    );
    assert forall|row: RowKey| #[trigger] out.0.contains(row) <==> rows.contains(row) || (row.0
        == place && taken.contains(row.1)) by {
        if pushed.contains(row) {
            let i = choose|i: int| 0 <= i < pushed.len() && pushed[i] == row;
            let j = choose|j: int|
                0 <= j < results.len() && pushed[i].1 == labelled(#[trigger] results[j].1)
                    && pushed_dists[i] == results[j].0;
            let t = choose|t: int|
                0 <= t < taken.len() && #[trigger] taken[t] == labelled(results[j].1) && dists[t]
                    == results[j].0;
            assert(taken.contains(row.1));
        }
        assert(all.contains(row) <==> rows.contains(row) || pushed.contains(row));
    }
    assert forall|row: RowKey| #[trigger]
        returnable(probes, start, probes.len(), loaded, filter, row) && row.0 < place + 1
            && !out.0.contains(row) implies turned_away(
                after,
                bounds,
                row,
            ) by {
        if row.0 == place {
            assert(eligible(row.1 as int));
            assert(crate::pruned::skipped(task, is_bound, row.1 as int));
            let bound = choose|bound: u32| #[trigger]
                is_bound(row.1 as int, bound) && !task.admits(bound);
            assert(bounds(row, bound));
            assert(!after.admits(bound)) by {
                if k == 0 {
                } else if crate::order::less(limit, bound) {
                    assert(!now.admits(bound));
                } else {
                    let worst = choose|worst: Neighbor| #[trigger]
                        crate::topk::is_worst(task.contents(), worst) && !crate::order::less(
                            bound,
                            worst.0,
                        );
                    assert(task.contents().contains(worst));
                    assert(results.len() == k);
                    assert forall|j: int| 0 <= j < results.len() implies !crate::order::less(
                        bound,
                        (#[trigger] results[j]).0,
                    ) by {
                        assert(results.contains(results[j]));
                        assert(task.contents().contains(results[j]));
                    }
                    lemma_full_task_refuses(
                        before,
                        after,
                        query,
                        probes,
                        start,
                        loaded,
                        filter,
                        distance_of,
                        all,
                        all_dists,
                        place,
                        results,
                        bound,
                    );
                }
            }
        } else {
            assert(!rows.contains(row));
            lemma_turned_away_stays(
                now,
                after,
                bounds,
                row,
            );
        }
    }
    out
}

/// The list at `place` is the first one with rows.
pub open spec fn first_filled(loaded: Seq<LoadedList>, place: int) -> bool {
    &&& 0 <= place < loaded.len()
    &&& loaded[place].ids@.len() > 0
    &&& forall|p: int| 0 <= p < place ==> (#[trigger] loaded[p]).ids@.len() == 0
}

/// The work of scanning the first `upto` loaded lists.
pub open spec fn lists_work<F: RowIdFilter>(
    loaded: Seq<LoadedList>,
    filter: Option<&F>,
    shape: ScanShape,
    upto: nat,
) -> Work
    decreases upto,
{
    if upto == 0 {
        crate::ivfrq_search::no_work()
    } else {
        crate::ivfrq_search::both(
            lists_work(loaded, filter, shape, (upto - 1) as nat),
            list_work(loaded, filter, shape, upto - 1, loaded[upto - 1].ids@.len()),
        )
    }
}

/// The work of a seeded search: the first block of the list at `place`, and
/// then every list.
pub open spec fn seeded_work<F: RowIdFilter>(
    loaded: Seq<LoadedList>,
    filter: Option<&F>,
    shape: ScanShape,
    place: int,
) -> Work {
    crate::ivfrq_search::both(
        list_work(
            loaded,
            filter,
            shape,
            place,
            crate::ivfrq_search::limited(
                loaded[place].ids@.len(),
                crate::rq::RQ_SCAN_BLOCK_SIZE as nat,
            ),
        ),
        lists_work(loaded, filter, shape, loaded.len()),
    )
}

/// Nothing lies beyond the limit that a collection gives.
fn current_limit(heap: &TopKHeap) -> (limit: u32)
    requires
        heap.well_formed(),
        heap.max_distance() is None,
    ensures
        forall|d: u32| crate::order::less(limit, d) ==> !#[trigger] heap.admits(d),
        !crate::order::is_nan(limit),
        limit == crate::ivfrq_trace::limit_of(*heap),
{
    match heap.worst_distance() {
        Some(worst) => {
            proof {
                let item = choose|item: Neighbor| #[trigger]
                    crate::topk::is_worst(heap.contents(), item) && item.0 == worst;
                heap.lemma_facts();
                assert(heap.contents().contains(item));
                assert forall|d: u32| crate::order::less(worst, d) implies !#[trigger] heap.admits(
                    d,
                ) by {
                    assert(crate::topk::is_worst(heap.contents(), item));
                }
            }
            worst
        },
        None => INFINITE_DISTANCE,
    }
}

/// Answers one query over the loaded lists: the first block of a list gives a
/// limit, every list is scanned on its own under it, and the results are
/// merged.
#[verifier::spinoff_prover]
#[verifier::rlimit(40)]
fn scan_seeded<
    F: RowIdFilter,
    B: Fn(usize, usize, usize, bool) -> u32,
    A: Fn(usize, usize, usize) -> u32,
    E: Fn(usize, usize, usize) -> u32,
>(
    seed: usize,
    loaded: &Vec<LoadedList>,
    filter: Option<&F>,
    shape: ScanShape,
    kernel: &RowKernel<B, A, E>,
    k: usize,
    heap: &mut TopKHeap,
    stats: &mut IVFRQSearchStats,
    Ghost(probes): Ghost<Seq<usize>>,
    Ghost(start): Ghost<nat>,
) -> (out: (Ghost<Seq<RowKey>>, Ghost<Seq<u32>>, Ghost<Work>, Ghost<SeededTrace>))
    requires
        old(heap).well_formed(),
        old(heap).max_distance() is None,
        old(heap).spec_k() == k,
        k * 2 + 2 <= usize::MAX,
        shape.bits >= 1,
        shape.plane_size >= 1,
        first_filled(loaded@, seed as int),
        consistent(kernel.distance_of),
        forall|place: usize|
            place < loaded@.len() ==> #[trigger] crate::ivfrq_search::scans_rows(
                kernel.bound_of,
                kernel.approximate_of,
                kernel.distance_of,
                0,
                place,
                loaded@[place as int].ids@.len(),
            ),
        forall|place: int|
            0 <= place < loaded@.len() ==> #[trigger] reached(
                probes,
                start,
                probes.len(),
                loaded@,
                place,
            ),
    ensures
        final(heap).well_formed(),
        offered_rows(
            *old(heap),
            *final(heap),
            0,
            probes,
            start,
            probes.len(),
            loaded@,
            filter,
            kernel_bounds(*kernel, 0, loaded@, filter is Some, shape),
            kernel.distance_of,
            out.0@,
            out.1@,
        ),
        crate::ivfrq_search::counts(*old(stats), *final(stats), shape, out.2@),
        same_scans(out.2@, seeded_work(loaded@, filter, shape, seed as int)),
        crate::ivfrq_trace::seeded_traced(
            *old(heap),
            *final(heap),
            loaded@,
            filter,
            shape,
            crate::ivfrq_trace::kernel_rules(*kernel, 0, loaded@, filter is Some, shape),
            out.3@,
        ),
        out.2@ == crate::ivfrq_trace::seeded_total(out.3@),
{
    let ghost rules = crate::ivfrq_trace::kernel_rules(
        *kernel,
        0,
        loaded@,
        filter is Some,
        shape,
    );
    let ghost before = *heap;
    let ghost stats_before = *stats;
    let first = &loaded[seed];
    let took = scan_first_block(
        0,
        seed,
        first.ids.as_slice(),
        filter,
        shape,
        &kernel.bound_of,
        &kernel.approximate_of,
        &kernel.distance_of,
        heap,
        stats,
    );
    let ghost source = crate::ivfrq_search::scan_source(0, seed, first.ids@, first.ids@, filter, shape);
    let ghost lanes = crate::ivfrq_search::limited(
        first.ids@.len(),
        crate::rq::RQ_SCAN_BLOCK_SIZE as nat,
    );
    let ghost seeded = choose|taken: Seq<usize>, dists: Seq<u32>, done: Work| #[trigger]
        crate::ivfrq_search::blocked_scan(
            before,
            *heap,
            stats_before,
            *stats,
            source,
            lanes,
            kernel.bound_of,
            kernel.approximate_of,
            kernel.distance_of,
            taken,
            dists,
            done,
        ) && crate::ivfrq_search::marks_rows(took@, taken);
    let ghost mut rows: Seq<RowKey> = rows_at(seed, seeded.0);
    let ghost mut distances: Seq<u32> = seeded.1;
    let ghost mut work: Work = seeded.2;
    proof {
        let taken = seeded.0;
        assert(row_items(loaded@, rows, distances) =~= crate::pruned::taken_items(
            first.ids@,
            taken,
            distances,
        ));
        assert forall|i: int| 0 <= i < rows.len() implies returnable(
            probes,
            start,
            probes.len(),
            loaded@,
            filter,
            #[trigger] rows[i],
        ) && call_ensures(kernel.distance_of, (0, rows[i].0, rows[i].1), distances[i]) by {
            assert((source.eligible)(taken[i] as int));
            assert(reached(probes, start, probes.len(), loaded@, seed as int));
        }
        assert(rows.no_duplicates()) by {
            assert forall|i: int, j: int|
                0 <= i < rows.len() && 0 <= j < rows.len() && i != j implies rows[i] != rows[j] by {
                assert(taken[i] != taken[j]);
            }
        }
        assert forall|p: usize, r: usize| #[trigger]
            rows.contains((p, r)) <==> p == seed && r < took@.len() && took@[r as int] by {
            if rows.contains((p, r)) {
                let i = choose|i: int| 0 <= i < rows.len() && rows[i] == (p, r);
                assert(taken[i] == r);
                assert(taken.contains(r));
            }
            if p == seed && r < took@.len() && took@[r as int] {
                assert(taken.contains(r));
                let i = choose|i: int| 0 <= i < taken.len() && taken[i] == r;
                assert(rows[i] == (p, r));
            }
        }
    }
    let limit: u32 = current_limit(heap);
    let ghost mut trace = crate::ivfrq_trace::seeded_start(seed, *heap, took@, limit, seeded.2);
    proof {
        crate::ivfrq_trace::lemma_blocked_scan_traced(
            before,
            *heap,
            stats_before,
            *stats,
            source,
            lanes,
            *kernel,
            loaded@,
            seeded.0,
            seeded.1,
            seeded.2,
        );
        crate::ivfrq_trace::lemma_seeded_begins(
            before,
            loaded@,
            filter,
            shape,
            rules,
            trace,
            seeded.0,
            seeded.1,
        );
    }
    let none: Vec<bool> = Vec::new();
    let mut place: usize = 0;
    while place < loaded.len()
        invariant
            place <= loaded@.len(),
            before.well_formed(),
            before.max_distance() is None,
            before.spec_k() == k,
            k * 2 + 2 <= usize::MAX,
            shape.bits >= 1,
            shape.plane_size >= 1,
            seed < loaded@.len(),
            none@.len() == 0,
            consistent(kernel.distance_of),
            forall|p: usize|
                p < loaded@.len() ==> #[trigger] crate::ivfrq_search::scans_rows(
                    kernel.bound_of,
                    kernel.approximate_of,
                    kernel.distance_of,
                    0,
                    p,
                    loaded@[p as int].ids@.len(),
                ),
            forall|p: int|
                0 <= p < loaded@.len() ==> #[trigger] reached(
                    probes,
                    start,
                    probes.len(),
                    loaded@,
                    p,
                ),
            heap.well_formed(),
            forall|d: u32| crate::order::less(limit, d) ==> !#[trigger] heap.admits(d),
            accounted(
                before,
                *heap,
                0,
                probes,
                start,
                loaded@,
                filter,
                kernel_bounds(*kernel, 0, loaded@, filter is Some, shape),
                kernel.distance_of,
                rows,
                distances,
                place as int,
            ),
            forall|p: usize, r: usize|
                p >= place ==> (#[trigger] rows.contains((p, r)) <==> p == seed && r < took@.len()
                    && took@[r as int]),
            crate::ivfrq_search::counts(stats_before, *stats, shape, work),
            same_scans(
                work,
                crate::ivfrq_search::both(
                    list_work(loaded@, filter, shape, seed as int, lanes),
                    lists_work(loaded@, filter, shape, place as nat),
                ),
            ),
            rules == crate::ivfrq_trace::kernel_rules(
                *kernel,
                0,
                loaded@,
                filter is Some,
                shape,
            ),
            trace.seed == seed,
            trace.known == took@,
            trace.limit == limit,
            trace.limit == crate::ivfrq_trace::limit_of(trace.opened),
            crate::ivfrq_trace::block_opened(before, loaded@, filter, shape, rules, trace),
            crate::ivfrq_trace::tasks_traced(
                loaded@,
                filter,
                shape,
                rules,
                trace,
                place as nat,
            ),
            trace.states[place as int] == *heap,
            heap.spec_k() == k,
            work == crate::ivfrq_trace::seeded_total(trace),
        decreases loaded@.len() - place,
    {
        let entry = &loaded[place];
        let total: usize = entry.ids.len();
        let labels = row_labels(total);
        let mut task = TopKHeap::with_max_distance(k, limit);
        let ghost empty = task;
        let ghost stats_now = *stats;
        scan_blocked_list(
            0,
            place,
            entry.ids.as_slice(),
            labels.as_slice(),
            filter,
            shape,
            &kernel.bound_of,
            &kernel.approximate_of,
            &kernel.distance_of,
            &mut task,
            stats,
            usize::MAX,
        );
        let ghost scanned = crate::ivfrq_search::scan_source(
            0,
            place,
            entry.ids@,
            labels@,
            filter,
            shape,
        );
        assert(crate::ivfrq_search::limited(entry.ids@.len(), usize::MAX as nat) == total);
        let ghost scan = choose|taken: Seq<usize>, dists: Seq<u32>, done: Work| #[trigger]
            crate::ivfrq_search::blocked_scan(
                empty,
                task,
                stats_now,
                *stats,
                scanned,
                crate::ivfrq_search::limited(entry.ids@.len(), usize::MAX as nat),
                kernel.bound_of,
                kernel.approximate_of,
                kernel.distance_of,
                taken,
                dists,
                done,
            );
        let ghost ended = task;
        let results = task.into_sorted();
        let ghost eligible = scanned.eligible;
        let ghost is_bound = crate::ivfrq_search::block_bounds(
            kernel.bound_of,
            kernel.approximate_of,
            0,
            place,
            shape,
            filter is Some,
            total as int,
        );
        proof {
            lemma_task_results(
                empty,
                ended,
                labels@,
                eligible,
                is_bound,
                scan.0,
                scan.1,
                total as nat,
                results@,
            );
            assert forall|j: int| 0 <= j < results@.len() implies labelled(
                #[trigger] results@[j].1,
            ) < entry.ids@.len() by {
                let t = choose|t: int|
                    0 <= t < scan.0.len() && #[trigger] scan.0[t] == labelled(results@[j].1)
                        && scan.1[t] == results@[j].0;
                assert(scan.0[t] < total);
            }
        }
        let known = if place == seed {
            &took
        } else {
            &none
        };
        let ghost now = *heap;
        let (Ghost(pushed), Ghost(pushed_dists)) = merge_task(
            place,
            loaded,
            &results,
            known,
            heap,
            Ghost(rows),
        );
        proof {
            let out = lemma_task_merged(
                before,
                now,
                *heap,
                0,
                probes,
                start,
                loaded@,
                filter,
                kernel_bounds(*kernel, 0, loaded@, filter is Some, shape),
                kernel.distance_of,
                is_bound,
                rows,
                distances,
                place,
                limit,
                empty,
                ended,
                labels@,
                scan.0,
                scan.1,
                results@,
                pushed,
                pushed_dists,
            );
            crate::ivfrq_search::law_counts_add_up(
                stats_before,
                stats_now,
                *stats,
                shape,
                work,
                scan.2,
            );
            assert forall|p: usize, r: usize| p >= place + 1 implies (#[trigger] out.0.contains(
                (p, r),
            ) <==> p == seed && r < took@.len() && took@[r as int]) by {
                assert(out.0.contains((p, r)) <==> rows.contains((p, r)) || (p == place
                    && scan.0.contains(r)));
            }
            assert forall|d: u32| crate::order::less(limit, d) implies !#[trigger] heap.admits(
                d,
            ) by {
                assert(!now.admits(d));
            }
            crate::ivfrq_trace::lemma_task_done(
                now,
                *heap,
                empty,
                ended,
                stats_now,
                *stats,
                place,
                loaded@,
                labels@,
                filter,
                shape,
                *kernel,
                limit,
                known@,
                scan.0,
                scan.1,
                scan.2,
                results@,
            );
            assert(known@ =~= crate::ivfrq_trace::known_at(seed, took@, place as int));
            crate::ivfrq_trace::lemma_task_joins(
                before,
                now,
                *heap,
                ended,
                place,
                loaded@,
                filter,
                shape,
                rules,
                trace,
                scan.2,
            );
            trace = crate::ivfrq_trace::seeded_step(trace, ended, *heap, scan.2);
            rows = out.0;
            distances = out.1;
            work = crate::ivfrq_search::both(work, scan.2);
        }
        place = place + 1;
    }
    (Ghost(rows), Ghost(distances), Ghost(work), Ghost(trace))
}

/// Fewest rows for which a single query is answered list by list.
pub const PARALLEL_RQ_SCAN_MIN_CANDIDATES: usize = 8192;

/// The rows of the first `n` loaded lists.
pub open spec fn candidates(loaded: Seq<LoadedList>, n: nat) -> nat
    decreases n,
{
    if n == 0 {
        0
    } else {
        candidates(loaded, (n - 1) as nat) + loaded[n - 1].ids@.len()
    }
}

fn count_candidates(loaded: &Vec<LoadedList>) -> (count: usize)
    ensures
        count == (if candidates(loaded@, loaded@.len()) < usize::MAX {
            candidates(loaded@, loaded@.len())
        } else {
            usize::MAX as nat
        }),
{
    let mut count: usize = 0;
    let mut i: usize = 0;
    while i < loaded.len()
        invariant
            i <= loaded@.len(),
            count == (if candidates(loaded@, i as nat) < usize::MAX {
                candidates(loaded@, i as nat)
            } else {
                usize::MAX as nat
            }),
        decreases loaded@.len() - i,
    {
        count = count.saturating_add(loaded[i].ids.len());
        i = i + 1;
    }
    count
}

/// The first list with rows.
fn find_filled(loaded: &Vec<LoadedList>) -> (place: usize)
    requires
        candidates(loaded@, loaded@.len()) > 0,
    ensures
        first_filled(loaded@, place as int),
{
    let mut i: usize = 0;
    while i < loaded.len()
        invariant
            i <= loaded@.len(),
            candidates(loaded@, loaded@.len()) > 0,
            candidates(loaded@, i as nat) == 0,
            forall|p: int| 0 <= p < i ==> (#[trigger] loaded@[p]).ids@.len() == 0,
        decreases loaded@.len() - i,
    {
        if loaded[i].ids.len() > 0 {
            return i;
        }
        i = i + 1;
    }
    0
}

/// The work of scanning the loaded lists for the first `n` queries.
pub open spec fn queries_work<F: RowIdFilter>(
    probes: Seq<Vec<usize>>,
    start: nat,
    n: nat,
    loaded: Seq<LoadedList>,
    filter: Option<&F>,
    shape: ScanShape,
) -> Work
    decreases n,
{
    if n == 0 {
        crate::ivfrq_search::no_work()
    } else {
        crate::ivfrq_search::both(
            queries_work(probes, start, (n - 1) as nat, loaded, filter, shape),
            probe_work(probes[n - 1]@, start, probes[n - 1]@.len(), loaded, filter, shape),
        )
    }
}

/// One query over many rows.
pub open spec fn is_seeded(queries: nat, loaded: Seq<LoadedList>) -> bool {
    queries == 1 && candidates(loaded, loaded.len()) >= PARALLEL_RQ_SCAN_MIN_CANDIDATES
}

/// The counts with a seeded list and the list tasks of a seeded search.
pub open spec fn with_tasks(stats: IVFRQSearchStats, tasks: usize) -> IVFRQSearchStats {
    IVFRQSearchStats {
        seeded_lists: crate::ivfrq_search::plus(stats.seeded_lists, 1),
        parallel_list_tasks: crate::ivfrq_search::plus(stats.parallel_list_tasks, tasks),
        ..stats
    }
}

/// What the search counts for a batch of loaded lists.
pub open spec fn batch_counts<F: RowIdFilter>(
    before: IVFRQSearchStats,
    after: IVFRQSearchStats,
    probes: Seq<Vec<usize>>,
    start: nat,
    loaded: Seq<LoadedList>,
    filter: Option<&F>,
    shape: ScanShape,
    work: Work,
) -> bool {
    if is_seeded(probes.len(), loaded) {
        &&& crate::ivfrq_search::counts(
            with_tasks(before, loaded.len() as usize),
            after,
            shape,
            work,
        )
        &&& exists|place: int| #[trigger]
            first_filled(loaded, place) && same_scans(
                work,
                seeded_work(loaded, filter, shape, place),
            )
    } else {
        &&& crate::ivfrq_search::counts(before, after, shape, work)
        &&& same_scans(
            work,
            queries_work(probes, start, probes.len(), loaded, filter, shape),
        )
    }
}

/// The progress of a batch search.
pub struct RQBatchSearch {
    k: usize,
    start: usize,
    nlist: usize,
    shape: ScanShape,
    probes: Vec<Vec<usize>>,
    lists: Vec<usize>,
    next: usize,
    heaps: Vec<TopKHeap>,
    stats: IVFRQSearchStats,
    seen: Ghost<Seq<Multiset<Neighbor>>>,
}

impl RQBatchSearch {
    pub closed spec fn spec_k(self) -> usize {
        self.k
    }

    /// The first probe rank that counts.
    pub closed spec fn probe_start(self) -> usize {
        self.start
    }

    pub closed spec fn spec_shape(self) -> ScanShape {
        self.shape
    }

    /// The lists that each query probes.
    pub closed spec fn probes(self) -> Seq<Vec<usize>> {
        self.probes@
    }

    /// The lists to read.
    pub closed spec fn planned(self) -> Seq<usize> {
        self.lists@
    }

    /// How many of them were read.
    pub closed spec fn read_count(self) -> usize {
        self.next
    }

    /// What query `query` keeps.
    pub closed spec fn collection(self, query: int) -> TopKHeap {
        self.heaps@[query]
    }

    /// Everything that query `query` was offered.
    pub closed spec fn offered(self, query: int) -> Multiset<Neighbor> {
        self.seen@[query]
    }

    pub closed spec fn spec_stats(self) -> IVFRQSearchStats {
        self.stats
    }

    pub open spec fn queries(self) -> nat {
        self.probes().len()
    }

    /// Each query keeps the nearest of what it was offered.
    pub closed spec fn well_formed(self) -> bool {
        &&& self.k * 2 + 2 <= usize::MAX
        &&& self.shape.bits >= 1
        &&& self.shape.plane_size >= 1
        &&& self.heaps@.len() == self.probes@.len()
        &&& self.seen@.len() == self.probes@.len()
        &&& self.next <= self.lists@.len()
        &&& crate::plan::probes_valid(self.probes@, self.nlist as nat)
        &&& distinct_probes(self.probes@)
        &&& self.lists@.no_duplicates()
        &&& forall|i: int| 0 <= i < self.lists@.len() ==> #[trigger] self.lists@[i] < self.nlist
        &&& forall|i: int|
            0 <= i < self.lists@.len() ==> crate::plan::probed(
                self.probes@,
                self.start as nat,
            ).contains(#[trigger] self.lists@[i])
        &&& forall|q: int|
            0 <= q < self.heaps@.len() ==> crate::session::keeps_nearest(
                #[trigger] self.heaps@[q],
                self.seen@[q],
                self.k,
            )
    }

    /// Plans a validated request: which lists to read, in the order in which
    /// they are first probed, and what each query starts with.
    pub fn begin(
        k: usize,
        start: usize,
        probes: Vec<Vec<usize>>,
        counts: &[i32],
        shape: ScanShape,
        seed_ids: &[i64],
        seed_distances: &[u32],
    ) -> (search: Self)
        requires
            k * 2 + 2 <= usize::MAX,
            shape.bits >= 1,
            shape.plane_size >= 1,
            crate::plan::probes_valid(probes@, counts@.len()),
            distinct_probes(probes@),
            crate::plan::seed_problem(
                seed_ids@.len() as int,
                seed_distances@.len() as int,
                probes@.len() as int,
                k as int,
            ) is None,
            forall|q: int|
                0 <= q < probes@.len() ==> crate::scan::numbers(
                    #[trigger] crate::plan::seeds_of(
                        seed_ids@,
                        seed_distances@,
                        q,
                        k as nat,
                        k as nat,
                    ),
                ),
        ensures
            search.well_formed(),
            search.spec_k() == k,
            search.probe_start() == start,
            search.spec_shape() == shape,
            search.probes() == probes@,
            search.planned() == crate::plan::first_occurrences(
                crate::plan::probed(probes@, start as nat),
                crate::plan::worth_reading(counts@, false),
            ),
            search.read_count() == 0,
            search.spec_stats() == (IVFRQSearchStats {
                query_count: probes@.len() as usize,
                ..crate::ivfrq_search::no_stats()
            }),
            forall|q: int|
                0 <= q < probes@.len() ==> #[trigger] search.offered(q) == crate::plan::seeds_of(
                    seed_ids@,
                    seed_distances@,
                    q,
                    k as nat,
                    k as nat,
                ).to_multiset(),
            forall|q: int|
                0 <= q < probes@.len() ==> (#[trigger] search.collection(q)).items()
                    == crate::topk::all_pushed(
                    Seq::empty(),
                    k as nat,
                    crate::plan::seeds_of(seed_ids@, seed_distances@, q, k as nat, k as nat),
                ),
    {
        let lists = unique_lists(&probes, start, counts, false);
        proof {
            let all = crate::plan::probed(probes@, start as nat);
            crate::plan::lemma_first_occurrences(all, crate::plan::worth_reading(counts@, false));
            assert forall|i: int| 0 <= i < lists@.len() implies all.contains(
                #[trigger] lists@[i],
            ) by {
                assert(lists@.contains(lists@[i]));
            }
        }
        let mut heaps: Vec<TopKHeap> = Vec::new();
        let ghost mut seen: Seq<Multiset<Neighbor>> = Seq::empty();
        let mut q: usize = 0;
        while q < probes.len()
            invariant
                q <= probes@.len(),
                k * 2 + 2 <= usize::MAX,
                heaps@.len() == q,
                seen.len() == q,
                crate::plan::seed_problem(
                    seed_ids@.len() as int,
                    seed_distances@.len() as int,
                    probes@.len() as int,
                    k as int,
                ) is None,
                forall|p: int|
                    0 <= p < probes@.len() ==> crate::scan::numbers(
                        #[trigger] crate::plan::seeds_of(
                            seed_ids@,
                            seed_distances@,
                            p,
                            k as nat,
                            k as nat,
                        ),
                    ),
                forall|p: int|
                    0 <= p < q ==> crate::session::keeps_nearest(#[trigger] heaps@[p], seen[p], k),
                forall|p: int|
                    0 <= p < q ==> #[trigger] seen[p] == crate::plan::seeds_of(
                        seed_ids@,
                        seed_distances@,
                        p,
                        k as nat,
                        k as nat,
                    ).to_multiset(),
                forall|p: int|
                    0 <= p < q ==> (#[trigger] heaps@[p]).items() == crate::topk::all_pushed(
                        Seq::empty(),
                        k as nat,
                        crate::plan::seeds_of(seed_ids@, seed_distances@, p, k as nat, k as nat),
                    ),
            decreases probes@.len() - q,
        {
            assert((q + 1) * k <= probes@.len() * k) by (nonlinear_arith)
                requires
                    q < probes@.len(),
            ;
            let seeds = query_seeds(seed_ids, seed_distances, q, k);
            let mut heap = TopKHeap::new(k);
            proof {
                crate::scan::lemma_empty_heap(heap);
                assert(crate::scan::numbers(
                    crate::plan::seeds_of(
                        seed_ids@,
                        seed_distances@,
                        q as int,
                        k as nat,
                        k as nat,
                    ),
                ));
            }
            offer_all(&mut heap, seeds.as_slice());
            proof {
                assert(Multiset::<Neighbor>::empty().add(seeds@.to_multiset())
                    =~= seeds@.to_multiset());
                seen = seen.push(seeds@.to_multiset());
            }
            heaps.push(heap);
            q = q + 1;
        }
        let stats = IVFRQSearchStats { query_count: probes.len(), ..IVFRQSearchStats::default() };
        RQBatchSearch {
            k,
            start,
            nlist: counts.len(),
            shape,
            probes,
            lists,
            next: 0,
            heaps,
            stats,
            seen: Ghost(seen),
        }
    }

    /// The lists that are still to be read.
    pub fn remaining(&self) -> (lists: Vec<usize>)
        requires
            self.well_formed(),
        ensures
            lists@ == self.planned().skip(self.read_count() as int),
    {
        let mut lists: Vec<usize> = Vec::new();
        let mut i: usize = self.next;
        while i < self.lists.len()
            invariant
                self.next <= i <= self.lists@.len(),
                lists@ == self.lists@.subrange(self.next as int, i as int),
            decreases self.lists@.len() - i,
        {
            lists.push(self.lists[i]);
            assert(self.lists@.subrange(self.next as int, i + 1) =~= self.lists@.subrange(
                self.next as int,
                i as int,
            ).push(self.lists@[i as int]));
            i = i + 1;
        }
        assert(lists@ =~= self.lists@.skip(self.next as int));
        lists
    }

    /// What the search counted so far.
    pub fn stats(&self) -> (stats: IVFRQSearchStats)
        ensures
            stats == self.spec_stats(),
    {
        self.stats
    }
}

/// A query was offered rows of the loaded lists, and keeps the nearest of them
/// and of what it had seen before.
pub open spec fn query_served<F: RowIdFilter, E: Fn(usize, usize, usize) -> u32>(
    before: TopKHeap,
    after: TopKHeap,
    seen_before: Multiset<Neighbor>,
    seen_after: Multiset<Neighbor>,
    query: usize,
    probes: Seq<usize>,
    start: nat,
    loaded: Seq<LoadedList>,
    filter: Option<&F>,
    bounds: spec_fn(RowKey, u32) -> bool,
    distance_of: E,
) -> bool {
    exists|rows: Seq<RowKey>, distances: Seq<u32>| #[trigger]
        offered_rows(
            before,
            after,
            query,
            probes,
            start,
            probes.len(),
            loaded,
            filter,
            bounds,
            distance_of,
            rows,
            distances,
        ) && seen_after == seen_before.add(
            crate::pruned::worthy(None, row_items(loaded, rows, distances)).to_multiset(),
        )
}

/// Every query of a batch was served list by list, in the order of its probes,
/// and the counts are those of all these scans.
pub open spec fn batch_traced<F: RowIdFilter>(
    before: RQBatchSearch,
    after: RQBatchSearch,
    loaded: Seq<LoadedList>,
    filter: Option<&F>,
    rules: spec_fn(int) -> crate::ivfrq_trace::RowRules,
    traces: Seq<QueryTrace>,
) -> bool {
    &&& traces.len() == before.queries()
    &&& forall|q: int|
        0 <= q < before.queries() ==> crate::ivfrq_trace::query_traced(
            before.collection(q),
            after.collection(q),
            q as usize,
            before.probes()[q]@,
            before.probe_start() as nat,
            before.probes()[q]@.len(),
            loaded,
            filter,
            before.spec_shape(),
            rules(q),
            #[trigger] traces[q],
        )
    &&& crate::ivfrq_search::counts(
        before.spec_stats(),
        after.spec_stats(),
        before.spec_shape(),
        crate::ivfrq_trace::queries_total(traces),
    )
}

/// The only query of a batch was answered by a seeded search, and the counts are
/// those of its scans.
pub open spec fn seeded_batch<F: RowIdFilter>(
    before: RQBatchSearch,
    after: RQBatchSearch,
    loaded: Seq<LoadedList>,
    filter: Option<&F>,
    rules: spec_fn(int) -> crate::ivfrq_trace::RowRules,
    trace: SeededTrace,
) -> bool {
    &&& crate::ivfrq_trace::seeded_traced(
        before.collection(0),
        after.collection(0),
        loaded,
        filter,
        before.spec_shape(),
        rules(0),
        trace,
    )
    &&& crate::ivfrq_search::counts(
        with_tasks(before.spec_stats(), loaded.len() as usize),
        after.spec_stats(),
        before.spec_shape(),
        crate::ivfrq_trace::seeded_total(trace),
    )
}

/// The bounds and distances that a kernel gives for each query.
pub open spec fn batch_rules<
    B: Fn(usize, usize, usize, bool) -> u32,
    A: Fn(usize, usize, usize) -> u32,
    E: Fn(usize, usize, usize) -> u32,
>(
    kernel: RowKernel<B, A, E>,
    loaded: Seq<LoadedList>,
    filtered: bool,
    shape: ScanShape,
) -> spec_fn(int) -> crate::ivfrq_trace::RowRules {
    |q: int| crate::ivfrq_trace::kernel_rules(kernel, q as usize, loaded, filtered, shape)
}

/// Every planned list that a single query probes is reached.
proof fn lemma_single_query_reaches(
    probes: Seq<Vec<usize>>,
    start: nat,
    planned: Seq<usize>,
    next: int,
    loaded: Seq<LoadedList>,
    place: int,
)
    requires
        probes.len() == 1,
        0 <= next,
        crate::session::loads_planned(planned, next, loaded),
        planned.no_duplicates(),
        forall|i: int|
            0 <= i < planned.len() ==> crate::plan::probed(probes, start).contains(
                #[trigger] planned[i],
            ),
        0 <= place < loaded.len(),
    ensures
        reached(probes[0]@, start, probes[0]@.len(), loaded, place),
{
    let ids = crate::session::loaded_ids(loaded);
    let list = loaded[place].list_id;
    let own = crate::plan::from_rank(probes[0]@, start);
    assert(probes.drop_last() =~= Seq::<Vec<usize>>::empty());
    assert(crate::plan::probed(probes.drop_last(), start) =~= Seq::<usize>::empty());
    assert(crate::plan::probed(probes, start) =~= own);
    assert(planned[next + place] == list);
    assert(own.contains(list));
    let j = choose|j: int| 0 <= j < own.len() && own[j] == list;
    crate::plan::lemma_loaded_at(ids, list);
    assert(ids[place] == list);
    assert(ids.contains(list));
    let p = crate::plan::loaded_at(ids, list)->0;
    assert(loaded[p].list_id == planned[next + p]);
    if p != place {
        assert(planned[next + p] != planned[next + place]);
    }
    assert(probes[0]@[start + j] == list);
    assert(crate::plan::loaded_at(ids, probes[0]@[start + j]) == Some(place));
}

impl RQBatchSearch {
    /// Lets every query see the next lists.
    #[verifier::spinoff_prover]
    #[verifier::rlimit(40)]
    pub fn scan_batch<
        F: RowIdFilter,
        B: Fn(usize, usize, usize, bool) -> u32,
        A: Fn(usize, usize, usize) -> u32,
        E: Fn(usize, usize, usize) -> u32,
    >(&mut self, loaded: &Vec<LoadedList>, filter: Option<&F>, kernel: &RowKernel<B, A, E>)
        requires
            old(self).well_formed(),
            loaded@.len() < usize::MAX,
            crate::session::loads_planned(old(self).planned(), old(self).read_count() as int, loaded@),
            kernel_fits(*kernel, old(self).queries(), loaded@),
        ensures
            final(self).well_formed(),
            final(self).spec_k() == old(self).spec_k(),
            final(self).probe_start() == old(self).probe_start(),
            final(self).spec_shape() == old(self).spec_shape(),
            final(self).probes() == old(self).probes(),
            final(self).planned() == old(self).planned(),
            final(self).read_count() == old(self).read_count() + loaded@.len(),
            forall|q: int|
                #![trigger final(self).collection(q)]
                0 <= q < old(self).queries() ==> query_served(
                    old(self).collection(q),
                    final(self).collection(q),
                    old(self).offered(q),
                    final(self).offered(q),
                    q as usize,
                    old(self).probes()[q]@,
                    old(self).probe_start() as nat,
                    loaded@,
                    filter,
                    kernel_bounds(*kernel, q as usize, loaded@, filter is Some, old(self).spec_shape()),
                    kernel.distance_of,
                ),
            exists|work: Work| #[trigger]
                batch_counts(
                    old(self).spec_stats(),
                    final(self).spec_stats(),
                    old(self).probes(),
                    old(self).probe_start() as nat,
                    loaded@,
                    filter,
                    old(self).spec_shape(),
                    work,
                ),
            !is_seeded(old(self).queries(), loaded@) ==> exists|traces: Seq<QueryTrace>| #[trigger]
                batch_traced(
                    *old(self),
                    *final(self),
                    loaded@,
                    filter,
                    batch_rules(*kernel, loaded@, filter is Some, old(self).spec_shape()),
                    traces,
                ),
            is_seeded(old(self).queries(), loaded@) ==> exists|trace: SeededTrace| #[trigger]
                seeded_batch(
                    *old(self),
                    *final(self),
                    loaded@,
                    filter,
                    batch_rules(*kernel, loaded@, filter is Some, old(self).spec_shape()),
                    trace,
                ),
    {
        let ghost before = *self;
        let nq: usize = self.probes.len();
        let planned: usize = self.lists.len();
        assert(self.next + loaded@.len() <= planned);
        let ghost mut counted: Work = crate::ivfrq_search::no_work();
        let ghost mut all: Seq<QueryTrace> = Seq::empty();
        let ghost mut only: Option<SeededTrace> = None;
        let count: usize = count_candidates(loaded);
        if nq == 1 && count >= PARALLEL_RQ_SCAN_MIN_CANDIDATES {
            let seed: usize = find_filled(loaded);
            self.stats.seeded_lists = self.stats.seeded_lists.saturating_add(1);
            self.stats.parallel_list_tasks = self.stats.parallel_list_tasks.saturating_add(
                loaded.len(),
            );
            proof {
                assert forall|place: int| 0 <= place < loaded@.len() implies #[trigger] reached(
                    before.probes@[0]@,
                    before.start as nat,
                    before.probes@[0]@.len(),
                    loaded@,
                    place,
                ) by {
                    lemma_single_query_reaches(
                        before.probes@,
                        before.start as nat,
                        before.lists@,
                        before.next as int,
                        loaded@,
                        place,
                    );
                }
                assert(crate::session::keeps_nearest(before.heaps@[0], before.seen@[0], before.k));
            }
            let (Ghost(rows), Ghost(distances), Ghost(work), Ghost(trace)) = scan_seeded(
                seed,
                loaded,
                filter,
                self.shape,
                kernel,
                self.k,
                &mut self.heaps[0],
                &mut self.stats,
                Ghost(before.probes@[0]@),
                Ghost(before.start as nat),
            );
            proof {
                let more = crate::pruned::worthy(None, row_items(loaded@, rows, distances));
                self.seen@ = self.seen@.update(0, before.seen@[0].add(more.to_multiset()));
                counted = work;
                only = Some(trace);
            }
        } else {
            let mut ids: Vec<usize> = Vec::new();
            let mut i: usize = 0;
            while i < loaded.len()
                invariant
                    i <= loaded@.len(),
                    ids@ == crate::session::loaded_ids(loaded@.take(i as int)),
                decreases loaded@.len() - i,
            {
                ids.push(loaded[i].list_id);
                assert(ids@ =~= crate::session::loaded_ids(loaded@.take(i + 1)));
                i = i + 1;
            }
            assert(loaded@.take(loaded@.len() as int) =~= loaded@);
            assert forall|p: int| 0 <= p < ids@.len() implies #[trigger] ids@[p] < self.nlist by {
                assert(loaded@[p].list_id == self.lists@[self.next + p]);
            }
            let positions = list_positions(ids.as_slice(), self.nlist);
            let ghost mut work: Work = crate::ivfrq_search::no_work();
            let ghost mut traces: Seq<QueryTrace> = Seq::empty();
            proof {
                crate::ivfrq_search::lemma_counts_nothing(before.stats, before.shape);
            }
            let mut q: usize = 0;
            while q < nq
                invariant
                    q <= nq,
                    nq == self.probes@.len(),
                    before == *old(self),
                    before.well_formed(),
                    self.k == before.k,
                    self.start == before.start,
                    self.nlist == before.nlist,
                    self.shape == before.shape,
                    self.probes@ == before.probes@,
                    self.lists@ == before.lists@,
                    self.next == before.next,
                    self.heaps@.len() == nq,
                    self.seen@.len() == nq,
                    loaded@.len() < usize::MAX,
                    positions@.len() == self.nlist,
                    forall|l: int|
                        0 <= l < positions@.len() ==> #[trigger] positions@[l] == (
                        match crate::plan::loaded_at(
                            crate::session::loaded_ids(loaded@),
                            l as usize,
                        ) {
                            Some(p) => p as usize,
                            None => usize::MAX,
                        }),
                    kernel_fits(*kernel, nq as nat, loaded@),
                    forall|p: int|
                        0 <= p < q ==> query_served(
                            before.heaps@[p],
                            #[trigger] self.heaps@[p],
                            before.seen@[p],
                            self.seen@[p],
                            p as usize,
                            before.probes@[p]@,
                            before.start as nat,
                            loaded@,
                            filter,
                            kernel_bounds(*kernel, p as usize, loaded@, filter is Some, before.shape),
                            kernel.distance_of,
                        ),
                    forall|p: int|
                        q <= p < nq ==> #[trigger] self.heaps@[p] == before.heaps@[p]
                            && self.seen@[p] == before.seen@[p],
                    forall|p: int|
                        0 <= p < nq ==> crate::session::keeps_nearest(
                            #[trigger] self.heaps@[p],
                            self.seen@[p],
                            self.k,
                        ),
                    crate::ivfrq_search::counts(before.stats, self.stats, before.shape, work),
                    same_scans(
                        work,
                        queries_work(
                            before.probes@,
                            before.start as nat,
                            q as nat,
                            loaded@,
                            filter,
                            before.shape,
                        ),
                    ),
                    traces.len() == q,
                    work == crate::ivfrq_trace::queries_total(traces),
                    forall|p: int|
                        0 <= p < q ==> crate::ivfrq_trace::query_traced(
                            before.heaps@[p],
                            self.heaps@[p],
                            p as usize,
                            before.probes@[p]@,
                            before.start as nat,
                            before.probes@[p]@.len(),
                            loaded@,
                            filter,
                            before.shape,
                            crate::ivfrq_trace::kernel_rules(
                                *kernel,
                                p as usize,
                                loaded@,
                                filter is Some,
                                before.shape,
                            ),
                            #[trigger] traces[p],
                        ),
                decreases nq - q,
            {
                let ghost now = *self;
                let ghost stats_now = self.stats;
                proof {
                    assert(crate::session::keeps_nearest(
                        self.heaps@[q as int],
                        self.seen@[q as int],
                        self.k,
                    ));
                    assert(self.probes@[q as int]@.no_duplicates());
                    assert forall|place: usize|
                        place < loaded@.len() implies #[trigger] crate::ivfrq_search::scans_rows(
                        kernel.bound_of,
                        kernel.approximate_of,
                        kernel.distance_of,
                        q,
                        place,
                        loaded@[place as int].ids@.len(),
                    ) by {}
                }
                let (Ghost(rows), Ghost(distances), Ghost(done), Ghost(trace)) = scan_query(
                    q,
                    &self.probes[q],
                    self.start,
                    &positions,
                    loaded,
                    filter,
                    self.shape,
                    kernel,
                    &mut self.heaps[q],
                    &mut self.stats,
                );
                proof {
                    let more = crate::pruned::worthy(None, row_items(loaded@, rows, distances));
                    self.seen@ = self.seen@.update(
                        q as int,
                        before.seen@[q as int].add(more.to_multiset()),
                    );
                    crate::ivfrq_search::law_counts_add_up(
                        before.stats,
                        stats_now,
                        self.stats,
                        before.shape,
                        work,
                        done,
                    );
                    work = crate::ivfrq_search::both(work, done);
                    let longer = traces.push(trace);
                    assert(longer.drop_last() =~= traces);
                    assert forall|p: int| 0 <= p < q + 1 implies crate::ivfrq_trace::query_traced(
                        before.heaps@[p],
                        self.heaps@[p],
                        p as usize,
                        before.probes@[p]@,
                        before.start as nat,
                        before.probes@[p]@.len(),
                        loaded@,
                        filter,
                        before.shape,
                        crate::ivfrq_trace::kernel_rules(
                            *kernel,
                            p as usize,
                            loaded@,
                            filter is Some,
                            before.shape,
                        ),
                        #[trigger] longer[p],
                    ) by {
                        if p < q {
                            assert(longer[p] == traces[p]);
                            assert(self.heaps@[p] == now.heaps@[p]);
                        }
                    }
                    traces = longer;
                    assert forall|p: int| 0 <= p < q + 1 implies query_served(
                        before.heaps@[p],
                        #[trigger] self.heaps@[p],
                        before.seen@[p],
                        self.seen@[p],
                        p as usize,
                        before.probes@[p]@,
                        before.start as nat,
                        loaded@,
                        filter,
                        kernel_bounds(*kernel, p as usize, loaded@, filter is Some, before.shape),
                        kernel.distance_of,
                    ) by {
                        if p < q {
                            assert(self.heaps@[p] == now.heaps@[p]);
                        }
                    }
                    assert forall|p: int| 0 <= p < nq implies crate::session::keeps_nearest(
                        #[trigger] self.heaps@[p],
                        self.seen@[p],
                        self.k,
                    ) by {
                        if p != q {
                            assert(self.heaps@[p] == now.heaps@[p]);
                        }
                    }
                }
                q = q + 1;
                assert forall|p: int| q <= p < nq implies #[trigger] self.heaps@[p]
                    == before.heaps@[p] && self.seen@[p] == before.seen@[p] by {
                    assert(now.heaps@[p] == before.heaps@[p] && now.seen@[p] == before.seen@[p]);
                }
            }
            proof {
                counted = work;
                all = traces;
            }
        }
        self.next = self.next + loaded.len();
        assert(batch_counts(
            old(self).spec_stats(),
            self.spec_stats(),
            old(self).probes(),
            old(self).probe_start() as nat,
            loaded@,
            filter,
            old(self).spec_shape(),
            counted,
        ));
        proof {
            if !is_seeded(before.queries(), loaded@) {
                assert(batch_traced(
                    *old(self),
                    *self,
                    loaded@,
                    filter,
                    batch_rules(*kernel, loaded@, filter is Some, before.spec_shape()),
                    all,
                ));
            } else {
                assert(seeded_batch(
                    *old(self),
                    *self,
                    loaded@,
                    filter,
                    batch_rules(*kernel, loaded@, filter is Some, before.spec_shape()),
                    only->0,
                ));
            }
        }
    }

    /// Each query's nearest rows by ascending distance, padded to `k` places.
    pub fn finish(self) -> (out: (Vec<i64>, Vec<u32>))
        requires
            self.well_formed(),
            self.queries() * self.spec_k() <= usize::MAX,
        ensures
            out.0@.len() == self.queries() * self.spec_k(),
            out.1@.len() == self.queries() * self.spec_k(),
            forall|q: int|
                #![trigger self.offered(q)]
                0 <= q < self.queries() ==> crate::session::answers(
                    self.offered(q),
                    out.0@,
                    out.1@,
                    q,
                    self.spec_k(),
                ),
            forall|q: int|
                #![trigger self.collection(q)]
                0 <= q < self.queries() ==> crate::scan::lists_sorted(
                    self.collection(q).items(),
                    out.0@,
                    out.1@,
                    q,
                    self.spec_k(),
                ),
    {
        let mut results: Vec<Vec<Neighbor>> = Vec::new();
        let mut heaps = self.heaps;
        let mut q: usize = 0;
        while q < heaps.len()
            invariant
                q <= heaps@.len(),
                self.well_formed(),
                heaps@.len() == self.heaps@.len(),
                forall|p: int| q <= p < heaps@.len() ==> #[trigger] heaps@[p] == self.heaps@[p],
                results@.len() == q,
                forall|p: int|
                    0 <= p < q ==> crate::session::is_answer(
                        self.seen@[p],
                        (#[trigger] results@[p])@,
                        self.k,
                    ),
                forall|p: int|
                    0 <= p < q ==> crate::topk::stably_sorted(
                        self.heaps@[p].items(),
                        (#[trigger] results@[p])@,
                    ),
            decreases heaps@.len() - q,
        {
            let mut heap = TopKHeap::new(self.k);
            assert(crate::session::keeps_nearest(
                self.heaps@[q as int],
                self.seen@[q as int],
                self.k,
            ));
            std::mem::swap(&mut heap, &mut heaps[q]);
            let sorted = heap.into_sorted();
            results.push(sorted);
            q = q + 1;
        }
        let out = assemble_results(&results, self.k);
        proof {
            assert forall|q: int|
                #![trigger self.offered(q)]
                0 <= q < self.queries() implies crate::session::answers(
                self.offered(q),
                out.0@,
                out.1@,
                q,
                self.k,
            ) by {
                assert(crate::session::is_answer(self.seen@[q], results@[q]@, self.k));
            }
            assert forall|q: int|
                #![trigger self.collection(q)]
                0 <= q < self.queries() implies crate::scan::lists_sorted(
                self.collection(q).items(),
                out.0@,
                out.1@,
                q,
                self.k,
            ) by {
                assert(crate::topk::stably_sorted(self.heaps@[q].items(), results@[q]@));
            }
        }
        out
    }
}

/// Rows by the distances that a function gives them.
pub open spec fn items_by(
    loaded: Seq<LoadedList>,
    rows: Seq<RowKey>,
    distance: spec_fn(RowKey) -> u32,
) -> Seq<Neighbor> {
    row_items(loaded, rows, Seq::new(rows.len(), |i: int| distance(rows[i])))
}

/// The rows of `all` that are not in `rows`.
spec fn missing(all: Seq<RowKey>, rows: Seq<RowKey>) -> Seq<RowKey>
    decreases all.len(),
{
    if all.len() == 0 {
        Seq::empty()
    } else {
        let before = missing(all.drop_last(), rows);
        if rows.contains(all.last()) {
            before
        } else {
            before.push(all.last())
        }
    }
}

proof fn lemma_missing(all: Seq<RowKey>, rows: Seq<RowKey>)
    requires
        all.no_duplicates(),
    ensures
        missing(all, rows).no_duplicates(),
        forall|r: RowKey| #[trigger]
            missing(all, rows).contains(r) <==> all.contains(r) && !rows.contains(r),
    decreases all.len(),
{
    if all.len() > 0 {
        let shorter = all.drop_last();
        let last = all.last();
        assert(shorter.no_duplicates());
        lemma_missing(shorter, rows);
        let before = missing(shorter, rows);
        let now = missing(all, rows);
        assert(!shorter.contains(last)) by {
            if shorter.contains(last) {
                let i = choose|i: int| 0 <= i < shorter.len() && shorter[i] == last;
                assert(all[i] != all[all.len() - 1]);
            }
        }
        assert forall|r: RowKey| #[trigger] now.contains(r) <==> all.contains(r) && !rows.contains(
            r,
        ) by {
            if all.contains(r) && r != last {
                let i = choose|i: int| 0 <= i < all.len() && all[i] == r;
                assert(shorter[i] == r);
            }
            if shorter.contains(r) {
                let i = choose|i: int| 0 <= i < shorter.len() && shorter[i] == r;
                assert(all[i] == r);
            }
            assert(all[all.len() - 1] == last);
            if !rows.contains(last) {
                assert(now[before.len() as int] == last);
                if before.contains(r) {
                    let i = choose|i: int| 0 <= i < before.len() && before[i] == r;
                    assert(now[i] == r);
                }
                if now.contains(r) && r != last {
                    let i = choose|i: int| 0 <= i < now.len() && now[i] == r;
                    assert(before[i] == r);
                }
            }
        }
        assert(now.no_duplicates()) by {
            assert(!before.contains(last));
            assert forall|i: int, j: int|
                0 <= i < now.len() && 0 <= j < now.len() && i != j implies now[i] != now[j] by {
                if i == before.len() {
                    assert(before.contains(before[j]));
                } else if j == before.len() {
                    assert(before.contains(before[i]));
                }
            }
        }
    }
}

proof fn lemma_same_rows(
    loaded: Seq<LoadedList>,
    a: Seq<RowKey>,
    b: Seq<RowKey>,
    distance: spec_fn(RowKey) -> u32,
)
    requires
        a.no_duplicates(),
        forall|r: RowKey| #[trigger] a.contains(r) ==> b.contains(r),
    ensures
        items_by(loaded, a, distance).to_multiset().subset_of(
            items_by(loaded, b, distance).to_multiset(),
        ),
{
    let at = Seq::new(a.len(), |i: int| b.index_of(a[i]));
    assert forall|i: int| 0 <= i < a.len() implies 0 <= #[trigger] at[i] < b.len() && b[at[i]]
        == a[i] by {
        assert(a.contains(a[i]));
        assert(b.contains(a[i]));
    }
    crate::pruned::lemma_placed_items(
        items_by(loaded, a, distance),
        items_by(loaded, b, distance),
        at,
    );
}

proof fn lemma_refused_rows(
    before: TopKHeap,
    after: TopKHeap,
    loaded: Seq<LoadedList>,
    rows: Seq<RowKey>,
    rest: Seq<RowKey>,
    distance: spec_fn(RowKey) -> u32,
)
    requires
        before.max_distance() is None,
        crate::pruned::absorbs(before, after, items_by(loaded, rows, distance)),
        forall|i: int| 0 <= i < rest.len() ==> !after.admits(distance(#[trigger] rest[i])),
    ensures
        crate::pruned::absorbs(before, after, items_by(loaded, rows + rest, distance)),
    decreases rest.len(),
{
    if rest.len() == 0 {
        assert(rows + rest =~= rows);
    } else {
        let shorter = rest.drop_last();
        assert forall|i: int| 0 <= i < shorter.len() implies !after.admits(
            distance(#[trigger] shorter[i]),
        ) by {
            assert(shorter[i] == rest[i]);
        }
        lemma_refused_rows(before, after, loaded, rows, shorter, distance);
        let last = rest.last();
        let item = (distance(last), loaded[last.0 as int].ids@[last.1 as int]);
        assert(rest[rest.len() - 1] == last);
        crate::pruned::lemma_absorbs_refused(
            before,
            after,
            items_by(loaded, rows + shorter, distance),
            item,
        );
        assert(items_by(loaded, rows + rest, distance) =~= items_by(
            loaded,
            rows + shorter,
            distance,
        ).push(item));
    }
}

/// A search with sound bounds finds the nearest rows: if no bound of the
/// kernel exceeds the distance of its row, the query ends up with the nearest
/// of what it had seen and of all rows that may be returned, whichever rows
/// were skipped and however the lists were scanned.
pub proof fn law_sound_search_finds_the_nearest<F: RowIdFilter, E: Fn(usize, usize, usize) -> u32>(
    before: TopKHeap,
    after: TopKHeap,
    seen: Multiset<Neighbor>,
    query: usize,
    probes: Seq<usize>,
    start: nat,
    loaded: Seq<LoadedList>,
    filter: Option<&F>,
    bounds: spec_fn(RowKey, u32) -> bool,
    distance_of: E,
    rows: Seq<RowKey>,
    distances: Seq<u32>,
    distance: spec_fn(RowKey) -> u32,
    all: Seq<RowKey>,
)
    requires
        before.max_distance() is None,
        crate::topk::nearest_of(seen, before.contents(), before.spec_k() as nat),
        offered_rows(
            before,
            after,
            query,
            probes,
            start,
            probes.len(),
            loaded,
            filter,
            bounds,
            distance_of,
            rows,
            distances,
        ),
        forall|row: RowKey, d: u32| #[trigger]
            call_ensures(distance_of, (query, row.0, row.1), d) ==> d == distance(row),
        forall|row: RowKey| !crate::order::is_nan(#[trigger] distance(row)),
        forall|row: RowKey, bound: u32| #[trigger]
            bounds(row, bound)
                ==> !crate::order::is_nan(bound) && !crate::order::less(distance(row), bound),
        all.no_duplicates(),
        forall|row: RowKey| #[trigger]
            all.contains(row) <==> returnable(probes, start, probes.len(), loaded, filter, row),
    ensures
        crate::topk::nearest_of(
            seen.add(items_by(loaded, all, distance).to_multiset()),
            after.contents(),
            before.spec_k() as nat,
        ),
{
    assert forall|i: int| 0 <= i < rows.len() implies distances[i] == distance(
        #[trigger] rows[i],
    ) by {
        assert(call_ensures(distance_of, (query, rows[i].0, rows[i].1), distances[i]));
    }
    assert(row_items(loaded, rows, distances) =~= items_by(loaded, rows, distance));
    let rest = missing(all, rows);
    lemma_missing(all, rows);
    assert forall|i: int| 0 <= i < rest.len() implies !after.admits(
        distance(#[trigger] rest[i]),
    ) by {
        let row = rest[i];
        assert(rest.contains(row));
        assert(all.contains(row));
        assert(turned_away(
            after,
            bounds,
            row,
        ));
        let bound = choose|bound: u32| #[trigger]
            bounds(row, bound) && !after.admits(
                bound,
            );
        crate::pruned::lemma_farther_is_refused(after, bound, distance(row));
    }
    lemma_refused_rows(before, after, loaded, rows, rest, distance);
    let both = rows + rest;
    assert forall|r: RowKey| #[trigger] both.contains(r) <==> all.contains(r) by {
        if rows.contains(r) {
            let i = choose|i: int| 0 <= i < rows.len() && rows[i] == r;
            assert(both[i] == r);
            assert(returnable(probes, start, probes.len(), loaded, filter, rows[i]));
        }
        if rest.contains(r) {
            let i = choose|i: int| 0 <= i < rest.len() && rest[i] == r;
            assert(both[rows.len() + i] == r);
        }
        if both.contains(r) && !rows.contains(r) {
            let i = choose|i: int| 0 <= i < both.len() && both[i] == r;
            if i < rows.len() {
                assert(rows[i] == r);
            } else {
                assert(rest[i - rows.len()] == r);
            }
        }
        if all.contains(r) && !rows.contains(r) {
            assert(rest.contains(r));
        }
    }
    assert(both.no_duplicates()) by {
        assert forall|i: int, j: int|
            0 <= i < both.len() && 0 <= j < both.len() && i != j implies both[i] != both[j] by {
            if i < rows.len() && j >= rows.len() {
                assert(rows.contains(rows[i]));
                assert(rest.contains(rest[j - rows.len()]));
            } else if i >= rows.len() && j < rows.len() {
                assert(rows.contains(rows[j]));
                assert(rest.contains(rest[i - rows.len()]));
            }
        }
    }
    lemma_same_rows(loaded, both, all, distance);
    lemma_same_rows(loaded, all, both, distance);
    assert(items_by(loaded, both, distance).to_multiset() =~= items_by(
        loaded,
        all,
        distance,
    ).to_multiset());
    let items = items_by(loaded, both, distance);
    assert forall|i: int| 0 <= i < items.len() implies crate::pruned::worth_offering(
        None,
        #[trigger] items[i],
    ) by {
        assert(!crate::order::is_nan(distance(both[i])));
    }
    crate::pruned::lemma_all_worthy(items);
}

} // verus!
