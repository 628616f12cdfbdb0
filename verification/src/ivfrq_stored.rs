//! Batch searches over lists in the block layout.
use crate::filter::RowIdFilter;
use crate::ivfrq_batch::{RQBatchSearch, RowKernel, RowKey};
use crate::ivfrq_search::{ScanShape, Work};
use crate::ivfrq_trace::{QueryTrace, RowRules, SeededTrace};
use crate::rq::RaBitQuantizer;
use crate::rq_products::{RQQueryTerms, RowStep};
use crate::rq_query::RQQueryContext;
use crate::rq_rows::StoredRows;
use crate::session::LoadedList;
use crate::topk::{Neighbor, TopKHeap};
use vstd::multiset::Multiset;
use vstd::prelude::*;

verus! {

/// Lists that were read and the queries that scan them: the codes and factors
/// of each list, what scanning needs of each query, and the terms of each query
/// and list.
pub struct StoredScan<'a> {
    pub quantizer: &'a RaBitQuantizer,
    pub rows: &'a Vec<StoredRows<'a>>,
    pub contexts: &'a Vec<RQQueryContext>,
    pub terms: &'a Vec<Vec<RQQueryTerms>>,
}

/// There are codes and factors for all rows of the loaded lists, and tables and
/// terms for all queries.
pub open spec fn scan_fits(scan: StoredScan, queries: nat, loaded: Seq<LoadedList>) -> bool {
    &&& scan.quantizer.well_formed()
    &&& scan.rows@.len() == loaded.len()
    &&& forall|place: int|
        0 <= place < loaded.len() ==> crate::rq_rows::stores_rows(
            *scan.quantizer,
            #[trigger] scan.rows@[place],
        ) && scan.rows@[place].count == loaded[place].ids@.len()
    &&& scan.contexts@.len() == queries
    &&& forall|query: int|
        0 <= query < queries ==> crate::rq_rows::fits_query(
            *scan.quantizer,
            #[trigger] scan.contexts@[query],
        )
    &&& scan.terms@.len() == queries
    &&& forall|query: int|
        0 <= query < queries ==> (#[trigger] scan.terms@[query])@.len() == loaded.len()
}

/// The distance of a row of a list to a query.
pub open spec fn stored_distance<G: Fn(RowStep) -> u32>(
    f: G,
    scan: StoredScan,
    query: int,
    row: RowKey,
) -> u32 {
    crate::rq_rows::row_distance(
        f,
        *scan.quantizer,
        scan.rows@[row.0 as int],
        scan.contexts@[query],
        scan.terms@[query]@[row.0 as int],
        row.1 as int,
    )
}

/// `bound` is a bound of the distance of a row that its block gives: the one of
/// the row's first plane, or, where quantized tables are used, the one of all
/// planes.
pub open spec fn stored_bound<G: Fn(RowStep) -> u32>(
    f: G,
    scan: StoredScan,
    query: int,
    shape: ScanShape,
    filtered: bool,
    row: RowKey,
    bound: u32,
) -> bool {
    let rows = scan.rows@[row.0 as int];
    let context = scan.contexts@[query];
    let terms = scan.terms@[query]@[row.0 as int];
    let fast = crate::ivfrq_search::fast_row(shape, filtered, rows.count as int, row.1 as int);
    ||| bound == crate::rq_rows::row_bound(
        f,
        *scan.quantizer,
        rows,
        context,
        terms,
        row.1 as int,
        fast,
    )
    ||| fast && bound == crate::rq_rows::row_approximation(
        f,
        *scan.quantizer,
        rows,
        context,
        terms,
        row.1 as int,
    )
}

/// A query was offered `rows` of the loaded lists by their distances; every
/// other row that may be returned has a bound that the query's collection
/// refuses.
pub open spec fn rows_offered<F: RowIdFilter>(
    before: TopKHeap,
    after: TopKHeap,
    probes: Seq<usize>,
    start: nat,
    loaded: Seq<LoadedList>,
    filter: Option<&F>,
    bounds: spec_fn(RowKey, u32) -> bool,
    distance: spec_fn(RowKey) -> u32,
    rows: Seq<RowKey>,
) -> bool {
    &&& rows.no_duplicates()
    &&& forall|i: int|
        0 <= i < rows.len() ==> crate::ivfrq_batch::returnable(
            probes,
            start,
            probes.len(),
            loaded,
            filter,
            #[trigger] rows[i],
        )
    &&& crate::pruned::absorbs(
        before,
        after,
        crate::ivfrq_batch::row_items(loaded, rows, rows.map_values(distance)),
    )
    &&& forall|row: RowKey| #[trigger]
        crate::ivfrq_batch::returnable(probes, start, probes.len(), loaded, filter, row)
            && !rows.contains(row) ==> crate::ivfrq_batch::turned_away(after, bounds, row)
}

/// A query was offered rows of the loaded lists, and has seen them besides what
/// it had seen before.
pub open spec fn rows_served<F: RowIdFilter>(
    before: TopKHeap,
    after: TopKHeap,
    seen_before: Multiset<Neighbor>,
    seen_after: Multiset<Neighbor>,
    probes: Seq<usize>,
    start: nat,
    loaded: Seq<LoadedList>,
    filter: Option<&F>,
    bounds: spec_fn(RowKey, u32) -> bool,
    distance: spec_fn(RowKey) -> u32,
) -> bool {
    exists|rows: Seq<RowKey>| #[trigger]
        rows_offered(before, after, probes, start, loaded, filter, bounds, distance, rows)
            && seen_after == seen_before.add(
            crate::pruned::worthy(
                None,
                crate::ivfrq_batch::row_items(loaded, rows, rows.map_values(distance)),
            ).to_multiset(),
        )
}

/// What closures that give these bounds and distances lead to.
pub proof fn lemma_closures_serve<F: RowIdFilter, E: Fn(usize, usize, usize) -> u32>(
    before: TopKHeap,
    after: TopKHeap,
    seen_before: Multiset<Neighbor>,
    seen_after: Multiset<Neighbor>,
    query: usize,
    probes: Seq<usize>,
    start: nat,
    loaded: Seq<LoadedList>,
    filter: Option<&F>,
    given: spec_fn(RowKey, u32) -> bool,
    distance_of: E,
    bounds: spec_fn(RowKey, u32) -> bool,
    distance: spec_fn(RowKey) -> u32,
)
    requires
        forall|place: usize, row: usize, x: u32|
            place < loaded.len() && row < loaded[place as int].ids@.len()
                && #[trigger] call_ensures(distance_of, (query, place, row), x) ==> x == distance(
                (place, row),
            ),
        forall|row: RowKey, x: u32|
            row.0 < loaded.len() && row.1 < loaded[row.0 as int].ids@.len() && #[trigger] given(
                row,
                x,
            ) ==> bounds(row, x),
        crate::ivfrq_batch::query_served(
            before,
            after,
            seen_before,
            seen_after,
            query,
            probes,
            start,
            loaded,
            filter,
            given,
            distance_of,
        ),
    ensures
        rows_served(
            before,
            after,
            seen_before,
            seen_after,
            probes,
            start,
            loaded,
            filter,
            bounds,
            distance,
        ),
{
    let (rows, distances) = choose|rows: Seq<RowKey>, distances: Seq<u32>| #[trigger]
        crate::ivfrq_batch::offered_rows(
            before,
            after,
            query,
            probes,
            start,
            probes.len(),
            loaded,
            filter,
            given,
            distance_of,
            rows,
            distances,
        ) && seen_after == seen_before.add(
            crate::pruned::worthy(
                None,
                crate::ivfrq_batch::row_items(loaded, rows, distances),
            ).to_multiset(),
        );
    assert forall|i: int| 0 <= i < rows.len() implies distances[i] == rows.map_values(
        distance,
    )[i] by {
        assert(crate::ivfrq_batch::returnable(
            probes,
            start,
            probes.len(),
            loaded,
            filter,
            rows[i],
        ));
        assert(call_ensures(distance_of, (query, rows[i].0, rows[i].1), distances[i]));
        assert(rows[i] == (rows[i].0, rows[i].1));
    }
    assert(distances =~= rows.map_values(distance));
    assert forall|row: RowKey| #[trigger]
        crate::ivfrq_batch::returnable(probes, start, probes.len(), loaded, filter, row)
            && !rows.contains(row) implies crate::ivfrq_batch::turned_away(after, bounds, row) by {
        assert(crate::ivfrq_batch::turned_away(after, given, row));
        let bound = choose|bound: u32| #[trigger] given(row, bound) && !after.admits(bound);
        assert(bounds(row, bound));
    }
    assert(rows_offered(before, after, probes, start, loaded, filter, bounds, distance, rows));
}

/// The distances of the rows of the loaded lists to a query.
pub open spec fn stored_distances<G: Fn(RowStep) -> u32>(
    f: G,
    scan: StoredScan,
    query: int,
) -> spec_fn(RowKey) -> u32 {
    |row: RowKey| stored_distance(f, scan, query, row)
}

/// The bounds of the rows of the loaded lists.
pub open spec fn stored_bounds<G: Fn(RowStep) -> u32>(
    f: G,
    scan: StoredScan,
    query: int,
    shape: ScanShape,
    filtered: bool,
) -> spec_fn(RowKey, u32) -> bool {
    |row: RowKey, bound: u32| stored_bound(f, scan, query, shape, filtered, row, bound)
}

/// The bounds and distances of the rows of the loaded lists, for each query.
pub open spec fn stored_rules<G: Fn(RowStep) -> u32>(
    f: G,
    scan: StoredScan,
    shape: ScanShape,
    filtered: bool,
) -> spec_fn(int) -> RowRules {
    |q: int|
        RowRules {
            first: |row: RowKey, x: u32|
                x == crate::rq_rows::row_bound(
                    f,
                    *scan.quantizer,
                    scan.rows@[row.0 as int],
                    scan.contexts@[q],
                    scan.terms@[q]@[row.0 as int],
                    row.1 as int,
                    crate::ivfrq_search::fast_row(
                        shape,
                        filtered,
                        scan.rows@[row.0 as int].count as int,
                        row.1 as int,
                    ),
                ),
            second: |row: RowKey, x: u32|
                x == crate::rq_rows::row_approximation(
                    f,
                    *scan.quantizer,
                    scan.rows@[row.0 as int],
                    scan.contexts@[q],
                    scan.terms@[q]@[row.0 as int],
                    row.1 as int,
                ),
            distance: |row: RowKey, x: u32| x == stored_distance(f, scan, q, row),
        }
}

impl RQBatchSearch {
    /// Lets every query see the next lists, whose codes and factors stand in
    /// the block layout.
    pub fn scan_stored<F: RowIdFilter, G: Fn(RowStep) -> u32>(
        &mut self,
        loaded: &Vec<LoadedList>,
        filter: Option<&F>,
        scan: &StoredScan<'_>,
        f: &G,
    )
        requires
            old(self).well_formed(),
            loaded@.len() < usize::MAX,
            crate::session::loads_planned(
                old(self).planned(),
                old(self).read_count() as int,
                loaded@,
            ),
            scan_fits(*scan, old(self).queries(), loaded@),
            crate::rq_products::is_arithmetic(*f),
        ensures
            final(self).well_formed(),
            final(self).spec_k() == old(self).spec_k(),
            final(self).probe_start() == old(self).probe_start(),
            final(self).spec_shape() == old(self).spec_shape(),
            final(self).probes() == old(self).probes(),
            final(self).planned() == old(self).planned(),
            final(self).read_count() == old(self).read_count() + loaded@.len(),
            forall|q: int|
                #![trigger final(self).collection(q)]
                0 <= q < old(self).queries() ==> rows_served(
                    old(self).collection(q),
                    final(self).collection(q),
                    old(self).offered(q),
                    final(self).offered(q),
                    old(self).probes()[q]@,
                    old(self).probe_start() as nat,
                    loaded@,
                    filter,
                    stored_bounds(*f, *scan, q, old(self).spec_shape(), filter is Some),
                    stored_distances(*f, *scan, q),
                ),
            exists|work: Work| #[trigger]
                crate::ivfrq_batch::batch_counts(
                    old(self).spec_stats(),
                    final(self).spec_stats(),
                    old(self).probes(),
                    old(self).probe_start() as nat,
                    loaded@,
                    filter,
                    old(self).spec_shape(),
                    work,
                ),
            !crate::ivfrq_batch::is_seeded(old(self).queries(), loaded@) ==> exists|
                traces: Seq<QueryTrace>,
            | #[trigger]
                crate::ivfrq_batch::batch_traced(
                    *old(self),
                    *final(self),
                    loaded@,
                    filter,
                    stored_rules(*f, *scan, old(self).spec_shape(), filter is Some),
                    traces,
                ),
            crate::ivfrq_batch::is_seeded(old(self).queries(), loaded@) ==> exists|
                trace: SeededTrace,
            | #[trigger]
                crate::ivfrq_batch::seeded_batch(
                    *old(self),
                    *final(self),
                    loaded@,
                    filter,
                    stored_rules(*f, *scan, old(self).spec_shape(), filter is Some),
                    trace,
                ),
    {
        let ghost before = *self;
        let ghost queries = self.queries();
        let nq: usize = scan.contexts.len();
        let bound_of = |query: usize, place: usize, row: usize, fast: bool| -> (x: u32)
            requires
                query < queries,
                place < loaded@.len(),
                row < loaded@[place as int].ids@.len(),
            ensures
                x == crate::rq_rows::row_bound(
                    *f,
                    *scan.quantizer,
                    scan.rows@[place as int],
                    scan.contexts@[query as int],
                    scan.terms@[query as int]@[place as int],
                    row as int,
                    fast,
                ),
            {
                scan.quantizer.row_bound(
                    &scan.rows[place],
                    &scan.contexts[query],
                    scan.terms[query][place],
                    row,
                    fast,
                    f,
                )
            };
        let approximate_of = |query: usize, place: usize, row: usize| -> (x: u32)
            requires
                query < queries,
                place < loaded@.len(),
                row < loaded@[place as int].ids@.len(),
            ensures
                x == crate::rq_rows::row_approximation(
                    *f,
                    *scan.quantizer,
                    scan.rows@[place as int],
                    scan.contexts@[query as int],
                    scan.terms@[query as int]@[place as int],
                    row as int,
                ),
            {
                scan.quantizer.row_approximation(
                    &scan.rows[place],
                    &scan.contexts[query],
                    scan.terms[query][place],
                    row,
                    f,
                )
            };
        let distance_of = |query: usize, place: usize, row: usize| -> (x: u32)
            requires
                query < queries,
                place < loaded@.len(),
                row < loaded@[place as int].ids@.len(),
            ensures
                x == stored_distance(*f, *scan, query as int, (place, row)),
            {
                scan.quantizer.row_distance(
                    &scan.rows[place],
                    &scan.contexts[query],
                    scan.terms[query][place],
                    row,
                    f,
                )
            };
        let kernel = RowKernel { bound_of, approximate_of, distance_of };
        proof {
            assert forall|query: usize, place: usize|
                query < queries && place < loaded@.len() implies #[trigger] crate::ivfrq_search::scans_rows(
                kernel.bound_of,
                kernel.approximate_of,
                kernel.distance_of,
                query,
                place,
                loaded@[place as int].ids@.len(),
            ) by {}
            assert(crate::ivfrq_batch::kernel_fits(kernel, queries, loaded@));
        }
        self.scan_batch(loaded, filter, &kernel);
        proof {
            let shape = before.spec_shape();
            let given = crate::ivfrq_batch::batch_rules(kernel, loaded@, filter is Some, shape);
            let rules = stored_rules(*f, *scan, shape, filter is Some);
            assert forall|q: int, place: usize|
                0 <= q < queries && place < loaded@.len() implies #[trigger] crate::ivfrq_trace::rules_cover(
                given(q),
                rules(q),
                place,
                loaded@[place as int].ids@.len(),
            ) by {
                assert(q < nq);
                assert(scan.rows@[place as int].count == loaded@[place as int].ids@.len());
            }
            if crate::ivfrq_batch::is_seeded(queries, loaded@) {
                let trace = choose|trace: SeededTrace| #[trigger]
                    crate::ivfrq_batch::seeded_batch(
                        before,
                        *self,
                        loaded@,
                        filter,
                        given,
                        trace,
                    );
                crate::ivfrq_trace::lemma_seeded_widens(
                    before.collection(0),
                    self.collection(0),
                    loaded@,
                    filter,
                    shape,
                    given(0),
                    rules(0),
                    trace,
                );
                assert(crate::ivfrq_batch::seeded_batch(
                    before,
                    *self,
                    loaded@,
                    filter,
                    rules,
                    trace,
                ));
            } else {
                let traces = choose|traces: Seq<QueryTrace>| #[trigger]
                    crate::ivfrq_batch::batch_traced(
                        before,
                        *self,
                        loaded@,
                        filter,
                        given,
                        traces,
                    );
                assert forall|q: int| 0 <= q < queries implies crate::ivfrq_trace::query_traced(
                    before.collection(q),
                    self.collection(q),
                    q as usize,
                    before.probes()[q]@,
                    before.probe_start() as nat,
                    before.probes()[q]@.len(),
                    loaded@,
                    filter,
                    shape,
                    rules(q),
                    #[trigger] traces[q],
                ) by {
                    crate::ivfrq_trace::lemma_query_widens(
                        before.collection(q),
                        self.collection(q),
                        q as usize,
                        before.probes()[q]@,
                        before.probe_start() as nat,
                        loaded@,
                        filter,
                        shape,
                        given(q),
                        rules(q),
                        traces[q],
                    );
                }
                assert(crate::ivfrq_batch::batch_traced(
                    before,
                    *self,
                    loaded@,
                    filter,
                    rules,
                    traces,
                ));
            }
            assert forall|q: int|
                #![trigger self.collection(q)]
                0 <= q < queries implies rows_served(
                before.collection(q),
                self.collection(q),
                before.offered(q),
                self.offered(q),
                before.probes()[q]@,
                before.probe_start() as nat,
                loaded@,
                filter,
                stored_bounds(*f, *scan, q, shape, filter is Some),
                stored_distances(*f, *scan, q),
            ) by {
                assert(q < nq);
                let given = crate::ivfrq_batch::kernel_bounds(
                    kernel,
                    q as usize,
                    loaded@,
                    filter is Some,
                    shape,
                );
                let bounds = stored_bounds(*f, *scan, q, shape, filter is Some);
                assert forall|row: RowKey, x: u32|
                    row.0 < loaded@.len() && row.1 < loaded@[row.0 as int].ids@.len()
                        && #[trigger] given(row, x) implies bounds(row, x) by {
                    let count = loaded@[row.0 as int].ids@.len() as int;
                    assert(crate::ivfrq_search::block_bounds(
                        kernel.bound_of,
                        kernel.approximate_of,
                        q as usize,
                        row.0,
                        shape,
                        filter is Some,
                        count,
                    )(row.1 as int, x));
                    assert(scan.rows@[row.0 as int].count == count);
                }
                lemma_closures_serve(
                    before.collection(q),
                    self.collection(q),
                    before.offered(q),
                    self.offered(q),
                    q as usize,
                    before.probes()[q]@,
                    before.probe_start() as nat,
                    loaded@,
                    filter,
                    given,
                    kernel.distance_of,
                    bounds,
                    stored_distances(*f, *scan, q),
                );
            }
        }
    }
}

} // verus!
