//! Scans of stored lists row by row: which rows are refined and taken, and what
//! the collection of a query holds before and after each.
use crate::filter::RowIdFilter;
use crate::ivfrq_batch::{RowKernel, RowKey};
use crate::ivfrq_search::{ScanShape, ScanSource, Work};
use crate::session::LoadedList;
use crate::topk::{Neighbor, TopKHeap};
use vstd::prelude::*;

verus! {

/// The bounds and distances that rows have: the bound of the first plane, the
/// bound of the approximate distance, and the distance.
pub struct RowRules {
    pub first: spec_fn(RowKey, u32) -> bool,
    pub second: spec_fn(RowKey, u32) -> bool,
    pub distance: spec_fn(RowKey, u32) -> bool,
}

/// The bounds of the rows of one list.
pub open spec fn at_place(
    bounds: spec_fn(RowKey, u32) -> bool,
    place: usize,
) -> spec_fn(int, u32) -> bool {
    |p: int, bound: u32| bounds((place, p as usize), bound)
}

/// A scan of the first `n` rows by these bounds. The work counts the refined
/// rows and the offers that entered.
pub open spec fn scan_ruled(
    before: TopKHeap,
    after: TopKHeap,
    source: ScanSource,
    n: nat,
    first: spec_fn(int, u32) -> bool,
    second: spec_fn(int, u32) -> bool,
    taken: Seq<usize>,
    distances: Seq<u32>,
    work: Work,
    moments: Seq<TopKHeap>,
    refined: Seq<bool>,
) -> bool {
    &&& crate::pruned::moments_of(before, after, source.labels, taken, distances, moments, n)
    &&& refined.len() == n
    &&& forall|p: int|
        0 <= p < n ==> crate::ivfrq_search::row_ruled(
            source,
            n as int,
            first,
            second,
            taken,
            moments,
            #[trigger] refined[p],
            p,
        )
    &&& work.refined == (if source.shape.bits == 1 {
        0
    } else {
        crate::ivfrq_search::marked_count(refined, n)
    })
    &&& work.admitted == crate::ivfrq_search::admissions(
        moments,
        taken,
        distances,
        taken.len(),
    )
}

/// A scan of the first `n` rows of a list, with all that it counts.
pub open spec fn list_traced(
    before: TopKHeap,
    after: TopKHeap,
    source: ScanSource,
    n: nat,
    rules: RowRules,
    taken: Seq<usize>,
    distances: Seq<u32>,
    work: Work,
) -> bool {
    &&& distances.len() == taken.len()
    &&& forall|i: int|
        0 <= i < taken.len() ==> (rules.distance)(
            (source.place, #[trigger] taken[i]),
            distances[i],
        )
    &&& crate::ivfrq_search::scan_work(
        work,
        source.shape,
        source.filtered,
        n,
        crate::ivfrq_search::eligible_count(source.eligible, n),
    )
    &&& work.taken == taken.len()
    &&& work.fast_taken == crate::ivfrq_search::fast_count(
        taken,
        source.shape,
        source.filtered,
        n as int,
    )
    &&& exists|moments: Seq<TopKHeap>, refined: Seq<bool>| #[trigger]
        scan_ruled(
            before,
            after,
            source,
            n,
            at_place(rules.first, source.place),
            at_place(rules.second, source.place),
            taken,
            distances,
            work,
            moments,
            refined,
        )
}

/// Everything that the rows of a list have by some rules, they have by others.
pub open spec fn rules_cover(
    given: RowRules,
    rules: RowRules,
    place: usize,
    rows: nat,
) -> bool {
    &&& forall|row: usize, x: u32|
        row < rows && #[trigger] (given.first)((place, row), x) ==> (rules.first)((place, row), x)
    &&& forall|row: usize, x: u32|
        row < rows && #[trigger] (given.second)((place, row), x) ==> (rules.second)((place, row), x)
    &&& forall|row: usize, x: u32|
        row < rows && #[trigger] (given.distance)((place, row), x) ==> (rules.distance)(
            (place, row),
            x,
        )
}

proof fn lemma_let_in_widens(
    heap: TopKHeap,
    given: spec_fn(RowKey, u32) -> bool,
    bounds: spec_fn(RowKey, u32) -> bool,
    place: usize,
    p: int,
)
    requires
        forall|x: u32| #[trigger] given((place, p as usize), x) ==> bounds((place, p as usize), x),
    ensures
        crate::pruned::let_in(heap, at_place(given, place), p) ==> crate::pruned::let_in(
            heap,
            at_place(bounds, place),
            p,
        ),
        crate::pruned::skipped(heap, at_place(given, place), p) ==> crate::pruned::skipped(
            heap,
            at_place(bounds, place),
            p,
        ),
{
    let old_bounds = at_place(given, place);
    let new_bounds = at_place(bounds, place);
    if crate::pruned::let_in(heap, old_bounds, p) {
        let x = choose|x: u32| #[trigger] old_bounds(p, x) && heap.admits(x);
        assert(given((place, p as usize), x));
        assert(new_bounds(p, x));
    }
    if crate::pruned::skipped(heap, old_bounds, p) {
        let x = choose|x: u32| #[trigger] old_bounds(p, x) && !heap.admits(x);
        assert(given((place, p as usize), x));
        assert(new_bounds(p, x));
    }
}

/// A scan by some rules is a scan by rules that cover them.
pub proof fn lemma_rules_widen(
    before: TopKHeap,
    after: TopKHeap,
    source: ScanSource,
    n: nat,
    given: RowRules,
    rules: RowRules,
    taken: Seq<usize>,
    distances: Seq<u32>,
    work: Work,
)
    requires
        n <= usize::MAX,
        list_traced(before, after, source, n, given, taken, distances, work),
        rules_cover(given, rules, source.place, n),
    ensures
        list_traced(before, after, source, n, rules, taken, distances, work),
{
    let place = source.place;
    let (moments, refined) = choose|moments: Seq<TopKHeap>, refined: Seq<bool>| #[trigger]
        scan_ruled(
            before,
            after,
            source,
            n,
            at_place(given.first, place),
            at_place(given.second, place),
            taken,
            distances,
            work,
            moments,
            refined,
        );
    assert forall|i: int| 0 <= i < taken.len() implies (rules.distance)(
        (place, #[trigger] taken[i]),
        distances[i],
    ) by {
        assert(taken[i] < n);
        assert((given.distance)((place, taken[i]), distances[i]));
    }
    assert forall|p: int| 0 <= p < n implies crate::ivfrq_search::row_ruled(
        source,
        n as int,
        at_place(rules.first, place),
        at_place(rules.second, place),
        taken,
        moments,
        #[trigger] refined[p],
        p,
    ) by {
        let row = p as usize;
        assert forall|x: u32| #[trigger] (given.first)((place, row), x) implies (rules.first)(
            (place, row),
            x,
        ) by {}
        assert forall|x: u32| #[trigger] (given.second)((place, row), x) implies (rules.second)(
            (place, row),
            x,
        ) by {}
        lemma_let_in_widens(moments[p / 32 * 32], given.first, rules.first, place, p);
        lemma_let_in_widens(moments[p], given.second, rules.second, place, p);
    }
    assert(scan_ruled(
        before,
        after,
        source,
        n,
        at_place(rules.first, place),
        at_place(rules.second, place),
        taken,
        distances,
        work,
        moments,
        refined,
    ));
}

/// The bounds and distances that a kernel gives for the rows of the loaded
/// lists.
pub open spec fn kernel_rules<
    B: Fn(usize, usize, usize, bool) -> u32,
    A: Fn(usize, usize, usize) -> u32,
    E: Fn(usize, usize, usize) -> u32,
>(
    kernel: RowKernel<B, A, E>,
    query: usize,
    loaded: Seq<LoadedList>,
    filtered: bool,
    shape: ScanShape,
) -> RowRules {
    RowRules {
        first: |row: RowKey, x: u32|
            call_ensures(
                kernel.bound_of,
                (
                    query,
                    row.0,
                    row.1,
                    crate::ivfrq_search::fast_row(
                        shape,
                        filtered,
                        loaded[row.0 as int].ids@.len() as int,
                        row.1 as int,
                    ),
                ),
                x,
            ),
        second: |row: RowKey, x: u32|
            call_ensures(kernel.approximate_of, (query, row.0, row.1), x),
        distance: |row: RowKey, x: u32|
            call_ensures(kernel.distance_of, (query, row.0, row.1), x),
    }
}

/// A block scan with the functions of a kernel is a scan by its rules.
pub proof fn lemma_blocked_scan_traced<
    B: Fn(usize, usize, usize, bool) -> u32,
    A: Fn(usize, usize, usize) -> u32,
    E: Fn(usize, usize, usize) -> u32,
>(
    before: TopKHeap,
    after: TopKHeap,
    stats_before: crate::ivfrq_search::IVFRQSearchStats,
    stats_after: crate::ivfrq_search::IVFRQSearchStats,
    source: ScanSource,
    n: nat,
    kernel: RowKernel<B, A, E>,
    loaded: Seq<LoadedList>,
    taken: Seq<usize>,
    distances: Seq<u32>,
    work: Work,
)
    requires
        n <= usize::MAX,
        n == crate::ivfrq_search::limited(loaded[source.place as int].ids@.len(), 32) || n
            == loaded[source.place as int].ids@.len(),
        crate::ivfrq_search::blocked_scan(
            before,
            after,
            stats_before,
            stats_after,
            source,
            n,
            kernel.bound_of,
            kernel.approximate_of,
            kernel.distance_of,
            taken,
            distances,
            work,
        ),
    ensures
        list_traced(
            before,
            after,
            source,
            n,
            kernel_rules(kernel, source.query, loaded, source.filtered, source.shape),
            taken,
            distances,
            work,
        ),
{
    reveal(crate::ivfrq_search::has_trace);
    let rules = kernel_rules(kernel, source.query, loaded, source.filtered, source.shape);
    let place = source.place;
    let first = crate::ivfrq_search::first_bounds(kernel.bound_of, source, n as int);
    let second = crate::ivfrq_search::second_bounds(kernel.approximate_of, source);
    let (moments, refined) = choose|moments: Seq<TopKHeap>, refined: Seq<bool>| #[trigger]
        crate::ivfrq_search::traced(
            before,
            after,
            source,
            n,
            n,
            kernel.bound_of,
            kernel.approximate_of,
            taken,
            distances,
            work,
            moments,
            refined,
        );
    assert forall|i: int| 0 <= i < taken.len() implies (rules.distance)(
        (place, #[trigger] taken[i]),
        distances[i],
    ) by {
        assert(call_ensures(
            kernel.distance_of,
            (source.query, source.place, taken[i]),
            distances[i],
        ));
    }
    let whole = loaded[place as int].ids@.len() as int;
    assert forall|p: int| 0 <= p < n implies crate::ivfrq_search::row_ruled(
        source,
        n as int,
        at_place(rules.first, place),
        at_place(rules.second, place),
        taken,
        moments,
        #[trigger] refined[p],
        p,
    ) by {
        assert(crate::ivfrq_search::row_decided(
            source,
            n as int,
            kernel.bound_of,
            kernel.approximate_of,
            taken,
            moments,
            refined[p],
            p,
        ));
        assert(crate::ivfrq_search::fast_row(source.shape, source.filtered, n as int, p)
            == crate::ivfrq_search::fast_row(source.shape, source.filtered, whole, p));
        let opening = moments[p / 32 * 32];
        let moment = moments[p];
        let ruled = at_place(rules.first, place);
        let ruled_second = at_place(rules.second, place);
        if crate::pruned::let_in(opening, first, p) {
            let x = choose|x: u32| #[trigger] first(p, x) && opening.admits(x);
            assert(ruled(p, x));
        }
        if crate::pruned::skipped(opening, first, p) {
            let x = choose|x: u32| #[trigger] first(p, x) && !opening.admits(x);
            assert(ruled(p, x));
        }
        if crate::pruned::let_in(moment, second, p) {
            let x = choose|x: u32| #[trigger] second(p, x) && moment.admits(x);
            assert(ruled_second(p, x));
        }
        if crate::pruned::skipped(moment, second, p) {
            let x = choose|x: u32| #[trigger] second(p, x) && !moment.admits(x);
            assert(ruled_second(p, x));
        }
    }
    assert(scan_ruled(
        before,
        after,
        source,
        n,
        at_place(rules.first, place),
        at_place(rules.second, place),
        taken,
        distances,
        work,
        moments,
        refined,
    ));
}

/// The scans of a query's lists: its collection before each of them and after
/// the last, and the work of each.
pub struct QueryTrace {
    pub states: Seq<TopKHeap>,
    pub works: Seq<Work>,
}

/// What the query's probe of one rank leads to: a scan of all rows of its list,
/// if that is among the loaded ones.
pub open spec fn rank_traced<F: RowIdFilter>(
    before: TopKHeap,
    after: TopKHeap,
    query: usize,
    list: usize,
    loaded: Seq<LoadedList>,
    filter: Option<&F>,
    shape: ScanShape,
    rules: RowRules,
    work: Work,
) -> bool {
    match crate::plan::loaded_at(crate::session::loaded_ids(loaded), list) {
        Some(place) => exists|taken: Seq<usize>, distances: Seq<u32>| #[trigger]
            list_traced(
                before,
                after,
                crate::ivfrq_search::scan_source(
                    query,
                    place as usize,
                    loaded[place].ids@,
                    loaded[place].ids@,
                    filter,
                    shape,
                ),
                loaded[place].ids@.len(),
                rules,
                taken,
                distances,
                work,
            ),
        None => after == before && work == crate::ivfrq_search::no_work(),
    }
}

/// A query's probes of ranks `start..upto` one after the other.
pub open spec fn query_traced<F: RowIdFilter>(
    before: TopKHeap,
    after: TopKHeap,
    query: usize,
    probes: Seq<usize>,
    start: nat,
    upto: nat,
    loaded: Seq<LoadedList>,
    filter: Option<&F>,
    shape: ScanShape,
    rules: RowRules,
    trace: QueryTrace,
) -> bool {
    let n = if start <= upto {
        upto - start
    } else {
        0
    };
    &&& trace.states.len() == n + 1
    &&& trace.works.len() == n
    &&& trace.states[0] == before
    &&& trace.states[n] == after
    &&& forall|i: int|
        0 <= i < n ==> rank_traced(
            trace.states[i],
            trace.states[i + 1],
            query,
            probes[start + i],
            loaded,
            filter,
            shape,
            rules,
            #[trigger] trace.works[i],
        )
}

/// The work of several scans.
pub open spec fn total_work(works: Seq<Work>) -> Work
    decreases works.len(),
{
    if works.len() == 0 {
        crate::ivfrq_search::no_work()
    } else {
        crate::ivfrq_search::both(total_work(works.drop_last()), works.last())
    }
}

/// The work of the scans of several queries.
pub open spec fn queries_total(traces: Seq<QueryTrace>) -> Work
    decreases traces.len(),
{
    if traces.len() == 0 {
        crate::ivfrq_search::no_work()
    } else {
        crate::ivfrq_search::both(
            queries_total(traces.drop_last()),
            total_work(traces.last().works),
        )
    }
}

/// One more rank of a query.
pub proof fn lemma_rank_joins<F: RowIdFilter>(
    before: TopKHeap,
    now: TopKHeap,
    after: TopKHeap,
    query: usize,
    probes: Seq<usize>,
    start: nat,
    rank: nat,
    loaded: Seq<LoadedList>,
    filter: Option<&F>,
    shape: ScanShape,
    rules: RowRules,
    trace: QueryTrace,
    work: Work,
)
    requires
        start <= rank,
        query_traced(
            before,
            now,
            query,
            probes,
            start,
            rank,
            loaded,
            filter,
            shape,
            rules,
            trace,
        ),
        rank_traced(
            now,
            after,
            query,
            probes[rank as int],
            loaded,
            filter,
            shape,
            rules,
            work,
        ),
    ensures
        query_traced(
            before,
            after,
            query,
            probes,
            start,
            rank + 1,
            loaded,
            filter,
            shape,
            rules,
            (QueryTrace { states: trace.states.push(after), works: trace.works.push(work) }),
        ),
        total_work(trace.works.push(work)) == crate::ivfrq_search::both(
            total_work(trace.works),
            work,
        ),
{
    let longer = QueryTrace { states: trace.states.push(after), works: trace.works.push(work) };
    assert(trace.works.push(work).drop_last() =~= trace.works);
    assert forall|i: int| 0 <= i < rank + 1 - start implies rank_traced(
        longer.states[i],
        longer.states[i + 1],
        query,
        probes[start + i],
        loaded,
        filter,
        shape,
        rules,
        #[trigger] longer.works[i],
    ) by {
        if i < rank - start {
            assert(rank_traced(
                trace.states[i],
                trace.states[i + 1],
                query,
                probes[start + i],
                loaded,
                filter,
                shape,
                rules,
                trace.works[i],
            ));
        }
    }
}

/// A query traced by some rules is traced by rules that cover them.
pub proof fn lemma_query_widens<F: RowIdFilter>(
    before: TopKHeap,
    after: TopKHeap,
    query: usize,
    probes: Seq<usize>,
    start: nat,
    loaded: Seq<LoadedList>,
    filter: Option<&F>,
    shape: ScanShape,
    given: RowRules,
    rules: RowRules,
    trace: QueryTrace,
)
    requires
        loaded.len() <= usize::MAX,
        query_traced(
            before,
            after,
            query,
            probes,
            start,
            probes.len(),
            loaded,
            filter,
            shape,
            given,
            trace,
        ),
        forall|place: usize|
            place < loaded.len() ==> #[trigger] rules_cover(
                given,
                rules,
                place,
                loaded[place as int].ids@.len(),
            ),
    ensures
        query_traced(
            before,
            after,
            query,
            probes,
            start,
            probes.len(),
            loaded,
            filter,
            shape,
            rules,
            trace,
        ),
{
    let n = if start <= probes.len() {
        probes.len() - start
    } else {
        0
    };
    let ids = crate::session::loaded_ids(loaded);
    assert forall|i: int| 0 <= i < n implies rank_traced(
        trace.states[i],
        trace.states[i + 1],
        query,
        probes[start + i],
        loaded,
        filter,
        shape,
        rules,
        #[trigger] trace.works[i],
    ) by {
        let list = probes[start + i];
        let (before, after, work) = (trace.states[i], trace.states[i + 1], trace.works[i]);
        assert(rank_traced(before, after, query, list, loaded, filter, shape, given, work));
        crate::plan::lemma_loaded_at(ids, list);
        match crate::plan::loaded_at(ids, list) {
            Some(place) => {
                let source = crate::ivfrq_search::scan_source(
                    query,
                    place as usize,
                    loaded[place].ids@,
                    loaded[place].ids@,
                    filter,
                    shape,
                );
                let (taken, distances) = choose|taken: Seq<usize>, distances: Seq<u32>| #[trigger]
                    list_traced(
                        before,
                        after,
                        source,
                        loaded[place].ids@.len(),
                        given,
                        taken,
                        distances,
                        work,
                    );
                assert(rules_cover(given, rules, place as usize, loaded[place].ids@.len()));
                assert(loaded[place].ids.len() <= usize::MAX);
                lemma_rules_widen(
                    before,
                    after,
                    source,
                    loaded[place].ids@.len(),
                    given,
                    rules,
                    taken,
                    distances,
                    work,
                );
            },
            None => {},
        }
    }
}

/// The scans of a seeded search: what the first block of the list at `seed`
/// left and which of its rows it took, the limit that this gives, the
/// collection that each list's own scan ended with, and the query's collection
/// before and after each of them was merged.
pub struct SeededTrace {
    pub seed: usize,
    pub opened: TopKHeap,
    pub known: Seq<bool>,
    pub limit: u32,
    pub tasks: Seq<TopKHeap>,
    pub states: Seq<TopKHeap>,
    pub first_work: Work,
    pub works: Seq<Work>,
}

/// The results of a list task that were not known already, in turn.
pub open spec fn new_items(results: Seq<Neighbor>, known: Seq<bool>, ids: Seq<i64>) -> Seq<Neighbor>
    decreases results.len(),
{
    if results.len() == 0 {
        Seq::empty()
    } else {
        let before = new_items(results.drop_last(), known, ids);
        let row = crate::ivfrq_batch::labelled(results.last().1);
        if row < known.len() && known[row as int] {
            before
        } else {
            before.push((results.last().0, ids[row as int]))
        }
    }
}

/// The limit that a collection sets: the distance that it gives up next, or none
/// while it has room.
pub open spec fn limit_of(heap: TopKHeap) -> u32 {
    if heap.spec_k() > 0 && heap.items().len() == heap.spec_k() {
        heap.items()[0].0
    } else {
        crate::order::INFINITE_DISTANCE
    }
}

/// A list was scanned on its own under a limit, and what it kept was merged into
/// the query's collection, by distance, but for the rows that were known.
pub open spec fn task_traced<F: RowIdFilter>(
    before: TopKHeap,
    after: TopKHeap,
    task: TopKHeap,
    place: usize,
    loaded: Seq<LoadedList>,
    filter: Option<&F>,
    shape: ScanShape,
    rules: RowRules,
    limit: u32,
    known: Seq<bool>,
    work: Work,
) -> bool {
    let ids = loaded[place as int].ids@;
    let source = crate::ivfrq_search::scan_source(
        0,
        place,
        ids,
        Seq::new(ids.len(), |i: int| crate::ivfrq_batch::row_label(i as usize)),
        filter,
        shape,
    );
    &&& exists|empty: TopKHeap, taken: Seq<usize>, distances: Seq<u32>|
        {
            &&& #[trigger] list_traced(
                empty,
                task,
                source,
                ids.len(),
                rules,
                taken,
                distances,
                work,
            )
            &&& empty.items() == Seq::<Neighbor>::empty()
            &&& empty.spec_k() == before.spec_k()
            &&& empty.max_distance() == Some(limit)
        }
    &&& exists|results: Seq<Neighbor>| #[trigger]
        crate::topk::stably_sorted(task.items(), results) && after.items()
            == crate::topk::all_pushed(
            before.items(),
            before.spec_k() as nat,
            crate::pruned::worthy(before.max_distance(), new_items(results, known, ids)),
        )
}

/// The rows of a list that were known before its own scan.
pub open spec fn known_at(seed: usize, known: Seq<bool>, place: int) -> Seq<bool> {
    if place == seed {
        known
    } else {
        Seq::empty()
    }
}

/// The first `upto` lists were scanned on their own and merged.
#[verifier::opaque]
pub open spec fn tasks_traced<F: RowIdFilter>(
    loaded: Seq<LoadedList>,
    filter: Option<&F>,
    shape: ScanShape,
    rules: RowRules,
    trace: SeededTrace,
    upto: nat,
) -> bool {
    &&& trace.tasks.len() == upto
    &&& trace.works.len() == upto
    &&& trace.states.len() == upto + 1
    &&& trace.states[0] == trace.opened
    &&& forall|p: int|
        0 <= p < upto ==> task_traced(
            trace.states[p],
            trace.states[p + 1],
            #[trigger] trace.tasks[p],
            p as usize,
            loaded,
            filter,
            shape,
            rules,
            trace.limit,
            known_at(trace.seed, trace.known, p),
            trace.works[p],
        )
}

/// A seeded search over the loaded lists.
pub open spec fn seeded_traced<F: RowIdFilter>(
    before: TopKHeap,
    after: TopKHeap,
    loaded: Seq<LoadedList>,
    filter: Option<&F>,
    shape: ScanShape,
    rules: RowRules,
    trace: SeededTrace,
) -> bool {
    &&& crate::ivfrq_batch::first_filled(loaded, trace.seed as int)
    &&& block_opened(before, loaded, filter, shape, rules, trace)
    &&& trace.limit == limit_of(trace.opened)
    &&& tasks_traced(loaded, filter, shape, rules, trace, loaded.len())
    &&& trace.states[loaded.len() as int] == after
}

/// The first block of the list at `seed` was scanned.
#[verifier::opaque]
pub open spec fn block_opened<F: RowIdFilter>(
    before: TopKHeap,
    loaded: Seq<LoadedList>,
    filter: Option<&F>,
    shape: ScanShape,
    rules: RowRules,
    trace: SeededTrace,
) -> bool {
    let ids = loaded[trace.seed as int].ids@;
    exists|taken: Seq<usize>, distances: Seq<u32>| #[trigger]
        list_traced(
            before,
            trace.opened,
            crate::ivfrq_search::scan_source(0, trace.seed, ids, ids, filter, shape),
            crate::ivfrq_search::limited(ids.len(), 32),
            rules,
            taken,
            distances,
            trace.first_work,
        ) && crate::ivfrq_search::marks_rows(trace.known, taken)
}

/// The work of a seeded search.
pub open spec fn seeded_total(trace: SeededTrace) -> Work {
    crate::ivfrq_search::both(trace.first_work, total_work(trace.works))
}

/// A seeded search after its first block.
pub open spec fn seeded_start(
    seed: usize,
    opened: TopKHeap,
    known: Seq<bool>,
    limit: u32,
    first_work: Work,
) -> SeededTrace {
    SeededTrace {
        seed,
        opened,
        known,
        limit,
        tasks: Seq::empty(),
        states: seq![opened],
        first_work,
        works: Seq::empty(),
    }
}

/// A seeded search after one more list.
pub open spec fn seeded_step(
    trace: SeededTrace,
    task: TopKHeap,
    after: TopKHeap,
    work: Work,
) -> SeededTrace {
    SeededTrace {
        tasks: trace.tasks.push(task),
        states: trace.states.push(after),
        works: trace.works.push(work),
        ..trace
    }
}

/// The first block begins a seeded search.
pub proof fn lemma_seeded_begins<F: RowIdFilter>(
    before: TopKHeap,
    loaded: Seq<LoadedList>,
    filter: Option<&F>,
    shape: ScanShape,
    rules: RowRules,
    trace: SeededTrace,
    taken: Seq<usize>,
    distances: Seq<u32>,
)
    requires
        trace == seeded_start(
            trace.seed,
            trace.opened,
            trace.known,
            trace.limit,
            trace.first_work,
        ),
        list_traced(
            before,
            trace.opened,
            crate::ivfrq_search::scan_source(
                0,
                trace.seed,
                loaded[trace.seed as int].ids@,
                loaded[trace.seed as int].ids@,
                filter,
                shape,
            ),
            crate::ivfrq_search::limited(loaded[trace.seed as int].ids@.len(), 32),
            rules,
            taken,
            distances,
            trace.first_work,
        ),
        crate::ivfrq_search::marks_rows(trace.known, taken),
    ensures
        block_opened(before, loaded, filter, shape, rules, trace),
        tasks_traced(loaded, filter, shape, rules, trace, 0),
        seeded_total(trace) == trace.first_work,
{
    reveal(block_opened);
    reveal(tasks_traced);
}

/// One more list of a seeded search.
pub proof fn lemma_task_joins<F: RowIdFilter>(
    before: TopKHeap,
    now: TopKHeap,
    after: TopKHeap,
    task: TopKHeap,
    place: usize,
    loaded: Seq<LoadedList>,
    filter: Option<&F>,
    shape: ScanShape,
    rules: RowRules,
    trace: SeededTrace,
    work: Work,
)
    requires
        block_opened(before, loaded, filter, shape, rules, trace),
        tasks_traced(loaded, filter, shape, rules, trace, place as nat),
        trace.states[place as int] == now,
        task_traced(
            now,
            after,
            task,
            place,
            loaded,
            filter,
            shape,
            rules,
            trace.limit,
            known_at(trace.seed, trace.known, place as int),
            work,
        ),
    ensures
        block_opened(before, loaded, filter, shape, rules, seeded_step(trace, task, after, work)),
        tasks_traced(
            loaded,
            filter,
            shape,
            rules,
            seeded_step(trace, task, after, work),
            (place + 1) as nat,
        ),
        seeded_step(trace, task, after, work).states[place + 1] == after,
        seeded_total(seeded_step(trace, task, after, work)) == crate::ivfrq_search::both(
            seeded_total(trace),
            work,
        ),
{
    reveal(block_opened);
    reveal(tasks_traced);
    let longer = seeded_step(trace, task, after, work);
    assert(trace.works.push(work).drop_last() =~= trace.works);
    let seed_ids = loaded[trace.seed as int].ids@;
    let (taken, distances) = choose|taken: Seq<usize>, distances: Seq<u32>| #[trigger]
        list_traced(
            before,
            trace.opened,
            crate::ivfrq_search::scan_source(0, trace.seed, seed_ids, seed_ids, filter, shape),
            crate::ivfrq_search::limited(seed_ids.len(), 32),
            rules,
            taken,
            distances,
            trace.first_work,
        ) && crate::ivfrq_search::marks_rows(trace.known, taken);
    assert(list_traced(
        before,
        longer.opened,
        crate::ivfrq_search::scan_source(0, longer.seed, seed_ids, seed_ids, filter, shape),
        crate::ivfrq_search::limited(seed_ids.len(), 32),
        rules,
        taken,
        distances,
        longer.first_work,
    ) && crate::ivfrq_search::marks_rows(longer.known, taken));
    assert forall|p: int| 0 <= p < place + 1 implies task_traced(
        longer.states[p],
        longer.states[p + 1],
        #[trigger] longer.tasks[p],
        p as usize,
        loaded,
        filter,
        shape,
        rules,
        longer.limit,
        known_at(longer.seed, longer.known, p),
        longer.works[p],
    ) by {
        if p < place {
            assert(task_traced(
                trace.states[p],
                trace.states[p + 1],
                trace.tasks[p],
                p as usize,
                loaded,
                filter,
                shape,
                rules,
                trace.limit,
                known_at(trace.seed, trace.known, p),
                trace.works[p],
            ));
        }
    }
}

/// A seeded search traced by some rules is traced by rules that cover them.
pub proof fn lemma_seeded_widens<F: RowIdFilter>(
    before: TopKHeap,
    after: TopKHeap,
    loaded: Seq<LoadedList>,
    filter: Option<&F>,
    shape: ScanShape,
    given: RowRules,
    rules: RowRules,
    trace: SeededTrace,
)
    requires
        loaded.len() <= usize::MAX,
        seeded_traced(before, after, loaded, filter, shape, given, trace),
        forall|place: usize|
            place < loaded.len() ==> #[trigger] rules_cover(
                given,
                rules,
                place,
                loaded[place as int].ids@.len(),
            ),
    ensures
        seeded_traced(before, after, loaded, filter, shape, rules, trace),
{
    reveal(block_opened);
    reveal(tasks_traced);
    let seed_ids = loaded[trace.seed as int].ids@;
    let seed_source = crate::ivfrq_search::scan_source(
        0,
        trace.seed,
        seed_ids,
        seed_ids,
        filter,
        shape,
    );
    let lanes = crate::ivfrq_search::limited(seed_ids.len(), 32);
    let (taken, distances) = choose|taken: Seq<usize>, distances: Seq<u32>| #[trigger]
        list_traced(
            before,
            trace.opened,
            seed_source,
            lanes,
            given,
            taken,
            distances,
            trace.first_work,
        ) && crate::ivfrq_search::marks_rows(trace.known, taken);
    assert(rules_cover(given, rules, trace.seed, seed_ids.len()));
    lemma_rules_widen(
        before,
        trace.opened,
        seed_source,
        lanes,
        given,
        rules,
        taken,
        distances,
        trace.first_work,
    );
    assert forall|p: int| 0 <= p < loaded.len() implies task_traced(
        trace.states[p],
        trace.states[p + 1],
        #[trigger] trace.tasks[p],
        p as usize,
        loaded,
        filter,
        shape,
        rules,
        trace.limit,
        known_at(trace.seed, trace.known, p),
        trace.works[p],
    ) by {
        assert(task_traced(
            trace.states[p],
            trace.states[p + 1],
            trace.tasks[p],
            p as usize,
            loaded,
            filter,
            shape,
            given,
            trace.limit,
            known_at(trace.seed, trace.known, p),
            trace.works[p],
        ));
        let ids = loaded[p].ids@;
        assert(loaded[p].ids.len() <= usize::MAX);
        let source = crate::ivfrq_search::scan_source(
            0,
            p as usize,
            ids,
            Seq::new(ids.len(), |i: int| crate::ivfrq_batch::row_label(i as usize)),
            filter,
            shape,
        );
        let (empty, taken, distances) = choose|
            empty: TopKHeap,
            taken: Seq<usize>,
            distances: Seq<u32>,
        |
            {
                &&& #[trigger] list_traced(
                    empty,
                    trace.tasks[p],
                    source,
                    ids.len(),
                    given,
                    taken,
                    distances,
                    trace.works[p],
                )
                &&& empty.items() == Seq::<Neighbor>::empty()
                &&& empty.spec_k() == trace.states[p].spec_k()
                &&& empty.max_distance() == Some(trace.limit)
            };
        assert(rules_cover(given, rules, p as usize, ids.len()));
        lemma_rules_widen(
            empty,
            trace.tasks[p],
            source,
            ids.len(),
            given,
            rules,
            taken,
            distances,
            trace.works[p],
        );
    }
}

/// Offering one more item that is worth it, or not offering it.
pub proof fn lemma_offer_joins(
    items: Seq<Neighbor>,
    now: TopKHeap,
    after: TopKHeap,
    so_far: Seq<Neighbor>,
    item: Neighbor,
)
    requires
        now.items() == crate::topk::all_pushed(
            items,
            now.spec_k() as nat,
            crate::pruned::worthy(now.max_distance(), so_far),
        ),
        crate::pruned::is_offer(now, after, item),
    ensures
        after.items() == crate::topk::all_pushed(
            items,
            now.spec_k() as nat,
            crate::pruned::worthy(now.max_distance(), so_far.push(item)),
        ),
{
    let limit = now.max_distance();
    assert(so_far.push(item).drop_last() =~= so_far);
    let before = crate::pruned::worthy(limit, so_far);
    if crate::pruned::worth_offering(limit, item) {
        assert(crate::pruned::worthy(limit, so_far.push(item)) =~= before.push(item));
        assert(before.push(item).drop_last() =~= before);
    } else {
        assert(crate::pruned::worthy(limit, so_far.push(item)) =~= before);
    }
}

/// The scan of a list on its own, and its merging.
pub proof fn lemma_task_done<
    F: RowIdFilter,
    B: Fn(usize, usize, usize, bool) -> u32,
    A: Fn(usize, usize, usize) -> u32,
    E: Fn(usize, usize, usize) -> u32,
>(
    before: TopKHeap,
    after: TopKHeap,
    empty: TopKHeap,
    task: TopKHeap,
    stats_before: crate::ivfrq_search::IVFRQSearchStats,
    stats_after: crate::ivfrq_search::IVFRQSearchStats,
    place: usize,
    loaded: Seq<LoadedList>,
    labels: Seq<i64>,
    filter: Option<&F>,
    shape: ScanShape,
    kernel: RowKernel<B, A, E>,
    limit: u32,
    known: Seq<bool>,
    taken: Seq<usize>,
    distances: Seq<u32>,
    work: Work,
    results: Seq<Neighbor>,
)
    requires
        place < loaded.len(),
        labels.len() == loaded[place as int].ids@.len(),
        forall|i: int|
            0 <= i < labels.len() ==> #[trigger] labels[i] == crate::ivfrq_batch::row_label(
                i as usize,
            ),
        crate::ivfrq_search::blocked_scan(
            empty,
            task,
            stats_before,
            stats_after,
            crate::ivfrq_search::scan_source(
                0,
                place,
                loaded[place as int].ids@,
                labels,
                filter,
                shape,
            ),
            loaded[place as int].ids@.len(),
            kernel.bound_of,
            kernel.approximate_of,
            kernel.distance_of,
            taken,
            distances,
            work,
        ),
        empty.items() == Seq::<Neighbor>::empty(),
        empty.spec_k() == before.spec_k(),
        empty.max_distance() == Some(limit),
        crate::topk::stably_sorted(task.items(), results),
        after.items() == crate::topk::all_pushed(
            before.items(),
            before.spec_k() as nat,
            crate::pruned::worthy(
                before.max_distance(),
                new_items(results, known, loaded[place as int].ids@),
            ),
        ),
    ensures
        task_traced(
            before,
            after,
            task,
            place,
            loaded,
            filter,
            shape,
            kernel_rules(kernel, 0, loaded, filter is Some, shape),
            limit,
            known,
            work,
        ),
{
    let ids = loaded[place as int].ids@;
    assert(loaded[place as int].ids.len() <= usize::MAX);
    assert(labels =~= Seq::new(ids.len(), |i: int| crate::ivfrq_batch::row_label(i as usize)));
    lemma_blocked_scan_traced(
        empty,
        task,
        stats_before,
        stats_after,
        crate::ivfrq_search::scan_source(0, place, ids, labels, filter, shape),
        ids.len(),
        kernel,
        loaded,
        taken,
        distances,
        work,
    );
}

} // verus!
