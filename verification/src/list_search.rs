//! Searching inverted lists by the distances of their rows.
use crate::filter::RowIdFilter;
use crate::matching::{matching_rows, MatchingRows};
use crate::order::float_is_nan;
use crate::scan::{assemble_results, scan_rows};
use crate::session::LoadedList;
use crate::topk::{Neighbor, TopKHeap};
use vstd::multiset::Multiset;
use vstd::prelude::*;

verus! {

/// What a query is offered by its probes of ranks below `upto`.
pub open spec fn probed_rows<F: RowIdFilter>(
    lists: Seq<Vec<i64>>,
    probes: Seq<usize>,
    distances: Seq<Vec<u32>>,
    filter: Option<&F>,
    upto: nat,
) -> Multiset<Neighbor>
    decreases upto,
{
    if upto == 0 {
        Multiset::empty()
    } else {
        let r = upto - 1;
        probed_rows(lists, probes, distances, filter, r as nat).add(
            crate::session::allowed_rows(
                lists[probes[r] as int]@,
                distances[r]@,
                filter,
            ).to_multiset(),
        )
    }
}

/// The same rows in the order in which they are offered.
pub open spec fn probed_sequence<F: RowIdFilter>(
    lists: Seq<Vec<i64>>,
    probes: Seq<usize>,
    distances: Seq<Vec<u32>>,
    filter: Option<&F>,
    upto: nat,
) -> Seq<Neighbor>
    decreases upto,
{
    if upto == 0 {
        Seq::empty()
    } else {
        let r = upto - 1;
        probed_sequence(lists, probes, distances, filter, r as nat) + crate::session::allowed_rows(
            lists[probes[r] as int]@,
            distances[r]@,
            filter,
        )
    }
}

/// What a collection of `k` rows holds after a query's lists were scanned.
pub open spec fn probed_items<F: RowIdFilter>(
    lists: Seq<Vec<i64>>,
    probes: Seq<usize>,
    distances: Seq<Vec<u32>>,
    filter: Option<&F>,
    k: usize,
) -> Seq<Neighbor> {
    crate::topk::all_pushed(
        Seq::empty(),
        k as nat,
        probed_sequence(lists, probes, distances, filter, probes.len()),
    )
}

/// A query's probes name lists, and each probe has one distance per row, a
/// number for each row that may be returned.
pub open spec fn probes_fit<F: RowIdFilter>(
    lists: Seq<Vec<i64>>,
    probes: Seq<usize>,
    distances: Seq<Vec<u32>>,
    filter: Option<&F>,
) -> bool {
    &&& distances.len() == probes.len()
    &&& forall|r: int| 0 <= r < probes.len() ==> #[trigger] probes[r] < lists.len()
    &&& forall|r: int|
        0 <= r < probes.len() ==> (#[trigger] distances[r])@.len() == lists[probes[r] as int]@.len()
            && crate::scan::numbers(
            crate::session::allowed_rows(lists[probes[r] as int]@, distances[r]@, filter),
        )
}

/// Query `q` of several.
pub open spec fn query_at(queries: Seq<u32>, d: int, q: int) -> Seq<u32> {
    queries.subrange(q * d, (q + 1) * d)
}

/// Every row that may be returned has a distance that `measures` gives to the
/// row at a place of the list at a rank.
pub open spec fn are_measured<F: RowIdFilter>(
    lists: Seq<Vec<i64>>,
    probes: Seq<usize>,
    distances: Seq<Vec<u32>>,
    filter: Option<&F>,
    measures: spec_fn(int, int, u32) -> bool,
) -> bool {
    &&& distances.len() == probes.len()
    &&& forall|r: int|
        0 <= r < probes.len() ==> (#[trigger] distances[r])@.len() == lists[probes[r] as int]@.len()
    &&& forall|r: int, row: int|
        0 <= r < probes.len() && 0 <= row < lists[probes[r] as int]@.len()
            && crate::filter::row_allowed(filter, lists[probes[r] as int]@[row]) ==> measures(
            r,
            row,
            #[trigger] distances[r]@[row],
        )
}

/// Some row that may be returned has a NaN for a distance.
pub open spec fn measures_nan<F: RowIdFilter>(
    lists: Seq<Vec<i64>>,
    probes: Seq<usize>,
    filter: Option<&F>,
    measures: spec_fn(int, int, u32) -> bool,
) -> bool {
    exists|r: int, row: int, distance: u32|
        0 <= r < probes.len() && 0 <= row < lists[probes[r] as int]@.len()
            && crate::filter::row_allowed(filter, lists[probes[r] as int]@[row])
            && crate::order::is_nan(distance) && #[trigger] measures(r, row, distance)
}

/// Row `query` of the result holds the nearest of the probed rows that pass
/// the filter, with the distances that `measures` gives them.
pub open spec fn measured_answer<F: RowIdFilter>(
    lists: Seq<Vec<i64>>,
    probes: Seq<usize>,
    filter: Option<&F>,
    measures: spec_fn(int, int, u32) -> bool,
    ids: Seq<i64>,
    distances: Seq<u32>,
    query: int,
    k: usize,
) -> bool {
    exists|measured: Seq<Vec<u32>>|
        {
            &&& #[trigger] are_measured(lists, probes, measured, filter, measures)
            &&& probes_fit(lists, probes, measured, filter)
            &&& crate::session::answers(
                probed_rows(lists, probes, measured, filter, probes.len()),
                ids,
                distances,
                query,
                k,
            )
            &&& crate::scan::lists_sorted(
                probed_items(lists, probes, measured, filter, k),
                ids,
                distances,
                query,
                k,
            )
        }
}

/// Distances that are measured in one way only offer the same rows, however
/// often they are measured.
pub proof fn law_measured_rows_agree<F: RowIdFilter>(
    lists: Seq<Vec<i64>>,
    probes: Seq<usize>,
    a: Seq<Vec<u32>>,
    b: Seq<Vec<u32>>,
    filter: Option<&F>,
    measures: spec_fn(int, int, u32) -> bool,
    upto: nat,
)
    requires
        upto <= probes.len(),
        forall|r: int| 0 <= r < probes.len() ==> #[trigger] probes[r] < lists.len(),
        are_measured(lists, probes, a, filter, measures),
        are_measured(lists, probes, b, filter, measures),
        forall|r: int, row: int, x: u32, y: u32| #[trigger]
            measures(r, row, x) && #[trigger] measures(r, row, y) ==> x == y,
    ensures
        probed_sequence(lists, probes, a, filter, upto) == probed_sequence(
            lists,
            probes,
            b,
            filter,
            upto,
        ),
    decreases upto,
{
    if upto > 0 {
        let r = upto - 1;
        law_measured_rows_agree(lists, probes, a, b, filter, measures, r as nat);
        let ids = lists[probes[r] as int]@;
        assert(lists[probes[r] as int].len() <= usize::MAX);
        lemma_passing_rows(ids, filter);
        assert(a[r]@.len() == b[r]@.len() == ids.len());
        let passing = crate::session::passing(ids, filter);
        assert forall|i: int| 0 <= i < passing.len() implies a[r]@[#[trigger] passing[i] as int]
            == b[r]@[passing[i] as int] by {
            let row = passing[i] as int;
            assert(measures(r, row, a[r]@[row]));
            assert(measures(r, row, b[r]@[row]));
        }
        assert(crate::session::allowed_rows(ids, a[r]@, filter) =~= crate::session::allowed_rows(
            ids,
            b[r]@,
            filter,
        ));
    }
}

/// The list at a rank was read with the same rows and distances; lists without
/// rows need not be read.
pub open spec fn was_read(
    lists: Seq<Vec<i64>>,
    probes: Seq<usize>,
    distances: Seq<Vec<u32>>,
    loaded: Seq<LoadedList>,
    read_distances: Seq<Vec<u32>>,
    r: int,
) -> bool {
    match crate::plan::loaded_at(crate::session::loaded_ids(loaded), probes[r]) {
        Some(p) => loaded[p].ids@ == lists[probes[r] as int]@ && read_distances[p]@
            == distances[r]@,
        None => lists[probes[r] as int]@.len() == 0,
    }
}

/// A query is offered the same rows by lists that are read as by lists that
/// are held.
pub proof fn law_reading_offers_what_holding_offers<F: RowIdFilter>(
    lists: Seq<Vec<i64>>,
    probes: Seq<usize>,
    distances: Seq<Vec<u32>>,
    loaded: Seq<LoadedList>,
    read_distances: Seq<Vec<u32>>,
    filter: Option<&F>,
    upto: nat,
)
    requires
        upto <= probes.len(),
        forall|r: int|
            0 <= r < probes.len() ==> #[trigger] was_read(
                lists,
                probes,
                distances,
                loaded,
                read_distances,
                r,
            ),
    ensures
        crate::session::probe_items(probes, 0, upto, loaded, read_distances, filter)
            == probed_rows(lists, probes, distances, filter, upto),
    decreases upto,
{
    if upto > 0 {
        let r = upto - 1;
        law_reading_offers_what_holding_offers(
            lists,
            probes,
            distances,
            loaded,
            read_distances,
            filter,
            r as nat,
        );
        assert(was_read(lists, probes, distances, loaded, read_distances, r));
        let before = probed_rows(lists, probes, distances, filter, r as nat);
        let ids = lists[probes[r] as int]@;
        if ids.len() == 0 {
            let none = crate::session::allowed_rows(ids, distances[r]@, filter);
            assert(none.len() == 0);
            none.to_multiset_ensures();
            assert(none.to_multiset() =~= Multiset::empty());
            assert(before.add(none.to_multiset()) =~= before);
        }
    }
}

/// Answers by distances that are measured in one way only are the same, place
/// by place.
pub proof fn law_measured_answers_agree<F: RowIdFilter>(
    lists: Seq<Vec<i64>>,
    probes: Seq<usize>,
    filter: Option<&F>,
    measures: spec_fn(int, int, u32) -> bool,
    ids: Seq<i64>,
    distances: Seq<u32>,
    other_ids: Seq<i64>,
    other_distances: Seq<u32>,
    query: int,
    k: usize,
)
    requires
        measured_answer(lists, probes, filter, measures, ids, distances, query, k),
        measured_answer(lists, probes, filter, measures, other_ids, other_distances, query, k),
        forall|r: int, row: int, x: u32, y: u32| #[trigger]
            measures(r, row, x) && #[trigger] measures(r, row, y) ==> x == y,
    ensures
        forall|i: int|
            0 <= i < k ==> #[trigger] ids[query * k + i] == other_ids[query * k + i]
                && distances[query * k + i] == other_distances[query * k + i],
{
    let a = choose|measured: Seq<Vec<u32>>|
        {
            &&& #[trigger] are_measured(lists, probes, measured, filter, measures)
            &&& probes_fit(lists, probes, measured, filter)
            &&& crate::session::answers(
                probed_rows(lists, probes, measured, filter, probes.len()),
                ids,
                distances,
                query,
                k,
            )
            &&& crate::scan::lists_sorted(
                probed_items(lists, probes, measured, filter, k),
                ids,
                distances,
                query,
                k,
            )
        };
    let b = choose|measured: Seq<Vec<u32>>|
        {
            &&& #[trigger] are_measured(lists, probes, measured, filter, measures)
            &&& probes_fit(lists, probes, measured, filter)
            &&& crate::session::answers(
                probed_rows(lists, probes, measured, filter, probes.len()),
                other_ids,
                other_distances,
                query,
                k,
            )
            &&& crate::scan::lists_sorted(
                probed_items(lists, probes, measured, filter, k),
                other_ids,
                other_distances,
                query,
                k,
            )
        };
    law_measured_rows_agree(lists, probes, a, b, filter, measures, probes.len());
    let items = probed_items(lists, probes, a, filter, k);
    let first = choose|sorted: Seq<Neighbor>| #[trigger]
        crate::topk::stably_sorted(items, sorted) && crate::scan::result_row(
            ids,
            distances,
            query,
            k as int,
            sorted,
        );
    let second = choose|sorted: Seq<Neighbor>| #[trigger]
        crate::topk::stably_sorted(items, sorted) && crate::scan::result_row(
            other_ids,
            other_distances,
            query,
            k as int,
            sorted,
        );
    crate::topk::law_stable_sorting_is_unique(items, first, second);
    assert forall|i: int| 0 <= i < k implies #[trigger] ids[query * k + i] == other_ids[query * k
        + i] && distances[query * k + i] == other_distances[query * k + i] by {
        assert(other_ids[query * k + i] == crate::scan::padded_id(second, i));
    }
}

/// Where distances are measured in one way only, a search that found numbers
/// measured no NaN.
pub proof fn law_numbers_are_no_nans<F: RowIdFilter>(
    lists: Seq<Vec<i64>>,
    probes: Seq<usize>,
    measured: Seq<Vec<u32>>,
    filter: Option<&F>,
    measures: spec_fn(int, int, u32) -> bool,
)
    requires
        are_measured(lists, probes, measured, filter, measures),
        probes_fit(lists, probes, measured, filter),
        forall|r: int, row: int, x: u32, y: u32| #[trigger]
            measures(r, row, x) && #[trigger] measures(r, row, y) ==> x == y,
    ensures
        !measures_nan(lists, probes, filter, measures),
{
    if measures_nan(lists, probes, filter, measures) {
        let (r, row, distance) = choose|r: int, row: int, distance: u32|
            0 <= r < probes.len() && 0 <= row < lists[probes[r] as int]@.len()
                && crate::filter::row_allowed(filter, lists[probes[r] as int]@[row])
                && crate::order::is_nan(distance) && #[trigger] measures(r, row, distance);
        let ids = lists[probes[r] as int]@;
        assert(lists[probes[r] as int].len() <= usize::MAX);
        lemma_passing_rows(ids, filter);
        let passing = crate::session::passing(ids, filter);
        let offered = crate::session::allowed_rows(ids, measured[r]@, filter);
        assert(crate::filter::row_allowed(filter, ids[row]));
        assert(passing.contains(row as usize));
        let i = choose|i: int| 0 <= i < passing.len() && passing[i] == row as usize;
        assert(measures(r, row, measured[r]@[row]));
        assert(offered[i].0 == distance);
        assert(crate::scan::numbers(offered));
        assert(false);
    }
}

/// The positions that pass the filter are those of the rows it allows.
pub proof fn lemma_passing_rows<F: RowIdFilter>(ids: Seq<i64>, filter: Option<&F>)
    requires
        ids.len() <= usize::MAX,
    ensures
        forall|i: int|
            0 <= i < crate::session::passing(ids, filter).len() ==> 0 <= #[trigger]
            crate::session::passing(ids, filter)[i] < ids.len() && crate::filter::row_allowed(
                filter,
                ids[crate::session::passing(ids, filter)[i] as int],
            ),
        forall|row: int|
            0 <= row < ids.len() && crate::filter::row_allowed(filter, #[trigger] ids[row])
                ==> crate::session::passing(ids, filter).contains(row as usize),
{
    let pick = |p: int| crate::filter::row_allowed(filter, ids[p]);
    crate::matching::lemma_picked(pick, ids.len());
    assert forall|row: int|
        0 <= row < ids.len() && crate::filter::row_allowed(filter, #[trigger] ids[row]) implies
        crate::session::passing(ids, filter).contains(row as usize) by {
        assert(pick(row));
    }
    assert forall|i: int| 0 <= i < crate::session::passing(ids, filter).len() implies 0
        <= #[trigger] crate::session::passing(ids, filter)[i] < ids.len()
        && crate::filter::row_allowed(
        filter,
        ids[crate::session::passing(ids, filter)[i] as int],
    ) by {
        assert(pick(crate::matching::picked(pick, ids.len())[i] as int));
    }
}

/// The matching rows of the probed lists are known where there is a filter.
pub open spec fn rows_cover<F: RowIdFilter>(
    lists: Seq<Vec<i64>>,
    probes: Seq<Vec<usize>>,
    rows: Seq<MatchingRows>,
    filter: Option<&F>,
) -> bool {
    filter is Some ==> {
        &&& rows.len() == lists.len()
        &&& forall|q: int, r: int|
            0 <= q < probes.len() && 0 <= r < probes[q]@.len() ==> crate::session::rows_match(
                lists[#[trigger] probes[q]@[r] as int]@,
                Some(rows[probes[q]@[r] as int]),
                filter,
            )
    }
}

/// Filters every probed list once; without a filter there is nothing to do.
pub fn match_lists<F: RowIdFilter>(
    lists: &Vec<Vec<i64>>,
    probes: &Vec<Vec<usize>>,
    filter: Option<&F>,
) -> (rows: Vec<MatchingRows>)
    requires
        crate::plan::probes_valid(probes@, lists@.len()),
    ensures
        rows_cover(lists@, probes@, rows@, filter),
{
    match filter {
        Some(filter) => match_probed_lists(lists, probes, filter),
        None => Vec::new(),
    }
}

/// Whether a row is among the matching ones of its list.
pub(crate) fn is_matching<F: RowIdFilter>(
    rows: &Vec<MatchingRows>,
    list: usize,
    row: usize,
    filter: Option<&F>,
    Ghost(ids): Ghost<Seq<i64>>,
) -> (matching: bool)
    requires
        row < ids.len(),
        filter is Some ==> list < rows@.len() && crate::session::rows_match(
            ids,
            Some(rows@[list as int]),
            filter,
        ),
    ensures
        matching == crate::filter::row_allowed(filter, ids[row as int]),
{
    match filter {
        Some(_) => rows[list].contains(row),
        None => true,
    }
}

/// Whether the rows of a list that may be returned have numbers for distances.
fn list_has_numbers<F: RowIdFilter>(
    ids: &Vec<i64>,
    list: usize,
    distances: &Vec<u32>,
    rows: &Vec<MatchingRows>,
    filter: Option<&F>,
) -> (all: bool)
    requires
        distances@.len() == ids@.len(),
        filter is Some ==> list < rows@.len() && crate::session::rows_match(
            ids@,
            Some(rows@[list as int]),
            filter,
        ),
    ensures
        all == crate::scan::numbers(
            crate::session::allowed_rows(ids@, distances@, filter),
        ),
        !all ==> exists|row: int|
            0 <= row < ids@.len() && crate::filter::row_allowed(filter, ids@[row])
                && crate::order::is_nan(#[trigger] distances@[row]),
{
    let ghost offered = crate::session::allowed_rows(ids@, distances@, filter);
    let ghost passing = crate::session::passing(ids@, filter);
    let count: usize = ids.len();
    proof {
        lemma_passing_rows(ids@, filter);
    }
    let mut row: usize = 0;
    while row < count
        invariant
            row <= count,
            count == ids@.len(),
            distances@.len() == ids@.len(),
            filter is Some ==> list < rows@.len() && crate::session::rows_match(
                ids@,
                Some(rows@[list as int]),
                filter,
            ),
            offered == crate::session::allowed_rows(ids@, distances@, filter),
            passing == crate::session::passing(ids@, filter),
            forall|i: int|
                0 <= i < count && crate::filter::row_allowed(filter, #[trigger] ids@[i])
                    ==> passing.contains(i as usize),
            forall|i: int|
                0 <= i < row && crate::filter::row_allowed(filter, #[trigger] ids@[i])
                    ==> !crate::order::is_nan(distances@[i]),
        decreases count - row,
    {
        if float_is_nan(distances[row]) && is_matching(rows, list, row, filter, Ghost(ids@)) {
            proof {
                assert(crate::filter::row_allowed(filter, ids@[row as int]));
                assert(passing.contains(row));
                let i = choose|i: int| 0 <= i < passing.len() && passing[i] == row;
                assert(offered[i].0 == distances@[row as int]);
            }
            return false;
        }
        row = row + 1;
    }
    proof {
        assert forall|i: int| 0 <= i < offered.len() implies !crate::order::is_nan(
            (#[trigger] offered[i]).0,
        ) by {
            let place = passing[i] as int;
            assert(crate::filter::row_allowed(filter, ids@[place]));
        }
    }
    true
}

/// Whether the rows of the probed lists that may be returned have numbers for
/// distances.
fn probes_have_numbers<F: RowIdFilter>(
    lists: &Vec<Vec<i64>>,
    probes: &Vec<usize>,
    distances: &Vec<Vec<u32>>,
    rows: &Vec<MatchingRows>,
    filter: Option<&F>,
) -> (all: bool)
    requires
        distances@.len() == probes@.len(),
        filter is Some ==> rows@.len() == lists@.len(),
        filter is Some ==> forall|r: int|
            0 <= r < probes@.len() ==> crate::session::rows_match(
                lists@[#[trigger] probes@[r] as int]@,
                Some(rows@[probes@[r] as int]),
                filter,
            ),
        forall|r: int| 0 <= r < probes@.len() ==> #[trigger] probes@[r] < lists@.len(),
        forall|r: int|
            0 <= r < probes@.len() ==> (#[trigger] distances@[r])@.len()
                == lists@[probes@[r] as int]@.len(),
    ensures
        all == probes_fit(lists@, probes@, distances@, filter),
        !all ==> exists|r: int, row: int|
            0 <= r < probes@.len() && 0 <= row < lists@[probes@[r] as int]@.len()
                && crate::filter::row_allowed(filter, lists@[probes@[r] as int]@[row])
                && crate::order::is_nan(#[trigger] distances@[r]@[row]),
{
    let mut r: usize = 0;
    while r < probes.len()
        invariant
            r <= probes@.len(),
            distances@.len() == probes@.len(),
            filter is Some ==> rows@.len() == lists@.len(),
            filter is Some ==> forall|i: int|
                0 <= i < probes@.len() ==> crate::session::rows_match(
                    lists@[#[trigger] probes@[i] as int]@,
                    Some(rows@[probes@[i] as int]),
                    filter,
                ),
            forall|i: int| 0 <= i < probes@.len() ==> #[trigger] probes@[i] < lists@.len(),
            forall|i: int|
                0 <= i < probes@.len() ==> (#[trigger] distances@[i])@.len()
                    == lists@[probes@[i] as int]@.len(),
            forall|i: int|
                0 <= i < r ==> crate::scan::numbers(
                    crate::session::allowed_rows(
                        lists@[probes@[i] as int]@,
                        (#[trigger] distances@[i])@,
                        filter,
                    ),
                ),
        decreases probes@.len() - r,
    {
        assert(distances@[r as int]@.len() == lists@[probes@[r as int] as int]@.len());
        let list: usize = probes[r];
        if !list_has_numbers(&lists[list], list, &distances[r], rows, filter) {
            return false;
        }
        r = r + 1;
    }
    true
}

/// Searches by the distances of the lists' rows, unless the distance of a row
/// that may be returned is a NaN.
pub(crate) fn search_measured<F: RowIdFilter>(
    lists: &Vec<Vec<i64>>,
    probes: &Vec<Vec<usize>>,
    rows: &Vec<MatchingRows>,
    distances: &Vec<Vec<Vec<u32>>>,
    k: usize,
    filter: Option<&F>,
    Ghost(measures): Ghost<spec_fn(int) -> spec_fn(int, int, u32) -> bool>,
) -> (out: Option<(Vec<i64>, Vec<u32>)>)
    requires
        k * 2 + 2 <= usize::MAX,
        probes@.len() * k <= usize::MAX,
        crate::plan::probes_valid(probes@, lists@.len()),
        rows_cover(lists@, probes@, rows@, filter),
        distances@.len() == probes@.len(),
        forall|q: int|
            0 <= q < probes@.len() ==> are_measured(
                lists@,
                (#[trigger] probes@[q])@,
                distances@[q]@,
                filter,
                measures(q),
            ),
    ensures
        out is None ==> exists|q: int|
            0 <= q < probes@.len() && measures_nan(
                lists@,
                (#[trigger] probes@[q])@,
                filter,
                measures(q),
            ),
        out matches Some(found) ==> {
            &&& found.0@.len() == probes@.len() * k
            &&& found.1@.len() == probes@.len() * k
            &&& forall|q: int|
                0 <= q < probes@.len() ==> measured_answer(
                    lists@,
                    (#[trigger] probes@[q])@,
                    filter,
                    measures(q),
                    found.0@,
                    found.1@,
                    q,
                    k,
                )
        },
{
    let mut q: usize = 0;
    while q < probes.len()
        invariant
            q <= probes@.len(),
            crate::plan::probes_valid(probes@, lists@.len()),
            rows_cover(lists@, probes@, rows@, filter),
            distances@.len() == probes@.len(),
            forall|p: int|
                0 <= p < probes@.len() ==> are_measured(
                    lists@,
                    (#[trigger] probes@[p])@,
                    distances@[p]@,
                    filter,
                    measures(p),
                ),
            forall|p: int|
                0 <= p < q ==> probes_fit(
                    lists@,
                    (#[trigger] probes@[p])@,
                    distances@[p]@,
                    filter,
                ),
        decreases probes@.len() - q,
    {
        proof {
            assert(are_measured(
                lists@,
                probes@[q as int]@,
                distances@[q as int]@,
                filter,
                measures(q as int),
            ));
            assert forall|r: int| 0 <= r < probes@[q as int]@.len() implies
                #[trigger] probes@[q as int]@[r] < lists@.len() by {}
        }
        if !probes_have_numbers(lists, &probes[q], &distances[q], rows, filter) {
            proof {
                let own = probes@[q as int]@;
                let (r, row) = choose|r: int, row: int|
                    0 <= r < own.len() && 0 <= row < lists@[own[r] as int]@.len()
                        && crate::filter::row_allowed(filter, lists@[own[r] as int]@[row])
                        && crate::order::is_nan(#[trigger] distances@[q as int]@[r]@[row]);
                let measure = measures(q as int);
                assert(measure(r, row, distances@[q as int]@[r]@[row]));
                assert(measures_nan(lists@, own, filter, measure));
            }
            return None;
        }
        q = q + 1;
    }
    let found = search_matched_lists(lists, probes, rows, distances, k, filter);
    proof {
        assert forall|q: int| 0 <= q < probes@.len() implies measured_answer(
            lists@,
            (#[trigger] probes@[q])@,
            filter,
            measures(q),
            found.0@,
            found.1@,
            q,
            k,
        ) by {
            assert(are_measured(lists@, probes@[q]@, distances@[q]@, filter, measures(q)));
        }
    }
    Some(found)
}

/// The matching rows of every probed list; nothing for the other lists.
fn match_probed_lists<F: RowIdFilter>(
    lists: &Vec<Vec<i64>>,
    probes: &Vec<Vec<usize>>,
    filter: &F,
) -> (rows: Vec<MatchingRows>)
    requires
        crate::plan::probes_valid(probes@, lists@.len()),
    ensures
        rows@.len() == lists@.len(),
        forall|q: int, r: int|
            0 <= q < probes@.len() && 0 <= r < probes@[q]@.len() ==> crate::session::rows_match(
                lists@[#[trigger] probes@[q]@[r] as int]@,
                Some(rows@[probes@[q]@[r] as int]),
                Some(filter),
            ),
{
    let mut probed: Vec<bool> = vec![false; lists.len()];
    let mut q: usize = 0;
    while q < probes.len()
        invariant
            q <= probes@.len(),
            probed@.len() == lists@.len(),
            crate::plan::probes_valid(probes@, lists@.len()),
            forall|p: int, r: int|
                0 <= p < q && 0 <= r < probes@[p]@.len()
                    ==> probed@[#[trigger] probes@[p]@[r] as int],
        decreases probes@.len() - q,
    {
        let row = &probes[q];
        let mut r: usize = 0;
        while r < row.len()
            invariant
                q < probes@.len(),
                row@ == probes@[q as int]@,
                r <= row@.len(),
                probed@.len() == lists@.len(),
                crate::plan::probes_valid(probes@, lists@.len()),
                forall|p: int, i: int|
                    0 <= p < q && 0 <= i < probes@[p]@.len()
                        ==> probed@[#[trigger] probes@[p]@[i] as int],
                forall|i: int| 0 <= i < r ==> probed@[#[trigger] row@[i] as int],
            decreases row@.len() - r,
        {
            assert(probes@[q as int]@[r as int] < lists@.len());
            let list: usize = row[r];
            probed.set(list, true);
            r = r + 1;
        }
        q = q + 1;
    }
    let mut rows: Vec<MatchingRows> = Vec::new();
    let mut l: usize = 0;
    while l < lists.len()
        invariant
            l <= lists@.len(),
            probed@.len() == lists@.len(),
            rows@.len() == l,
            forall|k: int|
                0 <= k < l && #[trigger] probed@[k] ==> crate::session::rows_match(
                    lists@[k]@,
                    Some(rows@[k]),
                    Some(filter),
                ),
        decreases lists@.len() - l,
    {
        if probed[l] {
            match matching_rows(lists[l].as_slice(), Some(filter)) {
                Some(found) => {
                    rows.push(found);
                },
                None => {
                    rows.push(MatchingRows::Sparse(Vec::new()));
                },
            }
        } else {
            rows.push(MatchingRows::Sparse(Vec::new()));
        }
        l = l + 1;
    }
    proof {
        assert forall|q: int, r: int|
            0 <= q < probes@.len() && 0 <= r < probes@[q]@.len() implies crate::session::rows_match(
            lists@[#[trigger] probes@[q]@[r] as int]@,
            Some(rows@[probes@[q]@[r] as int]),
            Some(filter),
        ) by {
            assert(probed@[probes@[q]@[r] as int]);
            assert(probes@[q]@[r] < lists@.len());
        }
    }
    rows
}

/// The nearest rows of the probed lists that pass the filter, for each
/// query, given the distances of the lists' rows.
pub fn search_lists<F: RowIdFilter>(
    lists: &Vec<Vec<i64>>,
    probes: &Vec<Vec<usize>>,
    distances: &Vec<Vec<Vec<u32>>>,
    k: usize,
    filter: Option<&F>,
) -> (out: (Vec<i64>, Vec<u32>))
    requires
        k * 2 + 2 <= usize::MAX,
        probes@.len() * k <= usize::MAX,
        distances@.len() == probes@.len(),
        forall|q: int|
            0 <= q < probes@.len() ==> probes_fit(
                lists@,
                (#[trigger] probes@[q])@,
                distances@[q]@,
                filter,
            ),
    ensures
        out.0@.len() == probes@.len() * k,
        out.1@.len() == probes@.len() * k,
        forall|q: int|
            0 <= q < probes@.len() ==> crate::session::answers(
                probed_rows(
                    lists@,
                    (#[trigger] probes@[q])@,
                    distances@[q]@,
                    filter,
                    probes@[q]@.len(),
                ),
                out.0@,
                out.1@,
                q,
                k,
            ),
        forall|q: int|
            0 <= q < probes@.len() ==> crate::scan::lists_sorted(
                probed_items(lists@, (#[trigger] probes@[q])@, distances@[q]@, filter, k),
                out.0@,
                out.1@,
                q,
                k,
            ),
{
    assert(crate::plan::probes_valid(probes@, lists@.len())) by {
        assert forall|q: int, r: int|
            0 <= q < probes@.len() && 0 <= r < probes@[q]@.len() implies #[trigger] probes@[q]@[r]
            < lists@.len() by {
            assert(probes_fit(lists@, probes@[q]@, distances@[q]@, filter));
        }
    }
    let rows = match_lists(lists, probes, filter);
    search_matched_lists(lists, probes, &rows, distances, k, filter)
}

/// The same search, given the matching rows of the probed lists.
pub fn search_matched_lists<F: RowIdFilter>(
    lists: &Vec<Vec<i64>>,
    probes: &Vec<Vec<usize>>,
    rows: &Vec<MatchingRows>,
    distances: &Vec<Vec<Vec<u32>>>,
    k: usize,
    filter: Option<&F>,
) -> (out: (Vec<i64>, Vec<u32>))
    requires
        rows_cover(lists@, probes@, rows@, filter),
        k * 2 + 2 <= usize::MAX,
        probes@.len() * k <= usize::MAX,
        distances@.len() == probes@.len(),
        forall|q: int|
            0 <= q < probes@.len() ==> probes_fit(
                lists@,
                (#[trigger] probes@[q])@,
                distances@[q]@,
                filter,
            ),
    ensures
        out.0@.len() == probes@.len() * k,
        out.1@.len() == probes@.len() * k,
        forall|q: int|
            0 <= q < probes@.len() ==> crate::session::answers(
                probed_rows(
                    lists@,
                    (#[trigger] probes@[q])@,
                    distances@[q]@,
                    filter,
                    probes@[q]@.len(),
                ),
                out.0@,
                out.1@,
                q,
                k,
            ),
        forall|q: int|
            0 <= q < probes@.len() ==> crate::scan::lists_sorted(
                probed_items(lists@, (#[trigger] probes@[q])@, distances@[q]@, filter, k),
                out.0@,
                out.1@,
                q,
                k,
            ),
{
    assert(crate::plan::probes_valid(probes@, lists@.len())) by {
        assert forall|q: int, r: int|
            0 <= q < probes@.len() && 0 <= r < probes@[q]@.len() implies #[trigger] probes@[q]@[r]
            < lists@.len() by {
            assert(probes_fit(lists@, probes@[q]@, distances@[q]@, filter));
        }
    }
    let mut results: Vec<Vec<Neighbor>> = Vec::new();
    let mut q: usize = 0;
    while q < probes.len()
        invariant
            q <= probes@.len(),
            k * 2 + 2 <= usize::MAX,
            distances@.len() == probes@.len(),
            forall|p: int|
                0 <= p < probes@.len() ==> probes_fit(
                    lists@,
                    (#[trigger] probes@[p])@,
                    distances@[p]@,
                    filter,
                ),
            rows_cover(lists@, probes@, rows@, filter),
            results@.len() == q,
            forall|p: int|
                0 <= p < q ==> crate::session::is_answer(
                    probed_rows(
                        lists@,
                        probes@[p]@,
                        distances@[p]@,
                        filter,
                        probes@[p]@.len(),
                    ),
                    (#[trigger] results@[p])@,
                    k,
                ),
            forall|p: int|
                0 <= p < q ==> crate::topk::stably_sorted(
                    probed_items(lists@, probes@[p]@, distances@[p]@, filter, k),
                    (#[trigger] results@[p])@,
                ),
        decreases probes@.len() - q,
    {
        let row = &probes[q];
        let row_distances = &distances[q];
        assert(probes_fit(lists@, probes@[q as int]@, distances@[q as int]@, filter));
        let mut heap = TopKHeap::new(k);
        proof {
            crate::scan::lemma_empty_heap(heap);
        }
        let mut r: usize = 0;
        while r < row.len()
            invariant
                q < probes@.len(),
                row@ == probes@[q as int]@,
                row_distances@ == distances@[q as int]@,
                r <= row@.len(),
                probes_fit(lists@, row@, row_distances@, filter),
                rows_cover(lists@, probes@, rows@, filter),
                crate::scan::open_heap(heap),
                heap.spec_k() == k,
                crate::topk::nearest_of(
                    probed_rows(lists@, row@, row_distances@, filter, r as nat),
                    heap.contents(),
                    k as nat,
                ),
                heap.items() == crate::topk::all_pushed(
                    Seq::empty(),
                    k as nat,
                    probed_sequence(lists@, row@, row_distances@, filter, r as nat),
                ),
            decreases row@.len() - r,
        {
            let list: usize = row[r];
            let ids = &lists[list];
            let matching: Option<&MatchingRows> = match filter {
                Some(_) => Some(&rows[list]),
                None => None,
            };
            proof {
                assert(row@[r as int] == probes@[q as int]@[r as int]);
                crate::session::lemma_visited_passes(ids@, matching, filter);
                assert(row_distances@[r as int]@.len() == ids@.len());
                assert(crate::scan::scanned(ids@, row_distances@[r as int]@, matching)
                    == crate::session::allowed_rows(ids@, row_distances@[r as int]@, filter));
                crate::topk::law_pushing_in_parts(
                    Seq::empty(),
                    k as nat,
                    probed_sequence(lists@, row@, row_distances@, filter, r as nat),
                    crate::session::allowed_rows(ids@, row_distances@[r as int]@, filter),
                );
            }
            scan_rows(ids.as_slice(), row_distances[r].as_slice(), matching, &mut heap);
            r = r + 1;
        }
        results.push(heap.into_sorted());
        q = q + 1;
    }
    let out = assemble_results(&results, k);
    proof {
        assert forall|q: int| 0 <= q < probes@.len() implies crate::session::answers(
            probed_rows(
                lists@,
                (#[trigger] probes@[q])@,
                distances@[q]@,
                filter,
                probes@[q]@.len(),
            ),
            out.0@,
            out.1@,
            q,
            k,
        ) by {
            assert(crate::session::is_answer(
                probed_rows(
                    lists@,
                    probes@[q]@,
                    distances@[q]@,
                    filter,
                    probes@[q]@.len(),
                ),
                results@[q]@,
                k,
            ));
        }
        assert forall|q: int| 0 <= q < probes@.len() implies crate::scan::lists_sorted(
            probed_items(lists@, (#[trigger] probes@[q])@, distances@[q]@, filter, k),
            out.0@,
            out.1@,
            q,
            k,
        ) by {
            assert(crate::topk::stably_sorted(
                probed_items(lists@, probes@[q]@, distances@[q]@, filter, k),
                results@[q]@,
            ));
        }
    }
    out
}

} // verus!
