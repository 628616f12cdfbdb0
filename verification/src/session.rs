//! A batch search as a sequence of list reads: every list that some query
//! probes is read once, and each query keeps its nearest rows.
use crate::filter::RowIdFilter;
use crate::matching::{matching_rows, MatchingRows};
use crate::order::float_is_nan;
use crate::plan::{list_positions, query_seeds, sort_by_offset, unique_lists};
use crate::scan::{assemble_results, offer_all, scan_rows};
use crate::topk::{Neighbor, TopKHeap};
use vstd::multiset::Multiset;
use vstd::prelude::*;

verus! {

/// The rows of a list that was read.
#[derive(Debug)]
pub struct LoadedList {
    pub list_id: usize,
    pub ids: Vec<i64>,
}

/// The positions whose rows pass the filter.
pub open spec fn passing<F: RowIdFilter>(ids: Seq<i64>, filter: Option<&F>) -> Seq<usize> {
    crate::matching::picked(|p: int| crate::filter::row_allowed(filter, ids[p]), ids.len())
}

/// Distance and id of the rows that pass the filter.
pub open spec fn allowed_rows<F: RowIdFilter>(
    ids: Seq<i64>,
    distances: Seq<u32>,
    filter: Option<&F>,
) -> Seq<Neighbor> {
    crate::scan::neighbors_at(ids, distances, passing(ids, filter))
}

proof fn lemma_pick_everything(pick: spec_fn(int) -> bool, n: nat)
    requires
        forall|p: int| 0 <= p < n ==> #[trigger] pick(p),
    ensures
        crate::matching::picked(pick, n) == crate::rq::identity_order(n),
    decreases n,
{
    if n > 0 {
        lemma_pick_everything(pick, (n - 1) as nat);
        assert(pick(n - 1));
        assert(crate::rq::identity_order(n) =~= crate::rq::identity_order((n - 1) as nat).push(
            (n - 1) as usize,
        ));
    } else {
        assert(crate::matching::picked(pick, n) =~= crate::rq::identity_order(n));
    }
}

/// The rows that a scan visits are those that pass the filter.
pub proof fn lemma_visited_passes<F: RowIdFilter>(
    ids: Seq<i64>,
    rows: Option<&MatchingRows>,
    filter: Option<&F>,
)
    requires
        rows is Some == filter is Some,
        rows matches Some(found) ==> found.well_formed(ids.len()) && forall|p: int|
            0 <= p < ids.len() ==> #[trigger] found.holds(p) == filter->0.admits(ids[p]),
    ensures
        crate::scan::visited(rows, ids.len()) == passing(ids, filter),
{
    let pick = |p: int| crate::filter::row_allowed(filter, ids[p]);
    match rows {
        Some(found) => {
            let holds = |p: int| found.holds(p);
            assert forall|p: int| 0 <= p < ids.len() implies #[trigger] holds(p) == pick(p) by {
                assert(found.holds(p) == filter->0.admits(ids[p]));
            }
            crate::matching::lemma_picked_agree(holds, pick, ids.len());
        },
        None => {
            lemma_pick_everything(pick, ids.len());
        },
    }
}

/// A list scanned in two parts offers what it offers scanned whole.
pub proof fn law_chunks_add_up<F: RowIdFilter>(
    first_ids: Seq<i64>,
    first_distances: Seq<u32>,
    rest_ids: Seq<i64>,
    rest_distances: Seq<u32>,
    filter: Option<&F>,
)
    requires
        first_ids.len() == first_distances.len(),
        rest_ids.len() == rest_distances.len(),
        first_ids.len() + rest_ids.len() <= usize::MAX,
    ensures
        allowed_rows(first_ids + rest_ids, first_distances + rest_distances, filter)
            == allowed_rows(first_ids, first_distances, filter) + allowed_rows(
            rest_ids,
            rest_distances,
            filter,
        ),
    decreases rest_ids.len(),
{
    let ids = first_ids + rest_ids;
    let distances = first_distances + rest_distances;
    let pick = |p: int| crate::filter::row_allowed(filter, ids[p]);
    let pick_first = |p: int| crate::filter::row_allowed(filter, first_ids[p]);
    crate::matching::lemma_picked_agree(pick, pick_first, first_ids.len());
    lemma_rest_of_chunks(
        ids,
        distances,
        rest_ids,
        rest_distances,
        first_ids.len(),
        rest_ids.len(),
        filter,
    );
    crate::matching::lemma_picked(pick_first, first_ids.len());
    assert(crate::scan::neighbors_at(
        ids,
        distances,
        crate::matching::picked(pick, first_ids.len()),
    ) =~= allowed_rows(first_ids, first_distances, filter));
}

proof fn lemma_rest_of_chunks<F: RowIdFilter>(
    ids: Seq<i64>,
    distances: Seq<u32>,
    rest_ids: Seq<i64>,
    rest_distances: Seq<u32>,
    offset: nat,
    n: nat,
    filter: Option<&F>,
)
    requires
        ids.len() <= usize::MAX,
        n <= rest_ids.len(),
        ids.len() == distances.len(),
        rest_ids.len() == rest_distances.len(),
        offset + rest_ids.len() == ids.len(),
        forall|i: int| 0 <= i < rest_ids.len() ==> ids[offset + i] == #[trigger] rest_ids[i],
        forall|i: int|
            0 <= i < rest_ids.len() ==> distances[offset + i] == #[trigger] rest_distances[i],
    ensures
        crate::scan::neighbors_at(
            ids,
            distances,
            crate::matching::picked(
                |p: int| crate::filter::row_allowed(filter, ids[p]),
                offset + n,
            ),
        ) == crate::scan::neighbors_at(
            ids,
            distances,
            crate::matching::picked(|p: int| crate::filter::row_allowed(filter, ids[p]), offset),
        ) + crate::scan::neighbors_at(
            rest_ids,
            rest_distances,
            crate::matching::picked(|p: int| crate::filter::row_allowed(filter, rest_ids[p]), n),
        ),
    decreases n,
{
    let pick = |p: int| crate::filter::row_allowed(filter, ids[p]);
    let pick_rest = |p: int| crate::filter::row_allowed(filter, rest_ids[p]);
    let base = crate::scan::neighbors_at(
        ids,
        distances,
        crate::matching::picked(pick, offset),
    );
    if n == 0 {
        assert(base + crate::scan::neighbors_at(
            rest_ids,
            rest_distances,
            crate::matching::picked(pick_rest, 0),
        ) =~= base);
    } else {
        let m = (n - 1) as nat;
        lemma_rest_of_chunks(ids, distances, rest_ids, rest_distances, offset, m, filter);
        let whole = crate::matching::picked(pick, offset + m);
        let part = crate::matching::picked(pick_rest, m);
        assert(ids[offset + m as int] == rest_ids[m as int]);
        assert(distances[offset + m as int] == rest_distances[m as int]);
        assert(pick((offset + m) as int) == pick_rest(m as int));
        if pick_rest(m as int) {
            let item = (rest_distances[m as int], rest_ids[m as int]);
            assert(crate::matching::picked(pick, offset + n) =~= whole.push(
                (offset + m) as usize,
            ));
            assert(crate::matching::picked(pick_rest, n) =~= part.push(m as usize));
            assert(crate::scan::neighbors_at(
                ids,
                distances,
                whole.push((offset + m) as usize),
            ) =~= crate::scan::neighbors_at(ids, distances, whole).push(item));
            assert(crate::scan::neighbors_at(rest_ids, rest_distances, part.push(m as usize))
                =~= crate::scan::neighbors_at(rest_ids, rest_distances, part).push(item));
            assert(base + crate::scan::neighbors_at(rest_ids, rest_distances, part).push(item)
                =~= (base + crate::scan::neighbors_at(rest_ids, rest_distances, part)).push(item));
        } else {
            assert(crate::matching::picked(pick, offset + n) =~= whole);
            assert(crate::matching::picked(pick_rest, n) =~= part);
        }
    }
}

/// The list ids of the loaded lists.
pub open spec fn loaded_ids(loaded: Seq<LoadedList>) -> Seq<usize> {
    Seq::new(loaded.len(), |i: int| loaded[i].list_id)
}

/// The loaded lists are those planned from place `next` on.
pub open spec fn loads_planned(planned: Seq<usize>, next: int, loaded: Seq<LoadedList>) -> bool {
    &&& next + loaded.len() <= planned.len()
    &&& forall|i: int| 0 <= i < loaded.len() ==> (#[trigger] loaded[i]).list_id == planned[next + i]
}

/// What the loaded lists offer to a query through its probes of ranks
/// `start..upto`.
pub open spec fn probe_items<F: RowIdFilter>(
    probes: Seq<usize>,
    start: nat,
    upto: nat,
    loaded: Seq<LoadedList>,
    distances: Seq<Vec<u32>>,
    filter: Option<&F>,
) -> Multiset<Neighbor>
    decreases upto,
{
    if upto <= start {
        Multiset::empty()
    } else {
        let before = probe_items(probes, start, (upto - 1) as nat, loaded, distances, filter);
        match crate::plan::loaded_at(loaded_ids(loaded), probes[upto - 1]) {
            Some(p) => before.add(
                allowed_rows(loaded[p].ids@, distances[p]@, filter).to_multiset(),
            ),
            None => before,
        }
    }
}

/// The same rows in the order in which they are offered.
pub open spec fn probe_sequence<F: RowIdFilter>(
    probes: Seq<usize>,
    start: nat,
    upto: nat,
    loaded: Seq<LoadedList>,
    distances: Seq<Vec<u32>>,
    filter: Option<&F>,
) -> Seq<Neighbor>
    decreases upto,
{
    if upto <= start {
        Seq::empty()
    } else {
        let before = probe_sequence(
            probes,
            start,
            (upto - 1) as nat,
            loaded,
            distances,
            filter,
        );
        match crate::plan::loaded_at(loaded_ids(loaded), probes[upto - 1]) {
            Some(p) => before + allowed_rows(loaded[p].ids@, distances[p]@, filter),
            None => before,
        }
    }
}

/// What a query selects from the loaded lists that it probes: what a collection
/// of `k` rows holds after they were scanned, by distance.
pub open spec fn is_selection<F: RowIdFilter>(
    probes: Seq<usize>,
    start: nat,
    loaded: Seq<LoadedList>,
    distances: Seq<Vec<u32>>,
    filter: Option<&F>,
    k: usize,
    selected: Seq<Neighbor>,
) -> bool {
    crate::topk::stably_sorted(
        crate::topk::all_pushed(
            Seq::empty(),
            k as nat,
            probe_sequence(probes, start, probes.len(), loaded, distances, filter),
        ),
        selected,
    )
}

/// What a query keeps after it selected rows from the loaded lists and was
/// offered them.
pub open spec fn takes_selection<F: RowIdFilter>(
    before: Seq<Neighbor>,
    after: Seq<Neighbor>,
    probes: Seq<usize>,
    start: nat,
    loaded: Seq<LoadedList>,
    distances: Seq<Vec<u32>>,
    filter: Option<&F>,
    k: usize,
) -> bool {
    exists|selected: Seq<Neighbor>| #[trigger]
        is_selection(probes, start, loaded, distances, filter, k, selected) && after
            == crate::topk::all_pushed(before, k as nat, selected)
}

/// One distance per row of each loaded list that a query probes, and a number
/// for each row that may be returned.
pub open spec fn distances_fit<F: RowIdFilter>(
    probes: Seq<usize>,
    start: nat,
    loaded: Seq<LoadedList>,
    distances: Seq<Vec<u32>>,
    filter: Option<&F>,
) -> bool {
    &&& distances.len() == loaded.len()
    &&& forall|p: int|
        0 <= p < loaded.len() && probes_list(probes, start, loaded[p].list_id) ==> (
        #[trigger] distances[p])@.len() == loaded[p].ids@.len() && crate::scan::numbers(
            allowed_rows(loaded[p].ids@, distances[p]@, filter),
        )
}

/// The nearest rows that the loaded lists hold for one query, by distance.
pub fn scan_loaded_lists<F: RowIdFilter>(
    probes: &Vec<usize>,
    start: usize,
    positions: &Vec<usize>,
    loaded: &Vec<LoadedList>,
    rows: &Vec<Option<MatchingRows>>,
    distances: &Vec<Vec<u32>>,
    filter: Option<&F>,
    k: usize,
) -> (sorted: Vec<Neighbor>)
    requires
        k * 2 + 2 <= usize::MAX,
        loaded@.len() < usize::MAX,
        forall|r: int| 0 <= r < probes@.len() ==> #[trigger] probes@[r] < positions@.len(),
        forall|l: int|
            0 <= l < positions@.len() ==> #[trigger] positions@[l] == (
            match crate::plan::loaded_at(loaded_ids(loaded@), l as usize) {
                Some(p) => p as usize,
                None => usize::MAX,
            }),
        rows@.len() == loaded@.len(),
        forall|p: int| 0 <= p < rows@.len() ==> rows_match(loaded@[p].ids@, #[trigger] rows@[p], filter),
        distances_fit(probes@, start as nat, loaded@, distances@, filter),
    ensures
        crate::topk::nearest_of(
            probe_items(probes@, start as nat, probes@.len(), loaded@, distances@, filter),
            sorted@.to_multiset(),
            k as nat,
        ),
        crate::topk::ascending(sorted@),
        crate::scan::numbers(sorted@),
        sorted@.len() <= k,
        is_selection(probes@, start as nat, loaded@, distances@, filter, k, sorted@),
{
    let mut heap = TopKHeap::new(k);
    let ghost none: Multiset<Neighbor> = Multiset::empty();
    proof {
        crate::scan::lemma_empty_heap(heap);
    }
    let mut r: usize = start;
    while r < probes.len()
        invariant
            start <= r,
            start <= probes@.len() ==> r <= probes@.len(),
            start > probes@.len() ==> r == start,
            loaded@.len() < usize::MAX,
            forall|i: int| 0 <= i < probes@.len() ==> #[trigger] probes@[i] < positions@.len(),
            forall|l: int|
                0 <= l < positions@.len() ==> #[trigger] positions@[l] == (
                match crate::plan::loaded_at(loaded_ids(loaded@), l as usize) {
                    Some(p) => p as usize,
                    None => usize::MAX,
                }),
            rows@.len() == loaded@.len(),
            forall|p: int|
                0 <= p < rows@.len() ==> rows_match(loaded@[p].ids@, #[trigger] rows@[p], filter),
            distances_fit(probes@, start as nat, loaded@, distances@, filter),
            crate::scan::open_heap(heap),
            heap.spec_k() == k,
            crate::topk::nearest_of(
                probe_items(probes@, start as nat, r as nat, loaded@, distances@, filter),
                heap.contents(),
                k as nat,
            ),
            heap.items() == crate::topk::all_pushed(
                Seq::empty(),
                k as nat,
                probe_sequence(probes@, start as nat, r as nat, loaded@, distances@, filter),
            ),
        decreases probes@.len() - r,
    {
        let list: usize = probes[r];
        let position: usize = positions[list];
        proof {
            crate::plan::lemma_loaded_at(loaded_ids(loaded@), list);
        }
        if position != usize::MAX {
            let entry = &loaded[position];
            let matching = as_reference(&rows[position]);
            proof {
                assert(probes@[r as int] == list && entry.list_id == list);
                assert(probes_list(probes@, start as nat, entry.list_id));
                assert(rows_match(entry.ids@, rows@[position as int], filter));
                lemma_visited_passes(entry.ids@, matching, filter);
                assert(crate::scan::scanned(entry.ids@, distances@[position as int]@, matching)
                    == allowed_rows(entry.ids@, distances@[position as int]@, filter));
                assert(distances@[position as int]@.len() == entry.ids@.len());
                crate::topk::law_pushing_in_parts(
                    Seq::empty(),
                    k as nat,
                    probe_sequence(probes@, start as nat, r as nat, loaded@, distances@, filter),
                    allowed_rows(entry.ids@, distances@[position as int]@, filter),
                );
            }
            scan_rows(entry.ids.as_slice(), distances[position].as_slice(), matching, &mut heap);
        }
        r = r + 1;
    }
    proof {
        if start > probes@.len() {
            lemma_no_probes(probes@, start as nat, probes@.len(), loaded@, distances@, filter);
        }
        heap.lemma_facts();
    }
    let ghost contents = heap.contents();
    let sorted = heap.into_sorted();
    proof {
        assert forall|i: int| 0 <= i < sorted@.len() implies !crate::order::is_nan(
            (#[trigger] sorted@[i]).0,
        ) by {
            sorted@.to_multiset_ensures();
            assert(sorted@.contains(sorted@[i]));
            assert(contents.contains(sorted@[i]));
        }
    }
    sorted
}

proof fn lemma_no_probes<F: RowIdFilter>(
    probes: Seq<usize>,
    start: nat,
    upto: nat,
    loaded: Seq<LoadedList>,
    distances: Seq<Vec<u32>>,
    filter: Option<&F>,
)
    requires
        upto <= start,
    ensures
        probe_items(probes, start, upto, loaded, distances, filter) == Multiset::<Neighbor>::empty(),
{
}

/// `rows` are the rows of `ids` that pass the filter.
pub open spec fn rows_match<F: RowIdFilter>(
    ids: Seq<i64>,
    rows: Option<MatchingRows>,
    filter: Option<&F>,
) -> bool {
    &&& rows is Some == filter is Some
    &&& rows matches Some(found) ==> found.well_formed(ids.len()) && forall|p: int|
        0 <= p < ids.len() ==> #[trigger] found.holds(p) == filter->0.admits(ids[p])
}

/// Some row of the list may be returned.
pub open spec fn has_rows(rows: Option<MatchingRows>) -> bool {
    match rows {
        Some(found) => found.spec_len() > 0,
        None => true,
    }
}

/// The rows of a list that may be returned are the matching ones.
pub proof fn lemma_matching<F: RowIdFilter>(
    ids: Seq<i64>,
    rows: Option<MatchingRows>,
    filter: Option<&F>,
)
    requires
        ids.len() <= usize::MAX,
        rows_match(ids, rows, filter),
    ensures
        forall|row: int|
            0 <= row < ids.len() ==> (crate::filter::row_allowed(filter, #[trigger] ids[row])
                <==> match rows {
                Some(found) => found.holds(row),
                None => true,
            }),
        !has_rows(rows) ==> forall|row: int|
            0 <= row < ids.len() ==> !crate::filter::row_allowed(filter, #[trigger] ids[row]),
{
    if let Some(found) = rows {
        let holds = |p: int| found.holds(p);
        crate::matching::lemma_picked(holds, ids.len());
        assert forall|row: int| 0 <= row < ids.len() implies (crate::filter::row_allowed(
            filter,
            #[trigger] ids[row],
        ) <==> found.holds(row)) by {
            assert(found.holds(row) == filter->0.admits(ids[row]));
        }
        if found.spec_len() == 0 {
            assert(found.listed(ids.len()).len() == 0);
            assert forall|row: int| 0 <= row < ids.len() implies !crate::filter::row_allowed(
                filter,
                #[trigger] ids[row],
            ) by {
                assert(holds(row) <==> found.listed(ids.len()).contains(row as usize));
            }
        }
    }
}

/// Whether the rows of a list that may be returned have numbers for distances.
fn has_numbers<F: RowIdFilter>(
    ids: &[i64],
    rows: &Option<MatchingRows>,
    distances: &[u32],
    filter: Option<&F>,
) -> (all: bool)
    requires
        rows_match(ids@, *rows, filter),
        distances@.len() == ids@.len(),
    ensures
        all == crate::scan::numbers(allowed_rows(ids@, distances@, filter)),
        !all ==> exists|row: int|
            0 <= row < ids@.len() && crate::filter::row_allowed(filter, ids@[row])
                && crate::order::is_nan(#[trigger] distances@[row]),
{
    let ghost offered = allowed_rows(ids@, distances@, filter);
    let ghost places = passing(ids@, filter);
    let count: usize = ids.len();
    proof {
        lemma_matching(ids@, *rows, filter);
        crate::list_search::lemma_passing_rows(ids@, filter);
    }
    let mut row: usize = 0;
    while row < count
        invariant
            row <= count,
            count == ids@.len(),
            distances@.len() == ids@.len(),
            rows_match(ids@, *rows, filter),
            offered == allowed_rows(ids@, distances@, filter),
            places == passing(ids@, filter),
            forall|i: int|
                0 <= i < count ==> (crate::filter::row_allowed(filter, #[trigger] ids@[i])
                    <==> match *rows {
                    Some(found) => found.holds(i),
                    None => true,
                }),
            forall|i: int|
                0 <= i < count && crate::filter::row_allowed(filter, #[trigger] ids@[i])
                    ==> places.contains(i as usize),
            forall|i: int|
                0 <= i < row && crate::filter::row_allowed(filter, #[trigger] ids@[i])
                    ==> !crate::order::is_nan(distances@[i]),
        decreases count - row,
    {
        if float_is_nan(distances[row]) {
            let allowed: bool = match rows {
                Some(found) => found.contains(row),
                None => true,
            };
            if allowed {
                proof {
                    assert(crate::filter::row_allowed(filter, ids@[row as int]));
                    assert(places.contains(row));
                    let i = choose|i: int| 0 <= i < places.len() && places[i] == row;
                    assert(offered[i].0 == distances@[row as int]);
                }
                return false;
            }
        }
        row = row + 1;
    }
    proof {
        assert forall|i: int| 0 <= i < offered.len() implies !crate::order::is_nan(
            (#[trigger] offered[i]).0,
        ) by {
            let place = places[i] as int;
            assert(crate::filter::row_allowed(filter, ids@[place]));
        }
    }
    true
}

fn as_reference(rows: &Option<MatchingRows>) -> (reference: Option<&MatchingRows>)
    ensures
        reference is Some == rows is Some,
        rows matches Some(found) ==> reference == Some(found),
{
    match rows {
        Some(found) => Some(found),
        None => None,
    }
}

/// Filters every loaded list.
pub fn match_loaded_lists<F: RowIdFilter>(loaded: &Vec<LoadedList>, filter: Option<&F>) -> (rows:
    Vec<Option<MatchingRows>>)
    ensures
        rows@.len() == loaded@.len(),
        forall|p: int| 0 <= p < rows@.len() ==> rows_match(loaded@[p].ids@, #[trigger] rows@[p], filter),
{
    let mut rows: Vec<Option<MatchingRows>> = Vec::new();
    let mut i: usize = 0;
    while i < loaded.len()
        invariant
            i <= loaded@.len(),
            rows@.len() == i,
            forall|p: int|
                0 <= p < i ==> rows_match(loaded@[p].ids@, #[trigger] rows@[p], filter),
        decreases loaded@.len() - i,
    {
        let found = matching_rows(loaded[i].ids.as_slice(), filter);
        rows.push(found);
        i = i + 1;
    }
    rows
}

/// What to read next.
#[derive(Debug, Clone, Copy, PartialEq, Eq, Structural)]
pub enum ReadStep {
    /// The list is too large to hold: read it piece by piece.
    Stream { list: usize },
    /// Read the planned lists of these places together.
    Batch { start: usize, end: usize },
    /// Every planned list was read.
    Done,
}

/// Why the lists that were read cannot be used.
#[derive(Debug, Clone, Copy, PartialEq, Eq, Structural)]
pub enum ReadError {
    /// `batched inverted list read returned lists out of order`
    OutOfOrder,
    /// `batched inverted list read returned an unexpected row count`
    UnexpectedRowCount,
}

/// The progress of a batch search.
pub struct BatchSearch {
    k: usize,
    start: usize,
    nlist: usize,
    probes: Vec<Vec<usize>>,
    lists: Vec<usize>,
    next: usize,
    heaps: Vec<TopKHeap>,
    seen: Ghost<Seq<Multiset<Neighbor>>>,
}

impl BatchSearch {
    pub closed spec fn spec_k(self) -> usize {
        self.k
    }

    /// The first probe rank that counts.
    pub closed spec fn probe_start(self) -> usize {
        self.start
    }

    pub closed spec fn spec_nlist(self) -> usize {
        self.nlist
    }

    /// The lists that each query probes.
    pub closed spec fn probes(self) -> Seq<Vec<usize>> {
        self.probes@
    }

    /// The lists to read, by offset.
    pub closed spec fn planned(self) -> Seq<usize> {
        self.lists@
    }

    /// How many of them were read.
    pub closed spec fn read_count(self) -> usize {
        self.next
    }

    /// Everything that query `query` was offered.
    pub closed spec fn offered(self, query: int) -> Multiset<Neighbor> {
        self.seen@[query]
    }

    /// The items that query `query` keeps.
    pub closed spec fn kept(self, query: int) -> Seq<Neighbor> {
        self.heaps@[query].items()
    }

    pub open spec fn queries(self) -> nat {
        self.probes().len()
    }

    /// Each query keeps the nearest of what it was offered.
    pub closed spec fn well_formed(self) -> bool {
        &&& self.k * 2 + 2 <= usize::MAX
        &&& self.heaps@.len() == self.probes@.len()
        &&& self.seen@.len() == self.probes@.len()
        &&& self.next <= self.lists@.len()
        &&& crate::plan::probes_valid(self.probes@, self.nlist as nat)
        &&& forall|i: int| 0 <= i < self.lists@.len() ==> #[trigger] self.lists@[i] < self.nlist
        &&& forall|q: int|
            0 <= q < self.heaps@.len() ==> keeps_nearest(
                #[trigger] self.heaps@[q],
                self.seen@[q],
                self.k,
            )
    }

    /// Plans a validated request: which lists to read, and what each query
    /// starts with.
    pub fn begin(
        k: usize,
        start: usize,
        probes: Vec<Vec<usize>>,
        counts: &[i32],
        offsets: &[i64],
        seed_ids: &[i64],
        seed_distances: &[u32],
    ) -> (search: Self)
        requires
            k * 2 + 2 <= usize::MAX,
            crate::plan::probes_valid(probes@, counts@.len()),
            offsets@.len() == counts@.len(),
            crate::plan::seed_problem(
                seed_ids@.len() as int,
                seed_distances@.len() as int,
                probes@.len() as int,
                k as int,
            ) is None,
            forall|q: int|
                0 <= q < probes@.len() ==> crate::scan::numbers(
                    #[trigger] crate::plan::seeds_of(
                        seed_ids@,
                        seed_distances@,
                        q,
                        k as nat,
                        k as nat,
                    ),
                ),
        ensures
            search.well_formed(),
            search.spec_k() == k,
            search.probe_start() == start,
            search.spec_nlist() == counts@.len(),
            search.probes() == probes@,
            crate::plan::by_offset(
                crate::plan::first_occurrences(
                    crate::plan::probed(probes@, start as nat),
                    crate::plan::worth_reading(counts@, true),
                ),
                offsets@,
                search.planned(),
            ),
            search.read_count() == 0,
            forall|q: int|
                0 <= q < probes@.len() ==> #[trigger] search.offered(q) == crate::plan::seeds_of(
                    seed_ids@,
                    seed_distances@,
                    q,
                    k as nat,
                    k as nat,
                ).to_multiset(),
            forall|q: int|
                0 <= q < probes@.len() ==> #[trigger] search.kept(q) == crate::topk::all_pushed(
                    Seq::empty(),
                    k as nat,
                    crate::plan::seeds_of(seed_ids@, seed_distances@, q, k as nat, k as nat),
                ),
    {
        let unique = unique_lists(&probes, start, counts, true);
        let lists = sort_by_offset(&unique, offsets);
        proof {
            crate::plan::law_reads_ascend(unique@, offsets@, lists@);
            assert forall|i: int| 0 <= i < lists@.len() implies #[trigger] lists@[i]
                < counts@.len() by {
                let j = choose|j: int| 0 <= j < unique@.len() && unique@[j] == lists@[i];
                assert(unique@[j] < counts@.len());
            }
        }
        let mut heaps: Vec<TopKHeap> = Vec::new();
        let ghost mut seen: Seq<Multiset<Neighbor>> = Seq::empty();
        let mut q: usize = 0;
        while q < probes.len()
            invariant
                q <= probes@.len(),
                k * 2 + 2 <= usize::MAX,
                heaps@.len() == q,
                seen.len() == q,
                crate::plan::seed_problem(
                    seed_ids@.len() as int,
                    seed_distances@.len() as int,
                    probes@.len() as int,
                    k as int,
                ) is None,
                forall|p: int|
                    0 <= p < probes@.len() ==> crate::scan::numbers(
                        #[trigger] crate::plan::seeds_of(
                            seed_ids@,
                            seed_distances@,
                            p,
                            k as nat,
                            k as nat,
                        ),
                    ),
                forall|p: int|
                    0 <= p < q ==> keeps_nearest(#[trigger] heaps@[p], seen[p], k),
                forall|p: int|
                    0 <= p < q ==> #[trigger] seen[p] == crate::plan::seeds_of(
                        seed_ids@,
                        seed_distances@,
                        p,
                        k as nat,
                        k as nat,
                    ).to_multiset(),
                forall|p: int|
                    0 <= p < q ==> (#[trigger] heaps@[p]).items() == crate::topk::all_pushed(
                        Seq::empty(),
                        k as nat,
                        crate::plan::seeds_of(seed_ids@, seed_distances@, p, k as nat, k as nat),
                    ),
            decreases probes@.len() - q,
        {
            assert((q + 1) * k <= probes@.len() * k) by (nonlinear_arith)
                requires
                    q < probes@.len(),
            ;
            let seeds = query_seeds(seed_ids, seed_distances, q, k);
            let mut heap = TopKHeap::new(k);
            proof {
                crate::scan::lemma_empty_heap(heap);
                assert(crate::scan::numbers(
                    crate::plan::seeds_of(
                        seed_ids@,
                        seed_distances@,
                        q as int,
                        k as nat,
                        k as nat,
                    ),
                ));
            }
            offer_all(&mut heap, seeds.as_slice());
            proof {
                assert(Multiset::<Neighbor>::empty().add(seeds@.to_multiset())
                    =~= seeds@.to_multiset());
                seen = seen.push(seeds@.to_multiset());
            }
            heaps.push(heap);
            q = q + 1;
        }
        BatchSearch {
            k,
            start,
            nlist: counts.len(),
            probes,
            lists,
            next: 0,
            heaps,
            seen: Ghost(seen),
        }
    }

    /// The planned lists that were not read yet.
    pub fn remaining(&self) -> (lists: &[usize])
        requires
            self.well_formed(),
        ensures
            lists@ == self.planned().skip(self.read_count() as int),
    {
        assert(self.planned().skip(self.next as int) =~= self.lists@.subrange(
            self.next as int,
            self.lists@.len() as int,
        ));
        vstd::slice::slice_subrange(self.lists.as_slice(), self.next, self.lists.len())
    }

    /// The list that is to be read next, if any is left.
    pub fn next_list(&self) -> (list: Option<usize>)
        requires
            self.well_formed(),
        ensures
            list == (if self.read_count() < self.planned().len() {
                Some(self.planned()[self.read_count() as int])
            } else {
                None
            }),
    {
        if self.next < self.lists.len() {
            Some(self.lists[self.next])
        } else {
            None
        }
    }

    /// The next read, given whether the next list is oversized and how many of
    /// the remaining lists fit one read; at least one list is always read.
    pub fn next_read(&self, oversized: bool, fitting: usize) -> (step: ReadStep)
        requires
            self.well_formed(),
        ensures
            step == (if self.read_count() >= self.planned().len() {
                ReadStep::Done
            } else if oversized {
                ReadStep::Stream { list: self.planned()[self.read_count() as int] }
            } else {
                let wanted = self.read_count() + (if fitting > 1 {
                    fitting as int
                } else {
                    1
                });
                ReadStep::Batch {
                    start: self.read_count(),
                    end: (if wanted < self.planned().len() {
                        wanted
                    } else {
                        self.planned().len() as int
                    }) as usize,
                }
            }),
            step matches ReadStep::Batch { start, end } ==> start < end <= self.planned().len(),
    {
        if self.next >= self.lists.len() {
            return ReadStep::Done;
        }
        if oversized {
            return ReadStep::Stream { list: self.lists[self.next] };
        }
        let wanted: usize = if fitting > 1 {
            fitting
        } else {
            1
        };
        let left: usize = self.lists.len() - self.next;
        let end: usize = if wanted < left {
            self.next + wanted
        } else {
            self.lists.len()
        };
        ReadStep::Batch { start: self.next, end }
    }

    /// Lets every query see the rows of the lists read up to place `end`.
    pub fn scan_batch<F: RowIdFilter>(
        &mut self,
        end: usize,
        loaded: &Vec<LoadedList>,
        rows: &Vec<Option<MatchingRows>>,
        distances: &Vec<Vec<Vec<u32>>>,
        filter: Option<&F>,
    )
        requires
            old(self).well_formed(),
            loads_planned(old(self).planned(), old(self).read_count() as int, loaded@),
            end == old(self).read_count() + loaded@.len(),
            loaded@.len() < usize::MAX,
            rows@.len() == loaded@.len(),
            forall|p: int|
                0 <= p < rows@.len() ==> rows_match(loaded@[p].ids@, #[trigger] rows@[p], filter),
            distances@.len() == old(self).queries(),
            forall|q: int|
                0 <= q < distances@.len() ==> distances_fit(
                    old(self).probes()[q]@,
                    old(self).probe_start() as nat,
                    loaded@,
                    (#[trigger] distances@[q])@,
                    filter,
                ),
        ensures
            final(self).well_formed(),
            final(self).spec_k() == old(self).spec_k(),
            final(self).probe_start() == old(self).probe_start(),
            final(self).spec_nlist() == old(self).spec_nlist(),
            final(self).probes() == old(self).probes(),
            final(self).planned() == old(self).planned(),
            final(self).read_count() == end,
            forall|q: int|
                0 <= q < old(self).queries() ==> #[trigger] final(self).offered(q)
                    == old(self).offered(q).add(
                    probe_items(
                        old(self).probes()[q]@,
                        old(self).probe_start() as nat,
                        old(self).probes()[q]@.len(),
                        loaded@,
                        distances@[q]@,
                        filter,
                    ),
                ),
            forall|q: int|
                #![trigger final(self).kept(q)]
                0 <= q < old(self).queries() ==> takes_selection(
                    old(self).kept(q),
                    final(self).kept(q),
                    old(self).probes()[q]@,
                    old(self).probe_start() as nat,
                    loaded@,
                    distances@[q]@,
                    filter,
                    old(self).spec_k(),
                ),
    {
        let mut ids: Vec<usize> = Vec::new();
        let mut i: usize = 0;
        while i < loaded.len()
            invariant
                i <= loaded@.len(),
                ids@ == loaded_ids(loaded@.take(i as int)),
            decreases loaded@.len() - i,
        {
            ids.push(loaded[i].list_id);
            assert(ids@ =~= loaded_ids(loaded@.take(i + 1)));
            i = i + 1;
        }
        assert(loaded@.take(loaded@.len() as int) =~= loaded@);
        let positions = list_positions(ids.as_slice(), self.nlist);
        let mut q: usize = 0;
        while q < self.probes.len()
            invariant
                q <= self.probes@.len(),
                self.k == old(self).k,
                self.start == old(self).start,
                self.nlist == old(self).nlist,
                self.probes@ == old(self).probes@,
                self.lists@ == old(self).lists@,
                self.next == old(self).next,
                old(self).well_formed(),
                self.k * 2 + 2 <= usize::MAX,
                self.heaps@.len() == self.probes@.len(),
                self.seen@.len() == self.probes@.len(),
                loaded@.len() < usize::MAX,
                positions@.len() == self.nlist,
                forall|l: int|
                    0 <= l < positions@.len() ==> #[trigger] positions@[l] == (
                    match crate::plan::loaded_at(loaded_ids(loaded@), l as usize) {
                        Some(p) => p as usize,
                        None => usize::MAX,
                    }),
                rows@.len() == loaded@.len(),
                forall|p: int|
                    0 <= p < rows@.len() ==> rows_match(
                        loaded@[p].ids@,
                        #[trigger] rows@[p],
                        filter,
                    ),
                distances@.len() == self.probes@.len(),
                forall|p: int|
                    0 <= p < distances@.len() ==> distances_fit(
                        self.probes@[p]@,
                        self.start as nat,
                        loaded@,
                        (#[trigger] distances@[p])@,
                        filter,
                    ),
                forall|p: int|
                    0 <= p < self.heaps@.len() ==> keeps_nearest(
                        #[trigger] self.heaps@[p],
                        self.seen@[p],
                        self.k,
                    ),
                forall|p: int|
                    0 <= p < q ==> #[trigger] self.seen@[p] == old(self).seen@[p].add(
                        probe_items(
                            self.probes@[p]@,
                            self.start as nat,
                            self.probes@[p]@.len(),
                            loaded@,
                            distances@[p]@,
                            filter,
                        ),
                    ),
                forall|p: int|
                    q <= p < self.seen@.len() ==> #[trigger] self.seen@[p] == old(self).seen@[p],
                forall|p: int|
                    0 <= p < q ==> takes_selection(
                        old(self).heaps@[p].items(),
                        (#[trigger] self.heaps@[p]).items(),
                        self.probes@[p]@,
                        self.start as nat,
                        loaded@,
                        distances@[p]@,
                        filter,
                        self.k,
                    ),
                forall|p: int|
                    q <= p < self.heaps@.len() ==> #[trigger] self.heaps@[p] == old(self).heaps@[p],
            decreases self.probes@.len() - q,
        {
            assert(distances_fit(
                self.probes@[q as int]@,
                self.start as nat,
                loaded@,
                distances@[q as int]@,
                filter,
            ));
            let selected = scan_loaded_lists(
                &self.probes[q],
                self.start,
                &positions,
                loaded,
                rows,
                &distances[q],
                filter,
                self.k,
            );
            let ghost before = self.heaps@[q as int];
            let ghost all = self.heaps@;
            let ghost offered = self.seen@[q as int];
            let ghost items = probe_items(
                self.probes@[q as int]@,
                self.start as nat,
                self.probes@[q as int]@.len(),
                loaded@,
                distances@[q as int]@,
                filter,
            );
            assert(keeps_nearest(before, offered, self.k));
            offer_all(&mut self.heaps[q], selected.as_slice());
            proof {
                let after = self.heaps@[q as int];
                assert(crate::topk::nearest_of(
                    offered.add(selected@.to_multiset()),
                    after.contents(),
                    self.k as nat,
                ));
                crate::scan::law_merging_selections_keeps_the_nearest(
                    offered,
                    items,
                    selected@.to_multiset(),
                    after.contents(),
                    self.k as nat,
                );
                self.seen@ = self.seen@.update(q as int, offered.add(items));
                assert forall|p: int| 0 <= p < q + 1 implies takes_selection(
                    old(self).heaps@[p].items(),
                    (#[trigger] self.heaps@[p]).items(),
                    self.probes@[p]@,
                    self.start as nat,
                    loaded@,
                    distances@[p]@,
                    filter,
                    self.k,
                ) by {
                    if p < q {
                        assert(self.heaps@[p] == all[p]);
                    } else {
                        assert(is_selection(
                            self.probes@[p]@,
                            self.start as nat,
                            loaded@,
                            distances@[p]@,
                            filter,
                            self.k,
                            selected@,
                        ));
                    }
                }
            }
            q = q + 1;
        }
        self.next = end;
    }

    /// The same, unless the distance of a row that a query may return is a NaN.
    pub fn try_scan_batch<F: RowIdFilter>(
        &mut self,
        end: usize,
        loaded: &Vec<LoadedList>,
        rows: &Vec<Option<MatchingRows>>,
        distances: &Vec<Vec<Vec<u32>>>,
        filter: Option<&F>,
    ) -> (scanned: bool)
        requires
            old(self).well_formed(),
            loads_planned(old(self).planned(), old(self).read_count() as int, loaded@),
            end == old(self).read_count() + loaded@.len(),
            loaded@.len() < usize::MAX,
            rows@.len() == loaded@.len(),
            forall|p: int|
                0 <= p < rows@.len() ==> rows_match(loaded@[p].ids@, #[trigger] rows@[p], filter),
            distances@.len() == old(self).queries(),
            forall|q: int|
                0 <= q < distances@.len() ==> (#[trigger] distances@[q])@.len() == loaded@.len(),
            forall|q: int, p: int|
                0 <= q < distances@.len() && 0 <= p < loaded@.len() && probes_list(
                    old(self).probes()[q]@,
                    old(self).probe_start() as nat,
                    loaded@[p].list_id,
                ) ==> (#[trigger] distances@[q]@[p])@.len() == loaded@[p].ids@.len(),
        ensures
            scanned == forall|q: int|
                0 <= q < distances@.len() ==> distances_fit(
                    old(self).probes()[q]@,
                    old(self).probe_start() as nat,
                    loaded@,
                    (#[trigger] distances@[q])@,
                    filter,
                ),
            !scanned ==> *final(self) == *old(self),
            final(self).well_formed(),
            final(self).spec_k() == old(self).spec_k(),
            final(self).probe_start() == old(self).probe_start(),
            final(self).spec_nlist() == old(self).spec_nlist(),
            final(self).probes() == old(self).probes(),
            final(self).planned() == old(self).planned(),
            scanned ==> final(self).read_count() == end,
            forall|q: int|
                scanned && 0 <= q < old(self).queries() ==> #[trigger] final(self).offered(q)
                    == old(self).offered(q).add(
                    probe_items(
                        old(self).probes()[q]@,
                        old(self).probe_start() as nat,
                        old(self).probes()[q]@.len(),
                        loaded@,
                        distances@[q]@,
                        filter,
                    ),
                ),
            forall|q: int|
                #![trigger final(self).kept(q)]
                scanned && 0 <= q < old(self).queries() ==> takes_selection(
                    old(self).kept(q),
                    final(self).kept(q),
                    old(self).probes()[q]@,
                    old(self).probe_start() as nat,
                    loaded@,
                    distances@[q]@,
                    filter,
                    old(self).spec_k(),
                ),
    {
        let mut q: usize = 0;
        while q < self.probes.len()
            invariant
                q <= self.probes@.len(),
                *self == *old(self),
                old(self).well_formed(),
                rows@.len() == loaded@.len(),
                forall|p: int|
                    0 <= p < rows@.len() ==> rows_match(
                        loaded@[p].ids@,
                        #[trigger] rows@[p],
                        filter,
                    ),
                distances@.len() == self.probes@.len(),
                forall|i: int|
                    0 <= i < distances@.len() ==> (#[trigger] distances@[i])@.len()
                        == loaded@.len(),
                forall|i: int, p: int|
                    0 <= i < distances@.len() && 0 <= p < loaded@.len() && probes_list(
                        self.probes@[i]@,
                        self.start as nat,
                        loaded@[p].list_id,
                    ) ==> (#[trigger] distances@[i]@[p])@.len() == loaded@[p].ids@.len(),
                forall|i: int|
                    0 <= i < q ==> distances_fit(
                        self.probes@[i]@,
                        self.start as nat,
                        loaded@,
                        (#[trigger] distances@[i])@,
                        filter,
                    ),
            decreases self.probes@.len() - q,
        {
            let own = &self.probes[q];
            let start: usize = self.start;
            let found = &distances[q];
            let mut p: usize = 0;
            while p < loaded.len()
                invariant
                    p <= loaded@.len(),
                    q < self.probes@.len(),
                    *self == *old(self),
                    old(self).well_formed(),
                    start == self.start,
                    own@ == self.probes@[q as int]@,
                    found@ == distances@[q as int]@,
                    found@.len() == loaded@.len(),
                    distances@.len() == self.probes@.len(),
                    rows@.len() == loaded@.len(),
                    forall|i: int|
                        0 <= i < rows@.len() ==> rows_match(
                            loaded@[i].ids@,
                            #[trigger] rows@[i],
                            filter,
                        ),
                    forall|i: int, j: int|
                        0 <= i < distances@.len() && 0 <= j < loaded@.len() && probes_list(
                            self.probes@[i]@,
                            self.start as nat,
                            loaded@[j].list_id,
                        ) ==> (#[trigger] distances@[i]@[j])@.len() == loaded@[j].ids@.len(),
                    forall|i: int|
                        0 <= i < p && probes_list(own@, start as nat, loaded@[i].list_id) ==> (
                        #[trigger] found@[i])@.len() == loaded@[i].ids@.len()
                            && crate::scan::numbers(
                            allowed_rows(loaded@[i].ids@, found@[i]@, filter),
                        ),
                decreases loaded@.len() - p,
            {
                if is_probed(own, start, loaded[p].list_id) {
                    assert(rows_match(loaded@[p as int].ids@, rows@[p as int], filter));
                    assert(distances@[q as int]@[p as int]@.len() == loaded@[p as int].ids@.len());
                    if !has_numbers(
                        loaded[p].ids.as_slice(),
                        &rows[p],
                        found[p].as_slice(),
                        filter,
                    ) {
                        assert(!distances_fit(
                            self.probes@[q as int]@,
                            self.start as nat,
                            loaded@,
                            distances@[q as int]@,
                            filter,
                        ));
                        return false;
                    }
                }
                p = p + 1;
            }
            q = q + 1;
        }
        self.scan_batch(end, loaded, rows, distances, filter);
        true
    }

    /// Lets the queries that probe `list`, which is to be read next, see a
    /// piece of it.
    pub fn scan_chunk<F: RowIdFilter>(
        &mut self,
        list: usize,
        ids: &[i64],
        distances: &Vec<Vec<u32>>,
        filter: Option<&F>,
    )
        requires
            old(self).well_formed(),
            old(self).read_count() < old(self).planned().len(),
            list == old(self).planned()[old(self).read_count() as int],
            distances@.len() == old(self).queries(),
            forall|q: int|
                0 <= q < distances@.len() && probes_list(
                    old(self).probes()[q]@,
                    old(self).probe_start() as nat,
                    list,
                ) ==> (#[trigger] distances@[q])@.len() == ids@.len() && crate::scan::numbers(
                    allowed_rows(ids@, distances@[q]@, filter),
                ),
        ensures
            final(self).well_formed(),
            final(self).spec_k() == old(self).spec_k(),
            final(self).probe_start() == old(self).probe_start(),
            final(self).spec_nlist() == old(self).spec_nlist(),
            final(self).probes() == old(self).probes(),
            final(self).planned() == old(self).planned(),
            final(self).read_count() == old(self).read_count(),
            forall|q: int|
                0 <= q < old(self).queries() ==> #[trigger] final(self).offered(q) == (
                if probes_list(
                    old(self).probes()[q]@,
                    old(self).probe_start() as nat,
                    list,
                ) {
                    old(self).offered(q).add(
                        allowed_rows(ids@, distances@[q]@, filter).to_multiset(),
                    )
                } else {
                    old(self).offered(q)
                }),
            forall|q: int|
                0 <= q < old(self).queries() ==> #[trigger] final(self).kept(q) == (
                if probes_list(
                    old(self).probes()[q]@,
                    old(self).probe_start() as nat,
                    list,
                ) {
                    crate::topk::all_pushed(
                        old(self).kept(q),
                        old(self).spec_k() as nat,
                        allowed_rows(ids@, distances@[q]@, filter),
                    )
                } else {
                    old(self).kept(q)
                }),
    {
        let rows = matching_rows(ids, filter);
        self.scan_matching_chunk(list, ids, &rows, distances, filter);
    }

    /// The same, given the rows of the piece that match.
    pub fn scan_matching_chunk<F: RowIdFilter>(
        &mut self,
        list: usize,
        ids: &[i64],
        rows: &Option<MatchingRows>,
        distances: &Vec<Vec<u32>>,
        filter: Option<&F>,
    )
        requires
            old(self).well_formed(),
            rows_match(ids@, *rows, filter),
            old(self).read_count() < old(self).planned().len(),
            list == old(self).planned()[old(self).read_count() as int],
            distances@.len() == old(self).queries(),
            forall|q: int|
                0 <= q < distances@.len() && probes_list(
                    old(self).probes()[q]@,
                    old(self).probe_start() as nat,
                    list,
                ) ==> (#[trigger] distances@[q])@.len() == ids@.len() && crate::scan::numbers(
                    allowed_rows(ids@, distances@[q]@, filter),
                ),
        ensures
            final(self).well_formed(),
            final(self).spec_k() == old(self).spec_k(),
            final(self).probe_start() == old(self).probe_start(),
            final(self).spec_nlist() == old(self).spec_nlist(),
            final(self).probes() == old(self).probes(),
            final(self).planned() == old(self).planned(),
            final(self).read_count() == old(self).read_count(),
            forall|q: int|
                0 <= q < old(self).queries() ==> #[trigger] final(self).offered(q) == (
                if probes_list(
                    old(self).probes()[q]@,
                    old(self).probe_start() as nat,
                    list,
                ) {
                    old(self).offered(q).add(
                        allowed_rows(ids@, distances@[q]@, filter).to_multiset(),
                    )
                } else {
                    old(self).offered(q)
                }),
            forall|q: int|
                0 <= q < old(self).queries() ==> #[trigger] final(self).kept(q) == (
                if probes_list(
                    old(self).probes()[q]@,
                    old(self).probe_start() as nat,
                    list,
                ) {
                    crate::topk::all_pushed(
                        old(self).kept(q),
                        old(self).spec_k() as nat,
                        allowed_rows(ids@, distances@[q]@, filter),
                    )
                } else {
                    old(self).kept(q)
                }),
    {
        let matching = as_reference(rows);
        proof {
            lemma_visited_passes(ids@, matching, filter);
        }
        let mut q: usize = 0;
        while q < self.probes.len()
            invariant
                q <= self.probes@.len(),
                self.k == old(self).k,
                self.start == old(self).start,
                self.nlist == old(self).nlist,
                self.probes@ == old(self).probes@,
                self.lists@ == old(self).lists@,
                self.next == old(self).next,
                old(self).well_formed(),
                self.heaps@.len() == self.probes@.len(),
                self.seen@.len() == self.probes@.len(),
                matching is Some == filter is Some,
                matching matches Some(found) ==> found.well_formed(ids@.len()),
                crate::scan::visited(matching, ids@.len()) == passing(ids@, filter),
                distances@.len() == self.probes@.len(),
                forall|p: int|
                    0 <= p < distances@.len() && probes_list(
                        self.probes@[p]@,
                        self.start as nat,
                        list,
                    ) ==> (#[trigger] distances@[p])@.len() == ids@.len() && crate::scan::numbers(
                        allowed_rows(ids@, distances@[p]@, filter),
                    ),
                forall|p: int|
                    0 <= p < self.heaps@.len() ==> keeps_nearest(
                        #[trigger] self.heaps@[p],
                        self.seen@[p],
                        self.k,
                    ),
                forall|p: int|
                    0 <= p < q ==> #[trigger] self.seen@[p] == (if probes_list(
                        self.probes@[p]@,
                        self.start as nat,
                        list,
                    ) {
                        old(self).seen@[p].add(
                            allowed_rows(ids@, distances@[p]@, filter).to_multiset(),
                        )
                    } else {
                        old(self).seen@[p]
                    }),
                forall|p: int|
                    q <= p < self.seen@.len() ==> #[trigger] self.seen@[p] == old(self).seen@[p],
                forall|p: int|
                    0 <= p < q ==> (#[trigger] self.heaps@[p]).items() == (if probes_list(
                        self.probes@[p]@,
                        self.start as nat,
                        list,
                    ) {
                        crate::topk::all_pushed(
                            old(self).heaps@[p].items(),
                            self.k as nat,
                            allowed_rows(ids@, distances@[p]@, filter),
                        )
                    } else {
                        old(self).heaps@[p].items()
                    }),
                forall|p: int|
                    q <= p < self.heaps@.len() ==> #[trigger] self.heaps@[p] == old(self).heaps@[p],
            decreases self.probes@.len() - q,
        {
            if is_probed(&self.probes[q], self.start, list) {
                let ghost offered = self.seen@[q as int];
                let ghost items = allowed_rows(ids@, distances@[q as int]@, filter);
                assert(keeps_nearest(self.heaps@[q as int], offered, self.k));
                assert(distances@[q as int]@.len() == ids@.len());
                assert(crate::scan::scanned(ids@, distances@[q as int]@, matching) == items);
                scan_rows(ids, distances[q].as_slice(), matching, &mut self.heaps[q]);
                proof {
                    self.seen@ = self.seen@.update(q as int, offered.add(items.to_multiset()));
                }
            }
            q = q + 1;
        }
    }

    /// The same, unless the distance of a row that a query may return is a NaN.
    pub fn try_scan_chunk<F: RowIdFilter>(
        &mut self,
        list: usize,
        ids: &[i64],
        rows: &Option<MatchingRows>,
        distances: &Vec<Vec<u32>>,
        filter: Option<&F>,
    ) -> (scanned: bool)
        requires
            old(self).well_formed(),
            rows_match(ids@, *rows, filter),
            old(self).read_count() < old(self).planned().len(),
            list == old(self).planned()[old(self).read_count() as int],
            distances@.len() == old(self).queries(),
            forall|q: int|
                0 <= q < distances@.len() && probes_list(
                    old(self).probes()[q]@,
                    old(self).probe_start() as nat,
                    list,
                ) ==> (#[trigger] distances@[q])@.len() == ids@.len(),
        ensures
            scanned == forall|q: int|
                0 <= q < distances@.len() && probes_list(
                    old(self).probes()[q]@,
                    old(self).probe_start() as nat,
                    list,
                ) ==> crate::scan::numbers(
                    allowed_rows(ids@, (#[trigger] distances@[q])@, filter),
                ),
            !scanned ==> *final(self) == *old(self),
            final(self).well_formed(),
            final(self).spec_k() == old(self).spec_k(),
            final(self).probe_start() == old(self).probe_start(),
            final(self).spec_nlist() == old(self).spec_nlist(),
            final(self).probes() == old(self).probes(),
            final(self).planned() == old(self).planned(),
            final(self).read_count() == old(self).read_count(),
            forall|q: int|
                scanned && 0 <= q < old(self).queries() ==> #[trigger] final(self).offered(q) == (
                if probes_list(
                    old(self).probes()[q]@,
                    old(self).probe_start() as nat,
                    list,
                ) {
                    old(self).offered(q).add(
                        allowed_rows(ids@, distances@[q]@, filter).to_multiset(),
                    )
                } else {
                    old(self).offered(q)
                }),
            forall|q: int|
                scanned && 0 <= q < old(self).queries() ==> #[trigger] final(self).kept(q) == (
                if probes_list(
                    old(self).probes()[q]@,
                    old(self).probe_start() as nat,
                    list,
                ) {
                    crate::topk::all_pushed(
                        old(self).kept(q),
                        old(self).spec_k() as nat,
                        allowed_rows(ids@, distances@[q]@, filter),
                    )
                } else {
                    old(self).kept(q)
                }),
    {
        let mut q: usize = 0;
        while q < self.probes.len()
            invariant
                q <= self.probes@.len(),
                *self == *old(self),
                old(self).well_formed(),
                rows_match(ids@, *rows, filter),
                distances@.len() == self.probes@.len(),
                forall|i: int|
                    0 <= i < distances@.len() && probes_list(
                        self.probes@[i]@,
                        self.start as nat,
                        list,
                    ) ==> (#[trigger] distances@[i])@.len() == ids@.len(),
                forall|i: int|
                    0 <= i < q && probes_list(self.probes@[i]@, self.start as nat, list)
                        ==> crate::scan::numbers(
                        allowed_rows(ids@, (#[trigger] distances@[i])@, filter),
                    ),
            decreases self.probes@.len() - q,
        {
            if is_probed(&self.probes[q], self.start, list) {
                assert(distances@[q as int]@.len() == ids@.len());
                if !has_numbers(ids, rows, distances[q].as_slice(), filter) {
                    assert(!crate::scan::numbers(
                        allowed_rows(ids@, distances@[q as int]@, filter),
                    ));
                    return false;
                }
            }
            q = q + 1;
        }
        self.scan_matching_chunk(list, ids, rows, distances, filter);
        true
    }

    /// Marks the list that was read piece by piece as done.
    pub fn finish_stream(&mut self)
        requires
            old(self).well_formed(),
            old(self).read_count() < old(self).planned().len(),
        ensures
            final(self).well_formed(),
            final(self).spec_k() == old(self).spec_k(),
            final(self).probe_start() == old(self).probe_start(),
            final(self).spec_nlist() == old(self).spec_nlist(),
            final(self).probes() == old(self).probes(),
            final(self).planned() == old(self).planned(),
            final(self).read_count() == old(self).read_count() + 1,
            forall|q: int|
                0 <= q < old(self).queries() ==> #[trigger] final(self).offered(q) == old(self).offered(q),
            forall|q: int|
                0 <= q < old(self).queries() ==> #[trigger] final(self).kept(q) == old(self).kept(q),
    {
        if self.next < self.lists.len() {
            self.next = self.next + 1;
        }
    }

    /// The nearest rows of a single query by ascending distance, as many as
    /// there are.
    pub fn finish_single(self) -> (out: (Vec<i64>, Vec<u32>))
        requires
            self.well_formed(),
            self.queries() == 1,
        ensures
            exists|sorted: Seq<Neighbor>| #[trigger]
                is_answer(self.offered(0), sorted, self.spec_k()) && out.0@ == row_ids(sorted)
                    && out.1@ == row_distances(sorted) && crate::topk::stably_sorted(
                    self.kept(0),
                    sorted,
                ),
    {
        let mut heaps = self.heaps;
        let mut heap = TopKHeap::new(self.k);
        assert(keeps_nearest(self.heaps@[0], self.seen@[0], self.k));
        std::mem::swap(&mut heap, &mut heaps[0]);
        let sorted = heap.into_sorted();
        let out = split_neighbors(&sorted);
        assert(is_answer(self.offered(0), sorted@, self.spec_k()));
        out
    }

    /// Each query's nearest rows by ascending distance, padded to `k` places.
    pub fn finish(self) -> (out: (Vec<i64>, Vec<u32>))
        requires
            self.well_formed(),
            self.queries() * self.spec_k() <= usize::MAX,
        ensures
            out.0@.len() == self.queries() * self.spec_k(),
            out.1@.len() == self.queries() * self.spec_k(),
            forall|q: int|
                #![trigger self.offered(q)]
                0 <= q < self.queries() ==> answers(
                    self.offered(q),
                    out.0@,
                    out.1@,
                    q,
                    self.spec_k(),
                ),
            forall|q: int|
                #![trigger self.kept(q)]
                0 <= q < self.queries() ==> crate::scan::lists_sorted(
                    self.kept(q),
                    out.0@,
                    out.1@,
                    q,
                    self.spec_k(),
                ),
    {
        let mut results: Vec<Vec<Neighbor>> = Vec::new();
        let mut heaps = self.heaps;
        let mut q: usize = 0;
        while q < heaps.len()
            invariant
                q <= heaps@.len(),
                self.well_formed(),
                heaps@.len() == self.heaps@.len(),
                forall|p: int| q <= p < heaps@.len() ==> #[trigger] heaps@[p] == self.heaps@[p],
                results@.len() == q,
                forall|p: int|
                    0 <= p < q ==> is_answer(self.seen@[p], (#[trigger] results@[p])@, self.k),
                forall|p: int|
                    0 <= p < q ==> crate::topk::stably_sorted(
                        self.heaps@[p].items(),
                        (#[trigger] results@[p])@,
                    ),
            decreases heaps@.len() - q,
        {
            let mut heap = TopKHeap::new(self.k);
            assert(keeps_nearest(self.heaps@[q as int], self.seen@[q as int], self.k));
            std::mem::swap(&mut heap, &mut heaps[q]);
            let sorted = heap.into_sorted();
            results.push(sorted);
            q = q + 1;
        }
        let out = assemble_results(&results, self.k);
        proof {
            assert forall|q: int|
                #![trigger self.offered(q)]
                0 <= q < self.queries() implies answers(
                self.offered(q),
                out.0@,
                out.1@,
                q,
                self.k,
            ) by {
                assert(is_answer(self.seen@[q], results@[q]@, self.k));
            }
            assert forall|q: int|
                #![trigger self.kept(q)]
                0 <= q < self.queries() implies crate::scan::lists_sorted(
                self.kept(q),
                out.0@,
                out.1@,
                q,
                self.k,
            ) by {
                assert(crate::topk::stably_sorted(self.heaps@[q].items(), results@[q]@));
            }
        }
        out
    }
}

/// The ids of rows.
pub open spec fn row_ids(rows: Seq<Neighbor>) -> Seq<i64> {
    Seq::new(rows.len(), |i: int| rows[i].1)
}

/// The distances of rows.
pub open spec fn row_distances(rows: Seq<Neighbor>) -> Seq<u32> {
    Seq::new(rows.len(), |i: int| rows[i].0)
}

/// Splits rows into ids and distances.
pub fn split_neighbors(rows: &Vec<Neighbor>) -> (split: (Vec<i64>, Vec<u32>))
    ensures
        split.0@ == row_ids(rows@),
        split.1@ == row_distances(rows@),
{
    let total: usize = rows.len();
    let mut ids: Vec<i64> = Vec::new();
    let mut distances: Vec<u32> = Vec::new();
    let mut i: usize = 0;
    while i < total
        invariant
            i <= total,
            total == rows@.len(),
            ids@ == row_ids(rows@.take(i as int)),
            distances@ == row_distances(rows@.take(i as int)),
        decreases total - i,
    {
        let item: Neighbor = rows[i];
        ids.push(item.1);
        distances.push(item.0);
        proof {
            assert(rows@.take(i + 1) =~= rows@.take(i as int).push(item));
            assert(ids@ =~= row_ids(rows@.take(i + 1)));
            assert(distances@ =~= row_distances(rows@.take(i + 1)));
        }
        i = i + 1;
    }
    assert(rows@.take(total as int) =~= rows@);
    (ids, distances)
}

/// Searching the probes of two adjoining ranges of ranks one after the other
/// offers what searching both at once does.
pub proof fn law_probe_ranges_add_up<F: RowIdFilter>(
    probes: Seq<usize>,
    start: nat,
    middle: nat,
    upto: nat,
    loaded: Seq<LoadedList>,
    distances: Seq<Vec<u32>>,
    filter: Option<&F>,
)
    requires
        start <= middle <= upto,
    ensures
        probe_items(probes, start, upto, loaded, distances, filter) == probe_items(
            probes,
            start,
            middle,
            loaded,
            distances,
            filter,
        ).add(probe_items(probes, middle, upto, loaded, distances, filter)),
    decreases upto,
{
    let first = probe_items(probes, start, middle, loaded, distances, filter);
    if upto == middle {
        assert(first.add(Multiset::empty()) =~= first);
    } else {
        let m = (upto - 1) as nat;
        law_probe_ranges_add_up(probes, start, middle, m, loaded, distances, filter);
        let before = probe_items(probes, start, m, loaded, distances, filter);
        let second = probe_items(probes, middle, m, loaded, distances, filter);
        match crate::plan::loaded_at(loaded_ids(loaded), probes[upto - 1]) {
            Some(p) => {
                let rows = allowed_rows(loaded[p].ids@, distances[p]@, filter).to_multiset();
                assert(before.add(rows) =~= first.add(second.add(rows)));
            },
            None => {},
        }
    }
}

/// Reading the lists in two batches offers what reading them all at once does.
pub proof fn law_read_batches_add_up<F: RowIdFilter>(
    probes: Seq<usize>,
    start: nat,
    upto: nat,
    first: Seq<LoadedList>,
    first_distances: Seq<Vec<u32>>,
    rest: Seq<LoadedList>,
    rest_distances: Seq<Vec<u32>>,
    filter: Option<&F>,
)
    requires
        first.len() == first_distances.len(),
        rest.len() == rest_distances.len(),
        forall|i: int, j: int|
            0 <= i < first.len() && 0 <= j < rest.len() ==> (#[trigger] first[i]).list_id != (
            #[trigger] rest[j]).list_id,
    ensures
        probe_items(probes, start, upto, first + rest, first_distances + rest_distances, filter)
            == probe_items(probes, start, upto, first, first_distances, filter).add(
            probe_items(probes, start, upto, rest, rest_distances, filter),
        ),
    decreases upto,
{
    let all = first + rest;
    let distances = first_distances + rest_distances;
    if upto <= start {
        assert(Multiset::<Neighbor>::empty().add(Multiset::empty()) =~= Multiset::empty());
    } else {
        let m = (upto - 1) as nat;
        law_read_batches_add_up(
            probes,
            start,
            m,
            first,
            first_distances,
            rest,
            rest_distances,
            filter,
        );
        let list = probes[upto - 1];
        let a = probe_items(probes, start, m, first, first_distances, filter);
        let b = probe_items(probes, start, m, rest, rest_distances, filter);
        lemma_loaded_in_parts(loaded_ids(first), loaded_ids(rest), list);
        assert(loaded_ids(all) =~= loaded_ids(first) + loaded_ids(rest));
        crate::plan::lemma_loaded_at(loaded_ids(first), list);
        crate::plan::lemma_loaded_at(loaded_ids(rest), list);
        match crate::plan::loaded_at(loaded_ids(rest), list) {
            Some(p) => {
                assert(crate::plan::loaded_at(loaded_ids(first), list) is None) by {
                    if let Some(q) = crate::plan::loaded_at(loaded_ids(first), list) {
                        assert(first[q].list_id != rest[p].list_id);
                    }
                }
                let rows = allowed_rows(rest[p].ids@, rest_distances[p]@, filter).to_multiset();
                assert(all[first.len() + p] == rest[p]);
                assert(a.add(b).add(rows) =~= a.add(b.add(rows)));
            },
            None => {
                match crate::plan::loaded_at(loaded_ids(first), list) {
                    Some(q) => {
                        let rows = allowed_rows(
                            first[q].ids@,
                            first_distances[q]@,
                            filter,
                        ).to_multiset();
                        assert(all[q] == first[q]);
                        assert(a.add(b).add(rows) =~= a.add(rows).add(b));
                    },
                    None => {},
                }
            },
        }
    }
}

proof fn lemma_loaded_in_parts(first: Seq<usize>, rest: Seq<usize>, list: usize)
    ensures
        crate::plan::loaded_at(first + rest, list) == (match crate::plan::loaded_at(rest, list) {
            Some(p) => Some(first.len() + p),
            None => crate::plan::loaded_at(first, list),
        }),
    decreases rest.len(),
{
    if rest.len() == 0 {
        assert(first + rest =~= first);
    } else {
        let all = first + rest;
        assert(all.last() == rest.last());
        assert(all.drop_last() =~= first + rest.drop_last());
        lemma_loaded_in_parts(first, rest.drop_last(), list);
    }
}

/// The heap keeps the nearest of what was offered.
pub open spec fn keeps_nearest(heap: TopKHeap, offered: Multiset<Neighbor>, k: usize) -> bool {
    &&& crate::scan::open_heap(heap)
    &&& heap.spec_k() == k
    &&& crate::topk::nearest_of(offered, heap.contents(), k as nat)
}

/// `sorted` are `k` nearest of the offered rows, by ascending distance.
pub open spec fn is_answer(offered: Multiset<Neighbor>, sorted: Seq<Neighbor>, k: usize) -> bool {
    &&& sorted.len() <= k
    &&& crate::topk::ascending(sorted)
    &&& crate::topk::nearest_of(offered, sorted.to_multiset(), k as nat)
}

/// Row `query` of the result answers with the nearest of the offered rows.
pub open spec fn answers(
    offered: Multiset<Neighbor>,
    ids: Seq<i64>,
    distances: Seq<u32>,
    query: int,
    k: usize,
) -> bool {
    exists|sorted: Seq<Neighbor>| #[trigger]
        is_answer(offered, sorted, k) && crate::scan::result_row(
            ids,
            distances,
            query,
            k as int,
            sorted,
        )
}

/// Answers from more rows are nowhere farther: whatever place an answer from
/// some of the rows fills, an answer from all of them fills too, with a row that
/// is at least as near.
pub proof fn law_more_rows_answer_no_farther(
    some: Multiset<Neighbor>,
    all: Multiset<Neighbor>,
    a: Seq<Neighbor>,
    b: Seq<Neighbor>,
    k: usize,
)
    requires
        some.subset_of(all),
        is_answer(some, a, k),
        is_answer(all, b, k),
    ensures
        a.len() <= b.len(),
        forall|i: int|
            0 <= i < a.len() ==> crate::order::numeric_key(b[i].0) <= crate::order::numeric_key(
                (#[trigger] a[i]).0,
            ),
{
    broadcast use vstd::seq_lib::group_to_multiset_ensures;

    assert(all =~= some.add(all.sub(some)));
    assert(a.to_multiset().len() == a.len() && b.to_multiset().len() == b.len());
    assert forall|i: int| 0 <= i < a.len() implies crate::order::numeric_key(b[i].0)
        <= crate::order::numeric_key((#[trigger] a[i]).0) by {
        let limit = crate::order::numeric_key(a[i].0);
        if crate::order::numeric_key(b[i].0) > limit {
            let near = a.take(i + 1).to_multiset();
            let kept = b.take(i).to_multiset();
            assert(a =~= a.take(i + 1) + a.skip(i + 1));
            vstd::seq_lib::lemma_multiset_commutative(a.take(i + 1), a.skip(i + 1));
            assert(b =~= b.take(i) + b.skip(i));
            vstd::seq_lib::lemma_multiset_commutative(b.take(i), b.skip(i));
            assert forall|y: Neighbor| near.count(y) <= kept.count(y) by {
                if near.count(y) > 0 {
                    assert(near.contains(y));
                    assert(a.take(i + 1).contains(y));
                    let front = a.take(i + 1);
                    let j = choose|j: int| 0 <= j < front.len() && front[j] == y;
                    assert(a[j] == y);
                    assert(crate::order::numeric_key(y.0) <= limit) by {
                        if j < i {
                            assert(crate::order::numeric_key(a[j].0)
                                <= crate::order::numeric_key(a[i].0));
                        }
                    }
                    assert(b.contains(b[i]));
                    assert(b.to_multiset().contains(b[i]));
                    if all.count(y) > b.to_multiset().count(y) {
                        assert(all.sub(b.to_multiset()).contains(y));
                        assert(false);
                    }
                    if b.skip(i).to_multiset().count(y) > 0 {
                        assert(b.skip(i).to_multiset().contains(y));
                        assert(b.skip(i).contains(y));
                        let back = b.skip(i);
                        let j = choose|j: int| 0 <= j < back.len() && back[j] == y;
                        assert(b[i + j] == y);
                        if j > 0 {
                            assert(crate::order::numeric_key(b[i].0)
                                <= crate::order::numeric_key(b[i + j].0));
                        }
                        assert(false);
                    }
                    assert(near.count(y) <= a.to_multiset().count(y));
                    assert(a.to_multiset().count(y) <= some.count(y));
                    assert(some.count(y) <= all.count(y));
                }
            }
            assert(kept =~= near.add(kept.sub(near)));
            assert(near.len() == i + 1 && kept.len() == i);
        }
    }
}

/// Answers from the same rows have the same distances, place by place, and are
/// the same where no two rows are equally far.
pub proof fn law_answers_agree(
    offered: Multiset<Neighbor>,
    a: Seq<Neighbor>,
    b: Seq<Neighbor>,
    k: usize,
)
    requires
        is_answer(offered, a, k),
        is_answer(offered, b, k),
    ensures
        a.len() == b.len(),
        forall|i: int|
            0 <= i < a.len() ==> crate::order::numeric_key(b[i].0) == crate::order::numeric_key(
                (#[trigger] a[i]).0,
            ),
        distances_differ(offered) ==> a == b,
{
    broadcast use vstd::seq_lib::group_to_multiset_ensures;

    law_more_rows_answer_no_farther(offered, offered, a, b, k);
    law_more_rows_answer_no_farther(offered, offered, b, a, k);
    assert forall|i: int| 0 <= i < a.len() implies crate::order::numeric_key(b[i].0)
        == crate::order::numeric_key((#[trigger] a[i]).0) by {
        assert(crate::order::numeric_key(a[i].0) <= crate::order::numeric_key(b[i].0));
    }
    if distances_differ(offered) {
        assert forall|i: int| 0 <= i < a.len() implies a[i] == b[i] by {
            assert(a.contains(a[i]) && b.contains(b[i]));
            assert(a.to_multiset().count(a[i]) <= offered.count(a[i]));
            assert(b.to_multiset().count(b[i]) <= offered.count(b[i]));
            assert(offered.contains(a[i]) && offered.contains(b[i]));
            assert(crate::order::numeric_key(b[i].0) == crate::order::numeric_key(a[i].0));
        }
        assert(a =~= b);
    }
}

/// No two different rows are equally far.
pub open spec fn distances_differ(items: Multiset<Neighbor>) -> bool {
    forall|x: Neighbor, y: Neighbor| #[trigger]
        items.contains(x) && #[trigger] items.contains(y) && crate::order::numeric_key(x.0)
            == crate::order::numeric_key(y.0) ==> x == y
}

/// Every place of row `query` of the result is unused.
pub open spec fn is_padding(ids: Seq<i64>, distances: Seq<u32>, query: int, k: usize) -> bool {
    forall|i: int|
        0 <= i < k ==> #[trigger] ids[query * k + i] == -1 && distances[query * k + i]
            == crate::order::MAX_DISTANCE
}

/// A query that was offered nothing is answered with nothing but padding.
pub proof fn law_nothing_offered_is_padding(
    ids: Seq<i64>,
    distances: Seq<u32>,
    query: int,
    k: usize,
)
    requires
        answers(Multiset::empty(), ids, distances, query, k),
    ensures
        is_padding(ids, distances, query, k),
{
    broadcast use vstd::seq_lib::group_to_multiset_ensures;

    let sorted = choose|sorted: Seq<Neighbor>| #[trigger]
        is_answer(Multiset::empty(), sorted, k) && crate::scan::result_row(
            ids,
            distances,
            query,
            k as int,
            sorted,
        );
    assert(sorted.to_multiset().len() == sorted.len());
}

/// The query probes the list at rank `start` or later.
pub open spec fn probes_list(probes: Seq<usize>, start: nat, list: usize) -> bool {
    exists|r: int| start <= r < probes.len() && #[trigger] probes[r] == list
}

fn is_probed(probes: &Vec<usize>, start: usize, list: usize) -> (probed: bool)
    ensures
        probed == probes_list(probes@, start as nat, list),
{
    let mut r: usize = start;
    while r < probes.len()
        invariant
            start <= r,
            forall|i: int| start <= i < r && i < probes@.len() ==> #[trigger] probes@[i] != list,
        decreases probes@.len() - r,
    {
        if probes[r] == list {
            assert(probes@[r as int] == list);
            return true;
        }
        r = r + 1;
    }
    false
}

/// Whether the lists that were read are the planned ones, with the planned
/// number of rows.
pub fn check_batch(planned: &[usize], counts: &[usize], loaded: &Vec<LoadedList>) -> (result:
    Result<(), ReadError>)
    requires
        planned@.len() == counts@.len(),
        loaded@.len() == planned@.len(),
    ensures
        match result {
            Ok(_) => forall|i: int|
                0 <= i < planned@.len() ==> (#[trigger] loaded@[i]).list_id == planned@[i]
                    && loaded@[i].ids@.len() == counts@[i],
            Err(error) => exists|i: int|
                0 <= i < planned@.len() && first_mismatch(planned@, counts@, loaded@, i, error),
        },
{
    let mut i: usize = 0;
    while i < planned.len()
        invariant
            i <= planned@.len(),
            planned@.len() == counts@.len(),
            loaded@.len() == planned@.len(),
            forall|j: int|
                0 <= j < i ==> (#[trigger] loaded@[j]).list_id == planned@[j]
                    && loaded@[j].ids@.len() == counts@[j],
        decreases planned@.len() - i,
    {
        if loaded[i].list_id != planned[i] {
            assert(first_mismatch(planned@, counts@, loaded@, i as int, ReadError::OutOfOrder));
            return Err(ReadError::OutOfOrder);
        }
        if loaded[i].ids.len() != counts[i] {
            assert(first_mismatch(
                planned@,
                counts@,
                loaded@,
                i as int,
                ReadError::UnexpectedRowCount,
            ));
            return Err(ReadError::UnexpectedRowCount);
        }
        i = i + 1;
    }
    Ok(())
}

/// Place `i` is the first that differs from the plan, in the way of `error`.
pub open spec fn first_mismatch(
    planned: Seq<usize>,
    counts: Seq<usize>,
    loaded: Seq<LoadedList>,
    i: int,
    error: ReadError,
) -> bool {
    &&& forall|j: int|
        0 <= j < i ==> (#[trigger] loaded[j]).list_id == planned[j] && loaded[j].ids@.len()
            == counts[j]
    &&& match error {
        ReadError::OutOfOrder => loaded[i].list_id != planned[i],
        ReadError::UnexpectedRowCount => loaded[i].list_id == planned[i] && loaded[i].ids@.len()
            != counts[i],
    }
}

} // verus!
