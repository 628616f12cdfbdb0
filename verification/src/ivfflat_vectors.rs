//! Searches over the vectors of an index that keeps them as they are.
use crate::filter::{is_row_allowed, RowIdFilter};
use crate::ivfflat::{FlatTopKHeap, IVFFlatIndex};
use crate::order::float_is_nan;
use crate::scan::assemble_results;
use crate::topk::Neighbor;
use vstd::prelude::*;
use vstd::slice::slice_subrange;

verus! {

/// The function measures two vectors of `d` components, always alike.
pub open spec fn is_measure<D: Fn(&[u32], &[u32]) -> u32>(distance: D, d: nat) -> bool {
    &&& forall|a: &[u32], b: &[u32]|
        a@.len() == d && b@.len() == d ==> #[trigger] call_requires(distance, (a, b))
    &&& forall|a: &[u32], b: &[u32], s: &[u32], t: &[u32], x: u32, y: u32|
        #![trigger call_ensures(distance, (a, b), x), call_ensures(distance, (s, t), y)]
        a@ == s@ && b@ == t@ && call_ensures(distance, (a, b), x) && call_ensures(
            distance,
            (s, t),
            y,
        ) ==> x == y
}

/// The number is a distance between two vectors.
pub open spec fn is_distance<D: Fn(&[u32], &[u32]) -> u32>(
    distance: D,
    a: Seq<u32>,
    b: Seq<u32>,
    x: u32,
) -> bool {
    exists|s: &[u32], t: &[u32]|
        s@ == a && t@ == b && #[trigger] call_ensures(distance, (s, t), x)
}

/// The distance between two vectors.
pub open spec fn distance_between<D: Fn(&[u32], &[u32]) -> u32>(
    distance: D,
    a: Seq<u32>,
    b: Seq<u32>,
) -> u32 {
    choose|x: u32| is_distance(distance, a, b, x)
}

/// The vector of a row of a list.
pub open spec fn vector_of(index: IVFFlatIndex, list: int, row: int) -> Seq<u32> {
    index.vectors@[list]@.subrange(row * index.d, (row + 1) * index.d)
}

/// The first `n` rows of a list that pass the filter, with the distances of
/// their vectors to a query.
pub open spec fn list_neighbors<F: RowIdFilter, D: Fn(&[u32], &[u32]) -> u32>(
    distance: D,
    index: IVFFlatIndex,
    query: Seq<u32>,
    list: int,
    filter: Option<&F>,
    n: nat,
) -> Seq<Neighbor>
    decreases n,
{
    if n == 0 {
        Seq::empty()
    } else {
        let row = n - 1;
        let id = index.ids@[list]@[row];
        let before = list_neighbors(distance, index, query, list, filter, row as nat);
        if crate::filter::row_allowed(filter, id) {
            before.push((distance_between(distance, query, vector_of(index, list, row)), id))
        } else {
            before
        }
    }
}

/// What a query is offered by its probes of ranks below `upto`, in order.
pub open spec fn vector_neighbors<F: RowIdFilter, D: Fn(&[u32], &[u32]) -> u32>(
    distance: D,
    index: IVFFlatIndex,
    query: Seq<u32>,
    probes: Seq<usize>,
    filter: Option<&F>,
    upto: nat,
) -> Seq<Neighbor>
    decreases upto,
{
    if upto == 0 {
        Seq::empty()
    } else {
        let r = upto - 1;
        let list = probes[r] as int;
        vector_neighbors(distance, index, query, probes, filter, r as nat) + list_neighbors(
            distance,
            index,
            query,
            list,
            filter,
            index.ids@[list]@.len(),
        )
    }
}

/// Whether items can be told apart by distance while at most `k` are kept.
fn can_tell_apart(items: &Vec<Neighbor>, k: usize) -> (can: bool)
    ensures
        can == crate::ivfflat::is_comparable(items@, k as nat),
{
    if k <= 1 || items.len() <= 1 {
        return true;
    }
    let mut i: usize = 0;
    while i < items.len() && i < k
        invariant
            i <= items@.len(),
            i <= k,
            k > 1,
            items@.len() > 1,
            forall|j: int| 0 <= j < i ==> !crate::order::is_nan((#[trigger] items@[j]).0),
        decreases items@.len() - i,
    {
        if float_is_nan(items[i].0) {
            assert(crate::order::is_nan(items@[i as int].0));
            return false;
        }
        i = i + 1;
    }
    true
}

/// The nearest of the items, by ascending distance.
fn keep_nearest(items: &Vec<Neighbor>, k: usize) -> (sorted: Vec<Neighbor>)
    requires
        crate::ivfflat::is_comparable(items@, k as nat),
    ensures
        sorted@.len() <= k,
        crate::topk::stably_sorted(crate::ivfflat::flat_kept(items@, k as nat), sorted@),
{
    let mut heap = FlatTopKHeap::new(k);
    let mut i: usize = 0;
    assert(items@.take(0) =~= Seq::<Neighbor>::empty());
    while i < items.len()
        invariant
            i <= items@.len(),
            crate::ivfflat::is_comparable(items@, k as nat),
            heap.spec_k() == k,
            heap.items() == crate::ivfflat::flat_kept(items@.take(i as int), k as nat),
        decreases items@.len() - i,
    {
        let item: Neighbor = items[i];
        proof {
            let so_far = items@.take(i as int);
            assert(crate::ivfflat::is_comparable(so_far, k as nat)) by {
                assert forall|j: int| 0 <= j < so_far.len() implies #[trigger] so_far[j]
                    == items@[j] by {}
            }
            crate::ivfflat::law_flat_heap_holds_what_it_can(so_far, k as nat);
            assert(items@.take(i + 1).drop_last() =~= so_far);
        }
        heap.push(item.0, item.1);
        i = i + 1;
    }
    assert(items@.take(items@.len() as int) =~= items@);
    proof {
        crate::ivfflat::law_flat_heap_holds_what_it_can(items@, k as nat);
    }
    let sorted = heap.into_sorted();
    proof {
        crate::topk::lemma_stably_sorted(
            crate::ivfflat::flat_kept(items@, k as nat),
            sorted@,
        );
    }
    sorted
}

impl IVFFlatIndex {
    /// Adds the rows of a list that pass the filter, with the distances of
    /// their vectors to a query.
    fn add_neighbors<F: RowIdFilter, D: Fn(&[u32], &[u32]) -> u32>(
        &self,
        query: &[u32],
        list: usize,
        filter: Option<&F>,
        distance: &D,
        items: &mut Vec<Neighbor>,
    )
        requires
            self.well_formed(),
            is_measure(*distance, self.d as nat),
            query@.len() == self.d,
            list < self.nlist,
        ensures
            final(items)@ == old(items)@ + list_neighbors(
                *distance,
                *self,
                query@,
                list as int,
                filter,
                self.ids@[list as int]@.len(),
            ),
    {
        let d: usize = self.d;
        let vectors = &self.vectors[list];
        let total: usize = vectors.len();
        let count: usize = self.ids[list].len();
        let ghost before = items@;
        assert(before + Seq::<Neighbor>::empty() =~= before);
        let mut row: usize = 0;
        while row < count
            invariant
                row <= count,
                count == self.ids@[list as int]@.len(),
                d == self.d,
                list < self.nlist,
                self.well_formed(),
                is_measure(*distance, self.d as nat),
                query@.len() == d,
                vectors@ == self.vectors@[list as int]@,
                total == vectors@.len(),
                total == count * d,
                items@ == before + list_neighbors(
                    *distance,
                    *self,
                    query@,
                    list as int,
                    filter,
                    row as nat,
                ),
            decreases count - row,
        {
            let id: i64 = self.ids[list][row];
            if is_row_allowed(filter, id) {
                assert(0 <= row * d && row * d + d <= count * d && (row + 1) * d == row * d + d)
                    by (nonlinear_arith)
                    requires
                        row + 1 <= count,
                ;
                let vector: &[u32] = slice_subrange(vectors.as_slice(), row * d, row * d + d);
                let found: u32 = distance(query, vector);
                proof {
                    assert(vector@ == vector_of(*self, list as int, row as int));
                    assert(call_ensures(*distance, (query, vector), found));
                    assert(is_distance(*distance, query@, vector@, found));
                    let chosen = distance_between(*distance, query@, vector@);
                    assert(is_distance(*distance, query@, vector@, chosen));
                    let (s, t) = choose|s: &[u32], t: &[u32]|
                        s@ == query@ && t@ == vector@ && #[trigger] call_ensures(
                            *distance,
                            (s, t),
                            chosen,
                        );
                    assert(call_ensures(*distance, (s, t), chosen));
                }
                items.push((found, id));
            }
            proof {
                assert(items@ =~= before + list_neighbors(
                    *distance,
                    *self,
                    query@,
                    list as int,
                    filter,
                    (row + 1) as nat,
                ));
            }
            row = row + 1;
        }
    }

    /// The rows that a query is offered by its probes, with the distances of
    /// their vectors.
    fn query_neighbors<F: RowIdFilter, D: Fn(&[u32], &[u32]) -> u32>(
        &self,
        query: &[u32],
        probes: &Vec<usize>,
        filter: Option<&F>,
        distance: &D,
    ) -> (items: Vec<Neighbor>)
        requires
            self.well_formed(),
            is_measure(*distance, self.d as nat),
            query@.len() == self.d,
            forall|r: int| 0 <= r < probes@.len() ==> #[trigger] probes@[r] < self.nlist,
        ensures
            items@ == vector_neighbors(
                *distance,
                *self,
                query@,
                probes@,
                filter,
                probes@.len(),
            ),
    {
        let mut items: Vec<Neighbor> = Vec::new();
        let mut r: usize = 0;
        while r < probes.len()
            invariant
                r <= probes@.len(),
                self.well_formed(),
                is_measure(*distance, self.d as nat),
                query@.len() == self.d,
                forall|i: int| 0 <= i < probes@.len() ==> #[trigger] probes@[i] < self.nlist,
                items@ == vector_neighbors(
                    *distance,
                    *self,
                    query@,
                    probes@,
                    filter,
                    r as nat,
                ),
            decreases probes@.len() - r,
        {
            self.add_neighbors(query, probes[r], filter, distance, &mut items);
            r = r + 1;
        }
        items
    }

    /// The nearest rows of the probed lists that pass the filter: one row of
    /// `k` places per query, with the distances of their vectors. There is no
    /// answer where the rows of a query cannot be told apart by distance.
    pub fn search_vectors<F: RowIdFilter, D: Fn(&[u32], &[u32]) -> u32>(
        &self,
        queries: &[u32],
        probes: &Vec<Vec<usize>>,
        k: usize,
        filter: Option<&F>,
        distance: &D,
    ) -> (out: Option<(Vec<i64>, Vec<u32>)>)
        requires
            self.well_formed(),
            is_measure(*distance, self.d as nat),
            queries@.len() == probes@.len() * self.d,
            crate::plan::probes_valid(probes@, self.nlist as nat),
            probes@.len() * k <= usize::MAX,
        ensures
            out is Some <==> forall|q: int|
                0 <= q < probes@.len() ==> crate::ivfflat::is_comparable(
                    vector_neighbors(
                        *distance,
                        *self,
                        crate::list_search::query_at(queries@, self.d as int, q),
                        (#[trigger] probes@[q])@,
                        filter,
                        probes@[q]@.len(),
                    ),
                    k as nat,
                ),
            out matches Some(found) ==> {
                &&& found.0@.len() == probes@.len() * k
                &&& found.1@.len() == probes@.len() * k
                &&& forall|q: int|
                    0 <= q < probes@.len() ==> crate::ivfflat::flat_answer(
                        vector_neighbors(
                            *distance,
                            *self,
                            crate::list_search::query_at(queries@, self.d as int, q),
                            (#[trigger] probes@[q])@,
                            filter,
                            probes@[q]@.len(),
                        ),
                        found.0@,
                        found.1@,
                        q,
                        k,
                    )
            },
    {
        let d: usize = self.d;
        let total: usize = queries.len();
        let mut results: Vec<Vec<Neighbor>> = Vec::new();
        let ghost mut offers: Seq<Seq<Neighbor>> = Seq::empty();
        let mut q: usize = 0;
        while q < probes.len()
            invariant
                q <= probes@.len(),
                d == self.d,
                total == queries@.len(),
                self.well_formed(),
                is_measure(*distance, self.d as nat),
                queries@.len() == probes@.len() * self.d,
                crate::plan::probes_valid(probes@, self.nlist as nat),
                results@.len() == q,
                offers.len() == q,
                forall|p: int|
                    0 <= p < q ==> #[trigger] offers[p] == vector_neighbors(
                        *distance,
                        *self,
                        crate::list_search::query_at(queries@, self.d as int, p),
                        probes@[p]@,
                        filter,
                        probes@[p]@.len(),
                    ) && crate::ivfflat::is_comparable(offers[p], k as nat),
                forall|p: int|
                    0 <= p < q ==> (#[trigger] results@[p])@.len() <= k
                        && crate::topk::stably_sorted(
                        crate::ivfflat::flat_kept(offers[p], k as nat),
                        results@[p]@,
                    ),
            decreases probes@.len() - q,
        {
            proof {
                let nq = probes@.len() as int;
                assert(0 <= q * d && q * d + d <= nq * d && (q + 1) * d == q * d + d)
                    by (nonlinear_arith)
                    requires
                        q + 1 <= nq,
                        0 <= d,
                ;
                assert forall|r: int| 0 <= r < probes@[q as int]@.len() implies
                    #[trigger] probes@[q as int]@[r] < self.nlist by {}
            }
            let query: &[u32] = slice_subrange(queries, q * d, q * d + d);
            let items = self.query_neighbors(query, &probes[q], filter, distance);
            if !can_tell_apart(&items, k) {
                assert(!crate::ivfflat::is_comparable(
                    vector_neighbors(
                        *distance,
                        *self,
                        crate::list_search::query_at(queries@, self.d as int, q as int),
                        probes@[q as int]@,
                        filter,
                        probes@[q as int]@.len(),
                    ),
                    k as nat,
                ));
                return None;
            }
            results.push(keep_nearest(&items, k));
            proof {
                offers = offers.push(items@);
            }
            q = q + 1;
        }
        let found = assemble_results(&results, k);
        proof {
            assert forall|q: int| 0 <= q < probes@.len() implies crate::ivfflat::is_comparable(
                vector_neighbors(
                    *distance,
                    *self,
                    crate::list_search::query_at(queries@, self.d as int, q),
                    (#[trigger] probes@[q])@,
                    filter,
                    probes@[q]@.len(),
                ),
                k as nat,
            ) && crate::ivfflat::flat_answer(
                vector_neighbors(
                    *distance,
                    *self,
                    crate::list_search::query_at(queries@, self.d as int, q),
                    probes@[q]@,
                    filter,
                    probes@[q]@.len(),
                ),
                found.0@,
                found.1@,
                q,
                k,
            ) by {
                assert(offers[q] == offers[q]);
                assert(crate::topk::stably_sorted(
                    crate::ivfflat::flat_kept(offers[q], k as nat),
                    results@[q]@,
                ));
            }
        }
        Some(found)
    }
}

} // verus!
