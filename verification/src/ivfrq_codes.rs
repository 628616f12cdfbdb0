//! Adding rows to an index that is held in memory, and searches over its codes.
use crate::filter::RowIdFilter;
use crate::ivfrq::IVFRQIndex;
use crate::ivfrq_batch::RowKey;
use crate::rq::RQVectorFactors;
use crate::rq_encode::LevelKernel;
use crate::rq_factors::TermStep;
use crate::rq_products::{RQQueryTerms, RowStep};
use crate::rq_query::RQQueryContext;
use crate::topk::{Neighbor, TopKHeap};
use vstd::multiset::Multiset;
use vstd::prelude::*;
use vstd::slice::slice_subrange;

verus! {

/// The code of a row of a list.
pub open spec fn held_code(index: IVFRQIndex, row: RowKey) -> Seq<u8> {
    let size = index.spec_code_size();
    index.codes@[row.0 as int]@.subrange(row.1 * size, (row.1 + 1) * size)
}

/// The distances of the rows of an index to a query.
pub open spec fn held_distances<G: Fn(RowStep) -> u32>(
    f: G,
    index: IVFRQIndex,
    context: RQQueryContext,
    terms: Seq<RQQueryTerms>,
) -> spec_fn(RowKey) -> u32 {
    |row: RowKey|
        crate::rq_products::code_distance(
            f,
            index.quantizer,
            context,
            held_code(index, row),
            index.factors@[row.0 as int]@[row.1 as int],
            terms[row.0 as int],
        )
}

/// The bounds of the rows of an index: rows of one bit have none.
pub open spec fn held_bounds<G: Fn(RowStep) -> u32>(
    f: G,
    index: IVFRQIndex,
    context: RQQueryContext,
    terms: Seq<RQQueryTerms>,
) -> spec_fn(RowKey, u32) -> bool {
    |row: RowKey, bound: u32|
        index.bits > 1 && bound == crate::rq_products::code_bound(
            f,
            index.quantizer,
            context,
            held_code(index, row),
            index.factors@[row.0 as int]@[row.1 as int].coarse,
            terms[row.0 as int],
        )
}

/// The distances of the taken rows of a list.
pub open spec fn taken_distances(
    distance: spec_fn(RowKey) -> u32,
    list: usize,
    taken: Seq<usize>,
) -> Seq<u32> {
    Seq::new(taken.len(), |i: int| distance((list, taken[i])))
}

/// A list was scanned row by row, with these bounds and distances.
pub open spec fn held_list_scanned<F: RowIdFilter>(
    before: TopKHeap,
    after: TopKHeap,
    list: usize,
    ids: Seq<i64>,
    filter: Option<&F>,
    bounded: bool,
    bounds: spec_fn(RowKey, u32) -> bool,
    distance: spec_fn(RowKey) -> u32,
) -> bool {
    exists|taken: Seq<usize>, moments: Seq<TopKHeap>| #[trigger]
        crate::pruned::row_by_row(
            before,
            after,
            ids,
            crate::pruned::eligible_rows(ids, filter),
            crate::ivfrq_trace::at_place(bounds, list),
            bounded,
            taken,
            taken_distances(distance, list, taken),
            moments,
            ids.len(),
        )
}

/// The probed lists were scanned one after the other; `states` are those of the
/// collection before each of the lists, and after the last.
pub open spec fn held_lists_scanned<F: RowIdFilter>(
    states: Seq<TopKHeap>,
    probes: Seq<usize>,
    lists: Seq<Vec<i64>>,
    filter: Option<&F>,
    bounded: bool,
    bounds: spec_fn(RowKey, u32) -> bool,
    distance: spec_fn(RowKey) -> u32,
) -> bool {
    &&& states.len() == probes.len() + 1
    &&& forall|r: int|
        0 <= r < probes.len() ==> held_list_scanned(
            states[r],
            states[r + 1],
            #[trigger] probes[r],
            lists[probes[r] as int]@,
            filter,
            bounded,
            bounds,
            distance,
        )
}

/// What closures that give these bounds and distances lead to.
proof fn lemma_closures_scan<
    F: RowIdFilter,
    B: Fn(usize, usize, usize) -> u32,
    E: Fn(usize, usize, usize) -> u32,
>(
    before: TopKHeap,
    after: TopKHeap,
    query: usize,
    list: usize,
    ids: Seq<i64>,
    filter: Option<&F>,
    bounded: bool,
    bound_of: B,
    distance_of: E,
    bounds: spec_fn(RowKey, u32) -> bool,
    distance: spec_fn(RowKey) -> u32,
)
    requires
        ids.len() <= usize::MAX,
        crate::ivfrq::list_scanned(
            before,
            after,
            query,
            list,
            ids,
            filter,
            bounded,
            bound_of,
            distance_of,
        ),
        forall|row: usize, x: u32|
            bounded && row < ids.len() && #[trigger] call_ensures(
                bound_of,
                (query, list, row),
                x,
            ) ==> bounds((list, row), x),
        forall|row: usize, x: u32|
            row < ids.len() && #[trigger] call_ensures(distance_of, (query, list, row), x) ==> x
                == distance((list, row)),
    ensures
        held_list_scanned(before, after, list, ids, filter, bounded, bounds, distance),
{
    let eligible = crate::pruned::eligible_rows(ids, filter);
    let given = crate::pruned::computed_bounds(bound_of, bounded, query, list);
    let held = crate::ivfrq_trace::at_place(bounds, list);
    let (taken, distances, moments) = choose|
        taken: Seq<usize>,
        distances: Seq<u32>,
        moments: Seq<TopKHeap>,
    | #[trigger]
        crate::pruned::row_by_row(
            before,
            after,
            ids,
            eligible,
            given,
            bounded,
            taken,
            distances,
            moments,
            ids.len(),
        ) && crate::ivfrq_search::measured(distance_of, query, list, taken, distances);
    assert forall|p: int, bound: u32|
        0 <= p < ids.len() && #[trigger] given(p, bound) implies held(p, bound) by {
        assert(call_ensures(bound_of, (query, list, p as usize), bound));
    }
    crate::pruned::lemma_row_by_row_widens(
        before,
        after,
        ids,
        eligible,
        given,
        held,
        bounded,
        taken,
        distances,
        moments,
        ids.len(),
    );
    assert(distances =~= taken_distances(distance, list, taken)) by {
        assert forall|i: int| 0 <= i < taken.len() implies distances[i] == distance(
            (list, taken[i]),
        ) by {
            assert(taken[i] < ids.len());
            assert(call_ensures(distance_of, (query, list, taken[i]), distances[i]));
        }
    }
}

/// A search of one query that started with nothing.
pub open spec fn held_search<F: RowIdFilter, G: Fn(RowStep) -> u32>(
    after: TopKHeap,
    offered: Multiset<Neighbor>,
    probes: Seq<usize>,
    index: IVFRQIndex,
    filter: Option<&F>,
    f: G,
    context: RQQueryContext,
    terms: Seq<RQQueryTerms>,
    k: usize,
) -> bool {
    let bounded = index.bits > 1;
    exists|empty: TopKHeap|
        {
            &&& empty.items() == Seq::<Neighbor>::empty()
            &&& empty.spec_k() == k
            &&& empty.max_distance() is None
            &&& #[trigger] crate::ivfrq_stored::rows_served(
                empty,
                after,
                Multiset::empty(),
                offered,
                probes,
                0,
                crate::ivfrq::index_lists(index.ids@),
                filter,
                held_bounds(f, index, context, terms),
                held_distances(f, index, context, terms),
            )
            &&& exists|states: Seq<TopKHeap>| #[trigger]
                held_lists_scanned(
                    states,
                    probes,
                    index.ids@,
                    filter,
                    bounded,
                    held_bounds(f, index, context, terms),
                    held_distances(f, index, context, terms),
                ) && states[0] == empty && states[probes.len() as int] == after
        }
}

/// Row `query` of the result holds what a search found: the items of its
/// collection by distance, equally far ones as they stand in it.
pub open spec fn held_answers<F: RowIdFilter, G: Fn(RowStep) -> u32>(
    ids: Seq<i64>,
    distances: Seq<u32>,
    query: int,
    probes: Seq<usize>,
    index: IVFRQIndex,
    filter: Option<&F>,
    f: G,
    context: RQQueryContext,
    terms: Seq<RQQueryTerms>,
    k: usize,
) -> bool {
    exists|after: TopKHeap, offered: Multiset<Neighbor>| #[trigger]
        held_search(after, offered, probes, index, filter, f, context, terms, k)
            && crate::session::answers(offered, ids, distances, query, k)
            && crate::scan::lists_sorted(after.items(), ids, distances, query, k)
}

impl IVFRQIndex {
    /// The code of a row.
    fn code_at(&self, list: usize, row: usize) -> (code: &[u8])
        requires
            self.well_formed(),
            list < self.nlist,
            row < self.ids@[list as int]@.len(),
        ensures
            code@ == held_code(*self, (list, row)),
            code@.len() == self.spec_code_size(),
    {
        let size: usize = self.quantizer.code_size();
        let codes = &self.codes[list];
        let total: usize = codes.len();
        proof {
            let count = self.ids@[list as int]@.len() as int;
            assert(self.codes@[list as int]@.len() == count * size);
            assert(0 <= row * size && row * size + size <= count * size && row * size + size == (row
                + 1) * size) by (nonlinear_arith)
                requires
                    row < count,
            ;
        }
        let start: usize = row * size;
        slice_subrange(codes.as_slice(), start, start + size)
    }

    /// What the distance of a row is at least.
    fn bound_at<G: Fn(RowStep) -> u32>(
        &self,
        context: &RQQueryContext,
        terms: RQQueryTerms,
        list: usize,
        row: usize,
        f: &G,
    ) -> (bound: u32)
        requires
            self.well_formed(),
            crate::rq_products::is_arithmetic(*f),
            context.byte_subset_sums@.len() == self.quantizer.spec_plane_size() * 256,
            list < self.nlist,
            row < self.ids@[list as int]@.len(),
        ensures
            bound == crate::rq_products::code_bound(
                *f,
                self.quantizer,
                *context,
                held_code(*self, (list, row)),
                self.factors@[list as int]@[row as int].coarse,
                terms,
            ),
    {
        proof {
            crate::rq_products::lemma_plane_within_code(self.quantizer);
        }
        assert(self.factors@[list as int]@.len() == self.ids@[list as int]@.len());
        let code = self.code_at(list, row);
        self.quantizer.code_bound(context, code, self.factors[list][row].coarse, terms, f)
    }

    /// The distance of a row.
    fn distance_at<G: Fn(RowStep) -> u32>(
        &self,
        context: &RQQueryContext,
        terms: RQQueryTerms,
        list: usize,
        row: usize,
        f: &G,
    ) -> (distance: u32)
        requires
            self.well_formed(),
            crate::rq_products::is_arithmetic(*f),
            context.byte_subset_sums@.len() == self.quantizer.spec_plane_size() * 256,
            list < self.nlist,
            row < self.ids@[list as int]@.len(),
        ensures
            distance == crate::rq_products::code_distance(
                *f,
                self.quantizer,
                *context,
                held_code(*self, (list, row)),
                self.factors@[list as int]@[row as int],
                terms,
            ),
    {
        assert(self.factors@[list as int]@.len() == self.ids@[list as int]@.len());
        let code = self.code_at(list, row);
        self.quantizer.code_distance(context, code, self.factors[list][row], terms, f)
    }

    /// The nearest rows of the probed lists that pass the filter: one row of
    /// `k` places per query, with the distances of their codes. `terms` holds
    /// the terms of each query and each list.
    pub fn search_codes<F: RowIdFilter, G: Fn(RowStep) -> u32>(
        &self,
        probes: &Vec<Vec<usize>>,
        contexts: &Vec<RQQueryContext>,
        terms: &Vec<Vec<RQQueryTerms>>,
        k: usize,
        filter: Option<&F>,
        f: &G,
    ) -> (out: (Vec<i64>, Vec<u32>))
        requires
            self.well_formed(),
            k * 2 + 2 <= usize::MAX,
            probes@.len() * k <= usize::MAX,
            crate::plan::probes_valid(probes@, self.nlist as nat),
            crate::ivfrq_batch::distinct_probes(probes@),
            crate::rq_products::is_arithmetic(*f),
            contexts@.len() == probes@.len(),
            forall|q: int|
                0 <= q < contexts@.len() ==> (#[trigger] contexts@[q]).byte_subset_sums@.len()
                    == self.quantizer.spec_plane_size() * 256,
            terms@.len() == probes@.len(),
            forall|q: int| 0 <= q < terms@.len() ==> (#[trigger] terms@[q])@.len() == self.nlist,
        ensures
            out.0@.len() == probes@.len() * k,
            out.1@.len() == probes@.len() * k,
            forall|q: int|
                0 <= q < probes@.len() ==> held_answers(
                    out.0@,
                    out.1@,
                    q,
                    (#[trigger] probes@[q])@,
                    *self,
                    filter,
                    *f,
                    contexts@[q],
                    terms@[q]@,
                    k,
                ),
    {
        let nq: usize = probes.len();
        let bound_of = |query: usize, list: usize, row: usize| -> (x: u32)
            requires
                query < nq,
                list < self.nlist,
                row < self.ids@[list as int]@.len(),
            ensures
                x == crate::rq_products::code_bound(
                    *f,
                    self.quantizer,
                    contexts@[query as int],
                    held_code(*self, (list, row)),
                    self.factors@[list as int]@[row as int].coarse,
                    terms@[query as int]@[list as int],
                ),
            { self.bound_at(&contexts[query], terms[query][list], list, row, f) };
        let distance_of = |query: usize, list: usize, row: usize| -> (x: u32)
            requires
                query < nq,
                list < self.nlist,
                row < self.ids@[list as int]@.len(),
            ensures
                x == held_distances(*f, *self, contexts@[query as int], terms@[query as int]@)(
                    (list, row),
                ),
            { self.distance_at(&contexts[query], terms[query][list], list, row, f) };
        let out = self.search_with_filter(probes, k, filter, &bound_of, &distance_of);
        proof {
            let loaded = crate::ivfrq::index_lists(self.ids@);
            assert forall|q: int| 0 <= q < probes@.len() implies held_answers(
                out.0@,
                out.1@,
                q,
                (#[trigger] probes@[q])@,
                *self,
                filter,
                *f,
                contexts@[q],
                terms@[q]@,
                k,
            ) by {
                let query = q as usize;
                let bounded = self.bits > 1;
                let (after, offered) = choose|after: TopKHeap, offered: Multiset<Neighbor>|
                    #[trigger]
                    crate::ivfrq::index_search(
                        after,
                        offered,
                        query,
                        probes@[q]@,
                        self.ids@,
                        filter,
                        bounded,
                        bound_of,
                        distance_of,
                        k,
                    ) && crate::session::answers(offered, out.0@, out.1@, q, k)
                        && crate::scan::lists_sorted(after.items(), out.0@, out.1@, q, k);
                let given = crate::ivfrq::list_bounds(bound_of, bounded, query);
                let bounds = held_bounds(*f, *self, contexts@[q], terms@[q]@);
                let distance = held_distances(*f, *self, contexts@[q], terms@[q]@);
                let empty = choose|empty: TopKHeap|
                    {
                        &&& empty.items() == Seq::<Neighbor>::empty()
                        &&& empty.spec_k() == k
                        &&& empty.max_distance() is None
                        &&& #[trigger] crate::ivfrq_batch::query_served(
                            empty,
                            after,
                            Multiset::empty(),
                            offered,
                            query,
                            probes@[q]@,
                            0,
                            loaded,
                            filter,
                            given,
                            distance_of,
                        )
                        &&& exists|states: Seq<TopKHeap>| #[trigger]
                            crate::ivfrq::lists_scanned(
                                states,
                                query,
                                probes@[q]@,
                                probes@[q]@.len(),
                                self.ids@,
                                filter,
                                bounded,
                                bound_of,
                                distance_of,
                            ) && states[0] == empty && states[probes@[q]@.len() as int] == after
                    };
                let states = choose|states: Seq<TopKHeap>| #[trigger]
                    crate::ivfrq::lists_scanned(
                        states,
                        query,
                        probes@[q]@,
                        probes@[q]@.len(),
                        self.ids@,
                        filter,
                        bounded,
                        bound_of,
                        distance_of,
                    ) && states[0] == empty && states[probes@[q]@.len() as int] == after;
                assert forall|r: int| 0 <= r < probes@[q]@.len() implies held_list_scanned(
                    states[r],
                    states[r + 1],
                    #[trigger] probes@[q]@[r],
                    self.ids@[probes@[q]@[r] as int]@,
                    filter,
                    bounded,
                    bounds,
                    distance,
                ) by {
                    let list = probes@[q]@[r];
                    assert(list < self.nlist);
                    assert(self.ids@[list as int].len() <= usize::MAX);
                    lemma_closures_scan(
                        states[r],
                        states[r + 1],
                        query,
                        list,
                        self.ids@[list as int]@,
                        filter,
                        bounded,
                        bound_of,
                        distance_of,
                        bounds,
                        distance,
                    );
                }
                assert(held_lists_scanned(
                    states,
                    probes@[q]@,
                    self.ids@,
                    filter,
                    bounded,
                    bounds,
                    distance,
                ));
                assert forall|row: RowKey, x: u32|
                    row.0 < loaded.len() && row.1 < loaded[row.0 as int].ids@.len()
                        && #[trigger] given(row, x) implies bounds(row, x) by {
                    assert(crate::pruned::computed_bounds(
                        bound_of,
                        bounded,
                        query,
                        row.0,
                    )(row.1 as int, x));
                    assert(row == (row.0, row.1));
                }
                crate::ivfrq_stored::lemma_closures_serve(
                    empty,
                    after,
                    Multiset::empty(),
                    offered,
                    query,
                    probes@[q]@,
                    0,
                    loaded,
                    filter,
                    given,
                    distance_of,
                    bounds,
                    distance,
                );
                assert(held_search(
                    after,
                    offered,
                    probes@[q]@,
                    *self,
                    filter,
                    *f,
                    contexts@[q],
                    terms@[q]@,
                    k,
                ));
            }
        }
        out
    }
}

/// Codes and factors of rows in the lists they are assigned to.
pub open spec fn encodes_rows<
    A: Fn(u32, u32) -> u32,
    S: Fn(u32, u32) -> u32,
    E: Fn(u32) -> u32,
    B: Fn(u32) -> u32,
    L: Fn(u32, u32) -> u8,
    C: Fn(u8) -> u32,
    M: Fn(u32, u32, u32) -> u32,
    R: Fn(u32, u32) -> u32,
    F: Fn(TermStep) -> u32,
>(
    index: IVFRQIndex,
    add: A,
    subtract: S,
    eighth: E,
    kernel: LevelKernel<B, L, C, M, R>,
    f: F,
    assignments: Seq<usize>,
    rows: Seq<u32>,
    codes: Seq<u8>,
    factors: Seq<RQVectorFactors>,
) -> bool {
    let size = index.spec_code_size();
    &&& codes.len() == assignments.len() * size
    &&& factors.len() == assignments.len()
    &&& forall|i: int|
        0 <= i < assignments.len() ==> crate::ivfrq::is_row_code(
            index,
            add,
            subtract,
            eighth,
            kernel,
            f,
            crate::list_search::query_at(rows, index.d as int, i),
            assignments[i] as int,
            codes.subrange(i * size, (i + 1) * size),
            #[trigger] factors[i],
        )
}

/// The index holds the added rows behind the ones it held, in the lists they
/// are assigned to.
pub open spec fn is_added(
    before: IVFRQIndex,
    after: IVFRQIndex,
    assignments: Seq<usize>,
    ids: Seq<i64>,
    codes: Seq<u8>,
    factors: Seq<RQVectorFactors>,
) -> bool {
    &&& after.well_formed()
    &&& after.d == before.d
    &&& after.padded_d == before.padded_d
    &&& after.nlist == before.nlist
    &&& after.bits == before.bits
    &&& after.metric == before.metric
    &&& after.quantizer_centroids == before.quantizer_centroids
    &&& after.quantizer_centroid_norms == before.quantizer_centroid_norms
    &&& after.rotated_centroids == before.rotated_centroids
    &&& after.rotation_seed == before.rotation_seed
    &&& after.rotation_rounds == before.rotation_rounds
    &&& after.quantizer == before.quantizer
    &&& after.rotation == before.rotation
    &&& forall|l: int|
        0 <= l < before.nlist ==> (#[trigger] after.ids@[l])@ == before.ids@[l]@
            + crate::lists::gathered_rows(
            ids,
            crate::lists::rows_of(assignments, l, assignments.len()),
            1,
        )
    &&& forall|l: int|
        0 <= l < before.nlist ==> (#[trigger] after.codes@[l])@ == before.codes@[l]@
            + crate::lists::gathered_rows(
            codes,
            crate::lists::rows_of(assignments, l, assignments.len()),
            before.spec_code_size() as nat,
        )
    &&& forall|l: int|
        0 <= l < before.nlist ==> (#[trigger] after.factors@[l])@ == before.factors@[l]@
            + crate::lists::gathered_rows(
            factors,
            crate::lists::rows_of(assignments, l, assignments.len()),
            1,
        )
}

impl IVFRQIndex {
    /// Encodes rows and appends them to the lists they are assigned to.
    pub fn add_vectors<
        A: Fn(u32, u32) -> u32,
        S: Fn(u32, u32) -> u32,
        E: Fn(u32) -> u32,
        B: Fn(u32) -> u32,
        L: Fn(u32, u32) -> u8,
        C: Fn(u8) -> u32,
        M: Fn(u32, u32, u32) -> u32,
        R: Fn(u32, u32) -> u32,
        F: Fn(TermStep) -> u32,
    >(
        &mut self,
        assignments: &[usize],
        ids: &[i64],
        rows: &[u32],
        add: &A,
        subtract: &S,
        eighth: &E,
        kernel: &LevelKernel<B, L, C, M, R>,
        f: &F,
    )
        requires
            old(self).well_formed(),
            old(self).quantizer_centroids@.len() == old(self).nlist * old(self).d,
            old(self).rotated_centroids@.len() == old(self).nlist * old(self).padded_d,
            ids@.len() == assignments@.len(),
            rows@.len() == assignments@.len() * old(self).d,
            forall|i: int|
                0 <= i < assignments@.len() ==> #[trigger] assignments@[i] < old(self).nlist,
            crate::float_ops::is_operation(*add),
            crate::float_ops::is_operation(*subtract),
            crate::float_ops::is_map(*eighth),
            crate::rq_encode::is_level_kernel(*kernel),
            crate::rq_factors::is_arithmetic(*f),
        ensures
            exists|codes: Seq<u8>, factors: Seq<RQVectorFactors>| #[trigger]
                encodes_rows(
                    *old(self),
                    *add,
                    *subtract,
                    *eighth,
                    *kernel,
                    *f,
                    assignments@,
                    rows@,
                    codes,
                    factors,
                ) && is_added(*old(self), *final(self), assignments@, ids@, codes, factors),
    {
        let d: usize = self.d;
        let total: usize = rows.len();
        let ghost size = self.spec_code_size() as int;
        let mut codes: Vec<u8> = Vec::new();
        let mut factors: Vec<RQVectorFactors> = Vec::new();
        assert(0 * size == 0) by (nonlinear_arith);
        let mut i: usize = 0;
        while i < assignments.len()
            invariant
                i <= assignments@.len(),
                d == self.d,
                total == rows@.len(),
                *self == *old(self),
                self.well_formed(),
                self.quantizer_centroids@.len() == self.nlist * self.d,
                self.rotated_centroids@.len() == self.nlist * self.padded_d,
                rows@.len() == assignments@.len() * d,
                forall|j: int|
                    0 <= j < assignments@.len() ==> #[trigger] assignments@[j] < self.nlist,
                crate::float_ops::is_operation(*add),
                crate::float_ops::is_operation(*subtract),
                crate::float_ops::is_map(*eighth),
                crate::rq_encode::is_level_kernel(*kernel),
                crate::rq_factors::is_arithmetic(*f),
                size == self.spec_code_size(),
                size >= 0,
                codes@.len() == i * size,
                factors@.len() == i,
                forall|j: int|
                    0 <= j < i ==> crate::ivfrq::is_row_code(
                        *self,
                        *add,
                        *subtract,
                        *eighth,
                        *kernel,
                        *f,
                        crate::list_search::query_at(rows@, d as int, j),
                        assignments@[j] as int,
                        codes@.subrange(j * size, (j + 1) * size),
                        #[trigger] factors@[j],
                    ),
            decreases assignments@.len() - i,
        {
            let ghost before = codes@;
            let ghost before_factors = factors@;
            proof {
                let n = assignments@.len() as int;
                assert(0 <= i * d && i * d + d <= n * d && (i + 1) * d == i * d + d)
                    by (nonlinear_arith)
                    requires
                        i + 1 <= n,
                        0 <= d,
                ;
                assert((i + 1) * size == i * size + size) by (nonlinear_arith);
            }
            let row: &[u32] = slice_subrange(rows, i * d, i * d + d);
            let (mut code, own) = self.encode_row(
                row,
                assignments[i],
                add,
                subtract,
                eighth,
                kernel,
                f,
            );
            let ghost added = code@;
            codes.append(&mut code);
            factors.push(own);
            proof {
                assert(codes@ == before + added);
                assert forall|j: int| 0 <= j < i + 1 implies crate::ivfrq::is_row_code(
                    *self,
                    *add,
                    *subtract,
                    *eighth,
                    *kernel,
                    *f,
                    crate::list_search::query_at(rows@, d as int, j),
                    assignments@[j] as int,
                    codes@.subrange(j * size, (j + 1) * size),
                    #[trigger] factors@[j],
                ) by {
                    if j < i {
                        assert(0 <= j * size && (j + 1) * size <= i * size && j * size <= (j + 1)
                            * size) by (nonlinear_arith)
                            requires
                                0 <= j < i,
                                0 <= size,
                        ;
                        assert(factors@[j] == before_factors[j]);
                        assert(codes@.subrange(j * size, (j + 1) * size) =~= before.subrange(
                            j * size,
                            (j + 1) * size,
                        ));
                    } else {
                        assert(codes@.subrange(j * size, (j + 1) * size) =~= added);
                    }
                }
            }
            i = i + 1;
        }
        assert(encodes_rows(
            *old(self),
            *add,
            *subtract,
            *eighth,
            *kernel,
            *f,
            assignments@,
            rows@,
            codes@,
            factors@,
        ));
        self.add(assignments, ids, codes.as_slice(), factors.as_slice());
        assert(is_added(*old(self), *self, assignments@, ids@, codes@, factors@));
    }
}

} // verus!
