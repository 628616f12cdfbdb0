//! Adding scalar-quantized rows to an index, and searches over its codes.
use crate::filter::RowIdFilter;
use crate::float_ops::operate;
use crate::ivfsq::IVFSQIndex;
use crate::list_search::{is_matching, match_lists, search_measured};
use crate::matching::MatchingRows;
use crate::sq::ScalarQuantizer;
use crate::sq_distance::DistanceKernel;
use vstd::prelude::*;
use vstd::slice::slice_subrange;

verus! {

/// The function gives every code a value within a range, always the same one.
pub open spec fn is_placing<P: Fn(u8, u32, u32) -> u32>(place: P) -> bool {
    &&& forall|code: u8, min: u32, max: u32| #[trigger] call_requires(place, (code, min, max))
    &&& forall|code: u8, min: u32, max: u32, x: u32, y: u32| #[trigger]
        call_ensures(place, (code, min, max), x) && #[trigger] call_ensures(
            place,
            (code, min, max),
            y,
        ) ==> x == y
}

/// The values of a code.
pub open spec fn decoded<P: Fn(u8, u32, u32) -> u32>(
    place: P,
    sq: ScalarQuantizer,
    code: Seq<u8>,
) -> Seq<u32> {
    Seq::new(
        sq.d as nat,
        |dim: int|
            if crate::sq::at_least(sq.mins@[dim], sq.maxs@[dim]) {
                sq.mins@[dim]
            } else {
                choose|x: u32| call_ensures(place, (code[dim], sq.mins@[dim], sq.maxs@[dim]), x)
            },
    )
}

/// The quantizer of a list: its own, or the one of the index.
pub open spec fn quantizer_of(index: IVFSQIndex, list: int) -> ScalarQuantizer {
    if list < index.list_sqs@.len() {
        index.list_sqs@[list]
    } else {
        index.sq
    }
}

/// The code of a row of a list.
pub open spec fn code_of(index: IVFSQIndex, list: int, row: int) -> Seq<u8> {
    index.codes@[list]@.subrange(row * index.d, (row + 1) * index.d)
}

/// The distance of a row of a list to a query: codes stand for residuals from
/// the centroid of their list.
pub open spec fn coded_distance<
    P: Fn(u8, u32, u32) -> u32,
    A: Fn(u32, u32) -> u32,
    D: Fn(u32, u32, u32) -> u32,
    M: Fn(u32, u32, u32) -> u32,
    N: Fn(u32) -> u32,
    R: Fn(u32) -> u32,
    C: Fn(u32, u32, u32) -> u32,
>(
    place: P,
    kernel: DistanceKernel<A, D, M, N, R, C>,
    index: IVFSQIndex,
    query: Seq<u32>,
    list: int,
    row: int,
) -> u32 {
    let norm = crate::sq_distance::query_norm_of(
        kernel.product_step,
        kernel.root,
        index.metric,
        query,
    );
    crate::sq_distance::distance_to_values(
        kernel,
        index.metric,
        norm,
        query,
        crate::sq_distance::moved_values(
            kernel.add,
            decoded(place, quantizer_of(index, list), code_of(index, list, row)),
            Some(index.quantizer_centroids@.subrange(list * index.d, (list + 1) * index.d)),
        ),
    )
}

/// The distances of the rows of the probed lists to a query.
pub open spec fn held_measures<
    P: Fn(u8, u32, u32) -> u32,
    A: Fn(u32, u32) -> u32,
    D: Fn(u32, u32, u32) -> u32,
    M: Fn(u32, u32, u32) -> u32,
    N: Fn(u32) -> u32,
    R: Fn(u32) -> u32,
    C: Fn(u32, u32, u32) -> u32,
>(
    place: P,
    kernel: DistanceKernel<A, D, M, N, R, C>,
    index: IVFSQIndex,
    query: Seq<u32>,
    probes: Seq<usize>,
) -> spec_fn(int, int, u32) -> bool {
    |r: int, row: int, distance: u32|
        distance == coded_distance(place, kernel, index, query, probes[r] as int, row)
}

/// The distances of the rows of the probed lists to each query.
pub open spec fn batch_measures<
    P: Fn(u8, u32, u32) -> u32,
    A: Fn(u32, u32) -> u32,
    D: Fn(u32, u32, u32) -> u32,
    M: Fn(u32, u32, u32) -> u32,
    N: Fn(u32) -> u32,
    R: Fn(u32) -> u32,
    C: Fn(u32, u32, u32) -> u32,
>(
    place: P,
    kernel: DistanceKernel<A, D, M, N, R, C>,
    index: IVFSQIndex,
    queries: Seq<u32>,
    probes: Seq<Vec<usize>>,
) -> spec_fn(int) -> spec_fn(int, int, u32) -> bool {
    |q: int|
        held_measures(
            place,
            kernel,
            index,
            crate::list_search::query_at(queries, index.d as int, q),
            probes[q]@,
        )
}

/// There is a centroid and a quantizer for each list.
pub open spec fn is_searchable(index: IVFSQIndex) -> bool {
    &&& index.well_formed()
    &&& index.quantizer_centroids@.len() == index.nlist * index.d
    &&& forall|l: int|
        0 <= l < index.list_sqs@.len() ==> (#[trigger] index.list_sqs@[l]).well_formed()
            && index.list_sqs@[l].d == index.d
}

impl IVFSQIndex {
    /// The distances of the rows of a list that pass the filter.
    fn list_distances<
        F: RowIdFilter,
        P: Fn(u8, u32, u32) -> u32,
        A: Fn(u32, u32) -> u32,
        D: Fn(u32, u32, u32) -> u32,
        M: Fn(u32, u32, u32) -> u32,
        N: Fn(u32) -> u32,
        R: Fn(u32) -> u32,
        C: Fn(u32, u32, u32) -> u32,
    >(
        &self,
        query: &[u32],
        list: usize,
        rows: &Vec<MatchingRows>,
        filter: Option<&F>,
        place: &P,
        kernel: &DistanceKernel<A, D, M, N, R, C>,
    ) -> (distances: Vec<u32>)
        requires
            is_searchable(*self),
            is_placing(*place),
            crate::sq_distance::is_distance_kernel(*kernel),
            query@.len() == self.d,
            list < self.nlist,
            filter is Some ==> list < rows@.len() && crate::session::rows_match(
                self.ids@[list as int]@,
                Some(rows@[list as int]),
                filter,
            ),
        ensures
            distances@.len() == self.ids@[list as int]@.len(),
            forall|row: int|
                0 <= row < distances@.len() && crate::filter::row_allowed(
                    filter,
                    self.ids@[list as int]@[row],
                ) ==> #[trigger] distances@[row] == coded_distance(
                    *place,
                    *kernel,
                    *self,
                    query@,
                    list as int,
                    row,
                ),
    {
        let d: usize = self.d;
        let nlist: usize = self.nlist;
        let sq = self.list_sq(list);
        let codes = &self.codes[list];
        let total: usize = codes.len();
        let count: usize = self.ids[list].len();
        proof {
            assert((list + 1) * d <= nlist * d) by (nonlinear_arith)
                requires
                    list + 1 <= nlist,
            ;
            assert(query@.take(d as int) =~= query@);
            assert((list + 1) * d == list * d + d && 0 <= list * d) by (nonlinear_arith);
        }
        let centroid = self.list_centroid(list);
        let context = sq.distance_context(
            query,
            self.metric,
            &kernel.product_step,
            &kernel.root,
        );
        let mut distances: Vec<u32> = Vec::new();
        let mut row: usize = 0;
        while row < count
            invariant
                row <= count,
                count == self.ids@[list as int]@.len(),
                d == self.d,
                list < self.nlist,
                filter is Some ==> list < rows@.len() && crate::session::rows_match(
                    self.ids@[list as int]@,
                    Some(rows@[list as int]),
                    filter,
                ),
                query@.len() == d,
                is_searchable(*self),
                is_placing(*place),
                crate::sq_distance::is_distance_kernel(*kernel),
                *sq == quantizer_of(*self, list as int),
                codes@ == self.codes@[list as int]@,
                total == codes@.len(),
                total == count * d,
                centroid@ == self.quantizer_centroids@.subrange(list * d, (list + 1) * d),
                centroid@.len() == d,
                context.spec_metric() == self.metric,
                context.spec_norm() == (if self.metric == crate::distance::MetricType::Cosine {
                    crate::float_ops::image_of(
                        kernel.root,
                        crate::pq_tables::accumulated(
                            kernel.product_step,
                            0u32,
                            query@,
                            0,
                            query@,
                            0,
                            d as nat,
                        ),
                    )
                } else {
                    0u32
                }),
                distances@.len() == row,
                forall|i: int|
                    0 <= i < row && crate::filter::row_allowed(
                        filter,
                        self.ids@[list as int]@[i],
                    ) ==> #[trigger] distances@[i] == coded_distance(
                        *place,
                        *kernel,
                        *self,
                        query@,
                        list as int,
                        i,
                    ),
            decreases count - row,
        {
            let mut distance: u32 = 0;
            if is_matching(rows, list, row, filter, Ghost(self.ids@[list as int]@)) {
                assert(0 <= row * d && row * d + d <= count * d && (row + 1) * d == row * d + d)
                    by (nonlinear_arith)
                    requires
                        row + 1 <= count,
                ;
                let code: &[u8] = slice_subrange(codes.as_slice(), row * d, row * d + d);
                distance = sq.distance_to_code_with_offset_with_context(
                    query,
                    code,
                    Some(centroid),
                    context,
                    place,
                    kernel,
                );
                proof {
                    let expected = decoded(*place, *sq, code@);
                    let values = choose|values: Seq<u32>| #[trigger]
                        sq.is_decoded(*place, code@, values) && distance
                            == crate::sq_distance::distance_to_values(
                            *kernel,
                            context.spec_metric(),
                            context.spec_norm(),
                            query@,
                            crate::sq_distance::moved_values(
                                kernel.add,
                                values,
                                Some(centroid@),
                            ),
                        );
                    assert forall|dim: int| 0 <= dim < sq.d implies values[dim]
                        == expected[dim] by {
                        assert(sq.decodes(*place, code@[dim], dim, values[dim]));
                    }
                    assert(values =~= expected);
                    assert(code@ == code_of(*self, list as int, row as int));
                }
            }
            distances.push(distance);
            row = row + 1;
        }
        distances
    }

    /// The nearest rows of the probed lists that pass the filter: one row of
    /// `k` places per query, with the distances of their codes. There is no
    /// answer where such a row has a NaN for a distance.
    pub fn search_codes<
        F: RowIdFilter,
        P: Fn(u8, u32, u32) -> u32,
        A: Fn(u32, u32) -> u32,
        D: Fn(u32, u32, u32) -> u32,
        M: Fn(u32, u32, u32) -> u32,
        N: Fn(u32) -> u32,
        R: Fn(u32) -> u32,
        C: Fn(u32, u32, u32) -> u32,
    >(
        &self,
        queries: &[u32],
        probes: &Vec<Vec<usize>>,
        k: usize,
        filter: Option<&F>,
        place: &P,
        kernel: &DistanceKernel<A, D, M, N, R, C>,
    ) -> (out: Option<(Vec<i64>, Vec<u32>)>)
        requires
            is_searchable(*self),
            is_placing(*place),
            crate::sq_distance::is_distance_kernel(*kernel),
            queries@.len() == probes@.len() * self.d,
            crate::plan::probes_valid(probes@, self.nlist as nat),
            k * 2 + 2 <= usize::MAX,
            probes@.len() * k <= usize::MAX,
        ensures
            out is None <==> exists|q: int|
                0 <= q < probes@.len() && crate::list_search::measures_nan(
                    self.ids@,
                    (#[trigger] probes@[q])@,
                    filter,
                    held_measures(
                        *place,
                        *kernel,
                        *self,
                        crate::list_search::query_at(queries@, self.d as int, q),
                        probes@[q]@,
                    ),
                ),
            out matches Some(found) ==> {
                &&& found.0@.len() == probes@.len() * k
                &&& found.1@.len() == probes@.len() * k
                &&& forall|q: int|
                    0 <= q < probes@.len() ==> crate::list_search::measured_answer(
                        self.ids@,
                        (#[trigger] probes@[q])@,
                        filter,
                        held_measures(
                            *place,
                            *kernel,
                            *self,
                            crate::list_search::query_at(queries@, self.d as int, q),
                            probes@[q]@,
                        ),
                        found.0@,
                        found.1@,
                        q,
                        k,
                    )
            },
    {
        let ghost measures = batch_measures(*place, *kernel, *self, queries@, probes@);
        let rows = match_lists(&self.ids, probes, filter);
        let distances = self.probe_distances(queries, probes, &rows, filter, place, kernel);
        let out = search_measured(&self.ids, probes, &rows, &distances, k, filter, Ghost(measures));
        proof {
            if out is Some {
                assert forall|q: int| 0 <= q < probes@.len() implies
                    !crate::list_search::measures_nan(
                    self.ids@,
                    (#[trigger] probes@[q])@,
                    filter,
                    measures(q),
                ) by {
                    let measured = choose|measured: Seq<Vec<u32>>|
                        #[trigger] crate::list_search::are_measured(
                            self.ids@,
                            probes@[q]@,
                            measured,
                            filter,
                            measures(q),
                        ) && crate::list_search::probes_fit(
                            self.ids@,
                            probes@[q]@,
                            measured,
                            filter,
                        );
                    crate::list_search::law_numbers_are_no_nans(
                        self.ids@,
                        probes@[q]@,
                        measured,
                        filter,
                        measures(q),
                    );
                }
            }
        }
        out
    }

    /// The distances of the rows of each query's probed lists, as far as the
    /// rows pass the filter; the other rows have no particular distance.
    fn probe_distances<
        F: RowIdFilter,
        P: Fn(u8, u32, u32) -> u32,
        A: Fn(u32, u32) -> u32,
        D: Fn(u32, u32, u32) -> u32,
        M: Fn(u32, u32, u32) -> u32,
        N: Fn(u32) -> u32,
        R: Fn(u32) -> u32,
        C: Fn(u32, u32, u32) -> u32,
    >(
        &self,
        queries: &[u32],
        probes: &Vec<Vec<usize>>,
        rows: &Vec<MatchingRows>,
        filter: Option<&F>,
        place: &P,
        kernel: &DistanceKernel<A, D, M, N, R, C>,
    ) -> (distances: Vec<Vec<Vec<u32>>>)
        requires
            is_searchable(*self),
            is_placing(*place),
            crate::sq_distance::is_distance_kernel(*kernel),
            queries@.len() == probes@.len() * self.d,
            crate::plan::probes_valid(probes@, self.nlist as nat),
            crate::list_search::rows_cover(self.ids@, probes@, rows@, filter),
        ensures
            distances@.len() == probes@.len(),
            forall|q: int|
                0 <= q < probes@.len() ==> crate::list_search::are_measured(
                    self.ids@,
                    (#[trigger] probes@[q])@,
                    distances@[q]@,
                    filter,
                    held_measures(
                        *place,
                        *kernel,
                        *self,
                        crate::list_search::query_at(queries@, self.d as int, q),
                        probes@[q]@,
                    ),
                ),
    {
        let d: usize = self.d;
        let total: usize = queries.len();
        let ghost measures = batch_measures(*place, *kernel, *self, queries@, probes@);
        let mut distances: Vec<Vec<Vec<u32>>> = Vec::new();
        let mut q: usize = 0;
        while q < probes.len()
            invariant
                q <= probes@.len(),
                d == self.d,
                total == queries@.len(),
                is_searchable(*self),
                is_placing(*place),
                crate::sq_distance::is_distance_kernel(*kernel),
                queries@.len() == probes@.len() * self.d,
                crate::plan::probes_valid(probes@, self.nlist as nat),
                crate::list_search::rows_cover(self.ids@, probes@, rows@, filter),
                measures == batch_measures(*place, *kernel, *self, queries@, probes@),
                distances@.len() == q,
                forall|p: int|
                    0 <= p < q ==> crate::list_search::are_measured(
                        self.ids@,
                        probes@[p]@,
                        (#[trigger] distances@[p])@,
                        filter,
                        measures(p),
                    ),
            decreases probes@.len() - q,
        {
            proof {
                let nq = probes@.len() as int;
                assert(0 <= q * d && q * d + d <= nq * d && (q + 1) * d == q * d + d)
                    by (nonlinear_arith)
                    requires
                        q + 1 <= nq,
                        0 <= d,
                ;
            }
            let query: &[u32] = slice_subrange(queries, q * d, q * d + d);
            let own = &probes[q];
            let ghost measure = measures(q as int);
            let mut found: Vec<Vec<u32>> = Vec::new();
            let mut r: usize = 0;
            while r < own.len()
                invariant
                    r <= own@.len(),
                    q < probes@.len(),
                    own@ == probes@[q as int]@,
                    is_searchable(*self),
                    is_placing(*place),
                    crate::sq_distance::is_distance_kernel(*kernel),
                    crate::plan::probes_valid(probes@, self.nlist as nat),
                    crate::list_search::rows_cover(self.ids@, probes@, rows@, filter),
                    query@.len() == self.d,
                    measure == held_measures(*place, *kernel, *self, query@, own@),
                    found@.len() == r,
                    forall|i: int|
                        0 <= i < r ==> (#[trigger] found@[i])@.len()
                            == self.ids@[own@[i] as int]@.len(),
                    forall|i: int, row: int|
                        0 <= i < r && 0 <= row < self.ids@[own@[i] as int]@.len()
                            && crate::filter::row_allowed(filter, self.ids@[own@[i] as int]@[row])
                            ==> measure(i, row, #[trigger] found@[i]@[row]),
                decreases own@.len() - r,
            {
                assert(probes@[q as int]@[r as int] < self.nlist);
                found.push(self.list_distances(query, own[r], rows, filter, place, kernel));
                r = r + 1;
            }
            distances.push(found);
            q = q + 1;
        }
        proof {
            assert forall|q: int| 0 <= q < probes@.len() implies
                crate::list_search::are_measured(
                self.ids@,
                (#[trigger] probes@[q])@,
                distances@[q]@,
                filter,
                measures(q),
            ) by {
                assert(distances@[q]@ == distances@[q]@);
            }
        }
        distances
    }
}

/// Codes of rows in the lists they are assigned to: each list's quantizer
/// encodes the residuals from its centroid.
pub open spec fn encodes_rows<S: Fn(u32, u32) -> u32, Q: Fn(u32, u32, u32) -> u8>(
    subtract: S,
    scale: Q,
    index: IVFSQIndex,
    assignments: Seq<usize>,
    rows: Seq<u32>,
    codes: Seq<u8>,
) -> bool {
    &&& codes.len() == assignments.len() * index.d
    &&& forall|i: int, dim: int|
        #![trigger codes[i * index.d + dim]]
        0 <= i < assignments.len() && 0 <= dim < index.d ==> quantizer_of(
            index,
            assignments[i] as int,
        ).encodes(
            scale,
            crate::float_ops::result_of(
                subtract,
                rows[i * index.d + dim],
                index.quantizer_centroids@[assignments[i] * index.d + dim],
            ),
            dim,
            codes[i * index.d + dim],
        )
}

/// The index holds the added rows behind the ones it held, in the lists they
/// are assigned to.
pub open spec fn is_added(
    before: IVFSQIndex,
    after: IVFSQIndex,
    assignments: Seq<usize>,
    ids: Seq<i64>,
    codes: Seq<u8>,
) -> bool {
    &&& after.well_formed()
    &&& after.d == before.d
    &&& after.nlist == before.nlist
    &&& after.metric == before.metric
    &&& after.quantizer_centroids == before.quantizer_centroids
    &&& after.approximate_assignment == before.approximate_assignment
    &&& after.sq == before.sq
    &&& after.list_sqs == before.list_sqs
    &&& forall|l: int|
        0 <= l < before.nlist ==> (#[trigger] after.ids@[l])@ == before.ids@[l]@
            + crate::lists::gathered_rows(
            ids,
            crate::lists::rows_of(assignments, l, assignments.len()),
            1,
        )
    &&& forall|l: int|
        0 <= l < before.nlist ==> (#[trigger] after.codes@[l])@ == before.codes@[l]@
            + crate::lists::gathered_rows(
            codes,
            crate::lists::rows_of(assignments, l, assignments.len()),
            before.d as nat,
        )
}

impl IVFSQIndex {
    /// The code of row `row` in a list.
    fn encode_row<S: Fn(u32, u32) -> u32, Q: Fn(u32, u32, u32) -> u8>(
        &self,
        rows: &[u32],
        row: usize,
        list: usize,
        subtract: &S,
        scale: &Q,
    ) -> (code: Vec<u8>)
        requires
            is_searchable(*self),
            list < self.nlist,
            (row + 1) * self.d <= rows@.len(),
            crate::float_ops::is_operation(*subtract),
            forall|value: u32, min: u32, max: u32| #[trigger]
                call_requires(*scale, (value, min, max)),
        ensures
            code@.len() == self.d,
            forall|dim: int|
                0 <= dim < self.d ==> quantizer_of(*self, list as int).encodes(
                    *scale,
                    crate::float_ops::result_of(
                        *subtract,
                        rows@[row * self.d + dim],
                        self.quantizer_centroids@[list * self.d + dim],
                    ),
                    dim,
                    #[trigger] code@[dim],
                ),
    {
        let d: usize = self.d;
        let nlist: usize = self.nlist;
        proof {
            assert((list + 1) * d <= nlist * d) by (nonlinear_arith)
                requires
                    list + 1 <= nlist,
            ;
            assert((list + 1) * d == list * d + d && 0 <= list * d) by (nonlinear_arith);
        }
        let centroid = self.list_centroid(list);
        let residual = |value: u32, dim: usize| -> (x: u32)
            requires
                dim < d,
            ensures
                x == crate::float_ops::result_of(*subtract, value, centroid@[dim as int]),
            { operate(subtract, value, centroid[dim]) };
        let places: [usize; 1] = [row];
        let code = self.list_sq(list).encode_residual_rows(
            rows,
            places.as_slice(),
            &residual,
            scale,
        );
        proof {
            let sq = quantizer_of(*self, list as int);
            assert(1 * d == d) by (nonlinear_arith);
            assert forall|dim: int| 0 <= dim < d implies sq.encodes(
                *scale,
                crate::float_ops::result_of(
                    *subtract,
                    rows@[row * d + dim],
                    self.quantizer_centroids@[list * d + dim],
                ),
                dim,
                #[trigger] code@[dim],
            ) by {
                assert(0 * sq.d + dim == dim) by (nonlinear_arith);
                assert(code@[0 * sq.d + dim] == code@[dim]);
                assert(sq.encodes_residual(
                    residual,
                    *scale,
                    rows@[row * d + dim],
                    dim,
                    code@[dim],
                ));
            }
        }
        code
    }

    /// The codes of rows in the lists they are assigned to.
    pub fn encode_vectors<S: Fn(u32, u32) -> u32, Q: Fn(u32, u32, u32) -> u8>(
        &self,
        assignments: &[usize],
        rows: &[u32],
        subtract: &S,
        scale: &Q,
    ) -> (codes: Vec<u8>)
        requires
            is_searchable(*self),
            rows@.len() == assignments@.len() * self.d,
            forall|i: int| 0 <= i < assignments@.len() ==> #[trigger] assignments@[i] < self.nlist,
            crate::float_ops::is_operation(*subtract),
            forall|value: u32, min: u32, max: u32| #[trigger]
                call_requires(*scale, (value, min, max)),
        ensures
            encodes_rows(*subtract, *scale, *self, assignments@, rows@, codes@),
    {
        let d: usize = self.d;
        let mut codes: Vec<u8> = Vec::new();
        assert(0 * d == 0) by (nonlinear_arith);
        let mut i: usize = 0;
        while i < assignments.len()
            invariant
                i <= assignments@.len(),
                d == self.d,
                is_searchable(*self),
                rows@.len() == assignments@.len() * self.d,
                forall|j: int|
                    0 <= j < assignments@.len() ==> #[trigger] assignments@[j] < self.nlist,
                crate::float_ops::is_operation(*subtract),
                forall|value: u32, min: u32, max: u32| #[trigger]
                    call_requires(*scale, (value, min, max)),
                codes@.len() == i * d,
                forall|j: int, dim: int|
                    #![trigger codes@[j * d + dim]]
                    0 <= j < i && 0 <= dim < d ==> quantizer_of(
                        *self,
                        assignments@[j] as int,
                    ).encodes(
                        *scale,
                        crate::float_ops::result_of(
                            *subtract,
                            rows@[j * d + dim],
                            self.quantizer_centroids@[assignments@[j] * d + dim],
                        ),
                        dim,
                        codes@[j * d + dim],
                    ),
            decreases assignments@.len() - i,
        {
            let list: usize = assignments[i];
            let ghost before = codes@;
            proof {
                let n = assignments@.len() as int;
                assert((i + 1) * d <= n * d) by (nonlinear_arith)
                    requires
                        i + 1 <= n,
                        0 <= d,
                ;
                assert((i + 1) * d == i * d + d) by (nonlinear_arith);
            }
            let mut code = self.encode_row(rows, i, list, subtract, scale);
            let ghost own = code@;
            codes.append(&mut code);
            proof {
                assert(codes@ == before + own);
                assert forall|j: int, dim: int|
                    #![trigger codes@[j * d + dim]]
                    0 <= j < i + 1 && 0 <= dim < d implies quantizer_of(
                    *self,
                    assignments@[j] as int,
                ).encodes(
                    *scale,
                    crate::float_ops::result_of(
                        *subtract,
                        rows@[j * d + dim],
                        self.quantizer_centroids@[assignments@[j] * d + dim],
                    ),
                    dim,
                    codes@[j * d + dim],
                ) by {
                    if j < i {
                        assert(0 <= j * d && j * d + dim < i * d) by (nonlinear_arith)
                            requires
                                0 <= j < i,
                                0 <= dim < d,
                        ;
                        assert(codes@[j * d + dim] == before[j * d + dim]);
                    } else {
                        assert(codes@[j * d + dim] == own[dim]);
                    }
                }
            }
            i = i + 1;
        }
        codes
    }

    /// Encodes rows and appends them to the lists they are assigned to.
    pub fn add_vectors<S: Fn(u32, u32) -> u32, Q: Fn(u32, u32, u32) -> u8>(
        &mut self,
        assignments: &[usize],
        ids: &[i64],
        rows: &[u32],
        subtract: &S,
        scale: &Q,
    )
        requires
            is_searchable(*old(self)),
            ids@.len() == assignments@.len(),
            rows@.len() == assignments@.len() * old(self).d,
            forall|i: int|
                0 <= i < assignments@.len() ==> #[trigger] assignments@[i] < old(self).nlist,
            crate::float_ops::is_operation(*subtract),
            forall|value: u32, min: u32, max: u32| #[trigger]
                call_requires(*scale, (value, min, max)),
        ensures
            exists|codes: Seq<u8>| #[trigger]
                encodes_rows(*subtract, *scale, *old(self), assignments@, rows@, codes)
                    && is_added(*old(self), *final(self), assignments@, ids@, codes),
    {
        let codes = self.encode_vectors(assignments, rows, subtract, scale);
        self.add(assignments, ids, codes.as_slice());
        assert(is_added(*old(self), *self, assignments@, ids@, codes@));
    }
}

} // verus!
