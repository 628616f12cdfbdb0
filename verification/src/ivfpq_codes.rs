//! Adding product-quantized rows to an index, and searches over its codes.
use crate::filter::RowIdFilter;
use crate::ivfpq::IVFPQIndex;
use crate::list_search::{match_lists, search_measured};
use crate::matching::{has_matching_rows, MatchingRows};
use crate::order::float_is_nan;
use crate::pq_encode::EncodeStep;
use crate::pq_scan::PackedKernel;
use crate::pq_search::{code_distances, TableKernel, TableSource};
use crate::pq_tables::residual_rows;
use std::collections::HashSet;
use vstd::prelude::*;
use vstd::slice::slice_subrange;

verus! {

/// Four-bit codes are scanned in their packed form where there is one.
pub open spec fn uses_packed_codes(index: IVFPQIndex) -> bool {
    index.fastscan_codes@.len() > 0 && index.pq.spec_nbits() == 4
}

/// The codes of a list that a search scans.
pub open spec fn scanned_codes(index: IVFPQIndex, list: int) -> Vec<u8> {
    if uses_packed_codes(index) {
        index.fastscan_codes@[list]
    } else {
        index.codes@[list]
    }
}

/// The inner products of a query with the codebook, which are combined with
/// the tables of the lists where there are any.
pub open spec fn query_products<P: Fn(u32, u32, u32) -> u32>(
    product_step: P,
    index: IVFPQIndex,
    query: Seq<u32>,
) -> Option<Seq<u32>> {
    if index.precomputed_table@.len() > 0 {
        Some(
            Seq::new(
                (index.pq.spec_m() * index.pq.spec_ksub()) as nat,
                |at: int|
                    crate::pq_tables::table_entry(product_step, 0u32, index.pq, query, at),
            ),
        )
    } else {
        None
    }
}

/// The partial distances of a query to the centroids of a list's chunks.
pub open spec fn held_table<
    P: Fn(u32, u32, u32) -> u32,
    N: Fn(u32) -> u32,
    C: Fn(u32, u32, u32) -> u32,
    S: Fn(u32, u32) -> u32,
    W: Fn(u32, u32) -> u32,
>(tables: TableKernel<P, N, C, S, W>, index: IVFPQIndex, query: Seq<u32>, list: int) -> Seq<u32> {
    Seq::new(
        (index.pq.spec_m() * index.pq.spec_ksub()) as nat,
        |at: int|
            crate::pq_search::list_entry(
                tables,
                index.pq,
                index.metric,
                index.by_residual,
                index.quantizer_centroids@,
                index.precomputed_table@,
                query,
                list,
                query_products(tables.product_step, index, query),
                at,
            ),
    )
}

/// The distance of a row of a list by the table of the list. The tables of the
/// lists leave out the distance of the query to the list's centroid, so
/// `coarse` is added to theirs.
pub open spec fn coded_distance<
    A: Fn(u32, u32) -> u32,
    L: Fn(u32, u32, u32) -> u8,
    R: Fn(u16, u32, u32) -> u32,
    Q: Fn(&Vec<u32>, &Vec<u8>, usize) -> Vec<u32>,
>(
    packed: PackedKernel<A, L, R>,
    scan: Q,
    index: IVFPQIndex,
    table: Seq<u32>,
    list: int,
    base: u32,
    row: int,
) -> u32 {
    crate::pq_search::scanned_distance(
        packed,
        scan,
        index.pq,
        table,
        scanned_codes(index, list),
        index.ids@[list]@.len() as usize,
        uses_packed_codes(index),
        base,
        row,
    )
}

/// The distances of the rows of the probed lists to a query.
pub open spec fn held_measures<
    P: Fn(u32, u32, u32) -> u32,
    N: Fn(u32) -> u32,
    C: Fn(u32, u32, u32) -> u32,
    S: Fn(u32, u32) -> u32,
    W: Fn(u32, u32) -> u32,
    A: Fn(u32, u32) -> u32,
    L: Fn(u32, u32, u32) -> u8,
    R: Fn(u16, u32, u32) -> u32,
    Q: Fn(&Vec<u32>, &Vec<u8>, usize) -> Vec<u32>,
>(
    tables: TableKernel<P, N, C, S, W>,
    packed: PackedKernel<A, L, R>,
    scan: Q,
    index: IVFPQIndex,
    query: Seq<u32>,
    probes: Seq<usize>,
    coarse: Seq<u32>,
) -> spec_fn(int, int, u32) -> bool {
    |r: int, row: int, distance: u32|
        distance == coded_distance(
            packed,
            scan,
            index,
            held_table(tables, index, query, probes[r] as int),
            probes[r] as int,
            if index.precomputed_table@.len() > 0 {
                coarse[r]
            } else {
                0
            },
            row,
        )
}

/// The distances of the rows of the probed lists to each query.
pub open spec fn batch_measures<
    P: Fn(u32, u32, u32) -> u32,
    N: Fn(u32) -> u32,
    C: Fn(u32, u32, u32) -> u32,
    S: Fn(u32, u32) -> u32,
    W: Fn(u32, u32) -> u32,
    A: Fn(u32, u32) -> u32,
    L: Fn(u32, u32, u32) -> u8,
    R: Fn(u16, u32, u32) -> u32,
    Q: Fn(&Vec<u32>, &Vec<u8>, usize) -> Vec<u32>,
>(
    tables: TableKernel<P, N, C, S, W>,
    packed: PackedKernel<A, L, R>,
    scan: Q,
    index: IVFPQIndex,
    queries: Seq<u32>,
    probes: Seq<Vec<usize>>,
    coarse: Seq<Vec<u32>>,
) -> spec_fn(int) -> spec_fn(int, int, u32) -> bool {
    |q: int|
        held_measures(
            tables,
            packed,
            scan,
            index,
            crate::list_search::query_at(queries, index.d as int, q),
            probes[q]@,
            coarse[q]@,
        )
}

/// Everything that a search reads is there: a codebook, a centroid for each
/// list, a table for each list or none, and the packed codes of each list or
/// none. Sums of packed codes fit sixteen bits.
pub open spec fn is_searchable(index: IVFPQIndex) -> bool {
    &&& index.well_formed()
    &&& crate::pq_tables::is_trained(index.pq)
    &&& index.pq.norms().len() == index.pq.spec_m() * index.pq.spec_ksub()
    &&& index.quantizer_centroids@.len() == index.nlist * index.d
    &&& index.precomputed_table@.len() == 0 || index.precomputed_table@.len() == index.nlist * (
    index.pq.spec_m() * index.pq.spec_ksub())
    &&& uses_packed_codes(index) ==> {
        &&& index.pq.spec_m() % 2 == 0
        &&& index.pq.spec_m() * 255 <= u16::MAX
        &&& index.fastscan_codes@.len() == index.nlist
        &&& forall|l: int|
            0 <= l < index.nlist ==> (#[trigger] index.fastscan_codes@[l])@.len()
                == index.codes@[l]@.len()
    }
}

/// The queries and the probed lists of a search. Each probe has the distance
/// of the query to the centroid of its list.
pub open spec fn is_request(
    index: IVFPQIndex,
    queries: Seq<u32>,
    probes: Seq<Vec<usize>>,
    coarse: Seq<Vec<u32>>,
) -> bool {
    &&& queries.len() == probes.len() * index.d
    &&& crate::plan::probes_valid(probes, index.nlist as nat)
    &&& coarse.len() == probes.len()
    &&& forall|q: int|
        0 <= q < coarse.len() ==> (#[trigger] coarse[q])@.len() == probes[q]@.len()
}

/// The arithmetic of a search.
pub open spec fn is_scan_arithmetic<
    P: Fn(u32, u32, u32) -> u32,
    N: Fn(u32) -> u32,
    C: Fn(u32, u32, u32) -> u32,
    S: Fn(u32, u32) -> u32,
    W: Fn(u32, u32) -> u32,
    A: Fn(u32, u32) -> u32,
    L: Fn(u32, u32, u32) -> u8,
    R: Fn(u16, u32, u32) -> u32,
    Q: Fn(&Vec<u32>, &Vec<u8>, usize) -> Vec<u32>,
>(
    tables: TableKernel<P, N, C, S, W>,
    packed: PackedKernel<A, L, R>,
    scan: Q,
    index: IVFPQIndex,
) -> bool {
    &&& crate::pq_search::is_table_kernel(tables)
    &&& crate::pq_scan::is_packed_kernel(packed)
    &&& crate::pq_search::is_row_scan(scan, index.pq.spec_code_size())
}

/// A list without matching rows has none that may be returned.
proof fn lemma_nothing_matches<F: RowIdFilter>(
    ids: Seq<i64>,
    rows: Option<&MatchingRows>,
    filter: Option<&F>,
)
    requires
        rows is Some == filter is Some,
        rows matches Some(found) ==> crate::session::rows_match(ids, Some(*found), filter),
        !crate::matching::any_matching(rows),
    ensures
        forall|row: int|
            0 <= row < ids.len() ==> !crate::filter::row_allowed(filter, #[trigger] ids[row]),
{
    let found = rows->0;
    let holds = |p: int| found.holds(p);
    crate::matching::lemma_picked(holds, ids.len());
    assert(found.listed(ids.len()).len() == 0);
    assert forall|row: int| 0 <= row < ids.len() implies !crate::filter::row_allowed(
        filter,
        #[trigger] ids[row],
    ) by {
        assert(found.holds(row) == filter->0.admits(ids[row]));
        assert(holds(row) <==> found.listed(ids.len()).contains(row as usize));
    }
}

impl IVFPQIndex {
    /// The distances of the scanned rows of a list by its table.
    fn coded_distances<
        A: Fn(u32, u32) -> u32,
        L: Fn(u32, u32, u32) -> u8,
        R: Fn(u16, u32, u32) -> u32,
        Q: Fn(&Vec<u32>, &Vec<u8>, usize) -> Vec<u32>,
    >(
        &self,
        table: &Vec<u32>,
        list: usize,
        base: u32,
        rows: Option<&MatchingRows>,
        packed: &PackedKernel<A, L, R>,
        scan: &Q,
    ) -> (distances: Vec<u32>)
        requires
            is_searchable(*self),
            list < self.nlist,
            table@.len() == self.pq.spec_m() * self.pq.spec_ksub(),
            rows matches Some(found) ==> found.well_formed(self.ids@[list as int]@.len()),
            crate::pq_scan::is_packed_kernel(*packed),
            crate::pq_search::is_row_scan(*scan, self.pq.spec_code_size()),
        ensures
            distances@.len() == self.ids@[list as int]@.len(),
            forall|row: int|
                0 <= row < distances@.len() && crate::pq_scan::is_visited(rows, row)
                    ==> #[trigger] distances@[row] == coded_distance(
                    *packed,
                    *scan,
                    *self,
                    table@,
                    list as int,
                    base,
                    row,
                ),
    {
        let count: usize = self.ids[list].len();
        let fast: bool = self.fastscan_codes.len() > 0 && self.pq.nbits() == 4;
        assert(self.codes@[list as int]@.len() == count * self.pq.spec_code_size());
        let codes: &Vec<u8> = if fast {
            &self.fastscan_codes[list]
        } else {
            &self.codes[list]
        };
        code_distances(&self.pq, table, codes, count, fast, base, rows, packed, scan)
    }

    /// The distances of the rows of a query's probed lists. `rows` holds the
    /// matching rows of each list where there is a filter.
    fn query_distances<
        F: RowIdFilter,
        P: Fn(u32, u32, u32) -> u32,
        N: Fn(u32) -> u32,
        C: Fn(u32, u32, u32) -> u32,
        S: Fn(u32, u32) -> u32,
        W: Fn(u32, u32) -> u32,
        A: Fn(u32, u32) -> u32,
        L: Fn(u32, u32, u32) -> u8,
        R: Fn(u16, u32, u32) -> u32,
        Q: Fn(&Vec<u32>, &Vec<u8>, usize) -> Vec<u32>,
    >(
        &self,
        query: &[u32],
        probes: &Vec<usize>,
        coarse: &Vec<u32>,
        rows: &Vec<MatchingRows>,
        filter: Option<&F>,
        tables: &TableKernel<P, N, C, S, W>,
        packed: &PackedKernel<A, L, R>,
        scan: &Q,
    ) -> (distances: Vec<Vec<u32>>)
        requires
            is_searchable(*self),
            is_scan_arithmetic(*tables, *packed, *scan, *self),
            query@.len() == self.d,
            coarse@.len() == probes@.len(),
            forall|r: int| 0 <= r < probes@.len() ==> #[trigger] probes@[r] < self.nlist,
            filter is Some ==> rows@.len() == self.nlist,
            filter is Some ==> forall|r: int|
                0 <= r < probes@.len() ==> crate::session::rows_match(
                    self.ids@[#[trigger] probes@[r] as int]@,
                    Some(rows@[probes@[r] as int]),
                    filter,
                ),
        ensures
            crate::list_search::are_measured(
                self.ids@,
                probes@,
                distances@,
                filter,
                held_measures(*tables, *packed, *scan, *self, query@, probes@, coarse@),
            ),
    {
        let source = TableSource {
            pq: &self.pq,
            metric: self.metric,
            by_residual: self.by_residual,
            nlist: self.nlist,
            centroids: self.quantizer_centroids.as_slice(),
            precomputed: self.precomputed_table.as_slice(),
        };
        let combined: bool = self.has_precomputed_table();
        let own_products: Vec<u32> = if combined {
            self.pq.compute_inner_product_table(query, &tables.product_step)
        } else {
            Vec::new()
        };
        let products: Option<&[u32]> = if combined {
            Some(own_products.as_slice())
        } else {
            None
        };
        assert(crate::sq_distance::offset_view(products) == query_products(
            tables.product_step,
            *self,
            query@,
        ));
        let ghost measures = held_measures(
            *tables,
            *packed,
            *scan,
            *self,
            query@,
            probes@,
            coarse@,
        );
        let mut distances: Vec<Vec<u32>> = Vec::new();
        let mut shared: Vec<u32> = Vec::new();
        let mut ready: bool = false;
        let mut r: usize = 0;
        while r < probes.len()
            invariant
                r <= probes@.len(),
                is_searchable(*self),
                is_scan_arithmetic(*tables, *packed, *scan, *self),
                query@.len() == self.d,
                coarse@.len() == probes@.len(),
                forall|i: int| 0 <= i < probes@.len() ==> #[trigger] probes@[i] < self.nlist,
                filter is Some ==> rows@.len() == self.nlist,
                filter is Some ==> forall|i: int|
                    0 <= i < probes@.len() ==> crate::session::rows_match(
                        self.ids@[#[trigger] probes@[i] as int]@,
                        Some(rows@[probes@[i] as int]),
                        filter,
                    ),
                source.pq == self.pq,
                source.metric == self.metric,
                source.by_residual == self.by_residual,
                source.nlist == self.nlist,
                source.centroids@ == self.quantizer_centroids@,
                source.precomputed@ == self.precomputed_table@,
                combined == (self.precomputed_table@.len() > 0),
                products is Some == combined,
                crate::sq_distance::offset_view(products) == query_products(
                    tables.product_step,
                    *self,
                    query@,
                ),
                measures == held_measures(
                    *tables,
                    *packed,
                    *scan,
                    *self,
                    query@,
                    probes@,
                    coarse@,
                ),
                ready ==> !combined && !self.by_residual && forall|list: int|
                    shared@ == #[trigger] held_table(*tables, *self, query@, list),
                distances@.len() == r,
                forall|i: int|
                    0 <= i < r ==> (#[trigger] distances@[i])@.len()
                        == self.ids@[probes@[i] as int]@.len(),
                forall|i: int, row: int|
                    0 <= i < r && 0 <= row < self.ids@[probes@[i] as int]@.len()
                        && crate::filter::row_allowed(filter, self.ids@[probes@[i] as int]@[row])
                        ==> measures(i, row, #[trigger] distances@[i]@[row]),
            decreases probes@.len() - r,
        {
            let list: usize = probes[r];
            let ids = &self.ids[list];
            let count: usize = ids.len();
            let matching: Option<&MatchingRows> = match filter {
                Some(_) => Some(&rows[list]),
                None => None,
            };
            assert(filter is Some ==> crate::session::rows_match(
                self.ids@[probes@[r as int] as int]@,
                Some(rows@[probes@[r as int] as int]),
                filter,
            ));
            let found: Vec<u32> = if count == 0 || !has_matching_rows(matching) {
                proof {
                    if count > 0 {
                        lemma_nothing_matches(ids@, matching, filter);
                    }
                }
                vec![0u32; count]
            } else if !combined && !self.by_residual {
                if !ready {
                    shared = source.list_table(query, list, None, tables);
                    proof {
                        assert forall|other: int| shared@ == #[trigger] held_table(
                            *tables,
                            *self,
                            query@,
                            other,
                        ) by {
                            assert(shared@ =~= held_table(*tables, *self, query@, other));
                        }
                    }
                    ready = true;
                }
                assert(shared@ == held_table(*tables, *self, query@, list as int));
                self.coded_distances(&shared, list, 0, matching, packed, scan)
            } else {
                let table = source.scan_table(query, list, products, coarse[r], tables);
                assert(table.table@ =~= held_table(*tables, *self, query@, list as int));
                self.coded_distances(&table.table, list, table.base, matching, packed, scan)
            };
            proof {
                assert forall|row: int|
                    0 <= row < ids@.len() && crate::filter::row_allowed(filter, ids@[row]) implies
                    measures(r as int, row, #[trigger] found@[row]) by {
                    if let Some(own) = matching {
                        assert(own.holds(row) == filter->0.admits(ids@[row]));
                    }
                    assert(crate::pq_scan::is_visited(matching, row));
                }
            }
            distances.push(found);
            r = r + 1;
        }
        distances
    }

    /// The distances of the rows of each query's probed lists, as far as the
    /// rows pass the filter; the other rows have no particular distance.
    fn probe_distances<
        F: RowIdFilter,
        P: Fn(u32, u32, u32) -> u32,
        N: Fn(u32) -> u32,
        C: Fn(u32, u32, u32) -> u32,
        S: Fn(u32, u32) -> u32,
        W: Fn(u32, u32) -> u32,
        A: Fn(u32, u32) -> u32,
        L: Fn(u32, u32, u32) -> u8,
        R: Fn(u16, u32, u32) -> u32,
        Q: Fn(&Vec<u32>, &Vec<u8>, usize) -> Vec<u32>,
    >(
        &self,
        queries: &[u32],
        probes: &Vec<Vec<usize>>,
        coarse: &Vec<Vec<u32>>,
        rows: &Vec<MatchingRows>,
        filter: Option<&F>,
        tables: &TableKernel<P, N, C, S, W>,
        packed: &PackedKernel<A, L, R>,
        scan: &Q,
    ) -> (distances: Vec<Vec<Vec<u32>>>)
        requires
            is_searchable(*self),
            is_scan_arithmetic(*tables, *packed, *scan, *self),
            is_request(*self, queries@, probes@, coarse@),
            crate::list_search::rows_cover(self.ids@, probes@, rows@, filter),
        ensures
            distances@.len() == probes@.len(),
            forall|q: int|
                0 <= q < probes@.len() ==> crate::list_search::are_measured(
                    self.ids@,
                    (#[trigger] probes@[q])@,
                    distances@[q]@,
                    filter,
                    held_measures(
                        *tables,
                        *packed,
                        *scan,
                        *self,
                        crate::list_search::query_at(queries@, self.d as int, q),
                        probes@[q]@,
                        coarse@[q]@,
                    ),
                ),
    {
        let d: usize = self.d;
        let total: usize = queries.len();
        let mut distances: Vec<Vec<Vec<u32>>> = Vec::new();
        let mut q: usize = 0;
        while q < probes.len()
            invariant
                q <= probes@.len(),
                d == self.d,
                total == queries@.len(),
                is_searchable(*self),
                is_scan_arithmetic(*tables, *packed, *scan, *self),
                is_request(*self, queries@, probes@, coarse@),
                crate::list_search::rows_cover(self.ids@, probes@, rows@, filter),
                distances@.len() == q,
                forall|p: int|
                    0 <= p < q ==> crate::list_search::are_measured(
                        self.ids@,
                        probes@[p]@,
                        (#[trigger] distances@[p])@,
                        filter,
                        held_measures(
                            *tables,
                            *packed,
                            *scan,
                            *self,
                            crate::list_search::query_at(queries@, self.d as int, p),
                            probes@[p]@,
                            coarse@[p]@,
                        ),
                    ),
            decreases probes@.len() - q,
        {
            proof {
                let nq = probes@.len() as int;
                assert(0 <= q * d && q * d + d <= nq * d && (q + 1) * d == q * d + d)
                    by (nonlinear_arith)
                    requires
                        q + 1 <= nq,
                        0 <= d,
                ;
                assert(coarse@[q as int]@.len() == probes@[q as int]@.len());
                assert forall|r: int| 0 <= r < probes@[q as int]@.len() implies
                    #[trigger] probes@[q as int]@[r] < self.nlist by {}
            }
            let query: &[u32] = slice_subrange(queries, q * d, q * d + d);
            let found = self.query_distances(
                query,
                &probes[q],
                &coarse[q],
                rows,
                filter,
                tables,
                packed,
                scan,
            );
            distances.push(found);
            q = q + 1;
        }
        proof {
            assert forall|q: int| 0 <= q < probes@.len() implies
                crate::list_search::are_measured(
                self.ids@,
                (#[trigger] probes@[q])@,
                distances@[q]@,
                filter,
                held_measures(
                    *tables,
                    *packed,
                    *scan,
                    *self,
                    crate::list_search::query_at(queries@, self.d as int, q),
                    probes@[q]@,
                    coarse@[q]@,
                ),
            ) by {
                assert(distances@[q]@ == distances@[q]@);
            }
        }
        distances
    }

    /// The nearest rows of the probed lists that pass the filter: one row of
    /// `k` places per query, with the distances of their codes. There is no
    /// answer where such a row has a NaN for a distance.
    pub fn search_codes<
        F: RowIdFilter,
        P: Fn(u32, u32, u32) -> u32,
        N: Fn(u32) -> u32,
        C: Fn(u32, u32, u32) -> u32,
        S: Fn(u32, u32) -> u32,
        W: Fn(u32, u32) -> u32,
        A: Fn(u32, u32) -> u32,
        L: Fn(u32, u32, u32) -> u8,
        R: Fn(u16, u32, u32) -> u32,
        Q: Fn(&Vec<u32>, &Vec<u8>, usize) -> Vec<u32>,
    >(
        &self,
        queries: &[u32],
        probes: &Vec<Vec<usize>>,
        coarse: &Vec<Vec<u32>>,
        k: usize,
        filter: Option<&F>,
        tables: &TableKernel<P, N, C, S, W>,
        packed: &PackedKernel<A, L, R>,
        scan: &Q,
    ) -> (out: Option<(Vec<i64>, Vec<u32>)>)
        requires
            is_searchable(*self),
            is_scan_arithmetic(*tables, *packed, *scan, *self),
            is_request(*self, queries@, probes@, coarse@),
            k * 2 + 2 <= usize::MAX,
            probes@.len() * k <= usize::MAX,
        ensures
            out is None <==> exists|q: int|
                0 <= q < probes@.len() && crate::list_search::measures_nan(
                    self.ids@,
                    (#[trigger] probes@[q])@,
                    filter,
                    held_measures(
                        *tables,
                        *packed,
                        *scan,
                        *self,
                        crate::list_search::query_at(queries@, self.d as int, q),
                        probes@[q]@,
                        coarse@[q]@,
                    ),
                ),
            out matches Some(found) ==> {
                &&& found.0@.len() == probes@.len() * k
                &&& found.1@.len() == probes@.len() * k
                &&& forall|q: int|
                    0 <= q < probes@.len() ==> crate::list_search::measured_answer(
                        self.ids@,
                        (#[trigger] probes@[q])@,
                        filter,
                        held_measures(
                            *tables,
                            *packed,
                            *scan,
                            *self,
                            crate::list_search::query_at(queries@, self.d as int, q),
                            probes@[q]@,
                            coarse@[q]@,
                        ),
                        found.0@,
                        found.1@,
                        q,
                        k,
                    )
            },
    {
        let rows = match_lists(&self.ids, probes, filter);
        self.search_matched_codes(
            queries,
            probes,
            coarse,
            k,
            &rows,
            filter,
            tables,
            packed,
            scan,
        )
    }

    /// The same search, given the matching rows of the probed lists: queries
    /// that are searched on their own need to filter the lists only once.
    pub fn search_matched_codes<
        F: RowIdFilter,
        P: Fn(u32, u32, u32) -> u32,
        N: Fn(u32) -> u32,
        C: Fn(u32, u32, u32) -> u32,
        S: Fn(u32, u32) -> u32,
        W: Fn(u32, u32) -> u32,
        A: Fn(u32, u32) -> u32,
        L: Fn(u32, u32, u32) -> u8,
        R: Fn(u16, u32, u32) -> u32,
        Q: Fn(&Vec<u32>, &Vec<u8>, usize) -> Vec<u32>,
    >(
        &self,
        queries: &[u32],
        probes: &Vec<Vec<usize>>,
        coarse: &Vec<Vec<u32>>,
        k: usize,
        rows: &Vec<MatchingRows>,
        filter: Option<&F>,
        tables: &TableKernel<P, N, C, S, W>,
        packed: &PackedKernel<A, L, R>,
        scan: &Q,
    ) -> (out: Option<(Vec<i64>, Vec<u32>)>)
        requires
            is_searchable(*self),
            is_scan_arithmetic(*tables, *packed, *scan, *self),
            is_request(*self, queries@, probes@, coarse@),
            crate::list_search::rows_cover(self.ids@, probes@, rows@, filter),
            k * 2 + 2 <= usize::MAX,
            probes@.len() * k <= usize::MAX,
        ensures
            out is None <==> exists|q: int|
                0 <= q < probes@.len() && crate::list_search::measures_nan(
                    self.ids@,
                    (#[trigger] probes@[q])@,
                    filter,
                    held_measures(
                        *tables,
                        *packed,
                        *scan,
                        *self,
                        crate::list_search::query_at(queries@, self.d as int, q),
                        probes@[q]@,
                        coarse@[q]@,
                    ),
                ),
            out matches Some(found) ==> {
                &&& found.0@.len() == probes@.len() * k
                &&& found.1@.len() == probes@.len() * k
                &&& forall|q: int|
                    0 <= q < probes@.len() ==> crate::list_search::measured_answer(
                        self.ids@,
                        (#[trigger] probes@[q])@,
                        filter,
                        held_measures(
                            *tables,
                            *packed,
                            *scan,
                            *self,
                            crate::list_search::query_at(queries@, self.d as int, q),
                            probes@[q]@,
                            coarse@[q]@,
                        ),
                        found.0@,
                        found.1@,
                        q,
                        k,
                    )
            },
    {
        let distances = self.probe_distances(
            queries,
            probes,
            coarse,
            rows,
            filter,
            tables,
            packed,
            scan,
        );
        let ghost measures = batch_measures(
            *tables,
            *packed,
            *scan,
            *self,
            queries@,
            probes@,
            coarse@,
        );
        let out = search_measured(&self.ids, probes, rows, &distances, k, filter, Ghost(measures));
        proof {
            if out is Some {
                assert forall|q: int| 0 <= q < probes@.len() implies
                    !crate::list_search::measures_nan(
                    self.ids@,
                    (#[trigger] probes@[q])@,
                    filter,
                    measures(q),
                ) by {
                    let measured = choose|measured: Seq<Vec<u32>>|
                        #[trigger] crate::list_search::are_measured(
                            self.ids@,
                            probes@[q]@,
                            measured,
                            filter,
                            measures(q),
                        ) && crate::list_search::probes_fit(
                            self.ids@,
                            probes@[q]@,
                            measured,
                            filter,
                        );
                    crate::list_search::law_numbers_are_no_nans(
                        self.ids@,
                        probes@[q]@,
                        measured,
                        filter,
                        measures(q),
                    );
                }
            }
        }
        out
    }
}

/// Every row that the budget admits has a distance that `measures` gives to
/// the row at a place of the list at a rank.
pub open spec fn budget_measured(
    lists: Seq<Vec<i64>>,
    probes: Seq<usize>,
    distances: Seq<Vec<u32>>,
    max_codes: int,
    measures: spec_fn(int, int, u32) -> bool,
) -> bool {
    &&& distances.len() == probes.len()
    &&& forall|r: int|
        0 <= r < probes.len() ==> (#[trigger] distances[r])@.len() >= crate::ivfpq::budget_share(
            lists,
            probes,
            max_codes,
            r,
        )
    &&& forall|r: int, row: int|
        0 <= r < probes.len() && 0 <= row < crate::ivfpq::budget_share(lists, probes, max_codes, r)
            ==> measures(r, row, #[trigger] distances[r]@[row])
}

/// Some row that the budget admits has a NaN for a distance.
pub open spec fn budget_measures_nan(
    lists: Seq<Vec<i64>>,
    probes: Seq<usize>,
    max_codes: int,
    measures: spec_fn(int, int, u32) -> bool,
) -> bool {
    exists|r: int, row: int, distance: u32|
        0 <= r < probes.len() && 0 <= row < crate::ivfpq::budget_share(lists, probes, max_codes, r)
            && crate::order::is_nan(distance) && #[trigger] measures(r, row, distance)
}

/// Row `query` of the result holds the nearest of the rows that the budget
/// admits, with the distances that `measures` gives them.
pub open spec fn budgeted_answer(
    lists: Seq<Vec<i64>>,
    probes: Seq<usize>,
    max_codes: int,
    measures: spec_fn(int, int, u32) -> bool,
    ids: Seq<i64>,
    distances: Seq<u32>,
    query: int,
    k: usize,
) -> bool {
    exists|measured: Seq<Vec<u32>>|
        {
            &&& #[trigger] budget_measured(lists, probes, measured, max_codes, measures)
            &&& crate::ivfpq::budget_fits(lists, probes, measured, max_codes)
            &&& crate::session::answers(
                crate::ivfpq::budgeted_rows(lists, probes, measured, max_codes, probes.len()),
                ids,
                distances,
                query,
                k,
            )
            &&& crate::scan::lists_sorted(
                crate::ivfpq::budgeted_items(lists, probes, measured, max_codes, k),
                ids,
                distances,
                query,
                k,
            )
        }
}

/// Once the budget is used, it admits nothing more.
proof fn lemma_budget_stays_used(
    lists: Seq<Vec<i64>>,
    probes: Seq<usize>,
    max_codes: int,
    r: nat,
    later: nat,
)
    requires
        r <= later,
        max_codes >= 0,
        crate::ivfpq::budget_used(lists, probes, max_codes, r) == max_codes,
    ensures
        crate::ivfpq::budget_used(lists, probes, max_codes, later) == max_codes,
    decreases later,
{
    if r < later {
        lemma_budget_stays_used(lists, probes, max_codes, r, (later - 1) as nat);
    }
}

impl IVFPQIndex {
    /// The distances of the rows that the budget admits. Lists beyond the
    /// budget are not measured.
    fn budget_distances<
        P: Fn(u32, u32, u32) -> u32,
        N: Fn(u32) -> u32,
        C: Fn(u32, u32, u32) -> u32,
        S: Fn(u32, u32) -> u32,
        W: Fn(u32, u32) -> u32,
        A: Fn(u32, u32) -> u32,
        L: Fn(u32, u32, u32) -> u8,
        R: Fn(u16, u32, u32) -> u32,
        Q: Fn(&Vec<u32>, &Vec<u8>, usize) -> Vec<u32>,
    >(
        &self,
        query: &[u32],
        probes: &Vec<usize>,
        coarse: &Vec<u32>,
        max_codes: usize,
        tables: &TableKernel<P, N, C, S, W>,
        packed: &PackedKernel<A, L, R>,
        scan: &Q,
    ) -> (distances: Vec<Vec<u32>>)
        requires
            is_searchable(*self),
            is_scan_arithmetic(*tables, *packed, *scan, *self),
            query@.len() == self.d,
            coarse@.len() == probes@.len(),
            forall|r: int| 0 <= r < probes@.len() ==> #[trigger] probes@[r] < self.nlist,
        ensures
            budget_measured(
                self.ids@,
                probes@,
                distances@,
                max_codes as int,
                held_measures(*tables, *packed, *scan, *self, query@, probes@, coarse@),
            ),
    {
        let mut near: Vec<usize> = Vec::new();
        let mut near_coarse: Vec<u32> = Vec::new();
        let mut used: usize = 0;
        let mut reach: usize = 0;
        while reach < probes.len() && used < max_codes
            invariant
                reach <= probes@.len(),
                self.well_formed(),
                coarse@.len() == probes@.len(),
                forall|r: int| 0 <= r < probes@.len() ==> #[trigger] probes@[r] < self.nlist,
                near@ == probes@.take(reach as int),
                near_coarse@ == coarse@.take(reach as int),
                used <= max_codes,
                used == crate::ivfpq::budget_used(
                    self.ids@,
                    probes@,
                    max_codes as int,
                    reach as nat,
                ),
            decreases probes@.len() - reach,
        {
            let list: usize = probes[reach];
            let count: usize = self.ids[list].len();
            near.push(list);
            near_coarse.push(coarse[reach]);
            assert(probes@.take(reach + 1) =~= probes@.take(reach as int).push(list));
            assert(coarse@.take(reach + 1) =~= coarse@.take(reach as int).push(
                coarse@[reach as int],
            ));
            if count <= max_codes - used {
                used = used + count;
            } else {
                used = max_codes;
            }
            reach = reach + 1;
        }
        let mut distances = self.query_distances(
            query,
            &near,
            &near_coarse,
            &Vec::new(),
            None::<&HashSet<i64>>,
            tables,
            packed,
            scan,
        );
        let ghost measured = distances@;
        let ghost measures = held_measures(
            *tables,
            *packed,
            *scan,
            *self,
            query@,
            probes@,
            coarse@,
        );
        let ghost near_measures = held_measures(
            *tables,
            *packed,
            *scan,
            *self,
            query@,
            near@,
            near_coarse@,
        );
        let mut r: usize = reach;
        while r < probes.len()
            invariant
                reach <= r <= probes@.len(),
                measured.len() == reach,
                distances@.len() == r,
                forall|i: int| 0 <= i < reach ==> #[trigger] distances@[i] == measured[i],
            decreases probes@.len() - r,
        {
            distances.push(Vec::new());
            r = r + 1;
        }
        proof {
            crate::ivfpq::law_budget_is_respected(
                self.ids@,
                probes@,
                max_codes as int,
                probes@.len(),
            );
            assert forall|r: int| reach <= r < probes@.len() implies
                crate::ivfpq::budget_share(self.ids@, probes@, max_codes as int, r) == 0 by {
                lemma_budget_stays_used(
                    self.ids@,
                    probes@,
                    max_codes as int,
                    reach as nat,
                    r as nat,
                );
                lemma_budget_stays_used(
                    self.ids@,
                    probes@,
                    max_codes as int,
                    reach as nat,
                    (r + 1) as nat,
                );
            }
            assert forall|r: int| 0 <= r < probes@.len() implies (#[trigger] distances@[r])@.len()
                >= crate::ivfpq::budget_share(self.ids@, probes@, max_codes as int, r) by {
                if r < reach {
                    assert(measured[r]@.len() == self.ids@[near@[r] as int]@.len());
                }
            }
            assert forall|r: int, row: int|
                0 <= r < probes@.len() && 0 <= row < crate::ivfpq::budget_share(
                    self.ids@,
                    probes@,
                    max_codes as int,
                    r,
                ) implies measures(r, row, #[trigger] distances@[r]@[row]) by {
                if r < reach {
                    assert(distances@[r] == measured[r]);
                    assert(near@[r] == probes@[r]);
                    assert(near_measures(r, row, measured[r]@[row]));
                }
            }
        }
        distances
    }

    /// Whether the rows that the budget admits have numbers for distances.
    fn budget_has_numbers(
        &self,
        probes: &Vec<usize>,
        distances: &Vec<Vec<u32>>,
        max_codes: usize,
    ) -> (all: bool)
        requires
            self.well_formed(),
            distances@.len() == probes@.len(),
            forall|r: int| 0 <= r < probes@.len() ==> #[trigger] probes@[r] < self.nlist,
            forall|r: int|
                0 <= r < probes@.len() ==> (#[trigger] distances@[r])@.len()
                    >= crate::ivfpq::budget_share(self.ids@, probes@, max_codes as int, r),
        ensures
            all == crate::ivfpq::budget_fits(self.ids@, probes@, distances@, max_codes as int),
            !all ==> exists|r: int, row: int|
                0 <= r < probes@.len() && 0 <= row < crate::ivfpq::budget_share(
                    self.ids@,
                    probes@,
                    max_codes as int,
                    r,
                ) && crate::order::is_nan(#[trigger] distances@[r]@[row]),
    {
        proof {
            crate::ivfpq::law_budget_is_respected(
                self.ids@,
                probes@,
                max_codes as int,
                probes@.len(),
            );
        }
        let mut used: usize = 0;
        let mut r: usize = 0;
        while r < probes.len()
            invariant
                r <= probes@.len(),
                self.well_formed(),
                distances@.len() == probes@.len(),
                forall|i: int| 0 <= i < probes@.len() ==> #[trigger] probes@[i] < self.nlist,
                forall|i: int|
                    0 <= i < probes@.len() ==> (#[trigger] distances@[i])@.len()
                        >= crate::ivfpq::budget_share(self.ids@, probes@, max_codes as int, i),
                used <= max_codes,
                used == crate::ivfpq::budget_used(
                    self.ids@,
                    probes@,
                    max_codes as int,
                    r as nat,
                ),
                forall|i: int|
                    0 <= i < r ==> crate::scan::numbers(
                        crate::ivfpq::leading_rows(
                            self.ids@[probes@[i] as int]@,
                            (#[trigger] distances@[i])@,
                            crate::ivfpq::budget_share(
                                self.ids@,
                                probes@,
                                max_codes as int,
                                i,
                            ),
                        ),
                    ),
            decreases probes@.len() - r,
        {
            let count: usize = self.ids[probes[r]].len();
            let share: usize = if count <= max_codes - used {
                count
            } else {
                max_codes - used
            };
            assert(share == crate::ivfpq::budget_share(
                self.ids@,
                probes@,
                max_codes as int,
                r as int,
            ));
            assert(distances@[r as int]@.len() >= share);
            let own = &distances[r];
            let ghost leading = crate::ivfpq::leading_rows(
                self.ids@[probes@[r as int] as int]@,
                own@,
                share as int,
            );
            let mut row: usize = 0;
            while row < share
                invariant
                    row <= share,
                    r < probes@.len(),
                    own@ == distances@[r as int]@,
                    share <= own@.len(),
                    share == crate::ivfpq::budget_share(
                        self.ids@,
                        probes@,
                        max_codes as int,
                        r as int,
                    ),
                    leading == crate::ivfpq::leading_rows(
                        self.ids@[probes@[r as int] as int]@,
                        own@,
                        share as int,
                    ),
                    forall|i: int| 0 <= i < row ==> !crate::order::is_nan(#[trigger] own@[i]),
                decreases share - row,
            {
                if float_is_nan(own[row]) {
                    proof {
                        assert(leading[row as int].0 == own@[row as int]);
                        assert(crate::order::is_nan(distances@[r as int]@[row as int]));
                    }
                    return false;
                }
                row = row + 1;
            }
            proof {
                assert forall|i: int| 0 <= i < leading.len() implies !crate::order::is_nan(
                    (#[trigger] leading[i]).0,
                ) by {
                    assert(leading[i].0 == own@[i]);
                }
            }
            used = used + share;
            r = r + 1;
        }
        true
    }

    /// The nearest rows among those that the budget lets a query scan: one row
    /// of `k` places per query, with the distances of their codes. There is no
    /// answer where such a row has a NaN for a distance.
    pub fn search_codes_with_max_codes<
        P: Fn(u32, u32, u32) -> u32,
        N: Fn(u32) -> u32,
        C: Fn(u32, u32, u32) -> u32,
        S: Fn(u32, u32) -> u32,
        W: Fn(u32, u32) -> u32,
        A: Fn(u32, u32) -> u32,
        L: Fn(u32, u32, u32) -> u8,
        R: Fn(u16, u32, u32) -> u32,
        Q: Fn(&Vec<u32>, &Vec<u8>, usize) -> Vec<u32>,
    >(
        &self,
        queries: &[u32],
        probes: &Vec<Vec<usize>>,
        coarse: &Vec<Vec<u32>>,
        k: usize,
        max_codes: usize,
        tables: &TableKernel<P, N, C, S, W>,
        packed: &PackedKernel<A, L, R>,
        scan: &Q,
    ) -> (out: Option<(Vec<i64>, Vec<u32>)>)
        requires
            is_searchable(*self),
            is_scan_arithmetic(*tables, *packed, *scan, *self),
            is_request(*self, queries@, probes@, coarse@),
            k * 2 + 2 <= usize::MAX,
            probes@.len() * k <= usize::MAX,
        ensures
            out is None <==> exists|q: int|
                0 <= q < probes@.len() && budget_measures_nan(
                    self.ids@,
                    (#[trigger] probes@[q])@,
                    max_codes as int,
                    held_measures(
                        *tables,
                        *packed,
                        *scan,
                        *self,
                        crate::list_search::query_at(queries@, self.d as int, q),
                        probes@[q]@,
                        coarse@[q]@,
                    ),
                ),
            out matches Some(found) ==> {
                &&& found.0@.len() == probes@.len() * k
                &&& found.1@.len() == probes@.len() * k
                &&& forall|q: int|
                    0 <= q < probes@.len() ==> budgeted_answer(
                        self.ids@,
                        (#[trigger] probes@[q])@,
                        max_codes as int,
                        held_measures(
                            *tables,
                            *packed,
                            *scan,
                            *self,
                            crate::list_search::query_at(queries@, self.d as int, q),
                            probes@[q]@,
                            coarse@[q]@,
                        ),
                        found.0@,
                        found.1@,
                        q,
                        k,
                    )
            },
    {
        let d: usize = self.d;
        let total: usize = queries.len();
        let ghost measures = batch_measures(
            *tables,
            *packed,
            *scan,
            *self,
            queries@,
            probes@,
            coarse@,
        );
        let mut distances: Vec<Vec<Vec<u32>>> = Vec::new();
        let mut q: usize = 0;
        while q < probes.len()
            invariant
                q <= probes@.len(),
                d == self.d,
                total == queries@.len(),
                is_searchable(*self),
                is_scan_arithmetic(*tables, *packed, *scan, *self),
                is_request(*self, queries@, probes@, coarse@),
                measures == batch_measures(
                    *tables,
                    *packed,
                    *scan,
                    *self,
                    queries@,
                    probes@,
                    coarse@,
                ),
                distances@.len() == q,
                forall|p: int|
                    #![trigger distances@[p]]
                    0 <= p < q ==> budget_measured(
                        self.ids@,
                        probes@[p]@,
                        distances@[p]@,
                        max_codes as int,
                        measures(p),
                    ) && crate::ivfpq::budget_fits(
                        self.ids@,
                        probes@[p]@,
                        distances@[p]@,
                        max_codes as int,
                    ),
            decreases probes@.len() - q,
        {
            proof {
                let nq = probes@.len() as int;
                assert(0 <= q * d && q * d + d <= nq * d && (q + 1) * d == q * d + d)
                    by (nonlinear_arith)
                    requires
                        q + 1 <= nq,
                        0 <= d,
                ;
                assert(coarse@[q as int]@.len() == probes@[q as int]@.len());
                assert forall|r: int| 0 <= r < probes@[q as int]@.len() implies
                    #[trigger] probes@[q as int]@[r] < self.nlist by {}
            }
            let query: &[u32] = slice_subrange(queries, q * d, q * d + d);
            let found = self.budget_distances(
                query,
                &probes[q],
                &coarse[q],
                max_codes,
                tables,
                packed,
                scan,
            );
            if !self.budget_has_numbers(&probes[q], &found, max_codes) {
                proof {
                    let measure = measures(q as int);
                    let own = probes@[q as int]@;
                    let (r, row) = choose|r: int, row: int|
                        0 <= r < own.len() && 0 <= row < crate::ivfpq::budget_share(
                            self.ids@,
                            own,
                            max_codes as int,
                            r,
                        ) && crate::order::is_nan(#[trigger] found@[r]@[row]);
                    assert(measure(r, row, found@[r]@[row]));
                    assert(budget_measures_nan(self.ids@, own, max_codes as int, measure));
                }
                return None;
            }
            distances.push(found);
            q = q + 1;
        }
        proof {
            assert forall|q: int| 0 <= q < probes@.len() implies crate::ivfpq::budget_fits(
                self.ids@,
                (#[trigger] probes@[q])@,
                distances@[q]@,
                max_codes as int,
            ) by {
                assert(distances@[q]@ == distances@[q]@);
            }
        }
        let found = self.search_with_max_codes(probes, &distances, k, max_codes);
        proof {
            assert forall|q: int| 0 <= q < probes@.len() implies !budget_measures_nan(
                self.ids@,
                (#[trigger] probes@[q])@,
                max_codes as int,
                measures(q),
            ) && budgeted_answer(
                self.ids@,
                probes@[q]@,
                max_codes as int,
                measures(q),
                found.0@,
                found.1@,
                q,
                k,
            ) by {
                let measured = distances@[q]@;
                assert(budget_measured(
                    self.ids@,
                    probes@[q]@,
                    measured,
                    max_codes as int,
                    measures(q),
                ));
                if budget_measures_nan(self.ids@, probes@[q]@, max_codes as int, measures(q)) {
                    let measure = measures(q);
                    let own = probes@[q]@;
                    let (r, row, distance) = choose|r: int, row: int, distance: u32|
                        0 <= r < own.len() && 0 <= row < crate::ivfpq::budget_share(
                            self.ids@,
                            own,
                            max_codes as int,
                            r,
                        ) && crate::order::is_nan(distance) && #[trigger] measure(
                            r,
                            row,
                            distance,
                        );
                    assert(measure(r, row, measured[r]@[row]));
                    let leading = crate::ivfpq::leading_rows(
                        self.ids@[own[r] as int]@,
                        measured[r]@,
                        crate::ivfpq::budget_share(self.ids@, own, max_codes as int, r),
                    );
                    crate::ivfpq::law_budget_is_respected(
                        self.ids@,
                        own,
                        max_codes as int,
                        own.len(),
                    );
                    assert(self.ids@[own[r] as int].len() <= usize::MAX);
                    assert(leading[row].0 == measured[r]@[row]);
                    assert(crate::scan::numbers(leading));
                }
            }
        }
        Some(found)
    }
}

/// What is encoded of the rows that are added: their residuals from the
/// centroids of their lists, or the rows themselves.
pub open spec fn encoded_vectors<S: Fn(u32, u32) -> u32>(
    subtract: S,
    index: IVFPQIndex,
    assignments: Seq<usize>,
    rows: Seq<u32>,
) -> Seq<u32> {
    let d = index.d as int;
    if index.by_residual {
        Seq::new(
            rows.len(),
            |at: int|
                crate::float_ops::result_of(
                    subtract,
                    rows[at],
                    index.quantizer_centroids@[assignments[at / d] * d + at % d],
                ),
        )
    } else {
        rows
    }
}

/// Codes of rows in the lists they are assigned to. `fast` tells whether direct
/// distances are computed fast.
pub open spec fn encodes_vectors<S: Fn(u32, u32) -> u32, G: Fn(EncodeStep) -> u32>(
    subtract: S,
    f: G,
    index: IVFPQIndex,
    assignments: Seq<usize>,
    rows: Seq<u32>,
    fast: bool,
    codes: Seq<u8>,
) -> bool {
    crate::pq_encode::encodes_batch(
        f,
        index.pq,
        encoded_vectors(subtract, index, assignments, rows),
        assignments.len() as int,
        index.pq.wide_chunks() && fast,
        codes,
    )
}

/// The index holds the added rows behind the ones it held, in the lists they
/// are assigned to, and nothing that was derived from the old rows.
pub open spec fn is_added(
    before: IVFPQIndex,
    after: IVFPQIndex,
    assignments: Seq<usize>,
    ids: Seq<i64>,
    codes: Seq<u8>,
) -> bool {
    &&& after.well_formed()
    &&& after.d == before.d
    &&& after.nlist == before.nlist
    &&& after.metric == before.metric
    &&& after.by_residual == before.by_residual
    &&& after.quantizer_centroids == before.quantizer_centroids
    &&& after.pq == before.pq
    &&& after.opq == before.opq
    &&& forall|l: int|
        0 <= l < before.nlist ==> (#[trigger] after.ids@[l])@ == before.ids@[l]@
            + crate::lists::gathered_rows(
            ids,
            crate::lists::rows_of(assignments, l, assignments.len()),
            1,
        )
    &&& forall|l: int|
        0 <= l < before.nlist ==> (#[trigger] after.codes@[l])@ == before.codes@[l]@
            + crate::lists::gathered_rows(
            codes,
            crate::lists::rows_of(assignments, l, assignments.len()),
            before.pq.spec_code_size() as nat,
        )
    &&& after.precomputed_table@ == Seq::<u32>::empty()
    &&& after.fastscan_codes@ == Seq::<Vec<u8>>::empty()
}

/// Rows can be encoded for the lists they are assigned to.
pub open spec fn can_add(index: IVFPQIndex, assignments: Seq<usize>, rows: Seq<u32>) -> bool {
    &&& index.well_formed()
    &&& crate::pq_encode::can_encode(index.pq)
    &&& index.pq.spec_m() * (index.pq.spec_dsub() * index.pq.spec_ksub()) <= usize::MAX
    &&& index.by_residual ==> index.d > 0 && index.quantizer_centroids@.len() == index.nlist
        * index.d
    &&& rows.len() == assignments.len() * index.d
    &&& forall|i: int| 0 <= i < assignments.len() ==> #[trigger] assignments[i] < index.nlist
}

impl IVFPQIndex {
    /// The codes of rows in the lists they are assigned to.
    pub fn encode_vectors<S: Fn(u32, u32) -> u32, G: Fn(EncodeStep) -> u32>(
        &self,
        assignments: &[usize],
        rows: &[u32],
        fast: bool,
        subtract: &S,
        f: &G,
    ) -> (codes: Vec<u8>)
        requires
            can_add(*self, assignments@, rows@),
            crate::float_ops::is_operation(*subtract),
            crate::pq_encode::is_arithmetic(*f),
        ensures
            encodes_vectors(*subtract, *f, *self, assignments@, rows@, fast, codes@),
    {
        let n: usize = assignments.len();
        if self.by_residual {
            let residuals = residual_rows(
                rows,
                self.quantizer_centroids.as_slice(),
                assignments,
                self.d,
                self.nlist,
                subtract,
            );
            assert(residuals@ =~= encoded_vectors(*subtract, *self, assignments@, rows@));
            self.pq.encode_batch_blocked(residuals.as_slice(), n, fast, f)
        } else {
            self.pq.encode_batch_blocked(rows, n, fast, f)
        }
    }

    /// Encodes rows and appends them to the lists they are assigned to.
    pub fn add_vectors<S: Fn(u32, u32) -> u32, G: Fn(EncodeStep) -> u32>(
        &mut self,
        assignments: &[usize],
        ids: &[i64],
        rows: &[u32],
        fast: bool,
        subtract: &S,
        f: &G,
    )
        requires
            can_add(*old(self), assignments@, rows@),
            ids@.len() == assignments@.len(),
            crate::float_ops::is_operation(*subtract),
            crate::pq_encode::is_arithmetic(*f),
        ensures
            exists|codes: Seq<u8>| #[trigger]
                encodes_vectors(
                    *subtract,
                    *f,
                    *old(self),
                    assignments@,
                    rows@,
                    fast,
                    codes,
                ) && is_added(*old(self), *final(self), assignments@, ids@, codes),
    {
        let codes = self.encode_vectors(assignments, rows, fast, subtract, f);
        self.add_batch(assignments, ids, codes.as_slice());
        assert(is_added(*old(self), *self, assignments@, ids@, codes@));
    }
}

} // verus!
