//! The distances of product-quantized lists that are read from storage.
use crate::filter::RowIdFilter;
use crate::matching::{has_matching_rows, matching_rows, MatchingRows};
use crate::pq::ProductQuantizer;
use crate::pq_scan::PackedKernel;
use crate::pq_search::{code_distances, TableKernel, TableSource};
use crate::pq_tables::{chunk_sums, codebook_norms, codebook_table, combine, residual_table};
use crate::session::{BatchSearch, LoadedList};
use crate::table_reuse::TableReuse;
use crate::topk::Neighbor;
use vstd::prelude::*;
use vstd::slice::slice_subrange;

verus! {

/// Arithmetic on wider numbers, for tables that the queries of a batch share:
/// one step of an inner product, one step of a squared distance, the entry of a
/// list's table from a norm and a product, and the entry of the table of a
/// query and a list.
pub struct WideKernel<M, D, E, K> {
    pub product_step: M,
    pub squared_step: D,
    pub expand: E,
    pub close: K,
}

pub open spec fn is_wide_kernel<
    M: Fn(u64, u32, u32) -> u64,
    D: Fn(u64, u32, u32) -> u64,
    E: Fn(u64, u64) -> u64,
    K: Fn(u64, u64, u64) -> u32,
>(wide: WideKernel<M, D, E, K>) -> bool {
    &&& crate::pq_tables::is_step(wide.product_step)
    &&& crate::pq_tables::is_step(wide.squared_step)
    &&& crate::pq_tables::is_pairing(wide.expand)
    &&& crate::pq_tables::is_closing(wide.close)
}

/// The arithmetic of a search over lists that are read. `scan` measures packed
/// codes that are stored by rows.
pub struct ReadKernel<P, N, C, S, W, A, L, R, Q, M, D, E, K> {
    pub tables: TableKernel<P, N, C, S, W>,
    pub packed: PackedKernel<A, L, R>,
    pub scan: Q,
    pub wide: WideKernel<M, D, E, K>,
}

pub open spec fn is_read_kernel<
    P: Fn(u32, u32, u32) -> u32,
    N: Fn(u32) -> u32,
    C: Fn(u32, u32, u32) -> u32,
    S: Fn(u32, u32) -> u32,
    W: Fn(u32, u32) -> u32,
    A: Fn(u32, u32) -> u32,
    L: Fn(u32, u32, u32) -> u8,
    R: Fn(u16, u32, u32) -> u32,
    Q: Fn(&Vec<u32>, &Vec<u8>, usize) -> Vec<u32>,
    M: Fn(u64, u32, u32) -> u64,
    D: Fn(u64, u32, u32) -> u64,
    E: Fn(u64, u64) -> u64,
    K: Fn(u64, u64, u64) -> u32,
>(kernel: ReadKernel<P, N, C, S, W, A, L, R, Q, M, D, E, K>, pq: ProductQuantizer) -> bool {
    &&& crate::pq_search::is_table_kernel(kernel.tables)
    &&& crate::pq_scan::is_packed_kernel(kernel.packed)
    &&& crate::pq_search::is_row_scan(kernel.scan, pq.spec_code_size())
    &&& is_wide_kernel(kernel.wide)
}

/// The inner products of a query with the codebook.
pub open spec fn inner_products<P: Fn(u32, u32, u32) -> u32>(
    product_step: P,
    pq: ProductQuantizer,
    query: Seq<u32>,
) -> Seq<u32> {
    Seq::new(
        (pq.spec_m() * pq.spec_ksub()) as nat,
        |at: int| crate::pq_tables::table_entry(product_step, 0u32, pq, query, at),
    )
}

/// The table of a query and a list. Where `combined`, it comes from the list's
/// own table and the query's inner products.
pub open spec fn read_table<
    P: Fn(u32, u32, u32) -> u32,
    N: Fn(u32) -> u32,
    C: Fn(u32, u32, u32) -> u32,
    S: Fn(u32, u32) -> u32,
    W: Fn(u32, u32) -> u32,
>(
    tables: TableKernel<P, N, C, S, W>,
    source: TableSource<'_>,
    query: Seq<u32>,
    list: int,
    combined: bool,
) -> Seq<u32> {
    Seq::new(
        (source.pq.spec_m() * source.pq.spec_ksub()) as nat,
        |at: int|
            source.entry(
                tables,
                query,
                list,
                if combined {
                    Some(inner_products(tables.product_step, *source.pq, query))
                } else {
                    None
                },
                at,
            ),
    )
}

/// The centroid of a list.
pub open spec fn centroid_of(source: TableSource<'_>, list: int) -> Seq<u32> {
    source.centroids@.subrange(list * source.pq.spec_d(), (list + 1) * source.pq.spec_d())
}

/// The table that all queries of a batch share for a list.
pub open spec fn wide_list_table<
    M: Fn(u64, u32, u32) -> u64,
    D: Fn(u64, u32, u32) -> u64,
    E: Fn(u64, u64) -> u64,
    K: Fn(u64, u64, u64) -> u32,
>(wide: WideKernel<M, D, E, K>, pq: ProductQuantizer, centroid: Seq<u32>) -> Seq<u64> {
    Seq::new(
        (pq.spec_m() * pq.spec_ksub()) as nat,
        |at: int|
            crate::pq_tables::paired(
                wide.expand,
                crate::pq_tables::norm_entry(wide.product_step, 0u64, pq, at),
                crate::pq_tables::table_entry(wide.product_step, 0u64, pq, centroid, at),
            ),
    )
}

/// The table of a query and a list, from the table that the list shares: each
/// entry joins the distance of the query's chunk to the centroid with the
/// entries of the list and of the query.
pub open spec fn wide_table<
    M: Fn(u64, u32, u32) -> u64,
    D: Fn(u64, u32, u32) -> u64,
    E: Fn(u64, u64) -> u64,
    K: Fn(u64, u64, u64) -> u32,
>(
    wide: WideKernel<M, D, E, K>,
    pq: ProductQuantizer,
    query: Seq<u32>,
    centroid: Seq<u32>,
) -> Seq<u32> {
    Seq::new(
        (pq.spec_m() * pq.spec_ksub()) as nat,
        |at: int|
            crate::pq_tables::closed_entry(
                wide.close,
                crate::pq_tables::accumulated(
                    wide.squared_step,
                    0u64,
                    query,
                    pq.offsets()[crate::pq_tables::entry_chunk(pq, at)] as int,
                    centroid,
                    pq.offsets()[crate::pq_tables::entry_chunk(pq, at)] as int,
                    pq.spec_chunk_dim(crate::pq_tables::entry_chunk(pq, at)) as nat,
                ),
                wide_list_table(wide, pq, centroid)[at],
                crate::pq_tables::table_entry(wide.product_step, 0u64, pq, query, at),
            ),
    )
}

/// The distance of a row of a list that was read. A `shared` list has a table
/// that the queries of the batch share. Where tables are combined, `coarse`,
/// the distance of the query to the list's centroid, is added.
pub open spec fn read_distance<
    P: Fn(u32, u32, u32) -> u32,
    N: Fn(u32) -> u32,
    C: Fn(u32, u32, u32) -> u32,
    S: Fn(u32, u32) -> u32,
    W: Fn(u32, u32) -> u32,
    A: Fn(u32, u32) -> u32,
    L: Fn(u32, u32, u32) -> u8,
    R: Fn(u16, u32, u32) -> u32,
    Q: Fn(&Vec<u32>, &Vec<u8>, usize) -> Vec<u32>,
    M: Fn(u64, u32, u32) -> u64,
    D: Fn(u64, u32, u32) -> u64,
    E: Fn(u64, u64) -> u64,
    K: Fn(u64, u64, u64) -> u32,
>(
    kernel: ReadKernel<P, N, C, S, W, A, L, R, Q, M, D, E, K>,
    source: TableSource<'_>,
    transposed: bool,
    query: Seq<u32>,
    coarse: u32,
    combined: bool,
    shared: bool,
    list: int,
    codes: Vec<u8>,
    count: usize,
    row: int,
) -> u32 {
    crate::pq_search::scanned_distance(
        kernel.packed,
        kernel.scan,
        *source.pq,
        if shared {
            wide_table(kernel.wide, *source.pq, query, centroid_of(source, list))
        } else {
            read_table(kernel.tables, source, query, list, combined)
        },
        codes,
        count,
        transposed,
        if combined && !shared {
            coarse
        } else {
            0
        },
        row,
    )
}

/// The first rank from `start` on at which a list is probed.
pub open spec fn is_first_rank(probes: Seq<usize>, start: int, list: usize, rank: int) -> bool {
    &&& start <= rank < probes.len()
    &&& probes[rank] == list
    &&& forall|r: int| start <= r < rank ==> #[trigger] probes[r] != list
}

pub open spec fn first_rank(probes: Seq<usize>, start: int, list: usize) -> int {
    choose|rank: int| is_first_rank(probes, start, list, rank)
}

/// What a query brings to the lists that are read: its vector, the lists it
/// probes, their distances, and how its tables are made.
pub struct QueryView {
    pub vector: Seq<u32>,
    pub probes: Seq<usize>,
    pub coarse: Seq<u32>,
    pub combined: bool,
}

/// The distances of the rows of the lists that were read to a query.
pub open spec fn read_measures<
    P: Fn(u32, u32, u32) -> u32,
    N: Fn(u32) -> u32,
    C: Fn(u32, u32, u32) -> u32,
    S: Fn(u32, u32) -> u32,
    W: Fn(u32, u32) -> u32,
    A: Fn(u32, u32) -> u32,
    L: Fn(u32, u32, u32) -> u8,
    R: Fn(u16, u32, u32) -> u32,
    Q: Fn(&Vec<u32>, &Vec<u8>, usize) -> Vec<u32>,
    M: Fn(u64, u32, u32) -> u64,
    D: Fn(u64, u32, u32) -> u64,
    E: Fn(u64, u64) -> u64,
    K: Fn(u64, u64, u64) -> u32,
>(
    kernel: ReadKernel<P, N, C, S, W, A, L, R, Q, M, D, E, K>,
    source: TableSource<'_>,
    transposed: bool,
    query: QueryView,
    start: int,
    loaded: Seq<LoadedList>,
    codes: Seq<Vec<u8>>,
    shared: Seq<bool>,
) -> spec_fn(int, int, u32) -> bool {
    |p: int, row: int, distance: u32|
        distance == read_distance(
            kernel,
            source,
            transposed,
            query.vector,
            query.coarse[first_rank(query.probes, start, loaded[p].list_id)],
            query.combined,
            shared[p],
            loaded[p].list_id as int,
            codes[p],
            loaded[p].ids@.len() as usize,
            row,
        )
}

/// Every row that may be returned, of the lists that a query probes, has a
/// distance that `measures` gives to the row at a place of the list at a place.
pub open spec fn are_read<F: RowIdFilter>(
    probes: Seq<usize>,
    start: nat,
    loaded: Seq<LoadedList>,
    distances: Seq<Vec<u32>>,
    filter: Option<&F>,
    measures: spec_fn(int, int, u32) -> bool,
) -> bool {
    &&& distances.len() == loaded.len()
    &&& forall|p: int|
        0 <= p < loaded.len() && crate::session::probes_list(probes, start, loaded[p].list_id)
            ==> (#[trigger] distances[p])@.len() == loaded[p].ids@.len()
    &&& forall|p: int, row: int|
        0 <= p < loaded.len() && crate::session::probes_list(probes, start, loaded[p].list_id)
            && 0 <= row < loaded[p].ids@.len() && crate::filter::row_allowed(
            filter,
            loaded[p].ids@[row],
        ) ==> measures(p, row, #[trigger] distances[p]@[row])
}

/// The lists of a read whose tables the queries share: where tables are
/// computed at all, those with rows that may be returned.
pub open spec fn shared_lists(compute: bool, rows: Seq<Option<MatchingRows>>) -> Seq<bool> {
    Seq::new(rows.len(), |p: int| compute && crate::session::has_rows(rows[p]))
}

/// The lists of a read have codes that can be scanned.
pub open spec fn is_read(
    source: TableSource<'_>,
    transposed: bool,
    loaded: Seq<LoadedList>,
    codes: Seq<Vec<u8>>,
) -> bool {
    &&& codes.len() == loaded.len()
    &&& forall|p: int|
        0 <= p < loaded.len() ==> (#[trigger] loaded[p]).list_id < source.nlist
            && crate::pq_search::codes_fit(
            *source.pq,
            codes[p]@,
            loaded[p].ids@.len() as int,
            transposed,
        )
}

fn as_matching(rows: &Option<MatchingRows>) -> (matching: Option<&MatchingRows>)
    ensures
        matching is Some == rows is Some,
        rows matches Some(found) ==> matching == Some(found),
        crate::matching::any_matching(matching) == crate::session::has_rows(*rows),
{
    match rows {
        Some(found) => Some(found),
        None => None,
    }
}

/// One query of a search over lists that are read.
pub struct PQQuery {
    vector: Vec<u32>,
    probes: Vec<usize>,
    coarse: Vec<u32>,
    combined: bool,
    products: Vec<u32>,
    reuses: bool,
    ready: bool,
    table: Vec<u32>,
}

impl View for PQQuery {
    type V = QueryView;

    closed spec fn view(&self) -> QueryView {
        QueryView {
            vector: self.vector@,
            probes: self.probes@,
            coarse: self.coarse@,
            combined: self.combined,
        }
    }
}

impl PQQuery {
    /// The tables that the query holds are those of its vector.
    pub closed spec fn well_formed<
        P: Fn(u32, u32, u32) -> u32,
        N: Fn(u32) -> u32,
        C: Fn(u32, u32, u32) -> u32,
        S: Fn(u32, u32) -> u32,
        W: Fn(u32, u32) -> u32,
    >(self, source: TableSource<'_>, tables: TableKernel<P, N, C, S, W>) -> bool {
        &&& source.well_formed()
        &&& self.vector@.len() == source.pq.spec_d()
        &&& self.coarse@.len() == self.probes@.len()
        &&& forall|r: int| 0 <= r < self.probes@.len() ==> #[trigger] self.probes@[r] < source.nlist
        &&& self.combined ==> {
            &&& self.products@ == inner_products(tables.product_step, *source.pq, self.vector@)
            &&& source.precomputed@.len() == source.nlist * (source.pq.spec_m()
                * source.pq.spec_ksub())
        }
        &&& self.ready ==> {
            &&& !self.combined
            &&& !source.by_residual
            &&& forall|list: int|
                self.table@ == #[trigger] read_table(tables, source, self.vector@, list, false)
        }
    }

    /// Prepares a query: where the lists' own tables are used, its inner
    /// products are computed once.
    pub fn begin<
        P: Fn(u32, u32, u32) -> u32,
        N: Fn(u32) -> u32,
        C: Fn(u32, u32, u32) -> u32,
        S: Fn(u32, u32) -> u32,
        W: Fn(u32, u32) -> u32,
    >(
        source: &TableSource<'_>,
        vector: Vec<u32>,
        probes: Vec<usize>,
        coarse: Vec<u32>,
        plan: TableReuse,
        tables: &TableKernel<P, N, C, S, W>,
    ) -> (query: Self)
        requires
            source.well_formed(),
            crate::pq_search::is_table_kernel(*tables),
            vector@.len() == source.pq.spec_d(),
            coarse@.len() == probes@.len(),
            forall|r: int| 0 <= r < probes@.len() ==> #[trigger] probes@[r] < source.nlist,
            plan.use_precomputed ==> source.precomputed@.len() == source.nlist * (
            source.pq.spec_m() * source.pq.spec_ksub()),
        ensures
            query.well_formed(*source, *tables),
            query@ == (QueryView {
                vector: vector@,
                probes: probes@,
                coarse: coarse@,
                combined: plan.use_precomputed,
            }),
    {
        let products: Vec<u32> = if plan.use_precomputed {
            source.pq.compute_inner_product_table(vector.as_slice(), &tables.product_step)
        } else {
            Vec::new()
        };
        PQQuery {
            vector,
            probes,
            coarse,
            combined: plan.use_precomputed,
            products,
            reuses: plan.reuse_non_residual,
            ready: false,
            table: Vec::new(),
        }
    }

    /// The first rank from `start` on at which the query probes a list.
    pub fn rank(&self, start: usize, list: usize) -> (rank: Option<usize>)
        ensures
            rank is Some == crate::session::probes_list(self@.probes, start as nat, list),
            rank matches Some(found) ==> {
                &&& is_first_rank(self@.probes, start as int, list, found as int)
                &&& found == first_rank(self@.probes, start as int, list)
            },
    {
        let mut r: usize = start;
        while r < self.probes.len()
            invariant
                start <= r,
                start <= self.probes@.len() ==> r <= self.probes@.len(),
                forall|i: int| start <= i < r ==> #[trigger] self.probes@[i] != list,
            decreases self.probes@.len() - r,
        {
            if self.probes[r] == list {
                proof {
                    assert(is_first_rank(self.probes@, start as int, list, r as int));
                    let chosen = first_rank(self.probes@, start as int, list);
                    assert(is_first_rank(self.probes@, start as int, list, chosen));
                    if chosen < r {
                        assert(self.probes@[chosen] != list);
                    } else if r < chosen {
                        assert(self.probes@[r as int] != list);
                    }
                }
                return Some(r);
            }
            r = r + 1;
        }
        None
    }

    /// The distances of the scanned rows of a list by the query's own table.
    fn own_distances<
        P: Fn(u32, u32, u32) -> u32,
        N: Fn(u32) -> u32,
        C: Fn(u32, u32, u32) -> u32,
        S: Fn(u32, u32) -> u32,
        W: Fn(u32, u32) -> u32,
        A: Fn(u32, u32) -> u32,
        L: Fn(u32, u32, u32) -> u8,
        R: Fn(u16, u32, u32) -> u32,
        Q: Fn(&Vec<u32>, &Vec<u8>, usize) -> Vec<u32>,
        M: Fn(u64, u32, u32) -> u64,
        D: Fn(u64, u32, u32) -> u64,
        E: Fn(u64, u64) -> u64,
        K: Fn(u64, u64, u64) -> u32,
    >(
        &mut self,
        source: &TableSource<'_>,
        rank: usize,
        codes: &Vec<u8>,
        count: usize,
        transposed: bool,
        rows: Option<&MatchingRows>,
        kernel: &ReadKernel<P, N, C, S, W, A, L, R, Q, M, D, E, K>,
    ) -> (distances: Vec<u32>)
        requires
            old(self).well_formed(*source, kernel.tables),
            is_read_kernel(*kernel, *source.pq),
            rank < old(self)@.probes.len(),
            crate::pq_search::codes_fit(*source.pq, codes@, count as int, transposed),
            rows matches Some(found) ==> found.well_formed(count as nat),
        ensures
            final(self).well_formed(*source, kernel.tables),
            final(self)@ == old(self)@,
            distances@.len() == count,
            crate::matching::any_matching(rows) ==> forall|row: int|
                0 <= row < count && crate::pq_scan::is_visited(rows, row)
                    ==> #[trigger] distances@[row] == read_distance(
                    *kernel,
                    *source,
                    transposed,
                    old(self)@.vector,
                    old(self)@.coarse[rank as int],
                    old(self)@.combined,
                    false,
                    old(self)@.probes[rank as int] as int,
                    *codes,
                    count,
                    row,
                ),
    {
        if !has_matching_rows(rows) {
            return vec![0u32; count];
        }
        let list: usize = self.probes[rank];
        let combined: bool = self.combined;
        if self.reuses && !combined && !source.by_residual {
            if !self.ready {
                let table = source.list_table(
                    self.vector.as_slice(),
                    list,
                    None,
                    &kernel.tables,
                );
                proof {
                    assert forall|other: int| table@ == #[trigger] read_table(
                        kernel.tables,
                        *source,
                        self.vector@,
                        other,
                        false,
                    ) by {
                        assert(table@ =~= read_table(
                            kernel.tables,
                            *source,
                            self.vector@,
                            other,
                            false,
                        ));
                    }
                }
                self.table = table;
                self.ready = true;
            }
            assert(self.table@ == read_table(
                kernel.tables,
                *source,
                self.vector@,
                list as int,
                false,
            ));
            return code_distances(
                source.pq,
                &self.table,
                codes,
                count,
                transposed,
                0,
                rows,
                &kernel.packed,
                &kernel.scan,
            );
        }
        let products: Option<&[u32]> = if combined {
            Some(self.products.as_slice())
        } else {
            None
        };
        let table = source.scan_table(
            self.vector.as_slice(),
            list,
            products,
            self.coarse[rank],
            &kernel.tables,
        );
        assert(table.table@ =~= read_table(
            kernel.tables,
            *source,
            self.vector@,
            list as int,
            combined,
        ));
        code_distances(
            source.pq,
            &table.table,
            codes,
            count,
            transposed,
            table.base,
            rows,
            &kernel.packed,
            &kernel.scan,
        )
    }

    /// The distances of the scanned rows of a list by the table that the list
    /// shares. `products` holds the query's inner products.
    fn shared_distances<
        P: Fn(u32, u32, u32) -> u32,
        N: Fn(u32) -> u32,
        C: Fn(u32, u32, u32) -> u32,
        S: Fn(u32, u32) -> u32,
        W: Fn(u32, u32) -> u32,
        A: Fn(u32, u32) -> u32,
        L: Fn(u32, u32, u32) -> u8,
        R: Fn(u16, u32, u32) -> u32,
        Q: Fn(&Vec<u32>, &Vec<u8>, usize) -> Vec<u32>,
        M: Fn(u64, u32, u32) -> u64,
        D: Fn(u64, u32, u32) -> u64,
        E: Fn(u64, u64) -> u64,
        K: Fn(u64, u64, u64) -> u32,
    >(
        &self,
        source: &TableSource<'_>,
        list: usize,
        own: &Vec<u64>,
        products: &Vec<u64>,
        codes: &Vec<u8>,
        count: usize,
        transposed: bool,
        rows: Option<&MatchingRows>,
        kernel: &ReadKernel<P, N, C, S, W, A, L, R, Q, M, D, E, K>,
    ) -> (distances: Vec<u32>)
        requires
            self.well_formed(*source, kernel.tables),
            is_read_kernel(*kernel, *source.pq),
            list < source.nlist,
            own@ == wide_list_table(
                kernel.wide,
                *source.pq,
                centroid_of(*source, list as int),
            ),
            products@ == Seq::new(
                (source.pq.spec_m() * source.pq.spec_ksub()) as nat,
                |at: int|
                    crate::pq_tables::table_entry(
                        kernel.wide.product_step,
                        0u64,
                        *source.pq,
                        self@.vector,
                        at,
                    ),
            ),
            crate::pq_search::codes_fit(*source.pq, codes@, count as int, transposed),
            rows matches Some(found) ==> found.well_formed(count as nat),
        ensures
            distances@.len() == count,
            forall|row: int|
                0 <= row < count && crate::pq_scan::is_visited(rows, row)
                    ==> #[trigger] distances@[row] == read_distance(
                    *kernel,
                    *source,
                    transposed,
                    self@.vector,
                    0,
                    self@.combined,
                    true,
                    list as int,
                    *codes,
                    count,
                    row,
                ),
    {
        let centroid = list_centroid(source, list);
        let norms = chunk_sums(
            source.pq,
            self.vector.as_slice(),
            centroid,
            0u64,
            &kernel.wide.squared_step,
        );
        let table = residual_table(
            source.pq,
            norms.as_slice(),
            own.as_slice(),
            products.as_slice(),
            &kernel.wide.close,
        );
        proof {
            lemma_entry_chunks(*source.pq);
            assert(table@ =~= wide_table(
                kernel.wide,
                *source.pq,
                self.vector@,
                centroid_of(*source, list as int),
            ));
        }
        code_distances(
            source.pq,
            &table,
            codes,
            count,
            transposed,
            0,
            rows,
            &kernel.packed,
            &kernel.scan,
        )
    }

    /// The distances of the rows of the lists of a read, for those that the
    /// query probes. `own` holds the tables that lists share.
    pub fn loaded_distances<
        F: RowIdFilter,
        P: Fn(u32, u32, u32) -> u32,
        N: Fn(u32) -> u32,
        C: Fn(u32, u32, u32) -> u32,
        S: Fn(u32, u32) -> u32,
        W: Fn(u32, u32) -> u32,
        A: Fn(u32, u32) -> u32,
        L: Fn(u32, u32, u32) -> u8,
        R: Fn(u16, u32, u32) -> u32,
        Q: Fn(&Vec<u32>, &Vec<u8>, usize) -> Vec<u32>,
        M: Fn(u64, u32, u32) -> u64,
        D: Fn(u64, u32, u32) -> u64,
        E: Fn(u64, u64) -> u64,
        K: Fn(u64, u64, u64) -> u32,
    >(
        &mut self,
        source: &TableSource<'_>,
        start: usize,
        loaded: &Vec<LoadedList>,
        codes: &Vec<Vec<u8>>,
        transposed: bool,
        rows: &Vec<Option<MatchingRows>>,
        own: &Vec<Option<Vec<u64>>>,
        filter: Option<&F>,
        kernel: &ReadKernel<P, N, C, S, W, A, L, R, Q, M, D, E, K>,
    ) -> (distances: Vec<Vec<u32>>)
        requires
            old(self).well_formed(*source, kernel.tables),
            is_read_kernel(*kernel, *source.pq),
            is_read(*source, transposed, loaded@, codes@),
            rows@.len() == loaded@.len(),
            forall|p: int|
                0 <= p < rows@.len() ==> crate::session::rows_match(
                    loaded@[p].ids@,
                    #[trigger] rows@[p],
                    filter,
                ),
            are_list_tables(*kernel, *source, loaded@, own@),
        ensures
            final(self).well_formed(*source, kernel.tables),
            final(self)@ == old(self)@,
            are_read(
                old(self)@.probes,
                start as nat,
                loaded@,
                distances@,
                filter,
                read_measures(
                    *kernel,
                    *source,
                    transposed,
                    old(self)@,
                    start as int,
                    loaded@,
                    codes@,
                    Seq::new(own@.len(), |p: int| own@[p] is Some),
                ),
            ),
    {
        let ghost view = self@;
        let ghost measures = read_measures(
            *kernel,
            *source,
            transposed,
            view,
            start as int,
            loaded@,
            codes@,
            Seq::new(own@.len(), |p: int| own@[p] is Some),
        );
        let mut products: Vec<u64> = Vec::new();
        let mut counted: bool = false;
        let mut distances: Vec<Vec<u32>> = Vec::new();
        let mut p: usize = 0;
        while p < loaded.len()
            invariant
                p <= loaded@.len(),
                self.well_formed(*source, kernel.tables),
                self@ == view,
                is_read_kernel(*kernel, *source.pq),
                is_read(*source, transposed, loaded@, codes@),
                rows@.len() == loaded@.len(),
                forall|i: int|
                    0 <= i < rows@.len() ==> crate::session::rows_match(
                        loaded@[i].ids@,
                        #[trigger] rows@[i],
                        filter,
                    ),
                are_list_tables(*kernel, *source, loaded@, own@),
                measures == read_measures(
                    *kernel,
                    *source,
                    transposed,
                    view,
                    start as int,
                    loaded@,
                    codes@,
                    Seq::new(own@.len(), |i: int| own@[i] is Some),
                ),
                counted ==> products@ == Seq::new(
                    (source.pq.spec_m() * source.pq.spec_ksub()) as nat,
                    |at: int|
                        crate::pq_tables::table_entry(
                            kernel.wide.product_step,
                            0u64,
                            *source.pq,
                            view.vector,
                            at,
                        ),
                ),
                distances@.len() == p,
                forall|i: int|
                    0 <= i < p && crate::session::probes_list(
                        view.probes,
                        start as nat,
                        loaded@[i].list_id,
                    ) ==> (#[trigger] distances@[i])@.len() == loaded@[i].ids@.len(),
                forall|i: int, row: int|
                    0 <= i < p && crate::session::probes_list(
                        view.probes,
                        start as nat,
                        loaded@[i].list_id,
                    ) && 0 <= row < loaded@[i].ids@.len() && crate::filter::row_allowed(
                        filter,
                        loaded@[i].ids@[row],
                    ) ==> measures(i, row, #[trigger] distances@[i]@[row]),
            decreases loaded@.len() - p,
        {
            let list: usize = loaded[p].list_id;
            let count: usize = loaded[p].ids.len();
            assert(loaded@[p as int].list_id < source.nlist);
            assert(crate::session::rows_match(loaded@[p as int].ids@, rows@[p as int], filter));
            let matching = as_matching(&rows[p]);
            let mut found: Vec<u32> = Vec::new();
            match self.rank(start, list) {
                Some(rank) => {
                    match &own[p] {
                        Some(table) => {
                            if !counted {
                                products = codebook_table(
                                    source.pq,
                                    self.vector.as_slice(),
                                    0u64,
                                    &kernel.wide.product_step,
                                );
                                counted = true;
                            }
                            found = self.shared_distances(
                                source,
                                list,
                                table,
                                &products,
                                &codes[p],
                                count,
                                transposed,
                                matching,
                                kernel,
                            );
                        },
                        None => {
                            found = self.own_distances(
                                source,
                                rank,
                                &codes[p],
                                count,
                                transposed,
                                matching,
                                kernel,
                            );
                        },
                    }
                    proof {
                        crate::session::lemma_matching(
                            loaded@[p as int].ids@,
                            rows@[p as int],
                            filter,
                        );
                        assert forall|row: int|
                            0 <= row < count && crate::filter::row_allowed(
                                filter,
                                loaded@[p as int].ids@[row],
                            ) implies measures(p as int, row, #[trigger] found@[row]) by {
                            assert(crate::pq_scan::is_visited(matching, row));
                        }
                    }
                },
                None => {},
            }
            distances.push(found);
            p = p + 1;
        }
        distances
    }

    /// The distances of the rows of a piece of a list that match, if the query
    /// probes the list.
    pub fn chunk_distances<
        P: Fn(u32, u32, u32) -> u32,
        N: Fn(u32) -> u32,
        C: Fn(u32, u32, u32) -> u32,
        S: Fn(u32, u32) -> u32,
        W: Fn(u32, u32) -> u32,
        A: Fn(u32, u32) -> u32,
        L: Fn(u32, u32, u32) -> u8,
        R: Fn(u16, u32, u32) -> u32,
        Q: Fn(&Vec<u32>, &Vec<u8>, usize) -> Vec<u32>,
        M: Fn(u64, u32, u32) -> u64,
        D: Fn(u64, u32, u32) -> u64,
        E: Fn(u64, u64) -> u64,
        K: Fn(u64, u64, u64) -> u32,
    >(
        &mut self,
        source: &TableSource<'_>,
        start: usize,
        list: usize,
        codes: &Vec<u8>,
        count: usize,
        transposed: bool,
        rows: Option<&MatchingRows>,
        kernel: &ReadKernel<P, N, C, S, W, A, L, R, Q, M, D, E, K>,
    ) -> (distances: Vec<u32>)
        requires
            old(self).well_formed(*source, kernel.tables),
            is_read_kernel(*kernel, *source.pq),
            crate::pq_search::codes_fit(*source.pq, codes@, count as int, transposed),
            rows matches Some(found) ==> found.well_formed(count as nat),
        ensures
            final(self).well_formed(*source, kernel.tables),
            final(self)@ == old(self)@,
            !crate::session::probes_list(old(self)@.probes, start as nat, list) ==> distances@.len()
                == 0,
            crate::session::probes_list(old(self)@.probes, start as nat, list) ==> {
                &&& distances@.len() == count
                &&& crate::matching::any_matching(rows) ==> forall|row: int|
                    0 <= row < count && crate::pq_scan::is_visited(rows, row)
                        ==> #[trigger] distances@[row] == read_distance(
                        *kernel,
                        *source,
                        transposed,
                        old(self)@.vector,
                        old(self)@.coarse[first_rank(old(self)@.probes, start as int, list)],
                        old(self)@.combined,
                        false,
                        list as int,
                        *codes,
                        count,
                        row,
                    )
            },
    {
        match self.rank(start, list) {
            Some(rank) => self.own_distances(
                source,
                rank,
                codes,
                count,
                transposed,
                rows,
                kernel,
            ),
            None => Vec::new(),
        }
    }
}

/// The entries of a table belong to chunks.
proof fn lemma_entry_chunks(pq: ProductQuantizer)
    requires
        pq.well_formed(),
    ensures
        forall|at: int|
            0 <= at < pq.spec_m() * pq.spec_ksub() ==> 0 <= #[trigger]
            crate::pq_tables::entry_chunk(pq, at) < pq.spec_m(),
{
    let m = pq.spec_m() as int;
    let ksub = pq.spec_ksub() as int;
    assert forall|at: int| 0 <= at < pq.spec_m() * pq.spec_ksub() implies 0 <= #[trigger]
        crate::pq_tables::entry_chunk(pq, at) < pq.spec_m() by {
        assert(0 <= at / ksub < m) by (nonlinear_arith)
            requires
                0 <= at < m * ksub,
                ksub > 0,
        ;
    }
}

/// The centroid of a list.
fn list_centroid<'a>(source: &TableSource<'a>, list: usize) -> (centroid: &'a [u32])
    requires
        source.well_formed(),
        list < source.nlist,
    ensures
        centroid@ == centroid_of(*source, list as int),
        centroid@.len() == source.pq.spec_d(),
{
    let d: usize = source.pq.d();
    let nlist: usize = source.nlist;
    let total: usize = source.centroids.len();
    assert(0 <= list * d && list * d + d <= nlist * d && (list + 1) * d == list * d + d)
        by (nonlinear_arith)
        requires
            list + 1 <= nlist,
    ;
    slice_subrange(source.centroids, list * d, list * d + d)
}

/// The tables that lists share are those of their centroids.
pub open spec fn are_list_tables<
    P: Fn(u32, u32, u32) -> u32,
    N: Fn(u32) -> u32,
    C: Fn(u32, u32, u32) -> u32,
    S: Fn(u32, u32) -> u32,
    W: Fn(u32, u32) -> u32,
    A: Fn(u32, u32) -> u32,
    L: Fn(u32, u32, u32) -> u8,
    R: Fn(u16, u32, u32) -> u32,
    Q: Fn(&Vec<u32>, &Vec<u8>, usize) -> Vec<u32>,
    M: Fn(u64, u32, u32) -> u64,
    D: Fn(u64, u32, u32) -> u64,
    E: Fn(u64, u64) -> u64,
    K: Fn(u64, u64, u64) -> u32,
>(
    kernel: ReadKernel<P, N, C, S, W, A, L, R, Q, M, D, E, K>,
    source: TableSource<'_>,
    loaded: Seq<LoadedList>,
    own: Seq<Option<Vec<u64>>>,
) -> bool {
    &&& own.len() == loaded.len()
    &&& forall|p: int|
        0 <= p < own.len() && (#[trigger] own[p]) is Some ==> own[p]->0@ == wide_list_table(
            kernel.wide,
            *source.pq,
            centroid_of(source, loaded[p].list_id as int),
        )
}

/// Computes the tables that the queries of a batch share for the lists of a
/// read; lists without rows that may be returned get none.
pub fn shared_tables<
    P: Fn(u32, u32, u32) -> u32,
    N: Fn(u32) -> u32,
    C: Fn(u32, u32, u32) -> u32,
    S: Fn(u32, u32) -> u32,
    W: Fn(u32, u32) -> u32,
    A: Fn(u32, u32) -> u32,
    L: Fn(u32, u32, u32) -> u8,
    R: Fn(u16, u32, u32) -> u32,
    Q: Fn(&Vec<u32>, &Vec<u8>, usize) -> Vec<u32>,
    M: Fn(u64, u32, u32) -> u64,
    D: Fn(u64, u32, u32) -> u64,
    E: Fn(u64, u64) -> u64,
    K: Fn(u64, u64, u64) -> u32,
>(
    source: &TableSource<'_>,
    loaded: &Vec<LoadedList>,
    rows: &Vec<Option<MatchingRows>>,
    compute: bool,
    kernel: &ReadKernel<P, N, C, S, W, A, L, R, Q, M, D, E, K>,
) -> (own: Vec<Option<Vec<u64>>>)
    requires
        source.well_formed(),
        is_read_kernel(*kernel, *source.pq),
        rows@.len() == loaded@.len(),
        forall|p: int| 0 <= p < loaded@.len() ==> (#[trigger] loaded@[p]).list_id < source.nlist,
    ensures
        are_list_tables(*kernel, *source, loaded@, own@),
        Seq::new(own@.len(), |p: int| own@[p] is Some) == shared_lists(compute, rows@),
{
    let norms: Vec<u64> = if compute {
        codebook_norms(source.pq, 0u64, &kernel.wide.product_step)
    } else {
        Vec::new()
    };
    let mut own: Vec<Option<Vec<u64>>> = Vec::new();
    let mut p: usize = 0;
    while p < loaded.len()
        invariant
            p <= loaded@.len(),
            source.well_formed(),
            is_read_kernel(*kernel, *source.pq),
            rows@.len() == loaded@.len(),
            forall|i: int|
                0 <= i < loaded@.len() ==> (#[trigger] loaded@[i]).list_id < source.nlist,
            compute ==> norms@ == Seq::new(
                (source.pq.spec_m() * source.pq.spec_ksub()) as nat,
                |at: int|
                    crate::pq_tables::norm_entry(
                        kernel.wide.product_step,
                        0u64,
                        *source.pq,
                        at,
                    ),
            ),
            own@.len() == p,
            forall|i: int|
                0 <= i < p ==> (#[trigger] own@[i]) is Some == (compute
                    && crate::session::has_rows(rows@[i])),
            forall|i: int|
                0 <= i < p && (#[trigger] own@[i]) is Some ==> own@[i]->0@ == wide_list_table(
                    kernel.wide,
                    *source.pq,
                    centroid_of(*source, loaded@[i].list_id as int),
                ),
        decreases loaded@.len() - p,
    {
        if compute && has_matching_rows(as_matching(&rows[p])) {
            assert(loaded@[p as int].list_id < source.nlist);
            let centroid = list_centroid(source, loaded[p].list_id);
            let products = codebook_table(
                source.pq,
                centroid,
                0u64,
                &kernel.wide.product_step,
            );
            let table = combine(norms.as_slice(), products.as_slice(), &kernel.wide.expand);
            assert(table@ =~= wide_list_table(kernel.wide, *source.pq, centroid@));
            own.push(Some(table));
        } else {
            own.push(None);
        }
        p = p + 1;
    }
    assert(Seq::new(own@.len(), |i: int| own@[i] is Some) =~= shared_lists(compute, rows@));
    own
}

/// Some row that may be returned, of a list that a query probes, has a NaN for
/// a distance.
pub open spec fn reads_nan<F: RowIdFilter>(
    probes: Seq<usize>,
    start: nat,
    loaded: Seq<LoadedList>,
    filter: Option<&F>,
    measures: spec_fn(int, int, u32) -> bool,
) -> bool {
    exists|p: int, row: int, distance: u32|
        0 <= p < loaded.len() && crate::session::probes_list(probes, start, loaded[p].list_id)
            && 0 <= row < loaded[p].ids@.len() && crate::filter::row_allowed(
            filter,
            loaded[p].ids@[row],
        ) && crate::order::is_nan(distance) && #[trigger] measures(p, row, distance)
}

/// What a query keeps and was offered after a read: it selected the nearest of
/// the rows of the lists it probes, by the distances that `measures` gives
/// them, and was offered them.
pub open spec fn reads_selection<F: RowIdFilter>(
    before: BatchSearch,
    after: BatchSearch,
    q: int,
    loaded: Seq<LoadedList>,
    filter: Option<&F>,
    measures: spec_fn(int, int, u32) -> bool,
) -> bool {
    exists|distances: Seq<Vec<u32>>|
        {
            &&& #[trigger] are_read(
                before.probes()[q]@,
                before.probe_start() as nat,
                loaded,
                distances,
                filter,
                measures,
            )
            &&& crate::session::distances_fit(
                before.probes()[q]@,
                before.probe_start() as nat,
                loaded,
                distances,
                filter,
            )
            &&& after.offered(q) == before.offered(q).add(
                crate::session::probe_items(
                    before.probes()[q]@,
                    before.probe_start() as nat,
                    before.probes()[q]@.len(),
                    loaded,
                    distances,
                    filter,
                ),
            )
            &&& crate::session::takes_selection(
                before.kept(q),
                after.kept(q),
                before.probes()[q]@,
                before.probe_start() as nat,
                loaded,
                distances,
                filter,
                before.spec_k(),
            )
        }
}

/// Where distances are measured in one way only, numbers are no NaNs.
proof fn lemma_no_nan_read<F: RowIdFilter>(
    probes: Seq<usize>,
    start: nat,
    loaded: Seq<LoadedList>,
    distances: Seq<Vec<u32>>,
    filter: Option<&F>,
    measures: spec_fn(int, int, u32) -> bool,
)
    requires
        are_read(probes, start, loaded, distances, filter, measures),
        forall|p: int, row: int, x: u32, y: u32| #[trigger]
            measures(p, row, x) && #[trigger] measures(p, row, y) ==> x == y,
    ensures
        crate::session::distances_fit(probes, start, loaded, distances, filter) <==> !reads_nan(
            probes,
            start,
            loaded,
            filter,
            measures,
        ),
{
    if crate::session::distances_fit(probes, start, loaded, distances, filter) {
        if reads_nan(probes, start, loaded, filter, measures) {
            let (p, row, distance) = choose|p: int, row: int, distance: u32|
                0 <= p < loaded.len() && crate::session::probes_list(
                    probes,
                    start,
                    loaded[p].list_id,
                ) && 0 <= row < loaded[p].ids@.len() && crate::filter::row_allowed(
                    filter,
                    loaded[p].ids@[row],
                ) && crate::order::is_nan(distance) && #[trigger] measures(p, row, distance);
            let ids = loaded[p].ids@;
            assert(loaded[p].ids.len() <= usize::MAX);
            crate::list_search::lemma_passing_rows(ids, filter);
            let passing = crate::session::passing(ids, filter);
            let offered = crate::session::allowed_rows(ids, distances[p]@, filter);
            assert(crate::filter::row_allowed(filter, ids[row]));
            assert(passing.contains(row as usize));
            let i = choose|i: int| 0 <= i < passing.len() && passing[i] == row as usize;
            assert(measures(p, row, distances[p]@[row]));
            assert(offered[i].0 == distance);
            assert(crate::scan::numbers(offered));
            assert(false);
        }
    } else {
        let p = choose|p: int|
            0 <= p < loaded.len() && crate::session::probes_list(probes, start, loaded[p].list_id)
                && !((#[trigger] distances[p])@.len() == loaded[p].ids@.len()
                && crate::scan::numbers(
                crate::session::allowed_rows(loaded[p].ids@, distances[p]@, filter),
            ));
        let ids = loaded[p].ids@;
        assert(loaded[p].ids.len() <= usize::MAX);
        crate::list_search::lemma_passing_rows(ids, filter);
        let offered = crate::session::allowed_rows(ids, distances[p]@, filter);
        let i = choose|i: int|
            0 <= i < offered.len() && crate::order::is_nan((#[trigger] offered[i]).0);
        let row = crate::session::passing(ids, filter)[i] as int;
        assert(offered[i].0 == distances[p]@[row]);
        assert(measures(p, row, distances[p]@[row]));
    }
}

/// Lets every query see the rows of the lists read up to place `end`, with the
/// distances of their codes. Where `compute`, the queries share the tables of
/// the lists. Nothing is scanned if the distance of a row that a query may
/// return is a NaN.
pub fn scan_codes<
    F: RowIdFilter,
    P: Fn(u32, u32, u32) -> u32,
    N: Fn(u32) -> u32,
    C: Fn(u32, u32, u32) -> u32,
    S: Fn(u32, u32) -> u32,
    W: Fn(u32, u32) -> u32,
    A: Fn(u32, u32) -> u32,
    L: Fn(u32, u32, u32) -> u8,
    R: Fn(u16, u32, u32) -> u32,
    Q: Fn(&Vec<u32>, &Vec<u8>, usize) -> Vec<u32>,
    M: Fn(u64, u32, u32) -> u64,
    D: Fn(u64, u32, u32) -> u64,
    E: Fn(u64, u64) -> u64,
    K: Fn(u64, u64, u64) -> u32,
>(
    search: &mut BatchSearch,
    queries: &mut Vec<PQQuery>,
    source: &TableSource<'_>,
    start: usize,
    end: usize,
    loaded: &Vec<LoadedList>,
    codes: &Vec<Vec<u8>>,
    transposed: bool,
    rows: &Vec<Option<MatchingRows>>,
    compute: bool,
    filter: Option<&F>,
    kernel: &ReadKernel<P, N, C, S, W, A, L, R, Q, M, D, E, K>,
) -> (scanned: bool)
    requires
        old(search).well_formed(),
        start == old(search).probe_start(),
        source.well_formed(),
        is_read_kernel(*kernel, *source.pq),
        is_read(*source, transposed, loaded@, codes@),
        crate::session::loads_planned(
            old(search).planned(),
            old(search).read_count() as int,
            loaded@,
        ),
        end == old(search).read_count() + loaded@.len(),
        loaded@.len() < usize::MAX,
        rows@.len() == loaded@.len(),
        forall|p: int|
            0 <= p < rows@.len() ==> crate::session::rows_match(
                loaded@[p].ids@,
                #[trigger] rows@[p],
                filter,
            ),
        old(queries)@.len() == old(search).queries(),
        forall|q: int|
            0 <= q < old(queries)@.len() ==> (#[trigger] old(queries)@[q]).well_formed(
                *source,
                kernel.tables,
            ) && old(queries)@[q]@.probes == old(search).probes()[q]@,
    ensures
        final(queries)@.len() == old(queries)@.len(),
        forall|q: int|
            0 <= q < old(queries)@.len() ==> (#[trigger] final(queries)@[q]).well_formed(
                *source,
                kernel.tables,
            ) && final(queries)@[q]@ == old(queries)@[q]@,
        scanned <==> forall|q: int|
            0 <= q < old(queries)@.len() ==> !reads_nan(
                old(search).probes()[q]@,
                start as nat,
                loaded@,
                filter,
                read_measures(
                    *kernel,
                    *source,
                    transposed,
                    (#[trigger] old(queries)@[q])@,
                    start as int,
                    loaded@,
                    codes@,
                    shared_lists(compute, rows@),
                ),
            ),
        !scanned ==> *final(search) == *old(search),
        final(search).well_formed(),
        final(search).spec_k() == old(search).spec_k(),
        final(search).probe_start() == old(search).probe_start(),
        final(search).spec_nlist() == old(search).spec_nlist(),
        final(search).probes() == old(search).probes(),
        final(search).planned() == old(search).planned(),
        scanned ==> final(search).read_count() == end,
        forall|q: int|
            scanned && 0 <= q < old(queries)@.len() ==> reads_selection(
                *old(search),
                *final(search),
                q,
                loaded@,
                filter,
                read_measures(
                    *kernel,
                    *source,
                    transposed,
                    (#[trigger] old(queries)@[q])@,
                    start as int,
                    loaded@,
                    codes@,
                    shared_lists(compute, rows@),
                ),
            ),
{
    let ghost first = *search;
    let ghost asked = queries@;
    let ghost shared = shared_lists(compute, rows@);
    proof {
        assert forall|p: int| 0 <= p < loaded@.len() implies (#[trigger] loaded@[p]).list_id
            < source.nlist by {}
    }
    let own = shared_tables(source, loaded, rows, compute, kernel);
    let mut distances: Vec<Vec<Vec<u32>>> = Vec::new();
    let mut q: usize = 0;
    while q < queries.len()
        invariant
            q <= queries@.len(),
            queries@.len() == asked.len(),
            asked.len() == first.queries(),
            start == first.probe_start(),
            is_read_kernel(*kernel, *source.pq),
            is_read(*source, transposed, loaded@, codes@),
            rows@.len() == loaded@.len(),
            forall|p: int|
                0 <= p < rows@.len() ==> crate::session::rows_match(
                    loaded@[p].ids@,
                    #[trigger] rows@[p],
                    filter,
                ),
            are_list_tables(*kernel, *source, loaded@, own@),
            shared == shared_lists(compute, rows@),
            Seq::new(own@.len(), |p: int| own@[p] is Some) == shared,
            forall|i: int|
                0 <= i < asked.len() ==> (#[trigger] queries@[i]).well_formed(
                    *source,
                    kernel.tables,
                ) && queries@[i]@ == asked[i]@,
            forall|i: int|
                0 <= i < asked.len() ==> (#[trigger] asked[i])@.probes == first.probes()[i]@,
            distances@.len() == q,
            forall|i: int|
                0 <= i < q ==> are_read(
                    first.probes()[i]@,
                    start as nat,
                    loaded@,
                    (#[trigger] distances@[i])@,
                    filter,
                    read_measures(
                        *kernel,
                        *source,
                        transposed,
                        asked[i]@,
                        start as int,
                        loaded@,
                        codes@,
                        shared,
                    ),
                ),
        decreases asked.len() - q,
    {
        assert(queries@[q as int].well_formed(*source, kernel.tables));
        assert(asked[q as int]@.probes == first.probes()[q as int]@);
        let found = queries[q].loaded_distances(
            source,
            start,
            loaded,
            codes,
            transposed,
            rows,
            &own,
            filter,
            kernel,
        );
        distances.push(found);
        q = q + 1;
    }
    proof {
        assert forall|i: int| 0 <= i < distances@.len() implies (#[trigger] distances@[i])@.len()
            == loaded@.len() by {}
        assert forall|i: int, p: int|
            0 <= i < distances@.len() && 0 <= p < loaded@.len() && crate::session::probes_list(
                first.probes()[i]@,
                start as nat,
                loaded@[p].list_id,
            ) implies (#[trigger] distances@[i]@[p])@.len() == loaded@[p].ids@.len() by {
            assert(distances@[i]@ == distances@[i]@);
        }
    }
    let scanned: bool = search.try_scan_batch(end, loaded, rows, &distances, filter);
    proof {
        assert forall|i: int| 0 <= i < asked.len() implies (crate::session::distances_fit(
            first.probes()[i]@,
            start as nat,
            loaded@,
            (#[trigger] distances@[i])@,
            filter,
        ) <==> !reads_nan(
            first.probes()[i]@,
            start as nat,
            loaded@,
            filter,
            read_measures(
                *kernel,
                *source,
                transposed,
                asked[i]@,
                start as int,
                loaded@,
                codes@,
                shared,
            ),
        )) by {
            lemma_no_nan_read(
                first.probes()[i]@,
                start as nat,
                loaded@,
                distances@[i]@,
                filter,
                read_measures(
                    *kernel,
                    *source,
                    transposed,
                    asked[i]@,
                    start as int,
                    loaded@,
                    codes@,
                    shared,
                ),
            );
        }
        if scanned {
            assert forall|i: int| 0 <= i < asked.len() implies reads_selection(
                first,
                *search,
                i,
                loaded@,
                filter,
                read_measures(
                    *kernel,
                    *source,
                    transposed,
                    (#[trigger] asked[i])@,
                    start as int,
                    loaded@,
                    codes@,
                    shared,
                ),
            ) && !reads_nan(
                first.probes()[i]@,
                start as nat,
                loaded@,
                filter,
                read_measures(
                    *kernel,
                    *source,
                    transposed,
                    asked[i]@,
                    start as int,
                    loaded@,
                    codes@,
                    shared,
                ),
            ) by {
                assert(crate::session::distances_fit(
                    first.probes()[i]@,
                    start as nat,
                    loaded@,
                    distances@[i]@,
                    filter,
                ));
                assert(search.offered(i) == search.offered(i));
                assert(search.kept(i) == search.kept(i));
            }
        } else {
            let i = choose|i: int|
                0 <= i < distances@.len() && !crate::session::distances_fit(
                    first.probes()[i]@,
                    start as nat,
                    loaded@,
                    (#[trigger] distances@[i])@,
                    filter,
                );
            assert(asked[i]@ == asked[i]@);
        }
    }
    scanned
}

/// The rows of a piece of a list that pass the filter, with the distances of
/// their codes to a query.
pub open spec fn chunk_rows<
    F: RowIdFilter,
    P: Fn(u32, u32, u32) -> u32,
    N: Fn(u32) -> u32,
    C: Fn(u32, u32, u32) -> u32,
    S: Fn(u32, u32) -> u32,
    W: Fn(u32, u32) -> u32,
    A: Fn(u32, u32) -> u32,
    L: Fn(u32, u32, u32) -> u8,
    R: Fn(u16, u32, u32) -> u32,
    Q: Fn(&Vec<u32>, &Vec<u8>, usize) -> Vec<u32>,
    M: Fn(u64, u32, u32) -> u64,
    D: Fn(u64, u32, u32) -> u64,
    E: Fn(u64, u64) -> u64,
    K: Fn(u64, u64, u64) -> u32,
>(
    kernel: ReadKernel<P, N, C, S, W, A, L, R, Q, M, D, E, K>,
    source: TableSource<'_>,
    transposed: bool,
    query: QueryView,
    start: int,
    list: usize,
    ids: Seq<i64>,
    codes: Vec<u8>,
    filter: Option<&F>,
) -> Seq<Neighbor> {
    let places = crate::session::passing(ids, filter);
    Seq::new(
        places.len(),
        |i: int|
            (
                read_distance(
                    kernel,
                    source,
                    transposed,
                    query.vector,
                    query.coarse[first_rank(query.probes, start, list)],
                    query.combined,
                    false,
                    list as int,
                    codes,
                    ids.len() as usize,
                    places[i] as int,
                ),
                ids[places[i] as int],
            ),
    )
}

/// Lets the queries that probe `list`, which is to be read next, see a piece of
/// it, with the distances of its codes. Nothing is scanned if the distance of a
/// row that a query may return is a NaN.
pub fn scan_code_chunk<
    F: RowIdFilter,
    P: Fn(u32, u32, u32) -> u32,
    N: Fn(u32) -> u32,
    C: Fn(u32, u32, u32) -> u32,
    S: Fn(u32, u32) -> u32,
    W: Fn(u32, u32) -> u32,
    A: Fn(u32, u32) -> u32,
    L: Fn(u32, u32, u32) -> u8,
    R: Fn(u16, u32, u32) -> u32,
    Q: Fn(&Vec<u32>, &Vec<u8>, usize) -> Vec<u32>,
    M: Fn(u64, u32, u32) -> u64,
    D: Fn(u64, u32, u32) -> u64,
    E: Fn(u64, u64) -> u64,
    K: Fn(u64, u64, u64) -> u32,
>(
    search: &mut BatchSearch,
    queries: &mut Vec<PQQuery>,
    source: &TableSource<'_>,
    start: usize,
    list: usize,
    ids: &[i64],
    codes: &Vec<u8>,
    transposed: bool,
    filter: Option<&F>,
    kernel: &ReadKernel<P, N, C, S, W, A, L, R, Q, M, D, E, K>,
) -> (scanned: bool)
    requires
        old(search).well_formed(),
        start == old(search).probe_start(),
        old(search).read_count() < old(search).planned().len(),
        list == old(search).planned()[old(search).read_count() as int],
        is_read_kernel(*kernel, *source.pq),
        crate::pq_search::codes_fit(*source.pq, codes@, ids@.len() as int, transposed),
        old(queries)@.len() == old(search).queries(),
        forall|q: int|
            0 <= q < old(queries)@.len() ==> (#[trigger] old(queries)@[q]).well_formed(
                *source,
                kernel.tables,
            ) && old(queries)@[q]@.probes == old(search).probes()[q]@,
    ensures
        final(queries)@.len() == old(queries)@.len(),
        forall|q: int|
            0 <= q < old(queries)@.len() ==> (#[trigger] final(queries)@[q]).well_formed(
                *source,
                kernel.tables,
            ) && final(queries)@[q]@ == old(queries)@[q]@,
        scanned <==> forall|q: int|
            0 <= q < old(queries)@.len() && crate::session::probes_list(
                old(search).probes()[q]@,
                start as nat,
                list,
            ) ==> crate::scan::numbers(
                chunk_rows(
                    *kernel,
                    *source,
                    transposed,
                    (#[trigger] old(queries)@[q])@,
                    start as int,
                    list,
                    ids@,
                    *codes,
                    filter,
                ),
            ),
        !scanned ==> *final(search) == *old(search),
        final(search).well_formed(),
        final(search).spec_k() == old(search).spec_k(),
        final(search).probe_start() == old(search).probe_start(),
        final(search).spec_nlist() == old(search).spec_nlist(),
        final(search).probes() == old(search).probes(),
        final(search).planned() == old(search).planned(),
        final(search).read_count() == old(search).read_count(),
        forall|q: int|
            scanned && 0 <= q < old(queries)@.len() ==> chunk_taken(
                *old(search),
                *final(search),
                q,
                list,
                chunk_rows(
                    *kernel,
                    *source,
                    transposed,
                    (#[trigger] old(queries)@[q])@,
                    start as int,
                    list,
                    ids@,
                    *codes,
                    filter,
                ),
            ),
{
    let ghost first = *search;
    let ghost asked = queries@;
    let count: usize = ids.len();
    let rows = matching_rows(ids, filter);
    let matching = as_matching(&rows);
    proof {
        crate::session::lemma_matching(ids@, rows, filter);
        crate::list_search::lemma_passing_rows(ids@, filter);
    }
    let mut distances: Vec<Vec<u32>> = Vec::new();
    let mut q: usize = 0;
    while q < queries.len()
        invariant
            q <= queries@.len(),
            queries@.len() == asked.len(),
            asked.len() == first.queries(),
            start == first.probe_start(),
            count == ids@.len(),
            is_read_kernel(*kernel, *source.pq),
            crate::pq_search::codes_fit(*source.pq, codes@, count as int, transposed),
            crate::session::rows_match(ids@, rows, filter),
            matching is Some == rows is Some,
            rows matches Some(found) ==> matching == Some(&found),
            crate::matching::any_matching(matching) == crate::session::has_rows(rows),
            forall|i: int|
                0 <= i < asked.len() ==> (#[trigger] queries@[i]).well_formed(
                    *source,
                    kernel.tables,
                ) && queries@[i]@ == asked[i]@,
            forall|i: int|
                0 <= i < asked.len() ==> (#[trigger] asked[i])@.probes == first.probes()[i]@,
            distances@.len() == q,
            forall|i: int|
                0 <= i < q && crate::session::probes_list(
                    first.probes()[i]@,
                    start as nat,
                    list,
                ) ==> (#[trigger] distances@[i])@.len() == count
                    && crate::session::allowed_rows(ids@, distances@[i]@, filter) == chunk_rows(
                    *kernel,
                    *source,
                    transposed,
                    asked[i]@,
                    start as int,
                    list,
                    ids@,
                    *codes,
                    filter,
                ),
        decreases asked.len() - q,
    {
        assert(queries@[q as int].well_formed(*source, kernel.tables));
        assert(asked[q as int]@.probes == first.probes()[q as int]@);
        let found = queries[q].chunk_distances(
            source,
            start,
            list,
            codes,
            count,
            transposed,
            matching,
            kernel,
        );
        proof {
            crate::session::lemma_matching(ids@, rows, filter);
            crate::list_search::lemma_passing_rows(ids@, filter);
            if crate::session::probes_list(first.probes()[q as int]@, start as nat, list) {
                let places = crate::session::passing(ids@, filter);
                assert forall|i: int| 0 <= i < places.len() implies
                    crate::pq_scan::is_visited(matching, #[trigger] places[i] as int)
                    && crate::matching::any_matching(matching) by {
                    assert(crate::filter::row_allowed(filter, ids@[places[i] as int]));
                }
                assert(crate::session::allowed_rows(ids@, found@, filter) =~= chunk_rows(
                    *kernel,
                    *source,
                    transposed,
                    asked[q as int]@,
                    start as int,
                    list,
                    ids@,
                    *codes,
                    filter,
                ));
            }
        }
        distances.push(found);
        q = q + 1;
    }
    let scanned: bool = search.try_scan_chunk(list, ids, &rows, &distances, filter);
    proof {
        if scanned {
            assert forall|i: int| 0 <= i < asked.len() implies chunk_taken(
                first,
                *search,
                i,
                list,
                chunk_rows(
                    *kernel,
                    *source,
                    transposed,
                    (#[trigger] asked[i])@,
                    start as int,
                    list,
                    ids@,
                    *codes,
                    filter,
                ),
            ) && (crate::session::probes_list(first.probes()[i]@, start as nat, list)
                ==> crate::scan::numbers(
                chunk_rows(
                    *kernel,
                    *source,
                    transposed,
                    asked[i]@,
                    start as int,
                    list,
                    ids@,
                    *codes,
                    filter,
                ),
            )) by {
                assert(distances@[i]@ == distances@[i]@);
                assert(search.offered(i) == search.offered(i));
                assert(search.kept(i) == search.kept(i));
            }
        } else {
            let i = choose|i: int|
                0 <= i < distances@.len() && crate::session::probes_list(
                    first.probes()[i]@,
                    start as nat,
                    list,
                ) && !crate::scan::numbers(
                    crate::session::allowed_rows(ids@, (#[trigger] distances@[i])@, filter),
                );
            assert(asked[i]@ == asked[i]@);
        }
    }
    scanned
}

/// What a query keeps and was offered after a piece of a list: the items, if it
/// probes the list.
pub open spec fn chunk_taken(
    before: BatchSearch,
    after: BatchSearch,
    q: int,
    list: usize,
    items: Seq<Neighbor>,
) -> bool {
    if crate::session::probes_list(before.probes()[q]@, before.probe_start() as nat, list) {
        &&& after.offered(q) == before.offered(q).add(items.to_multiset())
        &&& after.kept(q) == crate::topk::all_pushed(before.kept(q), before.spec_k() as nat, items)
    } else {
        &&& after.offered(q) == before.offered(q)
        &&& after.kept(q) == before.kept(q)
    }
}

} // verus!
