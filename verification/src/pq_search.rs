//! The tables and distances that a search of product-quantized lists needs.
use crate::distance::MetricType;
use crate::float_ops::operate;
use crate::matching::MatchingRows;
use crate::pq::ProductQuantizer;
use crate::pq_scan::{
    code_layout, packed_distances, transposed_distances, CodeLayout, PackedKernel,
};
use crate::pq_tables::combine;
use vstd::prelude::*;

verus! {

/// What the tables of a search are made from. `precomputed` holds one table
/// for each list, or nothing.
pub struct TableSource<'a> {
    pub pq: &'a ProductQuantizer,
    pub metric: MetricType,
    pub by_residual: bool,
    pub nlist: usize,
    pub centroids: &'a [u32],
    pub precomputed: &'a [u32],
}

/// The partial distances of a query to the centroids of one list, and what is
/// added to the distances of its rows.
pub struct ListTable {
    pub table: Vec<u32>,
    pub base: u32,
}

/// The arithmetic of tables: one step of an inner product, negation, a
/// squared distance from two norms and a product, subtraction, and a list's
/// table entry without twice a product.
pub struct TableKernel<F, N, C, S, W> {
    pub product_step: F,
    pub negate: N,
    pub close: C,
    pub subtract: S,
    pub without_twice: W,
}

pub open spec fn is_table_kernel<
    F: Fn(u32, u32, u32) -> u32,
    N: Fn(u32) -> u32,
    C: Fn(u32, u32, u32) -> u32,
    S: Fn(u32, u32) -> u32,
    W: Fn(u32, u32) -> u32,
>(kernel: TableKernel<F, N, C, S, W>) -> bool {
    &&& crate::pq_tables::is_step(kernel.product_step)
    &&& crate::float_ops::is_map(kernel.negate)
    &&& crate::pq_tables::is_closing(kernel.close)
    &&& crate::float_ops::is_operation(kernel.subtract)
    &&& crate::pq_tables::is_pairing(kernel.without_twice)
}

/// The entry of the table of distances to a vector.
pub open spec fn distance_entry<
    F: Fn(u32, u32, u32) -> u32,
    N: Fn(u32) -> u32,
    C: Fn(u32, u32, u32) -> u32,
    S: Fn(u32, u32) -> u32,
    W: Fn(u32, u32) -> u32,
>(
    kernel: TableKernel<F, N, C, S, W>,
    pq: ProductQuantizer,
    metric: MetricType,
    vector: Seq<u32>,
    at: int,
) -> u32 {
    crate::pq_tables::distance_table_entry(
        kernel.product_step,
        kernel.negate,
        kernel.close,
        pq,
        metric,
        vector,
        at,
    )
}

/// What a query is compared with the codebook by: its residual from the
/// centroid of the list, or itself.
pub open spec fn compared_vector<S: Fn(u32, u32) -> u32>(
    subtract: S,
    by_residual: bool,
    query: Seq<u32>,
    centroids: Seq<u32>,
    list: int,
) -> Seq<u32> {
    if by_residual {
        Seq::new(
            query.len(),
            |i: int|
                crate::float_ops::result_of(
                    subtract,
                    query[i],
                    centroids[list * query.len() + i],
                ),
        )
    } else {
        query
    }
}

/// The entry of the table of a query and a list, from the training state of an
/// index and the tables of its lists.
pub open spec fn list_entry<
    F: Fn(u32, u32, u32) -> u32,
    N: Fn(u32) -> u32,
    C: Fn(u32, u32, u32) -> u32,
    S: Fn(u32, u32) -> u32,
    W: Fn(u32, u32) -> u32,
>(
    kernel: TableKernel<F, N, C, S, W>,
    pq: ProductQuantizer,
    metric: MetricType,
    by_residual: bool,
    centroids: Seq<u32>,
    precomputed: Seq<u32>,
    query: Seq<u32>,
    list: int,
    products: Option<Seq<u32>>,
    at: int,
) -> u32 {
    match products {
        Some(products) => crate::pq_tables::paired(
            kernel.without_twice,
            precomputed[list * (pq.spec_m() * pq.spec_ksub()) + at],
            products[at],
        ),
        None => distance_entry(
            kernel,
            pq,
            metric,
            compared_vector(kernel.subtract, by_residual, query, centroids, list),
            at,
        ),
    }
}

impl<'a> TableSource<'a> {
    /// The codebook is trained and there is a centroid for each list.
    pub open spec fn well_formed(self) -> bool {
        &&& crate::pq_tables::is_trained(*self.pq)
        &&& self.pq.norms().len() == self.pq.spec_m() * self.pq.spec_ksub()
        &&& self.centroids@.len() == self.nlist * self.pq.spec_d()
    }

    /// The entry of the table of a query and a list. Where the query's inner
    /// products are given, they are combined with the list's own table.
    pub open spec fn entry<
        F: Fn(u32, u32, u32) -> u32,
        N: Fn(u32) -> u32,
        C: Fn(u32, u32, u32) -> u32,
        S: Fn(u32, u32) -> u32,
        W: Fn(u32, u32) -> u32,
    >(
        self,
        kernel: TableKernel<F, N, C, S, W>,
        query: Seq<u32>,
        list: int,
        products: Option<Seq<u32>>,
        at: int,
    ) -> u32 {
        list_entry(
            kernel,
            *self.pq,
            self.metric,
            self.by_residual,
            self.centroids@,
            self.precomputed@,
            query,
            list,
            products,
            at,
        )
    }

    /// The table of partial distances of a query to the rows of a list.
    pub fn list_table<
        F: Fn(u32, u32, u32) -> u32,
        N: Fn(u32) -> u32,
        C: Fn(u32, u32, u32) -> u32,
        S: Fn(u32, u32) -> u32,
        W: Fn(u32, u32) -> u32,
    >(
        &self,
        query: &[u32],
        list: usize,
        products: Option<&[u32]>,
        kernel: &TableKernel<F, N, C, S, W>,
    ) -> (table: Vec<u32>)
        requires
            self.well_formed(),
            is_table_kernel(*kernel),
            query@.len() == self.pq.spec_d(),
            list < self.nlist,
            products matches Some(products) ==> products@.len() == self.pq.spec_m()
                * self.pq.spec_ksub() && self.precomputed@.len() == self.nlist * (
            self.pq.spec_m() * self.pq.spec_ksub()),
        ensures
            table@ == Seq::new(
                (self.pq.spec_m() * self.pq.spec_ksub()) as nat,
                |at: int|
                    self.entry(
                        *kernel,
                        query@,
                        list as int,
                        crate::sq_distance::offset_view(products),
                        at,
                    ),
            ),
    {
        let size: usize = self.pq.m() * self.pq.ksub();
        let ghost expected = Seq::new(
            (self.pq.spec_m() * self.pq.spec_ksub()) as nat,
            |at: int|
                self.entry(
                    *kernel,
                    query@,
                    list as int,
                    crate::sq_distance::offset_view(products),
                    at,
                ),
        );
        match products {
            Some(products) => {
                let all: usize = self.precomputed.len();
                let nlist: usize = self.nlist;
                assert(0 <= list * size && list * size + size <= nlist * size)
                    by (nonlinear_arith)
                    requires
                        list < nlist,
                ;
                let start: usize = list * size;
                let own = vstd::slice::slice_subrange(self.precomputed, start, start + size);
                let table = combine(own, products, &kernel.without_twice);
                assert(table@ =~= expected);
                table
            },
            None => {
                if self.by_residual {
                    let residual = self.residual(query, list, &kernel.subtract);
                    let table = self.pq.compute_distance_table(
                        residual.as_slice(),
                        self.metric,
                        &kernel.product_step,
                        &kernel.negate,
                        &kernel.close,
                    );
                    assert(table@ =~= expected);
                    table
                } else {
                    let table = self.pq.compute_distance_table(
                        query,
                        self.metric,
                        &kernel.product_step,
                        &kernel.negate,
                        &kernel.close,
                    );
                    assert(table@ =~= expected);
                    table
                }
            },
        }
    }

    /// The table of a query and a list, and what is added to the distances of
    /// the list's rows: a list's own table leaves out the distance of the query
    /// to the list's centroid.
    pub fn scan_table<
        F: Fn(u32, u32, u32) -> u32,
        N: Fn(u32) -> u32,
        C: Fn(u32, u32, u32) -> u32,
        S: Fn(u32, u32) -> u32,
        W: Fn(u32, u32) -> u32,
    >(
        &self,
        query: &[u32],
        list: usize,
        products: Option<&[u32]>,
        coarse: u32,
        kernel: &TableKernel<F, N, C, S, W>,
    ) -> (table: ListTable)
        requires
            self.well_formed(),
            is_table_kernel(*kernel),
            query@.len() == self.pq.spec_d(),
            list < self.nlist,
            products matches Some(products) ==> products@.len() == self.pq.spec_m()
                * self.pq.spec_ksub() && self.precomputed@.len() == self.nlist * (
            self.pq.spec_m() * self.pq.spec_ksub()),
        ensures
            table.table@ == Seq::new(
                (self.pq.spec_m() * self.pq.spec_ksub()) as nat,
                |at: int|
                    self.entry(
                        *kernel,
                        query@,
                        list as int,
                        crate::sq_distance::offset_view(products),
                        at,
                    ),
            ),
            table.base == (if products is Some {
                coarse
            } else {
                0
            }),
    {
        let base: u32 = if products.is_some() {
            coarse
        } else {
            0
        };
        ListTable { table: self.list_table(query, list, products, kernel), base }
    }

    /// A query without the centroid of a list.
    fn residual<S: Fn(u32, u32) -> u32>(&self, query: &[u32], list: usize, subtract: &S) -> (residual:
        Vec<u32>)
        requires
            self.well_formed(),
            crate::float_ops::is_operation(*subtract),
            query@.len() == self.pq.spec_d(),
            list < self.nlist,
        ensures
            residual@ == compared_vector(*subtract, true, query@, self.centroids@, list as int),
    {
        let d: usize = query.len();
        let nlist: usize = self.nlist;
        let total: usize = self.centroids.len();
        let ghost expected = compared_vector(
            *subtract,
            true,
            query@,
            self.centroids@,
            list as int,
        );
        assert(0 <= list * d && list * d + d <= nlist * d) by (nonlinear_arith)
            requires
                list < nlist,
        ;
        let mut residual: Vec<u32> = Vec::new();
        let mut i: usize = 0;
        while i < d
            invariant
                crate::float_ops::is_operation(*subtract),
                d == query@.len(),
                total == self.centroids@.len(),
                0 <= list * d,
                list * d + d <= total,
                i <= d,
                expected == compared_vector(
                    *subtract,
                    true,
                    query@,
                    self.centroids@,
                    list as int,
                ),
                residual@ == expected.take(i as int),
            decreases d - i,
        {
            residual.push(operate(subtract, query[i], self.centroids[list * d + i]));
            i = i + 1;
            assert(residual@ =~= expected.take(i as int));
        }
        assert(residual@ =~= expected);
        residual
    }
}

/// The distance of a row, from its list's table. Packed codes stored by rows
/// are measured by `packed`, which is handed in.
pub open spec fn measured<
    A: Fn(u32, u32) -> u32,
    L: Fn(u32, u32, u32) -> u8,
    R: Fn(u16, u32, u32) -> u32,
>(
    kernel: PackedKernel<A, L, R>,
    pq: ProductQuantizer,
    table: Seq<u32>,
    codes: Seq<u8>,
    count: int,
    transposed: bool,
    base: u32,
    packed: Seq<u32>,
    row: int,
) -> u32 {
    let m = pq.spec_m() as nat;
    if pq.spec_nbits() == 4 {
        crate::float_ops::result_of(
            kernel.add,
            base,
            if transposed {
                crate::pq_scan::quantized_distance(kernel, table, codes, count, m / 2, row)
            } else {
                packed[row]
            },
        )
    } else if transposed {
        crate::pq_scan::column_distance(
            kernel.add,
            table,
            codes,
            count,
            pq.spec_ksub() as int,
            base,
            row,
            m,
        )
    } else {
        crate::float_ops::result_of(
            kernel.add,
            base,
            crate::pq_tables::code_distance(
                kernel.add,
                pq,
                table,
                codes.subrange(row * m, (row + 1) * m),
                m,
            ),
        )
    }
}

/// The number is the distance of a row.
pub open spec fn measures<
    A: Fn(u32, u32) -> u32,
    L: Fn(u32, u32, u32) -> u8,
    R: Fn(u16, u32, u32) -> u32,
>(
    kernel: PackedKernel<A, L, R>,
    pq: ProductQuantizer,
    table: Seq<u32>,
    codes: Seq<u8>,
    count: int,
    transposed: bool,
    base: u32,
    packed: Seq<u32>,
    row: int,
    distance: u32,
) -> bool {
    distance == measured(kernel, pq, table, codes, count, transposed, base, packed, row)
}

/// The function measures packed codes that are stored by rows: one distance
/// for each row, by what the table and the codes hold alone.
pub open spec fn is_row_scan<S: Fn(&Vec<u32>, &Vec<u8>, usize) -> Vec<u32>>(
    scan: S,
    size: int,
) -> bool {
    &&& forall|table: &Vec<u32>, codes: &Vec<u8>, count: usize|
        codes@.len() == count * size ==> #[trigger] call_requires(scan, (table, codes, count))
    &&& forall|table: &Vec<u32>, codes: &Vec<u8>, count: usize, sums: Vec<u32>| #[trigger]
        call_ensures(scan, (table, codes, count), sums) ==> sums@.len() == count
    &&& forall|
        a: &Vec<u32>,
        b: &Vec<u32>,
        codes: &Vec<u8>,
        count: usize,
        x: Vec<u32>,
        y: Vec<u32>,
    |
        #![trigger call_ensures(scan, (a, codes, count), x), call_ensures(scan, (b, codes, count), y)]
        a@ == b@ && call_ensures(scan, (a, codes, count), x) && call_ensures(
            scan,
            (b, codes, count),
            y,
        ) ==> x@ == y@
}

/// The distances that a scan gives to rows.
pub open spec fn row_sums<S: Fn(&Vec<u32>, &Vec<u8>, usize) -> Vec<u32>>(
    scan: S,
    table: Seq<u32>,
    codes: Vec<u8>,
    count: usize,
) -> Seq<u32> {
    let (_, sums) = choose|own: Vec<u32>, sums: Vec<u32>|
        own@ == table && #[trigger] call_ensures(scan, (&own, &codes, count), sums);
    sums@
}

/// The distances of the rows of a list that are scanned, whichever way its
/// codes are stored; rows that are not scanned have no particular distance.
pub fn list_distances<
    A: Fn(u32, u32) -> u32,
    L: Fn(u32, u32, u32) -> u8,
    R: Fn(u16, u32, u32) -> u32,
>(
    pq: &ProductQuantizer,
    table: &[u32],
    codes: &[u8],
    count: usize,
    transposed: bool,
    base: u32,
    rows: Option<&MatchingRows>,
    packed: &[u32],
    kernel: &PackedKernel<A, L, R>,
) -> (distances: Vec<u32>)
    requires
        pq.well_formed(),
        crate::pq_scan::is_packed_kernel(*kernel),
        table@.len() == pq.spec_m() * pq.spec_ksub(),
        codes@.len() == count * pq.spec_code_size(),
        rows matches Some(found) ==> found.well_formed(count as nat),
        pq.spec_nbits() == 4 && transposed ==> pq.spec_m() % 2 == 0 && pq.spec_m() * 255
            <= u16::MAX,
        pq.spec_nbits() == 4 && !transposed ==> packed@.len() == count,
    ensures
        distances@.len() == count,
        forall|row: int|
            0 <= row < count && crate::pq_scan::is_visited(rows, row) ==> measures(
                *kernel,
                *pq,
                table@,
                codes@,
                count as int,
                transposed,
                base,
                packed@,
                row,
                #[trigger] distances@[row],
            ),
{
    let m: usize = pq.m();
    let ksub: usize = pq.ksub();
    match code_layout(pq.nbits(), transposed) {
        CodeLayout::Columns => {
            assert(m * count == count * m) by (nonlinear_arith);
            transposed_distances(table, codes, count, m, ksub, base, rows, &kernel.add)
        },
        CodeLayout::PackedColumns => {
            assert((m / 2) * count == count * (m / 2)) by (nonlinear_arith);
            packed_distances(table, codes, count, m, base, kernel)
        },
        CodeLayout::PackedRows => {
            let mut distances: Vec<u32> = Vec::new();
            let mut row: usize = 0;
            while row < count
                invariant
                    crate::pq_scan::is_packed_kernel(*kernel),
                    packed@.len() == count,
                    row <= count,
                    distances@.len() == row,
                    forall|r: int|
                        0 <= r < row ==> #[trigger] distances@[r] == crate::float_ops::result_of(
                            kernel.add,
                            base,
                            packed@[r],
                        ),
                decreases count - row,
            {
                distances.push(operate(&kernel.add, base, packed[row]));
                row = row + 1;
            }
            distances
        },
        CodeLayout::Rows => {
            let total: usize = codes.len();
            let mut distances: Vec<u32> = Vec::new();
            let mut row: usize = 0;
            while row < count
                invariant
                    pq.well_formed(),
                    crate::pq_scan::is_packed_kernel(*kernel),
                    m == pq.spec_m(),
                    pq.spec_nbits() == 8,
                    table@.len() == pq.spec_m() * pq.spec_ksub(),
                    total == codes@.len(),
                    total == count * m,
                    rows matches Some(found) ==> found.well_formed(count as nat),
                    row <= count,
                    distances@.len() == row,
                    forall|r: int|
                        0 <= r < row && crate::pq_scan::is_visited(rows, r) ==> measures(
                            *kernel,
                            *pq,
                            table@,
                            codes@,
                            count as int,
                            false,
                            base,
                            packed@,
                            r,
                            #[trigger] distances@[r],
                        ),
                decreases count - row,
            {
                let scanned: bool = match rows {
                    Some(found) => found.contains(row),
                    None => true,
                };
                if scanned {
                    assert(0 <= row * m && row * m + m == (row + 1) * m && (row + 1) * m <= count
                        * m) by (nonlinear_arith)
                        requires
                            row < count,
                    ;
                    let start: usize = row * m;
                    let code = vstd::slice::slice_subrange(codes, start, start + m);
                    let distance: u32 = pq.distance_from_table(table, code, &kernel.add);
                    distances.push(operate(&kernel.add, base, distance));
                } else {
                    distances.push(base);
                }
                row = row + 1;
            }
            distances
        },
    }
}

/// The distance of a row of stored codes, from its list's table.
pub open spec fn scanned_distance<
    A: Fn(u32, u32) -> u32,
    L: Fn(u32, u32, u32) -> u8,
    R: Fn(u16, u32, u32) -> u32,
    Q: Fn(&Vec<u32>, &Vec<u8>, usize) -> Vec<u32>,
>(
    packed: PackedKernel<A, L, R>,
    scan: Q,
    pq: ProductQuantizer,
    table: Seq<u32>,
    codes: Vec<u8>,
    count: usize,
    transposed: bool,
    base: u32,
    row: int,
) -> u32 {
    measured(
        packed,
        pq,
        table,
        codes@,
        count as int,
        transposed,
        base,
        row_sums(scan, table, codes, count),
        row,
    )
}

/// The codes of a list's rows can be scanned.
pub open spec fn codes_fit(
    pq: ProductQuantizer,
    codes: Seq<u8>,
    count: int,
    transposed: bool,
) -> bool {
    &&& codes.len() == count * pq.spec_code_size()
    &&& pq.spec_nbits() == 4 && transposed ==> pq.spec_m() % 2 == 0 && pq.spec_m() * 255
        <= u16::MAX
}

/// The distances of the scanned rows of a list, from its table. Packed codes
/// that are stored by rows are measured by `scan`.
pub fn code_distances<
    A: Fn(u32, u32) -> u32,
    L: Fn(u32, u32, u32) -> u8,
    R: Fn(u16, u32, u32) -> u32,
    Q: Fn(&Vec<u32>, &Vec<u8>, usize) -> Vec<u32>,
>(
    pq: &ProductQuantizer,
    table: &Vec<u32>,
    codes: &Vec<u8>,
    count: usize,
    transposed: bool,
    base: u32,
    rows: Option<&MatchingRows>,
    packed: &PackedKernel<A, L, R>,
    scan: &Q,
) -> (distances: Vec<u32>)
    requires
        pq.well_formed(),
        table@.len() == pq.spec_m() * pq.spec_ksub(),
        codes_fit(*pq, codes@, count as int, transposed),
        rows matches Some(found) ==> found.well_formed(count as nat),
        crate::pq_scan::is_packed_kernel(*packed),
        is_row_scan(*scan, pq.spec_code_size()),
    ensures
        distances@.len() == count,
        forall|row: int|
            0 <= row < count && crate::pq_scan::is_visited(rows, row)
                ==> #[trigger] distances@[row] == scanned_distance(
                *packed,
                *scan,
                *pq,
                table@,
                *codes,
                count,
                transposed,
                base,
                row,
            ),
{
    let sums: Vec<u32> = if pq.nbits() == 4 && !transposed {
        let sums: Vec<u32> = scan(table, codes, count);
        proof {
            let (own, given) = choose|own: Vec<u32>, given: Vec<u32>|
                own@ == table@ && #[trigger] call_ensures(*scan, (&own, codes, count), given);
            assert(call_ensures(*scan, (table, codes, count), sums));
            assert(sums@ == row_sums(*scan, table@, *codes, count));
        }
        sums
    } else {
        Vec::new()
    };
    list_distances(
        pq,
        table.as_slice(),
        codes.as_slice(),
        count,
        transposed,
        base,
        rows,
        sums.as_slice(),
        packed,
    )
}

} // verus!
