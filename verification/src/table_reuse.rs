//! Sharing distance tables across a batch of queries: when it pays, and what
//! a batch scan counts.
use crate::arith::saturating_product;
use crate::distance::MetricType;
use crate::matching::{should_scan_sparse, MatchingRows};
use vstd::prelude::*;

verus! {

/// Fewest queries for which tables are shared on their own account.
pub const MIN_EPHEMERAL_PRECOMPUTE_QUERIES: usize = 64;

pub const DEFAULT_IVFPQ_BATCH_TABLE_REUSE_MAX_BYTES: usize = 536_870_912;

/// A row-major scan visits rows one by one if at most one in four matches.
pub const ROW_MAJOR_SPARSE_SCAN_DIVISOR: usize = 4;

/// A transposed scan visits rows one by one if at most one in eight matches.
pub const TRANSPOSED_SPARSE_SCAN_DIVISOR: usize = 8;

/// Whether a batch search shares distance tables.
#[derive(Debug, Clone, Copy, PartialEq, Eq, Structural)]
pub enum IvfPqBatchTableReuseMode {
    Off,
    On,
    Auto,
}

impl IvfPqBatchTableReuseMode {
    /// The number that stands for the mode outside the library.
    pub fn code(self) -> (code: u32)
        ensures
            code == (match self {
                IvfPqBatchTableReuseMode::Off => 0u32,
                IvfPqBatchTableReuseMode::On => 1u32,
                IvfPqBatchTableReuseMode::Auto => 2u32,
            }),
    {
        match self {
            IvfPqBatchTableReuseMode::Off => 0,
            IvfPqBatchTableReuseMode::On => 1,
            IvfPqBatchTableReuseMode::Auto => 2,
        }
    }
}

/// Setting up one table per list and per query pays if the probes use each of
/// them at least twice.
pub open spec fn reuse_pays(lists: int, queries: int, probes: int) -> bool {
    let tables = crate::arith::sat_add(lists, queries);
    tables > 0 && probes >= crate::arith::sat_mul(tables, 2)
}

pub fn should_use_ephemeral_precomputation(
    matching_list_count: usize,
    active_query_count: usize,
    probe_count: usize,
) -> (pays: bool)
    ensures
        pays == reuse_pays(
            matching_list_count as int,
            active_query_count as int,
            probe_count as int,
        ),
{
    let tables: usize = matching_list_count.saturating_add(active_query_count);
    tables > 0 && probe_count >= saturating_product(tables, 2)
}

/// The tables of the matching lists, one shared table and one per concurrent
/// query fit the budget, at eight bytes per entry.
pub open spec fn tables_fit(lists: int, scratch: int, m: int, ksub: int, max_bytes: int) -> bool {
    let tables = lists + 1 + scratch;
    &&& lists > 0
    &&& tables <= usize::MAX
    &&& tables * m <= usize::MAX
    &&& tables * m * ksub <= usize::MAX
    &&& tables * m * ksub * 8 <= max_bytes
}

pub fn ephemeral_precomputed_table_fits_budget(
    matching_list_count: usize,
    query_scratch_count: usize,
    m: usize,
    ksub: usize,
    max_bytes: usize,
) -> (fits: bool)
    ensures
        fits == tables_fit(
            matching_list_count as int,
            query_scratch_count as int,
            m as int,
            ksub as int,
            max_bytes as int,
        ),
{
    if matching_list_count == 0 {
        return false;
    }
    let tables: usize = match matching_list_count.checked_add(1) {
        Some(tables) => tables,
        None => {
            return false;
        },
    };
    let tables: usize = match tables.checked_add(query_scratch_count) {
        Some(tables) => tables,
        None => {
            return false;
        },
    };
    let rows: usize = match tables.checked_mul(m) {
        Some(rows) => rows,
        None => {
            return false;
        },
    };
    let values: usize = match rows.checked_mul(ksub) {
        Some(values) => values,
        None => {
            return false;
        },
    };
    match values.checked_mul(8) {
        Some(bytes) => bytes <= max_bytes,
        None => false,
    }
}

/// One table of four-byte entries per query fits the budget.
pub open spec fn query_tables_fit(nq: int, m: int, ksub: int, max_bytes: int) -> bool {
    &&& nq * m <= usize::MAX
    &&& nq * m * ksub <= usize::MAX
    &&& nq * m * ksub * 4 <= max_bytes
}

pub fn reused_query_tables_fit_budget(nq: usize, m: usize, ksub: usize, max_bytes: usize) -> (fits:
    bool)
    ensures
        fits == query_tables_fit(nq as int, m as int, ksub as int, max_bytes as int),
{
    let rows: usize = match nq.checked_mul(m) {
        Some(rows) => rows,
        None => {
            return false;
        },
    };
    let values: usize = match rows.checked_mul(ksub) {
        Some(values) => values,
        None => {
            return false;
        },
    };
    match values.checked_mul(4) {
        Some(bytes) => bytes <= max_bytes,
        None => false,
    }
}

/// How many of a query's first `upto` probes name a list with rows.
pub open spec fn live_probes(probes: Seq<usize>, counts: Seq<i32>, upto: nat) -> nat
    decreases upto,
{
    if upto == 0 {
        0
    } else {
        live_probes(probes, counts, (upto - 1) as nat) + (if counts[probes[upto - 1] as int] > 0 {
            1nat
        } else {
            0
        })
    }
}

/// Queries with a live probe, and live probes, among the first `upto` queries.
pub open spec fn live_totals(probes: Seq<Vec<usize>>, counts: Seq<i32>, upto: nat) -> (nat, nat)
    decreases upto,
{
    if upto == 0 {
        (0, 0)
    } else {
        let before = live_totals(probes, counts, (upto - 1) as nat);
        let live = live_probes(probes[upto - 1]@, counts, probes[upto - 1]@.len());
        (
            before.0 + (if live > 0 {
                1nat
            } else {
                0
            }),
            before.1 + live,
        )
    }
}

/// All probes of all queries.
pub open spec fn probe_total(probes: Seq<Vec<usize>>, upto: nat) -> nat
    decreases upto,
{
    if upto == 0 {
        0
    } else {
        probe_total(probes, (upto - 1) as nat) + probes[upto - 1]@.len()
    }
}

proof fn lemma_live_probes_bound(probes: Seq<usize>, counts: Seq<i32>, upto: nat)
    ensures
        live_probes(probes, counts, upto) <= upto,
    decreases upto,
{
    if upto > 0 {
        lemma_live_probes_bound(probes, counts, (upto - 1) as nat);
    }
}

proof fn lemma_probe_total_monotone(probes: Seq<Vec<usize>>, a: nat, b: nat)
    requires
        a <= b,
    ensures
        probe_total(probes, a) <= probe_total(probes, b),
    decreases b,
{
    if a < b {
        lemma_probe_total_monotone(probes, a, (b - 1) as nat);
    }
}

/// Counts the queries that probe a list with rows, and those probes.
pub fn count_live_probes(probes: &Vec<Vec<usize>>, counts: &[i32]) -> (totals: (usize, usize))
    requires
        crate::plan::probes_valid(probes@, counts@.len()),
        probe_total(probes@, probes@.len()) <= usize::MAX,
    ensures
        totals.0 == live_totals(probes@, counts@, probes@.len()).0,
        totals.1 == live_totals(probes@, counts@, probes@.len()).1,
{
    let mut active: usize = 0;
    let mut total: usize = 0;
    let mut q: usize = 0;
    while q < probes.len()
        invariant
            q <= probes@.len(),
            crate::plan::probes_valid(probes@, counts@.len()),
            probe_total(probes@, probes@.len()) <= usize::MAX,
            active == live_totals(probes@, counts@, q as nat).0,
            total == live_totals(probes@, counts@, q as nat).1,
            active <= q,
            total <= probe_total(probes@, q as nat),
        decreases probes@.len() - q,
    {
        let row = &probes[q];
        let mut live: usize = 0;
        let mut r: usize = 0;
        while r < row.len()
            invariant
                q < probes@.len(),
                row@ == probes@[q as int]@,
                r <= row@.len(),
                crate::plan::probes_valid(probes@, counts@.len()),
                live == live_probes(row@, counts@, r as nat),
                live <= r,
            decreases row@.len() - r,
        {
            assert(probes@[q as int]@[r as int] < counts@.len());
            let list: usize = row[r];
            if counts[list] > 0 {
                live = live + 1;
            }
            r = r + 1;
        }
        proof {
            lemma_probe_total_monotone(probes@, (q + 1) as nat, probes@.len());
        }
        if live > 0 {
            active = active + 1;
        }
        total = total + live;
        q = q + 1;
    }
    (active, total)
}

/// Which tables a batch search shares.
#[derive(Debug, Clone, Copy, PartialEq, Eq, Structural)]
pub struct TableReuse {
    /// The stored tables are combined with one table per query.
    pub use_precomputed: bool,
    /// Tables may be computed for the lists of a read.
    pub allow_ephemeral: bool,
    /// Each query computes one table for all its lists.
    pub reuse_non_residual: bool,
}

/// The shape of a batch request.
#[derive(Debug, Clone, Copy)]
pub struct BatchShape {
    pub nq: usize,
    pub m: usize,
    pub ksub: usize,
    pub nbits: usize,
    pub metric: MetricType,
    pub by_residual: bool,
    pub has_precomputed: bool,
    pub probe_start: usize,
    pub probe_end: usize,
}

/// Which tables are shared, given the queries with a live probe and the live
/// probes.
pub open spec fn table_reuse(
    shape: BatchShape,
    mode: IvfPqBatchTableReuseMode,
    max_bytes: int,
    active: int,
    live: int,
) -> TableReuse {
    let fits = query_tables_fit(
        shape.nq as int,
        shape.m as int,
        shape.ksub as int,
        max_bytes,
    );
    let residual_l2 = shape.metric == MetricType::L2 && shape.by_residual;
    let use_precomputed = mode != IvfPqBatchTableReuseMode::Off && residual_l2
        && shape.has_precomputed && fits;
    TableReuse {
        use_precomputed,
        allow_ephemeral: shape.nbits == 8 && residual_l2 && !use_precomputed && match mode {
            IvfPqBatchTableReuseMode::Off => false,
            IvfPqBatchTableReuseMode::On => true,
            IvfPqBatchTableReuseMode::Auto => shape.nq >= MIN_EPHEMERAL_PRECOMPUTE_QUERIES,
        },
        reuse_non_residual: shape.nbits == 8 && !shape.by_residual && shape.probe_end
            - shape.probe_start > 1 && match mode {
            IvfPqBatchTableReuseMode::Off => false,
            IvfPqBatchTableReuseMode::On => true,
            IvfPqBatchTableReuseMode::Auto => shape.nq >= MIN_EPHEMERAL_PRECOMPUTE_QUERIES
                && reuse_pays(0, active, live),
        } && fits,
    }
}

/// Decides which tables a batch search shares.
pub fn plan_table_reuse(
    shape: BatchShape,
    mode: IvfPqBatchTableReuseMode,
    max_bytes: usize,
    probes: &Vec<Vec<usize>>,
    counts: &[i32],
) -> (plan: TableReuse)
    requires
        shape.probe_start <= shape.probe_end,
        crate::plan::probes_valid(probes@, counts@.len()),
        probe_total(probes@, probes@.len()) <= usize::MAX,
    ensures
        plan == table_reuse(
            shape,
            mode,
            max_bytes as int,
            live_totals(probes@, counts@, probes@.len()).0 as int,
            live_totals(probes@, counts@, probes@.len()).1 as int,
        ),
{
    let fits: bool = reused_query_tables_fit_budget(shape.nq, shape.m, shape.ksub, max_bytes);
    let residual_l2: bool = shape.metric == MetricType::L2 && shape.by_residual;
    let use_precomputed: bool = mode != IvfPqBatchTableReuseMode::Off && residual_l2
        && shape.has_precomputed && fits;
    let wanted: bool = match mode {
        IvfPqBatchTableReuseMode::Off => false,
        IvfPqBatchTableReuseMode::On => true,
        IvfPqBatchTableReuseMode::Auto => shape.nq >= MIN_EPHEMERAL_PRECOMPUTE_QUERIES,
    };
    let allow_ephemeral: bool = shape.nbits == 8 && residual_l2 && !use_precomputed && wanted;
    let mut reuse_non_residual: bool = shape.nbits == 8 && !shape.by_residual && shape.probe_end
        - shape.probe_start > 1 && wanted;
    if reuse_non_residual && mode == IvfPqBatchTableReuseMode::Auto {
        let (active, live) = count_live_probes(probes, counts);
        reuse_non_residual = should_use_ephemeral_precomputation(0, active, live);
    }
    TableReuse {
        use_precomputed,
        allow_ephemeral,
        reuse_non_residual: reuse_non_residual && fits,
    }
}

/// A probe that finds rows to scan among the loaded lists.
pub open spec fn finds_rows(
    positions: Seq<usize>,
    rows: Seq<Option<MatchingRows>>,
    list: usize,
) -> bool {
    let position = positions[list as int];
    position != usize::MAX && (match rows[position as int] {
        Some(found) => found.spec_len() > 0,
        None => true,
    })
}

/// How many of a query's probes of ranks `start..upto` find rows.
pub open spec fn matching_probes(
    probes: Seq<usize>,
    start: nat,
    upto: nat,
    positions: Seq<usize>,
    rows: Seq<Option<MatchingRows>>,
) -> nat
    decreases upto,
{
    if upto <= start {
        0
    } else {
        matching_probes(probes, start, (upto - 1) as nat, positions, rows) + (if finds_rows(
            positions,
            rows,
            probes[upto - 1],
        ) {
            1nat
        } else {
            0
        })
    }
}

/// Queries with a probe that finds rows, and those probes, among the first
/// `upto` queries.
pub open spec fn matching_totals(
    probes: Seq<Vec<usize>>,
    start: nat,
    upto: nat,
    positions: Seq<usize>,
    rows: Seq<Option<MatchingRows>>,
) -> (nat, nat)
    decreases upto,
{
    if upto == 0 {
        (0, 0)
    } else {
        let before = matching_totals(probes, start, (upto - 1) as nat, positions, rows);
        let found = matching_probes(
            probes[upto - 1]@,
            start,
            probes[upto - 1]@.len(),
            positions,
            rows,
        );
        (
            before.0 + (if found > 0 {
                1nat
            } else {
                0
            }),
            before.1 + found,
        )
    }
}

/// Counts the queries and probes that find rows among the loaded lists.
pub fn count_matching_probes(
    probes: &Vec<Vec<usize>>,
    start: usize,
    positions: &Vec<usize>,
    rows: &Vec<Option<MatchingRows>>,
) -> (totals: (usize, usize))
    requires
        crate::plan::probes_valid(probes@, positions@.len()),
        forall|l: int|
            0 <= l < positions@.len() && #[trigger] positions@[l] != usize::MAX ==> positions@[l]
                < rows@.len(),
        probe_total(probes@, probes@.len()) <= usize::MAX,
    ensures
        totals.0 == matching_totals(probes@, start as nat, probes@.len(), positions@, rows@).0,
        totals.1 == matching_totals(probes@, start as nat, probes@.len(), positions@, rows@).1,
{
    let mut active: usize = 0;
    let mut total: usize = 0;
    let mut q: usize = 0;
    while q < probes.len()
        invariant
            q <= probes@.len(),
            crate::plan::probes_valid(probes@, positions@.len()),
            forall|l: int|
                0 <= l < positions@.len() && #[trigger] positions@[l] != usize::MAX
                    ==> positions@[l] < rows@.len(),
            probe_total(probes@, probes@.len()) <= usize::MAX,
            active == matching_totals(probes@, start as nat, q as nat, positions@, rows@).0,
            total == matching_totals(probes@, start as nat, q as nat, positions@, rows@).1,
            active <= q,
            total <= probe_total(probes@, q as nat),
        decreases probes@.len() - q,
    {
        let row = &probes[q];
        let mut found: usize = 0;
        let mut r: usize = start;
        while r < row.len()
            invariant
                q < probes@.len(),
                row@ == probes@[q as int]@,
                start <= r,
                start <= row@.len() ==> r <= row@.len(),
                start > row@.len() ==> r == start,
                crate::plan::probes_valid(probes@, positions@.len()),
                forall|l: int|
                    0 <= l < positions@.len() && #[trigger] positions@[l] != usize::MAX
                        ==> positions@[l] < rows@.len(),
                found == matching_probes(row@, start as nat, r as nat, positions@, rows@),
                found <= r - start,
            decreases row@.len() - r,
        {
            assert(probes@[q as int]@[r as int] < positions@.len());
            let list: usize = row[r];
            let position: usize = positions[list];
            if position != usize::MAX {
                let any: bool = match &rows[position] {
                    Some(matching) => !matching.is_empty(),
                    None => true,
                };
                if any {
                    found = found + 1;
                }
            }
            r = r + 1;
        }
        proof {
            lemma_probe_total_monotone(probes@, (q + 1) as nat, probes@.len());
            if start > row@.len() {
                assert(matching_probes(row@, start as nat, row@.len(), positions@, rows@) == 0);
            }
        }
        if found > 0 {
            active = active + 1;
        }
        total = total + found;
        q = q + 1;
    }
    (active, total)
}

/// How many lists have rows to scan.
pub open spec fn matching_lists(rows: Seq<Option<MatchingRows>>, upto: nat) -> nat
    decreases upto,
{
    if upto == 0 {
        0
    } else {
        matching_lists(rows, (upto - 1) as nat) + (match rows[upto - 1] {
            Some(found) => if found.spec_len() > 0 {
                1nat
            } else {
                0
            },
            None => 1,
        })
    }
}

/// Whether tables are computed for the lists of this read.
pub fn plan_ephemeral_tables(
    plan: TableReuse,
    mode: IvfPqBatchTableReuseMode,
    m: usize,
    ksub: usize,
    max_bytes: usize,
    threads: usize,
    probes: &Vec<Vec<usize>>,
    start: usize,
    positions: &Vec<usize>,
    rows: &Vec<Option<MatchingRows>>,
) -> (compute: bool)
    requires
        crate::plan::probes_valid(probes@, positions@.len()),
        forall|l: int|
            0 <= l < positions@.len() && #[trigger] positions@[l] != usize::MAX ==> positions@[l]
                < rows@.len(),
        probe_total(probes@, probes@.len()) <= usize::MAX,
    ensures
        compute == ({
            let lists = matching_lists(rows@, rows@.len()) as int;
            let totals = matching_totals(
                probes@,
                start as nat,
                probes@.len(),
                positions@,
                rows@,
            );
            let scratch = if totals.0 < threads {
                totals.0 as int
            } else {
                threads as int
            };
            &&& plan.allow_ephemeral
            &&& tables_fit(lists, scratch, m as int, ksub as int, max_bytes as int)
            &&& mode == IvfPqBatchTableReuseMode::On || reuse_pays(
                lists,
                totals.0 as int,
                totals.1 as int,
            )
        }),
{
    if !plan.allow_ephemeral {
        return false;
    }
    let mut lists: usize = 0;
    let mut i: usize = 0;
    while i < rows.len()
        invariant
            i <= rows@.len(),
            lists == matching_lists(rows@, i as nat),
            lists <= i,
        decreases rows@.len() - i,
    {
        let any: bool = match &rows[i] {
            Some(found) => !found.is_empty(),
            None => true,
        };
        if any {
            lists = lists + 1;
        }
        i = i + 1;
    }
    let (active, total) = count_matching_probes(probes, start, positions, rows);
    let scratch: usize = if active < threads {
        active
    } else {
        threads
    };
    ephemeral_precomputed_table_fits_budget(lists, scratch, m, ksub, max_bytes) && (mode
        == IvfPqBatchTableReuseMode::On || should_use_ephemeral_precomputation(
        lists,
        active,
        total,
    ))
}

/// What a batch search counts.
#[derive(Debug, Clone, Copy, PartialEq, Eq, Structural)]
pub struct BatchScanCounters {
    pub unique_list_rows: usize,
    pub query_list_pairs: usize,
    pub pq_codes_evaluated: usize,
    pub sparse_query_list_pairs: usize,
    pub dense_query_list_pairs: usize,
    pub actual_pq_codes_evaluated: usize,
    pub matched_rows: usize,
    pub queries_below_k: usize,
    pub min_hits_per_query: usize,
}

impl Default for BatchScanCounters {
    fn default() -> (counters: Self)
        ensures
            counters == (BatchScanCounters {
                unique_list_rows: 0,
                query_list_pairs: 0,
                pq_codes_evaluated: 0,
                sparse_query_list_pairs: 0,
                dense_query_list_pairs: 0,
                actual_pq_codes_evaluated: 0,
                matched_rows: 0,
                queries_below_k: 0,
                min_hits_per_query: 0,
            }),
    {
        BatchScanCounters {
            unique_list_rows: 0,
            query_list_pairs: 0,
            pq_codes_evaluated: 0,
            sparse_query_list_pairs: 0,
            dense_query_list_pairs: 0,
            actual_pq_codes_evaluated: 0,
            matched_rows: 0,
            queries_below_k: 0,
            min_hits_per_query: 0,
        }
    }
}

/// Whether a scan visits the matching rows one by one. Packed four-bit codes
/// are always scanned whole.
pub open spec fn scans_sparse(
    rows: int,
    matching: Option<&MatchingRows>,
    pq_bits: int,
    transposed: bool,
) -> bool {
    match matching {
        None => false,
        Some(found) => pq_bits != 4 && crate::arith::sat_mul(
            found.spec_len() as int,
            if transposed {
                TRANSPOSED_SPARSE_SCAN_DIVISOR as int
            } else {
                ROW_MAJOR_SPARSE_SCAN_DIVISOR as int
            },
        ) <= rows,
    }
}

/// The rows of a list that match.
pub open spec fn matched(rows: int, matching: Option<&MatchingRows>) -> int {
    match matching {
        Some(found) => found.spec_len() as int,
        None => rows,
    }
}

impl BatchScanCounters {
    /// Counts a list of `rows` rows that `query_uses` queries scan.
    pub fn record_scan_work(
        &mut self,
        rows: usize,
        matching: Option<&MatchingRows>,
        query_uses: usize,
        pq_bits: usize,
        transposed_codes: bool,
    )
        ensures
            ({
                let hits = matched(rows as int, matching);
                let uses = query_uses as int;
                let sparse = scans_sparse(rows as int, matching, pq_bits as int, transposed_codes);
                let idle = hits == 0 || uses == 0;
                let visited = if sparse {
                    hits
                } else {
                    rows as int
                };
                &&& final(self).unique_list_rows == crate::arith::sat_add(
                    old(self).unique_list_rows as int,
                    rows as int,
                )
                &&& final(self).matched_rows == crate::arith::sat_add(
                    old(self).matched_rows as int,
                    hits,
                )
                &&& final(self).pq_codes_evaluated == crate::arith::sat_add(
                    old(self).pq_codes_evaluated as int,
                    crate::arith::sat_mul(hits, uses),
                )
                &&& final(self).actual_pq_codes_evaluated == (if idle {
                    old(self).actual_pq_codes_evaluated as int
                } else {
                    crate::arith::sat_add(
                        old(self).actual_pq_codes_evaluated as int,
                        crate::arith::sat_mul(visited, uses),
                    )
                })
                &&& final(self).sparse_query_list_pairs == (if idle || !sparse {
                    old(self).sparse_query_list_pairs as int
                } else {
                    crate::arith::sat_add(old(self).sparse_query_list_pairs as int, uses)
                })
                &&& final(self).dense_query_list_pairs == (if idle || sparse {
                    old(self).dense_query_list_pairs as int
                } else {
                    crate::arith::sat_add(old(self).dense_query_list_pairs as int, uses)
                })
                &&& final(self).query_list_pairs == old(self).query_list_pairs
                &&& final(self).queries_below_k == old(self).queries_below_k
                &&& final(self).min_hits_per_query == old(self).min_hits_per_query
            }),
    {
        let hits: usize = match matching {
            Some(found) => found.len(),
            None => rows,
        };
        self.unique_list_rows = self.unique_list_rows.saturating_add(rows);
        self.matched_rows = self.matched_rows.saturating_add(hits);
        self.pq_codes_evaluated = self.pq_codes_evaluated.saturating_add(
            saturating_product(hits, query_uses),
        );
        if hits == 0 || query_uses == 0 {
            return;
        }
        let sparse: bool = match matching {
            None => false,
            Some(found) => pq_bits != 4 && should_scan_sparse(
                rows,
                found,
                if transposed_codes {
                    TRANSPOSED_SPARSE_SCAN_DIVISOR
                } else {
                    ROW_MAJOR_SPARSE_SCAN_DIVISOR
                },
            ),
        };
        let visited: usize = if sparse {
            hits
        } else {
            rows
        };
        self.actual_pq_codes_evaluated = self.actual_pq_codes_evaluated.saturating_add(
            saturating_product(visited, query_uses),
        );
        if sparse {
            self.sparse_query_list_pairs = self.sparse_query_list_pairs.saturating_add(query_uses);
        } else {
            self.dense_query_list_pairs = self.dense_query_list_pairs.saturating_add(query_uses);
        }
    }

    /// Counts one query's result of `hits` rows.
    pub fn record_result(&mut self, hits: usize, k: usize)
        ensures
            final(self).queries_below_k == (if hits < k {
                crate::arith::sat_add(old(self).queries_below_k as int, 1)
            } else {
                old(self).queries_below_k as int
            }),
            final(self).min_hits_per_query == (if hits < old(self).min_hits_per_query {
                hits
            } else {
                old(self).min_hits_per_query
            }),
            final(self).unique_list_rows == old(self).unique_list_rows,
            final(self).query_list_pairs == old(self).query_list_pairs,
            final(self).pq_codes_evaluated == old(self).pq_codes_evaluated,
            final(self).sparse_query_list_pairs == old(self).sparse_query_list_pairs,
            final(self).dense_query_list_pairs == old(self).dense_query_list_pairs,
            final(self).actual_pq_codes_evaluated == old(self).actual_pq_codes_evaluated,
            final(self).matched_rows == old(self).matched_rows,
    {
        if hits < k {
            self.queries_below_k = self.queries_below_k.saturating_add(1);
        }
        if hits < self.min_hits_per_query {
            self.min_hits_per_query = hits;
        }
    }
}

/// Table entries that the nibbles of the code pair columns select for one row.
pub open spec fn pair_sum(qtable: Seq<u8>, codes: Seq<u8>, count: int, row: int, pairs: nat) -> int
    decreases pairs,
{
    if pairs == 0 {
        0
    } else {
        let pair = pairs - 1;
        let byte = codes[pair * count + row] as int;
        pair_sum(qtable, codes, count, row, pair as nat) + qtable[pair * 32 + byte % 16]
            + qtable[pair * 32 + 16 + byte / 16]
    }
}

/// Sums of quantized table entries for rows `from..count` of transposed
/// four-bit codes: pair `p` of row `i` lies at `p * count + i`.
pub fn quantized_column_sums(
    qtable: &[u8],
    codes: &[u8],
    count: usize,
    from: usize,
    pairs: usize,
) -> (sums: Vec<u16>)
    requires
        from <= count,
        pairs * 510 <= u16::MAX,
        pairs * 32 <= qtable@.len(),
        pairs * count <= codes@.len(),
    ensures
        sums@.len() == count - from,
        forall|i: int|
            0 <= i < sums@.len() ==> #[trigger] sums@[i] == pair_sum(
                qtable@,
                codes@,
                count as int,
                from + i,
                pairs as nat,
            ),
{
    let total: usize = codes.len();
    let mut sums: Vec<u16> = Vec::new();
    let mut row: usize = from;
    while row < count
        invariant
            from <= row <= count,
            pairs * 510 <= u16::MAX,
            pairs * 32 <= qtable@.len(),
            total == codes@.len(),
            pairs * count <= total,
            sums@.len() == row - from,
            forall|i: int|
                0 <= i < sums@.len() ==> #[trigger] sums@[i] == pair_sum(
                    qtable@,
                    codes@,
                    count as int,
                    from + i,
                    pairs as nat,
                ),
        decreases count - row,
    {
        let mut sum: u16 = 0;
        let mut pair: usize = 0;
        while pair < pairs
            invariant
                row < count,
                pair <= pairs,
                pairs * 510 <= u16::MAX,
                pairs * 32 <= qtable@.len(),
                total == codes@.len(),
                pairs * count <= total,
                sum == pair_sum(qtable@, codes@, count as int, row as int, pair as nat),
                sum <= pair * 510,
            decreases pairs - pair,
        {
            assert(pair * count + count <= pairs * count && 0 <= pair * count) by (nonlinear_arith)
                requires
                    pair < pairs,
            ;
            let byte: usize = codes[pair * count + row] as usize;
            let low: u16 = qtable[pair * 32 + byte % 16] as u16;
            let high: u16 = qtable[pair * 32 + 16 + byte / 16] as u16;
            sum = sum + low + high;
            pair = pair + 1;
        }
        sums.push(sum);
        row = row + 1;
    }
    sums
}

} // verus!
