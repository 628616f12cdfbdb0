use paimon_vindex_core::distance::MetricType;
use paimon_vindex_core::filter::{decode_roaring_filter, RowIdFilter};
use paimon_vindex_core::ivfpq::{add_batches, IVFPQIndex, MergeError, ADD_BATCH_SIZE};
use paimon_vindex_core::ivfpq_batch::{
    scan_code_chunk, scan_codes, PQQuery, ReadKernel, WideKernel,
};
use paimon_vindex_core::list_search::match_lists;
use paimon_vindex_core::matching::{
    has_matching_rows, matching_rows, should_scan_sparse, MatchingRows,
};
use paimon_vindex_core::nearest::{find_nearest, find_topk};
use paimon_vindex_core::plan::{
    list_positions, validate_batch_search, validate_search, SearchError,
};
use paimon_vindex_core::pq::ProductQuantizer;
use paimon_vindex_core::pq_encode::{EncodeStep, SumKind};
use paimon_vindex_core::pq_scan::{
    code_layout, packed_distances, transposed_distances, CodeLayout, PackedKernel,
};
use paimon_vindex_core::pq_search::{list_distances, TableKernel, TableSource};
use paimon_vindex_core::pq_tables::{codebook_table, combine, residual_rows};
use paimon_vindex_core::scan::scan_rows;
use paimon_vindex_core::session::{
    check_batch, match_loaded_lists, split_neighbors, BatchSearch, LoadedList, ReadError, ReadStep,
};
use paimon_vindex_core::table_reuse::{
    count_live_probes, ephemeral_precomputed_table_fits_budget, plan_ephemeral_tables,
    plan_table_reuse, quantized_column_sums, reused_query_tables_fit_budget,
    should_use_ephemeral_precomputation, BatchScanCounters, BatchShape, IvfPqBatchTableReuseMode,
    TableReuse, DEFAULT_IVFPQ_BATCH_TABLE_REUSE_MAX_BYTES, MIN_EPHEMERAL_PRECOMPUTE_QUERIES,
    TRANSPOSED_SPARSE_SCAN_DIVISOR,
};
use paimon_vindex_core::topk::TopKHeap;
use rand::rngs::StdRng;
use rand::{Rng, SeedableRng};
use roaring::RoaringTreemap;
use std::collections::HashSet;
use std::sync::atomic::{AtomicUsize, Ordering};

fn bits(values: &[f32]) -> Vec<u32> {
    values.iter().map(|value| value.to_bits()).collect()
}

fn floats(values: &[u32]) -> Vec<f32> {
    values.iter().map(|&value| f32::from_bits(value)).collect()
}

fn sum(a: u32, b: u32) -> u32 {
    (f32::from_bits(a) + f32::from_bits(b)).to_bits()
}

fn difference(a: u32, b: u32) -> u32 {
    (f32::from_bits(a) - f32::from_bits(b)).to_bits()
}

fn squared(a: &[f32], b: &[f32]) -> f32 {
    a.iter().zip(b).map(|(a, b)| (a - b) * (a - b)).sum()
}

fn dot(a: &[f32], b: &[f32]) -> f32 {
    a.iter().zip(b).map(|(a, b)| a * b).sum()
}

struct CountingFilter {
    contains_calls: AtomicUsize,
}

impl CountingFilter {
    fn new() -> Self {
        Self {
            contains_calls: AtomicUsize::new(0),
        }
    }
}

impl RowIdFilter for CountingFilter {
    fn admits(&self, id: i64) -> bool {
        id % 7 == 0
    }

    fn contains(&self, id: i64) -> bool {
        self.contains_calls.fetch_add(1, Ordering::Relaxed);
        id % 7 == 0
    }
}

fn generate_clustered_data(n: usize, d: usize, num_clusters: usize, seed: u64) -> Vec<f32> {
    let mut rng = StdRng::seed_from_u64(seed);
    let mut centers = vec![0.0f32; num_clusters * d];
    for i in 0..num_clusters * d {
        centers[i] = rng.gen::<f32>() * 100.0;
    }

    let mut data = vec![0.0f32; n * d];
    for i in 0..n {
        let cluster = i % num_clusters;
        for j in 0..d {
            data[i * d + j] = centers[cluster * d + j] + rng.gen::<f32>() * 2.0 - 1.0;
        }
    }
    data
}

fn assign(rows: &[f32], n: usize, centroids: &[f32], nlist: usize, d: usize) -> Vec<usize> {
    let distance = |row: usize, c: usize| {
        squared(&rows[row * d..(row + 1) * d], &centroids[c * d..(c + 1) * d]).to_bits()
    };
    (0..n).map(|row| find_nearest(row, nlist, &distance)).collect()
}

/// Moves centroids that begin at spread rows to the mean of their rows.
fn cluster(data: &[f32], n: usize, d: usize, k: usize) -> Vec<f32> {
    let mut centroids: Vec<f32> = (0..k)
        .flat_map(|c| {
            let row = c % n;
            data[row * d..(row + 1) * d].to_vec()
        })
        .collect();
    for _ in 0..3 {
        let mut sums = vec![0.0f32; k * d];
        let mut counts = vec![0usize; k];
        for (row, &c) in assign(data, n, &centroids, k, d).iter().enumerate() {
            counts[c] += 1;
            for i in 0..d {
                sums[c * d + i] += data[row * d + i];
            }
        }
        for c in 0..k {
            if counts[c] > 0 {
                for i in 0..d {
                    centroids[c * d + i] = sums[c * d + i] / counts[c] as f32;
                }
            }
        }
    }
    centroids
}

fn set_centroids(pq: &mut ProductQuantizer, centroids: &[f32]) {
    pq.set_centroids(bits(centroids), &multiply_add);
}

fn train_pq(pq: &mut ProductQuantizer, data: &[f32], n: usize) {
    let rows = bits(data);
    let chunks: Vec<Vec<u32>> = (0..pq.m())
        .map(|sub| {
            let columns = floats(&pq.chunk_columns(&rows, n, sub));
            bits(&cluster(&columns, n, pq.chunk_dim(sub), pq.ksub()))
        })
        .collect();
    let centroids = floats(&pq.join_codebooks(&chunks));
    set_centroids(pq, &centroids);
}

/// A product of rotations in planes.
fn rotation(d: usize) -> Vec<f32> {
    let mut matrix = vec![0.0f32; d * d];
    for i in 0..d {
        matrix[i * d + i] = 1.0;
    }
    for step in 0..2 * d {
        let (i, j) = (step % d, (step * 5 + 3) % d);
        if i == j {
            continue;
        }
        let (sin, cos) = (0.3 + step as f32 * 0.1).sin_cos();
        for column in 0..d {
            let (a, b) = (matrix[i * d + column], matrix[j * d + column]);
            matrix[i * d + column] = cos * a - sin * b;
            matrix[j * d + column] = sin * a + cos * b;
        }
    }
    matrix
}

fn normalized(data: &[f32], d: usize) -> Vec<f32> {
    data.chunks(d)
        .flat_map(|row| {
            let norm = dot(row, row).sqrt();
            row.iter().map(|x| x / norm).collect::<Vec<_>>()
        })
        .collect()
}

fn preprocess(
    data: &[f32],
    d: usize,
    metric: MetricType,
    rotation: Option<&Vec<u32>>,
) -> Vec<f32> {
    let rows = match metric {
        MetricType::Cosine => normalized(data, d),
        MetricType::L2 | MetricType::InnerProduct => data.to_vec(),
    };
    match rotation {
        Some(rotation) => {
            let rotation = floats(rotation);
            rows.chunks(d)
                .flat_map(|row| rotation.chunks(d).map(|axis| dot(axis, row)).collect::<Vec<_>>())
                .collect()
        }
        None => rows,
    }
}

fn residuals(
    rows: &[f32],
    centroids: &[f32],
    assignments: &[usize],
    d: usize,
    nlist: usize,
) -> Vec<f32> {
    let (rows, centroids) = (bits(rows), bits(centroids));
    floats(&residual_rows(&rows, &centroids, assignments, d, nlist, &difference))
}

fn train(index: &mut IVFPQIndex, data: &[f32], n: usize) {
    let d = index.d;
    if let Some(opq) = index.opq.as_mut() {
        opq.set_rotation(bits(&rotation(d)));
    }
    let rotation = index.opq.as_ref().map(|opq| &opq.rotation);
    let mut rows = preprocess(&data[..n * d], d, index.metric, rotation);
    let centroids = cluster(&rows, n, d, index.nlist);
    if index.by_residual {
        let assignments = assign(&rows, n, &centroids, index.nlist, d);
        rows = residuals(&rows, &centroids, &assignments, d, index.nlist);
    }
    index.quantizer_centroids = bits(&centroids);
    train_pq(&mut index.pq, &rows, n);
}

fn encode_step(step: EncodeStep) -> u32 {
    let f = f32::from_bits;
    let result = match step {
        EncodeStep::Add { kind, sum, a, b } => match kind {
            SumKind::Product => f(sum) + f(a) * f(b),
            SumKind::Square => f(sum) + (f(a) - f(b)) * (f(a) - f(b)),
            SumKind::Fused => (f(a) - f(b)).mul_add(f(a) - f(b), f(sum)),
        },
        EncodeStep::Close {
            query_norm,
            centroid_norm,
            product,
        } => (f(query_norm) + f(centroid_norm) - 2.0 * f(product)).max(0.0),
    };
    result.to_bits()
}

fn add(index: &mut IVFPQIndex, data: &[f32], ids: &[i64], n: usize) {
    let (d, nlist) = (index.d, index.nlist);
    let centroids = floats(&index.quantizer_centroids);
    for (start, end) in add_batches(n) {
        let rotation = index.opq.as_ref().map(|opq| &opq.rotation);
        let rows = preprocess(&data[start * d..end * d], d, index.metric, rotation);
        let assignments = assign(&rows, end - start, &centroids, nlist, d);
        let (rows, ids) = (bits(&rows), &ids[start..end]);
        index.add_vectors(&assignments, ids, &rows, false, &difference, &encode_step);
    }
}

fn negate(value: u32) -> u32 {
    (-f32::from_bits(value)).to_bits()
}

fn squared_from_norms(query_norm: u32, centroid_norm: u32, product: u32) -> u32 {
    let norms = f32::from_bits(query_norm) + f32::from_bits(centroid_norm);
    (norms - 2.0 * f32::from_bits(product)).max(0.0).to_bits()
}

fn multiply_add(sum: u32, a: u32, b: u32) -> u32 {
    (f32::from_bits(sum) + f32::from_bits(a) * f32::from_bits(b)).to_bits()
}

fn expand(norm: u32, product: u32) -> u32 {
    (f32::from_bits(norm) + 2.0 * f32::from_bits(product)).to_bits()
}

fn without_twice(table: u32, product: u32) -> u32 {
    (f32::from_bits(table) - 2.0 * f32::from_bits(product)).to_bits()
}

fn wide_multiply_add(sum: u64, a: u32, b: u32) -> u64 {
    let product = f64::from(f32::from_bits(a)) * f64::from(f32::from_bits(b));
    (f64::from_bits(sum) + product).to_bits()
}

fn wide_squared_difference(sum: u64, a: u32, b: u32) -> u64 {
    let difference = f64::from(f32::from_bits(a)) - f64::from(f32::from_bits(b));
    (f64::from_bits(sum) + difference * difference).to_bits()
}

fn wide_expand(norm: u64, product: u64) -> u64 {
    (f64::from_bits(norm) + 2.0 * f64::from_bits(product)).to_bits()
}

fn close(norm: u64, list: u64, query: u64) -> u32 {
    let distance = f64::from_bits(norm) + f64::from_bits(list) - 2.0 * f64::from_bits(query);
    (distance.max(0.0) as f32).to_bits()
}

fn build_precomputed_table(index: &mut IVFPQIndex) {
    index.build_precomputed_table(&multiply_add, &expand);
}

/// Codes by columns.
fn transpose(codes: &[u8], count: usize, size: usize) -> Vec<u8> {
    let mut columns = vec![0u8; codes.len()];
    for row in 0..count {
        for byte in 0..size {
            columns[byte * count + row] = codes[row * size + byte];
        }
    }
    columns
}

fn build_search_structures(index: &mut IVFPQIndex) {
    index.build_search_structures(&|codes: &Vec<u8>, count: usize, size: usize| {
        transpose(codes, count, size)
    });
}

/// The distances of the scanned rows of a list.
fn row_distances(
    pq: &ProductQuantizer,
    table: &[u32],
    base: f32,
    codes: &[u8],
    count: usize,
    transposed: bool,
    rows: Option<&MatchingRows>,
) -> Vec<u32> {
    let packed: Vec<u32> = if pq.nbits() == 4 && !transposed {
        packed_row_sums(pq, table, codes)
    } else {
        Vec::new()
    };
    let base = base.to_bits();
    let kernel = packed_kernel(pq.m());
    list_distances(pq, table, codes, count, transposed, base, rows, &packed, &kernel)
}

fn packed_kernel(
    m: usize,
) -> PackedKernel<
    impl Fn(u32, u32) -> u32,
    impl Fn(u32, u32, u32) -> u8,
    impl Fn(u16, u32, u32) -> u32,
> {
    let range = |min: u32, max: u32| (f32::from_bits(max) - f32::from_bits(min)).max(1e-10);
    PackedKernel {
        add: sum,
        level_of: move |value: u32, min: u32, max: u32| {
            let factor = 255.0 / range(min, max);
            ((f32::from_bits(value) - f32::from_bits(min)) * factor).clamp(0.0, 255.0) as u8
        },
        distance_of: move |levels: u16, min: u32, max: u32| {
            let step = range(min, max) / 255.0;
            (f32::from(levels) * step + f32::from_bits(min) * m as f32).to_bits()
        },
    }
}

fn probe_lists(
    queries: &[f32],
    nq: usize,
    centroids: &[f32],
    nlist: usize,
    d: usize,
    nprobe: usize,
) -> (Vec<Vec<usize>>, Vec<Vec<f32>>) {
    let distance = |row: usize, c: usize| {
        squared(&queries[row * d..(row + 1) * d], &centroids[c * d..(c + 1) * d]).to_bits()
    };
    (0..nq)
        .map(|q| {
            let (lists, distances) = find_topk(q, nlist, nprobe, &distance);
            (lists, floats(&distances))
        })
        .unzip()
}

fn table_kernel() -> TableKernel<
    impl Fn(u32, u32, u32) -> u32,
    impl Fn(u32) -> u32,
    impl Fn(u32, u32, u32) -> u32,
    impl Fn(u32, u32) -> u32,
    impl Fn(u32, u32) -> u32,
> {
    TableKernel {
        product_step: multiply_add,
        negate,
        close: squared_from_norms,
        subtract: difference,
        without_twice,
    }
}

/// The distances of four-bit codes that are stored by rows.
fn packed_row_sums(pq: &ProductQuantizer, table: &[u32], codes: &[u8]) -> Vec<u32> {
    codes
        .chunks(pq.code_size())
        .map(|code| pq.distance_from_table(table, code, &sum))
        .collect()
}

/// The lists nearest to each query, and their distances.
fn probe(
    index: &IVFPQIndex,
    queries: &[f32],
    nq: usize,
    nprobe: usize,
) -> (Vec<u32>, Vec<Vec<usize>>, Vec<Vec<u32>>) {
    let d = index.d;
    let rotation = index.opq.as_ref().map(|opq| &opq.rotation);
    let queries = preprocess(&queries[..nq * d], d, index.metric, rotation);
    let centroids = floats(&index.quantizer_centroids);
    let (probes, coarse) = probe_lists(&queries, nq, &centroids, index.nlist, d, nprobe);
    (bits(&queries), probes, coarse.iter().map(|distances| bits(distances)).collect())
}

fn search(
    index: &IVFPQIndex,
    queries: &[f32],
    nq: usize,
    k: usize,
    nprobe: usize,
) -> (Vec<f32>, Vec<i64>) {
    search_with_filter(index, queries, nq, k, nprobe, None::<&HashSet<i64>>)
}

fn search_with_filter<F: RowIdFilter>(
    index: &IVFPQIndex,
    queries: &[f32],
    nq: usize,
    k: usize,
    nprobe: usize,
    filter: Option<&F>,
) -> (Vec<f32>, Vec<i64>) {
    let (queries, probes, coarse) = probe(index, queries, nq, nprobe);
    let scan = |table: &Vec<u32>, codes: &Vec<u8>, count: usize| {
        assert_eq!(codes.len(), count * index.pq.code_size());
        packed_row_sums(&index.pq, table, codes)
    };
    let (tables, packed) = (table_kernel(), packed_kernel(index.pq.m()));
    let (labels, distances) = index
        .search_codes(&queries, &probes, &coarse, k, filter, &tables, &packed, &scan)
        .unwrap();
    (floats(&distances), labels)
}

fn search_with_max_codes(
    index: &IVFPQIndex,
    queries: &[f32],
    nq: usize,
    k: usize,
    nprobe: usize,
    max_codes: usize,
) -> (Vec<f32>, Vec<i64>) {
    let (queries, probes, coarse) = probe(index, queries, nq, nprobe);
    let scan = |table: &Vec<u32>, codes: &Vec<u8>, _count: usize| {
        packed_row_sums(&index.pq, table, codes)
    };
    let (tables, packed) = (table_kernel(), packed_kernel(index.pq.m()));
    let (labels, distances) = index
        .search_codes_with_max_codes(
            &queries, &probes, &coarse, k, max_codes, &tables, &packed, &scan,
        )
        .unwrap();
    (floats(&distances), labels)
}

#[derive(Default)]
struct ReaderStats {
    pread_calls: usize,
    max_ranges_per_batch: usize,
    last_positions: Vec<i64>,
}

/// An index whose lists are read on demand, with codes by columns.
struct Reader {
    d: usize,
    nlist: usize,
    metric: MetricType,
    by_residual: bool,
    centroids: Vec<f32>,
    pq: ProductQuantizer,
    counts: Vec<i32>,
    offsets: Vec<i64>,
    ids: Vec<Vec<i64>>,
    codes: Vec<Vec<u8>>,
    precomputed_table: Vec<u32>,
    lists_per_read: usize,
    oversized: bool,
    stats: ReaderStats,
}

impl Reader {
    /// Lists lie behind one another from the last to the first.
    fn open(index: &IVFPQIndex) -> Self {
        let size = index.pq.code_size();
        let mut offsets = vec![0i64; index.nlist];
        let mut end = 64;
        for list in (0..index.nlist).rev() {
            offsets[list] = end;
            end += (index.ids[list].len() * (8 + size)) as i64;
        }
        Self {
            d: index.d,
            nlist: index.nlist,
            metric: index.metric,
            by_residual: index.by_residual,
            centroids: floats(&index.quantizer_centroids),
            pq: index.pq.duplicate(),
            counts: index.ids.iter().map(|ids| ids.len() as i32).collect(),
            offsets,
            ids: index.ids.clone(),
            codes: index
                .codes
                .iter()
                .zip(&index.ids)
                .map(|(codes, ids)| transpose(codes, ids.len(), size))
                .collect(),
            precomputed_table: Vec::new(),
            lists_per_read: usize::MAX,
            oversized: false,
            stats: ReaderStats::default(),
        }
    }

    fn optimize_for_search(&mut self) {
        let size = self.pq.m() * self.pq.ksub();
        let norms = self.pq.centroid_norms().to_vec();
        self.precomputed_table = self
            .centroids
            .chunks(self.d)
            .flat_map(|centroid| {
                let products = codebook_table(&self.pq, &bits(centroid), 0u32, &multiply_add);
                combine(&norms, &products, &expand)
            })
            .collect();
        assert_eq!(self.precomputed_table.len(), self.nlist * size);
    }

    fn read_lists(&mut self, lists: &[usize]) -> Vec<LoadedList> {
        self.stats.pread_calls += lists.len();
        self.stats.max_ranges_per_batch = self.stats.max_ranges_per_batch.max(lists.len());
        self.stats.last_positions = lists.iter().map(|&list| self.offsets[list]).collect();
        lists
            .iter()
            .map(|&list_id| LoadedList {
                list_id,
                ids: self.ids[list_id].clone(),
            })
            .collect()
    }

    fn search(
        &mut self,
        query: &[f32],
        k: usize,
        nprobe: usize,
    ) -> Result<(Vec<i64>, Vec<f32>), SearchError> {
        search_with_reader_filter::<HashSet<i64>>(self, query, k, nprobe, None)
    }
}

/// The arithmetic of a search over lists that are read; it counts the entries
/// of the tables that queries compute on their own.
fn read_kernel<'a>(
    pq: &'a ProductQuantizer,
    entries: &'a AtomicUsize,
) -> ReadKernel<
    impl Fn(u32, u32, u32) -> u32,
    impl Fn(u32) -> u32 + 'a,
    impl Fn(u32, u32, u32) -> u32 + 'a,
    impl Fn(u32, u32) -> u32,
    impl Fn(u32, u32) -> u32,
    impl Fn(u32, u32) -> u32,
    impl Fn(u32, u32, u32) -> u8,
    impl Fn(u16, u32, u32) -> u32,
    impl Fn(&Vec<u32>, &Vec<u8>, usize) -> Vec<u32> + 'a,
    impl Fn(u64, u32, u32) -> u64,
    impl Fn(u64, u32, u32) -> u64,
    impl Fn(u64, u64) -> u64,
    impl Fn(u64, u64, u64) -> u32,
> {
    ReadKernel {
        tables: TableKernel {
            product_step: multiply_add,
            negate: move |value: u32| {
                entries.fetch_add(1, Ordering::Relaxed);
                negate(value)
            },
            close: move |query_norm: u32, norm: u32, product: u32| {
                entries.fetch_add(1, Ordering::Relaxed);
                squared_from_norms(query_norm, norm, product)
            },
            subtract: difference,
            without_twice,
        },
        packed: packed_kernel(pq.m()),
        scan: move |table: &Vec<u32>, codes: &Vec<u8>, _count: usize| {
            packed_row_sums(pq, table, codes)
        },
        wide: WideKernel {
            product_step: wide_multiply_add,
            squared_step: wide_squared_difference,
            expand: wide_expand,
            close,
        },
    }
}

fn table_source<'a>(
    pq: &'a ProductQuantizer,
    reader: &Reader,
    centroids: &'a [u32],
    precomputed: &'a [u32],
) -> TableSource<'a> {
    TableSource {
        pq,
        metric: reader.metric,
        by_residual: reader.by_residual,
        nlist: reader.nlist,
        centroids,
        precomputed,
    }
}

/// The queries of a search.
struct Batch {
    queries: Vec<PQQuery>,
    probes: Vec<Vec<usize>>,
    start: usize,
    plan: TableReuse,
    table_builds: usize,
}

struct Outcome {
    ids: Vec<i64>,
    distances: Vec<f32>,
    table_builds: usize,
    precomputed_lists: usize,
}

fn begin(
    reader: &Reader,
    queries: &[f32],
    nq: usize,
    k: usize,
    probe_start: usize,
    probe_end: usize,
    seed_ids: &[i64],
    seeds: &[u32],
    mode: IvfPqBatchTableReuseMode,
    max_bytes: usize,
    adapt: impl Fn(TableReuse) -> TableReuse,
) -> (Batch, BatchSearch) {
    let queries = preprocess(queries, reader.d, reader.metric, None);
    let (nlist, d) = (reader.nlist, reader.d);
    let (probes, coarse) = probe_lists(&queries, nq, &reader.centroids, nlist, d, probe_end);
    let shape = BatchShape {
        nq,
        m: reader.pq.m(),
        ksub: reader.pq.ksub(),
        nbits: reader.pq.nbits(),
        metric: reader.metric,
        by_residual: reader.by_residual,
        has_precomputed: !reader.precomputed_table.is_empty(),
        probe_start,
        probe_end,
    };
    let plan = adapt(plan_table_reuse(shape, mode, max_bytes, &probes, &reader.counts));
    let search = BatchSearch::begin(
        k,
        probe_start,
        probes.clone(),
        &reader.counts,
        &reader.offsets,
        seed_ids,
        seeds,
    );
    let centroids = bits(&reader.centroids);
    let source = table_source(&reader.pq, reader, &centroids, &reader.precomputed_table);
    let batch = Batch {
        queries: (0..nq)
            .map(|q| {
                let vector = bits(&queries[q * d..(q + 1) * d]);
                let (lists, coarse) = (probes[q].clone(), bits(&coarse[q]));
                PQQuery::begin(&source, vector, lists, coarse, plan, &table_kernel())
            })
            .collect(),
        probes,
        start: probe_start,
        plan,
        table_builds: 0,
    };
    (batch, search)
}

/// Reads the planned lists; returns for how many of them tables were computed.
fn run<F: RowIdFilter>(
    reader: &mut Reader,
    batch: &mut Batch,
    search: &mut BatchSearch,
    filter: Option<&F>,
    mode: IvfPqBatchTableReuseMode,
    max_bytes: usize,
) -> usize {
    let pq = reader.pq.duplicate();
    let (m, ksub, size) = (pq.m(), pq.ksub(), pq.code_size());
    let (centroids, precomputed) = (bits(&reader.centroids), reader.precomputed_table.clone());
    let source = table_source(&pq, reader, &centroids, &precomputed);
    let entries = AtomicUsize::new(0);
    let kernel = read_kernel(&pq, &entries);
    let mut precomputed_lists = 0;
    while search.next_list().is_some() {
        match search.next_read(reader.oversized, reader.lists_per_read) {
            ReadStep::Done => unreachable!(),
            ReadStep::Stream { list } => {
                let count = reader.ids[list].len();
                for from in (0..count).step_by(100) {
                    let to = (from + 100).min(count);
                    let mut codes = Vec::new();
                    for byte in 0..size {
                        let column = &reader.codes[list][byte * count..(byte + 1) * count];
                        codes.extend_from_slice(&column[from..to]);
                    }
                    assert!(scan_code_chunk(
                        search,
                        &mut batch.queries,
                        &source,
                        batch.start,
                        list,
                        &reader.ids[list][from..to],
                        &codes,
                        true,
                        filter,
                        &kernel,
                    ));
                }
                search.finish_stream();
            }
            ReadStep::Batch { start, end } => {
                let planned = search.remaining()[..end - start].to_vec();
                let loaded = reader.read_lists(&planned);
                let counts: Vec<usize> =
                    planned.iter().map(|&list| reader.counts[list] as usize).collect();
                assert!(check_batch(&planned, &counts, &loaded).is_ok());
                let codes: Vec<Vec<u8>> =
                    planned.iter().map(|&list| reader.codes[list].clone()).collect();
                let rows = match_loaded_lists(&loaded, filter);
                let positions = list_positions(&planned, reader.nlist);
                let compute = plan_ephemeral_tables(
                    batch.plan,
                    mode,
                    m,
                    ksub,
                    max_bytes,
                    4,
                    &batch.probes,
                    batch.start,
                    &positions,
                    &rows,
                );
                if compute {
                    precomputed_lists +=
                        rows.iter().filter(|rows| has_matching_rows(rows.as_ref())).count();
                }
                assert!(scan_codes(
                    search,
                    &mut batch.queries,
                    &source,
                    batch.start,
                    end,
                    &loaded,
                    &codes,
                    true,
                    &rows,
                    compute,
                    filter,
                    &kernel,
                ));
            }
        }
    }
    batch.table_builds = entries.load(Ordering::Relaxed) / (m * ksub);
    precomputed_lists
}

fn search_batch_range<F: RowIdFilter>(
    reader: &mut Reader,
    queries: &[f32],
    nq: usize,
    k: usize,
    probe_start: usize,
    probe_end: usize,
    seed_ids: &[i64],
    seed_distances: &[f32],
    filter: Option<&F>,
    mode: IvfPqBatchTableReuseMode,
    max_bytes: usize,
) -> Result<Outcome, SearchError> {
    let seeds = bits(seed_distances);
    let (d, len) = (reader.d, queries.len());
    validate_batch_search(len, d, nq, k, probe_start, probe_end, seed_ids, &seeds)?;
    let (mut batch, mut search) = begin(
        reader,
        queries,
        nq,
        k,
        probe_start,
        probe_end,
        seed_ids,
        &seeds,
        mode,
        max_bytes,
        |plan| plan,
    );
    let precomputed_lists =
        run(reader, &mut batch, &mut search, filter, mode, max_bytes);
    let (ids, distances) = search.finish();
    Ok(Outcome {
        ids,
        distances: floats(&distances),
        table_builds: batch.table_builds,
        precomputed_lists,
    })
}

fn search_batch_filter<F: RowIdFilter>(
    reader: &mut Reader,
    queries: &[f32],
    nq: usize,
    k: usize,
    nprobe: usize,
    filter: Option<&F>,
    mode: IvfPqBatchTableReuseMode,
) -> Result<Outcome, SearchError> {
    let budget = DEFAULT_IVFPQ_BATCH_TABLE_REUSE_MAX_BYTES;
    search_batch_range(reader, queries, nq, k, 0, nprobe, &[], &[], filter, mode, budget)
}

fn search_batch_with_mode(
    reader: &mut Reader,
    queries: &[f32],
    nq: usize,
    k: usize,
    nprobe: usize,
    mode: IvfPqBatchTableReuseMode,
) -> Result<(Vec<i64>, Vec<f32>), SearchError> {
    search_batch_filter::<HashSet<i64>>(reader, queries, nq, k, nprobe, None, mode)
        .map(|outcome| (outcome.ids, outcome.distances))
}

fn search_batch_reader(
    reader: &mut Reader,
    queries: &[f32],
    nq: usize,
    k: usize,
    nprobe: usize,
) -> Result<(Vec<i64>, Vec<f32>), SearchError> {
    search_batch_with_mode(reader, queries, nq, k, nprobe, IvfPqBatchTableReuseMode::Auto)
}

fn search_with_reader_filter<F: RowIdFilter>(
    reader: &mut Reader,
    query: &[f32],
    k: usize,
    nprobe: usize,
    filter: Option<&F>,
) -> Result<(Vec<i64>, Vec<f32>), SearchError> {
    validate_search(query.len(), reader.d, k, nprobe)?;
    let mode = IvfPqBatchTableReuseMode::On;
    let residual = reader.by_residual;
    let alone = |plan: TableReuse| TableReuse {
        allow_ephemeral: false,
        reuse_non_residual: !residual,
        ..plan
    };
    let (mut batch, mut search) =
        begin(reader, query, 1, k, 0, nprobe, &[], &[], mode, usize::MAX, alone);
    run(reader, &mut batch, &mut search, filter, mode, usize::MAX);
    let (ids, distances) = search.finish_single();
    Ok((ids, floats(&distances)))
}

fn built_index(data: &[f32], n: usize, d: usize, nlist: usize, m: usize) -> IVFPQIndex {
    let ids: Vec<i64> = (0..n as i64).collect();
    let mut index = IVFPQIndex::new(d, nlist, m, MetricType::L2, false);
    train(&mut index, data, n);
    add(&mut index, data, &ids, n);
    index
}

#[test]
fn test_build_and_search_l2() {
    let d = 16;
    let nlist = 4;
    let m = 4;
    let n = 1000;
    let k = 5;
    let nprobe = 2;

    let data = generate_clustered_data(n, d, 4, 42);
    let index = built_index(&data, n, d, nlist, m);

    let (dists, labels) = search(&index, &data[0..d], 1, k, nprobe);

    assert_eq!(labels[0], 0);
    for i in 1..k {
        assert!(dists[i] >= dists[i - 1]);
    }
}

#[test]
fn test_build_and_search_ip() {
    let d = 16;
    let nlist = 4;
    let m = 4;
    let n = 1000;

    let data = generate_clustered_data(n, d, 4, 123);
    let ids: Vec<i64> = (0..n as i64).collect();

    let mut index = IVFPQIndex::new(d, nlist, m, MetricType::InnerProduct, false);
    train(&mut index, &data, n);
    add(&mut index, &data, &ids, n);

    let (dists, _) = search(&index, &data[0..d], 1, 5, 2);

    for i in 1..5 {
        assert!(dists[i] >= dists[i - 1]);
    }
}

#[test]
fn test_search_with_filter() {
    let d = 16;
    let nlist = 4;
    let m = 4;
    let n = 1000;
    let k = 5;

    let data = generate_clustered_data(n, d, 4, 42);
    let index = built_index(&data, n, d, nlist, m);

    let filter: HashSet<i64> = (0..n as i64).filter(|id| id % 2 == 0).collect();
    let (_, labels) = search_with_filter(&index, &data[0..d], 1, k, 4, Some(&filter));

    for &label in &labels[..k] {
        if label >= 0 {
            assert!(label % 2 == 0, "Filter violated: got odd ID {}", label);
        }
    }
    assert_eq!(labels[0], 0);
}

#[test]
fn in_memory_batch_filter_only_evaluates_probed_lists() {
    let d = 16;
    let nlist = 8;
    let m = 4;
    let n = 800;
    let nq = 4;
    let k = 5;
    let nprobe = 2;
    let data = generate_clustered_data(n, d, nlist, 51);
    let index = built_index(&data, n, d, nlist, m);

    let queries = &data[..nq * d];
    let centroids = floats(&index.quantizer_centroids);
    let (probe_indices, _) = probe_lists(queries, nq, &centroids, nlist, d, nprobe);
    let mut probed_lists = vec![false; nlist];
    for query_probes in probe_indices {
        for list_id in query_probes {
            probed_lists[list_id] = true;
        }
    }
    let expected_calls = index
        .ids
        .iter()
        .zip(probed_lists)
        .filter_map(|(ids, probed)| probed.then_some(ids.len()))
        .sum::<usize>();

    let filter = CountingFilter::new();
    let (_, labels) = search_with_filter(&index, queries, nq, k, nprobe, Some(&filter));

    assert!(
        labels.iter().filter(|&&id| id >= 0).all(|id| id % 7 == 0),
        "filtered search returned a disallowed row ID"
    );
    assert_eq!(
        filter.contains_calls.load(Ordering::Relaxed),
        expected_calls,
        "the filter should only evaluate rows from lists probed by this batch"
    );
    assert!(
        expected_calls < n,
        "the test must leave at least one inverted list unprobed"
    );
}

#[test]
fn test_batch_search() {
    let d = 16;
    let nlist = 4;
    let m = 4;
    let n = 1000;
    let k = 5;
    let nq = 10;

    let data = generate_clustered_data(n, d, 4, 42);
    let index = built_index(&data, n, d, nlist, m);

    let queries: Vec<f32> = data[..nq * d].to_vec();
    let (_, labels) = search(&index, &queries, nq, k, 2);

    for qi in 0..nq {
        assert_eq!(labels[qi * k], qi as i64);
    }
}

#[test]
fn test_4bit_ivfpq() {
    let d = 16;
    let nlist = 4;
    let m = 8;
    let n = 1000;
    let k = 5;
    let nprobe = 2;

    let data = generate_clustered_data(n, d, 4, 42);
    let ids: Vec<i64> = (0..n as i64).collect();

    let mut index = IVFPQIndex::with_nbits(d, nlist, m, 4, MetricType::L2, false);
    assert_eq!(index.pq.ksub(), 16);
    assert_eq!(index.pq.code_size(), 4);

    train(&mut index, &data, n);
    add(&mut index, &data, &ids, n);

    let (dists, labels) = search(&index, &data[0..d], 1, k, nprobe);

    assert_eq!(labels[0], 0);
    for i in 1..k {
        assert!(dists[i] >= dists[i - 1]);
    }

    let codes_8bit_size = n * m;
    let codes_4bit_size: usize = index.codes.iter().map(|c| c.len()).sum();
    assert!(
        codes_4bit_size < codes_8bit_size,
        "4-bit ({}) should be smaller than 8-bit ({})",
        codes_4bit_size,
        codes_8bit_size,
    );
}

#[test]
fn test_max_codes_early_termination() {
    let d = 16;
    let nlist = 4;
    let m = 4;
    let n = 1000;
    let k = 5;

    let data = generate_clustered_data(n, d, 4, 42);
    let index = built_index(&data, n, d, nlist, m);

    let (dists_limited, labels_limited) = search_with_max_codes(&index, &data[0..d], 1, k, 4, 50);

    let valid = labels_limited.iter().filter(|&&id| id >= 0).count();
    assert!(valid > 0, "max_codes search returned no results");

    let (dists_full, _) = search(&index, &data[0..d], 1, k, 4);

    assert!(dists_full[0] <= dists_limited[0] + 1e-6);
    let (_, probes, _) = probe(&index, &data[0..d], 1, 4);
    assert_eq!(index.plan_budget(&probes[0], 50), vec![50, 0, 0, 0]);
    let first = index.ids[probes[0][0]].len();
    assert_eq!(index.plan_budget(&probes[0], first + 7)[..2], [first, 7]);
    let none = search_with_max_codes(&index, &data[0..d], 1, k, 4, 0);
    assert!(none.1.iter().all(|&id| id == -1));
    let all = search_with_max_codes(&index, &data[0..d], 1, k, 4, n);
    assert_eq!(all, search(&index, &data[0..d], 1, k, 4));
}

#[test]
fn vectors_are_stored_by_their_nearest_centroids() {
    // One chunk per component, with the centroids 0, 1, 2, ... in each.
    let mut index = IVFPQIndex::new(2, 2, 2, MetricType::L2, false);
    let centroids: Vec<f32> = (0..512).map(|i| (i % 256) as f32).collect();
    set_centroids(&mut index.pq, &centroids);
    index.quantizer_centroids = bits(&[0.0, 0.0, 100.0, 100.0]);
    let rows = bits(&[3.25, 4.0, 105.0, 105.75, 0.0, 0.75]);
    let assignments = [0, 1, 0];
    let codes = vec![3, 4, 5, 6, 0, 1];
    for fast in [false, true] {
        let found = index.encode_vectors(&assignments, &rows, fast, &difference, &encode_step);
        assert_eq!(found, codes);
    }
    index.add_vectors(&assignments, &[7, 9, 8], &rows, false, &difference, &encode_step);
    assert_eq!(index.ids, vec![vec![7, 8], vec![9]]);
    assert_eq!(index.codes, vec![vec![3, 4, 0, 1], vec![5, 6]]);
    // Without residuals the centroids of the lists make no difference.
    index.by_residual = false;
    let found = index.encode_vectors(&assignments, &rows, false, &difference, &encode_step);
    assert_eq!(found, vec![3, 4, 105, 106, 0, 1]);
}

#[test]
fn answers_come_from_the_stored_codes() {
    // One chunk per component, with the centroids 0, 1, 2, ... in each.
    let mut index = IVFPQIndex::new(2, 2, 2, MetricType::L2, false);
    let centroids: Vec<f32> = (0..512).map(|i| (i % 256) as f32).collect();
    set_centroids(&mut index.pq, &centroids);
    index.quantizer_centroids = bits(&[0.0, 0.0, 100.0, 100.0]);
    index.add_batch(&[0, 0, 1], &[7, 8, 9], &[3, 4, 0, 1, 5, 5]);
    // The residuals are (0, 0) from the first list, so the rows are (3, 4) and
    // (0, 1); the third row is (105, 105).
    assert_eq!(search(&index, &[0.0, 0.0], 1, 3, 1), (vec![1.0, 25.0, f32::MAX], vec![8, 7, -1]));
    let (distances, labels) = search(&index, &[0.0, 0.0], 1, 3, 2);
    assert_eq!(labels, vec![8, 7, 9]);
    assert_eq!(distances, vec![1.0, 25.0, 2.0 * 105.0 * 105.0]);
    let allowed = HashSet::from([7, 9]);
    let (_, labels) = search_with_filter(&index, &[0.0, 0.0], 1, 3, 2, Some(&allowed));
    assert_eq!(labels, vec![7, 9, -1]);
    // The lists' own tables leave out the distance to the centroid.
    build_precomputed_table(&mut index);
    assert_eq!(search(&index, &[0.0, 0.0], 1, 3, 1).0, vec![1.0, 25.0, f32::MAX]);
    let (distances, labels) = search_with_max_codes(&index, &[0.0, 0.0], 1, 3, 2, 1);
    assert_eq!((distances, labels), (vec![25.0, f32::MAX, f32::MAX], vec![7, -1, -1]));
    // Another code is another answer.
    index.codes[0][0] = 0;
    index.codes[0][1] = 0;
    assert_eq!(search(&index, &[0.0, 0.0], 1, 1, 1), (vec![0.0], vec![7]));
}

#[test]
fn packed_codes_are_scanned_where_there_are_any() {
    let mut index = IVFPQIndex::with_nbits(2, 1, 2, 4, MetricType::L2, false);
    let centroids: Vec<f32> = (0..32).map(|i| (i % 16) as f32).collect();
    set_centroids(&mut index.pq, &centroids);
    index.quantizer_centroids = bits(&[0.0, 0.0]);
    // Codes (1, 2) and (3, 0), the first in the low half of a byte.
    index.add_batch(&[0, 0], &[7, 8], &[0x21, 0x03]);
    assert_eq!(search(&index, &[0.0, 0.0], 1, 2, 1), (vec![5.0, 9.0], vec![7, 8]));
    build_search_structures(&mut index);
    assert_eq!(search(&index, &[0.0, 0.0], 1, 2, 1), (vec![5.0, 9.0], vec![7, 8]));
    // Only the packed form is read now.
    index.fastscan_codes[0] = vec![0x21, 0x00];
    assert_eq!(search(&index, &[0.0, 0.0], 1, 2, 1), (vec![0.0, 5.0], vec![8, 7]));
    index.fastscan_codes.clear();
    index.codes[0] = vec![0x00, 0x03];
    assert_eq!(search(&index, &[0.0, 0.0], 1, 2, 1), (vec![0.0, 9.0], vec![7, 8]));
}

#[test]
fn a_nan_among_the_probed_rows_gives_no_answer() {
    let mut index = IVFPQIndex::new(1, 1, 1, MetricType::InnerProduct, false);
    let mut centroids: Vec<f32> = (0..256).map(|i| i as f32).collect();
    centroids[9] = f32::NAN;
    set_centroids(&mut index.pq, &centroids);
    index.quantizer_centroids = bits(&[0.0]);
    index.add_batch(&[0, 0, 0], &[1, 2, 3], &[4, 9, 5]);
    let (tables, packed) = (table_kernel(), packed_kernel(1));
    let scan = |_: &Vec<u32>, _: &Vec<u8>, _: usize| -> Vec<u32> { unreachable!() };
    let (queries, probes, coarse) = probe(&index, &[2.0], 1, 1);
    let all = None::<&HashSet<i64>>;
    assert!(index
        .search_codes(&queries, &probes, &coarse, 2, all, &tables, &packed, &scan)
        .is_none());
    let numbers = HashSet::from([1, 3]);
    let (labels, distances) = index
        .search_codes(&queries, &probes, &coarse, 2, Some(&numbers), &tables, &packed, &scan)
        .unwrap();
    assert_eq!((labels, floats(&distances)), (vec![3, 1], vec![-10.0, -8.0]));
    let budget = |max_codes: usize| {
        index.search_codes_with_max_codes(
            &queries, &probes, &coarse, 2, max_codes, &tables, &packed, &scan,
        )
    };
    assert_eq!(budget(1), Some((vec![1, -1], bits(&[-8.0, f32::MAX]))));
    assert_eq!(budget(2), None);
    let rows = match_lists(&index.ids, &probes, Some(&numbers));
    let found = index.search_matched_codes(
        &queries,
        &probes,
        &coarse,
        2,
        &rows,
        Some(&numbers),
        &tables,
        &packed,
        &scan,
    );
    assert_eq!(found, Some((vec![3, 1], bits(&[-10.0, -8.0]))));
}

#[test]
fn lists_that_are_read_are_measured_by_their_codes() {
    let mut index = IVFPQIndex::new(2, 1, 2, MetricType::L2, false);
    let centroids: Vec<f32> = (0..512).map(|i| (i % 256) as f32).collect();
    set_centroids(&mut index.pq, &centroids);
    index.quantizer_centroids = bits(&[1.0, 1.0]);
    // The rows are (4, 5), (1, 2) and (9, 1).
    index.add_batch(&[0, 0, 0], &[7, 8, 9], &[3, 4, 0, 1, 8, 0]);
    build_precomputed_table(&mut index);
    let mut reader = Reader::open(&index);
    reader.precomputed_table = index.precomputed_table.clone();
    let centroids = bits(&reader.centroids);
    let pq = reader.pq.duplicate();
    let source = table_source(&pq, &reader, &centroids, &reader.precomputed_table);
    let entries = AtomicUsize::new(0);
    let kernel = read_kernel(&pq, &entries);
    let begin = |use_precomputed: bool, coarse: f32| {
        let plan = TableReuse {
            use_precomputed,
            allow_ephemeral: true,
            reuse_non_residual: false,
        };
        let (vector, coarse) = (bits(&[1.0, 1.0]), bits(&[coarse]));
        let query = PQQuery::begin(&source, vector, vec![0], coarse, plan, &kernel.tables);
        assert_eq!((query.rank(0, 0), query.rank(1, 0), query.rank(0, 1)), (Some(0), None, None));
        let search = BatchSearch::begin(2, 0, vec![vec![0]], &[3], &[0], &[], &[]);
        (vec![query], search)
    };
    let allowed = HashSet::from([7, 9]);
    let loaded = vec![LoadedList {
        list_id: 0,
        ids: reader.ids[0].clone(),
    }];
    let codes = vec![reader.codes[0].clone()];
    for (combined, compute) in [(false, false), (true, false), (false, true)] {
        for filter in [None, Some(&allowed)] {
            let (mut queries, mut search) = begin(combined, 0.0);
            let rows = match_loaded_lists(&loaded, filter);
            assert!(scan_codes(
                &mut search,
                &mut queries,
                &source,
                0,
                1,
                &loaded,
                &codes,
                true,
                &rows,
                compute,
                filter,
                &kernel,
            ));
            assert_eq!(search.next_list(), None);
            let expected = match filter {
                None => (vec![8, 7], bits(&[1.0, 25.0])),
                Some(_) => (vec![7, 9], bits(&[25.0, 64.0])),
            };
            assert_eq!(search.finish(), expected);
        }
    }
    // The distance to the centroid is added to combined tables only.
    let (mut queries, mut search) = begin(true, 2.0);
    assert!(scan_code_chunk(
        &mut search,
        &mut queries,
        &source,
        0,
        0,
        &[8],
        &vec![0, 1],
        true,
        None::<&HashSet<i64>>,
        &kernel,
    ));
    search.finish_stream();
    assert_eq!(search.finish_single(), (vec![8], bits(&[3.0])));
    // A NaN is not scanned, unless its row cannot be returned.
    let (mut queries, mut search) = begin(true, f32::NAN);
    let mut nothing = |filter: Option<&HashSet<i64>>| {
        let rows = match_loaded_lists(&loaded, filter);
        scan_codes(
            &mut search,
            &mut queries,
            &source,
            0,
            1,
            &loaded,
            &codes,
            true,
            &rows,
            false,
            filter,
            &kernel,
        )
    };
    assert!(!nothing(None));
    assert!(!nothing(Some(&allowed)));
    assert!(nothing(Some(&HashSet::new())));
    assert_eq!(search.finish().0, vec![-1, -1]);
    let (mut queries, mut search) = begin(true, f32::NAN);
    let mut piece = |filter: Option<&HashSet<i64>>| {
        let codes = vec![0, 1];
        scan_code_chunk(
            &mut search, &mut queries, &source, 0, 0, &[8], &codes, true, filter, &kernel,
        )
    };
    assert!(!piece(None));
    assert!(piece(Some(&allowed)));
    assert_eq!(search.next_list(), Some(0));
}

#[test]
fn batches_with_a_nan_are_not_scanned() {
    let mut search = BatchSearch::begin(1, 0, vec![vec![0], vec![1]], &[1, 1], &[0, 9], &[], &[]);
    let loaded: Vec<LoadedList> = (0..2)
        .map(|list_id| LoadedList {
            list_id,
            ids: vec![list_id as i64],
        })
        .collect();
    let all = None::<&HashSet<i64>>;
    let rows = match_loaded_lists(&loaded, all);
    let nan = bits(&[f32::NAN]);
    let none: Vec<u32> = Vec::new();
    let bad = vec![vec![bits(&[1.0]), none.clone()], vec![none.clone(), nan.clone()]];
    assert!(!search.try_scan_batch(2, &loaded, &rows, &bad, all));
    assert_eq!(search.remaining(), [0, 1]);
    // Lists that a query does not probe do not matter.
    let good = vec![vec![bits(&[1.0]), nan.clone()], vec![nan.clone(), bits(&[2.0])]];
    assert!(search.try_scan_batch(2, &loaded, &rows, &good, all));
    assert_eq!(search.finish(), (vec![0, 1], bits(&[1.0, 2.0])));
    let mut search = BatchSearch::begin(1, 0, vec![vec![0]], &[2], &[0], &[], &[]);
    let nans = vec![vec![nan[0], 5]];
    assert!(!search.try_scan_chunk(0, &[1, 2], &None, &nans, all));
    let second = HashSet::from([2]);
    let rows = matching_rows(&[1, 2], Some(&second));
    assert!(search.try_scan_chunk(0, &[1, 2], &rows, &nans, Some(&second)));
    search.scan_chunk(0, &[3], &vec![vec![4]], all);
    search.finish_stream();
    assert_eq!(search.finish(), (vec![3], vec![4]));
}

#[test]
fn new_indexes_have_even_chunks_and_an_untrained_rotation() {
    let index = IVFPQIndex::with_target_partition_size(6, 1000, 100, 3, MetricType::L2, true);
    assert_eq!(index.nlist, 10);
    let chunks: Vec<_> = (0..3).map(|sub| index.pq.chunk_range(sub)).collect();
    assert_eq!(chunks, vec![0..2, 2..4, 4..6]);
    assert!(index.pq.centroids().is_empty() && index.pq.centroid_norms().is_empty());
    let rotation = index.opq.as_ref().unwrap();
    assert_eq!((rotation.niter, rotation.niter_pq, rotation.niter_pq_0), (50, 4, 40));
    assert_eq!(rotation.max_train_points, 65536);
    assert_eq!(rotation.rotation, vec![0; 36]);
    let copy = IVFPQIndex::from_trained(&index);
    let rotation = copy.opq.as_ref().unwrap();
    assert_eq!((rotation.niter, rotation.niter_pq, rotation.niter_pq_0), (0, 0, 0));
    assert_eq!((rotation.max_train_points, rotation.is_trained), (0, true));
}

#[test]
fn test_from_trained_and_merge() {
    let d = 16;
    let nlist = 4;
    let m = 4;
    let n = 500;

    let data = generate_clustered_data(n * 2, d, 4, 42);
    let ids_a: Vec<i64> = (0..n as i64).collect();
    let ids_b: Vec<i64> = (n as i64..2 * n as i64).collect();

    let mut trainer = IVFPQIndex::new(d, nlist, m, MetricType::L2, false);
    train(&mut trainer, &data[..n * d], n);

    let mut worker_a = IVFPQIndex::from_trained(&trainer);
    add(&mut worker_a, &data[..n * d], &ids_a, n);

    let mut worker_b = IVFPQIndex::from_trained(&trainer);
    add(&mut worker_b, &data[n * d..], &ids_b, n);

    let total_a: usize = worker_a.ids.iter().map(|l| l.len()).sum();
    let total_b: usize = worker_b.ids.iter().map(|l| l.len()).sum();
    assert_eq!(total_a + total_b, n * 2);

    let mut merged = IVFPQIndex::from_trained(&trainer);
    merged.merge_from(&worker_a).unwrap();
    merged.merge_from(&worker_b).unwrap();

    let total_merged: usize = merged.ids.iter().map(|l| l.len()).sum();
    assert_eq!(total_merged, n * 2);
    assert_eq!(merged.total_vectors(), n * 2);

    let (_, labels) = search(&merged, &data[0..d], 1, 5, 4);
    assert_eq!(labels[0], 0);

    let (_, labels) = search(&merged, &data[n * d..(n + 1) * d], 1, 5, 4);
    assert_eq!(labels[0], n as i64);
}

fn message(error: &MergeError) -> &'static str {
    match error {
        MergeError::Dimension { .. } => "dimension mismatch",
        MergeError::ListCount { .. } => "nlist mismatch",
        MergeError::Metric { .. } => "metric mismatch",
        MergeError::ResidualMode { .. } => "residual mode mismatch",
        MergeError::PqLayout => "PQ layout mismatch",
        MergeError::OpqConfiguration => "OPQ configuration mismatch",
        MergeError::OpqLayout { .. } => "OPQ layout mismatch",
        MergeError::OpqRotation => "OPQ rotation mismatch",
        MergeError::CoarseCentroids => "coarse centroids mismatch",
        MergeError::PqCodebooks => "PQ codebooks mismatch",
    }
}

fn assert_invalid_merge(base: &IVFPQIndex, other: &IVFPQIndex, expected_message: &str) {
    let mut target = IVFPQIndex::from_trained(base);
    let before_ids = target.ids.clone();
    let before_codes = target.codes.clone();

    let err = target.merge_from(other).unwrap_err();

    assert_eq!(message(&err), expected_message);
    assert_eq!(target.ids, before_ids);
    assert_eq!(target.codes, before_codes);
}

fn plus_one(value: u32) -> u32 {
    (f32::from_bits(value) + 1.0).to_bits()
}

#[test]
fn test_merge_rejects_incompatible_training_state() {
    let d = 16;
    let nlist = 4;
    let m = 4;
    let n = 500;

    let data = generate_clustered_data(n, d, 4, 42);
    let ids: Vec<i64> = (0..n as i64).collect();

    let mut trainer = IVFPQIndex::new(d, nlist, m, MetricType::L2, false);
    train(&mut trainer, &data, n);

    let mut base = IVFPQIndex::from_trained(&trainer);
    add(&mut base, &data, &ids, n);

    let mut mismatched_metric = IVFPQIndex::from_trained(&trainer);
    mismatched_metric.metric = MetricType::InnerProduct;
    mismatched_metric.by_residual = false;
    assert_invalid_merge(&base, &mismatched_metric, "metric mismatch");

    let mut mismatched_residual = IVFPQIndex::from_trained(&trainer);
    mismatched_residual.by_residual = false;
    assert_invalid_merge(&base, &mismatched_residual, "residual mode mismatch");

    let mut mismatched_centroids = IVFPQIndex::from_trained(&trainer);
    mismatched_centroids.quantizer_centroids[0] =
        plus_one(mismatched_centroids.quantizer_centroids[0]);
    assert_invalid_merge(&base, &mismatched_centroids, "coarse centroids mismatch");

    let mut mismatched_codebooks = IVFPQIndex::from_trained(&trainer);
    let mut codebook = floats(mismatched_codebooks.pq.centroids());
    codebook[0] += 1.0;
    set_centroids(&mut mismatched_codebooks.pq, &codebook);
    assert_invalid_merge(&base, &mismatched_codebooks, "PQ codebooks mismatch");

    let mismatched_opq = IVFPQIndex::new(d, nlist, m, MetricType::L2, true);
    assert_invalid_merge(&base, &mismatched_opq, "OPQ configuration mismatch");
}

#[test]
fn merging_rejects_other_shapes() {
    let base = IVFPQIndex::new(16, 4, 4, MetricType::L2, false);
    let wider = IVFPQIndex::new(32, 4, 4, MetricType::L2, false);
    assert_invalid_merge(&base, &wider, "dimension mismatch");
    let longer = IVFPQIndex::new(16, 5, 4, MetricType::L2, false);
    assert_invalid_merge(&base, &longer, "nlist mismatch");
    let finer = IVFPQIndex::new(16, 4, 8, MetricType::L2, false);
    assert_invalid_merge(&base, &finer, "PQ layout mismatch");
    let rotated = IVFPQIndex::new(16, 4, 4, MetricType::L2, true);
    let mut other = IVFPQIndex::new(16, 4, 4, MetricType::L2, true);
    other.opq.as_mut().unwrap().m = 8;
    assert_invalid_merge(&rotated, &other, "OPQ layout mismatch");
}

#[test]
fn test_merge_rejects_incompatible_opq_rotation() {
    let d = 16;
    let nlist = 4;
    let m = 4;
    let n = 500;

    let data = generate_clustered_data(n, d, 4, 55);

    let mut trainer = IVFPQIndex::new(d, nlist, m, MetricType::L2, true);
    train(&mut trainer, &data, n);

    let base = IVFPQIndex::from_trained(&trainer);
    let mut mismatched_rotation = IVFPQIndex::from_trained(&trainer);
    let rotation = &mut mismatched_rotation.opq.as_mut().unwrap().rotation;
    rotation[0] = plus_one(rotation[0]);

    assert_invalid_merge(&base, &mismatched_rotation, "OPQ rotation mismatch");
}

#[test]
fn test_opq_ip() {
    let d = 16;
    let nlist = 4;
    let m = 4;
    let n = 1000;
    let k = 5;

    let data = generate_clustered_data(n, d, 4, 55);
    let ids: Vec<i64> = (0..n as i64).collect();

    let mut index = IVFPQIndex::new(d, nlist, m, MetricType::InnerProduct, true);
    train(&mut index, &data, n);
    add(&mut index, &data, &ids, n);

    let (dists, labels) = search(&index, &data[0..d], 1, k, 4);

    let valid = labels.iter().filter(|&&id| id >= 0).count();
    assert!(valid > 0, "OPQ+IP should return results");
    for i in 1..valid {
        assert!(dists[i] >= dists[i - 1]);
    }
}

#[test]
fn test_opq_cosine() {
    let d = 16;
    let nlist = 4;
    let m = 4;
    let n = 1000;
    let k = 5;

    let data = generate_clustered_data(n, d, 4, 77);
    let ids: Vec<i64> = (0..n as i64).collect();

    let mut index = IVFPQIndex::new(d, nlist, m, MetricType::Cosine, true);
    train(&mut index, &data, n);
    add(&mut index, &data, &ids, n);

    let (dists, labels) = search(&index, &data[0..d], 1, k, 4);

    let valid = labels.iter().filter(|&&id| id >= 0).count();
    assert!(valid > 0, "OPQ+Cosine should return results");
    for i in 1..valid {
        assert!(dists[i] >= dists[i - 1]);
    }
}

#[test]
fn test_opq_4bit() {
    let d = 16;
    let nlist = 4;
    let m = 8;
    let n = 1000;
    let k = 5;

    let data = generate_clustered_data(n, d, 4, 42);
    let ids: Vec<i64> = (0..n as i64).collect();

    let mut index = IVFPQIndex::with_nbits(d, nlist, m, 4, MetricType::L2, true);
    train(&mut index, &data, n);
    add(&mut index, &data, &ids, n);

    let (dists, labels) = search(&index, &data[0..d], 1, k, 4);

    assert_eq!(labels[0], 0, "OPQ+4bit should recall query vector itself");
    for i in 1..k {
        assert!(dists[i] >= dists[i - 1]);
    }
}

/// What a heap of `k` rows keeps of a scan.
fn kept(
    ids: &[i64],
    distances: &[u32],
    rows: Option<&MatchingRows>,
    k: usize,
) -> Vec<(f32, i64)> {
    let mut heap = TopKHeap::new(k);
    scan_rows(ids, distances, rows, &mut heap);
    heap.into_sorted()
        .into_iter()
        .map(|(distance, id)| (f32::from_bits(distance), id))
        .collect()
}

#[test]
fn transposed_scan_matches_scalar_distance_table() {
    let count = 40;
    let m = 7;
    let ksub = 256;
    let dis0 = 3.25f32;
    let ids = (1_000..1_000 + count as i64).collect::<Vec<_>>();
    let codes = (0..m * count)
        .map(|index| ((index * 73 + 19) % ksub) as u8)
        .collect::<Vec<_>>();
    let table = (0..m * ksub)
        .map(|index| (index % 101) as f32 * 0.03125)
        .collect::<Vec<_>>();
    let table_bits = bits(&table);

    let base = dis0.to_bits();
    let distances =
        transposed_distances(&table_bits, &codes, count, m, ksub, base, None, &sum);

    let mut expected = (0..count)
        .map(|row| {
            let distance = (0..m).fold(dis0, |distance, sub| {
                distance + table[sub * ksub + codes[sub * count + row] as usize]
            });
            (distance, ids[row])
        })
        .collect::<Vec<_>>();
    expected.sort_by(|left, right| left.0.total_cmp(&right.0));
    assert_eq!(kept(&ids, &distances, None, count), expected);

    for matching_count in [4, 5, 6] {
        let matching_rows = MatchingRows::Sparse((0..matching_count).collect());
        let distances = transposed_distances(
            &table_bits,
            &codes,
            count,
            m,
            ksub,
            base,
            Some(&matching_rows),
            &sum,
        );
        let filtered_expected = expected
            .iter()
            .copied()
            .filter(|(_, id)| *id < ids[0] + matching_count as i64)
            .collect::<Vec<_>>();
        let filtered = kept(&ids, &distances, Some(&matching_rows), matching_rows.len());
        assert_eq!(filtered, filtered_expected);
    }
}

#[test]
fn transposed_sparse_scan_uses_configured_crossover() {
    let count = 40;
    let boundary = count / TRANSPOSED_SPARSE_SCAN_DIVISOR;
    let at_boundary = MatchingRows::Sparse((0..boundary).collect());
    let above_boundary = MatchingRows::Sparse((0..boundary + 1).collect());

    assert!(should_scan_sparse(
        count,
        &at_boundary,
        TRANSPOSED_SPARSE_SCAN_DIVISOR
    ));
    assert!(!should_scan_sparse(
        count,
        &above_boundary,
        TRANSPOSED_SPARSE_SCAN_DIVISOR
    ));
}

/// The distances of rows of one-byte codes.
fn scan_row_major(
    table: &[f32],
    codes: &[u8],
    m: usize,
    ksub: usize,
    dis0: f32,
) -> Vec<u32> {
    let pq = ProductQuantizer::new(m, m);
    assert_eq!(pq.ksub(), ksub);
    row_distances(&pq, &bits(table), dis0, codes, codes.len() / m, false, None)
}

#[test]
fn row_major_sparse_scan_matches_exact_distances() {
    let count = 400;
    let m = 8;
    let ksub = 256;
    let dis0 = 1.25;
    let ids = (10_000..10_000 + count as i64).collect::<Vec<_>>();
    let codes = (0..count * m)
        .map(|index| ((index * 37 + 11) % ksub) as u8)
        .collect::<Vec<_>>();
    let table = (0..m * ksub)
        .map(|index| ((index * 29 + 7) % 113) as f32 * 0.03125)
        .collect::<Vec<_>>();
    let matching_positions = (0..count).step_by(3).collect::<Vec<_>>();
    let mut expected = matching_positions
        .iter()
        .map(|&position| {
            let code = &codes[position * m..(position + 1) * m];
            let total: f32 = (0..m).map(|sub| table[sub * ksub + code[sub] as usize]).sum();
            (dis0 + total, ids[position])
        })
        .collect::<Vec<_>>();
    expected.sort_unstable_by_key(|&(_, id)| id);

    let matching_count = matching_positions.len();
    let matching_rows = MatchingRows::Sparse(matching_positions);
    let distances = scan_row_major(&table, &codes, m, ksub, dis0);

    let mut actual = kept(&ids, &distances, Some(&matching_rows), matching_count);
    actual.sort_unstable_by_key(|&(_, id)| id);
    assert_eq!(actual, expected);
}

#[test]
fn ivfpq_batch_timing_distinguishes_sparse_and_dense_scan_work() {
    let mut timing = BatchScanCounters::default();
    let sparse_rows = MatchingRows::Sparse((0..10).collect());
    let dense_rows = MatchingRows::Sparse((0..26).collect());

    timing.record_scan_work(100, Some(&sparse_rows), 4, 8, true);
    timing.record_scan_work(100, Some(&dense_rows), 3, 8, true);

    assert_eq!(timing.unique_list_rows, 200);
    assert_eq!(timing.matched_rows, 36);
    assert_eq!(timing.pq_codes_evaluated, 118);
    assert_eq!(timing.sparse_query_list_pairs, 4);
    assert_eq!(timing.dense_query_list_pairs, 3);
    assert_eq!(timing.actual_pq_codes_evaluated, 340);
}

#[test]
fn counters_count_queries_with_few_hits() {
    let mut counters = BatchScanCounters::default();
    counters.min_hits_per_query = 5;
    counters.record_result(5, 5);
    counters.record_result(3, 5);
    counters.record_result(4, 5);
    assert_eq!(counters.queries_below_k, 2);
    assert_eq!(counters.min_hits_per_query, 3);
    counters.record_scan_work(9, None, 2, 4, true);
    assert_eq!(counters.dense_query_list_pairs, 2);
    assert_eq!(counters.actual_pq_codes_evaluated, 18);
    counters.record_scan_work(9, Some(&MatchingRows::Sparse(Vec::new())), 2, 8, true);
    assert_eq!(counters.actual_pq_codes_evaluated, 18);
    assert_eq!(counters.unique_list_rows, 18);
}

#[test]
fn matching_rows_adapts_sparse_positions_to_bounded_bitmap() {
    let ids = (0..1024i64).collect::<Vec<_>>();
    let sparse_filter = [3i64, 511, 900].into_iter().collect::<HashSet<_>>();
    let sparse = matching_rows(&ids, Some(&sparse_filter)).unwrap();
    assert!(matches!(sparse, MatchingRows::Sparse(_)));
    assert_eq!(sparse.positions(ids.len()), vec![3, 511, 900]);

    let dense_filter = ids.iter().copied().collect::<HashSet<_>>();
    let dense = matching_rows(&ids, Some(&dense_filter)).unwrap();
    assert!(matches!(dense, MatchingRows::Bitmap { .. }));
    assert_eq!(dense.len(), ids.len());
    assert_eq!(
        dense.positions(ids.len()),
        (0..ids.len()).collect::<Vec<_>>()
    );
    let storage_bytes = match &dense {
        MatchingRows::Sparse(positions) => positions.capacity() * std::mem::size_of::<usize>(),
        MatchingRows::Bitmap { words, .. } => words.capacity() * std::mem::size_of::<u64>(),
    };
    assert!(
        storage_bytes <= ids.len().div_ceil(64) * std::mem::size_of::<u64>(),
        "dense match storage must be bounded to one bit per row"
    );
}

#[test]
fn row_major_dense_bitmap_scan_matches_exact_distances() {
    let count = 1024;
    let m = 8;
    let ksub = 256;
    let dis0 = 2.5;
    let ids = (20_000..20_000 + count as i64).collect::<Vec<_>>();
    let codes = (0..count * m)
        .map(|index| ((index * 73 + 19) % ksub) as u8)
        .collect::<Vec<_>>();
    let table = (0..m * ksub)
        .map(|index| ((index * 31 + 5) % 127) as f32 * 0.015625)
        .collect::<Vec<_>>();
    let filter = ids
        .iter()
        .copied()
        .filter(|id| id % 4 != 0)
        .collect::<HashSet<_>>();
    let matching_rows = matching_rows(&ids, Some(&filter)).unwrap();
    assert!(matches!(matching_rows, MatchingRows::Bitmap { .. }));

    let mut expected = matching_rows
        .positions(count)
        .into_iter()
        .map(|position| {
            let code = &codes[position * m..(position + 1) * m];
            let total: f32 = (0..m).map(|sub| table[sub * ksub + code[sub] as usize]).sum();
            (dis0 + total, ids[position])
        })
        .collect::<Vec<_>>();
    expected.sort_unstable_by_key(|&(_, id)| id);

    let distances = scan_row_major(&table, &codes, m, ksub, dis0);
    let mut actual = kept(&ids, &distances, Some(&matching_rows), matching_rows.len());
    actual.sort_unstable_by_key(|&(_, id)| id);
    assert_eq!(actual, expected);
}

#[test]
fn reader_list_precomputed_table_matches_index_table() {
    let d = 16;
    let nlist = 4;
    let m = 4;
    let n = 600;
    let data = generate_clustered_data(n, d, nlist, 44);
    let mut index = IVFPQIndex::new(d, nlist, m, MetricType::L2, false);
    train(&mut index, &data, n);
    build_precomputed_table(&mut index);
    let pq_norms = floats(index.pq.centroid_norms());
    let centroids = floats(index.pq.centroids());

    for list_id in 0..nlist {
        let coarse = floats(&index.quantizer_centroids[list_id * d..(list_id + 1) * d]);
        let mut actual = Vec::new();
        for sub in 0..m {
            let range = index.pq.chunk_range(sub);
            let base = index.pq.centroid_chunk_base(sub);
            for code in 0..index.pq.ksub() {
                let start = base + code * range.len();
                let mut inner_product = 0.0f32;
                for dimension in 0..range.len() {
                    inner_product +=
                        coarse[range.start + dimension] * centroids[start + dimension];
                }
                actual.push(pq_norms[sub * index.pq.ksub() + code] + 2.0 * inner_product);
            }
        }
        let table_size = m * index.pq.ksub();
        assert_eq!(
            bits(&actual),
            index.precomputed_table[list_id * table_size..(list_id + 1) * table_size]
        );
    }
}

#[test]
fn ephemeral_precomputation_requires_matching_probe_work() {
    assert!(!should_use_ephemeral_precomputation(0, 0, 0));
}

#[test]
fn ephemeral_precomputation_respects_batch_memory_budget() {
    let max_values = DEFAULT_IVFPQ_BATCH_TABLE_REUSE_MAX_BYTES / std::mem::size_of::<f64>();
    let max_list_values = max_values / 3;
    assert!(ephemeral_precomputed_table_fits_budget(
        1,
        1,
        1,
        max_list_values,
        DEFAULT_IVFPQ_BATCH_TABLE_REUSE_MAX_BYTES,
    ));
    assert!(!ephemeral_precomputed_table_fits_budget(
        1,
        1,
        1,
        max_list_values + 1,
        DEFAULT_IVFPQ_BATCH_TABLE_REUSE_MAX_BYTES,
    ));
    assert!(!ephemeral_precomputed_table_fits_budget(
        0,
        1,
        1,
        1,
        DEFAULT_IVFPQ_BATCH_TABLE_REUSE_MAX_BYTES,
    ));
    assert!(!ephemeral_precomputed_table_fits_budget(
        usize::MAX,
        usize::MAX,
        usize::MAX,
        usize::MAX,
        DEFAULT_IVFPQ_BATCH_TABLE_REUSE_MAX_BYTES,
    ));
}

#[test]
fn test_precomputed_table_matches_normal_search() {
    let d = 16;
    let nlist = 4;
    let m = 4;
    let n = 1000;
    let k = 10;
    let nprobe = 4;

    let data = generate_clustered_data(n, d, 4, 42);
    let mut index = built_index(&data, n, d, nlist, m);

    let (dists_normal, labels_normal) = search(&index, &data[0..d], 1, k, nprobe);

    build_precomputed_table(&mut index);
    let (dists_precomp, labels_precomp) = search(&index, &data[0..d], 1, k, nprobe);

    assert_eq!(
        labels_normal, labels_precomp,
        "precomputed table should produce identical ranking"
    );
    for i in 0..k {
        assert!(
            (dists_normal[i] - dists_precomp[i]).abs() < 1e-2,
            "distance mismatch at rank {}: normal={}, precomp={}",
            i,
            dists_normal[i],
            dists_precomp[i]
        );
    }
}

#[test]
fn test_fastscan_invalidated_after_add() {
    let d = 16;
    let nlist = 4;
    let m = 8;
    let n = 500;
    let k = 5;

    let data = generate_clustered_data(n * 2, d, 4, 42);
    let ids_a: Vec<i64> = (0..n as i64).collect();
    let ids_b: Vec<i64> = (n as i64..2 * n as i64).collect();

    let mut index = IVFPQIndex::with_nbits(d, nlist, m, 4, MetricType::L2, false);
    train(&mut index, &data, n);
    add(&mut index, &data[..n * d], &ids_a, n);

    build_search_structures(&mut index);
    assert!(!index.fastscan_codes.is_empty());

    add(&mut index, &data[n * d..], &ids_b, n);
    assert!(
        index.fastscan_codes.is_empty(),
        "fastscan_codes must be cleared after add()"
    );

    build_search_structures(&mut index);
    let (_, labels) = search(&index, &data[0..d], 1, k, 4);
    assert_eq!(labels[0], 0);

    let (_, labels) = search(&index, &data[n * d..(n + 1) * d], 1, k, 4);
    assert_eq!(labels[0], n as i64);
}

#[test]
fn test_precomputed_table_invalidated_after_add() {
    let d = 16;
    let nlist = 4;
    let m = 4;
    let n = 500;

    let data = generate_clustered_data(n * 2, d, 4, 42);
    let ids_a: Vec<i64> = (0..n as i64).collect();
    let ids_b: Vec<i64> = (n as i64..2 * n as i64).collect();

    let mut index = IVFPQIndex::new(d, nlist, m, MetricType::L2, false);
    train(&mut index, &data[..n * d], n);
    add(&mut index, &data[..n * d], &ids_a, n);

    build_precomputed_table(&mut index);
    assert!(!index.precomputed_table.is_empty());

    add(&mut index, &data[n * d..], &ids_b, n);
    assert!(
        index.precomputed_table.is_empty(),
        "precomputed_table must be cleared after add()"
    );

    build_precomputed_table(&mut index);
    let k = 5;
    let (_, labels) = search(&index, &data[0..d], 1, k, 4);
    assert_eq!(labels[0], 0);

    let (_, labels) = search(&index, &data[n * d..(n + 1) * d], 1, k, 4);
    assert_eq!(labels[0], n as i64);
}

#[test]
fn tables_and_packed_codes_are_built_only_where_they_serve() {
    let data = generate_clustered_data(400, 8, 2, 9);
    let mut index = IVFPQIndex::new(8, 2, 4, MetricType::InnerProduct, false);
    train(&mut index, &data, 400);
    build_precomputed_table(&mut index);
    assert!(!index.has_precomputed_table());
    build_search_structures(&mut index);
    assert!(index.fastscan_codes.is_empty());

    let mut packed = IVFPQIndex::with_nbits(8, 3, 4, 4, MetricType::L2, false);
    train(&mut packed, &data, 400);
    packed.add_batch(&[2, 2], &[7, 8], &[1, 2, 3, 4]);
    build_search_structures(&mut packed);
    assert_eq!(packed.fastscan_codes, vec![vec![], vec![], vec![1, 3, 2, 4]]);
    packed.merge_from(&IVFPQIndex::from_trained(&packed)).unwrap();
    assert!(packed.fastscan_codes.is_empty());
}

#[test]
fn test_write_read_search() {
    let d = 16;
    let nlist = 4;
    let m = 4;
    let n = 500;
    let k = 10;

    let data = generate_clustered_data(n, d, 4, 789);
    let index = built_index(&data, n, d, nlist, m);
    let mut reader = Reader::open(&index);

    let (result_ids, result_dists) = reader.search(&data[0..d], k, 4).unwrap();

    assert!(!result_ids.is_empty());
    assert!(result_ids.contains(&0));
    for i in 1..result_dists.len() {
        assert!(result_dists[i] >= result_dists[i - 1]);
    }
}

#[test]
fn test_reader_search_works_without_concurrent_pread() {
    let d = 16;
    let nlist = 8;
    let m = 4;
    let n = 800;
    let k = 5;
    let nprobe = 4;

    let data = generate_clustered_data(n, d, 8, 789);
    let index = built_index(&data, n, d, nlist, m);

    let mut baseline_reader = Reader::open(&index);
    let (baseline_ids, baseline_dists) =
        baseline_reader.search(&data[0..d], k, nprobe).unwrap();

    let mut reader = Reader::open(&index);
    reader.lists_per_read = 1;

    let (ids, dists) = reader.search(&data[0..d], k, nprobe).unwrap();

    assert_eq!(ids, baseline_ids);
    assert_eq!(dists, baseline_dists);
    assert!(
        reader.stats.pread_calls > 0,
        "search should still read inverted lists through pread fallback"
    );
    assert_eq!(reader.stats.max_ranges_per_batch, 1);
}

#[test]
fn lists_read_in_pieces_give_the_same_results() {
    let (d, nlist, m, n, k) = (16, 8, 4, 800, 5);
    let data = generate_clustered_data(n, d, 8, 790);
    let index = built_index(&data, n, d, nlist, m);
    let mut whole = Reader::open(&index);
    let mut pieces = Reader::open(&index);
    pieces.oversized = true;
    let filter: HashSet<i64> = (0..n as i64).filter(|id| id % 3 == 0).collect();
    for filter in [None, Some(&filter)] {
        let auto = IvfPqBatchTableReuseMode::Auto;
        let queries = &data[..6 * d];
        let expected = search_batch_filter(&mut whole, queries, 6, k, 3, filter, auto).unwrap();
        let actual = search_batch_filter(&mut pieces, queries, 6, k, 3, filter, auto).unwrap();
        assert_eq!(actual.ids, expected.ids);
        assert_eq!(actual.distances, expected.distances);
    }
    assert_eq!(pieces.stats.pread_calls, 0);
}

#[test]
fn test_reader_search_batches_multiple_list_preads() {
    let d = 16;
    let nlist = 8;
    let m = 4;
    let n = 800;
    let k = 5;
    let nprobe = 4;

    let data = generate_clustered_data(n, d, 8, 987);
    let index = built_index(&data, n, d, nlist, m);
    let mut reader = Reader::open(&index);

    let (_ids, _dists) = reader.search(&data[0..d], k, nprobe).unwrap();

    assert!(
        reader.stats.max_ranges_per_batch > 1,
        "multiple probed IVF-PQ lists should share one batched pread"
    );
    assert!(
        reader
            .stats
            .last_positions
            .windows(2)
            .all(|positions| positions[0] <= positions[1]),
        "fallback readers should receive inverted-list ranges in physical order"
    );
}

#[test]
fn test_reader_search_validates_inputs() {
    let d = 16;
    let nlist = 4;
    let m = 4;
    let n = 500;

    let data = generate_clustered_data(n, d, 4, 789);
    let index = built_index(&data, n, d, nlist, m);
    let mut reader = Reader::open(&index);

    let err = reader.search(&data[0..d - 1], 5, 2).unwrap_err();
    assert_eq!(err, SearchError::QueryLengthMismatch { actual: d - 1, expected: d });

    let err = reader.search(&data[0..d + 1], 5, 2).unwrap_err();
    assert_eq!(err, SearchError::QueryLengthMismatch { actual: d + 1, expected: d });

    let err = reader.search(&data[0..d], 0, 2).unwrap_err();
    assert_eq!(err, SearchError::ZeroK);

    let err = reader.search(&data[0..d], 5, 0).unwrap_err();
    assert_eq!(err, SearchError::ZeroProbes);
}

#[test]
fn test_write_read_search_with_filter() {
    let d = 16;
    let nlist = 4;
    let m = 4;
    let n = 500;
    let k = 5;

    let data = generate_clustered_data(n, d, 4, 789);
    let index = built_index(&data, n, d, nlist, m);
    let mut reader = Reader::open(&index);

    let filter: HashSet<i64> = (0..n as i64).filter(|id| id % 3 == 0).collect();
    let (result_ids, _) =
        search_with_reader_filter(&mut reader, &data[0..d], k, 4, Some(&filter)).unwrap();

    assert_eq!(result_ids.len(), k);
    for &id in &result_ids {
        assert!(id % 3 == 0, "Filter violated: got ID {}", id);
    }
}

fn serialized(ids: impl Iterator<Item = u64>) -> Vec<u8> {
    let mut allowed = RoaringTreemap::new();
    for id in ids {
        allowed.insert(id);
    }
    let mut bytes = Vec::new();
    allowed.serialize_into(&mut bytes).unwrap();
    bytes
}

#[test]
fn test_reader_search_with_roaring_filter_bytes() {
    let d = 16;
    let nlist = 4;
    let m = 4;
    let n = 500;
    let k = 5;

    let data = generate_clustered_data(n, d, 4, 789);
    let index = built_index(&data, n, d, nlist, m);

    let filter_bytes = serialized((0..n as u64).filter(|id| id % 5 == 0));
    let filter = decode_roaring_filter(&filter_bytes).unwrap();

    let mut reader = Reader::open(&index);
    let (result_ids, _) =
        search_with_reader_filter(&mut reader, &data[0..d], k, 4, Some(&filter)).unwrap();

    assert_eq!(result_ids.len(), k);
    for &id in &result_ids {
        assert_eq!(id % 5, 0, "Roaring filter violated: got ID {}", id);
    }
}

#[test]
fn test_reader_search_rejects_invalid_roaring_filter_bytes() {
    assert!(decode_roaring_filter(b"not roaring").is_err());
    assert!(decode_roaring_filter(b"short").is_err());
}

#[test]
fn test_big_batch_search() {
    let d = 16;
    let nlist = 4;
    let m = 4;
    let n = 1000;
    let k = 5;
    let nq = 20;
    let nprobe = 2;

    let data = generate_clustered_data(n, d, 4, 42);
    let index = built_index(&data, n, d, nlist, m);
    let mut reader = Reader::open(&index);

    let queries = &data[..nq * d];
    let (batch_ids, batch_dists) =
        search_batch_reader(&mut reader, queries, nq, k, nprobe).unwrap();

    for qi in 0..nq {
        let base = qi * k;
        assert_eq!(batch_ids[base], qi as i64);
        for i in 1..k {
            if batch_ids[base + i] >= 0 {
                assert!(batch_dists[base + i] >= batch_dists[base + i - 1]);
            }
        }
    }
}

#[test]
fn test_batch_reader_matches_single_reader_search() {
    let d = 16;
    let nlist = 8;
    let m = 4;
    let n = 1000;
    let k = 5;
    let nq = 12;
    let nprobe = 3;

    let data = generate_clustered_data(n, d, 8, 42);
    let index = built_index(&data, n, d, nlist, m);

    let queries = &data[..nq * d];
    let mut batch_reader = Reader::open(&index);
    let (batch_ids, batch_dists) =
        search_batch_reader(&mut batch_reader, queries, nq, k, nprobe).unwrap();

    for qi in 0..nq {
        let mut single_reader = Reader::open(&index);
        let query = &queries[qi * d..(qi + 1) * d];
        let (single_ids, single_dists) = single_reader.search(query, k, nprobe).unwrap();
        let base = qi * k;

        assert_eq!(&batch_ids[base..base + k], &single_ids[..]);
        assert_eq!(&batch_dists[base..base + k], &single_dists[..]);
    }
}

#[test]
fn incremental_batch_probe_ranges_partition_the_one_shot_lists() {
    let d = 16;
    let nlist = 4;
    let m = 4;
    let n = 128;
    let nq = 2;
    let k = n;
    let data = generate_clustered_data(n, d, nlist, 2_026);
    let index = built_index(&data, n, d, nlist, m);
    let queries = &data[..nq * d];

    let mut full_reader = Reader::open(&index);
    let (full_ids, _) = search_batch_reader(&mut full_reader, queries, nq, k, nlist).unwrap();

    let mut incremental_reader = Reader::open(&index);
    let none: Option<&HashSet<i64>> = None;
    let auto = IvfPqBatchTableReuseMode::Auto;
    let budget = DEFAULT_IVFPQ_BATCH_TABLE_REUSE_MAX_BYTES;
    let reader = &mut incremental_reader;
    let first =
        search_batch_range(reader, queries, nq, k, 0, 2, &[], &[], none, auto, budget).unwrap();
    let second_delta_ids =
        search_batch_range(reader, queries, nq, k, 2, nlist, &[], &[], none, auto, budget)
            .unwrap()
            .ids;
    let (first_ids, first_distances) = (first.ids, first.distances);
    let second_ids = search_batch_range(
        reader,
        queries,
        nq,
        k,
        2,
        nlist,
        &first_ids,
        &first_distances,
        none,
        auto,
        budget,
    )
    .unwrap()
    .ids;

    for query_index in 0..nq {
        let result = query_index * k..(query_index + 1) * k;
        let set = |ids: &[i64]| {
            ids.iter()
                .copied()
                .filter(|&id| id != -1)
                .collect::<HashSet<_>>()
        };
        let full = set(&full_ids[result.clone()]);
        let first = set(&first_ids[result.clone()]);
        let second_delta = set(&second_delta_ids[result.clone()]);
        let second = set(&second_ids[result]);

        assert!(first.is_disjoint(&second_delta));
        assert_eq!(
            first.union(&second_delta).copied().collect::<HashSet<_>>(),
            full
        );
        assert_eq!(second, full);
    }
}

#[test]
fn inner_product_batch_table_reuse_modes_preserve_results_and_control_table_builds() {
    let d = 16;
    let nlist = 4;
    let m = 4;
    let n = 600;
    let nq = 8;
    let k = 5;
    let nprobe = nlist;
    let data = generate_clustered_data(n, d, nlist, 43);
    let ids = (0..n as i64).collect::<Vec<_>>();
    let mut index = IVFPQIndex::new(d, nlist, m, MetricType::InnerProduct, false);
    train(&mut index, &data, n);
    add(&mut index, &data, &ids, n);

    let none: Option<&HashSet<i64>> = None;
    let on = IvfPqBatchTableReuseMode::On;
    let auto = IvfPqBatchTableReuseMode::Auto;
    let default_budget = DEFAULT_IVFPQ_BATCH_TABLE_REUSE_MAX_BYTES;
    let searched = |nq: usize, mode: IvfPqBatchTableReuseMode, budget: usize| {
        let mut reader = Reader::open(&index);
        let queries = &data[..nq * d];
        search_batch_range(
            &mut reader, queries, nq, k, 0, nprobe, &[], &[], none, mode, budget,
        )
        .unwrap()
    };

    let batch = searched(nq, on, default_budget);
    assert_eq!(batch.table_builds, nq);

    let over_budget = searched(nq, on, nq * m * 256 * std::mem::size_of::<f32>() - 1);
    assert_eq!(
        over_budget.table_builds,
        nq * nprobe,
        "the direct path should be used when reused tables exceed the configured budget"
    );

    let direct = searched(nq, IvfPqBatchTableReuseMode::Off, default_budget);
    assert_eq!(batch.ids, direct.ids);
    assert_eq!(batch.distances, direct.distances);

    for query_index in 0..nq {
        let mut scalar_reader = Reader::open(&index);
        let query = &data[query_index * d..(query_index + 1) * d];
        let (scalar_ids, scalar_distances) = scalar_reader.search(query, k, nprobe).unwrap();
        let result = query_index * k..(query_index + 1) * k;
        assert_eq!(&batch.ids[result.clone()], scalar_ids.as_slice());
        assert_eq!(&batch.distances[result], scalar_distances.as_slice());
    }

    let large_nq = MIN_EPHEMERAL_PRECOMPUTE_QUERIES;
    assert_eq!(
        searched(large_nq, auto, default_budget).table_builds,
        large_nq,
        "Auto should reuse tables when the batch and probe work amortize them"
    );

    assert_eq!(
        searched(nq, auto, default_budget).table_builds,
        nq * nprobe,
        "Auto should keep the direct path for small batches"
    );

    let empty_filter: HashSet<i64> = HashSet::new();
    let mut reader = Reader::open(&index);
    let filtered = search_batch_filter(
        &mut reader,
        &data[..nq * d],
        nq,
        k,
        nprobe,
        Some(&empty_filter),
        on,
    )
    .unwrap();
    assert_eq!(
        filtered.table_builds, 0,
        "empty filters should not build query distance tables"
    );
}

#[test]
fn test_batch_reader_search_with_roaring_filter_bytes() {
    let d = 16;
    let nlist = 8;
    let m = 4;
    let n = 1000;
    let k = 5;
    let nq = 12;
    let nprobe = 3;

    let data = generate_clustered_data(n, d, 8, 42);
    let index = built_index(&data, n, d, nlist, m);

    let filter_bytes = serialized((0..n as u64).filter(|id| id % 7 == 0));
    let filter = decode_roaring_filter(&filter_bytes).unwrap();

    let queries = &data[..nq * d];
    let mut batch_reader = Reader::open(&index);
    let auto = IvfPqBatchTableReuseMode::Auto;
    let batch =
        search_batch_filter(&mut batch_reader, queries, nq, k, nprobe, Some(&filter), auto)
            .unwrap();

    for qi in 0..nq {
        let base = qi * k;
        for &id in &batch.ids[base..base + k] {
            if id >= 0 {
                assert_eq!(id % 7, 0, "Roaring filter violated: got ID {}", id);
            }
        }

        let mut single_reader = Reader::open(&index);
        let query = &queries[qi * d..(qi + 1) * d];
        let (single_ids, single_dists) =
            search_with_reader_filter(&mut single_reader, query, k, nprobe, Some(&filter))
                .unwrap();

        assert_eq!(&batch.ids[base..base + k], &single_ids[..]);
        assert_eq!(&batch.distances[base..base + k], &single_dists[..]);
    }
}

#[test]
fn test_batch_reader_evaluates_filter_once_per_loaded_row() {
    let d = 16;
    let nlist = 1;
    let m = 4;
    let n = 500;
    let k = 5;
    let nq = 4;
    let nprobe = 1;

    let data = generate_clustered_data(n, d, 1, 42);
    let index = built_index(&data, n, d, nlist, m);

    let filter = CountingFilter::new();
    let queries = &data[..nq * d];
    let mut reader = Reader::open(&index);
    let auto = IvfPqBatchTableReuseMode::Auto;
    let result_ids =
        search_batch_filter(&mut reader, queries, nq, k, nprobe, Some(&filter), auto)
            .unwrap()
            .ids;

    assert!(
        result_ids
            .iter()
            .filter(|&&id| id >= 0)
            .all(|id| id % 7 == 0),
        "filtered batch search returned a disallowed row ID"
    );
    assert_eq!(
        filter.contains_calls.load(Ordering::Relaxed),
        n,
        "the shared filter should be evaluated once per loaded row, not once per query"
    );
}

/// Compares a batch with single searches, allowing for another order of sums.
fn assert_ephemeral_batch_matches(
    index: &IVFPQIndex,
    queries: &[f32],
    nq: usize,
    k: usize,
    filter: Option<&HashSet<i64>>,
) {
    let (d, nlist) = (index.d, index.nlist);
    let mut reader = Reader::open(index);
    let auto = IvfPqBatchTableReuseMode::Auto;
    let batch =
        search_batch_filter(&mut reader, queries, nq, k, nlist, filter, auto).unwrap();

    assert_eq!(batch.precomputed_lists, nlist);
    assert!(
        reader.precomputed_table.is_empty(),
        "batch-local precomputation must not remain resident on the reader"
    );
    for query_index in 0..nq {
        let mut single_reader = Reader::open(index);
        let query = &queries[query_index * d..(query_index + 1) * d];
        let (single_ids, single_dists) =
            search_with_reader_filter(&mut single_reader, query, k, nlist, filter).unwrap();
        assert_eq!(
            &batch.ids[query_index * k..(query_index + 1) * k],
            single_ids.as_slice()
        );
        for (batch, single) in batch.distances[query_index * k..(query_index + 1) * k]
            .iter()
            .zip(&single_dists)
        {
            let tolerance = 1e-4 + 4.0 * f32::EPSILON * single.abs();
            assert!(
                (batch - single).abs() <= tolerance,
                "ephemeral precomputation distance {batch} should match direct residual distance {single} within {tolerance}"
            );
        }
    }
}

#[test]
fn filtered_batch_reader_uses_ephemeral_list_precomputation() {
    let d = 16;
    let nlist = 4;
    let m = 4;
    let n = 600;
    let nq = 64;
    let k = 5;
    let data = generate_clustered_data(n, d, nlist, 45);
    let ids = (0..n as i64).map(|id| 50_000 + id * 3).collect::<Vec<_>>();
    let mut index = IVFPQIndex::new(d, nlist, m, MetricType::L2, false);
    train(&mut index, &data, n);
    add(&mut index, &data, &ids, n);

    let filter = ids.iter().copied().step_by(5).collect::<HashSet<_>>();
    assert_ephemeral_batch_matches(&index, &data[..nq * d], nq, k, Some(&filter));
}

#[test]
fn unfiltered_batch_reader_uses_ephemeral_list_precomputation() {
    let d = 16;
    let nlist = 4;
    let m = 4;
    let n = 600;
    let nq = 64;
    let k = 5;
    let data = generate_clustered_data(n, d, nlist, 49);
    let ids = (0..n as i64).map(|id| 70_000 + id * 3).collect::<Vec<_>>();
    let mut index = IVFPQIndex::new(d, nlist, m, MetricType::L2, false);
    train(&mut index, &data, n);
    add(&mut index, &data, &ids, n);

    assert_ephemeral_batch_matches(&index, &data[..nq * d], nq, k, None);
}

#[test]
fn forced_ephemeral_reuse_is_stable_for_8bit_large_offsets() {
    let d = 4;
    let nlist = 4;
    let m = 1;
    let n = 512;
    let nq = MIN_EPHEMERAL_PRECOMPUTE_QUERIES;
    let k = 8;
    let common = 1_000_000.0f32;
    let spread = 500_000.0f32;
    let data = (0..n)
        .flat_map(|row| {
            let cluster = row % nlist;
            let point = row / nlist;
            (0..d).map(move |dimension| {
                common
                    + cluster as f32 * spread
                    + (((point * 17 + dimension * 13) % 31) as f32 - 15.0) * spread / 16.0
            })
        })
        .collect::<Vec<_>>();
    let index = built_index(&data, n, d, nlist, m);

    let queries = &data[..nq * d];
    let mut reader = Reader::open(&index);
    let on = IvfPqBatchTableReuseMode::On;
    let (result_ids, result_distances) =
        search_batch_with_mode(&mut reader, queries, nq, k, nlist, on).unwrap();

    let code_size = index.pq.code_size();
    for query_index in 0..nq {
        let query = &queries[query_index * d..(query_index + 1) * d];
        for rank in 0..k {
            let offset = query_index * k + rank;
            let id = result_ids[offset];
            let reported = result_distances[offset];
            assert!(
                reported >= 0.0,
                "query {query_index} rank {rank} produced negative squared L2 distance {reported}"
            );

            let (list_id, position) = index
                .ids
                .iter()
                .enumerate()
                .find_map(|(list_id, list_ids)| {
                    list_ids
                        .iter()
                        .position(|candidate| *candidate == id)
                        .map(|position| (list_id, position))
                })
                .unwrap();
            let code_offset = position * code_size;
            let mut decoded = vec![0u32; d];
            index.pq.decode(
                &index.codes[list_id][code_offset..code_offset + code_size],
                &mut decoded,
            );
            let decoded = floats(&decoded);
            let centroid = floats(&index.quantizer_centroids[list_id * d..(list_id + 1) * d]);
            let exact = (0..d)
                .map(|dimension| {
                    let delta = f64::from(query[dimension])
                        - f64::from(centroid[dimension])
                        - f64::from(decoded[dimension]);
                    delta * delta
                })
                .sum::<f64>();
            let tolerance = 1e-3 + 8.0 * f64::from(f32::EPSILON) * exact.abs().max(1.0);
            assert!(
                (f64::from(reported) - exact).abs() <= tolerance,
                "query {query_index} rank {rank} reported {reported}, decoded oracle {exact}, tolerance {tolerance}"
            );
        }
    }
}

fn observed_ephemeral_precomputed_lists_with_nbits(
    nbits: usize,
    nq: usize,
    nprobe: usize,
    filter_step: Option<usize>,
    apply_filter: bool,
    seed: u64,
    reuse_mode: IvfPqBatchTableReuseMode,
) -> usize {
    let d = 16;
    let nlist = 4;
    let m = 4;
    let n = 600;
    let k = 5;
    let data = generate_clustered_data(n, d, nlist, seed);
    let ids = (0..n as i64).collect::<Vec<_>>();
    let mut index = IVFPQIndex::with_nbits(d, nlist, m, nbits, MetricType::L2, false);
    train(&mut index, &data, n);
    add(&mut index, &data, &ids, n);

    let filter = match filter_step {
        Some(step) => ids.iter().copied().step_by(step).collect::<HashSet<_>>(),
        None => HashSet::new(),
    };
    let filter = if apply_filter { Some(&filter) } else { None };
    let mut reader = Reader::open(&index);
    search_batch_filter(&mut reader, &data[..nq * d], nq, k, nprobe, filter, reuse_mode)
        .unwrap()
        .precomputed_lists
}

fn observed_ephemeral_precomputed_lists(
    nq: usize,
    nprobe: usize,
    filter_step: Option<usize>,
    apply_filter: bool,
    seed: u64,
    reuse_mode: IvfPqBatchTableReuseMode,
) -> usize {
    observed_ephemeral_precomputed_lists_with_nbits(
        8,
        nq,
        nprobe,
        filter_step,
        apply_filter,
        seed,
        reuse_mode,
    )
}

#[test]
fn small_filtered_batch_reader_skips_ephemeral_list_precomputation() {
    assert_eq!(
        observed_ephemeral_precomputed_lists(
            4,
            4,
            Some(5),
            true,
            46,
            IvfPqBatchTableReuseMode::Auto,
        ),
        0,
        "small batches should keep the direct residual-table path"
    );
}

#[test]
fn single_probe_filtered_batch_reader_skips_ephemeral_list_precomputation() {
    assert_eq!(
        observed_ephemeral_precomputed_lists(
            MIN_EPHEMERAL_PRECOMPUTE_QUERIES,
            1,
            Some(5),
            true,
            47,
            IvfPqBatchTableReuseMode::Auto,
        ),
        0,
        "single-probe batches cannot amortize list precomputation"
    );
}

#[test]
fn empty_filtered_batch_reader_skips_ephemeral_list_precomputation() {
    assert_eq!(
        observed_ephemeral_precomputed_lists(
            MIN_EPHEMERAL_PRECOMPUTE_QUERIES,
            4,
            None,
            true,
            48,
            IvfPqBatchTableReuseMode::Auto,
        ),
        0,
        "lists without matching rows should not be precomputed"
    );
}

#[test]
fn small_unfiltered_batch_reader_skips_ephemeral_list_precomputation() {
    assert_eq!(
        observed_ephemeral_precomputed_lists(
            4,
            4,
            None,
            false,
            50,
            IvfPqBatchTableReuseMode::Auto,
        ),
        0,
        "small unfiltered batches should keep the direct residual-table path"
    );
}

#[test]
fn batch_table_reuse_off_never_precomputes_list_tables() {
    assert_eq!(
        observed_ephemeral_precomputed_lists(
            MIN_EPHEMERAL_PRECOMPUTE_QUERIES,
            4,
            Some(5),
            true,
            51,
            IvfPqBatchTableReuseMode::Off,
        ),
        0,
        "off mode must keep the direct residual-table path"
    );
}

#[test]
fn resident_precomputed_tables_respect_batch_reuse_mode_and_budget() {
    let d = 16;
    let nlist = 4;
    let m = 4;
    let n = 600;
    let nq = 4;
    let k = 5;
    let data = generate_clustered_data(n, d, nlist, 53);
    let index = built_index(&data, n, d, nlist, m);

    let queries = &data[..nq * d];
    let off = IvfPqBatchTableReuseMode::Off;
    let mut direct_reader = Reader::open(&index);
    let expected =
        search_batch_with_mode(&mut direct_reader, queries, nq, k, nlist, off).unwrap();

    let mut optimized_reader = Reader::open(&index);
    optimized_reader.optimize_for_search();
    assert!(!optimized_reader.precomputed_table.is_empty());
    let on = IvfPqBatchTableReuseMode::On;
    let resident =
        search_batch_with_mode(&mut optimized_reader, queries, nq, k, nlist, on).unwrap();
    assert_eq!(resident.0[0], expected.0[0]);

    optimized_reader.precomputed_table.fill(1_000_000_000.0f32.to_bits());
    let actual =
        search_batch_with_mode(&mut optimized_reader, queries, nq, k, nlist, off).unwrap();

    assert_eq!(actual, expected, "Off must ignore resident reuse tables");

    let none: Option<&HashSet<i64>> = None;
    let reader = &mut optimized_reader;
    let over_budget =
        search_batch_range(reader, queries, nq, k, 0, nlist, &[], &[], none, on, 1).unwrap();
    assert_eq!(
        (over_budget.ids, over_budget.distances),
        expected,
        "resident reuse tables must be ignored when query tables exceed the budget"
    );
    assert_eq!(over_budget.table_builds, nq * nlist);
}

#[test]
fn batch_table_reuse_on_precomputes_for_small_batches() {
    assert!(
        observed_ephemeral_precomputed_lists(
            4,
            4,
            Some(5),
            true,
            52,
            IvfPqBatchTableReuseMode::On,
        ) > 0,
        "on mode must bypass the automatic batch-size heuristic"
    );
}

#[test]
fn four_bit_batch_table_reuse_modes_skip_ephemeral_precomputation() {
    for reuse_mode in [IvfPqBatchTableReuseMode::Auto, IvfPqBatchTableReuseMode::On] {
        assert_eq!(
            observed_ephemeral_precomputed_lists_with_nbits(
                4,
                MIN_EPHEMERAL_PRECOMPUTE_QUERIES,
                4,
                None,
                false,
                54,
                reuse_mode,
            ),
            0,
            "4-bit {reuse_mode:?} must keep the existing scan path"
        );
    }
}

#[test]
fn four_bit_auto_batch_table_reuse_matches_off() {
    let d = 16;
    let nlist = 4;
    let m = 4;
    let n = 600;
    let nq = MIN_EPHEMERAL_PRECOMPUTE_QUERIES;
    let k = 10;
    let nprobe = nlist;
    let data = generate_clustered_data(n, d, nlist, 55);
    let ids = (0..n as i64).collect::<Vec<_>>();
    let mut index = IVFPQIndex::with_nbits(d, nlist, m, 4, MetricType::L2, false);
    train(&mut index, &data, n);
    add(&mut index, &data, &ids, n);

    let queries = &data[..nq * d];
    let off = IvfPqBatchTableReuseMode::Off;
    let mut off_reader = Reader::open(&index);
    let expected = search_batch_with_mode(&mut off_reader, queries, nq, k, nprobe, off).unwrap();

    let auto = IvfPqBatchTableReuseMode::Auto;
    let mut auto_reader = Reader::open(&index);
    let actual = search_batch_with_mode(&mut auto_reader, queries, nq, k, nprobe, auto).unwrap();

    assert_eq!(
        actual, expected,
        "4-bit Auto must preserve the Off path results"
    );
}

#[test]
fn test_batch_reader_empty_roaring_filter_returns_empty_results() {
    let d = 16;
    let nlist = 4;
    let m = 4;
    let n = 500;
    let k = 5;
    let nq = 4;
    let nprobe = 2;

    let data = generate_clustered_data(n, d, 4, 42);
    let index = built_index(&data, n, d, nlist, m);

    let filter = decode_roaring_filter(&serialized(std::iter::empty())).unwrap();

    let queries = &data[..nq * d];
    let mut reader = Reader::open(&index);
    let auto = IvfPqBatchTableReuseMode::Auto;
    let batch =
        search_batch_filter(&mut reader, queries, nq, k, nprobe, Some(&filter), auto).unwrap();

    assert!(batch.ids.iter().all(|&id| id == -1));
    assert!(batch.distances.iter().all(|&dist| dist == f32::MAX));
}

#[test]
fn test_batch_reader_validates_inputs() {
    let d = 16;
    let nlist = 4;
    let m = 4;
    let n = 500;
    let nq = 4;
    let k = 5;
    let nprobe = 2;

    let data = generate_clustered_data(n, d, 4, 42);
    let index = built_index(&data, n, d, nlist, m);
    let queries = &data[..nq * d];

    let mut reader = Reader::open(&index);
    let err = search_batch_reader(&mut reader, &queries[..queries.len() - 1], nq, k, nprobe)
        .unwrap_err();
    let (actual, expected) = (nq * d - 1, nq * d);
    assert_eq!(err, SearchError::QueryLengthMismatch { actual, expected });

    let mut longer_queries = queries.to_vec();
    longer_queries.push(0.0);
    let err = search_batch_reader(&mut reader, &longer_queries, nq, k, nprobe).unwrap_err();
    let actual = nq * d + 1;
    assert_eq!(err, SearchError::QueryLengthMismatch { actual, expected });

    let err = search_batch_reader(&mut reader, queries, 0, k, nprobe).unwrap_err();
    assert_eq!(err, SearchError::NoQueries);

    let err = search_batch_reader(&mut reader, queries, nq, 0, nprobe).unwrap_err();
    assert_eq!(err, SearchError::ZeroK);

    let err = search_batch_reader(&mut reader, queries, nq, k, 0).unwrap_err();
    assert_eq!(err, SearchError::EmptyProbeRange);
}

#[test]
fn batch_searches_reject_seeds_of_other_lengths() {
    let refuse = |len: usize, nq: usize, k: usize, ids: &[i64], distances: &[u32]| {
        validate_batch_search(len, 2, nq, k, 0, 1, ids, distances).unwrap_err()
    };
    let mismatch = SearchError::SeedLengthMismatch;
    assert_eq!(refuse(4, 2, 2, &[1, 2, 3, 4], &[]), mismatch);
    assert_eq!(refuse(4, 2, 2, &[1], &[1]), mismatch);
    let huge = usize::MAX;
    assert_eq!(refuse(4, 2, huge, &[], &[]), SearchError::SeedLengthOverflow);
    assert_eq!(refuse(4, huge, 2, &[], &[]), SearchError::QueryLengthOverflow);
    let seeds = ([1, 2, 3, 4], [0u32; 4]);
    assert!(validate_batch_search(4, 2, 2, 2, 0, 1, &seeds.0, &seeds.1).is_ok());
}

#[test]
fn reads_are_held_to_their_plan() {
    let list = |list_id: usize, rows: usize| LoadedList {
        list_id,
        ids: vec![0; rows],
    };
    let planned = [4usize, 2];
    let counts = [1usize, 3];
    assert!(check_batch(&planned, &counts, &vec![list(4, 1), list(2, 3)]).is_ok());
    assert!(matches!(
        check_batch(&planned, &counts, &vec![list(2, 3), list(4, 1)]),
        Err(ReadError::OutOfOrder)
    ));
    assert!(matches!(
        check_batch(&planned, &counts, &vec![list(4, 1), list(2, 2)]),
        Err(ReadError::UnexpectedRowCount)
    ));
}

#[test]
fn reuse_pays_at_twice_the_setup_work() {
    assert!(should_use_ephemeral_precomputation(4, 64, 136));
    assert!(!should_use_ephemeral_precomputation(4, 64, 135));
    assert!(!should_use_ephemeral_precomputation(usize::MAX, 1, usize::MAX - 1));
    assert!(reused_query_tables_fit_budget(8, 4, 256, 32_768));
    assert!(!reused_query_tables_fit_budget(8, 4, 256, 32_767));
    assert!(!reused_query_tables_fit_budget(usize::MAX, 4, 256, usize::MAX));
    let probes = vec![vec![0, 1], vec![1], vec![2]];
    assert_eq!(count_live_probes(&probes, &[3, 0, -1]), (1, 1));
    assert_eq!(IvfPqBatchTableReuseMode::Off.code(), 0);
    assert_eq!(IvfPqBatchTableReuseMode::On.code(), 1);
    assert_eq!(IvfPqBatchTableReuseMode::Auto.code(), 2);
}

#[test]
fn packed_rows_beyond_the_first_are_measured_by_levels() {
    let (count, m) = (230, 4);
    let codes: Vec<u8> = (0..2 * count).map(|i| ((i * 89 + 7) % 256) as u8).collect();
    let table: Vec<f32> = (0..m * 16).map(|i| ((i * 7) % 11) as f32).collect();
    let distances =
        packed_distances(&bits(&table), &codes, count, m, 2.0f32.to_bits(), &packed_kernel(m));
    let exact = |row: usize| -> f32 {
        (0..2)
            .map(|pair| {
                let byte = codes[pair * count + row] as usize;
                table[pair * 32 + byte % 16] + table[pair * 32 + 16 + byte / 16]
            })
            .sum()
    };
    let max = (0..200).map(exact).fold(f32::MIN, f32::max);
    for row in 0..count {
        let distance = f32::from_bits(distances[row]);
        if row < 200 {
            assert_eq!(distance, 2.0 + exact(row));
        } else {
            assert!((distance - 2.0 - exact(row)).abs() <= 4.0 * max / 255.0 + 1e-4);
        }
    }
    let levels: Vec<u8> = (0..64).map(|i| i as u8).collect();
    assert_eq!(
        quantized_column_sums(&levels, &[0x21, 0x43, 0x10, 0xFF], 2, 0, 2),
        vec![1 + 18 + 32 + 49, 3 + 20 + 47 + 63]
    );
    assert_eq!(code_layout(8, false), CodeLayout::Rows);
    assert_eq!(code_layout(8, true), CodeLayout::Columns);
    assert_eq!(code_layout(4, false), CodeLayout::PackedRows);
    assert_eq!(code_layout(4, true), CodeLayout::PackedColumns);
}

#[test]
fn rows_are_added_in_batches_that_cover_them() {
    assert_eq!(ADD_BATCH_SIZE, 32_768);
    assert_eq!(add_batches(0), vec![]);
    assert_eq!(add_batches(32_768), vec![(0, 32_768)]);
    assert_eq!(add_batches(65_537), vec![(0, 32_768), (32_768, 65_536), (65_536, 65_537)]);
    let sized = |n, target| {
        IVFPQIndex::with_target_partition_size(8, n, target, 2, MetricType::L2, false).nlist
    };
    assert_eq!(sized(1000, 100), 10);
    assert_eq!(sized(5, 100), 1);
    assert_eq!(sized(5, 0), 5);
    assert_eq!(sized(1_000_000, 1), 65_536);
}

#[test]
fn neighbors_split_into_ids_and_distances() {
    let rows = vec![(5u32, 9i64), (6, 8)];
    assert_eq!(split_neighbors(&rows), (vec![9, 8], vec![5, 6]));
}

#[test]
fn a_new_index_holds_nothing() {
    let plain = IVFPQIndex::new(8, 3, 4, MetricType::L2, false);
    let rotated = IVFPQIndex::with_target_partition_size(8, 100, 30, 4, MetricType::Cosine, true);
    assert!(plain.opq.is_none());
    assert!(rotated
        .opq
        .as_ref()
        .is_some_and(|opq| opq.d == 8 && opq.m == 4 && !opq.is_trained));
    for index in [plain, rotated] {
        assert_eq!((index.d, index.nlist), (8, 3));
        assert!(index.quantizer_centroids.is_empty());
        assert!(index.precomputed_table.is_empty());
        assert!(index.fastscan_codes.is_empty());
    }
}
