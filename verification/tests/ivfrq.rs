//! Lists of residual codes, in memory and in files.
use paimon_vindex_core::distance::MetricType;
use paimon_vindex_core::filter::{decode_roaring_filter, RowIdFilter};
use paimon_vindex_core::ivfrq::IVFRQIndex;
use paimon_vindex_core::ivfrq_batch::RQBatchSearch;
use paimon_vindex_core::ivfrq_io::{
    checked_list_bytes, checked_section_size, metadata_size, parse_header, split_list_payload,
    write_header, DataError, HeaderError, RQHeader, RQListParts, RQTables,
    IVF_RQ_FACTOR_LAYOUT_COMPACT_V1, IVF_RQ_HEADER_SIZE, IVF_RQ_MAGIC,
    IVF_RQ_ROTATION_TYPE_BLOCK_FHT, IVF_RQ_VERSION, MAX_SECTION_VALUES,
};
use paimon_vindex_core::ivfrq_search::{
    scan_blocked_list, IVFRQSearchStats, ScanShape, FASTSCAN_MIN_PADDED_DIMENSION,
};
use paimon_vindex_core::ivfrq_stored::StoredScan;
use paimon_vindex_core::ivfrq_write::{
    plan_sorted_lists, validate_index_shape, write_ivfrq_index as frame_index, EncodedIds,
    WriteError,
};
use paimon_vindex_core::kmeans::training_set;
use paimon_vindex_core::kmeans_plan::KMeansConfig;
use paimon_vindex_core::nearest::{find_nearest, find_topk};
use paimon_vindex_core::plan::validate_batch_search;
use paimon_vindex_core::rq::{RQRotation, RQVectorFactors, RaBitQuantizer, RQ_SCAN_BLOCK_SIZE};
use paimon_vindex_core::rq_encode::LevelKernel;
use paimon_vindex_core::rq_factors::TermStep;
use paimon_vindex_core::rq_products::{RQQueryTerms, RowStep};
use paimon_vindex_core::rq_query::{QueryKernel, RQQueryContext};
use paimon_vindex_core::rq_rows::StoredRows;
use paimon_vindex_core::session::LoadedList;
use paimon_vindex_core::topk::TopKHeap;
use rayon::prelude::{IndexedParallelIterator, IntoParallelRefIterator, ParallelIterator};
use rand::rngs::StdRng;
use rand::SeedableRng;
use roaring::RoaringTreemap;
use std::collections::{HashMap, HashSet};
use std::io;
use std::io::{Cursor, Read, Seek, SeekFrom};
use std::sync::{Arc, Mutex};

fn to_bits(values: &[f32]) -> Vec<u32> {
    values.iter().map(|value| value.to_bits()).collect()
}

fn from_bits(values: &[u32]) -> Vec<f32> {
    values.iter().map(|&value| f32::from_bits(value)).collect()
}

fn l2sqr(a: &[f32], b: &[f32]) -> f32 {
    a.iter().zip(b).map(|(x, y)| (x - y) * (x - y)).sum()
}

fn norm_l2sqr(a: &[f32]) -> f32 {
    a.iter().map(|x| x * x).sum()
}

fn sum(a: u32, b: u32) -> u32 {
    (f32::from_bits(a) + f32::from_bits(b)).to_bits()
}

fn difference(a: u32, b: u32) -> u32 {
    (f32::from_bits(a) - f32::from_bits(b)).to_bits()
}

/// Rows scaled to unit length; rows of zeros stay.
fn normalized(data: &[f32], n: usize, d: usize) -> Vec<f32> {
    let mut rows = data[..n * d].to_vec();
    if d == 0 {
        return rows;
    }
    for row in rows.chunks_exact_mut(d) {
        let norm = norm_l2sqr(row).sqrt();
        if norm > 0.0 {
            for value in row {
                *value /= norm;
            }
        }
    }
    rows
}

/// Rows as the metric measures them.
fn preprocess_vectors(data: &[f32], n: usize, d: usize, metric: MetricType) -> Vec<f32> {
    match metric {
        MetricType::Cosine => normalized(data, n, d),
        MetricType::L2 | MetricType::InnerProduct => data[..n * d].to_vec(),
    }
}


/// Centroids that begin at the first rows and move to the mean of the training
/// rows nearest to them.
fn cluster(data: &[f32], n: usize, d: usize, k: usize) -> Vec<f32> {
    let config = KMeansConfig::default();
    let mut rng = StdRng::seed_from_u64(config.seed);
    let mut centroids: Vec<f32> = (0..k)
        .flat_map(|c| data[c % n * d..(c % n + 1) * d].to_vec())
        .collect();
    let (chosen, n) = training_set(&to_bits(&data[..n * d]), n, d, k, &config, &mut rng);
    let data = from_bits(&chosen);
    for _ in 0..3 {
        let assignments = find_nearest_batch(&data, n, &centroids, k, d);
        for c in 0..k {
            let rows: Vec<usize> = (0..n).filter(|&row| assignments[row] == c).collect();
            for i in 0..d {
                if !rows.is_empty() {
                    let sum: f32 = rows.iter().map(|row| data[row * d + i]).sum();
                    centroids[c * d + i] = sum / rows.len() as f32;
                }
            }
        }
    }
    centroids
}

fn find_nearest_batch(rows: &[f32], n: usize, centroids: &[f32], k: usize, d: usize) -> Vec<usize> {
    let distance = |row: usize, c: usize| {
        l2sqr(&rows[row * d..(row + 1) * d], &centroids[c * d..(c + 1) * d]).to_bits()
    };
    (0..n).map(|row| find_nearest(row, k, &distance)).collect()
}

fn find_topk_batch_with_centroid_norms(
    rows: &[f32],
    n: usize,
    centroids: &[f32],
    _norms: &[f32],
    k: usize,
    d: usize,
    nprobe: usize,
) -> (Vec<Vec<usize>>, Vec<Vec<f32>>) {
    let distance = |row: usize, c: usize| {
        l2sqr(&rows[row * d..(row + 1) * d], &centroids[c * d..(c + 1) * d]).to_bits()
    };
    (0..n)
        .map(|row| {
            let (found, distances) = find_topk(row, k, nprobe, &distance);
            (found, from_bits(&distances))
        })
        .unzip()
}

fn eighth(value: u32) -> u32 {
    (f32::from_bits(value) * 0.125).to_bits()
}

/// Pads and rotates a vector.
fn rotate(rotation: &RQRotation, vector: &[f32]) -> Vec<f32> {
    assert_eq!(vector.len(), rotation.dimension());
    from_bits(&rotation.rotate(&to_bits(vector), &sum, &difference, &eighth))
}

fn row_step(step: RowStep) -> u32 {
    let f = f32::from_bits;
    let result = match step {
        RowStep::Add { a, b } => f(a) + f(b),
        RowStep::Place { offset, scale, sum } => f(offset) + f(scale) * sum as f32,
        RowStep::Scale { weight, value } => weight as f32 * f(value),
        RowStep::Weigh {
            total,
            weight,
            value,
        } => f(total) + weight as f32 * f(value),
        RowStep::Center {
            total,
            levels,
            query_sum,
        } => f(total) - levels as f32 * 0.5 * f(query_sum),
        RowStep::Estimate {
            product,
            f_add,
            f_rescale,
            g_add,
        } => f(f_add) + f(g_add) + f(f_rescale) * f(product),
        RowStep::Lower {
            estimate,
            f_error,
            g_error,
        } => f(estimate) - f(f_error) * f(g_error),
        RowStep::Loosen {
            bound,
            rescale,
            weight,
            error,
        } => f(bound) - f(rescale).abs() * weight as f32 * f(error),
    };
    result.to_bits()
}

fn term_step(step: TermStep) -> u32 {
    let f = f32::from_bits;
    let result = match step {
        TermStep::Product { sum, a, b } => f(sum) + f(a) * f(b),
        TermStep::Square { sum, a, b } => f(sum) + (f(a) - f(b)) * (f(a) - f(b)),
        TermStep::Error {
            sum,
            value,
            rescale,
            code,
        } => {
            let error = f(value) - f(rescale) * f(code);
            f(sum) + error * error
        }
        TermStep::Ratio { a, b } => f(a) / f(b),
        TermStep::Root { value } => f(value).sqrt(),
        TermStep::Half { value } => 0.5 * f(value),
        TermStep::Double { value } => 2.0 * f(value),
        TermStep::Negate { value } => -f(value),
        TermStep::Cross { a, b, distance } => -0.5 * (f(a) + f(b) - f(distance)),
    };
    result.to_bits()
}

fn step_of(range: u32) -> u32 {
    (f32::from_bits(range) / u8::MAX as f32).to_bits()
}

fn byte_of(exact: u32, min: u32, step: u32) -> u8 {
    ((f32::from_bits(exact) - f32::from_bits(min)) / f32::from_bits(step))
        .round()
        .clamp(0.0, u8::MAX as f32) as u8
}

fn gap_of(exact: u32, min: u32, step: u32, byte: u8) -> u32 {
    let reconstructed = f32::from_bits(min) + f32::from_bits(step) * byte as f32;
    (reconstructed - f32::from_bits(exact)).abs().to_bits()
}

fn guard_of(offset: u32, scale: u32, groups: usize, magnitude: u32) -> u32 {
    let total = f32::from_bits(offset).abs()
        + f32::from_bits(scale) * u8::MAX as f32 * groups as f32
        + f32::from_bits(magnitude);
    (total * f32::EPSILON * 8.0).to_bits()
}

fn product_step(sum: u32, a: u32, b: u32) -> u32 {
    (f32::from_bits(sum) + f32::from_bits(a) * f32::from_bits(b)).to_bits()
}

/// Prepares the tables of a rotated query.
fn prepare_query(quantizer: &RaBitQuantizer, rotated_query: Vec<f32>) -> RQQueryContext {
    let kernel = QueryKernel {
        add: sum,
        subtract: difference,
        step_of,
        byte_of,
        gap_of,
    };
    quantizer.prepare_query(to_bits(&rotated_query), &kernel, &guard_of)
}

fn level_kernel(
    bits: usize,
) -> LevelKernel<
    impl Fn(u32) -> u32,
    impl Fn(u32, u32) -> u8,
    impl Fn(u8) -> u32,
    impl Fn(u32, u32, u32) -> u32,
    impl Fn(u32, u32) -> u32,
> {
    let greatest = ((1usize << bits) - 1) as f32;
    let middle = greatest * 0.5;
    LevelKernel {
        first_width: move |max: u32| (2.0 * f32::from_bits(max) / greatest).to_bits(),
        level_of: move |value: u32, width: u32| {
            (f32::from_bits(value) / f32::from_bits(width) + middle)
                .round()
                .clamp(0.0, greatest) as u8
        },
        centered: move |level: u8| (level as f32 - middle).to_bits(),
        product_step,
        ratio: |product: u32, norm: u32| (f32::from_bits(product) / f32::from_bits(norm)).to_bits(),
    }
}

fn train_index(index: &mut IVFRQIndex, data: &[f32], n: usize) {
    let d = index.d;
    let rows = preprocess_vectors(data, n, d, index.metric);
    let centroids = cluster(&rows, n, d, index.nlist);
    index.set_centroids(
        to_bits(&centroids),
        &sum,
        &difference,
        &eighth,
        &product_step,
    );
}

fn add_rows(index: &mut IVFRQIndex, data: &[f32], ids: &[i64], n: usize) {
    let d = index.d;
    let rows = preprocess_vectors(data, n, d, index.metric);
    let centroids = from_bits(&index.quantizer_centroids);
    let assignments = find_nearest_batch(&rows, n, &centroids, index.nlist, d);
    if n <= 1_000 || index.nlist <= 1 {
        let kernel = level_kernel(index.bits);
        index.add_vectors(
            &assignments,
            &ids[..n],
            &to_bits(&rows),
            &sum,
            &difference,
            &eighth,
            &kernel,
            &term_step,
        );
        return;
    }
    let encoded: Vec<(Vec<u8>, RQVectorFactors)> = assignments
        .par_iter()
        .enumerate()
        .map(|(row, &list)| {
            index.encode_row(
                &to_bits(&rows[row * d..(row + 1) * d]),
                list,
                &sum,
                &difference,
                &eighth,
                &level_kernel(index.bits),
                &term_step,
            )
        })
        .collect();
    let codes: Vec<u8> = encoded.iter().flat_map(|(code, _)| code.clone()).collect();
    let factors: Vec<RQVectorFactors> = encoded.into_iter().map(|(_, factors)| factors).collect();
    index.add(&assignments, &ids[..n], &codes, &factors);
}

/// The probed lists of each query, and what their distances add.
struct Probes {
    lists: Vec<Vec<usize>>,
    terms: Vec<HashMap<usize, RQQueryTerms>>,
    contexts: Vec<RQQueryContext>,
}

/// The rows nearest to each query: labels and distances, `k` per query.
fn search_index<F: RowIdFilter>(
    index: &IVFRQIndex,
    queries: &[f32],
    nq: usize,
    k: usize,
    nprobe: usize,
    filter: Option<&F>,
) -> (Vec<i64>, Vec<f32>) {
    let d = index.d;
    let queries = preprocess_vectors(queries, nq, d, index.metric);
    let norms = from_bits(&index.quantizer_centroid_norms);
    let (lists, distances) = find_topk_batch_with_centroid_norms(
        &queries,
        nq,
        &from_bits(&index.quantizer_centroids),
        &norms,
        index.nlist,
        d,
        nprobe,
    );
    let terms: Vec<HashMap<usize, RQQueryTerms>> = lists
        .iter()
        .zip(&distances)
        .zip(queries.chunks_exact(d.max(1)))
        .map(|((lists, distances), query)| {
            let norm = norm_l2sqr(query);
            lists
                .iter()
                .zip(distances)
                .map(|(&list, &distance)| {
                    let terms = index.quantizer.query_terms_from_coarse_distance(
                        distance.to_bits(),
                        norm.to_bits(),
                        norms[list].to_bits(),
                        index.metric,
                        &term_step,
                    );
                    (list, terms)
                })
                .collect()
        })
        .collect();
    let contexts: Vec<RQQueryContext> = queries
        .chunks_exact(d.max(1))
        .map(|query| prepare_query(&index.quantizer, rotate(&index.rotation, query)))
        .collect();
    let none = RQQueryTerms {
        g_add: 0,
        g_error: 0,
    };
    let terms: Vec<Vec<RQQueryTerms>> = terms
        .iter()
        .map(|terms| {
            (0..index.nlist)
                .map(|list| terms.get(&list).copied().unwrap_or(none))
                .collect()
        })
        .collect();
    assert!(
        nq.checked_mul(k).is_some() && k < usize::MAX / 2,
        "nq * k overflows usize"
    );
    let (labels, distances) =
        index.search_codes(&lists, &contexts, &terms, k, filter, &row_step);
    (labels, from_bits(&distances))
}

fn invalid_data(message: impl Into<String>) -> io::Error {
    io::Error::new(io::ErrorKind::InvalidData, message.into())
}

/// A range of a file to be read.
struct ReadRequest<'a> {
    pos: u64,
    buf: &'a mut [u8],
}

/// Reads ranges of a file, some at a time.
trait SeekRead {
    fn pread(&mut self, ranges: &mut [ReadRequest<'_>]) -> io::Result<()>;

    /// How many ranges one read may ask for; zero for any number.
    fn max_ranges_per_pread(&self) -> usize {
        0
    }
}

impl<T: AsRef<[u8]>> SeekRead for io::Cursor<T> {
    fn pread(&mut self, ranges: &mut [ReadRequest<'_>]) -> io::Result<()> {
        for range in ranges {
            io::Seek::seek(self, io::SeekFrom::Start(range.pos))?;
            io::Read::read_exact(self, range.buf)?;
        }
        Ok(())
    }
}

/// The number that a file gives a metric.
fn metric_code(metric: MetricType) -> u32 {
    match metric {
        MetricType::L2 => 0,
        MetricType::InnerProduct => 1,
        MetricType::Cosine => 2,
    }
}

const METRIC_CODES: [u32; 3] = [0, 1, 2];

fn metric_from_code(code: u32) -> Option<MetricType> {
    match code {
        0 => Some(MetricType::L2),
        1 => Some(MetricType::InnerProduct),
        2 => Some(MetricType::Cosine),
        _ => None,
    }
}

/// Ascending row IDs as a first ID and the steps to the next ones.
fn encode_delta_varint_ids(ids: &[i64]) -> (i64, Vec<u8>) {
    let Some(&base) = ids.first() else {
        return (0, Vec::new());
    };
    let mut bytes = Vec::new();
    for pair in ids.windows(2) {
        let mut step = pair[1].wrapping_sub(pair[0]) as u64;
        while step >= 0x80 {
            bytes.push(step as u8 | 0x80);
            step >>= 7;
        }
        bytes.push(step as u8);
    }
    (base, bytes)
}

fn decode_delta_varint_ids(base: i64, bytes: &[u8], count: usize) -> io::Result<Vec<i64>> {
    let mut ids = Vec::with_capacity(count);
    let mut at = 0;
    let mut id = base;
    for index in 0..count {
        if index > 0 {
            let mut step = 0u64;
            let mut shift = 0;
            loop {
                let byte = *bytes
                    .get(at)
                    .ok_or_else(|| invalid_data("truncated delta IDs"))?;
                at += 1;
                if shift >= 64 {
                    return Err(invalid_data("delta ID overflows"));
                }
                step |= u64::from(byte & 0x7F) << shift;
                if byte < 0x80 {
                    break;
                }
                shift += 7;
            }
            id = id.wrapping_add(step as i64);
        }
        ids.push(id);
    }
    if at != bytes.len() {
        return Err(invalid_data("trailing delta ID bytes"));
    }
    Ok(ids)
}

fn failed(error: impl std::fmt::Debug) -> io::Error {
    invalid_data(format!("{error:?}"))
}

/// Writes an index behind `start` bytes that are already written.
fn write_ivfrq_index(
    index: &IVFRQIndex,
    start: u64,
    out: &mut dyn io::Write,
) -> io::Result<()> {
    validate_index_shape(index).map_err(failed)?;
    let orders = plan_sorted_lists(index);
    let encoded: Vec<EncodedIds> = orders
        .iter()
        .zip(&index.ids)
        .map(|(order, ids)| {
            let sorted: Vec<i64> = order.iter().map(|&position| ids[position]).collect();
            let (base_id, bytes) = encode_delta_varint_ids(&sorted);
            EncodedIds { base_id, bytes }
        })
        .collect();
    let bytes = frame_index(index, metric_code(index.metric), &orders, &encoded, start)
        .map_err(failed)?;
    out.write_all(&bytes)
}

/// A list that was read.
struct RQReadList {
    list_id: usize,
    ids: Vec<i64>,
    blocked_codes: Vec<u8>,
    blocked_factors: Vec<u32>,
}

/// Searches an index in a file.
struct IVFRQIndexReader<R: SeekRead> {
    reader: R,
    header: RQHeader,
    metric: MetricType,
    tables: Option<RQTables>,
    centroid_norms: Vec<f32>,
    quantizer: RaBitQuantizer,
    rotation: RQRotation,
    last_search_stats: IVFRQSearchStats,
}

impl<R: SeekRead> IVFRQIndexReader<R> {
    fn open(mut reader: R) -> io::Result<Self> {
        let mut bytes = [0u8; IVF_RQ_HEADER_SIZE];
        reader.pread(&mut [ReadRequest {
            pos: 0,
            buf: &mut bytes,
        }])?;
        let header = parse_header(&bytes, &METRIC_CODES).map_err(failed)?;
        let metric = metric_from_code(header.metric_code)
            .ok_or_else(|| invalid_data(format!("unknown metric type: {}", header.metric_code)))?;
        Ok(Self {
            reader,
            metric,
            quantizer: RaBitQuantizer::new(header.d, header.num_bits),
            rotation: RQRotation::new(header.d, header.rotation_seed, header.rotation_rounds),
            header,
            tables: None,
            centroid_norms: Vec::new(),
            last_search_stats: IVFRQSearchStats::default(),
        })
    }

    fn header(&self) -> &RQHeader {
        &self.header
    }

    fn last_search_stats(&self) -> IVFRQSearchStats {
        self.last_search_stats
    }

    fn ensure_loaded(&mut self) -> io::Result<()> {
        if self.tables.is_some() {
            return Ok(());
        }
        let size = metadata_size(self.header.nlist, self.header.d).map_err(failed)?;
        let mut metadata = vec![0u8; size];
        self.reader.pread(&mut [ReadRequest {
            pos: IVF_RQ_HEADER_SIZE as u64,
            buf: &mut metadata,
        }])?;
        let tables = RQTables::load(self.header, &metadata).map_err(failed)?;
        self.centroid_norms = from_bits(&tables.centroids)
            .chunks_exact(self.header.d)
            .map(norm_l2sqr)
            .collect();
        self.tables = Some(tables);
        Ok(())
    }

    fn tables(&self) -> io::Result<&RQTables> {
        self.tables
            .as_ref()
            .ok_or_else(|| invalid_data("IVF-RQ metadata is not loaded"))
    }

    fn read_inverted_lists(&mut self, list_ids: &[usize]) -> io::Result<Vec<RQReadList>> {
        self.ensure_loaded()?;
        let mut metas = Vec::with_capacity(list_ids.len());
        for &list in list_ids {
            metas.push(self.tables()?.list_payload_meta(list).map_err(failed)?);
        }
        let mut payloads: Vec<(u64, Vec<u8>)> = metas
            .iter()
            .flatten()
            .map(|meta| (meta.offset, vec![0; meta.payload_len]))
            .collect();
        if !payloads.is_empty() {
            let mut requests: Vec<ReadRequest<'_>> = payloads
                .iter_mut()
                .map(|(pos, buf)| ReadRequest { pos: *pos, buf })
                .collect();
            self.reader.pread(&mut requests)?;
        }
        let mut read = payloads.into_iter();
        let mut lists = Vec::with_capacity(list_ids.len());
        for (meta, &list_id) in metas.into_iter().zip(list_ids) {
            let Some(meta) = meta else {
                lists.push(RQReadList {
                    list_id,
                    ids: Vec::new(),
                    blocked_codes: Vec::new(),
                    blocked_factors: Vec::new(),
                });
                continue;
            };
            let (_, payload) = read
                .next()
                .ok_or_else(|| invalid_data("missing IVF-RQ list result"))?;
            let RQListParts {
                base_id,
                id_bytes,
                blocked_codes,
                blocked_factors,
            } = split_list_payload(&meta, &payload).map_err(failed)?;
            lists.push(RQReadList {
                list_id,
                ids: decode_delta_varint_ids(base_id, &id_bytes, meta.count)?,
                blocked_codes,
                blocked_factors,
            });
        }
        Ok(lists)
    }

    fn search_with_roaring_filter(
        &mut self,
        query: &[f32],
        k: usize,
        nprobe: usize,
        filter_bytes: &[u8],
    ) -> io::Result<(Vec<i64>, Vec<f32>)> {
        let filter = decode_roaring_filter(filter_bytes)
            .map_err(|_| invalid_data("invalid RoaringTreemap filter"))?;
        self.search_range(query, 1, k, 0, nprobe, &[], &[], Some(&filter))
    }

    /// Searches the probes of ranks `probe_start..probe_end`, beginning with
    /// results that are already known.
    fn search_range<F: RowIdFilter>(
        &mut self,
        queries: &[f32],
        nq: usize,
        k: usize,
        probe_start: usize,
        probe_end: usize,
        seed_ids: &[i64],
        seed_distances: &[f32],
        filter: Option<&F>,
    ) -> io::Result<(Vec<i64>, Vec<f32>)> {
        self.ensure_loaded()?;
        let d = self.header.d;
        let seeds: Vec<u32> = seed_distances.iter().map(|value| value.to_bits()).collect();
        validate_batch_search(queries.len(), d, nq, k, probe_start, probe_end, seed_ids, &seeds)
            .map_err(failed)?;
        if k >= usize::MAX / 2 || seed_distances.iter().any(|distance| distance.is_nan()) {
            return Err(invalid_data("k is too large or a seed distance is no number"));
        }
        let probes = self.probe(queries, nq, probe_end)?;
        let counts: Vec<i32> = self.tables()?.entries.iter().map(|entry| entry.count).collect();
        let shape = ScanShape {
            bits: self.header.num_bits,
            plane_size: self.header.plane_size,
            padded_d: self.header.padded_d,
        };
        let mut search = RQBatchSearch::begin(
            k,
            probe_start,
            probes.lists.clone(),
            &counts,
            shape,
            seed_ids,
            &seeds,
        );
        loop {
            let remaining = search.remaining();
            if remaining.is_empty() {
                break;
            }
            let ranges = self.reader.max_ranges_per_pread();
            let end = self
                .tables()?
                .batch_read_end(&remaining, ranges)
                .map_err(failed)?;
            let lists = self.read_inverted_lists(&remaining[..end])?;
            self.scan(&mut search, &probes, &lists, filter);
        }
        self.last_search_stats = search.stats();
        let (labels, distances) = search.finish();
        Ok((labels, from_bits(&distances)))
    }

    fn probe(&self, queries: &[f32], nq: usize, nprobe: usize) -> io::Result<Probes> {
        let d = self.header.d;
        let queries = preprocess_vectors(queries, nq, d, self.metric);
        let (lists, distances) = find_topk_batch_with_centroid_norms(
            &queries,
            nq,
            &from_bits(&self.tables()?.centroids),
            &self.centroid_norms,
            self.header.nlist,
            d,
            nprobe,
        );
        let terms = lists
            .iter()
            .zip(&distances)
            .zip(queries.chunks_exact(d))
            .map(|((lists, distances), query)| {
                let norm = norm_l2sqr(query);
                lists
                    .iter()
                    .zip(distances)
                    .map(|(&list, &distance)| {
                        let centroid_norm = self.centroid_norms[list];
                        let terms = self.quantizer.query_terms_from_coarse_distance(
                            distance.to_bits(),
                            norm.to_bits(),
                            centroid_norm.to_bits(),
                            self.metric,
                            &term_step,
                        );
                        (list, terms)
                    })
                    .collect()
            })
            .collect();
        let contexts = queries
            .chunks_exact(d)
            .map(|query| prepare_query(&self.quantizer, rotate(&self.rotation, query)))
            .collect();
        Ok(Probes {
            lists,
            terms,
            contexts,
        })
    }

    fn scan<F: RowIdFilter>(
        &self,
        search: &mut RQBatchSearch,
        probes: &Probes,
        lists: &[RQReadList],
        filter: Option<&F>,
    ) {
        let stored: Vec<StoredRows<'_>> = lists
            .iter()
            .map(|list| StoredRows {
                codes: &list.blocked_codes,
                factors: &list.blocked_factors,
                count: list.ids.len(),
            })
            .collect();
        let terms: Vec<Vec<RQQueryTerms>> = probes
            .terms
            .iter()
            .map(|terms| {
                let none = RQQueryTerms {
                    g_add: 0,
                    g_error: 0,
                };
                lists
                    .iter()
                    .map(|list| terms.get(&list.list_id).copied().unwrap_or(none))
                    .collect()
            })
            .collect();
        let loaded: Vec<LoadedList> = lists
            .iter()
            .map(|list| LoadedList {
                list_id: list.list_id,
                ids: list.ids.clone(),
            })
            .collect();
        let scan = StoredScan {
            quantizer: &self.quantizer,
            rows: &stored,
            contexts: &probes.contexts,
            terms: &terms,
        };
        search.scan_stored(&loaded, filter, &scan, &row_step);
    }
}

type NoFilter = HashSet<i64>;

fn search_batch<R: SeekRead>(
    reader: &mut IVFRQIndexReader<R>,
    queries: &[f32],
    nq: usize,
    k: usize,
    nprobe: usize,
) -> (Vec<i64>, Vec<f32>) {
    reader
        .search_range(queries, nq, k, 0, nprobe, &[], &[], None::<&NoFilter>)
        .unwrap()
}

fn built(data: &[f32], n: usize, d: usize, nlist: usize, bits: usize, first: i64) -> IVFRQIndex {
    let ids: Vec<i64> = (first..first + n as i64).collect();
    let mut index = IVFRQIndex::with_bits(d, nlist, bits, MetricType::L2);
    train_index(&mut index, data, n);
    add_rows(&mut index, data, &ids, n);
    index
}

fn written(index: &IVFRQIndex) -> Vec<u8> {
    let mut bytes = Vec::new();
    write_ivfrq_index(index, 0, &mut bytes).unwrap();
    bytes
}

fn clusters(n: usize, d: usize, nlist: usize, apart: f32, row_step: f32, step: f32) -> Vec<f32> {
    (0..n)
        .flat_map(|row| {
            let cluster = (row % nlist) as f32 * apart;
            (0..d).map(move |dim| cluster + row as f32 * row_step + dim as f32 * step)
        })
        .collect()
}

#[derive(Default)]
struct ReaderStats {
    calls: usize,
    max_ranges_per_batch: usize,
}

struct CountingReader {
    inner: Cursor<Vec<u8>>,
    stats: Arc<Mutex<ReaderStats>>,
    max_ranges_per_pread: usize,
}

impl SeekRead for CountingReader {
    fn pread(&mut self, ranges: &mut [ReadRequest<'_>]) -> io::Result<()> {
        let mut stats = self.stats.lock().unwrap();
        stats.calls += 1;
        stats.max_ranges_per_batch = stats.max_ranges_per_batch.max(ranges.len());
        drop(stats);
        for range in ranges {
            self.inner.seek(SeekFrom::Start(range.pos))?;
            self.inner.read_exact(range.buf)?;
        }
        Ok(())
    }

    fn max_ranges_per_pread(&self) -> usize {
        self.max_ranges_per_pread
    }
}

fn counting(bytes: Vec<u8>, limit: usize) -> (CountingReader, Arc<Mutex<ReaderStats>>) {
    let stats = Arc::new(Mutex::new(ReaderStats::default()));
    (
        CountingReader {
            inner: Cursor::new(bytes),
            stats: Arc::clone(&stats),
            max_ranges_per_pread: limit,
        },
        stats,
    )
}

#[test]
fn ivfrq_only_allocates_preprocessed_vectors_for_cosine() {
    assert!(!IVFRQIndex::new(2, 1, MetricType::L2).normalizes_vectors());
    assert!(!IVFRQIndex::new(2, 1, MetricType::InnerProduct).normalizes_vectors());
    assert!(IVFRQIndex::new(2, 1, MetricType::Cosine).normalizes_vectors());
}

#[test]
fn ivfrq_four_bit_recalls_query_vector_without_dimension_alignment_requirement() {
    let d = 13;
    let nlist = 4;
    let n = 128;
    let data = clusters(n, d, nlist, 100.0, 0.01, 1.0);
    let index = built(&data, n, d, nlist, 4, 1000);
    let (labels, distances) =
        search_index(&index, &data[7 * d..8 * d], 1, 5, nlist, None::<&NoFilter>);

    assert_eq!(labels[0], 1007);
    assert!(distances[0] <= 1e-3);
    assert_eq!(index.padded_d, 64);
}

#[test]
fn ivfrq_inner_product_recalls_query_vector() {
    let d = 64;
    let n = d;
    let mut data = vec![0.0f32; n * d];
    for i in 0..n {
        data[i * d + i] = 1.0;
    }
    let ids: Vec<i64> = (1000..1000 + n as i64).collect();
    let mut index = IVFRQIndex::with_bits(d, 1, 4, MetricType::InnerProduct);
    train_index(&mut index, &data, n);
    add_rows(&mut index, &data, &ids, n);

    let query_id = 37;
    let (labels, _) = search_index(
        &index,
        &data[query_id * d..(query_id + 1) * d],
        1,
        5,
        1,
        None::<&NoFilter>,
    );
    assert_eq!(labels[0], ids[query_id]);
}

#[test]
fn ivfrq_parallel_add_matches_incremental_serial_add() {
    let d = 65;
    let nlist = 8;
    let n = 2_048;
    let data = clusters(n, d, nlist, 100.0, 0.003, 0.07);
    let ids = (10_000..10_000 + n as i64).collect::<Vec<_>>();
    let mut parallel = IVFRQIndex::with_bits(d, nlist, 4, MetricType::L2);
    let mut serial = IVFRQIndex::with_bits(d, nlist, 4, MetricType::L2);
    train_index(&mut parallel, &data, n);
    train_index(&mut serial, &data, n);

    add_rows(&mut parallel, &data, &ids, n);
    for (data_chunk, id_chunk) in data.chunks_exact(512 * d).zip(ids.chunks_exact(512)) {
        add_rows(&mut serial, data_chunk, id_chunk, 512);
    }

    assert_eq!(parallel.ids, serial.ids);
    assert_eq!(parallel.codes, serial.codes);
    assert_eq!(parallel.factors, serial.factors);
    assert_eq!(parallel.total_vectors(), n);
}

#[test]
fn ivfrq_four_bit_roundtrip_uses_blocked_layout() {
    let d = 13;
    let nlist = 4;
    let n = 128;
    let data = clusters(n, d, nlist, 50.0, 0.01, 1.0);
    let index = built(&data, n, d, nlist, 4, 1000);
    let mut reader = IVFRQIndexReader::open(Cursor::new(written(&index))).unwrap();
    let (labels, distances) = search_batch(&mut reader, &data[37 * d..38 * d], 1, 5, nlist);

    assert_eq!(reader.header().num_bits, 4);
    assert_eq!(reader.header().padded_d, 64);
    assert_eq!(labels[0], 1037);
    assert!(distances[0].abs() <= 1e-3);
}

#[test]
fn ivfrq_batch_reader_submits_multiple_lists_together() {
    let d = 64;
    let nlist = 3;
    let data = clusters(96, d, nlist, 100.0, 0.0, 0.01);
    let index = built(&data, 96, d, nlist, 4, 0);
    let (stream, stats) = counting(written(&index), 0);
    let mut reader = IVFRQIndexReader::open(stream).unwrap();
    search_batch(&mut reader, &data[..d], 1, 1, nlist);

    assert_eq!(stats.lock().unwrap().max_ranges_per_batch, nlist);
}

#[test]
fn ivfrq_unfiltered_scan_matches_all_rows_filter() {
    let d = FASTSCAN_MIN_PADDED_DIMENSION;
    let nlist = 4;
    let n = 256;
    let nq = 8;
    let data = clusters(n, d, nlist, 40.0, 0.003, 0.01);
    let index = built(&data, n, d, nlist, 4, 0);
    let bytes = written(&index);

    let mut unfiltered_reader = IVFRQIndexReader::open(Cursor::new(bytes.clone())).unwrap();
    let unfiltered = search_batch(&mut unfiltered_reader, &data[..nq * d], nq, 10, nlist);
    let all_rows = (0..n as i64).collect::<HashSet<_>>();
    let mut filtered_reader = IVFRQIndexReader::open(Cursor::new(bytes)).unwrap();
    let filtered = filtered_reader
        .search_range(&data[..nq * d], nq, 10, 0, nlist, &[], &[], Some(&all_rows))
        .unwrap();

    assert_eq!(unfiltered, filtered);
    assert!(unfiltered_reader.last_search_stats().fastscan_blocks > 0);
    assert_eq!(filtered_reader.last_search_stats().fastscan_blocks, 0);
}

#[test]
fn ivfrq_search_stats_report_two_stage_filtering_work() {
    let d = FASTSCAN_MIN_PADDED_DIMENSION;
    let nlist = 4;
    let n = 256;
    let nq = 8;
    let data = clusters(n, d, nlist, 40.0, 0.003, 0.01);
    let index = built(&data, n, d, nlist, 4, 0);
    let mut reader = IVFRQIndexReader::open(Cursor::new(written(&index))).unwrap();
    search_batch(&mut reader, &data[..nq * d], nq, 10, nlist);

    let stats = reader.last_search_stats();
    assert_eq!(stats.query_count, nq);
    assert_eq!(stats.scanned_vectors, nq * n);
    assert_eq!(stats.eligible_vectors, nq * n);
    assert_eq!(stats.coarse_distance_evaluations, nq * n);
    assert!(stats.refined_vectors > 0);
    assert!(stats.refined_vectors <= stats.eligible_vectors);
    assert!(stats.final_distance_evaluations > 0);
    assert!(stats.final_distance_evaluations <= stats.refined_vectors);
    assert_eq!(
        stats.extra_plane_byte_lookups,
        (stats.refined_vectors + stats.refined_coarse_byte_lookups / index.plane_size())
            * (index.bits - 1)
            * index.plane_size()
    );
    assert!(stats.heap_admissions > 0);
    assert!(stats.fastscan_blocks > 0);
    assert!(stats.refined_coarse_byte_lookups > 0);
    assert_eq!(
        stats.refined_coarse_byte_lookups,
        stats.final_distance_evaluations * index.plane_size()
    );
}

#[test]
fn ivfrq_resident_metadata_load_uses_one_read_round() {
    let d = 64;
    let nlist = 8;
    let data = clusters(256, d, nlist, 100.0, 0.0, 0.01);
    let index = built(&data, 256, d, nlist, 4, 0);
    let (stream, stats) = counting(written(&index), 0);
    let mut reader = IVFRQIndexReader::open(stream).unwrap();
    *stats.lock().unwrap() = ReaderStats::default();
    reader.ensure_loaded().unwrap();

    assert_eq!(stats.lock().unwrap().calls, 1);
}

#[test]
fn batches_read_every_list_once() {
    let d = 64;
    let nlist = 8;
    let nq = 64;
    let n = 4096;
    let data = clusters(n, d, nlist, 50.0, 0.001, 0.01);
    let index = built(&data, n, d, nlist, 4, 0);
    let (stream, stats) = counting(written(&index), 0);
    let mut reader = IVFRQIndexReader::open(stream).unwrap();
    reader.ensure_loaded().unwrap();
    let before = stats.lock().unwrap().calls;
    search_batch(&mut reader, &data[..nq * d], nq, 10, nlist);

    assert_eq!(stats.lock().unwrap().max_ranges_per_batch, nlist);
    assert_eq!(stats.lock().unwrap().calls, before + 1);
}

#[test]
fn ivfrq_seeded_parallel_single_query_matches_sequential_index() {
    let d = 16;
    let nlist = 8;
    let n = 9_216;
    let k = 10;
    let data = clusters(n, d, nlist, 50.0, 0.0007, 0.01);
    let index = built(&data, n, d, nlist, 4, 0);
    let query = &data[137 * d..138 * d];
    let (expected_ids, expected_distances) =
        search_index(&index, query, 1, k, nlist, None::<&NoFilter>);

    let mut reader = IVFRQIndexReader::open(Cursor::new(written(&index))).unwrap();
    let (actual_ids, actual_distances) = search_batch(&mut reader, query, 1, k, nlist);

    assert_eq!(actual_ids, expected_ids);
    for (actual, expected) in actual_distances.iter().zip(expected_distances) {
        assert!((actual - expected).abs() <= 1e-3);
    }
    let stats = reader.last_search_stats();
    assert_eq!(stats.seeded_lists, 1);
    assert_eq!(stats.parallel_list_tasks, nlist);
    assert_eq!(stats.scanned_vectors, n + RQ_SCAN_BLOCK_SIZE);
}

#[test]
fn ivfrq_batch_respects_reader_range_capability() {
    let d = 64;
    let nlist = 5;
    let data = clusters(160, d, nlist, 100.0, 0.0, 0.01);
    let index = built(&data, 160, d, nlist, 4, 0);
    let (stream, stats) = counting(written(&index), 2);
    let mut reader = IVFRQIndexReader::open(stream).unwrap();
    search_batch(&mut reader, &data[..d], 1, 1, nlist);

    assert_eq!(stats.lock().unwrap().max_ranges_per_batch, 2);
}

#[test]
fn ivfrq_header_rejects_the_unreleased_one_bit_layout() {
    let mut old_header = vec![0u8; IVF_RQ_HEADER_SIZE];
    old_header[0..4].copy_from_slice(&IVF_RQ_MAGIC.to_le_bytes());
    old_header[4..8].copy_from_slice(&IVF_RQ_VERSION.to_le_bytes());
    old_header[8..12].copy_from_slice(&8i32.to_le_bytes());
    old_header[12..16].copy_from_slice(&1i32.to_le_bytes());

    assert_eq!(
        parse_header(&old_header, &METRIC_CODES),
        Err(HeaderError::PaddedDimensionMismatch {
            padded: 1,
            derived: 64
        })
    );
    assert!(IVFRQIndexReader::open(Cursor::new(old_header)).is_err());
}

#[test]
fn ivfrq_header_records_data_bits_and_new_layout() {
    let d = 64;
    let data = vec![0.0; d * 2];
    let mut index = IVFRQIndex::with_bits(d, 1, 5, MetricType::L2);
    train_index(&mut index, &data, 2);
    add_rows(&mut index, &data, &[7, 9], 2);
    let bytes = written(&index);

    assert_eq!(u32::from_le_bytes(bytes[28..32].try_into().unwrap()), 5);
    assert_eq!(
        u32::from_le_bytes(bytes[56..60].try_into().unwrap()),
        IVF_RQ_ROTATION_TYPE_BLOCK_FHT
    );
    assert_eq!(
        u32::from_le_bytes(bytes[60..64].try_into().unwrap()),
        IVF_RQ_FACTOR_LAYOUT_COMPACT_V1
    );
}

fn stored_list_bytes(d: usize, bits: usize, step: usize, modulus: usize, fields: usize) {
    let count = 32;
    let data = (0..count * d)
        .map(|offset| ((offset * step) % modulus) as f32)
        .collect::<Vec<_>>();
    let index = built(&data, count, d, 1, bits, 0);
    let bytes = written(&index);

    let entry = IVF_RQ_HEADER_SIZE + d * size_of::<f32>();
    let list_offset =
        i64::from_le_bytes(bytes[entry..entry + 8].try_into().unwrap()) as usize;
    let id_bytes =
        i32::from_le_bytes(bytes[entry + 12..entry + 16].try_into().unwrap()) as usize;
    let expected_factor_bytes = count * fields * size_of::<f32>();
    let expected_list_bytes = 16 + id_bytes + count * index.code_size() + expected_factor_bytes;
    assert_eq!(bytes.len() - list_offset, expected_list_bytes);
}

#[test]
fn ivfrq_four_bit_storage_omits_the_unused_full_error_factor() {
    stored_list_bytes(64, 4, 17, 101, 5);
}

#[test]
fn ivfrq_one_bit_storage_omits_the_unused_coarse_error_factor() {
    stored_list_bytes(64, 1, 19, 103, 2);
}

#[test]
fn one_bit_codes_are_searched_in_files_and_in_memory_alike() {
    let d = 64;
    let data = clusters(90, d, 3, 20.0, 0.05, 0.3);
    let index = built(&data, 90, d, 3, 1, 500);
    let mut reader = IVFRQIndexReader::open(Cursor::new(written(&index))).unwrap();
    let (labels, distances) = search_batch(&mut reader, &data[..4 * d], 4, 6, 2);
    let (expected, near) = search_index(&index, &data[..4 * d], 4, 6, 2, None::<&NoFilter>);
    assert_eq!(labels, expected);
    for (a, b) in distances.iter().zip(near) {
        assert!((a - b).abs() <= 1e-3);
    }
    assert_eq!(reader.last_search_stats().refined_vectors, 0);
}

#[test]
fn probe_ranges_continue_from_seeds() {
    let d = 64;
    let data = clusters(96, d, 4, 10.0, 0.05, 0.3);
    let index = built(&data, 96, d, 4, 4, 0);
    let bytes = written(&index);
    let mut reader = IVFRQIndexReader::open(Cursor::new(bytes)).unwrap();
    let whole = search_batch(&mut reader, &data[..2 * d], 2, 5, 4);
    let first = reader
        .search_range(&data[..2 * d], 2, 5, 0, 2, &[], &[], None::<&NoFilter>)
        .unwrap();
    let both = reader
        .search_range(&data[..2 * d], 2, 5, 2, 4, &first.0, &first.1, None::<&NoFilter>)
        .unwrap();
    assert_eq!(both, whole);
    assert!(reader
        .search_range(&data[..d], 1, 5, 2, 2, &[], &[], None::<&NoFilter>)
        .is_err());
    assert!(reader
        .search_range(&data[..d], 1, 5, 0, 2, &[1], &[1.0], None::<&NoFilter>)
        .is_err());
}

#[test]
fn roaring_filters_choose_the_rows_of_a_file() {
    let d = 64;
    let data = clusters(64, d, 2, 10.0, 0.05, 0.3);
    let index = built(&data, 64, d, 2, 4, 0);
    let mut reader = IVFRQIndexReader::open(Cursor::new(written(&index))).unwrap();
    let allowed: RoaringTreemap = [3u64, 40].into_iter().collect();
    let mut filter = Vec::new();
    allowed.serialize_into(&mut filter).unwrap();
    let (labels, _) = reader
        .search_with_roaring_filter(&data[..d], 3, 2, &filter)
        .unwrap();
    let mut found = labels.clone();
    found.sort();
    assert_eq!(found, vec![-1, 3, 40]);
    assert!(reader
        .search_with_roaring_filter(&data[..d], 3, 2, b"no treemap")
        .is_err());
}

fn small_header() -> RQHeader {
    RQHeader {
        d: 8,
        padded_d: 64,
        nlist: 2,
        metric_code: 1,
        num_bits: 3,
        total_vectors: 5,
        rotation_seed: 99,
        rotation_rounds: 4,
        plane_size: 8,
        rotation_type: 2,
        factor_layout: 3,
    }
}

#[test]
fn headers_round_trip_and_every_field_is_validated() {
    let header = small_header();
    let mut bytes = Vec::new();
    write_header(&mut bytes, &header);
    assert_eq!(bytes.len(), IVF_RQ_HEADER_SIZE);
    assert_eq!(parse_header(&bytes, &METRIC_CODES), Ok(header));

    let refused = |at: usize, value: &[u8]| {
        let mut changed = bytes.clone();
        changed[at..at + value.len()].copy_from_slice(value);
        parse_header(&changed, &METRIC_CODES).err()
    };
    assert_eq!(refused(0, &[1, 0, 0, 0]), Some(HeaderError::Magic { magic: 1 }));
    assert_eq!(
        refused(4, &[2, 0, 0, 0]),
        Some(HeaderError::Version { version: 2 })
    );
    assert_eq!(
        refused(8, &[0, 0, 0, 0]),
        Some(HeaderError::Dimension { value: 0 })
    );
    assert_eq!(
        refused(12, &[255, 255, 255, 255]),
        Some(HeaderError::PaddedDimension { value: -1 })
    );
    assert_eq!(
        refused(16, &[0, 0, 0, 0]),
        Some(HeaderError::ListCount { value: 0 })
    );
    assert_eq!(
        refused(20, &[9, 0, 0, 0]),
        Some(HeaderError::Metric { code: 9 })
    );
    assert_eq!(
        refused(24, &[3, 0, 0, 0]),
        Some(HeaderError::Flags { flags: 3 })
    );
    assert_eq!(
        refused(24, &[15, 0, 0, 0]),
        Some(HeaderError::Flags { flags: 15 })
    );
    assert_eq!(
        refused(28, &[9, 0, 0, 0]),
        Some(HeaderError::Bits { bits: 9 })
    );
    assert_eq!(refused(39, &[255]), Some(HeaderError::VectorCount));
    assert_eq!(
        refused(48, &[5, 0, 0, 0]),
        Some(HeaderError::RotationRounds { rounds: 5 })
    );
    assert_eq!(
        refused(52, &[0, 0, 0, 0]),
        Some(HeaderError::PlaneSize { value: 0 })
    );
    assert_eq!(
        refused(52, &[7, 0, 0, 0]),
        Some(HeaderError::PlaneSizeMismatch {
            plane_size: 7,
            padded: 64
        })
    );
    assert_eq!(
        refused(56, &[1, 0, 0, 0]),
        Some(HeaderError::RotationType { rotation_type: 1 })
    );
    assert_eq!(
        refused(60, &[1, 0, 0, 0]),
        Some(HeaderError::FactorLayout { layout: 1 })
    );
}

fn metadata(entries: [(i64, i32, i32); 2]) -> Vec<u8> {
    let mut bytes = vec![0u8; 2 * 8 * 4];
    for (offset, count, ids) in entries {
        bytes.extend_from_slice(&offset.to_le_bytes());
        bytes.extend_from_slice(&count.to_le_bytes());
        bytes.extend_from_slice(&ids.to_le_bytes());
    }
    bytes
}

#[test]
fn list_tables_are_validated() {
    let refused = |entries: [(i64, i32, i32); 2]| {
        RQTables::load(small_header(), &metadata(entries)).err()
    };
    assert_eq!(
        refused([(0, -1, 0), (0, 6, 0)]),
        Some(DataError::ListCount { value: -1 })
    );
    assert_eq!(
        refused([(0, 5, -2), (0, 0, 0)]),
        Some(DataError::IdBytes { value: -2 })
    );
    assert_eq!(
        refused([(0, 2, 0), (0, 2, 0)]),
        Some(DataError::TotalMismatch {
            actual: 4,
            expected: 5
        })
    );

    let tables = RQTables::load(small_header(), &metadata([(160, 5, 4), (-3, 0, 0)])).unwrap();
    let meta = tables.list_payload_meta(0).unwrap().unwrap();
    assert_eq!((meta.count, meta.offset, meta.id_bytes_len), (5, 160, 4));
    assert_eq!(meta.code_bytes_len, 5 * 24);
    assert_eq!(meta.factor_values_len, 25);
    assert_eq!(meta.payload_len, 16 + 4 + 120 + 100);
    assert_eq!(tables.list_payload_meta(1), Ok(None));
    assert_eq!(
        tables.list_payload_meta(2),
        Err(DataError::ListOutOfRange { list: 2 })
    );
    assert_eq!(tables.batch_read_end(&[0, 1, 0], 1), Ok(2));
    assert_eq!(tables.batch_read_end(&[0, 1, 0], 0), Ok(3));

    let negative = RQTables::load(small_header(), &metadata([(-160, 5, 4), (0, 0, 0)])).unwrap();
    assert_eq!(
        negative.list_payload_meta(0),
        Err(DataError::ListOffset {
            offset: -160,
            list: 0
        })
    );
}

#[test]
fn list_payloads_are_validated() {
    let tables = RQTables::load(small_header(), &metadata([(160, 5, 4), (0, 0, 0)])).unwrap();
    let meta = tables.list_payload_meta(0).unwrap().unwrap();
    let mut payload = Vec::new();
    payload.extend_from_slice(&77i64.to_le_bytes());
    payload.extend_from_slice(&4i32.to_le_bytes());
    payload.extend_from_slice(&120i32.to_le_bytes());
    payload.extend(1..=4u8);
    payload.extend(vec![6u8; 120]);
    for value in 0..25u32 {
        payload.extend_from_slice(&value.to_le_bytes());
    }
    let parts = split_list_payload(&meta, &payload).unwrap();
    assert_eq!(parts.base_id, 77);
    assert_eq!(parts.id_bytes, vec![1, 2, 3, 4]);
    assert_eq!(parts.blocked_codes, vec![6u8; 120]);
    assert_eq!(parts.blocked_factors, (0..25).collect::<Vec<u32>>());

    let refused = |at: usize, byte: u8| {
        let mut changed = payload.clone();
        changed[at] = byte;
        split_list_payload(&meta, &changed).err()
    };
    assert_eq!(refused(8, 5), Some(DataError::IdLength));
    assert_eq!(refused(12, 5), Some(DataError::CodeLength));
    assert_eq!(
        split_list_payload(&meta, &payload[1..]).err(),
        Some(DataError::PayloadLength { list: 0 })
    );
}

#[test]
fn section_sizes_are_bounded() {
    assert_eq!(checked_section_size(3, 5), Ok(15));
    assert_eq!(checked_section_size(MAX_SECTION_VALUES, 1), Ok(MAX_SECTION_VALUES));
    assert_eq!(
        checked_section_size(MAX_SECTION_VALUES + 1, 1),
        Err(DataError::SectionSize)
    );
    assert_eq!(
        checked_section_size(usize::MAX, 2),
        Err(DataError::SectionSize)
    );
    assert_eq!(checked_list_bytes(3, 5), Ok(15));
    assert_eq!(checked_list_bytes(usize::MAX, 2), Err(DataError::ListBytes));
    assert_eq!(metadata_size(2, 8), Ok(64 + 32));
    assert_eq!(
        metadata_size(MAX_SECTION_VALUES, 2),
        Err(DataError::SectionSize)
    );
}

#[test]
fn index_shapes_are_validated_before_writing() {
    let fresh = || built(&[0.0; 16], 2, 8, 1, 2, 0);
    assert_eq!(validate_index_shape(&fresh()), Ok(()));
    assert_eq!(
        validate_index_shape(&IVFRQIndex::new(0, 1, MetricType::L2)),
        Err(WriteError::EmptyShape)
    );
    let mut index = fresh();
    index.bits = 0;
    assert_eq!(validate_index_shape(&index), Err(WriteError::Bits));
    let mut index = fresh();
    index.padded_d = 128;
    assert_eq!(validate_index_shape(&index), Err(WriteError::PaddedDimension));
    let mut index = fresh();
    index.rotation_rounds = 3;
    assert_eq!(validate_index_shape(&index), Err(WriteError::RotationRounds));
    let mut index = fresh();
    index.rotated_centroids.pop();
    assert_eq!(validate_index_shape(&index), Err(WriteError::CentroidShape));
    let mut index = fresh();
    index.codes.pop();
    assert_eq!(validate_index_shape(&index), Err(WriteError::ListStorage));
    let mut index = fresh();
    index.codes[0].pop();
    assert_eq!(
        validate_index_shape(&index),
        Err(WriteError::CodeLength { list: 0 })
    );
    let mut index = fresh();
    index.factors[0].pop();
    assert_eq!(
        validate_index_shape(&index),
        Err(WriteError::FactorCount { list: 0 })
    );
}

#[test]
fn lists_are_written_in_the_order_of_their_ids() {
    let mut index = IVFRQIndex::with_bits(8, 1, 2, MetricType::L2);
    let data: Vec<f32> = (0..24).map(|i| i as f32).collect();
    train_index(&mut index, &data, 3);
    add_rows(&mut index, &data, &[30, 10, 20], 3);
    assert_eq!(plan_sorted_lists(&index), vec![vec![1, 2, 0]]);
    let mut reader = IVFRQIndexReader::open(Cursor::new(written(&index))).unwrap();
    let lists = reader.read_inverted_lists(&[0]).unwrap();
    assert_eq!(lists[0].ids, vec![10, 20, 30]);
}

#[test]
fn stats_merge_counter_by_counter() {
    let mut stats = IVFRQSearchStats::default();
    stats.scanned_vectors = 3;
    stats.heap_admissions = usize::MAX;
    let mut other = IVFRQSearchStats::default();
    other.scanned_vectors = 4;
    other.heap_admissions = 1;
    other.query_count = 2;
    stats.merge(other);
    assert_eq!(stats.scanned_vectors, 7);
    assert_eq!(stats.heap_admissions, usize::MAX);
    assert_eq!(stats.query_count, 2);
}

/// Scans rows with given bounds, approximations and distances.
fn scan_given(
    shape: ScanShape,
    rows: &[(f32, f32, f32)],
    k: usize,
) -> (Vec<i64>, IVFRQSearchStats) {
    let ids: Vec<i64> = (0..rows.len() as i64).collect();
    let mut heap = TopKHeap::new(k);
    let mut stats = IVFRQSearchStats::default();
    scan_blocked_list(
        0,
        0,
        &ids,
        &ids,
        None::<&NoFilter>,
        shape,
        &|_: usize, _: usize, row: usize, _: bool| rows[row].0.to_bits(),
        &|_: usize, _: usize, row: usize| rows[row].1.to_bits(),
        &|_: usize, _: usize, row: usize| rows[row].2.to_bits(),
        &mut heap,
        &mut stats,
        usize::MAX,
    );
    (heap.into_sorted().iter().map(|item| item.1).collect(), stats)
}

#[test]
fn rows_are_refined_by_the_bound_at_the_start_of_their_block() {
    let shape = ScanShape {
        bits: 2,
        plane_size: 8,
        padded_d: 64,
    };
    let rows = [(1.0, 0.0, 5.0), (9.0, 0.0, 2.5), (3.0, 0.0, 4.0)];
    let (found, stats) = scan_given(shape, &rows, 1);
    assert_eq!(found, vec![1]);
    assert_eq!(stats.refined_vectors, 3);
    assert_eq!(stats.final_distance_evaluations, 3);
    assert_eq!(stats.heap_admissions, 2);

    let mut rows: Vec<(f32, f32, f32)> = (0..32).map(|row| (0.0, 0.0, 10.0 + row as f32)).collect();
    rows.push((20.0, 0.0, 1.0));
    rows.push((1.0, 0.0, 9.0));
    let (found, stats) = scan_given(shape, &rows, 1);
    assert_eq!(found, vec![33]);
    assert_eq!(stats.scalar_blocks, 2);
    assert_eq!(stats.eligible_vectors, 34);
    assert_eq!(stats.refined_vectors, 33);
    assert_eq!(stats.heap_admissions, 2);

    let one_bit = ScanShape { bits: 1, ..shape };
    let (found, stats) = scan_given(one_bit, &rows, 1);
    assert_eq!(found, vec![32]);
    assert_eq!((stats.refined_vectors, stats.heap_admissions), (0, 2));
}

#[test]
fn table_scanned_rows_are_taken_by_their_approximate_bound() {
    let shape = ScanShape {
        bits: 2,
        plane_size: 128,
        padded_d: 1024,
    };
    assert!(shape.padded_d >= FASTSCAN_MIN_PADDED_DIMENSION);
    let mut rows = vec![(0.0, 4.0, 7.0); 32];
    rows[0] = (0.0, 0.0, 5.0);
    rows[1] = (0.0, 6.0, 1.0);
    let (found, stats) = scan_given(shape, &rows, 1);
    assert_eq!(found, vec![0]);
    assert_eq!(stats.fastscan_blocks, 1);
    assert_eq!(stats.refined_vectors, 32);
    assert_eq!(stats.final_distance_evaluations, 31);
    assert_eq!(stats.heap_admissions, 1);
    assert_eq!(stats.refined_coarse_byte_lookups, 31 * 128);
    assert_eq!(stats.extra_plane_byte_lookups, (32 + 31) * 128);
}

#[test]
fn a_new_index_is_untrained() {
    for index in [
        IVFRQIndex::new(70, 3, MetricType::L2),
        IVFRQIndex::with_bits(70, 3, 5, MetricType::Cosine),
    ] {
        assert_eq!((index.d, index.padded_d, index.nlist), (70, 128, 3));
        assert!(index.quantizer_centroids.is_empty());
        assert!(index.quantizer_centroid_norms.is_empty());
        assert!(index.rotated_centroids.is_empty());
        assert!(index.ids.iter().all(|ids| ids.is_empty()));
    }
}
