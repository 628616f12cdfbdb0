use paimon_vindex_core::distance::MetricType;
use paimon_vindex_core::pq::{
    are_finite, argmin_code, encode_block_rows, BatchEncoder, ProductQuantizer,
    MAX_ENCODE_BLOCK_ROWS,
};
use paimon_vindex_core::pq_encode::{EncodeStep, SumKind, TransposedCodebook};
use rand::rngs::StdRng;
use rand::{Rng, SeedableRng};
use rayon::prelude::{IndexedParallelIterator, ParallelIterator, ParallelSliceMut};

fn bits(values: &[f32]) -> Vec<u32> {
    values.iter().map(|value| value.to_bits()).collect()
}

fn floats(values: &[u32]) -> Vec<f32> {
    values.iter().map(|&value| f32::from_bits(value)).collect()
}

fn squared(a: &[f32], b: &[f32]) -> f32 {
    a.iter().zip(b).map(|(a, b)| (a - b) * (a - b)).sum()
}

/// A few rounds of moving centroids to the mean of the rows nearest to them.
fn cluster(data: &[f32], n: usize, d: usize, k: usize) -> Vec<f32> {
    let mut centroids: Vec<f32> = (0..k)
        .flat_map(|c| {
            let row = (c * 37 + 11) % n;
            data[row * d..(row + 1) * d].to_vec()
        })
        .collect();
    for _ in 0..2 {
        let mut sums = vec![0.0f32; k * d];
        let mut counts = vec![0usize; k];
        for row in data[..n * d].chunks(d) {
            let mut best = 0;
            let mut best_distance = f32::MAX;
            for c in 0..k {
                let distance = squared(row, &centroids[c * d..(c + 1) * d]);
                if distance < best_distance {
                    best_distance = distance;
                    best = c;
                }
            }
            counts[best] += 1;
            for i in 0..d {
                sums[best * d + i] += row[i];
            }
        }
        for c in 0..k {
            if counts[c] > 0 {
                for i in 0..d {
                    centroids[c * d + i] = sums[c * d + i] / counts[c] as f32;
                }
            }
        }
    }
    centroids
}

fn set_centroids(pq: &mut ProductQuantizer, centroids: &[f32]) {
    pq.set_centroids(bits(centroids), &product_step);
}

fn train(pq: &mut ProductQuantizer, data: &[f32], n: usize) {
    let bits_of_data = bits(data);
    let chunks: Vec<Vec<u32>> = (0..pq.m())
        .map(|sub| {
            let columns = floats(&pq.chunk_columns(&bits_of_data, n, sub));
            bits(&cluster(&columns, n, pq.chunk_dim(sub), pq.ksub()))
        })
        .collect();
    let centroids = floats(&pq.join_codebooks(&chunks));
    set_centroids(pq, &centroids);
}

fn encode_step(step: EncodeStep) -> u32 {
    let f = f32::from_bits;
    let result = match step {
        EncodeStep::Add { kind, sum, a, b } => match kind {
            SumKind::Product => f(sum) + f(a) * f(b),
            SumKind::Square => f(sum) + (f(a) - f(b)) * (f(a) - f(b)),
            SumKind::Fused => (f(a) - f(b)).mul_add(f(a) - f(b), f(sum)),
        },
        EncodeStep::Close {
            query_norm,
            centroid_norm,
            product,
        } => (f(query_norm) + f(centroid_norm) - 2.0 * f(product)).max(0.0),
    };
    result.to_bits()
}

/// Expanded squared distances of one row to all centroids.
fn expanded_distances(pq: &ProductQuantizer, row: &[f32]) -> Vec<u32> {
    pq.centroid_distances(&bits(row), None, &encode_step)
}

fn encode(pq: &ProductQuantizer, row: &[f32]) -> Vec<u8> {
    pq.encode_batch(&bits(row), 1, &encode_step)
}

fn encode_batch(pq: &ProductQuantizer, data: &[f32], n: usize) -> Vec<u8> {
    pq.encode_batch(&bits(data), n, &encode_step)
}

/// Blocks of rows, encoded side by side.
fn encode_in_blocks(
    pq: &ProductQuantizer,
    data: &[f32],
    n: usize,
    transposed: Option<&TransposedCodebook>,
) -> Vec<u8> {
    let size = pq.code_size();
    let data = bits(data);
    let mut codes = vec![0u8; n * size];
    let block_rows = encode_block_rows(n, rayon::current_num_threads());
    codes
        .par_chunks_mut(block_rows * size)
        .enumerate()
        .for_each(|(block, out)| {
            let rows = &data[block * block_rows * pq.d()..];
            out.copy_from_slice(&pq.encode_rows(rows, out.len() / size, transposed, &encode_step));
        });
    codes
}

fn encode_batch_8bit_transposed(pq: &ProductQuantizer, data: &[f32], n: usize) -> Vec<u8> {
    encode_in_blocks(pq, data, n, Some(&pq.transposed_codebook()))
}

fn encode_batch_8bit_sgemm(pq: &ProductQuantizer, data: &[f32], n: usize) -> Vec<u8> {
    encode_in_blocks(pq, data, n, None)
}

fn encode_batch_blocked(pq: &ProductQuantizer, data: &[f32], n: usize) -> Vec<u8> {
    pq.encode_batch_blocked(&bits(data), n, true, &encode_step)
}

fn decode(pq: &ProductQuantizer, codes: &[u8]) -> Vec<f32> {
    let mut out = vec![0u32; pq.d()];
    pq.decode(codes, &mut out);
    floats(&out)
}

fn add(a: u32, b: u32) -> u32 {
    (f32::from_bits(a) + f32::from_bits(b)).to_bits()
}

fn product_step(sum: u32, a: u32, b: u32) -> u32 {
    (f32::from_bits(sum) + f32::from_bits(a) * f32::from_bits(b)).to_bits()
}

fn negate(value: u32) -> u32 {
    (-f32::from_bits(value)).to_bits()
}

fn close(query_norm: u32, centroid_norm: u32, product: u32) -> u32 {
    let norms = f32::from_bits(query_norm) + f32::from_bits(centroid_norm);
    (norms - 2.0 * f32::from_bits(product)).max(0.0).to_bits()
}

fn distance_table(pq: &ProductQuantizer, query: &[f32], metric: MetricType) -> Vec<u32> {
    pq.compute_distance_table(&bits(query), metric, &product_step, &negate, &close)
}

fn distance_from_table(pq: &ProductQuantizer, table: &[u32], codes: &[u8]) -> f32 {
    f32::from_bits(pq.distance_from_table(table, codes, &add))
}

fn scalar_argmin(distances: &[f32]) -> u8 {
    let mut best = 0;
    let mut best_distance = f32::MAX;
    for (j, &distance) in distances.iter().enumerate() {
        if distance < best_distance {
            best_distance = distance;
            best = j;
        }
    }
    best as u8
}

fn scores(q: &[f32], t: &[f32], ksub: usize) -> Vec<f32> {
    let mut scores = vec![0.0f32; ksub];
    for (k, &value) in q.iter().enumerate() {
        for (j, score) in scores.iter_mut().enumerate() {
            let diff = value - t[k * ksub + j];
            *score = diff.mul_add(diff, *score);
        }
    }
    scores
}

fn score_argmin(q: &[f32], t: &[f32], ksub: usize) -> u8 {
    argmin_code(&bits(&scores(q, t, ksub)))
}

fn trained_pq(d: usize, m: usize, seed: u64) -> (ProductQuantizer, StdRng) {
    let mut rng = StdRng::seed_from_u64(seed);
    let data: Vec<f32> = (0..3000 * d).map(|_| rng.gen_range(-1.0f32..1.0)).collect();
    let mut pq = ProductQuantizer::new(d, m);
    train(&mut pq, &data, 3000);
    (pq, rng)
}

const BATCH_SIZES: [usize; 11] = [1, 2, 7, 31, 32, 33, 511, 512, 513, 2048, 4096];

#[test]
fn test_encode_block_rows_clamps() {
    assert_eq!(encode_block_rows(2730, 12), 228);
    assert_eq!(encode_block_rows(32768, 12), MAX_ENCODE_BLOCK_ROWS);
    assert_eq!(encode_block_rows(5, 16), 1);
    assert_eq!(encode_block_rows(0, 16), 1);
    assert_eq!(encode_block_rows(100, 0), 100);
}

#[test]
fn test_encode_decode_roundtrip() {
    let d = 8;
    let m = 2;
    let n = 100;
    let mut rng = StdRng::seed_from_u64(42);
    let data: Vec<f32> = (0..n * d).map(|_| rng.gen::<f32>()).collect();
    let mut pq = ProductQuantizer::new(d, m);
    train(&mut pq, &data, n);

    let original = &data[0..d];
    let codes = encode(&pq, original);
    let decoded = decode(&pq, &codes);
    let error = squared(original, &decoded);
    assert!(error < 10.0);
}

#[test]
fn test_distance_table() {
    let d = 8;
    let m = 2;
    let n = 100;
    let mut rng = StdRng::seed_from_u64(42);
    let data: Vec<f32> = (0..n * d).map(|_| rng.gen::<f32>()).collect();
    let mut pq = ProductQuantizer::new(d, m);
    train(&mut pq, &data, n);

    let query = &data[0..d];
    let table = distance_table(&pq, query, MetricType::L2);
    let codes = encode(&pq, query);
    let dist = distance_from_table(&pq, &table, &codes);
    assert!(dist >= 0.0);
}

#[test]
fn test_4bit_encode_decode() {
    let d = 8;
    let m = 4;
    let n = 200;
    let mut rng = StdRng::seed_from_u64(42);
    let data: Vec<f32> = (0..n * d).map(|_| rng.gen::<f32>()).collect();
    let mut pq = ProductQuantizer::with_nbits(d, m, 4);
    assert_eq!(pq.ksub(), 16);
    assert_eq!(pq.code_size(), 2);
    train(&mut pq, &data, n);

    let original = &data[0..d];
    let codes = encode(&pq, original);
    assert!(codes.iter().any(|&b| b != 0));
    let decoded = decode(&pq, &codes);
    let error = squared(original, &decoded);
    assert!(error < 20.0);
    let table = expanded_distances(&pq, original);
    let dist = distance_from_table(&pq, &table, &codes);
    assert!(dist >= 0.0);
}

#[test]
fn test_4bit_batch_encode() {
    let d = 16;
    let m = 8;
    let n = 100;
    let mut rng = StdRng::seed_from_u64(42);
    let data: Vec<f32> = (0..n * d).map(|_| rng.gen::<f32>()).collect();
    let mut pq = ProductQuantizer::with_nbits(d, m, 4);
    train(&mut pq, &data, n);

    assert_eq!(pq.code_size(), 4);
    let canonical = encode_batch(&pq, &data, n);
    let blocked = encode_batch_blocked(&pq, &data, n);
    assert_eq!(blocked, canonical);
    assert!(blocked.iter().any(|&b| b != 0));
}

#[test]
fn test_balanced_chunks_encode_decode_and_distance_table() {
    let d = 7;
    let m = 3;
    let n = 100;
    let mut rng = StdRng::seed_from_u64(73);
    let data: Vec<f32> = (0..n * d).map(|_| rng.gen::<f32>()).collect();
    let mut pq = ProductQuantizer::with_nbits_balanced(d, m, 8);

    assert_eq!(pq.chunk_offsets(), &[0, 3, 5, 7]);
    assert_eq!(pq.dsub(), 3);
    assert_eq!(pq.code_size(), 3);

    train(&mut pq, &data, n);
    assert!(pq.has_valid_layout());
    let query = &data[d..2 * d];
    let codes = encode(&pq, query);
    let decoded = decode(&pq, &codes);
    let table = distance_table(&pq, query, MetricType::L2);
    let table_distance = distance_from_table(&pq, &table, &codes);
    let decoded_distance = squared(query, &decoded);
    assert!((table_distance - decoded_distance).abs() < 1e-4);
}

#[test]
fn test_encode_batch_8bit_transposed_matches_scalar_oracle() {
    for (d, m) in [(32, 8), (25, 5), (40, 5)] {
        let (pq, mut rng) = trained_pq(d, m, 20260820 + d as u64);
        let centroids = floats(pq.centroids());
        for n in BATCH_SIZES {
            let data: Vec<f32> = (0..n * d).map(|_| rng.gen_range(-1.0f32..1.0)).collect();
            let mut oracle = Vec::new();
            for row in data.chunks(d) {
                for sub in 0..m {
                    let query = &row[pq.chunk_range(sub)];
                    let base = pq.centroid_chunk_base(sub);
                    let distances: Vec<f32> = (0..pq.ksub())
                        .map(|j| {
                            let centroid =
                                &centroids[base + j * query.len()..base + (j + 1) * query.len()];
                            query.iter().zip(centroid).fold(0.0f32, |sum, (a, b)| {
                                (a - b).mul_add(a - b, sum)
                            })
                        })
                        .collect();
                    oracle.push(scalar_argmin(&distances));
                }
            }
            let batch = encode_batch_8bit_transposed(&pq, &data, n);
            assert_eq!(batch, oracle, "d={d} m={m} n={n}");
        }
    }
}

#[test]
fn test_encode_batch_8bit_transposed_non_uniform_chunks() {
    let d = 13;
    let m = 3;
    let mut rng = StdRng::seed_from_u64(20260821);
    let data: Vec<f32> = (0..2000 * d).map(|_| rng.gen_range(-1.0f32..1.0)).collect();
    let mut pq = ProductQuantizer::with_nbits_balanced(d, m, 8);
    train(&mut pq, &data, 2000);
    assert_eq!(pq.chunk_offsets(), &[0, 5, 9, 13]);

    let n = MAX_ENCODE_BLOCK_ROWS + 13;
    let data: Vec<f32> = (0..n * d).map(|_| rng.gen_range(-1.0f32..1.0)).collect();
    let centroids = floats(pq.centroids());
    let batch = encode_batch_8bit_transposed(&pq, &data, n);
    for (i, row) in data.chunks(d).enumerate() {
        for sub in 0..m {
            let query = &row[pq.chunk_range(sub)];
            let base = pq.centroid_chunk_base(sub);
            let distances: Vec<f32> = (0..256)
                .map(|j| {
                    let start = base + j * query.len();
                    query
                        .iter()
                        .zip(&centroids[start..start + query.len()])
                        .fold(0.0f32, |sum, (a, b)| (a - b).mul_add(a - b, sum))
                })
                .collect();
            assert_eq!(batch[i * m + sub], scalar_argmin(&distances));
        }
    }
}

#[test]
fn test_encode_batch_8bit_transposed_large_offset_is_correct() {
    let mut pq = ProductQuantizer::new(4, 1);
    let mut centroids = vec![100_000_016.0; pq.d() * pq.ksub()];
    centroids[0..4].fill(100_000_008.0);
    centroids[4..8].fill(100_000_000.0);
    set_centroids(&mut pq, &centroids);

    for n in BATCH_SIZES {
        let data = vec![100_000_000.0; n * pq.d()];
        let codes = encode_batch_8bit_transposed(&pq, &data, n);
        assert!(codes.iter().all(|&code| code == 1), "n={n}");
    }
}

#[test]
fn test_encode_batch_8bit_transposed_is_batch_invariant() {
    let mut pq = ProductQuantizer::new(4, 1);
    let mut centroids = vec![100.0; pq.d() * pq.ksub()];
    centroids[0..4].copy_from_slice(&[0.3658799, 0.06077051, -0.46501994, -0.31766486]);
    centroids[4..8].copy_from_slice(&[0.3658799, 0.06077051, -0.46501994, -0.31766483]);
    set_centroids(&mut pq, &centroids);

    let max_n = *BATCH_SIZES.last().unwrap();
    let largest = encode_batch_8bit_transposed(&pq, &vec![0.0; max_n * 4], max_n);
    for n in BATCH_SIZES {
        let codes = encode_batch_8bit_transposed(&pq, &vec![0.0; n * 4], n);
        assert_eq!(codes.as_slice(), &largest[..n], "n={n}");
    }
}

#[test]
fn test_encode_batch_8bit_transposed_non_finite_semantics_are_batch_invariant() {
    let mut pq = ProductQuantizer::new(4, 1);
    let mut centroids = vec![1.0; pq.d() * pq.ksub()];
    centroids[0..4].fill(f32::NAN);
    centroids[4..8].fill(0.0);
    centroids[8..12].fill(f32::INFINITY);
    centroids[12..16].fill(f32::NEG_INFINITY);
    set_centroids(&mut pq, &centroids);

    for n in BATCH_SIZES {
        let codes = encode_batch_8bit_transposed(&pq, &vec![0.0; n * pq.d()], n);
        assert!(codes.iter().all(|&code| code == 1), "n={n}");
    }

    let unusable = vec![f32::NAN; pq.d() * pq.ksub()];
    set_centroids(&mut pq, &unusable);
    for n in BATCH_SIZES {
        let codes = encode_batch_8bit_transposed(&pq, &vec![0.0; n * pq.d()], n);
        assert!(codes.iter().all(|&code| code == 0), "n={n}");
    }
}

#[test]
fn test_encode_batch_blocked_small_dsub_uses_canonical_path() {
    for dsub in [1, 2, 3] {
        let m = 4;
        let d = m * dsub;
        let (pq, mut rng) = trained_pq(d, m, 20260903 + dsub as u64);
        assert!(matches!(
            pq.select_batch_encoder(true),
            BatchEncoder::Canonical
        ));
        for n in [1, 33, 513] {
            let data: Vec<f32> = (0..n * d).map(|_| rng.gen_range(-1.0f32..1.0)).collect();
            let canonical = encode_batch(&pq, &data, n);
            let blocked = encode_batch_blocked(&pq, &data, n);
            assert_eq!(blocked, canonical, "dsub={dsub} n={n}");
        }
    }
}

fn splits_agree(pq: &ProductQuantizer, data: &[f32], n: usize, transposed: bool) {
    let (d, m) = (pq.d(), pq.m());
    let run = |data: &[f32], n: usize| {
        if transposed {
            encode_batch_8bit_transposed(pq, data, n)
        } else {
            encode_batch_8bit_sgemm(pq, data, n)
        }
    };
    let whole = run(data, n);
    for threads in [1, 2, 11, 16] {
        let pool = rayon::ThreadPoolBuilder::new()
            .num_threads(threads)
            .build()
            .unwrap();
        assert_eq!(pool.install(|| run(data, n)), whole, "threads={threads}");
    }
    for batch in [1, 7, MAX_ENCODE_BLOCK_ROWS] {
        let mut codes = Vec::new();
        for start in (0..n).step_by(batch) {
            let rows = batch.min(n - start);
            codes.extend(run(&data[start * d..(start + rows) * d], rows));
        }
        assert_eq!(codes.len(), n * m);
        assert_eq!(codes, whole, "batch={batch}");
    }
}

#[test]
fn test_encode_batch_8bit_transposed_is_thread_and_split_invariant() {
    let (pq, mut rng) = trained_pq(32, 8, 20260904);
    let n = 3 * MAX_ENCODE_BLOCK_ROWS + 5;
    let data: Vec<f32> = (0..n * 32).map(|_| rng.gen_range(-1.0f32..1.0)).collect();
    splits_agree(&pq, &data, n, true);
}

#[test]
fn test_encode_batch_8bit_sgemm_is_thread_and_split_invariant() {
    let (pq, mut rng) = trained_pq(32, 8, 20260905);
    let n = 3 * MAX_ENCODE_BLOCK_ROWS + 5;
    let data: Vec<f32> = (0..n * 32).map(|_| rng.gen_range(-1.0f32..1.0)).collect();
    splits_agree(&pq, &data, n, false);
}

#[test]
fn test_score_argmin_kernels_match_scalar_oracle() {
    let ksub = 256;
    let mut rng = StdRng::seed_from_u64(20260905);
    for dsub in [4, 5, 8, 12, 16] {
        let mut t: Vec<f32> = (0..dsub * ksub)
            .map(|_| rng.gen_range(-1.0f32..1.0))
            .collect();
        for j in (0..ksub).step_by(37) {
            for k in 0..dsub {
                t[k * ksub + (j + 1) % ksub] = t[k * ksub + j];
            }
        }
        for _ in 0..500 {
            let q: Vec<f32> = (0..dsub).map(|_| rng.gen_range(-1.0f32..1.0)).collect();
            let expected = scalar_argmin(&scores(&q, &t, ksub));
            assert_eq!(score_argmin(&q, &t, ksub), expected, "dsub {dsub}");
        }
        for j in (0..ksub).step_by(37) {
            let q: Vec<f32> = (0..dsub).map(|k| t[k * ksub + j]).collect();
            assert_eq!(score_argmin(&q, &t, ksub) as usize, j, "dsub {dsub} j {j}");
        }
    }
}

#[test]
fn test_score_argmin_non_finite_semantics() {
    let ksub = 256;
    for dsub in [4, 5] {
        let q = vec![0.0f32; dsub];
        let mut t = vec![1.0f32; dsub * ksub];
        for k in 0..dsub {
            t[k * ksub] = f32::NAN;
            t[k * ksub + 1] = 0.0;
            t[k * ksub + 2] = f32::INFINITY;
            t[k * ksub + 3] = f32::NEG_INFINITY;
        }
        assert_eq!(score_argmin(&q, &t, ksub), 1, "dsub {dsub}");
        t.fill(f32::NAN);
        assert_eq!(score_argmin(&q, &t, ksub), 0, "all NaN: dsub {dsub}");
    }
}

#[test]
fn test_score_argmin_tie_prefers_smallest_index() {
    let ksub = 256;
    let dsub = 4;
    let q = [0.25f32, -0.5, 0.75, -0.125];
    let all_equal = vec![0.5f32; dsub * ksub];
    assert_eq!(score_argmin(&q, &all_equal, ksub), 0);

    for (tie_a, tie_b) in [(1usize, 8usize), (8, 9), (7, 8), (255, 1)] {
        let mut t = vec![3.0f32; dsub * ksub];
        for k in 0..dsub {
            t[k * ksub + tie_a] = q[k];
            t[k * ksub + tie_b] = q[k];
        }
        let expected = tie_a.min(tie_b);
        assert_eq!(
            score_argmin(&q, &t, ksub) as usize,
            expected,
            "tie ({tie_a}, {tie_b})"
        );
    }
}

#[test]
fn test_score_argmin_scalar_matches_squared_distance() {
    let q = [0.4f32, -0.7, 0.2, 0.9, -0.3];
    let ksub = 17;
    let t: Vec<f32> = (0..q.len() * ksub)
        .map(|i| ((i * 13 % 29) as f32 - 14.0) / 7.0)
        .collect();
    let distances: Vec<f32> = (0..ksub)
        .map(|j| {
            q.iter()
                .enumerate()
                .map(|(k, value)| (value - t[k * ksub + j]).powi(2))
                .sum()
        })
        .collect();
    assert_eq!(score_argmin(&q, &t, ksub), argmin_code(&bits(&distances)));
}

#[test]
fn test_odd_4bit_chunk_count_uses_canonical_padding_nibble() {
    let d = 7;
    let m = 3;
    let n = 100;
    let mut rng = StdRng::seed_from_u64(74);
    let data: Vec<f32> = (0..n * d).map(|_| rng.gen::<f32>()).collect();
    let mut pq = ProductQuantizer::with_nbits_balanced(d, m, 4);
    train(&mut pq, &data, n);

    assert_eq!(pq.chunk_offsets(), &[0, 3, 5, 7]);
    assert_eq!(pq.code_size(), 2);
    let mut codes = vec![0xff; pq.code_size()];
    let table = distance_table(&pq, &data[..d], MetricType::L2);
    pq.encode(&table, &mut codes);
    assert_eq!(codes[1] & 0xf0, 0);

    let decoded = decode(&pq, &codes);
    let table_distance = distance_from_table(&pq, &table, &codes);
    let decoded_distance = squared(&data[..d], &decoded);
    assert!((table_distance - decoded_distance).abs() < 1e-4);
}

#[test]
fn chunk_plans_are_validated() {
    let refused = |d: usize, nbits: usize, offsets: &[usize]| {
        ProductQuantizer::try_with_chunk_offsets(d, nbits, offsets.to_vec())
            .err()
            .unwrap()
    };
    assert_eq!(refused(0, 8, &[0, 4]), "invalid PQ shape");
    assert_eq!(refused(4, 6, &[0, 4]), "invalid PQ shape");
    assert_eq!(refused(4, 8, &[0]), "invalid PQ shape");
    assert_eq!(refused(4, 8, &[1, 4]), "invalid PQ chunk bounds");
    assert_eq!(refused(4, 8, &[0, 3]), "invalid PQ chunk bounds");
    assert_eq!(
        refused(4, 8, &[0, 2, 2, 4]),
        "PQ chunk offsets must be strictly increasing"
    );
    let pq = ProductQuantizer::try_with_chunk_offsets(4, 8, vec![0, 1, 4])
        .ok()
        .unwrap();
    assert_eq!((pq.m(), pq.dsub(), pq.chunk_dim(1)), (2, 3, 3));
    assert_eq!(pq.chunk_range(1), 1..4);
    assert_eq!(pq.centroid_chunk_base(1), 256);
    assert!(!pq.has_valid_layout());
}

#[test]
fn transposed_codebooks_hold_every_centroid() {
    let mut pq = ProductQuantizer::with_nbits_balanced(3, 2, 4);
    let centroids: Vec<f32> = (0..48).map(|i| i as f32).collect();
    set_centroids(&mut pq, &centroids);
    let (transposed, stride) = pq.build_transposed_codebook();
    let transposed = floats(&transposed);
    assert_eq!(stride, 32);
    assert_eq!(transposed.len(), 64);
    for j in 0..16 {
        assert_eq!(transposed[j], (2 * j) as f32);
        assert_eq!(transposed[16 + j], (2 * j + 1) as f32);
        assert_eq!(transposed[32 + j], (32 + j) as f32);
        assert_eq!(transposed[48 + j], 0.0);
    }
    let copy = pq.duplicate();
    assert_eq!(copy.centroids(), pq.centroids());
}

#[test]
fn batch_encoders_depend_on_shape_and_codebook() {
    let mut wide = ProductQuantizer::new(8, 2);
    set_centroids(&mut wide, &vec![1.0; 8 * 256]);
    assert!(matches!(
        wide.select_batch_encoder(true),
        BatchEncoder::Transposed
    ));
    assert!(matches!(
        wide.select_batch_encoder(false),
        BatchEncoder::Blocked
    ));
    let mut infinite = vec![1.0; 8 * 256];
    infinite[7] = f32::INFINITY;
    assert!(!are_finite(&bits(&infinite)));
    set_centroids(&mut wide, &infinite);
    assert!(matches!(
        wide.select_batch_encoder(false),
        BatchEncoder::Canonical
    ));
}

#[test]
fn nibbles_and_rows_are_read_back() {
    let pq = ProductQuantizer::with_nbits(6, 3, 4);
    let codes = [0x21u8, 0x03];
    assert_eq!(
        (0..3).map(|sub| pq.read_code(&codes, sub)).collect::<Vec<_>>(),
        vec![1, 2, 3]
    );
    assert_eq!(pq.table_offsets(&codes), vec![1, 18, 35]);
    let list = [10u8, 20, 11, 21, 12, 22];
    assert_eq!(pq.row_code(&list, 3, 1, false), vec![11, 21]);
    assert_eq!(pq.row_code(&list, 3, 1, true), vec![20, 12]);
}

#[test]
fn test_sgemm_distance_table_clamps_negative_self_distance() {
    let d = 128;
    let m = 1;
    let ksub = 256;
    let mut pq = ProductQuantizer::new(d, m);
    let mut centroids = vec![0.0; ksub * d];
    let mut query = vec![0.0; d];
    for i in 0..d {
        let value = if i % 2 == 0 {
            1.0e10_f32 + i as f32
        } else {
            -1.0e10_f32 + i as f32
        };
        query[i] = value;
        centroids[i] = value;
    }
    set_centroids(&mut pq, &centroids);

    let table = floats(&distance_table(&pq, &query, MetricType::L2));

    assert_eq!(table[0], 0.0);
}

#[test]
fn tables_hold_one_entry_for_each_centroid() {
    let mut pq = ProductQuantizer::with_nbits_balanced(3, 2, 4);
    assert_eq!((pq.chunk_dim(0), pq.chunk_dim(1)), (2, 1));
    let centroids: Vec<f32> = (0..48).map(|i| i as f32).collect();
    set_centroids(&mut pq, &centroids);
    let query = [1.0f32, 2.0, 3.0];
    let products = floats(&pq.compute_inner_product_table(&bits(&query), &product_step));
    assert_eq!(products[0], 2.0);
    assert_eq!(products[15], 30.0 + 2.0 * 31.0);
    assert_eq!(products[16], 96.0);
    assert_eq!(products[31], 141.0);
    let squared = floats(&distance_table(&pq, &query, MetricType::L2));
    assert_eq!(squared[0], 1.0 + 1.0);
    assert_eq!(squared[31], 44.0 * 44.0);
    let negated = floats(&distance_table(&pq, &query, MetricType::InnerProduct));
    assert_eq!(negated[31], -141.0);
    let cosine = distance_table(&pq, &query, MetricType::Cosine);
    assert_eq!(floats(&cosine), squared);
    let norms = floats(&pq.compute_centroid_norms(&product_step));
    assert_eq!(norms[1], 4.0 + 9.0);
    assert_eq!(norms[17], 33.0 * 33.0);
    assert_eq!(distance_from_table(&pq, &bits(&products), &[0xF1]), 2.0 + 6.0 + 141.0);
}

#[test]
fn wide_chunks_are_measured_by_lengths_and_products() {
    let mut pq = ProductQuantizer::try_with_chunk_offsets(5, 4, vec![0, 4, 5]).unwrap();
    let centroids: Vec<f32> = (0..80).map(|i| (i % 7) as f32).collect();
    set_centroids(&mut pq, &centroids);
    let row = [1.0, 2.0, 3.0, 4.0, 5.0];
    let distances = floats(&expanded_distances(&pq, &row));
    for code in 0..16 {
        assert_eq!(
            distances[code],
            squared(&row[..4], &centroids[code * 4..code * 4 + 4])
        );
        assert_eq!(
            distances[16 + code],
            squared(&row[4..], &centroids[64 + code..65 + code])
        );
    }
    let table = pq.transposed_codebook();
    let direct = floats(&pq.centroid_distances(&bits(&row), Some(&table), &encode_step));
    assert_eq!(direct, distances);
}
