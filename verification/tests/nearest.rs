//! Nearest centroids, one row and many rows at a time.
use paimon_vindex_core::batch_nearest::{
    find_nearest_batch, find_topk_batch, find_topk_batch_with_centroid_norms, plan_blocks,
    plan_direct, BatchKernel,
};
use paimon_vindex_core::certified::certified_topk_row;
use paimon_vindex_core::kmeans_plan::{
    centroid_tile_size, use_bounded_direct_topk, use_direct_batch, DIRECT_ROWS_PER_THREAD,
    MIN_GEMM_DIM,
};
use paimon_vindex_core::nearest::{
    find_nearest, find_top1, find_topk, select_topk_prefix, BoundedTopK, Candidate,
};
use rand::rngs::StdRng;
use rand::{Rng, SeedableRng};
use std::cell::Cell;

fn l2sqr(a: &[f32], b: &[f32]) -> f32 {
    a.iter().zip(b).map(|(x, y)| (x - y) * (x - y)).sum()
}

fn norm(a: &[f32]) -> f32 {
    a.iter().map(|x| x * x).sum()
}

fn gamma(operations: usize) -> f64 {
    let error = (f32::EPSILON as f64 / 2.0) * operations as f64;
    if error < 1.0 {
        error / (1.0 - error)
    } else {
        f64::INFINITY
    }
}

fn norm_upper(max: f64, d: usize) -> f64 {
    ((max + 2.0 * d as f64 * f32::MIN_POSITIVE as f64) / (1.0 - gamma(d))).sqrt()
}

fn gemm_error(x_norm: f32, c_max: f64, d: usize) -> f64 {
    let min_normal = f32::MIN_POSITIVE as f64;
    let sum = norm_upper(x_norm as f64, d) + c_max;
    gamma(d + 2) * sum * sum + (d * 8 + 4) as f64 * min_normal
}

fn certified_error(e_gemm: f64, kth: f64, d: usize) -> f64 {
    let g = gamma(d + 3);
    let denominator = 1.0 - 2.0 * g;
    if denominator > 0.0 {
        let absolute = (d * 3 + 1) as f64 * f32::MIN_POSITIVE as f64;
        (e_gemm * (1.0 + g) + g * kth + absolute) / denominator
    } else {
        f64::INFINITY
    }
}

/// The largest single-precision number that is not above `x`.
fn round_down(x: f64) -> f32 {
    let y = x as f32;
    if (y as f64) > x {
        y.next_down()
    } else {
        y
    }
}

/// The smallest single-precision number that is not below `x`.
fn round_up(x: f64) -> f32 {
    let y = x as f32;
    if (y as f64) < x {
        y.next_up()
    } else {
        y
    }
}

/// Rows of `queries` against `centroids`, and how many rows went through
/// approximate distances.
struct Search<'a> {
    queries: &'a [f32],
    centroids: &'a [f32],
    norms: Vec<f32>,
    c_max: f64,
    mean: Vec<f32>,
    k: usize,
    d: usize,
    gemm_rows: Cell<usize>,
}

impl<'a> Search<'a> {
    fn new(queries: &'a [f32], centroids: &'a [f32], k: usize, d: usize) -> Self {
        let norms: Vec<f32> = (0..k).map(|c| norm(&centroids[c * d..(c + 1) * d])).collect();
        let largest = norms.iter().copied().fold(0.0f32, f32::max) as f64;
        let mut mean = vec![0.0f64; d];
        for c in 0..k {
            for j in 0..d {
                mean[j] += centroids[c * d + j] as f64;
            }
        }
        Search {
            queries,
            centroids,
            norms,
            c_max: norm_upper(largest, d),
            mean: mean.iter().map(|m| (m / k as f64) as f32).collect(),
            k,
            d,
            gemm_rows: Cell::new(0),
        }
    }

    fn row(&self, row: usize) -> &[f32] {
        &self.queries[row * self.d..(row + 1) * self.d]
    }

    fn centroid(&self, c: usize) -> &[f32] {
        &self.centroids[c * self.d..(c + 1) * self.d]
    }

    fn distance(&self, row: usize, c: usize) -> u32 {
        l2sqr(self.row(row), self.centroid(c)).to_bits()
    }

    fn is_safe(&self, row: usize) -> bool {
        let x = self.row(row);
        2.0 * gemm_error(norm(x), self.c_max, self.d) < l2sqr(x, &self.mean) as f64
    }

    fn products(&self, rows: &[usize], first: usize, columns: usize) -> Vec<u32> {
        self.gemm_rows.set(self.gemm_rows.get() + rows.len());
        let mut out = Vec::with_capacity(rows.len() * columns);
        for &row in rows {
            let x = self.row(row);
            let x_norm = norm(x);
            for c in first..first + columns {
                let ip: f32 = x.iter().zip(self.centroid(c)).map(|(a, b)| a * b).sum();
                out.push((x_norm + self.norms[c] - 2.0 * ip).to_bits());
            }
        }
        out
    }

    fn band(&self, row: usize, kth: u32) -> (u32, u32) {
        let middle = f32::from_bits(kth) as f64;
        let e = certified_error(gemm_error(norm(self.row(row)), self.c_max, self.d), middle, self.d);
        (
            round_up(middle - 2.0 * e).to_bits(),
            round_down(middle + 2.0 * e).to_bits(),
        )
    }

    fn topk(&self, nq: usize, nprobe: usize, threads: usize) -> (Vec<Vec<usize>>, Vec<Vec<f32>>) {
        let kernel = BatchKernel {
            is_safe: |row: usize| self.is_safe(row),
            products_of: |rows: Vec<usize>, first: usize, columns: usize| {
                self.products(&rows, first, columns)
            },
            band_of: |row: usize, kth: u32| self.band(row, kth),
            distance_of: |row: usize, c: usize| self.distance(row, c),
        };
        let (rows, distances) = find_topk_batch(&kernel, nq, self.d, self.k, nprobe, threads);
        (
            rows,
            distances
                .into_iter()
                .map(|row| row.into_iter().map(f32::from_bits).collect())
                .collect(),
        )
    }

    fn nearest(&self, n: usize, threads: usize) -> Vec<usize> {
        let kernel = BatchKernel {
            is_safe: |row: usize| self.is_safe(row),
            products_of: |rows: Vec<usize>, first: usize, columns: usize| {
                self.products(&rows, first, columns)
            },
            band_of: |row: usize, kth: u32| self.band(row, kth),
            distance_of: |row: usize, c: usize| self.distance(row, c),
        };
        find_nearest_batch(&kernel, n, self.d, self.k, threads)
    }

    fn direct(&self, row: usize, nprobe: usize) -> (Vec<usize>, Vec<f32>) {
        let (rows, distances) =
            find_topk(row, self.k, nprobe, &|r: usize, c: usize| self.distance(r, c));
        (rows, distances.into_iter().map(f32::from_bits).collect())
    }

    fn direct_nearest(&self, row: usize) -> usize {
        find_nearest(row, self.k, &|r: usize, c: usize| self.distance(r, c))
    }
}

fn bits(values: &[f32]) -> Vec<u32> {
    values.iter().map(|v| v.to_bits()).collect()
}

fn deterministic_data(n: usize, d: usize, seed: u64) -> Vec<f32> {
    let mut rng = StdRng::seed_from_u64(seed);
    (0..n * d).map(|_| rng.gen::<f32>() * 2.0 - 1.0).collect()
}

#[test]
fn test_subnormal_batch_topk_matches_direct() {
    let query = [f32::from_bits(2646992242)];
    let centroids = [
        497491591u32, 451116127, 476312835, 503292106, 505618023, 2646911911, 2618864963,
        2647061976, 483230981, 500562856, 502683715, 504768900, 2632103736, 2648519606,
        2634666709, 2629586502,
    ]
    .map(f32::from_bits);
    let queries = query.repeat(8);
    let search = Search::new(&queries, &centroids, 16, 1);
    let (batch, batch_distances) = search.topk(8, 1, 1);
    let (direct, direct_distances) = search.direct(0, 1);

    assert_eq!(direct, [5]);
    assert_eq!(batch, vec![direct; 8]);
    assert_eq!(batch_distances, vec![direct_distances; 8]);
}

#[test]
fn test_subnormal_batch_topk_band_matches_direct() {
    let query = [f32::from_bits(500581713)];
    let centroids = [
        495350057u32, 2636893317, 2635975005, 2651790365, 500667861, 2643010036, 495349473,
        488134825, 487899297, 502064699, 2649052619, 2645746487, 506974333, 2651576280,
        2645106766, 487307224,
    ]
    .map(f32::from_bits);
    let queries = query.repeat(8);
    let search = Search::new(&queries, &centroids, 16, 1);
    let (batch, batch_distances) = search.topk(8, 3, 1);
    let (direct, direct_distances) = search.direct(0, 3);

    assert_eq!(direct, [4, 9, 0]);
    assert_eq!(batch, vec![direct; 8]);
    assert_eq!(batch_distances, vec![direct_distances; 8]);
}

#[test]
fn test_tiled_certified_topk_matches_direct() {
    let (n, k, d, nprobe) = (32, 32_769, 2, 2);
    let centroids = deterministic_data(k, d, 41);
    let queries = deterministic_data(n, d, 43);
    let search = Search::new(&queries, &centroids, k, d);
    assert_eq!(centroid_tile_size(k, d, nprobe, 32), Some(4096));
    let kernel = BatchKernel {
        is_safe: |row: usize| search.is_safe(row),
        products_of: |rows: Vec<usize>, first: usize, columns: usize| {
            assert!(columns <= 4096);
            search.products(&rows, first, columns)
        },
        band_of: |row: usize, kth: u32| search.band(row, kth),
        distance_of: |row: usize, c: usize| search.distance(row, c),
    };
    let actual =
        paimon_vindex_core::batch_nearest::certified_topk_blocks(&kernel, n, d, k, nprobe, 32);

    for row in 0..n {
        let expected = search.direct(row, nprobe);
        let indexes: Vec<usize> = actual[row].iter().map(|item| item.1).collect();
        let distances: Vec<u32> = actual[row].iter().map(|item| item.0).collect();
        assert_eq!(indexes, expected.0, "row {row} indices differ");
        assert_eq!(distances, bits(&expected.1), "row {row} distances differ");
    }
}

#[test]
fn test_tiled_certified_top1_matches_direct() {
    let (n, k, d, nprobe) = (4, 65_537, 2, 1);
    let centroids = deterministic_data(k, d, 47);
    let queries = deterministic_data(n, d, 53);
    let search = Search::new(&queries, &centroids, k, d);
    assert_eq!(centroid_tile_size(k, d, nprobe, 32), Some(4096));
    let kernel = BatchKernel {
        is_safe: |row: usize| search.is_safe(row),
        products_of: |rows: Vec<usize>, first: usize, columns: usize| {
            search.products(&rows, first, columns)
        },
        band_of: |row: usize, kth: u32| search.band(row, kth),
        distance_of: |row: usize, c: usize| search.distance(row, c),
    };
    let actual =
        paimon_vindex_core::batch_nearest::certified_topk_blocks(&kernel, n, d, k, nprobe, 32);

    for row in 0..n {
        let expected = search.direct(row, nprobe);
        assert_eq!(actual[row][0].1, expected.0[0], "row {row} indices differ");
        assert_eq!(actual[row][0].0, expected.1[0].to_bits(), "row {row} distance differs");
    }
}

#[test]
fn test_small_batch_direct_cutoff() {
    assert!(use_direct_batch(31, 32, 4));
    assert!(!use_direct_batch(32, 32, 4));
    assert!(use_direct_batch(32, 8, 4));

    let d = 32;
    let centroids = [-1.0f32; 64];
    let queries = vec![10.0; 8 * d];
    let search = Search::new(&queries, &centroids, 2, d);
    let kernel = BatchKernel {
        is_safe: |row: usize| search.is_safe(row),
        products_of: |rows: Vec<usize>, first: usize, columns: usize| {
            search.products(&rows, first, columns)
        },
        band_of: |row: usize, kth: u32| search.band(row, kth),
        distance_of: |row: usize, c: usize| search.distance(row, c),
    };
    find_topk_batch_with_centroid_norms(&kernel, 7, d, 2, 1, 1);
    assert_eq!(search.gemm_rows.get(), 0);
    find_topk_batch_with_centroid_norms(&kernel, 8, d, 2, 1, 1);
    assert_eq!(search.gemm_rows.get(), 8);
}

#[test]
fn test_find_topk() {
    let centroids = [0.0, 0.0, 10.0, 0.0, 5.0, 5.0];
    let query = [1.0, 1.0];
    let (indices, _) = Search::new(&query, &centroids, 3, 2).direct(0, 2);
    assert_eq!(indices[0], 0);
}

#[test]
fn test_find_top1_without_full_scratch_preserves_direct_order() {
    let centroids = [1.0, 0.0, -1.0, 0.0, 2.0, 0.0];
    let query = [0.0, 0.0];
    let search = Search::new(&query, &centroids, 3, 2);
    let top = find_top1(0, 3, &|r: usize, c: usize| search.distance(r, c));
    assert_eq!((f32::from_bits(top.0), top.1), (1.0, 0));
}

#[test]
fn test_direct_topk_waves_support_zero_dimension() {
    let search = Search::new(&[], &[], 0, 0);
    assert_eq!(search.topk(3, 1, 4), (vec![Vec::new(); 3], vec![Vec::new(); 3]));
}

#[test]
fn test_bounded_direct_topk_preserves_distance_then_index_order() {
    let k = 32_769;
    let mut centroids: Vec<f32> = (0..k).map(|i| i as f32).collect();
    centroids[k - 1] = 1.0;
    let search = Search::new(&[0.0], &centroids, k, 1);

    assert!(use_bounded_direct_topk(k, 2, 32));
    assert_eq!(search.direct(0, 2), (vec![0, 1], vec![0.0, 1.0]));
    let bounded = paimon_vindex_core::nearest::find_topk_with_workers(
        0,
        k,
        2,
        32,
        &|r: usize, c: usize| search.distance(r, c),
    );
    assert_eq!(bounded, vec![(0.0f32.to_bits(), 0), (1.0f32.to_bits(), 1)]);
}

#[test]
fn test_find_topk_batch_matches_full_sort_with_ties() {
    let d = 2;
    let k = 32;
    let nprobe = 5;
    let centroids: Vec<f32> = (0..k)
        .flat_map(|i| [i as f32 % 4.0, (i / 4) as f32])
        .collect();
    let queries = vec![0.5, 0.5, 2.5, 3.5, 1.5, 1.5];
    let search = Search::new(&queries, &centroids, k, d);
    let (actual_indices, actual_distances) = search.topk(3, nprobe, 4);

    for qi in 0..3 {
        let query = &queries[qi * d..(qi + 1) * d];
        let mut expected: Vec<(f32, usize)> = (0..k)
            .map(|ci| (l2sqr(query, &centroids[ci * d..(ci + 1) * d]), ci))
            .collect();
        expected.sort_by(|a, b| a.0.total_cmp(&b.0).then(a.1.cmp(&b.1)));
        assert_eq!(
            actual_indices[qi],
            expected[..nprobe].iter().map(|&(_, index)| index).collect::<Vec<_>>()
        );
        assert_eq!(
            actual_distances[qi],
            expected[..nprobe].iter().map(|&(distance, _)| distance).collect::<Vec<_>>()
        );
    }
}

#[test]
fn test_find_nearest_batch_matches_scalar() {
    let d = 5;
    let k = 4;
    let n = 17;
    let centroids: Vec<f32> = (0..k * d).map(|i| i as f32 * 0.25 - 2.0).collect();
    let data: Vec<f32> = (0..n * d)
        .map(|i| ((i * 13 % 29) as f32) * 0.1 - 1.0)
        .collect();
    let search = Search::new(&data, &centroids, k, d);

    let batch = search.nearest(n, 4);
    let scalar: Vec<usize> = (0..n).map(|i| search.direct_nearest(i)).collect();
    assert_eq!(batch, scalar);
}

#[test]
fn test_batch_distance_matches_scalar_with_large_translation() {
    let (d, k, n) = (16, 2, 2);
    let mut centroids = vec![1e8; k * d];
    centroids[0] += 8.0;
    let data = vec![1e8; n * d];
    let search = Search::new(&data, &centroids, k, d);

    assert_eq!(search.direct_nearest(0), 1);
    assert_eq!(search.nearest(n, 1), vec![1; n]);
    let (indices, distances) = search.topk(n, 1, 1);
    assert_eq!(indices, vec![vec![1]; n]);
    assert_eq!(distances, vec![vec![0.0]; n]);
}

#[test]
fn test_batch_falls_back_when_approximate_distance_overflows() {
    let scale = f32::MAX.sqrt();
    let query = scale * 0.80f32.sqrt();
    let centroids = [scale * 0.19f32.sqrt(), scale * 0.30f32.sqrt()];
    let queries = [query, query];
    let search = Search::new(&queries, &centroids, 2, 1);

    assert_eq!(search.nearest(2, 1), [1, 1]);
}

#[test]
fn test_non_finite_nearest_batch_matches_scalar() {
    let d = MIN_GEMM_DIM;
    let query = vec![f32::INFINITY; d];
    let mut centroids = vec![f32::INFINITY; 2 * d];
    centroids[d..].fill(0.0);
    let queries = query.repeat(8);
    let search = Search::new(&queries, &centroids, 2, d);
    let expected = search.direct_nearest(0);

    assert_eq!(search.nearest(8, 1), vec![expected; 8]);
}

#[test]
fn test_batch_topk_all_centroids_skips_sgemm() {
    let d = MIN_GEMM_DIM;
    let k = 64;
    let nq = DIRECT_ROWS_PER_THREAD;
    let mut centroids = vec![-1.0; k * d];
    centroids[k / 2 * d..].fill(1.0);
    let queries = vec![10.0; nq * d];
    let search = Search::new(&queries, &centroids, k, d);
    let expected = search.direct(0, k);

    let (indices, distances) = search.topk(nq, k, 1);
    assert_eq!(indices, vec![expected.0; nq]);
    assert_eq!(distances, vec![expected.1; nq]);
    assert_eq!(search.gemm_rows.get(), 0);
}

#[test]
fn test_mixed_block_sgemm_only_processes_safe_rows() {
    let d = MIN_GEMM_DIM;
    let mut centroids = vec![-1.0; 2 * d];
    centroids[d..].fill(1.0);
    let mut queries = vec![10.0; 32 * d];
    for row in (1..32).step_by(2) {
        queries[row * d] = f32::NAN;
    }
    let search = Search::new(&queries, &centroids, 2, d);
    let nearest = search.nearest(32, 1);

    assert_eq!(
        nearest,
        (0..32).map(|row| usize::from(row % 2 == 0)).collect::<Vec<_>>()
    );
    assert_eq!(search.gemm_rows.get(), 16);
}

#[test]
fn test_batch_topk_matches_direct_contract() {
    let d = 96;
    let k = 300;
    let nq = 1200;
    let mut rng = StdRng::seed_from_u64(9);
    let base: Vec<f32> = (0..k * d).map(|_| rng.gen::<f32>() - 0.5).collect();
    let mut centroids = base.clone();
    for c in 0..20 {
        let (src, dst) = (c * 7 % k, k - 1 - c);
        let row: Vec<f32> = centroids[src * d..(src + 1) * d].to_vec();
        centroids[dst * d..(dst + 1) * d].copy_from_slice(&row);
        if c % 2 == 0 {
            centroids[dst * d] = f32::from_bits(centroids[dst * d].to_bits() + 1);
        }
    }
    let mut queries: Vec<f32> = (0..nq * d).map(|_| rng.gen::<f32>() - 0.5).collect();
    for q in 0..200 {
        let c = q % k;
        queries[q * d..(q + 1) * d].copy_from_slice(&centroids[c * d..(c + 1) * d]);
    }
    for q in 200..400 {
        let (a, b) = ((q * 3) % k, (q * 5 + 1) % k);
        for j in 0..d {
            queries[q * d + j] = 0.5 * (centroids[a * d + j] + centroids[b * d + j]);
        }
    }
    queries[400 * d] = f32::NAN;
    queries[401 * d + 3] = f32::INFINITY;
    queries[402 * d + 5] = -f32::INFINITY;
    for v in queries[403 * d..404 * d].iter_mut() {
        *v = 1.0e30;
    }
    for (label, offset, scale) in [
        ("benign", 0.0f32, 1.0f32),
        ("offset1e8", 1.0e8, 4.0),
        ("offset1e4", 1.0e4, 1.0),
    ] {
        let c2: Vec<f32> = centroids.iter().map(|v| v * scale + offset).collect();
        let q2: Vec<f32> = queries.iter().map(|v| v * scale + offset).collect();
        let search = Search::new(&q2, &c2, k, d);
        let scalar: Vec<usize> = (0..nq).map(|q| search.direct_nearest(q)).collect();
        for nprobe in [1usize, 2, 8, 64, k] {
            let (batch, bdist) = search.topk(nq, nprobe, 4);
            for qi in 0..nq {
                let (direct, ddist) = search.direct(qi, nprobe);
                assert_eq!(
                    batch[qi], direct,
                    "{label} nprobe={nprobe} row {qi} ids differ"
                );
                assert_eq!(
                    bits(&bdist[qi]),
                    bits(&ddist),
                    "{label} nprobe={nprobe} row {qi} distances differ"
                );
            }
        }
        assert_eq!(search.nearest(nq, 4), scalar, "{label} nearest");
    }
}

#[test]
fn bounded_selection_keeps_the_first_in_order() {
    let mut top = BoundedTopK::new(3);
    for (distance, index) in [(5.0f32, 0usize), (1.0, 1), (4.0, 2), (1.0, 0), (9.0, 4), (0.5, 5)] {
        top.push((distance.to_bits(), index));
    }
    assert_eq!(top.len(), 3);
    assert_eq!(top.worst(), Some((1.0f32.to_bits(), 1)));
    assert_eq!(
        top.into_sorted(),
        vec![(0.5f32.to_bits(), 5), (1.0f32.to_bits(), 0), (1.0f32.to_bits(), 1)]
    );
    let mut none = BoundedTopK::new(0);
    none.push((0, 0));
    assert_eq!(none.worst(), None);
}

#[test]
fn selecting_a_prefix_sorts_by_the_total_order() {
    let items: Vec<Candidate> = vec![
        (f32::NAN.to_bits(), 0),
        (2.0f32.to_bits(), 7),
        ((-0.0f32).to_bits(), 3),
        (0.0f32.to_bits(), 2),
        (f32::INFINITY.to_bits(), 1),
    ];
    let prefix = select_topk_prefix(&items, 3);
    assert_eq!(
        prefix,
        vec![((-0.0f32).to_bits(), 3), (0.0f32.to_bits(), 2), (2.0f32.to_bits(), 7)]
    );
    assert_eq!(select_topk_prefix(&items, 9).len(), 5);
}

#[test]
fn a_band_lets_exact_distances_decide() {
    // The approximate order is 0, 1, 2; exactly 2 is nearer than 1.
    let approximations = [1.0f32, 2.0, 2.1, 9.0].map(f32::to_bits);
    let exact = [1.0f32, 2.2, 2.0, 9.0].map(f32::to_bits);
    let measured = Cell::new(0usize);
    let items = certified_topk_row(
        0,
        &approximations,
        2,
        1,
        &|_row: usize, kth: u32| {
            assert_eq!(kth, 2.0f32.to_bits());
            (1.5f32.to_bits(), 2.5f32.to_bits())
        },
        &|_row: usize, c: usize| {
            measured.set(measured.get() + 1);
            exact[c]
        },
    );
    assert_eq!(items, vec![(1.0f32.to_bits(), 0), (2.0f32.to_bits(), 2)]);
    assert_eq!(measured.get(), 3);
}

#[test]
fn an_infinite_approximation_falls_back_to_exact_distances() {
    let approximations = [1.0f32, f32::INFINITY, 0.5].map(f32::to_bits);
    let exact = [3.0f32, 1.0, 2.0].map(f32::to_bits);
    let items = certified_topk_row(
        0,
        &approximations,
        2,
        1,
        &|_row: usize, kth: u32| (kth, kth),
        &|_row: usize, c: usize| exact[c],
    );
    assert_eq!(items, vec![(1.0f32.to_bits(), 1), (2.0f32.to_bits(), 2)]);
}

#[test]
fn nothing_is_nearest_without_centroids() {
    let search = Search::new(&[1.0, 2.0], &[], 0, 1);
    assert_eq!(search.nearest(2, 1), Vec::<usize>::new());
}

#[test]
fn plans_of_batches() {
    let plan = plan_blocks(32, 2, 32_769, 2, 32);
    assert_eq!(plan.tile, Some(4096));
    assert!(plan.block_rows > 0);
    let plan = plan_blocks(1200, 96, 300, 8, 4);
    assert_eq!(plan.tile, None);
    assert!(plan.parallel);
    let direct = plan_direct(10, 262_144, 65_536, 5);
    assert_eq!(direct.wave, Some(4));
    assert_eq!(direct.workers, 4);
    let direct = plan_direct(3, 1000, 0, 8);
    assert_eq!(direct.workers, 3);
}
