//! Training runs driven through the library's decisions.
use paimon_vindex_core::kmeans::{
    repeat_rows, training_set, trains_by_splitting, StreamingKMeans, TrainingRun, TrainingStep,
    MAX_WEIGHT,
};
use paimon_vindex_core::kmeans_assign::{
    assign_clusters_balanced_serial, assign_clusters_fast, assign_row, draw_replacements,
    largest_cluster, objective_chunk_rows, plan_reseeds, sum_objectives, Reseed, SeedChoice,
};
use paimon_vindex_core::kmeans_plan::{KMeansConfig, MAX_MATRIX_ELEMS};
use paimon_vindex_core::kmeans_split::{initial_clusters, ClusterSplitter};
use paimon_vindex_core::kmeans_update::{
    cluster_sums, update_centroids, update_weighted_centroids, UpdateKernel, WeightedKernel,
};
use paimon_vindex_core::lists::gather_rows;
use rand::rngs::StdRng;
use rand::{Rng, SeedableRng};

const EPS: f32 = 1.0 / 1024.0;

fn l2sqr(a: &[f32], b: &[f32]) -> f32 {
    a.iter().zip(b).map(|(x, y)| (x - y) * (x - y)).sum()
}

fn norm(a: &[f32]) -> f32 {
    a.iter().map(|x| x * x).sum()
}

fn sum(a: u32, b: u32) -> u32 {
    (f32::from_bits(a) + f32::from_bits(b)).to_bits()
}

fn to_bits(values: &[f32]) -> Vec<u32> {
    values.iter().map(|v| v.to_bits()).collect()
}

fn from_bits(values: &[u32]) -> Vec<f32> {
    values.iter().map(|v| f32::from_bits(*v)).collect()
}

fn deterministic_data(n: usize, d: usize, seed: u64) -> Vec<f32> {
    let mut rng = StdRng::seed_from_u64(seed);
    (0..n * d).map(|_| rng.gen::<f32>() * 2.0 - 1.0).collect()
}

/// Distances of a block of rows by norms and inner products.
fn block(
    data: &[f32],
    d: usize,
    centroids: &[f32],
    k: usize,
    c_norms: &[f32],
    start: usize,
    rows: usize,
) -> Vec<f32> {
    let mut out = Vec::with_capacity(rows * k);
    for i in start..start + rows {
        let x = &data[i * d..(i + 1) * d];
        let x_norm = norm(x);
        for c in 0..k {
            let ip: f32 = x.iter().zip(&centroids[c * d..(c + 1) * d]).map(|(a, b)| a * b).sum();
            out.push(x_norm + c_norms[c] - 2.0 * ip);
        }
    }
    out
}

fn assign(
    data: &[f32],
    n: usize,
    d: usize,
    centroids: &[f32],
    k: usize,
    before: &[usize],
    balance_factor: f32,
    threads: usize,
) -> (Vec<usize>, f32) {
    let c_norms: Vec<f32> = (0..k).map(|c| norm(&centroids[c * d..(c + 1) * d])).collect();
    let (assigned, _, objective) = if balance_factor > 0.0 {
        assign_clusters_balanced_serial(
            n,
            k,
            &|start: usize, rows: usize, sizes: Vec<usize>| {
                let mut distances = block(data, d, centroids, k, &c_norms, start, rows);
                for row in distances.chunks_mut(k.max(1)) {
                    for (c, distance) in row.iter_mut().enumerate() {
                        if sizes[c] > 0 {
                            *distance += balance_factor * (sizes[c] as f32).ln();
                        }
                    }
                }
                to_bits(&distances)
            },
            &before.to_vec(),
            &sum,
        )
    } else {
        assign_clusters_fast(
            n,
            d,
            k,
            threads,
            &|start: usize, rows: usize| {
                to_bits(&block(data, d, centroids, k, &c_norms, start, rows))
            },
            &sum,
        )
    };
    (assigned, f32::from_bits(objective))
}

fn seed_centroids(data: &[f32], n: usize, d: usize, k: usize, rng: &mut StdRng) -> Vec<f32> {
    let mut choice = SeedChoice::begin(n, rng);
    for _ in 1..k {
        let row = choice.last_chosen();
        let centre = &data[row * d..(row + 1) * d];
        let distances: Vec<u32> = (0..n)
            .map(|i| l2sqr(&data[i * d..(i + 1) * d], centre).to_bits())
            .collect();
        choice.observe(&distances);
        let mut total = 0.0f32;
        let totals: Vec<u32> = from_bits(choice.nearest())
            .into_iter()
            .map(|v| {
                total += v;
                total.to_bits()
            })
            .collect();
        let target = rng.gen::<f32>() * total;
        choice.choose_row(&totals, target.to_bits());
    }
    from_bits(&gather_rows(&to_bits(data), &choice.into_rows(), d))
}

fn move_centroids(
    data: &[f32],
    n: usize,
    d: usize,
    centroids: &mut [f32],
    k: usize,
    assignments: &[usize],
    rng: &mut StdRng,
) {
    let kernel = UpdateKernel {
        gather: |total: u32, _row: usize, value: u32| {
            (f32::from_bits(total) + f32::from_bits(value)).to_bits()
        },
        share: |total: u32, rows: usize| {
            (f32::from_bits(total) * (1.0 / rows as f32)).to_bits()
        },
        grow: |value: u32| (f32::from_bits(value) * (1.0 + EPS)).to_bits(),
        shrink: |value: u32| (f32::from_bits(value) * (1.0 - EPS)).to_bits(),
    };
    let mut moved = to_bits(centroids);
    update_centroids(&to_bits(&data[..n * d]), d, &mut moved, k, assignments, rng, &kernel);
    centroids.copy_from_slice(&from_bits(&moved));
}

fn train_with_init(
    config: &KMeansConfig,
    data: &[f32],
    n: usize,
    d: usize,
    k: usize,
    init: Option<&[f32]>,
) -> Vec<f32> {
    if n == 0 || k == 0 {
        return vec![0.0; k * d];
    }
    let mut rng = StdRng::seed_from_u64(config.seed);
    let (chosen, train_n) = training_set(&to_bits(data), n, d, k, config, &mut rng);
    if train_n <= k {
        return from_bits(&repeat_rows(&chosen, train_n, d, k));
    }
    let rows = from_bits(&chosen);
    let mut run = TrainingRun::new(config, init.is_some(), k * d);
    let mut centroids = Vec::new();
    let mut assignments: Vec<usize> = Vec::new();
    loop {
        match run.next_step() {
            TrainingStep::Resume => {
                centroids = init.unwrap().to_vec();
                assignments = vec![0; train_n];
                run.begin_attempt(&to_bits(&centroids));
            }
            TrainingStep::Seed => {
                centroids = seed_centroids(&rows, train_n, d, k, &mut rng);
                assignments = vec![0; train_n];
                run.begin_attempt(&to_bits(&centroids));
            }
            TrainingStep::Iterate => {
                let (assigned, objective) = assign(
                    &rows,
                    train_n,
                    d,
                    &centroids,
                    k,
                    &assignments,
                    f32::from_bits(config.balance_factor),
                    4,
                );
                assignments = assigned;
                move_centroids(&rows, train_n, d, &mut centroids, k, &assignments, &mut rng);
                let last = f32::from_bits(run.last_objective());
                let steady = (last - objective).abs() / last.max(1e-10) < 1e-6;
                run.record_iteration(objective.to_bits(), steady, &to_bits(&centroids));
            }
            TrainingStep::Finish => return from_bits(&run.into_best()),
        }
    }
}

fn train_hierarchical(
    config: &KMeansConfig,
    data: &[f32],
    n: usize,
    d: usize,
    target: usize,
) -> Vec<f32> {
    let mut rng = StdRng::seed_from_u64(config.seed);
    let (chosen, train_n) = training_set(&to_bits(data), n, d, target, config, &mut rng);
    let rows = from_bits(&chosen);
    let initial = initial_clusters(target);
    let first = KMeansConfig::with_iterations(config.niter, config.seed);
    let centroids = train_with_init(&first, &rows, train_n, d, initial, None);
    let (assignments, _) = assign(&rows, train_n, d, &centroids, initial, &[], 0.0, 4);
    let mut splitter = ClusterSplitter::begin(
        target,
        d,
        config.seed,
        &to_bits(&centroids),
        initial,
        &assignments,
    );
    while let Some(task) = splitter.next_split() {
        let part = from_bits(&gather_rows(&chosen, &task.rows, d));
        let count = task.rows.len();
        let halves = train_with_init(&task.config, &part, count, d, 2, None);
        let (sides, _) = assign(&part, count, d, &halves, 2, &[], 0.0, 4);
        splitter.split(&to_bits(&halves), &sides);
    }
    from_bits(&splitter.finish())
}

fn train(config: &KMeansConfig, data: &[f32], n: usize, d: usize, k: usize) -> Vec<f32> {
    if trains_by_splitting(n, k) {
        train_hierarchical(config, data, n, d, k)
    } else {
        train_with_init(config, data, n, d, k, None)
    }
}

fn train_weighted(
    config: &KMeansConfig,
    data: &[f32],
    weights: &[f32],
    n: usize,
    d: usize,
    k: usize,
) -> Vec<f32> {
    let mut rng = StdRng::seed_from_u64(config.seed);
    if n <= k {
        return from_bits(&repeat_rows(&to_bits(data), n, d, k));
    }
    let mut centroids = seed_centroids(data, n, d, k, &mut rng);
    for _ in 0..config.niter {
        let (assigned, _) = assign(data, n, d, &centroids, k, &[], 0.0, 4);
        let kernel = WeightedKernel {
            gather: |total: u32, row: usize, value: u32| {
                (f32::from_bits(total) + weights[row] * f32::from_bits(value)).to_bits()
            },
            total: |total: u32, _row: usize, weight: u32| {
                (f32::from_bits(total) + f32::from_bits(weight)).to_bits()
            },
            share: |total: u32, weight: u32| {
                (f32::from_bits(total) * (1.0 / f32::from_bits(weight))).to_bits()
            },
        };
        let (rows, weights) = (to_bits(data), to_bits(weights));
        centroids = from_bits(&update_weighted_centroids(
            &rows, &weights, d, k, &assigned, &mut rng, &kernel,
        ));
    }
    centroids
}

fn reference(data: &[f32], n: usize, d: usize, centroids: &[f32], k: usize) -> (Vec<usize>, f32) {
    let mut assignments = vec![0usize; n];
    let mut total = 0.0f32;
    for i in 0..n {
        let mut best = 0;
        let mut best_dist = f32::MAX;
        for c in 0..k {
            let dist = l2sqr(&data[i * d..(i + 1) * d], &centroids[c * d..(c + 1) * d]);
            if dist < best_dist {
                best_dist = dist;
                best = c;
            }
        }
        assignments[i] = best;
        total += best_dist;
    }
    (assignments, total)
}

#[test]
fn test_assign_clusters_matches_reference_shapes() {
    let shapes: &[(usize, usize, usize)] = &[(17, 4, 5), (1003, 7, 9), (70_000, 64, 8)];
    for &(n, k, d) in shapes {
        let data = deterministic_data(n, d, 7);
        let centroids = deterministic_data(k, d, 11);
        let (fast, obj_fast) = assign(&data, n, d, &centroids, k, &[], 0.0, 8);
        let (expected, obj_ref) = reference(&data, n, d, &centroids, k);
        assert_eq!(fast, expected, "assignments diverge for shape ({n},{k},{d})");
        let rel = (obj_fast - obj_ref).abs() / obj_ref.max(1e-10);
        assert!(rel < 1e-5, "objective rel err {rel} for shape ({n},{k},{d})");
    }
}

#[test]
fn test_assign_clusters_target_boundary_shape() {
    let (n, k, d) = (244_606, 16, 4);
    let data = deterministic_data(n, d, 13);
    let centroids = deterministic_data(k, d, 17);
    let (fast, obj_fast) = assign(&data, n, d, &centroids, k, &[], 0.0, 8);
    let (expected, obj_ref) = reference(&data, n, d, &centroids, k);
    assert_eq!(fast, expected);
    let rel = (obj_fast - obj_ref).abs() / obj_ref.max(1e-10);
    assert!(rel < 1e-5, "objective rel err {rel}");
}

#[test]
fn test_assign_clusters_cross_thread_objective() {
    for &(n, k, d) in &[
        (1003usize, 7usize, 9usize),
        (70_000, 64, 8),
        (244_606, 16, 4),
        (524_289, 2, 1),
    ] {
        let data = deterministic_data(n, d, 19);
        let centroids = deterministic_data(k, d, 23);
        let (a1, obj1) = assign(&data, n, d, &centroids, k, &[], 0.0, 1);
        let (a8, obj8) = assign(&data, n, d, &centroids, k, &[], 0.0, 8);
        assert_eq!(a1, a8, "assignments diverge across pools for ({n},{k},{d})");
        assert_eq!(
            obj1.to_bits(),
            obj8.to_bits(),
            "objective diverges across pools for ({n},{k},{d})"
        );
    }
}

#[test]
fn test_assign_clusters_preserves_serial_chunk_objective() {
    let (n, k, d) = (70_000usize, 64usize, 8usize);
    let data = deterministic_data(n, d, 27);
    let centroids = deterministic_data(k, d, 29);
    let (fast, fast_obj) = assign(&data, n, d, &centroids, k, &[], 0.0, 8);

    let c_norms: Vec<f32> = centroids.chunks(d).map(norm).collect();
    let max_rows = MAX_MATRIX_ELEMS / k;
    let mut serial = Vec::new();
    let mut serial_obj = 0.0f32;
    for start in (0..n).step_by(max_rows) {
        let rows = max_rows.min(n - start);
        let distances = block(&data, d, &centroids, k, &c_norms, start, rows);
        let mut sum = 0.0f32;
        for row in distances.chunks(k) {
            let (best, objective) = assign_row(&to_bits(row));
            serial.push(best);
            sum += f32::from_bits(objective);
        }
        serial_obj += sum;
    }
    assert_eq!(fast, serial);
    assert_eq!(fast_obj.to_bits(), serial_obj.to_bits());
}

#[test]
fn test_split_training_shape_uses_single_sgemm() {
    let (n, k, d) = (512usize, 2usize, 768usize);
    let data = deterministic_data(n, d, 29);
    let centroids = deterministic_data(k, d, 31);
    let (fast, fast_obj) = assign(&data, n, d, &centroids, k, &[], 0.0, 8);

    let c_norms: Vec<f32> = centroids.chunks(d).map(norm).collect();
    let distances = block(&data, d, &centroids, k, &c_norms, 0, n);
    let single: Vec<(usize, u32)> = distances
        .chunks(k)
        .map(|row| assign_row(&to_bits(row)))
        .collect();
    let single_obj: f32 = single.iter().map(|row| f32::from_bits(row.1)).sum();
    assert_eq!(fast, single.iter().map(|row| row.0).collect::<Vec<_>>());
    assert_eq!(fast_obj.to_bits(), single_obj.to_bits());
}

#[test]
fn test_small_assignments_bitwise_reproducible_across_pools() {
    let (n, k, d) = (256usize, 2usize, 64usize);
    let data = deterministic_data(n, d, 47);
    let centroids = deterministic_data(k, d, 53);
    let (a1, obj1) = assign(&data, n, d, &centroids, k, &[], 0.0, 1);
    let (a8, obj8) = assign(&data, n, d, &centroids, k, &[], 0.0, 8);
    assert_eq!(a1, a8);
    assert_eq!(obj1.to_bits(), obj8.to_bits());
}

#[test]
fn test_assign_clusters_balanced_stays_serial() {
    let (n, k, d) = (70_000usize, 64usize, 8usize);
    let data = deterministic_data(n, d, 29);
    let centroids = deterministic_data(k, d, 31);
    let seed_assign: Vec<usize> = (0..n).map(|i| i % k).collect();
    let (a1, obj1) = assign(&data, n, d, &centroids, k, &seed_assign, 0.1, 1);
    let (a8, obj8) = assign(&data, n, d, &centroids, k, &seed_assign, 0.1, 8);
    assert_eq!(a1, a8);
    assert_eq!(obj1.to_bits(), obj8.to_bits());
}

#[test]
fn test_assign_clusters_bitwise_reproducible_fixed_pool() {
    let n = 3000;
    let d = 6;
    let data = deterministic_data(n, d, 37);
    let config = KMeansConfig::default();
    let run = || {
        let flat = train_with_init(&config, &data, n, d, 24, None);
        let hier = train(&config, &data, n, d, 300);
        let (assignments, objective) = assign(&data, n, d, &flat, 24, &[], 0.0, 4);
        (to_bits(&flat), to_bits(&hier), assignments, objective.to_bits())
    };
    assert_eq!(run(), run());
}

#[test]
fn test_two_clusters() {
    let mut data = Vec::new();
    for _ in 0..50 {
        data.push(0.1);
        data.push(0.1);
    }
    for _ in 0..50 {
        data.push(10.1);
        data.push(10.1);
    }
    let config = KMeansConfig::default();
    let centroids = train(&config, &data, 100, 2, 2);
    let (c0, c1) = if centroids[0] < 5.0 {
        (&centroids[0..2], &centroids[2..4])
    } else {
        (&centroids[2..4], &centroids[0..2])
    };
    assert!(c0[0] < 2.0 && c0[1] < 2.0);
    assert!(c1[0] > 8.0 && c1[1] > 8.0);
}

#[test]
fn test_hot_start_converges_faster() {
    let mut rng = StdRng::seed_from_u64(42);
    let n = 500;
    let d = 4;
    let k = 4;
    let data: Vec<f32> = (0..n * d).map(|_| rng.gen::<f32>() * 10.0).collect();
    let config = KMeansConfig::with_iterations(25, 1234);
    let centroids = train(&config, &data, n, d, k);
    let config2 = KMeansConfig::with_iterations(3, 1234);
    let centroids2 = train_with_init(&config2, &data, n, d, k, Some(&centroids));
    let total_diff: f32 = centroids.iter().zip(&centroids2).map(|(a, b)| (a - b).abs()).sum();
    assert!(total_diff < 1.0, "Hot-start centroids drifted too much: {}", total_diff);
}

#[test]
fn test_streaming_coreset_kmeans() {
    let n = 5000;
    let d = 4;
    let k = 10;
    let chunk_size = 1000;
    let mut rng = StdRng::seed_from_u64(42);
    let mut data = Vec::new();
    for cluster in 0..k {
        let cx = cluster as f32 * 20.0;
        let cy = cluster as f32 * 20.0;
        for _ in 0..n / k {
            data.push(cx + rng.gen::<f32>() * 2.0);
            data.push(cy + rng.gen::<f32>() * 2.0);
            data.push(rng.gen::<f32>());
            data.push(rng.gen::<f32>());
        }
    }
    let mut streaming = StreamingKMeans::new(d, k, chunk_size, KMeansConfig::default());
    for chunk_start in (0..n).step_by(chunk_size) {
        let chunk_end = (chunk_start + chunk_size).min(n);
        let chunk_n = chunk_end - chunk_start;
        let chunk = &data[chunk_start * d..chunk_end * d];
        let plan = streaming.plan_chunk(chunk_n).unwrap();
        let centroids = train_with_init(&plan.config, chunk, chunk_n, d, plan.clusters, None);
        let (assigned, _) = assign(chunk, chunk_n, d, &centroids, plan.clusters, &[], 0.0, 4);
        streaming.add_chunk(&to_bits(&centroids), &assigned);
    }
    let total: f32 = streaming.coreset_weights.iter().map(|w| *w as f32).sum();
    assert!((total - n as f32).abs() < 1.0);

    let centroids = match streaming.finalize() {
        Some(centroids) => from_bits(&centroids),
        None => {
            let weights: Vec<f32> = streaming.coreset_weights.iter().map(|w| *w as f32).collect();
            train_weighted(
                &streaming.config,
                &from_bits(&streaming.coreset_centroids),
                &weights,
                weights.len(),
                d,
                k,
            )
        }
    };
    assert_eq!(centroids.len(), k * d);
    let first = &centroids[0..d];
    let diverse = (1..k).any(|i| l2sqr(&centroids[i * d..(i + 1) * d], first) > 1.0);
    assert!(diverse, "Streaming centroids are not diverse");
}

#[test]
fn test_hierarchical_exact_k() {
    let d = 4;
    let n = 4000;
    let data = deterministic_data(n, d, 41);
    let config = KMeansConfig::default();
    for &k in &[257usize, 1000, 1024] {
        let centroids = train(&config, &data, n, d, k);
        assert_eq!(centroids.len(), k * d, "wrong centroid count for k={k}");
        for &v in &centroids {
            assert!(v.is_finite());
        }
    }
}

#[test]
fn test_hierarchical_deterministic_same_seed() {
    let d = 4;
    let n = 3000;
    let data = deterministic_data(n, d, 43);
    let config = KMeansConfig::default();
    let a = train(&config, &data, n, d, 300);
    let b = train(&config, &data, n, d, 300);
    assert!(a.iter().zip(&b).all(|(x, y)| x.to_bits() == y.to_bits()));
}

#[test]
fn test_hierarchical_strict_largest_first_fixture() {
    let d = 2;
    let k = 257;
    let mut data = Vec::new();
    for i in 0..1024 {
        data.push((i % 32) as f32 * 0.01);
        data.push((i / 32) as f32 * 0.01);
    }
    for cluster in 1..16 {
        for i in 0..64 {
            data.push(cluster as f32 * 1000.0 + (i % 8) as f32 * 0.01);
            data.push((i / 8) as f32 * 0.01);
        }
    }
    let centroids = train(&KMeansConfig::default(), &data, data.len() / d, d, k);
    let largest_cluster_centroids = centroids
        .chunks_exact(d)
        .filter(|centroid| centroid[0] < 500.0)
        .count();
    assert_eq!(
        largest_cluster_centroids, 232,
        "hierarchical split order changed"
    );
}

#[test]
fn test_hierarchical_tiny_split_candidates() {
    let d = 4;
    let k = 300;
    let n = 600;
    let mut data = vec![0.0f32; n * d];
    for i in 0..n {
        let v = (i % 5) as f32;
        for j in 0..d {
            data[i * d + j] = v;
        }
    }
    let config = KMeansConfig::default();
    let centroids = train(&config, &data, n, d, k);
    assert_eq!(centroids.len(), k * d);
    for &v in &centroids {
        assert!(v.is_finite());
    }
}

#[test]
fn test_hierarchical_duplicate_data_pads_with_valid_centroids() {
    let d = 4;
    let k = 300;
    let n = 2000;
    let data = vec![10.0f32; n * d];
    let config = KMeansConfig::default();
    let centroids = train(&config, &data, n, d, k);
    assert_eq!(centroids.len(), k * d);
    for c in 0..k {
        let row = &centroids[c * d..(c + 1) * d];
        assert!(
            row.iter().all(|&v| (9.0..=11.0).contains(&v)),
            "centroid {c} is not derived from the data: {row:?}"
        );
    }
}

#[test]
fn test_assign_clusters_zero_dimension_does_not_panic() {
    let n = 5;
    let k = 3;
    let (assignments, objective) = assign(&[], n, 0, &[], k, &[7; 5], 0.0, 4);
    assert_eq!(assignments, vec![0usize; n]);
    assert_eq!(objective, 0.0);
}

#[test]
fn test_hierarchical_kmeans() {
    let n = 2000;
    let d = 4;
    let k = 300;
    let mut rng = StdRng::seed_from_u64(42);
    let data: Vec<f32> = (0..n * d).map(|_| rng.gen::<f32>() * 100.0).collect();
    let config = KMeansConfig::default();
    let centroids = train(&config, &data, n, d, k);
    assert_eq!(centroids.len(), k * d);
    for &v in &centroids {
        assert!(v.is_finite(), "Non-finite centroid value: {}", v);
    }
    let first = &centroids[0..d];
    let all_same = (1..k).all(|i| &centroids[i * d..(i + 1) * d] == first);
    assert!(!all_same, "All centroids are identical");
}

#[test]
fn a_run_keeps_the_best_attempt() {
    let mut config = KMeansConfig::with_iterations(2, 7);
    config.nredo = 3;
    let mut run = TrainingRun::new(&config, false, 1);
    let objectives = [[9.0f32, 5.0], [8.0, 3.0], [7.0, 3.0]];
    for (attempt, values) in objectives.iter().enumerate() {
        assert_eq!(run.next_step(), TrainingStep::Seed);
        let centroids = vec![attempt as u32 + 1];
        run.begin_attempt(&centroids);
        for value in values {
            assert_eq!(run.next_step(), TrainingStep::Iterate);
            run.record_iteration(value.to_bits(), false, &centroids);
        }
    }
    assert_eq!(run.next_step(), TrainingStep::Finish);
    assert_eq!(run.into_best(), vec![2]);
}

#[test]
fn a_steady_attempt_ends_early_and_a_resumed_run_makes_one() {
    let mut config = KMeansConfig::with_iterations(10, 7);
    config.nredo = 5;
    let mut run = TrainingRun::new(&config, true, 2);
    assert_eq!(run.next_step(), TrainingStep::Resume);
    run.begin_attempt(&vec![1, 1]);
    run.record_iteration(4.0f32.to_bits(), true, &vec![2, 2]);
    assert_eq!(run.next_step(), TrainingStep::Iterate);
    run.record_iteration(3.0f32.to_bits(), true, &vec![3, 3]);
    assert_eq!(run.next_step(), TrainingStep::Finish);
    assert_eq!(f32::from_bits(run.last_objective()), 4.0);
    assert_eq!(run.into_best(), vec![3, 3]);
}

#[test]
fn a_run_without_iterations_leaves_zeros() {
    let mut run = TrainingRun::new(&KMeansConfig::with_iterations(0, 1), false, 3);
    assert_eq!(run.next_step(), TrainingStep::Seed);
    run.begin_attempt(&vec![5, 6, 7]);
    assert_eq!(run.next_step(), TrainingStep::Finish);
    assert_eq!(run.into_best(), vec![0, 0, 0]);
}

#[test]
fn few_rows_are_repeated_in_turn() {
    assert_eq!(repeat_rows(&vec![1, 2, 3, 4], 2, 2, 5), vec![1, 2, 3, 4, 1, 2, 3, 4, 1, 2]);
}

#[test]
fn a_training_set_is_a_sample_only_where_there_are_too_many_rows() {
    let mut config = KMeansConfig::default();
    config.max_points_per_centroid = 3;
    let mut rng = StdRng::seed_from_u64(5);
    let data: Vec<u32> = (0..20).collect();
    let (all, n) = training_set(&data, 10, 2, 4, &config, &mut rng);
    assert_eq!((all, n), (data.clone(), 10));
    let (some, n) = training_set(&data, 10, 2, 2, &config, &mut rng);
    assert_eq!(n, 6);
    let rows: Vec<u32> = some.chunks(2).map(|row| row[0]).collect();
    assert!(some.chunks(2).all(|row| row[0] % 2 == 0 && row[1] == row[0] + 1));
    let mut sorted = rows.clone();
    sorted.sort_unstable();
    sorted.dedup();
    assert_eq!(sorted.len(), 6);
}

#[test]
fn empty_clusters_take_half_of_the_largest() {
    let mut rng = StdRng::seed_from_u64(1);
    let mut counts = vec![5, 0, 7, 7, 0];
    let done = plan_reseeds(&mut counts, 19, &mut rng);
    assert_eq!(counts, vec![5, 3, 4, 4, 3]);
    let moves: Vec<(usize, Reseed)> = done.iter().map(|r| (r.cluster, r.from)).collect();
    assert_eq!(moves, vec![(1, Reseed::Split(3)), (4, Reseed::Split(2))]);
    assert_eq!(largest_cluster(&vec![2, 9, 9, 1]), 2);
}

#[test]
fn empty_clusters_take_a_row_where_no_cluster_has_two() {
    let mut rng = StdRng::seed_from_u64(1);
    let mut counts = vec![1, 0, 1];
    let done = plan_reseeds(&mut counts, 2, &mut rng);
    assert_eq!(counts, vec![1, 0, 1]);
    assert_eq!(done.len(), 1);
    assert!(matches!(done[0].from, Reseed::Row(row) if row < 2));
}

#[test]
fn seeds_are_chosen_where_the_running_total_reaches_the_target() {
    let mut rng = StdRng::seed_from_u64(3);
    let mut choice = SeedChoice::begin(3, &mut rng);
    choice.observe(&to_bits(&[4.0, 0.0, 1.0]));
    choice.observe(&to_bits(&[5.0, 2.0, 0.5]));
    assert_eq!(from_bits(choice.nearest()), vec![4.0, 0.0, 0.5]);
    choice.choose_row(&to_bits(&[4.0, 4.0, 4.5]), 4.25f32.to_bits());
    assert_eq!(choice.last_chosen(), 2);
    choice.choose_row(&to_bits(&[4.0, 4.0, 4.5]), 1.0f32.to_bits());
    assert_eq!(choice.last_chosen(), 0);
    choice.choose_row(&to_bits(&[4.0, 4.0, 4.5]), f32::NAN.to_bits());
    assert_eq!(choice.last_chosen(), 2);
    assert_eq!(choice.into_rows().len(), 4);
}

#[test]
fn clusters_without_weight_are_replaced() {
    let mut rng = StdRng::seed_from_u64(3);
    let rows = draw_replacements(&to_bits(&[1.0, 0.0, f32::NAN, 2.0]), 4, &mut rng);
    assert_eq!(rows[0], None);
    assert!(rows[1].is_some_and(|row| row < 4));
    assert!(rows[2].is_some_and(|row| row < 4));
    assert_eq!(rows[3], None);
}

#[test]
fn balanced_chunks_count_the_assignments_before() {
    let before = vec![0usize, 0, 1, 9];
    let (assigned, objectives, total) = assign_clusters_balanced_serial(
        4,
        2,
        &|start: usize, rows: usize, sizes: Vec<usize>| {
            assert_eq!((start, rows), (0, 4));
            assert_eq!(sizes, vec![2, 1]);
            to_bits(&[1.0, 2.0, 2.0, 1.0, 3.0, 3.0, f32::NAN, f32::INFINITY])
        },
        &before,
        &|a: u32, b: u32| a ^ b.rotate_left(a & 1),
    );
    assert_eq!(assigned, vec![0, 1, 0, 0]);
    assert_eq!(from_bits(&objectives), vec![1.0, 1.0, 3.0, f32::MAX]);
    let expected = to_bits(&[1.0, 1.0, 3.0, f32::MAX])
        .into_iter()
        .fold(0u32, |a, b| a ^ b.rotate_left(a & 1));
    assert_eq!(total, expected);
}

#[test]
fn objectives_are_added_up_by_chunks() {
    let values = to_bits(&[1.0e8, 1.0, 1.0, 1.0, -1.0e8]);
    let total = |chunk: usize| f32::from_bits(sum_objectives(&values, chunk, &sum));
    // Every one is lost beside the large number.
    assert_eq!(total(5), 0.0);
    assert_eq!(total(usize::MAX), 0.0);
    assert_eq!(total(1), 0.0);
    // The chunks are [1e8, 1], [1, 1] and [-1e8].
    let two = ((1.0e8f32 + 1.0) + (1.0f32 + 1.0)) + -1.0e8f32;
    assert_eq!(total(2), two);
    // The chunks are [1e8, 1, 1, 1] and [-1e8].
    assert_eq!(total(4), 0.0);
    let small = to_bits(&[1.0, 2.0, 4.0, 8.0, 16.0, 32.0, 64.0]);
    assert_eq!(f32::from_bits(sum_objectives(&small, 3, &sum)), 127.0);
    assert_eq!(f32::from_bits(sum_objectives(&[], 3, &sum)), 0.0);
    // An addition that shows where the chunks end: 10 * a + b.
    let places = |a: u32, b: u32| 10u32.wrapping_mul(a).wrapping_add(b);
    assert_eq!(sum_objectives(&[1, 2, 3, 4, 5], 5, &places), 12345);
    assert_eq!(sum_objectives(&[1, 2, 3, 4, 5], 2, &places), (12 * 10 + 34) * 10 + 5);
}

#[test]
fn the_total_objective_does_not_depend_on_the_blocks() {
    let places = |a: u32, b: u32| a.rotate_left(3) ^ b;
    let rows = 3 * objective_chunk_rows(MAX_MATRIX_ELEMS / 2) + 1;
    let k = MAX_MATRIX_ELEMS / 2;
    let block = |start: usize, rows: usize| {
        let mut distances = vec![9.0f32.to_bits(); rows * k];
        for p in 0..rows {
            distances[p * k + p] = (1.0 + (start + p) as f32).to_bits();
        }
        distances
    };
    let (_, one, expected) = assign_clusters_fast(rows, 1, k, 1, &block, &places);
    assert_eq!(from_bits(&one), vec![1.0, 2.0, 3.0, 4.0, 5.0, 6.0, 7.0]);
    assert_eq!(expected, sum_objectives(&one, 2, &places));
    for threads in [2, 16] {
        let (_, _, total) = assign_clusters_fast(rows, 1, k, threads, &block, &places);
        assert_eq!(total, expected);
    }
    let (assigned, objectives, total) = assign_clusters_fast(3, 0, k, 1, &block, &places);
    assert_eq!((assigned, objectives, total), (vec![0; 3], vec![0; 3], 0));
}

#[test]
fn every_chunk_is_compressed_into_as_many_centroids_as_wanted() {
    let mut streaming = StreamingKMeans::new(1, 3, 10, KMeansConfig::default());
    assert_eq!(streaming.finalize(), Some(vec![0, 0, 0]));
    assert!(streaming.plan_chunk(0).is_none());
    assert!(StreamingKMeans::new(1, 0, 10, KMeansConfig::default()).plan_chunk(4).is_none());
    // Two rows are fewer than the centroids that are wanted.
    let plan = streaming.plan_chunk(2).unwrap();
    assert_eq!((plan.clusters, plan.config.niter, plan.config.seed), (3, 15, 1234));
    streaming.add_chunk(&repeat_rows(&vec![7, 8], 2, 1, 3), &vec![0, 1]);
    assert_eq!(streaming.coreset_centroids, vec![7, 8, 7]);
    assert_eq!(streaming.coreset_weights, vec![1, 1, 0]);
    assert_eq!(streaming.finalize(), Some(vec![7, 8, 7]));
    streaming.add_chunk(&vec![], &vec![]);
    assert_eq!(streaming.coreset_weights, vec![1, 1, 0]);
    assert_eq!(streaming.plan_chunk(9).unwrap().config.seed, 1237);
    streaming.add_chunk(&vec![9, 10, 11], &vec![0, 2, 2, 2]);
    assert_eq!(streaming.coreset_weights, vec![1, 1, 0, 1, 0, 3]);
    assert_eq!(streaming.coreset_weights.iter().sum::<usize>(), 2 + 4);
    assert_eq!(streaming.finalize(), None);
    assert_eq!(MAX_WEIGHT as f32 + 1.0, MAX_WEIGHT as f32);
}

#[test]
fn splitting_takes_the_largest_cluster_first() {
    let centroids = vec![10, 20];
    let assignments = vec![0, 1, 1, 1, 1, 1];
    let mut splitter = ClusterSplitter::begin(4, 1, 100, &centroids, 2, &assignments);
    let task = splitter.next_split().unwrap();
    assert_eq!(task.rows, vec![1, 2, 3, 4, 5]);
    assert_eq!((task.config.niter, task.config.seed), (10, 100));
    splitter.split(&vec![21, 22], &vec![0, 0, 0, 0, 1]);
    let task = splitter.next_split().unwrap();
    assert_eq!(task.rows, vec![1, 2, 3, 4]);
    // All rows went to one side: the cluster is finished as it was.
    splitter.split(&vec![31, 32], &vec![1, 1, 1, 1]);
    assert!(splitter.next_split().is_none());
    assert_eq!(splitter.finish(), vec![21, 10, 22, 21]);
}

#[test]
fn centroids_move_to_the_means_of_their_rows() {
    let data = [1.0f32, 10.0, 3.0, 20.0, 8.0, 0.0, 5.0, 30.0];
    let assignments = [0usize, 0, 2, 0];
    let add = |total: u32, _row: usize, value: u32| {
        (f32::from_bits(total) + f32::from_bits(value)).to_bits()
    };
    let sums = cluster_sums(&to_bits(&data), 2, &assignments, 3, &add);
    assert_eq!(from_bits(&sums), vec![9.0, 60.0, 0.0, 0.0, 8.0, 0.0]);

    let mut rng = StdRng::seed_from_u64(1);
    let mut centroids = vec![0.0f32; 6];
    move_centroids(&data, 4, 2, &mut centroids, 3, &assignments, &mut rng);
    let expected = [
        3.0 * (1.0 - EPS),
        20.0 * (1.0 + EPS),
        3.0 * (1.0 + EPS),
        20.0 * (1.0 - EPS),
        8.0,
        0.0,
    ];
    assert_eq!(centroids, expected);

    let single = [7.0f32, 8.0];
    let mut centroids = vec![0.0f32; 4];
    move_centroids(&single, 1, 2, &mut centroids, 2, &[1], &mut rng);
    assert_eq!(centroids, vec![7.0, 8.0, 7.0, 8.0]);
}

#[test]
fn weights_pull_centroids() {
    let data = [0.0f32, 4.0, 100.0];
    let weights = [1.0f32, 3.0, 0.0];
    let kernel = WeightedKernel {
        gather: |total: u32, row: usize, value: u32| {
            (f32::from_bits(total) + weights[row] * f32::from_bits(value)).to_bits()
        },
        total: |total: u32, _row: usize, weight: u32| {
            (f32::from_bits(total) + f32::from_bits(weight)).to_bits()
        },
        share: |total: u32, weight: u32| {
            (f32::from_bits(total) * (1.0 / f32::from_bits(weight))).to_bits()
        },
    };
    let mut rng = StdRng::seed_from_u64(3);
    let (rows, bits) = (to_bits(&data), to_bits(&weights));
    let moved =
        from_bits(&update_weighted_centroids(&rows, &bits, 1, 2, &[0, 0, 1], &mut rng, &kernel));
    assert_eq!(moved[0], 3.0);
    assert!(data.contains(&moved[1]));
}
