//! Block plans of assignments.
use paimon_vindex_core::kmeans_plan::{
    assignment_block_plan, centroid_tile_size, direct_topk_linear_worker_limit,
    topk_tuple_elems, topk_worker_scratch, use_bounded_direct_topk, use_direct_batch,
    use_parallel_direct_topk, KMeansConfig, MAX_MATRIX_ELEMS,
};

#[test]
fn test_parallel_assignment_respects_aggregate_scratch_budget() {
    let (rows, parallel) = assignment_block_plan(262_144, 768, 1024, 16, 0, 0);
    assert!(parallel);
    assert_eq!(rows, 256);
    assert!(rows * 1024 * 16 <= MAX_MATRIX_ELEMS);

    let (rows, parallel) = assignment_block_plan(2_000_000, 1, 2, 16, 0, 0);
    assert!(!parallel);
    assert_eq!(rows, 131_072);
    assert!(rows * 2 * 16 <= MAX_MATRIX_ELEMS);

    let (rows, parallel) = assignment_block_plan(100_000, 32, 4096, 32, 0, 0);
    assert!(parallel);
    assert_eq!(rows, 32);
    assert!(rows * 4096 * 32 <= MAX_MATRIX_ELEMS);

    let (rows, parallel) = assignment_block_plan(100_000, 32, 4096, 32, 4096 * 6, 0);
    assert!(parallel);
    assert_eq!(rows, 26);
    assert!(rows * 4096 + 4096 * 6 <= MAX_MATRIX_ELEMS / 32);

    let fixed = topk_worker_scratch(4096, 8);
    let (rows, parallel) = assignment_block_plan(100_000, 32, 4096, 32, fixed, 2);
    assert!(parallel);
    assert_eq!(rows, 23);
    assert!(rows * (4096 + 2) + fixed <= MAX_MATRIX_ELEMS / 32);

    let live_scratch = fixed + rows * 2;
    let (packed_rows, packed_parallel) =
        assignment_block_plan(rows, 32, 4096, 32, live_scratch, 32 + 2);
    assert!(packed_parallel);
    assert!(packed_rows * (4096 + 32 + 2) + live_scratch <= MAX_MATRIX_ELEMS / 32);
}

#[test]
fn test_direct_topk_parallelism_respects_aggregate_scratch_budget() {
    assert!(use_parallel_direct_topk(32, 1_048_576, 1, 32));
    assert!(use_parallel_direct_topk(32, 1_048_576, 2, 32));
    assert!(use_parallel_direct_topk(2, 524_288, 2, 32));
    assert!(!use_parallel_direct_topk(32, 1_048_576, 1_048_575, 32));
}

#[test]
fn test_direct_topk_linear_workers_are_capped_without_switching_algorithm() {
    let k = 262_144;
    let nprobe = 65_536;
    assert_eq!(direct_topk_linear_worker_limit(k, nprobe, 4), 4);
    assert_eq!(direct_topk_linear_worker_limit(k, nprobe, 5), 4);
    assert!(!use_bounded_direct_topk(k, nprobe, 4));
    assert!(use_bounded_direct_topk(k, nprobe, 5));
}

#[test]
fn direct_batches_are_small_or_narrow() {
    assert!(use_direct_batch(31, 32, 4));
    assert!(!use_direct_batch(32, 32, 4));
    assert!(use_direct_batch(32, 8, 4));
    assert!(use_direct_batch(7, 64, 0));
    assert!(!use_direct_batch(8, 64, 0));
}

#[test]
fn centroids_are_tiled_only_where_a_row_does_not_fit() {
    assert_eq!(centroid_tile_size(32_769, 2, 2, 32), Some(4096));
    assert_eq!(centroid_tile_size(65_537, 2, 1, 32), Some(4096));
    assert_eq!(centroid_tile_size(1024, 768, 8, 16), None);
    assert_eq!(centroid_tile_size(32_769, 2, 0, 32), None);
    assert_eq!(centroid_tile_size(32_769, 2, 32_769, 32), None);
}

#[test]
fn candidates_take_whole_elements() {
    assert_eq!(topk_tuple_elems(), std::mem::size_of::<(u32, usize)>().div_ceil(4));
    assert_eq!(topk_worker_scratch(100, 1), topk_tuple_elems());
    assert_eq!(topk_worker_scratch(100, 10), 200 * topk_tuple_elems());
    assert_eq!(topk_worker_scratch(100, 100), 100 * topk_tuple_elems());
}

#[test]
fn single_threaded_plans_are_serial_and_fit_the_budget() {
    let (rows, parallel) = assignment_block_plan(100_000, 64, 1024, 1, 0, 0);
    assert_eq!((rows, parallel), (4096, false));
    let (rows, parallel) = assignment_block_plan(100, 64, MAX_MATRIX_ELEMS * 2, 8, 0, 0);
    assert_eq!(rows, 1);
    assert!(!parallel || rows == 1);
}

#[test]
fn default_training_parameters() {
    let config = KMeansConfig::default();
    assert_eq!(config.niter, 25);
    assert_eq!(config.nredo, 1);
    assert_eq!(config.max_points_per_centroid, 256);
    assert_eq!(config.seed, 1234);
    assert_eq!(config.balance_factor, 0);
}
