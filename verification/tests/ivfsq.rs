use paimon_vindex_core::distance::MetricType;
use paimon_vindex_core::ivfsq::IVFSQIndex;
use paimon_vindex_core::nearest::{find_nearest, find_topk};
use paimon_vindex_core::sq::ScalarQuantizer;
use paimon_vindex_core::sq_distance::DistanceKernel;
use std::collections::HashSet;

fn bits(values: &[f32]) -> Vec<u32> {
    values.iter().map(|value| value.to_bits()).collect()
}

fn floats(values: &[u32]) -> Vec<f32> {
    values.iter().map(|&value| f32::from_bits(value)).collect()
}

fn scale(value: u32, min: u32, max: u32) -> u8 {
    let (value, min, max) = (
        f32::from_bits(value),
        f32::from_bits(min),
        f32::from_bits(max),
    );
    ((value - min) * 255.0 / (max - min))
        .clamp(0.0, 255.0)
        .round() as u8
}

fn place(code: u8, min: u32, max: u32) -> u32 {
    let (min, max) = (f32::from_bits(min), f32::from_bits(max));
    (min + code as f32 * (max - min) / 255.0).to_bits()
}

fn sum(a: u32, b: u32) -> u32 {
    (f32::from_bits(a) + f32::from_bits(b)).to_bits()
}

fn squared(a: &[f32], b: &[f32]) -> f32 {
    a.iter().zip(b).map(|(a, b)| (a - b) * (a - b)).sum()
}

fn distance_of<'a>(
    rows: &'a [f32],
    centroids: &'a [f32],
    d: usize,
) -> impl Fn(usize, usize) -> u32 + 'a {
    move |row, c| {
        squared(&rows[row * d..(row + 1) * d], &centroids[c * d..(c + 1) * d]).to_bits()
    }
}

fn assign(data: &[f32], n: usize, centroids: &[f32], nlist: usize, d: usize) -> Vec<usize> {
    let distance = distance_of(data, centroids, d);
    (0..n).map(|row| find_nearest(row, nlist, &distance)).collect()
}

fn train_list_sqs(index: &mut IVFSQIndex, data: &[f32], assignments: &[usize]) {
    let d = index.d;
    let centroids = floats(index.quantizer_centroids());
    let subtract = move |value: u32, list: usize, dim: usize| {
        (f32::from_bits(value) - centroids[list * d + dim]).to_bits()
    };
    index.train_list_sqs(&bits(data), assignments, &subtract);
}

fn train(index: &mut IVFSQIndex, data: &[f32], n: usize) {
    let (d, nlist) = (index.d, index.nlist);
    let mut centroids = data[..nlist * d].to_vec();
    for _ in 0..5 {
        let assignments = assign(data, n, &centroids, nlist, d);
        for c in 0..nlist {
            let rows: Vec<usize> = (0..n).filter(|&row| assignments[row] == c).collect();
            for i in 0..d {
                if !rows.is_empty() {
                    let sum: f32 = rows.iter().map(|row| data[row * d + i]).sum();
                    centroids[c * d + i] = sum / rows.len() as f32;
                }
            }
        }
    }
    index.set_quantizer_centroids(bits(&centroids));
    let assignments = assign(data, n, &centroids, nlist, d);
    train_list_sqs(index, data, &assignments);
}

fn add(index: &mut IVFSQIndex, data: &[f32], ids: &[i64], n: usize) {
    let d = index.d;
    let centroids = floats(index.quantizer_centroids());
    let assignments = assign(data, n, &centroids, index.nlist, d);
    index.add_vectors(&assignments, ids, &bits(data), &difference, &scale);
}

fn difference(a: u32, b: u32) -> u32 {
    (f32::from_bits(a) - f32::from_bits(b)).to_bits()
}

fn squared_step(sum: u32, a: u32, b: u32) -> u32 {
    let difference = f32::from_bits(a) - f32::from_bits(b);
    (f32::from_bits(sum) + difference * difference).to_bits()
}

fn product_step(sum: u32, a: u32, b: u32) -> u32 {
    (f32::from_bits(sum) + f32::from_bits(a) * f32::from_bits(b)).to_bits()
}

fn negate(value: u32) -> u32 {
    (-f32::from_bits(value)).to_bits()
}

fn root(value: u32) -> u32 {
    f32::from_bits(value).sqrt().to_bits()
}

fn cosine(product: u32, norm: u32, query_norm: u32) -> u32 {
    let length = f32::from_bits(query_norm) * f32::from_bits(norm).sqrt();
    (1.0 - f32::from_bits(product) / length).to_bits()
}

fn search_with_filter(
    index: &IVFSQIndex,
    queries: &[f32],
    nq: usize,
    k: usize,
    nprobe: usize,
    filter: Option<&HashSet<i64>>,
) -> Option<(Vec<i64>, Vec<f32>)> {
    let centroids = floats(index.quantizer_centroids());
    let distance = distance_of(queries, &centroids, index.d);
    let probes: Vec<Vec<usize>> = (0..nq)
        .map(|q| find_topk(q, index.nlist, nprobe, &distance).0)
        .collect();
    let kernel = DistanceKernel {
        add: sum,
        squared_step,
        product_step,
        negate,
        root,
        cosine,
    };
    let (labels, distances) =
        index.search_codes(&bits(queries), &probes, k, filter, &place, &kernel)?;
    Some((labels, floats(&distances)))
}

#[test]
fn sparse_partition_bounds_do_not_collapse_unseen_residuals() {
    let mut index = IVFSQIndex::new(2, 3, MetricType::L2);
    index.set_quantizer_centroids(bits(&[0.0, 0.0, 10.0, 10.0, 20.0, 20.0]));
    train_list_sqs(
        &mut index,
        &[-2.0, -2.0, 10.0, 10.0, 12.0, 12.0],
        &[0, 1, 1],
    );
    add(&mut index, &[0.0, 0.0, 20.0, 20.0], &[42, 43], 2);
    let (labels, distances) =
        search_with_filter(&index, &[0.0, 0.0, 20.0, 20.0], 2, 1, 3, None).unwrap();
    assert_eq!(labels, [42, 43]);
    assert!(
        distances.iter().all(|&distance| distance < 0.001),
        "{distances:?}"
    );
}

#[test]
fn ivfsq_full_scan_recalls_added_vector() {
    let d = 4;
    let nlist = 4;
    let n = 128;
    let data: Vec<f32> = (0..n)
        .flat_map(|i| {
            let cluster = (i % nlist) as f32 * 100.0;
            [
                cluster + i as f32 * 2.0,
                10.0 + i as f32,
                20.0 + i as f32,
                30.0 + i as f32,
            ]
        })
        .collect();
    let ids: Vec<i64> = (10_000..10_000 + n as i64).collect();
    let mut index = IVFSQIndex::new(d, nlist, MetricType::L2);
    train(&mut index, &data, n);
    add(&mut index, &data, &ids, n);

    let query_id = 23;
    let query = &data[query_id * d..(query_id + 1) * d];
    let (labels, distances) = search_with_filter(&index, query, 1, 5, nlist, None).unwrap();

    assert_eq!(labels[0], ids[query_id]);
    assert!(distances[0].is_finite());
    assert_eq!(index.total_vectors(), n);
}

#[test]
fn ivfsq_filter_is_applied_during_scan() {
    let data = vec![0.0, 0.0, 0.1, 0.0, 10.0, 10.0];
    let ids = vec![10, 11, 12];
    let mut index = IVFSQIndex::new(2, 1, MetricType::L2);
    train(&mut index, &data, 3);
    add(&mut index, &data, &ids, 3);
    let allowed = HashSet::from([12]);

    let (labels, _) =
        search_with_filter(&index, &[0.0, 0.0], 1, 2, 1, Some(&allowed)).unwrap();

    assert_eq!(labels, vec![12, -1]);
}

#[test]
fn vectors_are_stored_by_their_residuals() {
    let ranges = || ScalarQuantizer::with_dimension_bounds(2, bits(&[0.0; 2]), bits(&[255.0; 2]));
    let mut index = IVFSQIndex::new(2, 2, MetricType::L2);
    index.set_quantizer_centroids(bits(&[0.0, 0.0, 100.0, 100.0]));
    index.list_sqs = vec![ranges(), ranges()];
    let rows = bits(&[3.0, 4.0, 105.0, 500.0, 0.0, 1.0]);
    let codes = index.encode_vectors(&[0, 1, 0], &rows, &difference, &scale);
    assert_eq!(codes, vec![3, 4, 5, 255, 0, 1]);
    index.add_vectors(&[0, 1, 0], &[7, 9, 8], &rows, &difference, &scale);
    assert_eq!(index.ids, vec![vec![7, 8], vec![9]]);
    assert_eq!(index.codes, vec![vec![3, 4, 0, 1], vec![5, 255]]);
}

#[test]
fn distances_are_those_of_the_stored_codes() {
    let ranges = || ScalarQuantizer::with_dimension_bounds(2, bits(&[0.0; 2]), bits(&[255.0; 2]));
    let mut index = IVFSQIndex::new(2, 2, MetricType::L2);
    index.set_quantizer_centroids(bits(&[0.0, 0.0, 100.0, 100.0]));
    index.list_sqs = vec![ranges(), ranges()];
    index.add(&[0, 0, 1], &[7, 8, 9], &[3, 4, 0, 1, 5, 5]);
    // The rows are (3, 4), (0, 1) and, moved by its centroid, (105, 105).
    let found = search_with_filter(&index, &[0.0, 0.0], 1, 4, 2, None).unwrap();
    assert_eq!(found.0, vec![8, 7, 9, -1]);
    assert_eq!(found.1, vec![1.0, 25.0, 22050.0, f32::MAX]);
    index.metric = MetricType::InnerProduct;
    let found = search_with_filter(&index, &[1.0, 2.0], 1, 3, 2, None).unwrap();
    assert_eq!(found, (vec![9, 7, 8], vec![-315.0, -11.0, -2.0]));
    index.metric = MetricType::Cosine;
    let found = search_with_filter(&index, &[3.0, 4.0], 1, 1, 2, None).unwrap();
    assert_eq!(found, (vec![7], vec![0.0]));
    // A row of zeros has no direction: its distance is no number.
    index.codes[0] = vec![3, 4, 0, 0];
    assert_eq!(search_with_filter(&index, &[3.0, 4.0], 1, 1, 2, None), None);
    let allowed = HashSet::from([7, 9]);
    let found = search_with_filter(&index, &[3.0, 4.0], 1, 1, 2, Some(&allowed)).unwrap();
    assert_eq!(found, (vec![7], vec![0.0]));
}

#[test]
fn searches_take_distances_that_are_handed_in() {
    let mut index = IVFSQIndex::new(1, 1, MetricType::L2);
    index.set_quantizer_centroids(bits(&[0.0]));
    index.add(&[0, 0], &[7, 8], &[3, 4]);
    let distances = vec![vec![bits(&[9.0, 16.0])]];
    let (labels, _) = index.search(&vec![vec![0]], &distances, 2);
    assert_eq!(labels, vec![7, 8]);
    let allowed = HashSet::from([8]);
    let distances = vec![vec![bits(&[f32::NAN, 16.0])]];
    let found = index.search_with_filter(&vec![vec![0]], &distances, 1, Some(&allowed));
    assert_eq!(found, (vec![8], bits(&[16.0])));
}

#[test]
fn ivfsq_parallel_incremental_add_keeps_ids_aligned_with_codes() {
    let d = 8;
    let nlist = 8;
    let n = 2_048;
    let data = (0..n)
        .flat_map(|row| {
            (0..d).map(move |dimension| {
                (row % nlist) as f32 * 100.0 + row as f32 * 0.003 + dimension as f32 * 0.07
            })
        })
        .collect::<Vec<_>>();
    let ids = (10_000..10_000 + n as i64).collect::<Vec<_>>();
    let mut index = IVFSQIndex::new(d, nlist, MetricType::L2);
    train(&mut index, &data, n);
    add(&mut index, &data[..1_024 * d], &ids[..1_024], 1_024);
    add(&mut index, &data[1_024 * d..], &ids[1_024..], 1_024);

    for list_id in 0..nlist {
        let centroid = floats(index.list_centroid(list_id));
        for (position, &row_id) in index.ids[list_id].iter().enumerate() {
            let row = (row_id - 10_000) as usize;
            let residual: Vec<f32> = (0..d)
                .map(|i| data[row * d + i] - centroid[i])
                .collect();
            let expected_code = index.list_sq(list_id).encode(&bits(&residual), &scale);
            assert_eq!(
                &index.codes[list_id][position * d..(position + 1) * d],
                expected_code,
                "row ID {row_id} was paired with another row's code"
            );
        }
    }
}

#[test]
fn training_without_rows_gives_zero_ranges() {
    let mut index = IVFSQIndex::new(2, 2, MetricType::Cosine);
    index.set_approximate_coarse_assignment(true);
    index.set_quantizer_centroids(bits(&[0.0; 4]));
    assert_eq!((index.sq.min, index.sq.max), (0, 0));
    train_list_sqs(&mut index, &[], &[]);
    assert_eq!((index.sq.min, index.sq.max), (0, 0));
    assert_eq!(index.sq.mins, vec![0, 0]);
    assert_eq!(index.list_sqs.len(), 2);
    assert_eq!(index.list_sq(9).maxs, vec![0, 0]);
    assert_eq!(index.code_size(), 2);
}
