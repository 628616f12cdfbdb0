use paimon_vindex_core::distance::MetricType;
use paimon_vindex_core::ivfflat::{FlatTopKHeap, IVFFlatIndex};
use paimon_vindex_core::nearest::{find_nearest, find_topk};
use std::collections::HashSet;

fn bits(values: &[f32]) -> Vec<u32> {
    values.iter().map(|value| value.to_bits()).collect()
}

fn floats(values: &[u32]) -> Vec<f32> {
    values.iter().map(|&value| f32::from_bits(value)).collect()
}

fn squared(a: &[f32], b: &[f32]) -> f32 {
    a.iter().zip(b).map(|(a, b)| (a - b) * (a - b)).sum()
}

fn distance_of<'a>(
    rows: &'a [f32],
    centroids: &'a [f32],
    d: usize,
) -> impl Fn(usize, usize) -> u32 + 'a {
    move |row, c| {
        squared(&rows[row * d..(row + 1) * d], &centroids[c * d..(c + 1) * d]).to_bits()
    }
}

fn assign(data: &[f32], n: usize, centroids: &[f32], nlist: usize, d: usize) -> Vec<usize> {
    let distance = distance_of(data, centroids, d);
    (0..n).map(|row| find_nearest(row, nlist, &distance)).collect()
}

/// Moves centroids that begin at the first rows to the mean of their rows.
fn train(index: &mut IVFFlatIndex, data: &[f32], n: usize) {
    let (d, nlist) = (index.d, index.nlist);
    let mut centroids = data[..nlist * d].to_vec();
    for _ in 0..5 {
        let assignments = assign(data, n, &centroids, nlist, d);
        for c in 0..nlist {
            let rows: Vec<usize> = (0..n).filter(|&row| assignments[row] == c).collect();
            for i in 0..d {
                if !rows.is_empty() {
                    let sum: f32 = rows.iter().map(|row| data[row * d + i]).sum();
                    centroids[c * d + i] = sum / rows.len() as f32;
                }
            }
        }
    }
    index.set_quantizer_centroids(bits(&centroids));
}

fn add(index: &mut IVFFlatIndex, data: &[f32], ids: &[i64], n: usize) {
    let centroids = floats(index.quantizer_centroids());
    let assignments = assign(data, n, &centroids, index.nlist, index.d);
    index.add(&assignments, ids, &bits(data));
}

fn search_with_filter(
    index: &IVFFlatIndex,
    queries: &[f32],
    nq: usize,
    k: usize,
    nprobe: usize,
    filter: Option<&HashSet<i64>>,
) -> Option<(Vec<i64>, Vec<f32>)> {
    let centroids = floats(index.quantizer_centroids());
    let distance = distance_of(queries, &centroids, index.d);
    let probes: Vec<Vec<usize>> = (0..nq)
        .map(|q| find_topk(q, index.nlist, nprobe, &distance).0)
        .collect();
    let measure =
        |query: &[u32], vector: &[u32]| squared(&floats(query), &floats(vector)).to_bits();
    let (labels, distances) =
        index.search_vectors(&bits(queries), &probes, k, filter, &measure)?;
    Some((labels, floats(&distances)))
}

#[test]
fn test_ivfflat_add_assigns_all_vectors() {
    let d = 4;
    let nlist = 2;
    let n = 16;
    let data: Vec<f32> = (0..n)
        .flat_map(|i| [i as f32, 0.0, i as f32 + 0.5, 1.0])
        .collect();
    let ids: Vec<i64> = (0..n as i64).collect();

    let mut index = IVFFlatIndex::new(d, nlist, MetricType::L2);
    train(&mut index, &data, n);
    add(&mut index, &data, &ids, n);

    assert_eq!(index.total_vectors(), n);
    for list_id in 0..nlist {
        assert_eq!(index.vectors[list_id].len(), index.ids[list_id].len() * d);
    }
}

#[test]
fn test_ivfflat_recalls_query_vector() {
    let d = 4;
    let nlist = 4;
    let n = 64;
    let data: Vec<f32> = (0..n)
        .flat_map(|i| {
            let cluster = (i % nlist) as f32 * 100.0;
            [cluster + i as f32 * 0.01, 1.0, 2.0, 3.0]
        })
        .collect();
    let ids: Vec<i64> = (1000..1000 + n as i64).collect();

    let mut index = IVFFlatIndex::new(d, nlist, MetricType::L2);
    train(&mut index, &data, n);
    add(&mut index, &data, &ids, n);

    let query_id = 7;
    let query = &data[query_id * d..(query_id + 1) * d];
    let (labels, distances) = search_with_filter(&index, query, 1, 5, nlist, None).unwrap();

    assert_eq!(labels[0], ids[query_id]);
    assert_eq!(distances[0], 0.0);
    for i in 1..5 {
        assert!(distances[i] >= distances[i - 1]);
    }
}

#[test]
fn test_ivfflat_search_with_filter() {
    let d = 2;
    let nlist = 1;
    let data = vec![0.0, 0.0, 0.1, 0.0, 10.0, 10.0];
    let ids = vec![10, 11, 12];

    let mut index = IVFFlatIndex::new(d, nlist, MetricType::L2);
    train(&mut index, &data, 3);
    add(&mut index, &data, &ids, 3);

    let filter: HashSet<i64> = [12].into_iter().collect();
    let (labels, distances) =
        search_with_filter(&index, &[0.0, 0.0], 1, 2, 1, Some(&filter)).unwrap();

    assert_eq!(labels, vec![12, -1]);
    assert!(distances[0] > 0.0);
    assert_eq!(distances[1], f32::MAX);
}

#[test]
fn full_heaps_replace_the_last_of_the_worst() {
    let mut heap = FlatTopKHeap::new(2);
    heap.push(3.0f32.to_bits(), 1);
    heap.push(3.0f32.to_bits(), 2);
    heap.push(3.0f32.to_bits(), 3);
    heap.push(1.0f32.to_bits(), 4);
    assert_eq!(
        heap.into_sorted(),
        vec![(1.0f32.to_bits(), 4), (3.0f32.to_bits(), 1)]
    );
    let mut none = FlatTopKHeap::new(0);
    none.push(1.0f32.to_bits(), 1);
    assert!(none.into_sorted().is_empty());
}

#[test]
fn probed_lists_bound_the_answer() {
    let mut index = IVFFlatIndex::new(1, 2, MetricType::L2);
    index.set_approximate_coarse_assignment(true);
    assert!(index.approximate_assignment);
    index.set_quantizer_centroids(bits(&[0.0, 10.0]));
    add(&mut index, &[0.0, 1.0, 9.0, 10.0], &[1, 2, 3, 4], 4);
    assert_eq!(index.ids, vec![vec![1, 2], vec![3, 4]]);
    let (labels, distances) = search_with_filter(&index, &[0.0], 1, 3, 1, None).unwrap();
    assert_eq!(labels, vec![1, 2, -1]);
    assert_eq!(distances, vec![0.0, 1.0, f32::MAX]);
    let distances = vec![vec![bits(&[5.0, 4.0])]];
    let (labels, _) = index.search(&vec![vec![0]], &distances, 3);
    assert_eq!(labels, vec![2, 1, -1]);
}

#[test]
fn answers_come_from_the_stored_vectors() {
    let mut index = IVFFlatIndex::new(2, 2, MetricType::L2);
    index.set_quantizer_centroids(bits(&[0.0, 0.0, 100.0, 100.0]));
    index.add(&[0, 1, 0], &[7, 8, 9], &bits(&[3.0, 4.0, 100.0, 100.0, 0.0, 1.0]));
    let queries = [0.0, 0.0, 100.0, 101.0];
    let found = search_with_filter(&index, &queries, 2, 2, 1, None).unwrap();
    assert_eq!(found, (vec![9, 7, 8, -1], vec![1.0, 25.0, 1.0, f32::MAX]));
    index.vectors[0][0] = 0.0f32.to_bits();
    index.vectors[0][1] = 0.0f32.to_bits();
    let found = search_with_filter(&index, &queries, 2, 1, 1, None).unwrap();
    assert_eq!(found, (vec![7, 8], vec![0.0, 1.0]));
}

#[test]
fn a_nan_is_never_nearer_than_a_kept_row() {
    let mut index = IVFFlatIndex::new(1, 1, MetricType::L2);
    index.set_quantizer_centroids(bits(&[0.0]));
    index.add(&[0, 0, 0], &[1, 2, 3], &bits(&[2.0, 1.0, f32::NAN]));
    let search = |k: usize, filter: Option<&HashSet<i64>>| {
        search_with_filter(&index, &[0.0], 1, k, 1, filter)
    };
    // The heap is full before the NaN comes.
    assert_eq!(search(2, None), Some((vec![2, 1], vec![1.0, 4.0])));
    assert_eq!(search(0, None), Some((vec![], vec![])));
    // Three places take the NaN in, and it cannot be sorted.
    assert_eq!(search(3, None), None);
    let numbers = HashSet::from([1, 2]);
    assert_eq!(search(3, Some(&numbers)).unwrap().0, vec![2, 1, -1]);
    // Alone it needs no comparison.
    let alone = HashSet::from([3]);
    let (labels, distances) = search(2, Some(&alone)).unwrap();
    assert_eq!(labels, vec![3, -1]);
    assert!(distances[0].is_nan());
    let mut single = FlatTopKHeap::new(1);
    single.push(f32::NAN.to_bits(), 5);
    single.push(1.0f32.to_bits(), 6);
    assert_eq!(single.into_sorted(), vec![(f32::NAN.to_bits(), 5)]);
    let distances = vec![vec![bits(&[2.0, 1.0, f32::NAN])]];
    let (labels, _) = index.search(&vec![vec![0]], &distances, 2);
    assert_eq!(labels, vec![2, 1]);
    let (labels, _) = index.search_with_filter(&vec![vec![0]], &distances, 9, Some(&numbers));
    assert_eq!(labels[..3], [2, 1, -1]);
}
