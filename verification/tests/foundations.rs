use paimon_vindex_core::arith::{
    larger, quotient_up, saturating_product, saturating_rest, saturating_total, smaller,
};
use paimon_vindex_core::bitops::{test_bit, with_bit};
use paimon_vindex_core::blocks::{block_list, factor_value, read_block_factor};
use paimon_vindex_core::bytes::{
    push_i32, push_i64, push_u32, push_u64, push_words, read_i32, read_i64, read_u32, read_u64,
    read_words,
};
use paimon_vindex_core::cluster_heap::{Cluster, ClusterHeap};
use paimon_vindex_core::distance::equal_numbers;
use paimon_vindex_core::filter::{decode_roaring_filter, is_row_allowed, RowIdFilter};
use paimon_vindex_core::lists::{
    append_rows, append_to_lists, empty_lists, gather_rows, group_rows, total_rows,
};
use paimon_vindex_core::matching::{matching_rows, MatchingRows};
use paimon_vindex_core::order::{
    float_is_finite, float_is_nan, float_key, float_less, float_max, float_min,
    float_of_total_key, float_total_key, sort_pairs, stable_order,
};
use paimon_vindex_core::plan::{
    list_positions, query_seeds, sort_by_offset, unique_lists, validate_batch_seed, SearchError,
};
use paimon_vindex_core::rq::{RQCodeFactors, RQVectorFactors};
use paimon_vindex_core::sampling::{random_rows, sample_rows, subsample};
use paimon_vindex_core::scan::{assemble_results, collect_rows, offer_all};
use paimon_vindex_core::table_reuse::count_matching_probes;
use paimon_vindex_core::topk::{sort_neighbors, TopKHeap};
use rand::rngs::StdRng;
use rand::SeedableRng;
use roaring::RoaringTreemap;
use std::collections::HashSet;

#[test]
fn integers_saturate_at_the_limits() {
    assert_eq!(saturating_product(3, 4), 12);
    assert_eq!(saturating_product(usize::MAX, 2), usize::MAX);
    assert_eq!(saturating_total(usize::MAX, 1), usize::MAX);
    assert_eq!(saturating_rest(3, 4), 0);
    assert_eq!(saturating_rest(4, 3), 1);
    assert_eq!(quotient_up(9, 4), 3);
    assert_eq!(quotient_up(8, 4), 2);
    assert_eq!((smaller(2, 3), larger(2, 3)), (2, 3));
}

#[test]
fn bits_of_bytes_are_set_one_by_one() {
    let byte = with_bit(with_bit(0, 0), 7);
    assert_eq!(byte, 0x81);
    assert_eq!((0..8).filter(|&i| test_bit(byte, i)).collect::<Vec<_>>(), vec![0, 7]);
}

#[test]
fn numbers_round_trip_through_bytes() {
    let mut out = Vec::new();
    push_u32(&mut out, 0x0102_0304);
    push_u64(&mut out, 0x0102_0304_0506_0708);
    push_i32(&mut out, -2);
    push_i64(&mut out, i64::MIN);
    assert_eq!(out[..4], [4, 3, 2, 1]);
    assert_eq!(out[4..12], [8, 7, 6, 5, 4, 3, 2, 1]);
    assert_eq!(read_u32(&out, 0), 0x0102_0304);
    assert_eq!(read_u64(&out, 4), 0x0102_0304_0506_0708);
    assert_eq!(read_i32(&out, 12), -2);
    assert_eq!(read_i64(&out, 16), i64::MIN);
    let mut words = Vec::new();
    push_words(&mut words, &[1, 0xFF00_0000]);
    assert_eq!(words, vec![1, 0, 0, 0, 0, 0, 0, 0xFF]);
    assert_eq!(read_words(&words), Some(vec![1, 0xFF00_0000]));
    assert_eq!(read_words(&words[..7]), None);
}

#[test]
fn patterns_are_ordered_as_their_numbers() {
    let values = [
        f32::NEG_INFINITY,
        -2.5,
        -f32::MIN_POSITIVE,
        -0.0,
        0.0,
        1.0e-40,
        1.0,
        f32::MAX,
        f32::INFINITY,
    ];
    for a in values {
        for b in values {
            let (x, y) = (a.to_bits(), b.to_bits());
            assert_eq!(float_less(x, y), a < b);
            assert_eq!(float_total_key(x) < float_total_key(y), a.total_cmp(&b).is_lt());
            assert_eq!(float_key(x) == float_key(y), a == b);
            assert_eq!(f32::from_bits(float_min(x, y)), a.min(b));
            assert_eq!(f32::from_bits(float_max(x, y)), a.max(b));
        }
        assert_eq!(float_is_finite(a.to_bits()), a.is_finite());
        assert_eq!(float_of_total_key(float_total_key(a.to_bits())), a.to_bits());
    }
    let nan = f32::NAN.to_bits();
    assert!(float_is_nan(nan));
    assert!(!float_less(nan, 0) && !float_less(0, nan));
    assert_eq!(float_min(nan, 7), 7);
    assert!(equal_numbers(&[0], &[0x8000_0000]));
    assert!(!equal_numbers(&[nan], &[nan]));
    assert!(!equal_numbers(&[1, 2], &[1]));
}

#[test]
fn sorting_keeps_the_order_of_equal_keys() {
    assert_eq!(stable_order(&[5, -1, 5, -1, 0]), vec![1, 3, 4, 0, 2]);
    let pairs = [(2i64, 0usize), (1, 5), (1, 4)];
    assert_eq!(sort_pairs(&pairs), vec![(1, 4), (1, 5), (2, 0)]);
    let items = vec![(2.0f32.to_bits(), 1i64), (1.0f32.to_bits(), 2), (2.0f32.to_bits(), 3)];
    let ids: Vec<i64> = sort_neighbors(&items).iter().map(|item| item.1).collect();
    assert_eq!(ids, vec![2, 1, 3]);
}

#[test]
fn heaps_keep_the_nearest_rows() {
    let mut heap = TopKHeap::new(2);
    assert_eq!(heap.worst_distance(), None);
    assert!(heap.should_consider(f32::MAX.to_bits()));
    offer_all(&mut heap, &[(3.0f32.to_bits(), 30), (1.0f32.to_bits(), 10)]);
    assert_eq!(heap.worst_distance(), Some(3.0f32.to_bits()));
    assert!(!heap.should_consider(3.0f32.to_bits()));
    heap.push(2.0f32.to_bits(), 20);
    heap.push(9.0f32.to_bits(), 90);
    // A full heap does not take a NaN in.
    heap.push(f32::NAN.to_bits(), 99);
    assert_eq!(
        heap.into_sorted(),
        vec![(1.0f32.to_bits(), 10), (2.0f32.to_bits(), 20)]
    );
    let mut limited = TopKHeap::with_max_distance(3, 2.0f32.to_bits());
    limited.push(2.5f32.to_bits(), 1);
    limited.push(1.5f32.to_bits(), 2);
    assert_eq!(limited.into_sorted(), vec![(1.5f32.to_bits(), 2)]);
    let mut none = TopKHeap::new(0);
    none.push(0, 1);
    assert_eq!(none.len(), 0);
}

#[test]
fn results_are_padded() {
    let rows = MatchingRows::Sparse(vec![0, 2]);
    let items = collect_rows(&[7, 8, 9], &[1, 2, 3], Some(&rows));
    assert_eq!(items, vec![(1, 7), (3, 9)]);
    let (ids, distances) = assemble_results(&vec![items, Vec::new()], 3);
    assert_eq!(ids, vec![7, 9, -1, -1, -1, -1]);
    let padding = f32::MAX.to_bits();
    assert_eq!(distances, vec![1, 3, padding, padding, padding, padding]);
}

#[test]
fn rows_are_grouped_by_list() {
    assert_eq!(group_rows(&[1, 0, 1, 2, 1], 4), vec![vec![1], vec![0, 2, 4], vec![3], vec![]]);
    let source = [10, 11, 20, 21, 30, 31];
    assert_eq!(gather_rows(&source, &[2, 0], 2), vec![30, 31, 10, 11]);
    let mut target = vec![1];
    append_rows(&mut target, &source, &[1], 2);
    assert_eq!(target, vec![1, 20, 21]);
    let mut lists: Vec<Vec<i32>> = empty_lists(2);
    append_to_lists(&mut lists, &source, &vec![vec![2], vec![0, 1]], 2);
    assert_eq!(lists, vec![vec![30, 31], vec![10, 11, 20, 21]]);
    assert_eq!(total_rows(&vec![vec![1, 2], vec![], vec![3]]), 3);
}

#[test]
fn lists_are_planned_once_and_by_place() {
    let probes = vec![vec![3, 1, 0], vec![3, 2, 1]];
    let counts = [4, 0, 2, 1];
    assert_eq!(unique_lists(&probes, 0, &counts, true), vec![3, 0, 2]);
    assert_eq!(unique_lists(&probes, 0, &counts, false), vec![3, 1, 0, 2]);
    assert_eq!(unique_lists(&probes, 1, &counts, true), vec![0, 2]);
    assert_eq!(sort_by_offset(&vec![3, 0, 2], &[50, 0, 10, 30]), vec![2, 3, 0]);
    let positions = list_positions(&[2, 0], 4);
    assert_eq!(positions, vec![1, usize::MAX, 0, usize::MAX]);
    let rows = vec![Some(MatchingRows::Sparse(vec![5])), None];
    assert_eq!(count_matching_probes(&probes, 0, &positions, &rows), (2, 2));
    assert_eq!(count_matching_probes(&probes, 2, &positions, &rows), (1, 1));
}

#[test]
fn seeds_cover_every_place_or_none() {
    assert!(validate_batch_seed(&[], &[], 2, 3).is_ok());
    assert_eq!(
        validate_batch_seed(&[1], &[1], 2, 3),
        Err(SearchError::SeedLengthMismatch)
    );
    assert_eq!(
        validate_batch_seed(&[], &[], usize::MAX, 3),
        Err(SearchError::SeedLengthOverflow)
    );
    let absent = f32::MAX.to_bits();
    assert_eq!(query_seeds(&[1, 2, 3, -1], &[5, 6, 7, absent], 1, 2), vec![(7, 3)]);
    assert_eq!(query_seeds(&[], &[], 1, 2), vec![]);
}

#[test]
fn filters_agree_with_the_sets_they_come_from() {
    let mut allowed = RoaringTreemap::new();
    for id in [0u64, 5, 1 << 40, i64::MAX as u64, u64::MAX] {
        allowed.insert(id);
    }
    let mut bytes = Vec::new();
    allowed.serialize_into(&mut bytes).unwrap();
    let filter = decode_roaring_filter(&bytes).unwrap();
    for id in [0i64, 5, 1 << 40, i64::MAX] {
        assert!(RowIdFilter::contains(&filter, id));
        assert!(is_row_allowed(Some(&filter), id));
    }
    for id in [1i64, 6, -1, i64::MIN] {
        assert!(!RowIdFilter::contains(&filter, id));
    }
    assert!(is_row_allowed::<HashSet<i64>>(None, -7));
    let ids: Vec<i64> = (0..10).collect();
    let rows = matching_rows(&ids, Some(&filter)).unwrap();
    assert!(!rows.is_empty() && rows.contains(5) && !rows.contains(4));
    assert!(matching_rows::<HashSet<i64>>(&ids, None).is_none());
    assert!(decode_roaring_filter(&bytes[..bytes.len() - 1]).is_err());
    assert!(decode_roaring_filter(&[0; 8]).is_ok());
}

#[test]
fn samples_hold_distinct_rows() {
    assert_eq!(sample_rows(5, &[3, 1, 4]), vec![3, 1, 4]);
    assert_eq!(sample_rows(5, &[3, 3, 3]), vec![3, 0, 1]);
    let mut rng = StdRng::seed_from_u64(7);
    let rows = random_rows(&mut rng, 1000, 50);
    assert_eq!(rows.iter().collect::<HashSet<_>>().len(), 50);
    assert!(rows.iter().all(|&row| row < 1000));
    assert!(rows.iter().any(|&row| row >= 50));
    let data: Vec<u32> = (0..3000).collect();
    let first = subsample(&data, 1000, 3, 20, &mut StdRng::seed_from_u64(9));
    let second = subsample(&data, 1000, 3, 20, &mut StdRng::seed_from_u64(9));
    assert_eq!(first, second);
    assert!(first.chunks(3).all(|row| row[0] % 3 == 0 && row[2] == row[0] + 2));
}

fn factors(base: u32) -> RQVectorFactors {
    let of = |base: u32| RQCodeFactors {
        f_add: base,
        f_rescale: base + 1,
        f_error: base + 2,
    };
    RQVectorFactors {
        coarse: of(base),
        full: of(base + 10),
    }
}

#[test]
fn lists_are_stored_in_blocks_of_columns() {
    let rows = 33;
    let codes: Vec<u8> = (0..rows * 2).map(|i| i as u8).collect();
    let all: Vec<RQVectorFactors> = (0..rows).map(|row| factors(row as u32 * 100)).collect();
    let order: Vec<usize> = (0..rows).rev().collect();
    let (blocked, stored) = block_list(&codes, &all, &order, 2, 4);
    assert_eq!(blocked[0], 64);
    assert_eq!(blocked[1], 62);
    assert_eq!(blocked[32], 65);
    assert_eq!(blocked[64..], [0, 1]);
    assert_eq!(stored.len(), rows * 5);
    assert_eq!(factor_value(all[0], 3, 4), 10);
    let read = read_block_factor(&stored, rows, 5, 0, 0, true);
    assert_eq!((read.f_add, read.f_rescale, read.f_error), (3200, 3201, 3202));
    let read = read_block_factor(&stored, rows, 5, 32, 3, false);
    assert_eq!((read.f_add, read.f_rescale), (10, 11));
}

#[test]
fn the_largest_cluster_comes_first() {
    let mut heap = ClusterHeap::new();
    for size in [3, 9, 1, 9, 5] {
        heap.push(Cluster {
            centroid: vec![size as u32],
            rows: (0..size).collect(),
        });
    }
    assert_eq!(heap.len(), 5);
    let mut sizes = Vec::new();
    while let Some(cluster) = heap.pop() {
        sizes.push(cluster.rows.len());
    }
    assert_eq!(sizes, vec![9, 9, 5, 3, 1]);
}

#[test]
fn a_full_heap_gives_up_its_first_item() {
    let mut heap = TopKHeap::new(3);
    for id in 1..4 {
        heap.push(5.0f32.to_bits(), id);
    }
    heap.push(4.0f32.to_bits(), 4);
    let held = heap.clone().into_sorted();
    assert_eq!(held.iter().map(|item| item.1).collect::<Vec<_>>(), vec![4, 2, 3]);
    heap.push(4.0f32.to_bits(), 5);
    let held = heap.into_sorted();
    assert_eq!(held.iter().map(|item| item.1).collect::<Vec<_>>(), vec![4, 5, 3]);
}
