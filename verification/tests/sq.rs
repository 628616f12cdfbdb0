use paimon_vindex_core::distance::MetricType;
use paimon_vindex_core::order::{float_less, INFINITE_DISTANCE, NEGATIVE_INFINITY};
use paimon_vindex_core::sq::{blocked_distances, pooled_bounds, row_extrema, ScalarQuantizer};
use paimon_vindex_core::sq_blocks::{BlockStep, BlockedCodes};
use paimon_vindex_core::sq_distance::{DistanceContext, DistanceKernel};

fn bits(values: &[f32]) -> Vec<u32> {
    values.iter().map(|value| value.to_bits()).collect()
}

fn floats(values: &[u32]) -> Vec<f32> {
    values.iter().map(|&value| f32::from_bits(value)).collect()
}

fn scale(value: u32, min: u32, max: u32) -> u8 {
    let (value, min, max) = (
        f32::from_bits(value),
        f32::from_bits(min),
        f32::from_bits(max),
    );
    ((value - min) * 255.0 / (max - min))
        .clamp(0.0, 255.0)
        .round() as u8
}

fn place(code: u8, min: u32, max: u32) -> u32 {
    let (min, max) = (f32::from_bits(min), f32::from_bits(max));
    (min + code as f32 * (max - min) / 255.0).to_bits()
}

fn sum(a: u32, b: u32) -> u32 {
    (f32::from_bits(a) + f32::from_bits(b)).to_bits()
}

fn with_dimension_bounds(d: usize, mins: Vec<f32>, maxs: Vec<f32>) -> ScalarQuantizer {
    ScalarQuantizer::with_dimension_bounds(d, bits(&mins), bits(&maxs))
}

fn trained(data: &[f32], n: usize, d: usize) -> ScalarQuantizer {
    let mut sq = ScalarQuantizer::new(d);
    sq.train(&bits(data), n);
    sq
}

fn encode_batch(sq: &ScalarQuantizer, data: &[f32], n: usize) -> Vec<u8> {
    sq.encode_batch(&bits(data), n, &scale)
}

fn decode_batch(sq: &ScalarQuantizer, codes: &[u8], n: usize) -> Vec<f32> {
    floats(&sq.decode_batch(codes, n, &place))
}

fn decode_value(sq: &ScalarQuantizer, code: u8, dim: usize) -> f32 {
    f32::from_bits(sq.decode_value(code, dim, &place))
}

fn block_step(step: BlockStep) -> u32 {
    let f = f32::from_bits;
    let result = match step {
        BlockStep::Bias { query, offset, min } => f(query) - f(offset) - f(min),
        BlockStep::Base { offset, min } => f(offset) + f(min),
        BlockStep::Width { min, max } => (f(max) - f(min)) * (1.0 / 255.0),
        BlockStep::Square {
            sum,
            bias,
            code,
            width,
        } => {
            let difference = f(bias) - code as f32 * f(width);
            f(sum) + difference * difference
        }
        BlockStep::Decode { base, code, width } => f(base) + code as f32 * f(width),
        BlockStep::Product { sum, a, b } => f(sum) + f(a) * f(b),
        BlockStep::Negate { value } => -f(value),
        BlockStep::Root { value } => f(value).sqrt(),
        BlockStep::Cosine {
            product,
            norm,
            query_norm,
        } => {
            let denominator = f(query_norm) * f(norm).sqrt();
            if denominator > 0.0 {
                1.0 - f(product) / denominator
            } else {
                1.0
            }
        }
    };
    result.to_bits()
}

/// Distances to codes stored column by column in blocks.
fn blocked(
    sq: &ScalarQuantizer,
    query: &[f32],
    codes: &[u8],
    count: usize,
    offset: &[f32],
    metric: MetricType,
    block_size: usize,
    cutoff: f32,
) -> Vec<f32> {
    let blocks = BlockedCodes {
        codes,
        count,
        block_size,
    };
    floats(&sq.distances_to_blocked_codes_with_offset(
        &bits(query),
        &bits(offset),
        &blocks,
        metric,
        cutoff.to_bits(),
        &block_step,
    ))
}

/// Squared distances to codes stored column by column in blocks.
fn blocked_l2(
    sq: &ScalarQuantizer,
    query: &[f32],
    codes: &[u8],
    count: usize,
    offset: &[f32],
    block_size: usize,
    cutoff: f32,
) -> Vec<f32> {
    blocked(sq, query, codes, count, offset, MetricType::L2, block_size, cutoff)
}

fn distance_with_offset(
    sq: &ScalarQuantizer,
    query: &[f32],
    code: &[u8],
    offset: &[f32],
    l2: bool,
) -> f32 {
    let mut sum = 0.0;
    for dim in 0..sq.d {
        let decoded = offset[dim] + decode_value(sq, code[dim], dim);
        if l2 {
            let difference = query[dim] - decoded;
            sum += difference * difference;
        } else {
            sum += query[dim] * decoded;
        }
    }
    sum
}

#[test]
fn residual_encoder_matches_separate_subtraction_and_encoding() {
    for d in [1, 3, 4, 7, 8, 15, 16, 17, 31, 32, 37, 128] {
        let mins = (0..d)
            .map(|j| if j % 5 == 0 { 7.0 } else { -2.0 })
            .collect::<Vec<f32>>();
        let maxs = (0..d)
            .map(|j| if j % 5 == 0 { 7.0 } else { 253.0 })
            .collect::<Vec<f32>>();
        let sq = with_dimension_bounds(d, mins, maxs);
        let offset = (0..d).map(|j| j as f32 * 0.25 - 4.0).collect::<Vec<_>>();
        let levels = [-10.0, -2.0, -1.5, 0.5, 127.5, 252.5, 253.0, 260.0];
        let data = (0..levels.len() * d)
            .map(|i| levels[(i / d + i % d) % levels.len()] + offset[i % d])
            .collect::<Vec<f32>>();
        let rows = [7, 0, 3, 2, 3, 6, 1, 5, 4];
        let subtract =
            |value: u32, dim: usize| (f32::from_bits(value) - offset[dim]).to_bits();
        let actual = sq.encode_residual_rows(&bits(&data), &rows, &subtract, &scale);
        let mut expected = Vec::new();
        for &row in rows.iter() {
            let residual = (0..d)
                .map(|j| data[row * d + j] - offset[j])
                .collect::<Vec<_>>();
            expected.extend(sq.encode(&bits(&residual), &scale));
        }
        assert_eq!(actual, expected, "dimension {d}");
    }
}

#[test]
fn residual_extrema_match_materialized_residuals() {
    let d = 37;
    let data = (0..19 * d)
        .map(|i| ((i * 17 % 131) as f32 - 65.0) * 0.031)
        .collect::<Vec<_>>();
    let offset = (0..d).map(|j| j as f32 * 0.17 - 1.0).collect::<Vec<_>>();
    let rows = [18, 1, 3, 7, 0, 1];
    let subtract =
        |value: u32, _: usize, dim: usize| (f32::from_bits(value) - offset[dim]).to_bits();
    let actual = ScalarQuantizer::train_residual_rows(&bits(&data), &rows, d, 0, &subtract);
    let residuals = rows
        .iter()
        .flat_map(|&row| {
            (0..d)
                .map(|j| data[row * d + j] - offset[j])
                .collect::<Vec<_>>()
        })
        .collect::<Vec<_>>();
    let expected = trained(&residuals, rows.len(), d);
    assert_eq!(actual.mins, expected.mins);
    assert_eq!(actual.maxs, expected.maxs);
}

#[test]
fn blocked_l2_cutoff_preserves_every_competitive_distance() {
    for d in [1, 31, 32, 33, 64, 65, 128] {
        for count in [1, 31, 32, 33, 63, 64, 65, 97] {
            for block_size in [7, 32] {
                let sq =
                    ScalarQuantizer::with_bounds(d, 0.0f32.to_bits(), 255.0f32.to_bits());
                let query = vec![0.0; d];
                let mut codes = Vec::new();
                for start in (0..count).step_by(block_size) {
                    let len = (count - start).min(block_size);
                    for dim in 0..d {
                        for lane in 0..len {
                            codes.push(if start < 32 {
                                20
                            } else if lane == 0 {
                                if dim + 1 == d {
                                    10
                                } else {
                                    0
                                }
                            } else {
                                1
                            });
                        }
                    }
                }
                let exact = blocked_l2(
                    &sq,
                    &query,
                    &codes,
                    count,
                    &query,
                    block_size,
                    f32::INFINITY,
                );
                for cutoff in [0.0, 50.0, 100.0, 1000.0, f32::INFINITY] {
                    let actual =
                        blocked_l2(&sq, &query, &codes, count, &query, block_size, cutoff);
                    for (&full, &pruned) in exact.iter().zip(&actual) {
                        if full < cutoff {
                            assert_eq!(pruned, full);
                        } else {
                            assert!(
                                pruned >= cutoff,
                                "unsafe cutoff d={d}, count={count}, block={block_size}"
                            );
                        }
                    }
                }
            }
        }
    }
}

#[test]
fn test_scalar_quantizer_round_trips_bounds() {
    let data = vec![-1.0, 0.0, 1.0, 3.0];
    let sq = trained(&data, 2, 2);
    let codes = encode_batch(&sq, &data, 2);
    let decoded = decode_batch(&sq, &codes, 2);

    assert_eq!(f32::from_bits(sq.min), -1.0);
    assert_eq!(f32::from_bits(sq.max), 3.0);
    assert_eq!(floats(&sq.mins), vec![-1.0, 0.0]);
    assert_eq!(floats(&sq.maxs), vec![1.0, 3.0]);
    assert_eq!(codes[0], 0);
    assert_eq!(codes[3], 255);
    assert!((decoded[0] + 1.0).abs() < 1e-6);
    assert!((decoded[3] - 3.0).abs() < 1e-6);
}

#[test]
fn test_scalar_quantizer_constant_input() {
    let data = vec![5.0, 5.0, 5.0, 5.0];
    let sq = trained(&data, 2, 2);
    let codes = encode_batch(&sq, &data, 2);
    let decoded = decode_batch(&sq, &codes, 2);

    assert_eq!(codes, vec![0, 0, 0, 0]);
    assert_eq!(decoded, data);
}

#[test]
fn test_scalar_quantizer_uses_per_dimension_bounds() {
    let data = vec![0.0, -100.0, 1.0, 100.0];
    let sq = trained(&data, 2, 2);
    let codes = encode_batch(&sq, &data, 2);
    let decoded = decode_batch(&sq, &codes, 2);

    assert_eq!(codes, vec![0, 0, 255, 255]);
    assert!((decoded[0] - 0.0).abs() < 1e-6);
    assert!((decoded[1] + 100.0).abs() < 1e-6);
    assert!((decoded[2] - 1.0).abs() < 1e-6);
    assert!((decoded[3] - 100.0).abs() < 1e-6);
}

#[test]
fn test_scalar_quantizer_wide_batch_paths() {
    let d = 9;
    let n = 5;
    let data: Vec<f32> = (0..n * d)
        .map(|i| ((i * 7 % 23) as f32) * 0.5 - 3.0)
        .collect();
    let sq = trained(&data, n, d);

    for dim in 0..d {
        let expected_min = (0..n)
            .map(|row| data[row * d + dim])
            .fold(f32::INFINITY, f32::min);
        let expected_max = (0..n)
            .map(|row| data[row * d + dim])
            .fold(f32::NEG_INFINITY, f32::max);
        assert_eq!(f32::from_bits(sq.mins[dim]), expected_min);
        assert_eq!(f32::from_bits(sq.maxs[dim]), expected_max);
    }

    let codes = encode_batch(&sq, &data, n);
    let offset: Vec<f32> = (0..d).map(|dim| dim as f32 * 0.25).collect();
    let decoded =
        floats(&sq.decode_batch_with_offset(&codes, n, &bits(&offset), &place, &sum));

    for row in 0..n {
        for dim in 0..d {
            let expected = decode_value(&sq, codes[row * d + dim], dim) + offset[dim];
            assert!((decoded[row * d + dim] - expected).abs() < 1e-6);
        }
    }
}

#[test]
fn test_scalar_quantizer_distance_to_code() {
    let sq = ScalarQuantizer::with_bounds(2, 0.0f32.to_bits(), 1.0f32.to_bits());
    let code = sq.encode(&bits(&[1.0, 0.0]), &scale);
    let dist = f32::from_bits(sq.distance_to_code(
        &bits(&[1.0, 0.0]),
        &code,
        MetricType::L2,
        &place,
        &kernel(),
    ));

    assert!(dist < 1e-6);
}

fn product_step(sum: u32, a: u32, b: u32) -> u32 {
    (f32::from_bits(sum) + f32::from_bits(a) * f32::from_bits(b)).to_bits()
}

fn root(value: u32) -> u32 {
    f32::from_bits(value).sqrt().to_bits()
}

fn kernel() -> DistanceKernel<
    impl Fn(u32, u32) -> u32,
    impl Fn(u32, u32, u32) -> u32,
    impl Fn(u32, u32, u32) -> u32,
    impl Fn(u32) -> u32,
    impl Fn(u32) -> u32,
    impl Fn(u32, u32, u32) -> u32,
> {
    DistanceKernel {
        add: sum,
        squared_step: |sum: u32, a: u32, b: u32| {
            let difference = f32::from_bits(a) - f32::from_bits(b);
            (f32::from_bits(sum) + difference * difference).to_bits()
        },
        product_step,
        negate: |value: u32| (-f32::from_bits(value)).to_bits(),
        root,
        cosine: |product: u32, norm: u32, query_norm: u32| {
            let denominator = f32::from_bits(query_norm) * f32::from_bits(norm).sqrt();
            let distance = if denominator > 0.0 {
                1.0 - f32::from_bits(product) / denominator
            } else {
                1.0
            };
            distance.to_bits()
        },
    }
}

#[test]
fn scalar_quantizer_simd_distance_matches_scalar_tail_path() {
    let d = 37;
    let query = (0..d)
        .map(|dimension| dimension as f32 * 0.13 - 1.0)
        .collect::<Vec<_>>();
    let codes = (0..d)
        .map(|dimension| ((dimension * 29 + 7) % 256) as u8)
        .collect::<Vec<_>>();
    let mins = (0..d)
        .map(|dimension| -3.0 + dimension as f32 * 0.01)
        .collect::<Vec<_>>();
    let maxs = (0..d)
        .map(|dimension| 4.0 + dimension as f32 * 0.02)
        .collect::<Vec<_>>();
    let offset = (0..d)
        .map(|dimension| dimension as f32 * -0.03)
        .collect::<Vec<_>>();
    let sq = with_dimension_bounds(d, mins, maxs);

    for l2 in [true, false] {
        let expected = distance_with_offset(&sq, &query, &codes, &offset, l2);
        let metric = if l2 { MetricType::L2 } else { MetricType::InnerProduct };
        let context = sq.distance_context(&bits(&query), metric, &product_step, &root);
        let distance = f32::from_bits(sq.distance_to_code_with_offset_with_context(
            &bits(&query),
            &codes,
            Some(&bits(&offset)),
            context,
            &place,
            &kernel(),
        ));
        let actual = if l2 { distance } else { -distance };
        assert!(
            (actual - expected).abs() <= expected.abs().max(1.0) * 2e-6,
            "SIMD={actual}, scalar={expected}"
        );
    }
}

#[test]
fn looked_up_values_measure_the_same_distances() {
    let sq = with_dimension_bounds(3, vec![-1.0, 0.0, 2.0], vec![1.0, 4.0, 2.0]);
    let lut = sq.build_decode_lut(&place);
    let query = bits(&[0.5, 1.0, -2.0]);
    let offset = bits(&[0.25, -0.5, 1.0]);
    let codes = [255u8, 128, 9];
    for metric in [MetricType::L2, MetricType::InnerProduct, MetricType::Cosine] {
        let context = DistanceContext::new(&query, metric, &product_step, &root);
        for offset in [None, Some(offset.as_slice())] {
            let direct = sq.distance_to_code_with_offset_with_context(
                &query, &codes, offset, context, &place, &kernel(),
            );
            let looked_up = sq.distance_to_code_with_lut_offset_with_context(
                &query, &codes, offset, &lut, context, &kernel(),
            );
            assert_eq!(direct, looked_up);
        }
        assert_eq!(
            sq.distance_to_code_with_context(&query, &codes, context, &place, &kernel()),
            sq.distance_to_code_with_lut_with_context(&query, &codes, &lut, context, &kernel())
        );
    }
    let unit = with_dimension_bounds(2, vec![0.0, 0.0], vec![1.0, 1.0]);
    let distance = |query: &[f32], codes: &[u8], metric: MetricType| {
        f32::from_bits(unit.distance_to_code(&bits(query), codes, metric, &place, &kernel()))
    };
    assert_eq!(distance(&[3.0, 1.0], &[255, 0], MetricType::L2), 5.0);
    assert_eq!(distance(&[3.0, 1.0], &[255, 0], MetricType::InnerProduct), -3.0);
    assert_eq!(distance(&[0.0, 2.0], &[255, 0], MetricType::Cosine), 1.0);
    assert_eq!(distance(&[4.0, 0.0], &[255, 0], MetricType::Cosine), 0.0);
    assert_eq!(distance(&[4.0, 0.0], &[0, 0], MetricType::Cosine), 1.0);
}

#[test]
fn test_scalar_quantizer_decode_batch_with_offset() {
    let sq = with_dimension_bounds(2, vec![0.0, -1.0], vec![1.0, 1.0]);
    let codes = vec![255, 0, 0, 255];
    let decoded =
        floats(&sq.decode_batch_with_offset(&codes, 2, &bits(&[10.0, 20.0]), &place, &sum));

    assert!((decoded[0] - 11.0).abs() < 1e-6);
    assert!((decoded[1] - 19.0).abs() < 1e-6);
    assert!((decoded[2] - 10.0).abs() < 1e-6);
    assert!((decoded[3] - 21.0).abs() < 1e-6);
}

#[test]
fn decode_table_holds_every_value() {
    let sq = with_dimension_bounds(2, vec![0.0, 3.0], vec![1.0, 3.0]);
    let lut = sq.build_decode_lut(&place);
    assert_eq!(lut.dimension(), 2);
    for dim in 0..2 {
        for code in 0..=255u8 {
            assert_eq!(
                lut.decode_value(code, dim),
                sq.decode_value(code, dim, &place)
            );
        }
    }
    assert_eq!(f32::from_bits(lut.decode_value(255, 0)), 1.0);
    assert_eq!(f32::from_bits(lut.decode_value(77, 1)), 3.0);
    assert_eq!(floats(&sq.decode(&[255, 9], &place)), vec![1.0, 3.0]);
}

#[test]
fn training_without_rows_clears_the_bounds() {
    let mut sq = with_dimension_bounds(2, vec![1.0, 2.0], vec![3.0, 4.0]);
    assert_eq!(f32::from_bits(sq.min), 1.0);
    assert_eq!(f32::from_bits(sq.max), 4.0);
    let copy = sq.duplicate();
    sq.train(&[], 0);
    assert_eq!((sq.min, sq.max), (0, 0));
    assert_eq!(sq.mins, vec![0, 0]);
    assert_eq!(copy.mins, bits(&[1.0, 2.0]));
    assert_eq!(copy.code_size(), 2);
}

#[test]
fn extrema_cover_every_chosen_row_and_skip_nan() {
    let data = bits(&[1.0, f32::NAN, -5.0, 2.0, 9.0, 9.0]);
    let (mins, maxs) = row_extrema(&data, &[0, 1], 2);
    assert_eq!(floats(&mins), vec![-5.0, 2.0]);
    assert_eq!(floats(&maxs), vec![1.0, 2.0]);
    let (mins, maxs) = row_extrema(&data, &[], 2);
    assert_eq!(mins, vec![INFINITE_DISTANCE; 2]);
    assert_eq!(maxs, vec![NEGATIVE_INFINITY; 2]);
}

#[test]
fn pooled_bounds_cover_all_quantizers() {
    let quantizers = vec![
        with_dimension_bounds(2, vec![0.0, -1.0], vec![1.0, 0.5]),
        with_dimension_bounds(2, vec![-2.0, 0.0], vec![0.5, 4.0]),
    ];
    let (mins, maxs) = pooled_bounds(&quantizers, 2);
    assert_eq!(floats(&mins), vec![-2.0, -1.0]);
    assert_eq!(floats(&maxs), vec![1.0, 4.0]);
}

#[test]
fn blocked_distances_stop_at_the_checkpoint() {
    let partial = |row: usize, start: usize, end: usize, sum: u32| -> u32 {
        let step = if row < 2 { 10.0f32 } else { 1.0 };
        (f32::from_bits(sum) + step * (end - start) as f32).to_bits()
    };
    let distances = floats(&blocked_distances(&partial, 3, 128, 2, 500.0f32.to_bits()));
    assert_eq!(distances, vec![640.0, 640.0, 128.0]);
    assert!(float_less(128.0f32.to_bits(), 640.0f32.to_bits()));
}

#[test]
fn blocks_of_codes_are_measured_by_every_metric() {
    let sq = with_dimension_bounds(2, vec![0.0, -255.0], vec![255.0, 0.0]);
    // Rows (3, 1), (4, 0), (5, -1) with an offset of (0, 1), two rows a block.
    let codes = [3u8, 4, 255, 254, 5, 253];
    let offset = [0.0, 1.0];
    let query = [3.0, 4.0];
    let of = |metric: MetricType| {
        blocked(&sq, &query, &codes, 3, &offset, metric, 2, f32::INFINITY)
    };
    let near = |actual: Vec<f32>, expected: [f32; 3]| {
        for (a, e) in actual.iter().zip(expected) {
            assert!((a - e).abs() <= 1e-4, "{a} instead of {e}");
        }
    };
    near(of(MetricType::L2), [9.0, 17.0, 29.0]);
    near(of(MetricType::InnerProduct), [-13.0, -12.0, -11.0]);
    near(
        of(MetricType::Cosine),
        [
            1.0 - 13.0 / (5.0 * 10.0f32.sqrt()),
            1.0 - 12.0 / (5.0 * 16.0f32.sqrt()),
            1.0 - 11.0 / (5.0 * 26.0f32.sqrt()),
        ],
    );
}
