use paimon_vindex_core::blocks::block_list;
use paimon_vindex_core::distance::MetricType;
use paimon_vindex_core::rq::{
    is_supported_rq_bits, padded_dimension, RQRotation, RQVectorFactors, RaBitQuantizer, SplitMix64,
    DEFAULT_RQ_ROTATION_ROUNDS, RQ_ROTATION_BLOCK_SIZE, RQ_SCAN_BLOCK_SIZE,
};
use paimon_vindex_core::rq_encode::{quantize_centered_levels, LevelKernel};
use paimon_vindex_core::rq_factors::{compute_factors, TermStep};
use paimon_vindex_core::rq_products::{RQQueryTerms, RowStep};
use paimon_vindex_core::rq_query::{subset_sums, QueryKernel, RQQueryContext};
use paimon_vindex_core::rq_rows::{block_code, StoredRows};

fn bits(values: &[f32]) -> Vec<u32> {
    values.iter().map(|value| value.to_bits()).collect()
}

fn floats(values: &[u32]) -> Vec<f32> {
    values.iter().map(|&value| f32::from_bits(value)).collect()
}

fn sum(a: u32, b: u32) -> u32 {
    (f32::from_bits(a) + f32::from_bits(b)).to_bits()
}

fn difference(a: u32, b: u32) -> u32 {
    (f32::from_bits(a) - f32::from_bits(b)).to_bits()
}

fn eighth(a: u32) -> u32 {
    (f32::from_bits(a) * 0.125).to_bits()
}

fn step(range: u32) -> u32 {
    (f32::from_bits(range) / u8::MAX as f32).to_bits()
}

fn byte(exact: u32, min: u32, step: u32) -> u8 {
    ((f32::from_bits(exact) - f32::from_bits(min)) / f32::from_bits(step))
        .round()
        .clamp(0.0, u8::MAX as f32) as u8
}

fn gap(exact: u32, min: u32, step: u32, byte: u8) -> u32 {
    let reconstructed = f32::from_bits(min) + f32::from_bits(step) * byte as f32;
    (reconstructed - f32::from_bits(exact)).abs().to_bits()
}

fn rotate(rotation: &RQRotation, input: &[f32]) -> Vec<f32> {
    floats(&rotation.rotate(&bits(input), &sum, &difference, &eighth))
}

fn row_step(step: RowStep) -> u32 {
    let f = f32::from_bits;
    let result = match step {
        RowStep::Add { a, b } => f(a) + f(b),
        RowStep::Place { offset, scale, sum } => f(offset) + f(scale) * sum as f32,
        RowStep::Scale { weight, value } => weight as f32 * f(value),
        RowStep::Weigh {
            total,
            weight,
            value,
        } => f(total) + weight as f32 * f(value),
        RowStep::Center {
            total,
            levels,
            query_sum,
        } => f(total) - levels as f32 * 0.5 * f(query_sum),
        RowStep::Estimate {
            product,
            f_add,
            f_rescale,
            g_add,
        } => f(f_add) + f(g_add) + f(f_rescale) * f(product),
        RowStep::Lower {
            estimate,
            f_error,
            g_error,
        } => f(estimate) - f(f_error) * f(g_error),
        RowStep::Loosen {
            bound,
            rescale,
            weight,
            error,
        } => f(bound) - f(rescale).abs() * weight as f32 * f(error),
    };
    result.to_bits()
}

fn term_step(step: TermStep) -> u32 {
    let f = f32::from_bits;
    let result = match step {
        TermStep::Product { sum, a, b } => f(sum) + f(a) * f(b),
        TermStep::Square { sum, a, b } => f(sum) + (f(a) - f(b)) * (f(a) - f(b)),
        TermStep::Error {
            sum,
            value,
            rescale,
            code,
        } => {
            let error = f(value) - f(rescale) * f(code);
            f(sum) + error * error
        }
        TermStep::Ratio { a, b } => f(a) / f(b),
        TermStep::Root { value } => f(value).sqrt(),
        TermStep::Half { value } => 0.5 * f(value),
        TermStep::Double { value } => 2.0 * f(value),
        TermStep::Negate { value } => -f(value),
        TermStep::Cross { a, b, distance } => -0.5 * (f(a) + f(b) - f(distance)),
    };
    result.to_bits()
}

fn guard_of(offset: u32, scale: u32, groups: usize, magnitude: u32) -> u32 {
    let total = f32::from_bits(offset).abs()
        + f32::from_bits(scale) * u8::MAX as f32 * groups as f32
        + f32::from_bits(magnitude);
    (total * f32::EPSILON * 8.0).to_bits()
}

fn prepare_query(quantizer: &RaBitQuantizer, rotated_query: Vec<f32>) -> RQQueryContext {
    let kernel = QueryKernel {
        add: sum,
        subtract: difference,
        step_of: step,
        byte_of: byte,
        gap_of: gap,
    };
    quantizer.prepare_query(bits(&rotated_query), &kernel, &guard_of)
}

fn level_kernel(
    bits_per_level: usize,
) -> LevelKernel<
    impl Fn(u32) -> u32,
    impl Fn(u32, u32) -> u8,
    impl Fn(u8) -> u32,
    impl Fn(u32, u32, u32) -> u32,
    impl Fn(u32, u32) -> u32,
> {
    let greatest = ((1usize << bits_per_level) - 1) as f32;
    let middle = greatest * 0.5;
    LevelKernel {
        first_width: move |max: u32| (2.0 * f32::from_bits(max) / greatest).to_bits(),
        level_of: move |value: u32, width: u32| {
            (f32::from_bits(value) / f32::from_bits(width) + middle)
                .round()
                .clamp(0.0, greatest) as u8
        },
        centered: move |level: u8| (level as f32 - middle).to_bits(),
        product_step: |sum: u32, a: u32, b: u32| {
            (f32::from_bits(sum) + f32::from_bits(a) * f32::from_bits(b)).to_bits()
        },
        ratio: |product: u32, norm: u32| {
            (f32::from_bits(product) / f32::from_bits(norm)).to_bits()
        },
    }
}

fn encode(
    quantizer: &RaBitQuantizer,
    residual: &[f32],
    centroid: &[f32],
) -> (Vec<u8>, RQVectorFactors) {
    let mut code = vec![0u8; quantizer.code_size()];
    let factors = quantizer.encode(
        &bits(residual),
        &bits(centroid),
        MetricType::L2,
        &mut code,
        &level_kernel(quantizer.bits()),
        &term_step,
    );
    (code, factors)
}

#[test]
fn levels_span_the_greatest_component() {
    let (levels, centered) =
        quantize_centered_levels(&bits(&[1.0, -1.0, 0.0, 0.4]), &level_kernel(1));
    assert_eq!(levels, vec![1, 0, 1, 1]);
    assert_eq!(floats(&centered), vec![0.5, -0.5, 0.5, 0.5]);
    let (levels, centered) = quantize_centered_levels(&bits(&[3.0, -3.0, 1.0]), &level_kernel(2));
    assert_eq!(levels, vec![3, 0, 2]);
    assert_eq!(floats(&centered), vec![1.5, -1.5, 0.5]);
    let (levels, centered) = quantize_centered_levels(&bits(&[1e-9, -0.0]), &level_kernel(4));
    assert_eq!(levels, vec![0, 0]);
    assert_eq!(floats(&centered), vec![-7.5, -7.5]);
}

fn full_inner_product(quantizer: &RaBitQuantizer, context: &RQQueryContext, code: &[u8]) -> f32 {
    f32::from_bits(quantizer.full_inner_product(context, code, &row_step))
}

fn coarse_inner_product(quantizer: &RaBitQuantizer, context: &RQQueryContext, code: &[u8]) -> f32 {
    f32::from_bits(quantizer.coarse_inner_product(context, code, &row_step))
}

#[test]
fn products_of_planes_match_the_levels() {
    let d = 64;
    for bits_per_level in [1, 2, 4, 8] {
        let quantizer = RaBitQuantizer::new(d, bits_per_level);
        let query: Vec<f32> = (0..d).map(|i| (i % 9) as f32 - 4.0).collect();
        let levels: Vec<u8> = (0..d)
            .map(|i| ((i * 37 + 5) % (1 << bits_per_level)) as u8)
            .collect();
        let mut code = vec![0u8; quantizer.code_size()];
        quantizer.encode_planes(&levels, &mut code);
        let context = prepare_query(&quantizer, query.clone());
        let center = ((1usize << bits_per_level) - 1) as f32 * 0.5;
        let expected: f32 = query
            .iter()
            .zip(&levels)
            .map(|(query, &level)| query * (level as f32 - center))
            .sum();
        assert_eq!(full_inner_product(&quantizer, &context, &code), expected);
        let signs: f32 = query
            .iter()
            .zip(&levels)
            .map(|(query, &level)| if quantizer.is_upper_level(level) { 0.5 } else { -0.5 } * query)
            .sum();
        assert_eq!(coarse_inner_product(&quantizer, &context, &code), signs);
        let chosen = quantizer.unsigned_plane_inner_product(&context, &code, 0, &row_step);
        assert_eq!(f32::from_bits(chosen), signs + 0.5 * f32::from_bits(context.sum));
    }
}

#[test]
fn rotation_is_deterministic_and_preserves_norm_with_padding() {
    let d = 70;
    let rotation = RQRotation::new(d, 17, DEFAULT_RQ_ROTATION_ROUNDS);
    let input: Vec<f32> = (0..d).map(|i| i as f32 * 0.25 - 3.0).collect();
    let first = rotate(&rotation, &input);
    let second = rotate(&rotation, &input);

    let before: f32 = input.iter().map(|value| value * value).sum();
    let after: f32 = first.iter().map(|value| value * value).sum();
    assert_eq!(first, second);
    assert!((before - after).abs() <= before * 1e-5);
}

#[test]
fn rotation_spreads_a_basis_vector_across_fht_blocks() {
    let d = 128;
    let rotation = RQRotation::new(d, 91, 2);
    let mut input = vec![0.0; d];
    input[7] = 1.0;
    let output = rotate(&rotation, &input);

    let non_zero = output.iter().filter(|value| value.abs() > 1e-7).count();
    assert!(
        non_zero > RQ_ROTATION_BLOCK_SIZE,
        "two rounds must spread beyond one 64-dimension block, got {non_zero}"
    );
}

#[test]
fn coarse_distance_query_terms_match_rotated_vector_terms_for_every_metric() {
    let d = 70;
    let quantizer = RaBitQuantizer::new(d, 4);
    let rotation = RQRotation::new(d, 91, DEFAULT_RQ_ROTATION_ROUNDS);
    let query = (0..d)
        .map(|index| ((index * 13 % 43) as f32 - 21.0) * 0.07)
        .collect::<Vec<_>>();
    let centroid = (0..d)
        .map(|index| ((index * 17 % 37) as f32 - 18.0) * 0.05)
        .collect::<Vec<_>>();
    let rotated_query = rotate(&rotation, &query);
    let rotated_centroid = rotate(&rotation, &centroid);
    let context = prepare_query(&quantizer, rotated_query);
    let residual_norm_sqr = query
        .iter()
        .zip(&centroid)
        .map(|(&query, &centroid)| {
            let residual = query - centroid;
            residual * residual
        })
        .sum::<f32>();
    let query_norm_sqr = query.iter().map(|value| value * value).sum::<f32>();
    let centroid_norm_sqr = centroid.iter().map(|value| value * value).sum::<f32>();

    for metric in [MetricType::L2, MetricType::Cosine, MetricType::InnerProduct] {
        let rotated_terms =
            quantizer.query_terms(&context, &bits(&rotated_centroid), metric, &term_step);
        let reused_terms = quantizer.query_terms_from_coarse_distance(
            residual_norm_sqr.to_bits(),
            query_norm_sqr.to_bits(),
            centroid_norm_sqr.to_bits(),
            metric,
            &term_step,
        );
        let gap = |a: u32, b: u32| (f32::from_bits(a) - f32::from_bits(b)).abs();
        assert!(gap(rotated_terms.g_add, reused_terms.g_add) <= 1e-4);
        assert!(gap(rotated_terms.g_error, reused_terms.g_error) <= 1e-4);
    }
}

#[test]
fn fastscan_coarse_sum_stays_inside_its_reported_error() {
    let d = 960;
    let quantizer = RaBitQuantizer::new(d, 4);
    let query = (0..d)
        .map(|index| ((index * 31 % 101) as f32 - 50.0) * 0.013)
        .collect::<Vec<_>>();
    let context = prepare_query(&quantizer, query);
    let mut blocked_codes = vec![0u8; quantizer.plane_size() * RQ_SCAN_BLOCK_SIZE];
    for byte_idx in 0..quantizer.plane_size() {
        for lane in 0..RQ_SCAN_BLOCK_SIZE {
            blocked_codes[byte_idx * RQ_SCAN_BLOCK_SIZE + lane] =
                ((byte_idx * 37 + lane * 19 + 11) & 0xFF) as u8;
        }
    }

    let sums = quantizer.fastscan_coarse_block(&context.fastscan_lut, &blocked_codes);
    let error_bound = f32::from_bits(context.fastscan_ip_error);
    for lane in 0..RQ_SCAN_BLOCK_SIZE {
        let approximate = f32::from_bits(row_step(RowStep::Place {
            offset: context.fastscan_offset,
            scale: context.fastscan_scale,
            sum: sums[lane],
        }));
        let exact = (0..quantizer.plane_size())
            .map(|byte_idx| {
                let pattern = blocked_codes[byte_idx * RQ_SCAN_BLOCK_SIZE + lane];
                f32::from_bits(context.byte_subset_sums[byte_idx * 256 + pattern as usize])
            })
            .sum::<f32>();
        assert!(
            (approximate - exact).abs() <= error_bound,
            "lane {lane}: approximate={} exact={} error_bound={}",
            approximate,
            exact,
            error_bound
        );
    }
}

#[test]
fn four_bit_estimator_is_exact_for_the_encoded_vector() {
    let d = 64;
    let quantizer = RaBitQuantizer::new(d, 4);
    let residual: Vec<f32> = (0..d)
        .map(|i| ((i * 17 % 31) as f32 - 15.0) * 0.13)
        .collect();
    let centroid: Vec<f32> = (0..d).map(|i| (i % 7) as f32 * 0.02).collect();
    let query: Vec<f32> = residual
        .iter()
        .zip(&centroid)
        .map(|(&residual, &centroid)| residual + centroid)
        .collect();
    let (code, factors) = encode(&quantizer, &residual, &centroid);
    let context = prepare_query(&quantizer, query);
    let terms = quantizer.query_terms(&context, &bits(&centroid), MetricType::L2, &term_step);
    let product = quantizer.full_inner_product(&context, &code, &row_step);
    let estimate = f32::from_bits(quantizer.estimate(product, factors.full, terms, &row_step));

    assert!(estimate.abs() < 1e-4, "self distance was {estimate}");
}

#[test]
fn more_stored_bits_reduce_reconstruction_error() {
    let d = 64;
    let residual: Vec<f32> = (0..d)
        .map(|i| ((i * 29 % 53) as f32 - 26.0) * 0.11)
        .collect();
    let centroid = vec![0.0; d];
    let mut errors = Vec::new();
    for bits in [1, 2, 4, 8] {
        let quantizer = RaBitQuantizer::new(d, bits);
        let (_, factors) = encode(&quantizer, &residual, &centroid);
        errors.push(f32::from_bits(factors.full.f_error));
    }

    assert!(errors.windows(2).all(|pair| pair[1] <= pair[0] + 1e-5));
    assert!(errors[3] < errors[0] * 0.1);
}

#[test]
fn lower_bound_contains_exact_distance() {
    let d = 64;
    let quantizer = RaBitQuantizer::new(d, 4);
    let residual: Vec<f32> = (0..d)
        .map(|i| ((i * 11 % 37) as f32 - 18.0) * 0.09)
        .collect();
    let query: Vec<f32> = (0..d)
        .map(|i| ((i * 7 % 41) as f32 - 20.0) * 0.08)
        .collect();
    let centroid = vec![0.0; d];
    let (code, factors) = encode(&quantizer, &residual, &centroid);
    let context = prepare_query(&quantizer, query.clone());
    let terms = quantizer.query_terms(&context, &bits(&centroid), MetricType::L2, &term_step);
    let inner_product = quantizer.coarse_inner_product(&context, &code, &row_step);
    let estimate = quantizer.estimate(inner_product, factors.coarse, terms, &row_step);
    let lower =
        f32::from_bits(quantizer.lower_bound(estimate, factors.coarse, terms, &row_step));
    let exact: f32 = residual
        .iter()
        .zip(query)
        .map(|(&left, right)| {
            let delta = left - right;
            delta * delta
        })
        .sum();

    assert!(lower <= exact + 1e-4, "lower={lower}, exact={exact}");
}

#[test]
fn dimensions_are_padded_to_whole_blocks() {
    assert_eq!(padded_dimension(0), 64);
    assert_eq!(padded_dimension(1), 64);
    assert_eq!(padded_dimension(64), 64);
    assert_eq!(padded_dimension(65), 128);
    assert!(!is_supported_rq_bits(0));
    assert!(is_supported_rq_bits(1));
    assert!(is_supported_rq_bits(8));
    assert!(!is_supported_rq_bits(9));
}

#[test]
fn quantizer_sizes_follow_from_the_bits() {
    let one = RaBitQuantizer::new(100, 1);
    assert_eq!(one.dimension(), 100);
    assert_eq!(one.padded_dimension(), 128);
    assert_eq!(one.plane_size(), 16);
    assert_eq!(one.code_size(), 16);
    assert_eq!(one.factor_fields(), 2);
    let four = RaBitQuantizer::new(100, 4);
    assert_eq!(four.code_size(), 64);
    assert_eq!(four.factor_fields(), 5);
}

#[test]
fn generator_follows_the_published_sequence() {
    let mut generator = SplitMix64::new(0);
    assert_eq!(generator.next_u64(), 0xE220_A839_7B1D_CDAF);
    assert_eq!(generator.next_u64(), 0x6E78_9E6A_A1B9_65F4);
    assert_eq!(generator.next_usize(10), (0x06C4_5D18_8009_454Fu64 % 10) as usize);
}

#[test]
fn flipping_signs_twice_changes_nothing() {
    let rotation = RQRotation::new(64, 5, 1);
    let values = bits(&(0..64).map(|i| i as f32 + 1.0).collect::<Vec<_>>());
    let mut flipped = values.clone();
    rotation.flip_signs(0, &mut flipped);
    assert_ne!(flipped, values);
    for (before, after) in floats(&values).iter().zip(floats(&flipped)) {
        assert_eq!(before.abs(), after.abs());
    }
    rotation.flip_signs(0, &mut flipped);
    assert_eq!(flipped, values);
}

#[test]
fn permuting_keeps_every_component() {
    let rotation = RQRotation::new(64, 5, 1);
    let values: Vec<u32> = (0..64).collect();
    let mut moved = values.clone();
    let mut scratch = vec![0; 64];
    rotation.permute(0, &mut moved, &mut scratch);
    assert_ne!(moved, values);
    let mut sorted = moved.clone();
    sorted.sort();
    assert_eq!(sorted, values);
    assert_eq!((rotation.seed(), rotation.rounds()), (5, 1));
    assert_eq!((rotation.dimension(), rotation.padded_dimension()), (64, 64));
}

#[test]
fn transforming_a_block_twice_gives_it_back() {
    let rotation = RQRotation::new(64, 3, 0);
    let input: Vec<f32> = (0..64).map(|i| i as f32).collect();
    assert_eq!(rotate(&rotation, &input), input);
    let block = bits(&input);
    let once = paimon_vindex_core::rotate::hadamard_64(&sum, &difference, &eighth, &block);
    assert_eq!(f32::from_bits(once[0]), (0..64).sum::<i32>() as f32 * 0.125);
    let twice = paimon_vindex_core::rotate::hadamard_64(&sum, &difference, &eighth, &once);
    assert_eq!(floats(&twice), input);
}

#[test]
fn subset_sums_add_the_set_components() {
    let values = bits(&[1.0, 2.0, 4.0, 8.0, 16.0, 32.0, 64.0, 128.0]);
    let narrow = floats(&subset_sums(&values, 4, &sum));
    assert_eq!(narrow.len(), 32);
    for pattern in 0..16 {
        assert_eq!(narrow[pattern], pattern as f32);
        assert_eq!(narrow[16 + pattern], 16.0 * pattern as f32);
    }
    let wide = floats(&subset_sums(&values, 8, &sum));
    assert_eq!(wide.len(), 256);
    for pattern in 0..256 {
        assert_eq!(wide[pattern], pattern as f32);
    }
}

#[test]
fn flat_queries_have_zero_tables() {
    let quantizer = RaBitQuantizer::new(64, 2);
    let context = prepare_query(&quantizer, vec![0.0; 64]);
    assert!(context.fastscan_lut.iter().all(|&value| value == 0));
    assert_eq!(f32::from_bits(context.fastscan_scale), 0.0);
    assert_eq!(f32::from_bits(context.fastscan_ip_error), 0.0);
}

#[test]
fn planes_hold_the_bits_of_the_levels() {
    let quantizer = RaBitQuantizer::new(64, 3);
    let levels: Vec<u8> = (0..64).map(|i| (i % 8) as u8).collect();
    let mut code = vec![0xFFu8; quantizer.code_size()];
    quantizer.encode_planes(&levels, &mut code);
    assert_eq!(code[0], 0b1111_0000);
    assert_eq!(code[8], 0b1100_1100);
    assert_eq!(code[16], 0b1010_1010);
    assert!(quantizer.is_upper_level(4));
    assert!(!quantizer.is_upper_level(3));
}

#[test]
fn stored_rows_have_the_distances_of_their_codes() {
    let d = 64;
    let quantizer = RaBitQuantizer::new(d, 4);
    let centroid = vec![0.0f32; d];
    let count = 40;
    let vectors: Vec<Vec<f32>> = (0..count)
        .map(|row| (0..d).map(|i| ((i * 7 + row * 13) % 23) as f32 - 11.0).collect())
        .collect();
    let (codes, factors): (Vec<_>, Vec<_>) = vectors
        .iter()
        .map(|vector| encode(&quantizer, vector, &centroid))
        .unzip();
    let order: Vec<usize> = (0..count).rev().collect();
    let (blocked_codes, blocked_factors) = block_list(
        &codes.concat(),
        &factors,
        &order,
        quantizer.code_size(),
        quantizer.bits(),
    );
    let rows = StoredRows {
        codes: &blocked_codes,
        factors: &blocked_factors,
        count,
    };
    let query: Vec<f32> = (0..d).map(|i| (i % 5) as f32 - 2.0).collect();
    let context = prepare_query(&quantizer, query.clone());
    let terms = quantizer.query_terms(&context, &bits(&centroid), MetricType::L2, &term_step);
    for (row, &vector) in order.iter().enumerate() {
        assert_eq!(
            block_code(&blocked_codes, count, quantizer.code_size(), row),
            codes[vector]
        );
        let code = &codes[vector];
        let distance = quantizer.row_distance(&rows, &context, terms, row, &row_step);
        assert_eq!(
            distance,
            quantizer.code_distance(&context, code, factors[vector], terms, &row_step)
        );
        let distance = f32::from_bits(distance);
        assert_eq!(
            quantizer.row_bound(&rows, &context, terms, row, false, &row_step),
            quantizer.code_bound(&context, code, factors[vector].coarse, terms, &row_step)
        );
        for fast in [false, true] {
            let bound = quantizer.row_bound(&rows, &context, terms, row, fast, &row_step);
            let exact: f32 = vectors[vector]
                .iter()
                .zip(&query)
                .map(|(a, b)| (a - b) * (a - b))
                .sum();
            assert!(f32::from_bits(bound) <= exact + 1e-2);
        }
        let near = quantizer.row_approximation(&rows, &context, terms, row, &row_step);
        assert!(f32::from_bits(near) <= distance + 1e-3);
        if row >= 32 {
            assert_eq!(f32::from_bits(near), distance);
        }
    }
}

#[test]
fn factors_of_a_short_code_are_exact() {
    let residual = bits(&[1.0, 0.0]);
    let centroid = bits(&[2.0, 3.0]);
    let code = bits(&[0.5, -0.5]);
    let floats_of = |metric: MetricType| {
        let factors = compute_factors(&residual, &centroid, &code, metric, &term_step);
        floats(&[factors.f_add, factors.f_rescale, factors.f_error])
    };
    assert_eq!(floats_of(MetricType::L2), vec![-1.0, -4.0, 2.0]);
    assert_eq!(floats_of(MetricType::Cosine), vec![-0.5, -2.0, 1.0]);
    assert_eq!(floats_of(MetricType::InnerProduct), vec![-3.0, -2.0, 1.0]);
    let flat = compute_factors(&bits(&[0.0, 0.0]), &centroid, &code, MetricType::L2, &term_step);
    assert_eq!(floats(&[flat.f_add, flat.f_rescale, flat.f_error]), vec![0.0; 3]);
    let across = compute_factors(&bits(&[2.0, 2.0]), &centroid, &code, MetricType::Cosine, &term_step);
    assert_eq!(f32::from_bits(across.f_add), 4.0);
    assert_eq!(f32::from_bits(across.f_rescale), 0.0);
}

#[test]
fn a_negative_coarse_distance_counts_as_zero() {
    let quantizer = RaBitQuantizer::new(64, 4);
    let terms_for = |metric: MetricType| {
        quantizer.query_terms_from_coarse_distance(
            (-0.5f32).to_bits(),
            4.0f32.to_bits(),
            6.0f32.to_bits(),
            metric,
            &term_step,
        )
    };
    let zero = RQQueryTerms {
        g_add: 0,
        g_error: 0,
    };
    assert_eq!(terms_for(MetricType::L2), zero);
    assert_eq!(terms_for(MetricType::Cosine), zero);
    assert_eq!(f32::from_bits(terms_for(MetricType::InnerProduct).g_add), -5.0);
}

#[test]
fn fewer_rounds_are_the_first_rounds_of_more() {
    let short = RQRotation::new(100, 5, 2);
    let long = RQRotation::new(100, 5, 4);
    let padded = long.padded_dimension();
    for round in 0..2 {
        let values: Vec<u32> = (0..padded as u32).collect();
        let (mut a, mut b) = (values.clone(), values);
        let mut scratch = vec![0; padded];
        short.flip_signs(round, &mut a);
        long.flip_signs(round, &mut b);
        assert_eq!(a, b);
        short.permute(round, &mut a, &mut scratch);
        long.permute(round, &mut b, &mut scratch);
        assert_eq!(a, b);
    }
}

#[test]
fn stored_rows_are_summed_byte_by_byte() {
    let d = 64;
    let quantizer = RaBitQuantizer::new(d, 3);
    let centroid = vec![0.0f32; d];
    let count = 5;
    let (codes, factors): (Vec<_>, Vec<_>) = (0..count)
        .map(|row| {
            let vector: Vec<f32> =
                (0..d).map(|i| ((i * 7 + row * 13) % 23) as f32 * 0.37 - 4.1).collect();
            encode(&quantizer, &vector, &centroid)
        })
        .unzip();
    let order: Vec<usize> = (0..count).collect();
    let (blocked_codes, blocked_factors) = block_list(
        &codes.concat(),
        &factors,
        &order,
        quantizer.code_size(),
        quantizer.bits(),
    );
    let rows = StoredRows {
        codes: &blocked_codes,
        factors: &blocked_factors,
        count,
    };
    let query: Vec<f32> = (0..d).map(|i| (i % 5) as f32 * 0.313 - 0.7).collect();
    let context = prepare_query(&quantizer, query);
    let terms = quantizer.query_terms(&context, &bits(&centroid), MetricType::L2, &term_step);
    let sums = floats(&context.byte_subset_sums);
    let size = quantizer.plane_size();
    for row in 0..count {
        let code = &codes[row];
        let entry = |at: usize| sums[at % size * 256 + code[at] as usize];
        let coarse: f32 = (0..size).fold(0.0, |total, at| total + entry(at));
        let mut total = 4.0 * coarse;
        for at in size..2 * size {
            total += 2.0 * entry(at);
        }
        for at in 2 * size..3 * size {
            total += entry(at);
        }
        let product = total - 7.0 * 0.5 * f32::from_bits(context.sum);
        let full = factors[row].full;
        let expected = f32::from_bits(full.f_add)
            + f32::from_bits(terms.g_add)
            + f32::from_bits(full.f_rescale) * product;
        let distance = quantizer.row_distance(&rows, &context, terms, row, &row_step);
        assert_eq!(f32::from_bits(distance), expected);
    }
}
