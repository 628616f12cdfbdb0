//! Nearest coarse centroids by bounds in a subspace.
use nalgebra::{DMatrix, SymmetricEigen};
use paimon_vindex_core::nearest::find_nearest;
use paimon_vindex_core::projected_assign::{assign_with_stats, search_row};
use paimon_vindex_core::projection_plan::{
    auto_pca_within_budget, candidate_widths, projected_assignment_block_plan, projection_block,
    select_width, usable_calibration, ProjectedAssignment, MIN_CALIBRATION_ROWS,
};
use rand::rngs::StdRng;
use rand::{Rng, SeedableRng};
use std::time::{Duration, Instant};

fn l2sqr(a: &[f32], b: &[f32]) -> f32 {
    a.iter().zip(b).map(|(x, y)| (x - y) * (x - y)).sum()
}

fn nearest_rows(rows: &[f32], cents: &[f32], nlist: usize, d: usize) -> Vec<usize> {
    (0..rows.len() / d)
        .map(|row| {
            find_nearest(row, nlist, &|row: usize, c: usize| {
                l2sqr(&rows[row * d..(row + 1) * d], &cents[c * d..(c + 1) * d]).to_bits()
            })
        })
        .collect()
}

const MAX_AUTO_COST_FRACTION: f64 = 0.85;
const SUBSPACE_ITERATIONS: usize = 8;
const SUBSPACE_SEED: u64 = 0x7a5e_c7ed;
const ORTHO_MARGIN: f64 = 1e-9;
const GRAM_MARGIN: f64 = 1e-9;
const SIGMA_MAX_SQ: f64 = 1.0;
const SIGMA_MIN_SQ: f64 = (1.0 - ORTHO_MARGIN) * (1.0 - ORTHO_MARGIN) * (1.0 - GRAM_MARGIN);

/// A contractive projection of the coarse centroids, and what bounds need of
/// each centroid.
#[derive(Clone, Debug)]
struct CoarseProjection {
    d: usize,
    dp: usize,
    explained_variance: f64,
    mean: Vec<f64>,
    proj: Vec<f64>,
    cents_p: Vec<f32>,
    cents_p_norms: Vec<f64>,
    cents_p_errors: Vec<f64>,
    cents_res: Vec<(f64, f64)>,
}

impl CoarseProjection {
    /// Fits a projection to the centroids; its width is the one that was
    /// fastest on the sample. There is none where it does not pay off.
    fn train(
        cents: &[f32],
        nlist: usize,
        d: usize,
        force: bool,
        calibration: &[f32],
        calibration_rows: usize,
    ) -> Option<Self> {
        if d == 0 {
            return None;
        }
        let rows = usable_calibration(calibration_rows, calibration.len(), d);
        let block = projection_block(nlist, d, force, rows)?;
        let mean = column_mean(cents, nlist, d);
        let centered: Vec<f32> = cents
            .iter()
            .enumerate()
            .map(|(i, v)| v - mean[i % d] as f32)
            .collect();
        let total_variance = centered
            .iter()
            .map(|v| (*v as f64) * (*v as f64))
            .sum::<f64>()
            / nlist as f64;
        if total_variance.is_nan() || total_variance <= 0.0 {
            return None;
        }
        let (basis, eigenvalues) = top_subspace(&centered, nlist, d, block);
        let mut projection = if rows >= MIN_CALIBRATION_ROWS {
            let sample = &calibration[..rows * d];
            Self::select_width_by_time(cents, &mean, &basis, nlist, d, block, force, sample, rows)?
        } else if force {
            Self::from_basis(cents, &mean, &basis, nlist, d, block)?
        } else {
            return None;
        };
        projection.explained_variance =
            eigenvalues[..projection.dp].iter().sum::<f64>() / total_variance;
        Some(projection)
    }

    fn select_width_by_time(
        cents: &[f32],
        mean: &[f64],
        basis: &[f32],
        nlist: usize,
        d: usize,
        block: usize,
        force: bool,
        sample: &[f32],
        rows: usize,
    ) -> Option<Self> {
        if block.checked_mul(4).is_none() {
            return None;
        }
        let limit = (!force).then(|| {
            let started = Instant::now();
            nearest_rows(sample, cents, nlist, d);
            time_limit(started.elapsed())
        });
        let mut candidates: Vec<Option<Self>> = candidate_widths(block, force)
            .into_iter()
            .rev()
            .map(|dp| Self::from_basis(cents, mean, basis, nlist, d, dp))
            .collect();
        let times: Vec<Option<u64>> = candidates
            .iter()
            .map(|candidate| {
                candidate.as_ref().map(|candidate| {
                    let started = Instant::now();
                    candidate.assign_with_stats(sample, rows, cents, nlist);
                    started.elapsed().as_nanos() as u64
                })
            })
            .collect();
        select_width(&times, limit).and_then(|chosen| candidates[chosen].take())
    }

    fn from_basis(
        cents: &[f32],
        mean: &[f64],
        basis: &[f32],
        nlist: usize,
        d: usize,
        dp: usize,
    ) -> Option<Self> {
        let proj = orthonormal_f64(&basis[..dp * d], dp, d)?;
        let (cents_p, cent_norms) = project_rows(cents, nlist, d, &proj, dp, mean);
        let cents_p_norms: Vec<f64> = cents_p.chunks_exact(dp).map(norm_l2sqr_f64).collect();
        let cents_p_errors: Vec<f64> = (0..nlist)
            .map(|c| {
                let norm = centered_norm_upper(cent_norms[c], d);
                projection_error(norm, cents_p_norms[c].sqrt(), d, dp)
            })
            .collect();
        let cents_res = (0..nlist)
            .map(|c| residual_interval(cent_norms[c], d, cents_p_norms[c], cents_p_errors[c]))
            .collect();
        Some(Self {
            d,
            dp,
            explained_variance: 0.0,
            mean: mean.to_vec(),
            proj,
            cents_p,
            cents_p_norms,
            cents_p_errors,
            cents_res,
        })
    }

    fn dimension(&self) -> usize {
        self.dp
    }

    fn explained_variance(&self) -> f64 {
        self.explained_variance
    }

    /// The nearest centroid of every row.
    fn assign(&self, data: &[f32], n: usize, cents: &[f32], nlist: usize) -> Vec<usize> {
        self.assign_with_stats(data, n, cents, nlist).0
    }

    /// The same, and how many distances were computed.
    fn assign_with_stats(
        &self,
        data: &[f32],
        n: usize,
        cents: &[f32],
        nlist: usize,
    ) -> (Vec<usize>, usize) {
        let d = self.d;
        assert!(nlist > 0 && n.checked_mul(nlist).is_some());
        let bounds_of = |row: usize| {
            self.row_bounds(&data[row * d..(row + 1) * d])
                .iter()
                .map(|bound| bound.to_bits())
                .collect::<Vec<u64>>()
        };
        let upper_of = |distance: u32| distance_upper_bound(f32::from_bits(distance), d).to_bits();
        let distance_of = |row: usize, c: usize| {
            l2sqr(&data[row * d..(row + 1) * d], &cents[c * d..(c + 1) * d]).to_bits()
        };
        assign_with_stats(n, nlist, &bounds_of, &upper_of, &distance_of)
    }

    /// Numbers that are not above the squared distances of a row.
    fn row_bounds(&self, row: &[f32]) -> Vec<f64> {
        let (d, dp) = (self.d, self.dp);
        let gemm_error_factor = 2.0 * gamma_f32(dp.saturating_mul(2).saturating_add(1));
        let f64_error_factor = gamma_f64(dp.saturating_mul(2).saturating_add(8));
        let (xp, x_norms) = project_rows(row, 1, d, &self.proj, dp, &self.mean);
        let xn = norm_l2sqr_f64(&xp);
        let xn_sqrt = xn.sqrt();
        let x_error = projection_error(centered_norm_upper(x_norms[0], d), xn_sqrt, d, dp);
        let (x_res_lo, x_res_hi) = residual_interval(x_norms[0], d, xn, x_error);
        self.cents_p
            .chunks_exact(dp)
            .enumerate()
            .map(|(c, centroid)| {
                let product: f32 = xp.iter().zip(centroid).map(|(a, b)| a * b).sum();
                let ip = product as f64;
                let c_norm = self.cents_p_norms[c];
                let c_norm_sqrt = c_norm.sqrt();
                let magnitude = xn + c_norm + 2.0 * ip.abs();
                let gemm_error = gemm_error_factor * xn_sqrt * c_norm_sqrt;
                let f64_error = f64_error_factor * magnitude;
                let projected_sqr = (xn + c_norm - 2.0 * ip - gemm_error - f64_error).max(0.0);
                let error = x_error + self.cents_p_errors[c];
                let error_sqr = error * error;
                let projected = if projected_sqr > error_sqr {
                    (projected_sqr - 2.0 * error * (xn_sqrt + c_norm_sqrt) + error_sqr).max(0.0)
                } else {
                    0.0
                };
                let (c_res_lo, c_res_hi) = self.cents_res[c];
                let residual = (x_res_lo - c_res_hi).max(c_res_lo - x_res_hi).max(0.0);
                projected + residual * residual
            })
            .collect()
    }
}

/// The longest time, in nanoseconds, that still pays off.
fn time_limit(exact: Duration) -> u64 {
    exact.mul_f64(MAX_AUTO_COST_FRACTION).as_nanos() as u64
}

fn gamma(unit_roundoff: f64, operations: usize) -> f64 {
    let error = unit_roundoff * operations as f64;
    if error < 1.0 {
        error / (1.0 - error)
    } else {
        f64::INFINITY
    }
}

fn gamma_f32(operations: usize) -> f64 {
    gamma(f32::EPSILON as f64 / 2.0, operations)
}

fn gamma_f64(operations: usize) -> f64 {
    gamma(f64::EPSILON / 2.0, operations)
}

fn norm_l2sqr_f64(v: &[f32]) -> f64 {
    v.iter().map(|x| (*x as f64) * (*x as f64)).sum()
}

/// Rows moved by the mean and projected, and their squared lengths before.
fn project_rows(
    data: &[f32],
    rows: usize,
    d: usize,
    proj: &[f64],
    dp: usize,
    mean: &[f64],
) -> (Vec<f32>, Vec<f64>) {
    let mut out = Vec::with_capacity(rows * dp);
    let mut norms = Vec::with_capacity(rows);
    for row in data[..rows * d].chunks_exact(d) {
        let centered: Vec<f64> = row.iter().zip(mean).map(|(v, m)| *v as f64 - m).collect();
        norms.push(centered.iter().map(|c| c * c).sum());
        for axis in proj.chunks_exact(d) {
            out.push(axis.iter().zip(&centered).map(|(a, b)| a * b).sum::<f64>() as f32);
        }
    }
    (out, norms)
}

fn centered_norm_upper(norm_sq: f64, d: usize) -> f64 {
    let error = gamma_f64(d.saturating_mul(3).saturating_add(1));
    if error >= 1.0 {
        f64::INFINITY
    } else {
        (norm_sq / (1.0 - error)).sqrt()
    }
}

fn projection_error(norm: f64, proj_norm: f64, d: usize, dp: usize) -> f64 {
    (dp as f64).sqrt() * gamma_f64(d.saturating_mul(2).saturating_add(1)) * norm
        + (f32::EPSILON as f64 / 2.0) * proj_norm
}

/// A number that is not below the exact distance of a rounded one.
fn distance_upper_bound(distance: f32, d: usize) -> f64 {
    if !distance.is_finite() {
        return f64::INFINITY;
    }
    let relative_error = gamma_f32(d.saturating_mul(4).saturating_add(16));
    if relative_error >= 1.0 {
        return f64::INFINITY;
    }
    distance as f64 / (1.0 - relative_error) + d as f64 * f32::MIN_POSITIVE as f64
}

/// Bounds of the length of what a projection leaves out of a vector.
fn residual_interval(full_norm_sq: f64, d: usize, proj_norm_sq: f64, proj_error: f64) -> (f64, f64) {
    let full_hi = centered_norm_upper(full_norm_sq, d);
    let full_lo_sq = full_norm_sq / (1.0 + gamma_f64(d.saturating_mul(3).saturating_add(1)));
    let proj_norm = proj_norm_sq.max(0.0).sqrt();
    let proj_hi = proj_norm + proj_error;
    let proj_lo = (proj_norm - proj_error).max(0.0);
    let hi_sq = (full_hi * full_hi - proj_lo * proj_lo / SIGMA_MAX_SQ).max(0.0);
    let lo_sq = (full_lo_sq - proj_hi * proj_hi / SIGMA_MIN_SQ).max(0.0);
    (lo_sq.sqrt(), hi_sq.sqrt().max(lo_sq.sqrt()))
}

/// Orthonormal rows, shrunk a little; none where the rows are degenerate.
fn orthonormal_f64(basis: &[f32], rows: usize, d: usize) -> Option<Vec<f64>> {
    let mut proj: Vec<f64> = basis[..rows * d].iter().map(|v| *v as f64).collect();
    for _ in 0..2 {
        for r in 0..rows {
            for q in 0..r {
                let dot: f64 = (0..d).map(|k| proj[r * d + k] * proj[q * d + k]).sum();
                for k in 0..d {
                    proj[r * d + k] -= dot * proj[q * d + k];
                }
            }
            let norm = (0..d)
                .map(|k| proj[r * d + k] * proj[r * d + k])
                .sum::<f64>()
                .sqrt();
            if norm.is_nan() || norm <= 0.5 {
                return None;
            }
            for k in 0..d {
                proj[r * d + k] *= (1.0 - ORTHO_MARGIN) / norm;
            }
        }
        if gram_deviation_radius(&proj, rows, d) <= (1.0 - ORTHO_MARGIN).powi(2) * GRAM_MARGIN {
            return Some(proj);
        }
    }
    None
}

/// How far the inner products of the rows are from those of orthonormal rows.
fn gram_deviation_radius(proj: &[f64], rows: usize, d: usize) -> f64 {
    let scale_sq = (1.0 - ORTHO_MARGIN).powi(2);
    let row = |r: usize| &proj[r * d..(r + 1) * d];
    (0..rows)
        .map(|a| {
            let off: f64 = (0..rows)
                .map(|b| {
                    let g: f64 = row(a).iter().zip(row(b)).map(|(x, y)| x * y).sum();
                    if a == b {
                        (g - scale_sq).abs()
                    } else {
                        g.abs()
                    }
                })
                .sum();
            off + rows as f64 * gamma_f64(d)
        })
        .fold(0.0f64, f64::max)
}

fn column_mean(data: &[f32], n: usize, d: usize) -> Vec<f64> {
    let mut mean = vec![0.0f64; d];
    for row in data[..n * d].chunks(d) {
        for (m, v) in mean.iter_mut().zip(row) {
            *m += *v as f64;
        }
    }
    mean.iter().map(|m| m / n as f64).collect()
}

/// The directions of most variance, and the variances along them.
fn top_subspace(centered: &[f32], n: usize, d: usize, block: usize) -> (Vec<f32>, Vec<f64>) {
    let mut rng = StdRng::seed_from_u64(SUBSPACE_SEED);
    let mut basis: Vec<f32> = (0..block * d).map(|_| rng.gen::<f32>() - 0.5).collect();
    orthonormalize_rows(&mut basis, block, d, &mut rng);
    for _ in 0..SUBSPACE_ITERATIONS {
        let projected = project_centered(centered, d, &basis);
        let mut next = vec![0.0f32; block * d];
        for (row, weights) in centered.chunks_exact(d).zip(projected.chunks_exact(block)) {
            for (axis, weight) in next.chunks_exact_mut(d).zip(weights) {
                for (sum, value) in axis.iter_mut().zip(row) {
                    *sum += weight * value;
                }
            }
        }
        basis = next;
        orthonormalize_rows(&mut basis, block, d, &mut rng);
    }
    let projected = project_centered(centered, d, &basis);
    let mut gram = DMatrix::<f64>::zeros(block, block);
    for row in projected.chunks_exact(block) {
        for i in 0..block {
            for j in 0..block {
                gram[(i, j)] += row[i] as f64 * row[j] as f64 / n as f64;
            }
        }
    }
    let eigen = SymmetricEigen::new(gram);
    let mut order: Vec<usize> = (0..block).collect();
    order.sort_by(|a, b| eigen.eigenvalues[*b].total_cmp(&eigen.eigenvalues[*a]));
    let mut rotated = vec![0.0f32; block * d];
    for (r, &src) in order.iter().enumerate() {
        for j in 0..block {
            let weight = eigen.eigenvectors[(j, src)] as f32;
            for k in 0..d {
                rotated[r * d + k] += weight * basis[j * d + k];
            }
        }
    }
    orthonormalize_rows(&mut rotated, block, d, &mut rng);
    let eigenvalues = order
        .iter()
        .map(|&i| eigen.eigenvalues[i].max(0.0))
        .collect();
    (rotated, eigenvalues)
}

fn project_centered(centered: &[f32], d: usize, basis: &[f32]) -> Vec<f32> {
    centered
        .chunks_exact(d)
        .flat_map(|row| {
            basis
                .chunks_exact(d)
                .map(|axis| axis.iter().zip(row).map(|(a, b)| a * b).sum::<f32>())
                .collect::<Vec<_>>()
        })
        .collect()
}

/// Orthonormal rows; rows that vanish become random ones.
fn orthonormalize_rows(m: &mut [f32], rows: usize, d: usize, rng: &mut StdRng) {
    let mut done: Vec<Vec<f64>> = Vec::with_capacity(rows);
    for r in 0..rows {
        let mut v: Vec<f64> = m[r * d..(r + 1) * d].iter().map(|x| *x as f64).collect();
        for _ in 0..3 {
            for q in &done {
                let dot: f64 = v.iter().zip(q).map(|(a, b)| a * b).sum();
                for (vi, qi) in v.iter_mut().zip(q) {
                    *vi -= dot * qi;
                }
            }
            let norm = v.iter().map(|x| x * x).sum::<f64>().sqrt();
            if norm > 1e-9 {
                for vi in v.iter_mut() {
                    *vi /= norm;
                }
                break;
            }
            v = (0..d).map(|_| rng.gen::<f64>() - 0.5).collect();
        }
        for (dst, src) in m[r * d..(r + 1) * d].iter_mut().zip(&v) {
            *dst = *src as f32;
        }
        done.push(v);
    }
}

fn low_rank_centroids(nlist: usize, d: usize, rank: usize, noise: f32, seed: u64) -> Vec<f32> {
    let mut rng = StdRng::seed_from_u64(seed);
    let factors: Vec<f32> = (0..rank * d).map(|_| rng.gen::<f32>() - 0.5).collect();
    let mut out = vec![0.0f32; nlist * d];
    for row in out.chunks_mut(d) {
        let z: Vec<f32> = (0..rank).map(|_| rng.gen::<f32>() - 0.5).collect();
        for (j, v) in row.iter_mut().enumerate() {
            let mut acc = 0.0;
            for t in 0..rank {
                acc += z[t] * factors[t * d + j];
            }
            *v = acc + (rng.gen::<f32>() - 0.5) * noise + 3.0;
        }
    }
    out
}

fn rows_like(cents: &[f32], nlist: usize, d: usize, n: usize, spread: f32, seed: u64) -> Vec<f32> {
    let mut rng = StdRng::seed_from_u64(seed);
    (0..n)
        .flat_map(|i| {
            let c = (i * 7919) % nlist;
            (0..d)
                .map(|j| cents[c * d + j] + (rng.gen::<f32>() - 0.5) * spread)
                .collect::<Vec<_>>()
        })
        .collect()
}

#[test]
fn assignment_plan_counts_projection_scratch() {
    let (n, d, dp, nlist, threads) = (100_000, 8192, 512, 512, 32);
    let (block_rows, parallel) = projected_assignment_block_plan(n, d, dp, nlist, threads);
    let workers = if parallel { threads } else { 1 };
    let projection_row_elems = d
        .saturating_mul(2)
        .saturating_add(dp.saturating_mul(3))
        .saturating_add(2);
    let scratch_bytes = workers
        .saturating_mul(block_rows)
        .saturating_mul(projection_row_elems)
        .saturating_mul(std::mem::size_of::<f32>());

    assert!(scratch_bytes <= 16 * 1024 * 1024);
}

#[test]
fn auto_mode_needs_a_sample() {
    let (nlist, d) = (512, 96);
    let structured = low_rank_centroids(nlist, d, 12, 0.05, 2);
    assert!(CoarseProjection::train(&structured, nlist, d, true, &[], 0).is_some());
    assert!(CoarseProjection::train(&structured, nlist, d, false, &[], 0).is_none());

    let mut rng = StdRng::seed_from_u64(3);
    let noise: Vec<f32> = (0..nlist * d).map(|_| rng.gen::<f32>()).collect();
    assert!(CoarseProjection::train(&noise, nlist, d, true, &[], 0).is_some());
}

#[test]
fn auto_pca_budget_rejects_pathological_fit() {
    assert!(auto_pca_within_budget(4096, 768, 256));
    assert!(!auto_pca_within_budget(8192, 8192, 2728));
    assert!(!auto_pca_within_budget(usize::MAX, usize::MAX, usize::MAX));
}

#[test]
fn train_rejects_degenerate_inputs() {
    assert!(CoarseProjection::train(&[], 0, 16, true, &[], 0).is_none());
    assert!(CoarseProjection::train(&vec![1.0; 4 * 16], 4, 16, false, &[], 0).is_none());
    assert!(CoarseProjection::train(&vec![1.0; 64 * 16], 64, 16, true, &[], 0).is_none());
}

#[test]
fn lower_bound_never_exceeds_distance() {
    let (nlist, d) = (256, 64);
    let cents = low_rank_centroids(nlist, d, 8, 0.3, 4);
    let p = CoarseProjection::train(&cents, nlist, d, true, &[], 0).unwrap();
    let rows = rows_like(&cents, nlist, d, 200, 1.0, 5);
    for i in 0..200 {
        let x = &rows[i * d..(i + 1) * d];
        let bounds = p.row_bounds(x);
        for c in 0..nlist {
            let dist = x
                .iter()
                .zip(&cents[c * d..(c + 1) * d])
                .map(|(a, b)| (*a as f64 - *b as f64).powi(2))
                .sum::<f64>();
            let bound = bounds[c];
            assert!(bound <= dist, "row {i} c {c}: {bound} > {dist}");
        }
    }
}

#[test]
fn assignment_matches_exact_scan_and_prunes() {
    let (nlist, d, n) = (512, 96, 3000);
    let cents = low_rank_centroids(nlist, d, 12, 0.05, 6);
    let rows = rows_like(&cents, nlist, d, n, 0.4, 7);
    let p = CoarseProjection::train(&cents, nlist, d, true, &rows, 2048).unwrap();
    let (got, evaluations) = p.assign_with_stats(&rows, n, &cents, nlist);
    assert_eq!(got, nearest_rows(&rows, &cents, nlist, d));
    assert!(
        evaluations < n * nlist / 20,
        "pruning too weak: {evaluations} evaluations"
    );
}

#[test]
fn assignment_is_exact_on_unstructured_data() {
    let (nlist, d, n) = (128, 32, 1000);
    let mut rng = StdRng::seed_from_u64(8);
    let cents: Vec<f32> = (0..nlist * d).map(|_| rng.gen::<f32>()).collect();
    let rows: Vec<f32> = (0..n * d).map(|_| rng.gen::<f32>()).collect();
    let p = CoarseProjection::train(&cents, nlist, d, true, &[], 0).unwrap();
    let got = p.assign(&rows, n, &cents, nlist);
    assert_eq!(got, nearest_rows(&rows, &cents, nlist, d));
}

#[test]
fn forced_calibration_keeps_width_below_min_dp() {
    let (nlist, d) = (4, 16);
    let cents = low_rank_centroids(nlist, d, 2, 0.1, 30);
    let rows = rows_like(&cents, nlist, d, MIN_CALIBRATION_ROWS, 1.0, 31);
    let p = CoarseProjection::train(&cents, nlist, d, true, &rows, MIN_CALIBRATION_ROWS).unwrap();
    assert_eq!(p.dimension(), nlist);
    assert_eq!(
        p.assign(&rows, MIN_CALIBRATION_ROWS, &cents, nlist),
        nearest_rows(&rows, &cents, nlist, d)
    );
}

#[test]
fn calibration_picks_a_fast_width_and_stays_exact() {
    let (nlist, d) = (512, 96);
    let cents = low_rank_centroids(nlist, d, 12, 0.3, 31);
    let rows = rows_like(&cents, nlist, d, 4000, 1.0, 32);
    let calibrated = CoarseProjection::train(&cents, nlist, d, true, &rows, 2048).unwrap();
    assert!(calibrated.dimension() <= d / 2);
    let (got, _) = calibrated.assign_with_stats(&rows[2048 * d..], 1952, &cents, nlist);
    assert_eq!(got, nearest_rows(&rows[2048 * d..], &cents, nlist, d));
    let limit = Some(time_limit(Duration::from_millis(100)));
    let fast = Duration::from_millis(85).as_nanos() as u64;
    let slow = Duration::from_millis(86).as_nanos() as u64;
    assert_eq!(select_width(&[Some(fast)], limit), Some(0));
    assert_eq!(select_width(&[Some(slow)], limit), None);
}

#[test]
fn translated_low_rank_data_prunes_as_well_as_centered_data() {
    let (nlist, d, n) = (512, 96, 4096);
    let cents = low_rank_centroids(nlist, d, 8, 0.3, 41);
    let rows = rows_like(&cents, nlist, d, n, 1.0, 42);
    let shift = |v: &[f32]| -> Vec<f32> { v.iter().map(|x| 1e8 + (x - 3.0) * 64.0).collect() };
    let (cents_t, rows_t) = (shift(&cents), shift(&rows));
    let p = CoarseProjection::train(&cents, nlist, d, true, &[], 0).unwrap();
    let p_t = CoarseProjection::train(&cents_t, nlist, d, true, &[], 0).unwrap();
    let (got, evals) = p.assign_with_stats(&rows, n, &cents, nlist);
    let (got_t, evals_t) = p_t.assign_with_stats(&rows_t, n, &cents_t, nlist);
    let argmin_f64 = |rows: &[f32], cents: &[f32]| -> Vec<usize> {
        rows.chunks_exact(d)
            .map(|x| {
                let mut best = (f64::INFINITY, 0);
                for c in 0..nlist {
                    let dist: f64 = x
                        .iter()
                        .zip(&cents[c * d..(c + 1) * d])
                        .map(|(a, b)| (*a as f64 - *b as f64).powi(2))
                        .sum();
                    if dist < best.0 {
                        best = (dist, c);
                    }
                }
                best.1
            })
            .collect()
    };
    assert_eq!(got, argmin_f64(&rows, &cents));
    assert_eq!(got_t, argmin_f64(&rows_t, &cents_t));
    assert!(evals < n * nlist / 20, "centered: {evals} checks");
    assert!(
        evals_t <= evals * 2,
        "translated data pruned much worse: {evals_t} vs {evals} checks"
    );
}

#[test]
fn tight_large_norm_clusters_stay_exact() {
    let (nlist, d, n) = (512, 96, 20000);
    let mut rng = StdRng::seed_from_u64(77);
    let mut cents = low_rank_centroids(nlist, d, 8, 0.0, 78);
    for v in cents.iter_mut() {
        *v = (*v - 3.0) * 20.0 + 50.0;
    }
    for c in (1..nlist).step_by(2) {
        for j in 0..d {
            cents[c * d + j] = cents[(c - 1) * d + j] + (rng.gen::<f32>() - 0.5) * 0.004;
        }
    }
    let rows: Vec<f32> = (0..n)
        .flat_map(|i| {
            let c = (i * 7919) % nlist;
            (0..d)
                .map(|j| cents[c * d + j] + (rng.gen::<f32>() - 0.5) * 0.004)
                .collect::<Vec<_>>()
        })
        .collect();
    let p = CoarseProjection::train(&cents, nlist, d, true, &rows, 2048).unwrap();
    let got = p.assign(&rows, n, &cents, nlist);
    for i in 0..n {
        let x = &rows[i * d..(i + 1) * d];
        let dist = |c: usize| -> f64 {
            x.iter()
                .zip(&cents[c * d..(c + 1) * d])
                .map(|(a, b)| (*a as f64 - *b as f64).powi(2))
                .sum()
        };
        let mut best_d = f64::INFINITY;
        let mut best_c = 0;
        for c in 0..nlist {
            if dist(c) < best_d {
                best_d = dist(c);
                best_c = c;
            }
        }
        assert!(
            got[i] == best_c || (dist(got[i]) - best_d) <= 1e-9 * best_d,
            "row {i}: assigned {} at {} vs nearest {best_c} at {best_d}",
            got[i],
            dist(got[i])
        );
    }
}

#[test]
fn ties_pick_smallest_centroid_index() {
    let (nlist, d) = (64, 16);
    let mut cents = low_rank_centroids(nlist, d, 4, 0.1, 9);
    let dup: Vec<f32> = cents[40 * d..41 * d].to_vec();
    cents[3 * d..4 * d].copy_from_slice(&dup);
    cents[50 * d..51 * d].copy_from_slice(&dup);
    let p = CoarseProjection::train(&cents, nlist, d, true, &[], 0).unwrap();
    let mut row = dup.clone();
    row[0] += 0.01;
    let got = p.assign(&row, 1, &cents, nlist);
    assert_eq!(got, vec![3]);
}

#[test]
fn projection_gram_matrix_is_within_the_documented_margins() {
    let (nlist, d) = (512, 96);
    let cents = low_rank_centroids(nlist, d, 12, 0.3, 91);
    let rows = rows_like(&cents, nlist, d, 2048, 1.0, 92);
    let scale_sq = (1.0 - ORTHO_MARGIN).powi(2);
    for force in [true, false] {
        let Some(p) = CoarseProjection::train(&cents, nlist, d, force, &rows, 2048) else {
            continue;
        };
        let radius = gram_deviation_radius(&p.proj, p.dp, d);
        assert!(radius <= scale_sq * GRAM_MARGIN);
        assert!(scale_sq + radius <= SIGMA_MAX_SQ);
        assert!(scale_sq - radius >= SIGMA_MIN_SQ);
    }

    let mut basis = vec![0.0f32; 3 * d];
    basis[0] = 1.0;
    basis[d + 1] = 1.0;
    basis[2 * d] = 1.0;
    assert!(orthonormal_f64(&basis, 3, d).is_none());
    assert!(orthonormal_f64(&basis[..2 * d], 2, d).is_some());
}

#[test]
fn widths_are_rounded_and_ordered() {
    assert_eq!(candidate_widths(48, true), vec![8, 16, 24, 40, 48]);
    assert_eq!(candidate_widths(8, false), vec![8]);
    assert_eq!(candidate_widths(4, true), vec![4]);
    assert!(candidate_widths(4, false).is_empty());
}

#[test]
fn the_widest_projection_depends_on_the_shape() {
    assert_eq!(projection_block(0, 96, true, 0), None);
    assert_eq!(projection_block(512, 0, true, 0), None);
    assert_eq!(projection_block(512, 96, true, 0), Some(48));
    assert_eq!(projection_block(4, 16, true, 0), Some(4));
    assert_eq!(projection_block(512, 15, true, 0), Some(7));
    assert_eq!(projection_block(512, 8, true, 0), Some(4));
    assert_eq!(projection_block(512, 3, true, 0), Some(1));
    assert_eq!(projection_block(1, 8, true, 0), Some(1));
    assert_eq!(projection_block(512, 1, true, 0), None);
    assert_eq!(projection_block(512, 1, false, 256), None);
    assert_eq!(projection_block(512, 96, false, 255), None);
    assert_eq!(projection_block(512, 96, false, 256), Some(32));
    assert_eq!(projection_block(63, 96, false, 256), None);
    assert_eq!(projection_block(512, 20, false, 256), None);
    assert_eq!(usable_calibration(2048, 100, 8), 12);
    assert_eq!(usable_calibration(2, 100, 8), 2);
}

#[test]
fn the_narrowest_of_the_fastest_widths_is_chosen() {
    assert_eq!(select_width(&[Some(5), Some(3), Some(3), None], None), Some(2));
    assert_eq!(select_width(&[None, None], None), None);
    assert_eq!(select_width(&[Some(5), Some(4)], Some(4)), Some(1));
    assert_eq!(select_width(&[Some(5), Some(4)], Some(3)), None);
}

#[test]
fn automatic_assignment_is_the_default() {
    assert_eq!(ProjectedAssignment::default(), ProjectedAssignment::Auto);
}

#[test]
fn bounds_decide_which_distances_are_computed() {
    let distances = [4.0f32, 1.0, 9.0, 16.0];
    let bounds: Vec<u64> = [0.5f64, 0.25, 8.0, 15.0].iter().map(|b| b.to_bits()).collect();
    let found = search_row(
        0,
        &bounds,
        &|distance: u32| (f32::from_bits(distance) as f64).to_bits(),
        &|_: usize, c: usize| distances[c].to_bits(),
    );
    assert_eq!(found.index, 1);
    assert_eq!(found.evaluations, 2);
}

#[test]
fn every_row_costs_at_least_one_distance_and_at_most_all() {
    let distances = [[4.0f32, 1.0, 9.0], [2.0, 2.0, 0.5]];
    for bound in [0.0f64, 0.75, 100.0] {
        let (assigned, evaluations) = assign_with_stats(
            2,
            3,
            &|_: usize| vec![bound.to_bits(); 3],
            &|distance: u32| (f32::from_bits(distance) as f64).to_bits(),
            &|row: usize, c: usize| distances[row][c].to_bits(),
        );
        assert_eq!(assigned.len(), 2);
        assert!((2..=6).contains(&evaluations));
        if bound == 0.0 {
            assert_eq!((assigned, evaluations), (vec![1, 2], 6));
        }
    }
}
