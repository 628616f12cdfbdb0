use paimon_vindex_core::opq::{OPQMatrix, OPQRound};
use rand::rngs::StdRng;
use rand::SeedableRng;
use std::collections::HashSet;

fn bits(values: &[f32]) -> Vec<u32> {
    values.iter().map(|value| value.to_bits()).collect()
}

fn floats(values: &[u32]) -> Vec<f32> {
    values.iter().map(|&value| f32::from_bits(value)).collect()
}

fn product_step(sum: u32, a: u32, b: u32) -> u32 {
    (f32::from_bits(sum) + f32::from_bits(a) * f32::from_bits(b)).to_bits()
}

#[test]
fn test_apply_reverse() {
    let d = 4;
    let mut opq = OPQMatrix::new(d, 2);
    opq.rotation = bits(&[
        0.0, 1.0, 0.0, 0.0, 1.0, 0.0, 0.0, 0.0, 0.0, 0.0, 0.0, 1.0, 0.0, 0.0, 1.0, 0.0,
    ]);

    let x = [1.0, 2.0, 3.0, 4.0];
    let y = opq.apply(&bits(&x), &product_step);
    assert_eq!(floats(&y), vec![2.0, 1.0, 4.0, 3.0]);

    let x_back = floats(&opq.apply_reverse(&y, &product_step));

    for i in 0..d {
        assert!((x[i] - x_back[i]).abs() < 1e-6);
    }
}

#[test]
fn test_apply_batch_matches_apply() {
    let d = 4;
    let mut opq = OPQMatrix::new(d, 2);
    opq.rotation = bits(&[
        0.5, 0.0, -0.5, 1.0, 1.0, 0.25, 0.0, -0.25, 0.0, 1.5, 0.5, 0.0, -1.0, 0.0, 0.75, 0.25,
    ]);

    let n = 3;
    let data = bits(&[
        1.0, 2.0, 3.0, 4.0, -2.0, 0.5, 1.25, 3.5, 0.0, -1.0, 2.0, 0.75,
    ]);
    let batch = floats(&opq.apply_batch(&data, n, &product_step));

    for i in 0..n {
        let single = floats(&opq.apply(&data[i * d..(i + 1) * d], &product_step));
        for j in 0..d {
            assert!((batch[i * d + j] - single[j]).abs() < 1e-5);
        }
    }
}

#[test]
fn rotations_are_learned_in_rounds() {
    let mut opq = OPQMatrix::new(3, 1);
    assert_eq!((opq.niter, opq.niter_pq, opq.niter_pq_0), (50, 4, 40));
    assert_eq!(opq.rotation, vec![0; 9]);
    assert!(!opq.is_trained);
    let first = OPQRound {
        niter: 40,
        hot_start: false,
    };
    let later = OPQRound {
        niter: 4,
        hot_start: true,
    };
    assert_eq!(opq.round(0), first);
    assert_eq!(opq.round(1), later);
    assert_eq!(opq.round(49), later);
    opq.set_rotation((1..10).collect());
    assert!(opq.is_trained);
    let copy = opq.trained_copy();
    assert_eq!(copy.rotation, opq.rotation);
    assert_eq!((copy.niter, copy.max_train_points), (0, 0));
    assert!(copy.is_trained);
}

#[test]
fn large_training_sets_are_sampled() {
    let mut opq = OPQMatrix::new(2, 1);
    opq.max_train_points = 10;
    assert_eq!(opq.train_rows(7), 7);
    assert_eq!(opq.train_rows(70), 10);
    let data: Vec<u32> = (0..140).collect();
    let mut rng = StdRng::seed_from_u64(12345);
    assert_eq!(opq.training_sample(&data[..14], 7, &mut rng), data[..14]);
    let sample = opq.training_sample(&data, 70, &mut rng);
    assert_eq!(sample.len(), 20);
    let rows: HashSet<u32> = sample.chunks(2).map(|row| row[0]).collect();
    assert_eq!(rows.len(), 10);
    assert!(sample.chunks(2).all(|row| row[0] % 2 == 0 && row[1] == row[0] + 1));
    assert_ne!(sample[..], data[..20]);
}
