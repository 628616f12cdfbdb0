//! Rotation that precedes product quantization: its parameters and training
//! schedule.
use crate::distance::copy_numbers;
use crate::sampling::subsample;
use rand::rngs::StdRng;
use vstd::prelude::*;

verus! {

/// A `d * d` rotation, row-major, learned in `niter` rounds.
#[derive(Debug)]
pub struct OPQMatrix {
    pub d: usize,
    pub m: usize,
    pub niter: usize,
    pub niter_pq: usize,
    pub niter_pq_0: usize,
    pub max_train_points: usize,
    pub rotation: Vec<u32>,
    pub is_trained: bool,
}

/// How one training round runs its quantizer.
#[derive(Debug, Clone, Copy, PartialEq, Eq, Structural)]
pub struct OPQRound {
    pub niter: usize,
    pub hot_start: bool,
}

impl OPQMatrix {
    /// A rotation of zeros with the usual training schedule.
    pub open spec fn is_untrained(self, d: usize, m: usize) -> bool {
        &&& self.d == d
        &&& self.m == m
        &&& self.niter == 50
        &&& self.niter_pq == 4
        &&& self.niter_pq_0 == 40
        &&& self.max_train_points == 65536
        &&& self.rotation@ == Seq::new((d * d) as nat, |i: int| 0u32)
        &&& !self.is_trained
    }

    pub fn new(d: usize, m: usize) -> (opq: Self)
        requires
            d * d <= usize::MAX,
        ensures
            opq.is_untrained(d, m),
    {
        let rotation: Vec<u32> = vec![0u32; d * d];
        assert(rotation@ =~= Seq::new((d * d) as nat, |i: int| 0u32));
        OPQMatrix {
            d,
            m,
            niter: 50,
            niter_pq: 4,
            niter_pq_0: 40,
            max_train_points: 65536,
            rotation,
            is_trained: false,
        }
    }

    /// A trained rotation with no training schedule of its own.
    pub fn trained_copy(&self) -> (copy: Self)
        ensures
            copy.d == self.d,
            copy.m == self.m,
            copy.niter == 0,
            copy.niter_pq == 0,
            copy.niter_pq_0 == 0,
            copy.max_train_points == 0,
            copy.rotation@ == self.rotation@,
            copy.is_trained,
    {
        OPQMatrix {
            d: self.d,
            m: self.m,
            niter: 0,
            niter_pq: 0,
            niter_pq_0: 0,
            max_train_points: 0,
            rotation: copy_numbers(&self.rotation),
            is_trained: true,
        }
    }

    /// Training rows: all of them, or the limit if there are more.
    pub fn train_rows(&self, n: usize) -> (rows: usize)
        ensures
            rows == (if n < self.max_train_points {
                n
            } else {
                self.max_train_points
            }),
    {
        if n < self.max_train_points {
            n
        } else {
            self.max_train_points
        }
    }

    /// The vectors to train on: the given ones, or a random sample of them if
    /// there are more than the limit.
    pub fn training_sample(&self, data: &[u32], n: usize, rng: &mut StdRng) -> (sample: Vec<u32>)
        requires
            n * self.d <= data@.len(),
        ensures
            sample@.len() == (if n < self.max_train_points {
                n as int
            } else {
                self.max_train_points as int
            }) * self.d,
            n <= self.max_train_points ==> sample@ == data@.take(n * self.d as int),
            n > self.max_train_points ==> exists|rows: Seq<usize>| #[trigger]
                crate::sampling::is_sample(rows, n as nat, self.max_train_points as nat)
                    && sample@ == crate::lists::gathered_rows(data@, rows, self.d as nat),
    {
        if n > self.max_train_points {
            subsample(data, n, self.d, self.max_train_points, rng)
        } else {
            let total: usize = data.len();
            assert(0 <= n * self.d) by (nonlinear_arith);
            let len: usize = n * self.d;
            let mut sample: Vec<u32> = Vec::new();
            let mut i: usize = 0;
            while i < len
                invariant
                    i <= len <= data@.len(),
                    sample@ == data@.take(i as int),
                decreases len - i,
            {
                sample.push(data[i]);
                assert(data@.take(i + 1) =~= data@.take(i as int).push(data@[i as int]));
                i = i + 1;
            }
            sample
        }
    }

    /// Round 0 trains the quantizer from scratch and longer; later rounds
    /// continue from the previous codebook.
    pub fn round(&self, iter: usize) -> (round: OPQRound)
        ensures
            round == (if iter == 0 {
                OPQRound { niter: self.niter_pq_0, hot_start: false }
            } else {
                OPQRound { niter: self.niter_pq, hot_start: true }
            }),
    {
        if iter == 0 {
            OPQRound { niter: self.niter_pq_0, hot_start: false }
        } else {
            OPQRound { niter: self.niter_pq, hot_start: true }
        }
    }

    /// Takes over a learned rotation.
    pub fn set_rotation(&mut self, rotation: Vec<u32>)
        requires
            rotation@.len() == old(self).d * old(self).d,
        ensures
            final(self).rotation@ == rotation@,
            final(self).is_trained,
            final(self).d == old(self).d,
            final(self).m == old(self).m,
            final(self).niter == old(self).niter,
            final(self).niter_pq == old(self).niter_pq,
            final(self).niter_pq_0 == old(self).niter_pq_0,
            final(self).max_train_points == old(self).max_train_points,
    {
        self.rotation = rotation;
        self.is_trained = true;
    }
}

/// Component `i` of a rotated vector: the steps of row `i` of the rotation and
/// the vector.
pub open spec fn rotated_component<F: Fn(u32, u32, u32) -> u32>(
    f: F,
    rotation: Seq<u32>,
    d: int,
    x: Seq<u32>,
    start: int,
    i: int,
) -> u32 {
    crate::pq_tables::accumulated(f, 0u32, rotation, i * d, x, start, d as nat)
}

/// The steps of the first `rows` entries of column `i` of the rotation and a
/// vector.
pub open spec fn column_steps<F: Fn(u32, u32, u32) -> u32>(
    f: F,
    rotation: Seq<u32>,
    d: int,
    y: Seq<u32>,
    i: int,
    rows: nat,
) -> u32
    decreases rows,
{
    if rows == 0 {
        0
    } else {
        let j = rows - 1;
        crate::pq_tables::stepped(
            f,
            column_steps(f, rotation, d, y, i, j as nat),
            rotation[j * d + i],
            y[j],
        )
    }
}

impl OPQMatrix {
    /// The rotation has one entry for each pair of dimensions.
    pub open spec fn well_formed(self) -> bool {
        self.rotation@.len() == self.d * self.d
    }

    /// Rotates a vector.
    pub fn apply<F: Fn(u32, u32, u32) -> u32>(&self, x: &[u32], f: &F) -> (y: Vec<u32>)
        requires
            self.well_formed(),
            x@.len() >= self.d,
            crate::pq_tables::is_step(*f),
        ensures
            y@ == Seq::new(
                self.d as nat,
                |i: int| rotated_component(*f, self.rotation@, self.d as int, x@, 0, i),
            ),
    {
        let y = self.apply_batch(x, 1, f);
        proof {
            assert(1 * self.d == self.d && 0 * self.d == 0) by (nonlinear_arith);
            let expected = Seq::new(
                self.d as nat,
                |i: int| rotated_component(*f, self.rotation@, self.d as int, x@, 0, i),
            );
            assert forall|i: int| 0 <= i < self.d implies y@[i] == expected[i] by {
                vstd::arithmetic::div_mod::lemma_small_mod(i as nat, self.d as nat);
                vstd::arithmetic::div_mod::lemma_basic_div(i, self.d as int);
            }
            assert(y@ =~= expected);
        }
        y
    }

    /// Rotates `n` vectors.
    pub fn apply_batch<F: Fn(u32, u32, u32) -> u32>(&self, data: &[u32], n: usize, f: &F) -> (out:
        Vec<u32>)
        requires
            self.well_formed(),
            data@.len() >= n * self.d,
            crate::pq_tables::is_step(*f),
        ensures
            out@ == Seq::new(
                (n * self.d) as nat,
                |at: int|
                    rotated_component(
                        *f,
                        self.rotation@,
                        self.d as int,
                        data@,
                        (at / self.d as int) * self.d,
                        at % (self.d as int),
                    ),
            ),
    {
        let d: usize = self.d;
        let data_len: usize = data.len();
        let rotation_len: usize = self.rotation.len();
        let total: usize = n * d;
        let ghost expected = Seq::new(
            (n * self.d) as nat,
            |at: int|
                rotated_component(
                    *f,
                    self.rotation@,
                    self.d as int,
                    data@,
                    (at / self.d as int) * self.d,
                    at % (self.d as int),
                ),
        );
        let mut out: Vec<u32> = Vec::new();
        let mut at: usize = 0;
        while at < total
            invariant
                self.well_formed(),
                crate::pq_tables::is_step(*f),
                d == self.d,
                data_len == data@.len(),
                rotation_len == self.rotation@.len(),
                total == n * d,
                data_len >= total,
                at <= total,
                expected == Seq::new(
                    (n * self.d) as nat,
                    |at: int|
                        rotated_component(
                            *f,
                            self.rotation@,
                            self.d as int,
                            data@,
                            (at / self.d as int) * self.d,
                            at % (self.d as int),
                        ),
                ),
                out@ == expected.take(at as int),
            decreases total - at,
        {
            assert(d > 0) by (nonlinear_arith)
                requires
                    at < n * d,
            ;
            let row: usize = at / d;
            let i: usize = at % d;
            assert(row < n && i < d && 0 <= row * d && row * d + d <= n * d && 0 <= i * d && i * d
                + d <= d * d) by (nonlinear_arith)
                requires
                    at < n * d,
                    d > 0,
                    row == at / d,
                    i == at % d,
            ;
            let value: u32 = crate::pq_tables::accumulate(
                f,
                0u32,
                self.rotation.as_slice(),
                i * d,
                data,
                row * d,
                d,
            );
            assert(value == expected[at as int]);
            out.push(value);
            at = at + 1;
            assert(out@ =~= expected.take(at as int));
        }
        assert(out@ =~= expected);
        out
    }

    /// Rotates a vector back, by the transposed rotation.
    pub fn apply_reverse<F: Fn(u32, u32, u32) -> u32>(&self, y: &[u32], f: &F) -> (x: Vec<u32>)
        requires
            self.well_formed(),
            y@.len() >= self.d,
            crate::pq_tables::is_step(*f),
        ensures
            x@ == Seq::new(
                self.d as nat,
                |i: int|
                    column_steps(*f, self.rotation@, self.d as int, y@, i, self.d as nat),
            ),
    {
        let d: usize = self.d;
        let rotation_len: usize = self.rotation.len();
        let mut x: Vec<u32> = Vec::new();
        let mut i: usize = 0;
        while i < d
            invariant
                self.well_formed(),
                y@.len() >= self.d,
                crate::pq_tables::is_step(*f),
                d == self.d,
                rotation_len == self.rotation@.len(),
                i <= d,
                x@ == Seq::new(
                    i as nat,
                    |i: int|
                        column_steps(*f, self.rotation@, self.d as int, y@, i, self.d as nat),
                ),
            decreases d - i,
        {
            let mut sum: u32 = 0;
            let mut j: usize = 0;
            while j < d
                invariant
                    self.well_formed(),
                    y@.len() >= self.d,
                    crate::pq_tables::is_step(*f),
                    d == self.d,
                    rotation_len == self.rotation@.len(),
                    i < d,
                    j <= d,
                    sum == column_steps(
                        *f,
                        self.rotation@,
                        self.d as int,
                        y@,
                        i as int,
                        j as nat,
                    ),
                decreases d - j,
            {
                assert(0 <= j * d && j * d + d <= d * d) by (nonlinear_arith)
                    requires
                        j < d,
                ;
                let ghost before = sum;
                sum = f(sum, self.rotation[j * d + i], y[j]);
                assert(call_ensures(*f, (before, self.rotation@[j * d + i], y@[j as int]), sum));
                j = j + 1;
            }
            x.push(sum);
            i = i + 1;
            assert(x@ =~= Seq::new(
                i as nat,
                |i: int|
                    column_steps(*f, self.rotation@, self.d as int, y@, i, self.d as nat),
            ));
        }
        x
    }
}

} // verus!
