//! Clustering: what a training run decides and keeps count of.
use crate::arith::smaller;
use crate::distance::copy_numbers;
use crate::kmeans_assign::cluster_sizes;
use crate::kmeans_plan::KMeansConfig;
use crate::lists::gather_rows;
use crate::order::{float_less, MAX_DISTANCE};
use crate::sampling::subsample;
use rand::rngs::StdRng;
use vstd::prelude::*;

verus! {

/// More clusters than this are found by splitting.
pub const HIERARCHICAL_THRESHOLD: usize = 256;

/// Clusters are found by splitting: there are many, and more rows than that.
pub fn trains_by_splitting(n: usize, k: usize) -> (splits: bool)
    ensures
        splits == (k > HIERARCHICAL_THRESHOLD && n > k),
{
    k > HIERARCHICAL_THRESHOLD && n > k
}

/// The rows that a run trains on: all of them, or a random sample if there are
/// more than `limit`.
pub open spec fn is_training_set(
    data: Seq<u32>,
    n: nat,
    d: nat,
    limit: nat,
    rows: nat,
    chosen: Seq<u32>,
) -> bool {
    if n <= limit {
        rows == n && chosen == data
    } else {
        &&& rows == limit
        &&& exists|sample: Seq<usize>| #[trigger]
            crate::sampling::is_sample(sample, n, limit) && chosen
                == crate::lists::gathered_rows(data, sample, d)
    }
}

pub fn training_set(
    data: &Vec<u32>,
    n: usize,
    d: usize,
    k: usize,
    config: &KMeansConfig,
    rng: &mut StdRng,
) -> (chosen: (Vec<u32>, usize))
    requires
        n * d == data@.len(),
        k * config.max_points_per_centroid <= usize::MAX,
    ensures
        is_training_set(
            data@,
            n as nat,
            d as nat,
            (k * config.max_points_per_centroid) as nat,
            chosen.1 as nat,
            chosen.0@,
        ),
        chosen.0@.len() == chosen.1 * d,
        chosen.1 <= n,
        chosen.1 <= k * config.max_points_per_centroid,
{
    let limit: usize = k * config.max_points_per_centroid;
    if n > limit {
        let sample = subsample(data.as_slice(), n, d, limit, rng);
        (sample, limit)
    } else {
        (copy_numbers(data), n)
    }
}

/// Rows `0..k`, beginning again after the last of `n`.
pub open spec fn wrapped_rows(n: int, k: nat) -> Seq<usize> {
    Seq::new(k, |i: int| (i % n) as usize)
}

/// `k` centroids from at most as many rows: each row in turn, beginning again
/// after the last.
pub fn repeat_rows(data: &Vec<u32>, n: usize, d: usize, k: usize) -> (centroids: Vec<u32>)
    requires
        0 < n,
        n * d == data@.len(),
    ensures
        centroids@ == crate::lists::gathered_rows(data@, wrapped_rows(n as int, k as nat), d as nat),
        centroids@.len() == k * d,
{
    let mut rows: Vec<usize> = Vec::new();
    let mut i: usize = 0;
    while i < k
        invariant
            i <= k,
            0 < n,
            rows@ == wrapped_rows(n as int, i as nat),
        decreases k - i,
    {
        rows.push(i % n);
        assert(wrapped_rows(n as int, (i + 1) as nat) =~= rows@);
        i = i + 1;
    }
    proof {
        assert forall|j: int| 0 <= j < rows@.len() implies (#[trigger] rows@[j] + 1) * d
            <= data@.len() by {
            let row = rows@[j] as int;
            assert((row + 1) * d <= n * d) by (nonlinear_arith)
                requires
                    row < n,
            ;
        }
        crate::lists::lemma_gathered_len(data@, rows@, d as nat);
    }
    gather_rows(data.as_slice(), rows.as_slice(), d)
}

/// What a training run does next.
#[derive(Debug, Clone, Copy, PartialEq, Eq, Structural)]
pub enum TrainingStep {
    /// Begin from the centroids that were given.
    Resume,
    /// Choose initial centroids.
    Seed,
    /// Assign the rows and move the centroids.
    Iterate,
    /// Nothing is left to do.
    Finish,
}

/// A training run: some attempts of some iterations each, of which the one
/// with the smallest objective wins.
pub struct TrainingRun {
    niter: usize,
    nredo: usize,
    resumes: bool,
    redo: usize,
    running: bool,
    iter: usize,
    objective: u32,
    best_objective: u32,
    best: Vec<u32>,
}

/// The state of a training run.
#[verifier::ext_equal]
pub struct TrainingState {
    pub niter: nat,
    pub nredo: nat,
    pub resumes: bool,
    pub redo: nat,
    pub running: bool,
    pub iter: nat,
    pub objective: u32,
    pub best_objective: u32,
    pub best: Seq<u32>,
}

/// The state after the current attempt ended with these centroids.
pub open spec fn attempt_ended(state: TrainingState, centroids: Seq<u32>) -> TrainingState {
    let wins = crate::order::less(state.objective, state.best_objective);
    TrainingState {
        redo: state.redo + 1,
        running: false,
        best_objective: if wins {
            state.objective
        } else {
            state.best_objective
        },
        best: if wins {
            centroids
        } else {
            state.best
        },
        ..state
    }
}

/// The state after an attempt began.
pub open spec fn attempt_begun(state: TrainingState, centroids: Seq<u32>) -> TrainingState {
    let begun = TrainingState {
        running: true,
        iter: 0,
        objective: MAX_DISTANCE,
        ..state
    };
    if state.niter == 0 {
        attempt_ended(begun, centroids)
    } else {
        begun
    }
}

/// The state after an iteration: an attempt ends when the objective hardly
/// changed from the last one, or when its iterations are used up. An objective
/// that hardly changed is not taken over.
pub open spec fn iterated(
    state: TrainingState,
    objective: u32,
    steady: bool,
    centroids: Seq<u32>,
) -> TrainingState {
    if crate::order::less(state.objective, MAX_DISTANCE) && steady {
        attempt_ended(state, centroids)
    } else {
        let next = TrainingState { objective, iter: state.iter + 1, ..state };
        if next.iter >= state.niter {
            attempt_ended(next, centroids)
        } else {
            next
        }
    }
}

impl TrainingRun {
    pub closed spec fn state(self) -> TrainingState {
        TrainingState {
            niter: self.niter as nat,
            nredo: self.nredo as nat,
            resumes: self.resumes,
            redo: self.redo as nat,
            running: self.running,
            iter: self.iter as nat,
            objective: self.objective,
            best_objective: self.best_objective,
            best: self.best@,
        }
    }

    pub open spec fn well_formed(self) -> bool {
        let state = self.state();
        &&& state.redo <= state.nredo
        &&& state.running ==> state.redo < state.nredo && state.iter < state.niter
    }

    /// Begins a run for `size` numbers of centroids. A run that resumes from
    /// given centroids makes one attempt.
    pub fn new(config: &KMeansConfig, resumes: bool, size: usize) -> (run: Self)
        ensures
            run.well_formed(),
            run.state() == (TrainingState {
                niter: config.niter as nat,
                nredo: if resumes {
                    1
                } else {
                    config.nredo as nat
                },
                resumes,
                redo: 0,
                running: false,
                iter: 0,
                objective: MAX_DISTANCE,
                best_objective: MAX_DISTANCE,
                best: Seq::new(size as nat, |i: int| 0u32),
            }),
    {
        let best: Vec<u32> = zeros(size);
        TrainingRun {
            niter: config.niter,
            nredo: if resumes {
                1
            } else {
                config.nredo
            },
            resumes,
            redo: 0,
            running: false,
            iter: 0,
            objective: MAX_DISTANCE,
            best_objective: MAX_DISTANCE,
            best,
        }
    }

    pub fn next_step(&self) -> (step: TrainingStep)
        ensures
            step == (if self.state().running {
                TrainingStep::Iterate
            } else if self.state().redo >= self.state().nredo {
                TrainingStep::Finish
            } else if self.state().redo == 0 && self.state().resumes {
                TrainingStep::Resume
            } else {
                TrainingStep::Seed
            }),
    {
        if self.running {
            TrainingStep::Iterate
        } else if self.redo >= self.nredo {
            TrainingStep::Finish
        } else if self.redo == 0 && self.resumes {
            TrainingStep::Resume
        } else {
            TrainingStep::Seed
        }
    }

    /// The objective of the last iteration.
    pub fn last_objective(&self) -> (objective: u32)
        ensures
            objective == self.state().objective,
    {
        self.objective
    }

    fn end_attempt(&mut self, centroids: &Vec<u32>)
        requires
            old(self).state().redo < old(self).state().nredo,
        ensures
            final(self).well_formed(),
            final(self).state() == attempt_ended(old(self).state(), centroids@),
    {
        if float_less(self.objective, self.best_objective) {
            self.best_objective = self.objective;
            self.best = copy_numbers(centroids);
        }
        self.redo = self.redo + 1;
        self.running = false;
    }

    /// An attempt begins from these centroids.
    pub fn begin_attempt(&mut self, centroids: &Vec<u32>)
        requires
            old(self).well_formed(),
            !old(self).state().running,
            old(self).state().redo < old(self).state().nredo,
        ensures
            final(self).well_formed(),
            final(self).state() == attempt_begun(old(self).state(), centroids@),
    {
        self.running = true;
        self.iter = 0;
        self.objective = MAX_DISTANCE;
        if self.niter == 0 {
            self.end_attempt(centroids);
        }
    }

    /// An iteration gave this objective and moved the centroids. `steady`
    /// tells that the objective hardly changed from the last one.
    pub fn record_iteration(&mut self, objective: u32, steady: bool, centroids: &Vec<u32>)
        requires
            old(self).well_formed(),
            old(self).state().running,
        ensures
            final(self).well_formed(),
            final(self).state() == iterated(old(self).state(), objective, steady, centroids@),
    {
        if float_less(self.objective, MAX_DISTANCE) && steady {
            self.end_attempt(centroids);
            return ;
        }
        self.objective = objective;
        self.iter = self.iter + 1;
        if self.iter >= self.niter {
            self.end_attempt(centroids);
        }
    }

    /// The centroids of the best attempt.
    pub fn into_best(self) -> (best: Vec<u32>)
        ensures
            best@ == self.state().best,
    {
        self.best
    }
}

/// `size` zeros.
pub fn zeros(size: usize) -> (values: Vec<u32>)
    ensures
        values@ == Seq::new(size as nat, |i: int| 0u32),
{
    let mut values: Vec<u32> = Vec::new();
    let mut i: usize = 0;
    while i < size
        invariant
            i <= size,
            values@ == Seq::new(i as nat, |j: int| 0u32),
        decreases size - i,
    {
        values.push(0);
        assert(values@ =~= Seq::new((i + 1) as nat, |j: int| 0u32));
        i = i + 1;
    }
    values
}

/// The outcome of finished attempts, each with objective and centroids.
pub open spec fn best_attempt(attempts: Seq<(u32, Seq<u32>)>, none: Seq<u32>) -> (u32, Seq<u32>)
    decreases attempts.len(),
{
    if attempts.len() == 0 {
        (MAX_DISTANCE, none)
    } else {
        let before = best_attempt(attempts.drop_last(), none);
        if crate::order::less(attempts.last().0, before.0) {
            attempts.last()
        } else {
            before
        }
    }
}

/// The first attempt with the smallest objective wins. Where no objective is
/// below the largest finite number, none does.
pub proof fn law_best_attempt_wins(attempts: Seq<(u32, Seq<u32>)>, none: Seq<u32>)
    ensures
        ({
            let best = best_attempt(attempts, none);
            &&& forall|i: int|
                0 <= i < attempts.len() ==> !crate::order::less(#[trigger] attempts[i].0, best.0)
            &&& best == (MAX_DISTANCE, none) || exists|i: int|
                0 <= i < attempts.len() && #[trigger] attempts[i] == best && forall|j: int|
                    0 <= j < i ==> crate::order::is_nan(#[trigger] attempts[j].0)
                        || crate::order::less(best.0, attempts[j].0)
            &&& !crate::order::is_nan(best.0)
        }),
    decreases attempts.len(),
{
    if attempts.len() > 0 {
        let rest = attempts.drop_last();
        law_best_attempt_wins(rest, none);
        let before = best_attempt(rest, none);
        let best = best_attempt(attempts, none);
        assert forall|i: int| 0 <= i < attempts.len() implies !crate::order::less(
            #[trigger] attempts[i].0,
            best.0,
        ) by {
            if i < rest.len() {
                assert(rest[i] == attempts[i]);
                assert(!crate::order::less(rest[i].0, before.0));
            }
        }
        if crate::order::less(attempts.last().0, before.0) {
            let i = attempts.len() - 1;
            assert(attempts[i] == best);
            assert forall|j: int| 0 <= j < i implies crate::order::is_nan(#[trigger] attempts[j].0)
                || crate::order::less(best.0, attempts[j].0) by {
                assert(rest[j] == attempts[j]);
                assert(!crate::order::less(rest[j].0, before.0));
            }
        } else if best != (MAX_DISTANCE, none) {
            let i = choose|i: int|
                0 <= i < rest.len() && #[trigger] rest[i] == before && forall|j: int|
                    0 <= j < i ==> crate::order::is_nan(#[trigger] rest[j].0) || crate::order::less(
                        before.0,
                        rest[j].0,
                    );
            assert(attempts[i] == best);
            assert forall|j: int| 0 <= j < i implies crate::order::is_nan(#[trigger] attempts[j].0)
                || crate::order::less(best.0, attempts[j].0) by {
                assert(rest[j] == attempts[j]);
            }
        }
    }
}

/// Ending an attempt adds it to the finished ones.
pub proof fn law_ended_attempts_accumulate(
    state: TrainingState,
    attempts: Seq<(u32, Seq<u32>)>,
    none: Seq<u32>,
    centroids: Seq<u32>,
)
    requires
        (state.best_objective, state.best) == best_attempt(attempts, none),
    ensures
        ({
            let after = attempt_ended(state, centroids);
            (after.best_objective, after.best) == best_attempt(
                attempts.push((state.objective, centroids)),
                none,
            )
        }),
{
    let more = attempts.push((state.objective, centroids));
    assert(more.drop_last() =~= attempts);
}

/// The largest weight. Adding one to it in single precision changes nothing.
pub const MAX_WEIGHT: usize = 16_777_216;

/// Iterations of a run that compresses a chunk.
pub const CHUNK_ITERATIONS: usize = 15;

/// The weight of a centroid that stands for so many rows.
pub open spec fn weight_of(rows: nat) -> nat {
    if rows <= MAX_WEIGHT {
        rows
    } else {
        MAX_WEIGHT as nat
    }
}

/// The sum of all weights.
pub open spec fn total(weights: Seq<usize>) -> nat
    decreases weights.len(),
{
    if weights.len() == 0 {
        0
    } else {
        total(weights.drop_last()) + weights.last() as nat
    }
}

/// What the centroids of a chunk weigh: each as many rows as are assigned to
/// it, up to the largest weight.
pub open spec fn chunk_weights(assignments: Seq<usize>, clusters: nat) -> Seq<usize> {
    Seq::new(
        clusters,
        |c: int| weight_of(crate::kmeans_assign::cluster_size(assignments, c)) as usize,
    )
}

/// No cluster has more rows than the largest weight.
pub open spec fn fits_weights(assignments: Seq<usize>, clusters: nat) -> bool {
    forall|c: int|
        0 <= c < clusters ==> #[trigger] crate::kmeans_assign::cluster_size(assignments, c)
            <= MAX_WEIGHT
}

/// Two runs of weights one after the other add up to both of their sums.
proof fn lemma_total_of_both(before: Seq<usize>, more: Seq<usize>)
    ensures
        total(before + more) == total(before) + total(more),
    decreases more.len(),
{
    if more.len() == 0 {
        assert(before + more =~= before);
    } else {
        assert((before + more).drop_last() =~= before + more.drop_last());
        lemma_total_of_both(before, more.drop_last());
    }
}

/// Where no weight is cut off, the weights of a chunk add up to its rows.
proof fn lemma_chunk_weights_total(assignments: Seq<usize>, clusters: nat)
    requires
        fits_weights(assignments, clusters),
        clusters <= usize::MAX,
        forall|i: int| 0 <= i < assignments.len() ==> #[trigger] assignments[i] < clusters,
    ensures
        total(chunk_weights(assignments, clusters)) == assignments.len(),
    decreases assignments.len(),
{
    let weights = chunk_weights(assignments, clusters);
    if assignments.len() == 0 {
        assert forall|c: int| 0 <= c < clusters implies #[trigger] weights[c] == 0 by {
            assert(crate::kmeans_assign::cluster_size(assignments, c) == 0);
        }
        lemma_total_of_zeros(weights);
    } else {
        let rest = assignments.drop_last();
        let last = assignments.last() as int;
        assert(assignments[assignments.len() - 1] < clusters);
        assert(crate::kmeans_assign::cluster_size(assignments, last)
            == crate::kmeans_assign::cluster_size(rest, last) + 1);
        assert forall|c: int| 0 <= c < clusters implies #[trigger]
            crate::kmeans_assign::cluster_size(rest, c) <= MAX_WEIGHT by {
            assert(crate::kmeans_assign::cluster_size(assignments, c) <= MAX_WEIGHT);
        }
        assert forall|i: int| 0 <= i < rest.len() implies #[trigger] rest[i] < clusters by {
            assert(assignments[i] < clusters);
        }
        lemma_chunk_weights_total(rest, clusters);
        let before = chunk_weights(rest, clusters);
        assert(crate::kmeans_assign::cluster_size(assignments, last) <= MAX_WEIGHT);
        assert(weights =~= before.update(last, (before[last] + 1) as usize));
        lemma_total_of_update(before, last);
    }
}

proof fn lemma_total_of_zeros(weights: Seq<usize>)
    requires
        forall|c: int| 0 <= c < weights.len() ==> #[trigger] weights[c] == 0,
    ensures
        total(weights) == 0,
    decreases weights.len(),
{
    if weights.len() > 0 {
        assert(weights.last() == weights[weights.len() - 1]);
        lemma_total_of_zeros(weights.drop_last());
    }
}

/// One row more in a cluster makes the sum one larger.
proof fn lemma_total_of_update(weights: Seq<usize>, at: int)
    requires
        0 <= at < weights.len(),
        weights[at] < usize::MAX,
    ensures
        total(weights.update(at, (weights[at] + 1) as usize)) == total(weights) + 1,
    decreases weights.len(),
{
    let after = weights.update(at, (weights[at] + 1) as usize);
    if at == weights.len() - 1 {
        assert(after.drop_last() =~= weights.drop_last());
    } else {
        let rest = weights.drop_last();
        lemma_total_of_update(rest, at);
        assert(after.drop_last() =~= rest.update(at, (rest[at] + 1) as usize));
    }
}

/// How a chunk is compressed: into so many centroids, by a run with these
/// parameters.
pub struct ChunkPlan {
    pub clusters: usize,
    pub config: KMeansConfig,
}

/// Training on more rows than fit in memory. Each chunk of rows is compressed
/// into weighted centroids, and the final centroids are found from those.
pub struct StreamingKMeans {
    pub d: usize,
    pub k: usize,
    pub chunk_size: usize,
    pub config: KMeansConfig,
    pub coreset_centroids: Vec<u32>,
    pub coreset_weights: Vec<usize>,
}

impl StreamingKMeans {
    /// The weighted centroids of the chunks so far, one after the other.
    pub open spec fn centroids(self) -> Seq<u32> {
        self.coreset_centroids@
    }

    /// The weights of these centroids.
    pub open spec fn weights(self) -> Seq<usize> {
        self.coreset_weights@
    }

    /// The parameters of the final run.
    pub open spec fn parameters(self) -> KMeansConfig {
        self.config
    }

    /// One weight for each centroid.
    pub open spec fn well_formed(self) -> bool {
        self.centroids().len() == self.weights().len() * self.d
    }

    pub fn new(d: usize, k: usize, chunk_size: usize, config: KMeansConfig) -> (trainer: Self)
        ensures
            trainer.well_formed(),
            trainer.d == d,
            trainer.k == k,
            trainer.chunk_size == chunk_size,
            trainer.parameters() == config,
            trainer.centroids() == Seq::<u32>::empty(),
            trainer.weights() == Seq::<usize>::empty(),
    {
        StreamingKMeans {
            d,
            k,
            chunk_size,
            config,
            coreset_centroids: Vec::new(),
            coreset_weights: Vec::new(),
        }
    }

    /// How a chunk of `n` rows is compressed: into as many centroids as are
    /// wanted, whether or not it has so many rows. Nothing is done with a chunk
    /// that has no rows, or where no centroids are wanted.
    pub fn plan_chunk(&self, n: usize) -> (plan: Option<ChunkPlan>)
        requires
            self.parameters().seed + self.weights().len() <= u64::MAX,
        ensures
            match plan {
                None => n == 0 || self.k == 0,
                Some(plan) => {
                    &&& n > 0 && self.k > 0
                    &&& plan.clusters == self.k
                    &&& plan.config.niter == CHUNK_ITERATIONS
                    &&& plan.config.seed == self.parameters().seed + self.weights().len()
                    &&& plan.config.nredo == 1
                    &&& plan.config.max_points_per_centroid == 256
                    &&& plan.config.balance_factor == 0
                },
            },
    {
        if n == 0 || self.k == 0 {
            return None;
        }
        let seed: u64 = self.config.seed + self.coreset_weights.len() as u64;
        Some(
            ChunkPlan {
                clusters: self.k,
                config: KMeansConfig::with_iterations(CHUNK_ITERATIONS, seed),
            },
        )
    }

    /// Takes in a compressed chunk: its `k` centroids, and for each of its rows
    /// the centroid that it is nearest to. A chunk that has no rows adds
    /// nothing. As long as no weight reaches the largest, the weights of the
    /// chunk add up to its number of rows.
    pub fn add_chunk(&mut self, centroids: &Vec<u32>, assignments: &Vec<usize>)
        requires
            old(self).well_formed(),
            assignments@.len() > 0 ==> centroids@.len() == old(self).k * old(self).d,
            forall|i: int| 0 <= i < assignments@.len() ==> #[trigger] assignments@[i] < old(self).k,
        ensures
            final(self).well_formed(),
            final(self).d == old(self).d,
            final(self).k == old(self).k,
            final(self).chunk_size == old(self).chunk_size,
            final(self).parameters() == old(self).parameters(),
            assignments@.len() == 0 ==> *final(self) == *old(self),
            assignments@.len() > 0 ==> {
                &&& final(self).centroids() == old(self).centroids() + centroids@
                &&& final(self).weights() == old(self).weights() + chunk_weights(
                    assignments@,
                    old(self).k as nat,
                )
            },
            fits_weights(assignments@, old(self).k as nat) ==> total(final(self).weights())
                == total(old(self).weights()) + assignments@.len(),
    {
        if assignments.len() == 0 {
            return;
        }
        let ghost old_centroids = self.coreset_centroids@;
        let ghost old_weights = self.coreset_weights@;
        let clusters: usize = self.k;
        let mut added = copy_numbers(centroids);
        self.coreset_centroids.append(&mut added);
        assert(self.coreset_centroids@ =~= old_centroids + centroids@);
        let sizes = cluster_sizes(assignments.as_slice(), clusters);
        let ghost width = self.d;
        let ghost others = *self;
        let ghost weights = chunk_weights(assignments@, clusters as nat);
        let mut c: usize = 0;
        while c < clusters
            invariant
                c <= clusters,
                sizes@.len() == clusters,
                weights == chunk_weights(assignments@, clusters as nat),
                forall|b: int|
                    0 <= b < clusters ==> #[trigger] sizes@[b]
                        == crate::kmeans_assign::cluster_size(assignments@, b),
                self.d == others.d,
                self.k == others.k,
                self.chunk_size == others.chunk_size,
                self.config == others.config,
                self.coreset_centroids@ == others.coreset_centroids@,
                self.coreset_weights@ == old_weights + weights.take(c as int),
            decreases clusters - c,
        {
            let size: usize = sizes[c];
            self.coreset_weights.push(smaller(size, MAX_WEIGHT));
            assert(self.coreset_weights@ =~= old_weights + weights.take(c + 1));
            c = c + 1;
        }
        proof {
            assert(weights.take(clusters as int) =~= weights);
            assert((old_weights.len() + clusters) * width == old_weights.len() * width + clusters
                * width) by (nonlinear_arith);
            lemma_total_of_both(old_weights, weights);
            if fits_weights(assignments@, clusters as nat) {
                lemma_chunk_weights_total(assignments@, clusters as nat);
            }
        }
    }

    /// The final centroids where no training is needed: zeros if there was no
    /// chunk, and the weighted centroids followed by zeros if there are no more
    /// of them than wanted.
    pub fn finalize(&self) -> (centroids: Option<Vec<u32>>)
        requires
            self.well_formed(),
            self.k * self.d <= usize::MAX,
        ensures
            match centroids {
                None => self.weights().len() > self.k,
                Some(centroids) => {
                    &&& self.weights().len() <= self.k
                    &&& centroids@ == self.centroids() + Seq::new(
                        (self.k * self.d - self.centroids().len()) as nat,
                        |i: int| 0u32,
                    )
                },
            },
    {
        if self.coreset_weights.len() > self.k {
            return None;
        }
        let size: usize = self.k * self.d;
        let held: usize = self.coreset_centroids.len();
        proof {
            let weights = self.weights().len();
            assert(weights * self.d <= self.k * self.d) by (nonlinear_arith)
                requires
                    weights <= self.k,
            ;
        }
        let mut centroids = copy_numbers(&self.coreset_centroids);
        let mut rest = zeros(size - held);
        centroids.append(&mut rest);
        assert(centroids@ =~= self.centroids() + Seq::new(
            (self.k * self.d - self.centroids().len()) as nat,
            |i: int| 0u32,
        ));
        Some(centroids)
    }
}

} // verus!
