//! Random row samples.
use crate::lists::gather_rows;
use rand::rngs::StdRng;
use rand::Rng;
use vstd::prelude::*;

verus! {

/// A seeded generator of random numbers.
#[verifier::external_type_specification]
#[verifier::external_body]
pub struct ExStdRng(StdRng);

/// `Rng::gen_range` over a half-open range of `usize`: a value inside it. It
/// panics on an empty range. Which value comes is not stated.
#[verifier::external_body]
pub(crate) fn draw_between(rng: &mut StdRng, low: usize, high: usize) -> (value: usize)
    requires
        low < high,
    ensures
        low <= value < high,
{
    rng.gen_range(low..high)
}

/// The order after exchanging place `i` with place `draws[i]` for the first
/// `steps` places in turn.
pub open spec fn partly_shuffled(n: nat, draws: Seq<usize>, steps: nat) -> Seq<usize>
    decreases steps,
{
    if steps == 0 {
        crate::rq::identity_order(n)
    } else {
        let before = partly_shuffled(n, draws, (steps - 1) as nat);
        crate::rq::exchanged(before, steps - 1, draws[steps - 1] as int)
    }
}

/// Draw `i` is a place from `i` on.
pub open spec fn draws_fit(draws: Seq<usize>, n: nat) -> bool {
    &&& draws.len() <= n
    &&& forall|i: int| 0 <= i < draws.len() ==> i <= #[trigger] draws[i] < n
}

/// Exchanging keeps a permutation, so no row is sampled twice.
pub proof fn law_samples_are_distinct(n: nat, draws: Seq<usize>, steps: nat)
    requires
        n <= usize::MAX,
        draws_fit(draws, n),
        steps <= draws.len(),
    ensures
        crate::rq::is_permutation(partly_shuffled(n, draws, steps)),
        partly_shuffled(n, draws, steps).len() == n,
    decreases steps,
{
    if steps > 0 {
        law_samples_are_distinct(n, draws, (steps - 1) as nat);
        let before = partly_shuffled(n, draws, (steps - 1) as nat);
        let i = steps - 1;
        let j = draws[steps - 1] as int;
        assert(i <= draws[i] < n);
        assert(crate::rq::is_permutation(crate::rq::exchanged(before, i, j)));
    }
}

/// The first rows of the order that the draws produce.
pub fn sample_rows(n: usize, draws: &[usize]) -> (rows: Vec<usize>)
    requires
        draws_fit(draws@, n as nat),
    ensures
        rows@ == partly_shuffled(n as nat, draws@, draws@.len()).take(draws@.len() as int),
        rows@.len() == draws@.len(),
        forall|i: int| 0 <= i < rows@.len() ==> #[trigger] rows@[i] < n,
        rows@.no_duplicates(),
{
    let mut order: Vec<usize> = Vec::new();
    let mut k: usize = 0;
    while k < n
        invariant
            k <= n,
            order@ == crate::rq::identity_order(k as nat),
        decreases n - k,
    {
        order.push(k);
        k = k + 1;
    }
    let mut i: usize = 0;
    while i < draws.len()
        invariant
            i <= draws@.len(),
            draws_fit(draws@, n as nat),
            order@.len() == n,
            order@ == partly_shuffled(n as nat, draws@, i as nat),
        decreases draws@.len() - i,
    {
        assert(i <= draws@[i as int] < n);
        let j: usize = draws[i];
        let a: usize = order[i];
        let b: usize = order[j];
        order.set(i, b);
        order.set(j, a);
        i = i + 1;
    }
    proof {
        law_samples_are_distinct(n as nat, draws@, draws@.len());
    }
    order.truncate(draws.len());
    order
}

/// Rows drawn at random, each at most once.
pub fn random_rows(rng: &mut StdRng, n: usize, count: usize) -> (rows: Vec<usize>)
    requires
        count <= n,
    ensures
        rows@.len() == count,
        forall|i: int| 0 <= i < rows@.len() ==> #[trigger] rows@[i] < n,
        rows@.no_duplicates(),
{
    let mut draws: Vec<usize> = Vec::new();
    let mut i: usize = 0;
    while i < count
        invariant
            i <= count <= n,
            draws@.len() == i,
            forall|k: int| 0 <= k < draws@.len() ==> k <= #[trigger] draws@[k] < n,
        decreases count - i,
    {
        let j: usize = draw_between(rng, i, n);
        draws.push(j);
        i = i + 1;
    }
    sample_rows(n, draws.as_slice())
}

/// A random sample of `count` of the `n` rows of a matrix.
pub fn subsample(data: &[u32], n: usize, d: usize, count: usize, rng: &mut StdRng) -> (sample: Vec<
    u32,
>)
    requires
        count <= n,
        n * d <= data@.len(),
    ensures
        sample@.len() == count * d,
        exists|rows: Seq<usize>| #[trigger]
            is_sample(rows, n as nat, count as nat) && sample@ == crate::lists::gathered_rows(
                data@,
                rows,
                d as nat,
            ),
{
    let rows = random_rows(rng, n, count);
    proof {
        assert forall|i: int| 0 <= i < rows@.len() implies (#[trigger] rows@[i] + 1) * d
            <= data@.len() by {
            let row = rows@[i] as int;
            assert((row + 1) * d <= n * d) by (nonlinear_arith)
                requires
                    row < n,
            ;
        }
        crate::lists::lemma_gathered_len(data@, rows@, d as nat);
        assert(is_sample(rows@, n as nat, count as nat));
    }
    gather_rows(data, rows.as_slice(), d)
}

/// `rows` are `count` different rows below `n`.
pub open spec fn is_sample(rows: Seq<usize>, n: nat, count: nat) -> bool {
    &&& rows.len() == count
    &&& rows.no_duplicates()
    &&& forall|i: int| 0 <= i < rows.len() ==> #[trigger] rows[i] < n
}

} // verus!
