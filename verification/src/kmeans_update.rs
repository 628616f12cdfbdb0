//! Moving centroids to the means of their rows.
use crate::float_ops::{apply, operate};
use crate::kmeans_assign::{cluster_sizes, draw_replacements, plan_reseeds, Reseed, Reseeding};
use rand::rngs::StdRng;
use vstd::prelude::*;

verus! {

/// The function is defined everywhere and always gives the same result.
pub open spec fn is_gathering<A: Fn(u32, usize, u32) -> u32>(gather: A) -> bool {
    &&& forall|sum: u32, row: usize, value: u32| #[trigger]
        call_requires(gather, (sum, row, value))
    &&& forall|sum: u32, row: usize, value: u32, x: u32, y: u32| #[trigger]
        call_ensures(gather, (sum, row, value), x) && #[trigger] call_ensures(
            gather,
            (sum, row, value),
            y,
        ) ==> x == y
}

/// A sum with the value of one more row.
pub open spec fn gathered<A: Fn(u32, usize, u32) -> u32>(
    gather: A,
    sum: u32,
    row: usize,
    value: u32,
) -> u32 {
    choose|x: u32| call_ensures(gather, (sum, row, value), x)
}

/// The sum of component `j` of the rows below `upto` that are assigned to
/// cluster `c`, taken in turn.
pub open spec fn member_sum<A: Fn(u32, usize, u32) -> u32>(
    gather: A,
    data: Seq<u32>,
    d: int,
    assignments: Seq<usize>,
    c: int,
    j: int,
    upto: nat,
) -> u32
    decreases upto,
{
    if upto == 0 {
        0
    } else {
        let i = upto - 1;
        let before = member_sum(gather, data, d, assignments, c, j, i as nat);
        if assignments[i] == c {
            gathered(gather, before, i as usize, data[i * d + j])
        } else {
            before
        }
    }
}

/// The cluster and the component of an entry of a matrix of centroids.
proof fn lemma_entry(c: int, j: int, d: int, k: int)
    requires
        0 <= c < k,
        0 <= j < d,
    ensures
        0 <= c * d,
        c * d + d <= k * d,
        (c * d + j) / d == c,
        (c * d + j) % d == j,
{
    assert(0 <= c * d && c * d + d <= k * d) by (nonlinear_arith)
        requires
            0 <= c < k,
            d > 0,
    ;
    vstd::arithmetic::div_mod::lemma_fundamental_div_mod_converse(c * d + j, d, c, j);
}

/// The cluster of an entry exists.
proof fn lemma_entry_inside(at: int, d: int, k: int)
    requires
        0 <= at < k * d,
        d > 0,
    ensures
        0 <= at / d < k,
        0 <= at % d < d,
        at == (at / d) * d + at % d,
{
    assert(0 <= at / d < k && 0 <= at % d < d && at == (at / d) * d + at % d) by (nonlinear_arith)
        requires
            0 <= at < k * d,
            d > 0,
    ;
}

/// The sums of the rows of all clusters, component by component.
pub fn cluster_sums<A: Fn(u32, usize, u32) -> u32>(
    data: &[u32],
    d: usize,
    assignments: &[usize],
    k: usize,
    gather: &A,
) -> (sums: Vec<u32>)
    requires
        is_gathering(*gather),
        d > 0,
        k * d <= usize::MAX,
        data@.len() >= assignments@.len() * d,
        forall|i: int| 0 <= i < assignments@.len() ==> #[trigger] assignments@[i] < k,
    ensures
        sums@ == Seq::new(
            (k * d) as nat,
            |at: int|
                member_sum(
                    *gather,
                    data@,
                    d as int,
                    assignments@,
                    at / (d as int),
                    at % (d as int),
                    assignments@.len(),
                ),
        ),
{
    let n: usize = assignments.len();
    let data_len: usize = data.len();
    let mut sums: Vec<u32> = vec![0u32; k * d];
    let mut i: usize = 0;
    while i < n
        invariant
            is_gathering(*gather),
            d > 0,
            k * d <= usize::MAX,
            n == assignments@.len(),
            data_len == data@.len(),
            data_len >= n * d,
            forall|r: int| 0 <= r < n ==> #[trigger] assignments@[r] < k,
            i <= n,
            sums@.len() == k * d,
            forall|at: int|
                0 <= at < k * d ==> #[trigger] sums@[at] == member_sum(
                    *gather,
                    data@,
                    d as int,
                    assignments@,
                    at / (d as int),
                    at % (d as int),
                    i as nat,
                ),
        decreases n - i,
    {
        let c: usize = assignments[i];
        assert(0 <= i * d && i * d + d <= n * d) by (nonlinear_arith)
            requires
                i < n,
        ;
        let mut j: usize = 0;
        while j < d
            invariant
                is_gathering(*gather),
                d > 0,
                k * d <= usize::MAX,
                n == assignments@.len(),
                data_len == data@.len(),
                i < n,
                0 <= i * d,
                i * d + d <= data_len,
                c == assignments@[i as int],
                c < k,
                j <= d,
                sums@.len() == k * d,
                forall|at: int|
                    0 <= at < k * d ==> #[trigger] sums@[at] == member_sum(
                        *gather,
                        data@,
                        d as int,
                        assignments@,
                        at / (d as int),
                        at % (d as int),
                        if at / (d as int) == c && at % (d as int) < j {
                            (i + 1) as nat
                        } else {
                            i as nat
                        },
                    ),
            decreases d - j,
        {
            proof {
                lemma_entry(c as int, j as int, d as int, k as int);
            }
            let at: usize = c * d + j;
            let ghost before = sums@;
            let value: u32 = gather(sums[at], i, data[i * d + j]);
            assert(call_ensures(*gather, (before[at as int], i, data@[i * d + j]), value));
            sums.set(at, value);
            proof {
                assert forall|e: int| 0 <= e < k * d implies #[trigger] sums@[e] == member_sum(
                    *gather,
                    data@,
                    d as int,
                    assignments@,
                    e / (d as int),
                    e % (d as int),
                    if e / (d as int) == c && e % (d as int) < j + 1 {
                        (i + 1) as nat
                    } else {
                        i as nat
                    },
                ) by {
                    lemma_entry_inside(e, d as int, k as int);
                    if e != at {
                        assert(sums@[e] == before[e]);
                    }
                }
            }
            j = j + 1;
        }
        proof {
            assert forall|at: int| 0 <= at < k * d implies #[trigger] sums@[at] == member_sum(
                *gather,
                data@,
                d as int,
                assignments@,
                at / (d as int),
                at % (d as int),
                (i + 1) as nat,
            ) by {
                lemma_entry_inside(at, d as int, k as int);
            }
        }
        i = i + 1;
    }
    assert(sums@ =~= Seq::new(
        (k * d) as nat,
        |at: int|
            member_sum(
                *gather,
                data@,
                d as int,
                assignments@,
                at / (d as int),
                at % (d as int),
                assignments@.len(),
            ),
    ));
    sums
}

/// The arithmetic of an update: adding the value of a row, dividing a sum by a number of rows,
/// and moving a component a little up or down.
pub struct UpdateKernel<A, S, U, W> {
    pub gather: A,
    pub share: S,
    pub grow: U,
    pub shrink: W,
}

pub open spec fn is_update_kernel<
    A: Fn(u32, usize, u32) -> u32,
    S: Fn(u32, usize) -> u32,
    U: Fn(u32) -> u32,
    W: Fn(u32) -> u32,
>(kernel: UpdateKernel<A, S, U, W>) -> bool {
    &&& is_gathering(kernel.gather)
    &&& forall|sum: u32, rows: usize| #[trigger] call_requires(kernel.share, (sum, rows))
    &&& forall|sum: u32, rows: usize, x: u32, y: u32| #[trigger]
        call_ensures(kernel.share, (sum, rows), x) && #[trigger] call_ensures(
            kernel.share,
            (sum, rows),
            y,
        ) ==> x == y
    &&& crate::float_ops::is_map(kernel.grow)
    &&& crate::float_ops::is_map(kernel.shrink)
}

/// The share of each row in a sum.
pub open spec fn shared<S: Fn(u32, usize) -> u32>(share: S, sum: u32, rows: usize) -> u32 {
    choose|x: u32| call_ensures(share, (sum, rows), x)
}

/// Each centroid at the mean of its rows; one without rows stays.
pub open spec fn means<
    A: Fn(u32, usize, u32) -> u32,
    S: Fn(u32, usize) -> u32,
    U: Fn(u32) -> u32,
    W: Fn(u32) -> u32,
>(
    kernel: UpdateKernel<A, S, U, W>,
    data: Seq<u32>,
    d: int,
    assignments: Seq<usize>,
    centroids: Seq<u32>,
) -> Seq<u32> {
    Seq::new(
        centroids.len(),
        |at: int|
            {
                let rows = crate::kmeans_assign::cluster_size(assignments, at / d);
                if rows > 0 {
                    shared(
                        kernel.share,
                        member_sum(
                            kernel.gather,
                            data,
                            d,
                            assignments,
                            at / d,
                            at % d,
                            assignments.len(),
                        ),
                        rows as usize,
                    )
                } else {
                    centroids[at]
                }
            },
    )
}

/// The centroids after one of them was replaced: by a row, or by a copy of
/// another that is pushed apart from it, up and down in turn.
pub open spec fn replaced<U: Fn(u32) -> u32, W: Fn(u32) -> u32>(
    grow: U,
    shrink: W,
    data: Seq<u32>,
    d: int,
    centroids: Seq<u32>,
    reseeding: Reseeding,
) -> Seq<u32> {
    Seq::new(
        centroids.len(),
        |at: int|
            {
                let j = at % d;
                let mine = at / d == reseeding.cluster;
                match reseeding.from {
                    Reseed::Row(row) => if mine {
                        data[row * d + j]
                    } else {
                        centroids[at]
                    },
                    Reseed::Split(donor) => if !mine && at / d != donor {
                        centroids[at]
                    } else if mine == (j % 2 == 0) {
                        crate::float_ops::image_of(grow, centroids[donor * d + j])
                    } else {
                        crate::float_ops::image_of(shrink, centroids[donor * d + j])
                    },
                }
            },
    )
}

/// The centroids after the first `upto` of them were replaced.
pub open spec fn reseeded<U: Fn(u32) -> u32, W: Fn(u32) -> u32>(
    grow: U,
    shrink: W,
    data: Seq<u32>,
    d: int,
    centroids: Seq<u32>,
    done: Seq<Reseeding>,
    upto: nat,
) -> Seq<u32>
    decreases upto,
{
    if upto == 0 {
        centroids
    } else {
        replaced(
            grow,
            shrink,
            data,
            d,
            reseeded(grow, shrink, data, d, centroids, done, (upto - 1) as nat),
            done[upto - 1],
        )
    }
}

/// What is replaced exists, and no cluster is split into itself.
pub open spec fn is_possible(reseeding: Reseeding, k: nat, n: nat) -> bool {
    &&& reseeding.cluster < k
    &&& match reseeding.from {
        Reseed::Row(row) => row < n,
        Reseed::Split(donor) => donor < k && donor != reseeding.cluster,
    }
}

/// Every reseeding of a trace is possible.
proof fn lemma_reseeds_are_possible(
    start: Seq<usize>,
    n: nat,
    trace: Seq<(Seq<usize>, Seq<Reseeding>)>,
    upto: nat,
)
    requires
        crate::kmeans_assign::is_reseed_trace(start, start.len(), n, trace),
        upto <= start.len(),
    ensures
        trace[upto as int].0.len() == start.len(),
        forall|i: int|
            0 <= i < trace[upto as int].1.len() ==> is_possible(
                #[trigger] trace[upto as int].1[i],
                start.len(),
                n,
            ),
    decreases upto,
{
    if upto > 0 {
        let c = upto - 1;
        lemma_reseeds_are_possible(start, n, trace, c as nat);
        let earlier = trace[c].1;
        let done = trace[c + 1].1;
        assert(crate::kmeans_assign::reseed_step(
            trace[c].0,
            c,
            n,
            earlier,
            done,
            trace[c + 1].0,
        ));
        assert forall|i: int| 0 <= i < done.len() implies is_possible(
            #[trigger] done[i],
            start.len(),
            n,
        ) by {
            if trace[c].0[c] == 0 {
                if i < earlier.len() {
                    assert(done.drop_last()[i] == earlier[i]);
                } else {
                    assert(done[i] == done.last());
                }
            }
        }
    }
}

/// Replaces one centroid.
fn replace<U: Fn(u32) -> u32, W: Fn(u32) -> u32>(
    centroids: &mut Vec<u32>,
    data: &[u32],
    d: usize,
    k: usize,
    n: usize,
    reseeding: Reseeding,
    grow: &U,
    shrink: &W,
)
    requires
        d > 0,
        old(centroids)@.len() == k * d,
        data@.len() >= n * d,
        is_possible(reseeding, k as nat, n as nat),
        crate::float_ops::is_map(*grow),
        crate::float_ops::is_map(*shrink),
    ensures
        final(centroids)@ == replaced(
            *grow,
            *shrink,
            data@,
            d as int,
            old(centroids)@,
            reseeding,
        ),
{
    let ghost before = centroids@;
    let ghost after = replaced(*grow, *shrink, data@, d as int, before, reseeding);
    let c: usize = reseeding.cluster;
    let total: usize = centroids.len();
    let data_len: usize = data.len();
    let mut j: usize = 0;
    while j < d
        invariant
            d > 0,
            j <= d,
            total == k * d,
            centroids@.len() == total,
            before.len() == total,
            data_len == data@.len(),
            data_len >= n * d,
            is_possible(reseeding, k as nat, n as nat),
            c == reseeding.cluster,
            crate::float_ops::is_map(*grow),
            crate::float_ops::is_map(*shrink),
            after == replaced(*grow, *shrink, data@, d as int, before, reseeding),
            forall|at: int|
                0 <= at < total ==> #[trigger] centroids@[at] == (if at % (d as int) < j {
                    after[at]
                } else {
                    before[at]
                }),
        decreases d - j,
    {
        proof {
            lemma_entry(c as int, j as int, d as int, k as int);
        }
        let ghost current = centroids@;
        match reseeding.from {
            Reseed::Row(row) => {
                assert(0 <= row * d && row * d + d <= n * d) by (nonlinear_arith)
                    requires
                        row < n,
                        d > 0,
                ;
                centroids.set(c * d + j, data[row * d + j]);
            },
            Reseed::Split(donor) => {
                proof {
                    lemma_entry(donor as int, j as int, d as int, k as int);
                    assert(donor * d + j != c * d + j) by (nonlinear_arith)
                        requires
                            donor != c,
                            d > 0,
                    ;
                }
                let value: u32 = centroids[donor * d + j];
                let up: u32 = apply(grow, value);
                let down: u32 = apply(shrink, value);
                if j % 2 == 0 {
                    centroids.set(c * d + j, up);
                    centroids.set(donor * d + j, down);
                } else {
                    centroids.set(c * d + j, down);
                    centroids.set(donor * d + j, up);
                }
            },
        }
        proof {
            assert forall|at: int| 0 <= at < total implies #[trigger] centroids@[at] == (if at % (
            d as int) < j + 1 {
                after[at]
            } else {
                before[at]
            }) by {
                lemma_entry_inside(at, d as int, k as int);
                if at % (d as int) != j {
                    assert(centroids@[at] == current[at]);
                }
            }
        }
        j = j + 1;
    }
    proof {
        assert forall|at: int| 0 <= at < total implies centroids@[at] == after[at] by {
            lemma_entry_inside(at, d as int, k as int);
        }
        assert(centroids@ =~= after);
    }
}

/// The sizes of all clusters.
pub open spec fn sizes_of(assignments: Seq<usize>, k: nat) -> Seq<usize> {
    Seq::new(k, |c: int| crate::kmeans_assign::cluster_size(assignments, c) as usize)
}

/// Moves each centroid to the mean of its rows, and gives those without rows
/// a new place.
pub fn update_centroids<
    A: Fn(u32, usize, u32) -> u32,
    S: Fn(u32, usize) -> u32,
    U: Fn(u32) -> u32,
    W: Fn(u32) -> u32,
>(
    data: &[u32],
    d: usize,
    centroids: &mut Vec<u32>,
    k: usize,
    assignments: &[usize],
    rng: &mut StdRng,
    kernel: &UpdateKernel<A, S, U, W>,
)
    requires
        is_update_kernel(*kernel),
        d > 0,
        assignments@.len() > 0,
        data@.len() >= assignments@.len() * d,
        old(centroids)@.len() == k * d,
        forall|i: int| 0 <= i < assignments@.len() ==> #[trigger] assignments@[i] < k,
    ensures
        exists|done: Seq<Reseeding>, sizes: Seq<usize>| #[trigger]
            crate::kmeans_assign::reseeds(
                sizes_of(assignments@, k as nat),
                k as nat,
                assignments@.len(),
                done,
                sizes,
            ) && final(centroids)@ == reseeded(
                kernel.grow,
                kernel.shrink,
                data@,
                d as int,
                means(*kernel, data@, d as int, assignments@, old(centroids)@),
                done,
                done.len(),
            ),
{
    let n: usize = assignments.len();
    let total: usize = centroids.len();
    let ghost start = centroids@;
    let ghost middle = means(*kernel, data@, d as int, assignments@, start);
    let sums = cluster_sums(data, d, assignments, k, &kernel.gather);
    let mut counts = cluster_sizes(assignments, k);
    let ghost sizes = sizes_of(assignments@, k as nat);
    assert(counts@ =~= sizes);
    let mut at: usize = 0;
    while at < total
        invariant
            is_update_kernel(*kernel),
            d > 0,
            at <= total,
            total == k * d,
            start.len() == total,
            centroids@.len() == total,
            counts@.len() == k,
            forall|c: int|
                0 <= c < k ==> #[trigger] counts@[c] == crate::kmeans_assign::cluster_size(
                    assignments@,
                    c,
                ),
            sums@ == Seq::new(
                (k * d) as nat,
                |e: int|
                    member_sum(
                        kernel.gather,
                        data@,
                        d as int,
                        assignments@,
                        e / (d as int),
                        e % (d as int),
                        assignments@.len(),
                    ),
            ),
            middle == means(*kernel, data@, d as int, assignments@, start),
            forall|e: int|
                0 <= e < total ==> #[trigger] centroids@[e] == (if e < at {
                    middle[e]
                } else {
                    start[e]
                }),
        decreases total - at,
    {
        proof {
            lemma_entry_inside(at as int, d as int, k as int);
        }
        let rows: usize = counts[at / d];
        if rows > 0 {
            let mean: u32 = (kernel.share)(sums[at], rows);
            assert(call_ensures(kernel.share, (sums@[at as int], rows), mean));
            centroids.set(at, mean);
        }
        at = at + 1;
    }
    assert(centroids@ =~= middle);
    let done = plan_reseeds(&mut counts, n, rng);
    proof {
        assert(crate::kmeans_assign::reseeds(sizes, k as nat, n as nat, done@, counts@));
        let trace = choose|trace: Seq<(Seq<usize>, Seq<Reseeding>)>| #[trigger]
            crate::kmeans_assign::is_reseed_trace(sizes, k as nat, n as nat, trace)
                && trace.last() == (counts@, done@);
        assert(sizes.len() == k);
        lemma_reseeds_are_possible(sizes, n as nat, trace, k as nat);
        assert(trace[k as int].1 == done@);
        assert forall|e: int| 0 <= e < done@.len() implies is_possible(
            #[trigger] done@[e],
            k as nat,
            n as nat,
        ) by {
            assert(trace[k as int].1[e] == done@[e]);
        }
    }
    let mut i: usize = 0;
    while i < done.len()
        invariant
            is_update_kernel(*kernel),
            d > 0,
            n == assignments@.len(),
            data@.len() >= n * d,
            i <= done@.len(),
            centroids@.len() == k * d,
            forall|e: int| 0 <= e < done@.len() ==> is_possible(#[trigger] done@[e], k as nat, n as nat),
            centroids@ == reseeded(
                kernel.grow,
                kernel.shrink,
                data@,
                d as int,
                middle,
                done@,
                i as nat,
            ),
        decreases done@.len() - i,
    {
        replace(centroids, data, d, k, n, done[i], &kernel.grow, &kernel.shrink);
        i = i + 1;
    }
}

/// The arithmetic of a weighted update: adding the weighted value of a row,
/// adding the weight of a row, and dividing a sum by a weight.
pub struct WeightedKernel<A, T, S> {
    pub gather: A,
    pub total: T,
    pub share: S,
}

pub open spec fn is_weighted_kernel<
    A: Fn(u32, usize, u32) -> u32,
    T: Fn(u32, usize, u32) -> u32,
    S: Fn(u32, u32) -> u32,
>(kernel: WeightedKernel<A, T, S>) -> bool {
    &&& is_gathering(kernel.gather)
    &&& is_gathering(kernel.total)
    &&& crate::float_ops::is_operation(kernel.share)
}

/// The weights of the rows of a cluster, summed.
pub open spec fn cluster_weight<T: Fn(u32, usize, u32) -> u32>(
    total: T,
    weights: Seq<u32>,
    assignments: Seq<usize>,
    c: int,
) -> u32 {
    member_sum(total, weights, 1, assignments, c, 0, assignments.len())
}

/// The centroids at the weighted means of their rows, and at the chosen rows
/// where there is no weight.
pub open spec fn weighted_means<
    A: Fn(u32, usize, u32) -> u32,
    T: Fn(u32, usize, u32) -> u32,
    S: Fn(u32, u32) -> u32,
>(
    kernel: WeightedKernel<A, T, S>,
    data: Seq<u32>,
    weights: Seq<u32>,
    d: int,
    k: int,
    assignments: Seq<usize>,
    rows: Seq<Option<usize>>,
) -> Seq<u32> {
    Seq::new(
        (k * d) as nat,
        |at: int|
            match rows[at / d] {
                Some(row) => data[row * d + at % d],
                None => crate::float_ops::result_of(
                    kernel.share,
                    member_sum(
                        kernel.gather,
                        data,
                        d,
                        assignments,
                        at / d,
                        at % d,
                        assignments.len(),
                    ),
                    cluster_weight(kernel.total, weights, assignments, at / d),
                ),
            },
    )
}

/// Clusters without weight get a row, the others none.
pub open spec fn replaces_weightless<T: Fn(u32, usize, u32) -> u32>(
    total: T,
    weights: Seq<u32>,
    assignments: Seq<usize>,
    k: nat,
    rows: Seq<Option<usize>>,
) -> bool {
    &&& rows.len() == k
    &&& forall|c: int|
        0 <= c < k ==> match #[trigger] rows[c] {
            Some(row) => row < assignments.len() && !crate::order::less(
                0,
                cluster_weight(total, weights, assignments, c),
            ),
            None => crate::order::less(0, cluster_weight(total, weights, assignments, c)),
        }
}

/// Moves each centroid to the weighted mean of its rows, and those without
/// weight to random rows.
pub fn update_weighted_centroids<
    A: Fn(u32, usize, u32) -> u32,
    T: Fn(u32, usize, u32) -> u32,
    S: Fn(u32, u32) -> u32,
>(
    data: &[u32],
    weights: &[u32],
    d: usize,
    k: usize,
    assignments: &[usize],
    rng: &mut StdRng,
    kernel: &WeightedKernel<A, T, S>,
) -> (centroids: Vec<u32>)
    requires
        is_weighted_kernel(*kernel),
        d > 0,
        k * d <= usize::MAX,
        assignments@.len() > 0,
        weights@.len() == assignments@.len(),
        data@.len() == assignments@.len() * d,
        forall|i: int| 0 <= i < assignments@.len() ==> #[trigger] assignments@[i] < k,
    ensures
        exists|rows: Seq<Option<usize>>| #[trigger]
            replaces_weightless(kernel.total, weights@, assignments@, k as nat, rows)
                && centroids@ == weighted_means(
                *kernel,
                data@,
                weights@,
                d as int,
                k as int,
                assignments@,
                rows,
            ),
{
    let n: usize = assignments.len();
    let data_len: usize = data.len();
    let sums = cluster_sums(data, d, assignments, k, &kernel.gather);
    let totals = cluster_sums(weights, 1, assignments, k, &kernel.total);
    let rows = draw_replacements(totals.as_slice(), n, rng);
    proof {
        assert forall|c: int| 0 <= c < k implies #[trigger] totals@[c] == cluster_weight(
            kernel.total,
            weights@,
            assignments@,
            c,
        ) by {
            assert(c / 1 == c && c % 1 == 0);
        }
        assert forall|c: int| 0 <= c < k implies match #[trigger] rows@[c] {
            Some(row) => row < assignments@.len() && !crate::order::less(
                0,
                cluster_weight(kernel.total, weights@, assignments@, c),
            ),
            None => crate::order::less(
                0,
                cluster_weight(kernel.total, weights@, assignments@, c),
            ),
        } by {
            assert(totals@[c] == cluster_weight(kernel.total, weights@, assignments@, c));
        }
        assert(replaces_weightless(kernel.total, weights@, assignments@, k as nat, rows@));
    }
    let ghost expected = weighted_means(
        *kernel,
        data@,
        weights@,
        d as int,
        k as int,
        assignments@,
        rows@,
    );
    let total: usize = sums.len();
    let mut centroids: Vec<u32> = Vec::new();
    let mut at: usize = 0;
    while at < total
        invariant
            is_weighted_kernel(*kernel),
            d > 0,
            n == assignments@.len(),
            data_len == data@.len(),
            data_len == n * d,
            total == k * d,
            totals@.len() == k,
            forall|c: int|
                0 <= c < k ==> #[trigger] totals@[c] == cluster_weight(
                    kernel.total,
                    weights@,
                    assignments@,
                    c,
                ),
            replaces_weightless(kernel.total, weights@, assignments@, k as nat, rows@),
            sums@ == Seq::new(
                (k * d) as nat,
                |e: int|
                    member_sum(
                        kernel.gather,
                        data@,
                        d as int,
                        assignments@,
                        e / (d as int),
                        e % (d as int),
                        assignments@.len(),
                    ),
            ),
            expected == weighted_means(
                *kernel,
                data@,
                weights@,
                d as int,
                k as int,
                assignments@,
                rows@,
            ),
            at <= total,
            centroids@ == expected.take(at as int),
        decreases total - at,
    {
        proof {
            lemma_entry_inside(at as int, d as int, k as int);
        }
        let c: usize = at / d;
        let value: u32 = match rows[c] {
            Some(row) => {
                assert(0 <= row * d && row * d + d <= n * d) by (nonlinear_arith)
                    requires
                        row < n,
                        d > 0,
                ;
                data[row * d + at % d]
            },
            None => operate(&kernel.share, sums[at], totals[c]),
        };
        assert(value == expected[at as int]);
        centroids.push(value);
        at = at + 1;
        assert(centroids@ =~= expected.take(at as int));
    }
    assert(centroids@ =~= expected);
    centroids
}

} // verus!
