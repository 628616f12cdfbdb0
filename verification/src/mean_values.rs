//! What the updates of centroids stand for: means of rows, component by
//! component.
use crate::exact::{grows_by, sum_holds, times, total};
use crate::kmeans_update::{
    cluster_weight, gathered, means, member_sum, shared, weighted_means, UpdateKernel,
    WeightedKernel,
};
use vstd::prelude::*;

verus! {

/// The weights of the rows of a cluster; other rows have none.
pub open spec fn member_weights(
    assignments: Seq<usize>,
    c: int,
    weight: spec_fn(int) -> real,
) -> Seq<real> {
    Seq::new(
        assignments.len(),
        |i: int|
            if assignments[i] == c {
                weight(i)
            } else {
                0real
            },
    )
}

/// Component `j` of all rows.
pub open spec fn components(
    value: spec_fn(u32) -> real,
    data: Seq<u32>,
    d: int,
    n: nat,
    j: int,
) -> Seq<real> {
    Seq::new(n, |i: int| value(data[i * d + j]))
}

/// A sum gathers the weighted value of each row, where nothing has to be
/// rounded.
pub open spec fn gathers<A: Fn(u32, usize, u32) -> u32>(
    gather: A,
    weight: spec_fn(int) -> real,
    value: spec_fn(u32) -> real,
    holds: spec_fn(real) -> bool,
) -> bool {
    forall|sum: u32, row: usize, x: u32|
        holds(value(sum)) && holds(value(x)) && holds(times(weight(row as int), value(x))) && holds(
            value(sum) + times(weight(row as int), value(x)),
        ) ==> value(#[trigger] gathered(gather, sum, row, x)) == value(sum) + times(
            weight(row as int),
            value(x),
        )
}

/// The sum of a component over the rows of a cluster is the sum of the weighted
/// components of all the rows that belong to it.
proof fn lemma_member_sum<A: Fn(u32, usize, u32) -> u32>(
    gather: A,
    weight: spec_fn(int) -> real,
    value: spec_fn(u32) -> real,
    holds: spec_fn(real) -> bool,
    data: Seq<u32>,
    d: int,
    assignments: Seq<usize>,
    c: int,
    j: int,
)
    requires
        assignments.len() <= usize::MAX,
        value(0u32) == 0real,
        gathers(gather, weight, value, holds),
        crate::exact::all_hold(holds, components(value, data, d, assignments.len(), j)),
        sum_holds(
            holds,
            crate::exact::products(
                member_weights(assignments, c, weight),
                components(value, data, d, assignments.len(), j),
            ),
        ),
    ensures
        value(member_sum(gather, data, d, assignments, c, j, assignments.len()))
            == crate::exact::dot(
            member_weights(assignments, c, weight),
            components(value, data, d, assignments.len(), j),
        ),
        holds(value(member_sum(gather, data, d, assignments, c, j, assignments.len()))),
{
    let n = assignments.len();
    let w = member_weights(assignments, c, weight);
    let x = components(value, data, d, n, j);
    let terms = crate::exact::products(w, x);
    let partial = Seq::new(
        n + 1,
        |k: int| value(member_sum(gather, data, d, assignments, c, j, k as nat)),
    );
    assert forall|k: int|
        0 <= k < terms.len() && holds(partial[k]) && holds(partial[k] + terms[k]) implies partial[k
        + 1] == partial[k] + #[trigger] terms[k] by {
        assert(holds(terms[k]) && holds(x[k]));
        let before = member_sum(gather, data, d, assignments, c, j, k as nat);
        crate::exact::lemma_times_small(x[k]);
        if assignments[k] == c {
            assert(w[k] == weight(k));
            assert(terms[k] == times(weight(k), value(data[k * d + j])));
            assert(member_sum(gather, data, d, assignments, c, j, (k + 1) as nat) == gathered(
                gather,
                before,
                k as usize,
                data[k * d + j],
            ));
        } else {
            assert(terms[k] == times(0real, x[k]));
            assert(member_sum(gather, data, d, assignments, c, j, (k + 1) as nat) == before);
        }
    }
    assert(grows_by(holds, partial, terms));
    crate::exact::lemma_partial_sums(holds, partial, terms, n);
}

/// The place of component `j` of centroid `c`.
proof fn lemma_place(c: int, j: int, d: int, k: int)
    requires
        0 <= c < k,
        0 <= j < d,
    ensures
        0 <= c * d + j < k * d,
        (c * d + j) / d == c,
        (c * d + j) % d == j,
{
    assert(0 <= c * d && c * d + d <= k * d) by (nonlinear_arith)
        requires
            0 <= c < k,
            d > 0,
    ;
    vstd::arithmetic::div_mod::lemma_fundamental_div_mod_converse(c * d + j, d, c, j);
}

/// A sum is multiplied by the inverse of a weight, where nothing has to be
/// rounded.
pub open spec fn divides<S: Fn(u32, u32) -> u32>(
    share: S,
    value: spec_fn(u32) -> real,
    holds: spec_fn(real) -> bool,
) -> bool {
    forall|sum: u32, weight: u32, inverse: real|
        holds(value(sum)) && holds(value(weight)) && holds(inverse) && #[trigger] times(
            value(weight),
            inverse,
        ) == 1real && holds(times(value(sum), inverse)) ==> value(
            #[trigger] crate::float_ops::result_of(share, sum, weight),
        ) == times(value(sum), inverse)
}

/// A sum of `whole` times its share is the sum.
proof fn lemma_share(whole: real, inverse: real, sum: real)
    requires
        times(whole, inverse) == 1real,
    ensures
        times(whole, times(sum, inverse)) == sum,
{
    crate::exact::lemma_times_commutes(sum, inverse);
    crate::exact::lemma_times_associates(whole, inverse, sum);
    crate::exact::lemma_times_small(sum);
}

/// The weight of a cluster is the sum of the weights of its rows.
pub proof fn law_cluster_weights_add_up<T: Fn(u32, usize, u32) -> u32>(
    gather: T,
    value: spec_fn(u32) -> real,
    holds: spec_fn(real) -> bool,
    weights: Seq<u32>,
    assignments: Seq<usize>,
    c: int,
)
    requires
        assignments.len() <= usize::MAX,
        weights.len() == assignments.len(),
        value(0u32) == 0real,
        gathers(gather, |i: int| 1real, value, holds),
        crate::exact::all_hold(holds, crate::exact::values(value, weights)),
        sum_holds(holds, member_weights(assignments, c, |i: int| value(weights[i]))),
    ensures
        value(cluster_weight(gather, weights, assignments, c)) == total(
            member_weights(assignments, c, |i: int| value(weights[i])),
        ),
        holds(value(cluster_weight(gather, weights, assignments, c))),
{
    let one = |i: int| 1real;
    let n = assignments.len();
    let x = components(value, weights, 1, n, 0);
    let terms = crate::exact::products(member_weights(assignments, c, one), x);
    let expected = member_weights(assignments, c, |i: int| value(weights[i]));
    assert forall|i: int| 0 <= i < n implies terms[i] == expected[i] && holds(#[trigger] x[i]) by {
        assert(i * 1 + 0 == i);
        crate::exact::lemma_times_small(x[i]);
        assert(holds(crate::exact::values(value, weights)[i]));
    }
    assert(terms =~= expected);
    lemma_member_sum(gather, one, value, holds, weights, 1, assignments, c, 0);
}

/// Each component of a centroid is the mean of that component over the rows of
/// its cluster, by their weights: the mean times the weight of the cluster is
/// the sum of the weighted components. A cluster without weight is at a row, in
/// every component.
pub proof fn law_centroids_are_weighted_means<
    A: Fn(u32, usize, u32) -> u32,
    T: Fn(u32, usize, u32) -> u32,
    S: Fn(u32, u32) -> u32,
>(
    kernel: WeightedKernel<A, T, S>,
    value: spec_fn(u32) -> real,
    holds: spec_fn(real) -> bool,
    data: Seq<u32>,
    weights: Seq<u32>,
    d: int,
    k: int,
    assignments: Seq<usize>,
    rows: Seq<Option<usize>>,
    c: int,
    j: int,
    inverse: real,
)
    requires
        assignments.len() <= usize::MAX,
        weights.len() == assignments.len(),
        data.len() == assignments.len() * d,
        0 <= c < k,
        0 <= j < d,
        value(0u32) == 0real,
        gathers(kernel.gather, |i: int| value(weights[i]), value, holds),
        gathers(kernel.total, |i: int| 1real, value, holds),
        divides(kernel.share, value, holds),
        crate::exact::all_hold(holds, crate::exact::values(value, weights)),
        rows[c] is None ==> {
            let w = member_weights(assignments, c, |i: int| value(weights[i]));
            let x = components(value, data, d, assignments.len(), j);
            &&& crate::exact::all_hold(holds, x)
            &&& sum_holds(holds, w)
            &&& sum_holds(holds, crate::exact::products(w, x))
            &&& holds(inverse)
            &&& times(total(w), inverse) == 1real
            &&& holds(times(crate::exact::dot(w, x), inverse))
        },
    ensures
        match rows[c] {
            Some(row) => weighted_means(
                kernel,
                data,
                weights,
                d,
                k,
                assignments,
                rows,
            )[c * d + j] == data[row * d + j],
            None => times(
                total(member_weights(assignments, c, |i: int| value(weights[i]))),
                value(weighted_means(kernel, data, weights, d, k, assignments, rows)[c * d + j]),
            ) == crate::exact::dot(
                member_weights(assignments, c, |i: int| value(weights[i])),
                components(value, data, d, assignments.len(), j),
            ),
        },
{
    let weight = |i: int| value(weights[i]);
    lemma_place(c, j, d, k);
    if rows[c] is None {
        lemma_member_sum(kernel.gather, weight, value, holds, data, d, assignments, c, j);
        law_cluster_weights_add_up(kernel.total, value, holds, weights, assignments, c);
        let sum = member_sum(kernel.gather, data, d, assignments, c, j, assignments.len());
        let whole = cluster_weight(kernel.total, weights, assignments, c);
        assert(times(value(whole), inverse) == 1real);
        lemma_share(value(whole), inverse, value(sum));
        assert(weighted_means(kernel, data, weights, d, k, assignments, rows)[c * d + j]
            == crate::float_ops::result_of(kernel.share, sum, whole));
    }
}

/// Sums of equal components are equal.
proof fn lemma_same_member_sums<A: Fn(u32, usize, u32) -> u32>(
    gather: A,
    data: Seq<u32>,
    d: int,
    j: int,
    other: Seq<u32>,
    e: int,
    l: int,
    assignments: Seq<usize>,
    c: int,
    upto: nat,
)
    requires
        upto <= assignments.len(),
        forall|i: int| 0 <= i < assignments.len() ==> #[trigger] data[i * d + j] == other[i * e + l],
    ensures
        member_sum(gather, data, d, assignments, c, j, upto) == member_sum(
            gather,
            other,
            e,
            assignments,
            c,
            l,
            upto,
        ),
    decreases upto,
{
    if upto > 0 {
        let i = upto - 1;
        lemma_same_member_sums(gather, data, d, j, other, e, l, assignments, c, i as nat);
        assert(data[i * d + j] == other[i * e + l]);
    }
}

/// A component of a weighted centroid depends on that component of the rows
/// alone, whatever is rounded: where component `j` of some rows is component `l`
/// of others, component `j` of their centroids is component `l` of the others'.
/// So exchanging components of all rows exchanges those of the centroids.
pub proof fn law_weighted_components_are_apart<
    A: Fn(u32, usize, u32) -> u32,
    T: Fn(u32, usize, u32) -> u32,
    S: Fn(u32, u32) -> u32,
>(
    kernel: WeightedKernel<A, T, S>,
    data: Seq<u32>,
    other: Seq<u32>,
    weights: Seq<u32>,
    d: int,
    e: int,
    k: int,
    assignments: Seq<usize>,
    rows: Seq<Option<usize>>,
    c: int,
    j: int,
    l: int,
)
    requires
        0 <= c < k,
        0 <= j < d,
        0 <= l < e,
        rows[c] matches Some(row) ==> row < assignments.len(),
        forall|i: int| 0 <= i < assignments.len() ==> #[trigger] data[i * d + j] == other[i * e + l],
    ensures
        weighted_means(kernel, data, weights, d, k, assignments, rows)[c * d + j]
            == weighted_means(kernel, other, weights, e, k, assignments, rows)[c * e + l],
{
    lemma_place(c, j, d, k);
    lemma_place(c, l, e, k);
    lemma_same_member_sums(
        kernel.gather,
        data,
        d,
        j,
        other,
        e,
        l,
        assignments,
        c,
        assignments.len(),
    );
    if let Some(row) = rows[c] {
        assert(data[row * d + j] == other[row * e + l]);
    }
}

/// A sum is multiplied by the inverse of a number of rows, where nothing has to
/// be rounded.
pub open spec fn divides_by_count<S: Fn(u32, usize) -> u32>(
    share: S,
    value: spec_fn(u32) -> real,
    holds: spec_fn(real) -> bool,
) -> bool {
    forall|sum: u32, rows: usize, inverse: real|
        holds(value(sum)) && holds(inverse) && #[trigger] times(rows as real, inverse) == 1real
            && holds(times(value(sum), inverse)) ==> value(#[trigger] shared(share, sum, rows))
            == times(value(sum), inverse)
}

/// The rows of a cluster, counted by their weights of one.
pub proof fn lemma_counts(assignments: Seq<usize>, c: int)
    ensures
        total(member_weights(assignments, c, |i: int| 1real))
            == crate::kmeans_assign::cluster_size(assignments, c) as int as real,
    decreases assignments.len(),
{
    let one = |i: int| 1real;
    let w = member_weights(assignments, c, one);
    if assignments.len() > 0 {
        let rest = assignments.drop_last();
        lemma_counts(rest, c);
        assert(w.drop_last() =~= member_weights(rest, c, one));
        assert(w.last() == (if assignments.last() == c {
            1real
        } else {
            0real
        }));
    }
}

/// Each component of a centroid is the mean of that component over the rows of
/// its cluster; a centroid without rows stays.
pub proof fn law_centroids_are_means<
    A: Fn(u32, usize, u32) -> u32,
    S: Fn(u32, usize) -> u32,
    U: Fn(u32) -> u32,
    W: Fn(u32) -> u32,
>(
    kernel: UpdateKernel<A, S, U, W>,
    value: spec_fn(u32) -> real,
    holds: spec_fn(real) -> bool,
    data: Seq<u32>,
    d: int,
    k: int,
    assignments: Seq<usize>,
    centroids: Seq<u32>,
    c: int,
    j: int,
    inverse: real,
)
    requires
        assignments.len() <= usize::MAX,
        data.len() >= assignments.len() * d,
        centroids.len() == k * d,
        0 <= c < k,
        0 <= j < d,
        value(0u32) == 0real,
        gathers(kernel.gather, |i: int| 1real, value, holds),
        divides_by_count(kernel.share, value, holds),
        (exists|i: int| 0 <= i < assignments.len() && #[trigger] assignments[i] == c) ==> {
            let w = member_weights(assignments, c, |i: int| 1real);
            let x = components(value, data, d, assignments.len(), j);
            &&& crate::exact::all_hold(holds, x)
            &&& sum_holds(holds, crate::exact::products(w, x))
            &&& holds(inverse)
            &&& times(total(w), inverse) == 1real
            &&& holds(times(crate::exact::dot(w, x), inverse))
        },
    ensures
        if exists|i: int| 0 <= i < assignments.len() && #[trigger] assignments[i] == c {
            times(
                total(member_weights(assignments, c, |i: int| 1real)),
                value(means(kernel, data, d, assignments, centroids)[c * d + j]),
            ) == crate::exact::dot(
                member_weights(assignments, c, |i: int| 1real),
                components(value, data, d, assignments.len(), j),
            )
        } else {
            means(kernel, data, d, assignments, centroids)[c * d + j] == centroids[c * d + j]
        },
{
    let one = |i: int| 1real;
    lemma_place(c, j, d, k);
    lemma_counts(assignments, c);
    lemma_members_count(assignments, c);
    crate::kmeans_assign::lemma_cluster_size_fits(assignments, c);
    let size = crate::kmeans_assign::cluster_size(assignments, c);
    let sum = member_sum(kernel.gather, data, d, assignments, c, j, assignments.len());
    if size > 0 {
        lemma_member_sum(kernel.gather, one, value, holds, data, d, assignments, c, j);
        let rows = size as usize;
        assert(rows as real == size as int as real);
        assert(times(rows as real, inverse) == 1real);
        lemma_share(rows as real, inverse, value(sum));
        assert(means(kernel, data, d, assignments, centroids)[c * d + j] == shared(
            kernel.share,
            sum,
            rows,
        ));
    }
}

/// A cluster has a size where some row is assigned to it.
proof fn lemma_members_count(assignments: Seq<usize>, c: int)
    ensures
        crate::kmeans_assign::cluster_size(assignments, c) > 0 <==> exists|i: int|
            0 <= i < assignments.len() && #[trigger] assignments[i] == c,
    decreases assignments.len(),
{
    if assignments.len() > 0 {
        let rest = assignments.drop_last();
        lemma_members_count(rest, c);
        if exists|i: int| 0 <= i < rest.len() && #[trigger] rest[i] == c {
            let i = choose|i: int| 0 <= i < rest.len() && #[trigger] rest[i] == c;
            assert(assignments[i] == c);
        }
        if exists|i: int| 0 <= i < assignments.len() && #[trigger] assignments[i] == c {
            let i = choose|i: int| 0 <= i < assignments.len() && #[trigger] assignments[i] == c;
            if i < rest.len() {
                assert(rest[i] == c);
            }
        }
        if assignments.last() == c {
            assert(assignments[assignments.len() - 1] == c);
        }
    }
}

/// A component of a centroid depends on that component of the rows alone,
/// whatever is rounded.
pub proof fn law_components_are_apart<
    A: Fn(u32, usize, u32) -> u32,
    S: Fn(u32, usize) -> u32,
    U: Fn(u32) -> u32,
    W: Fn(u32) -> u32,
>(
    kernel: UpdateKernel<A, S, U, W>,
    data: Seq<u32>,
    other: Seq<u32>,
    d: int,
    e: int,
    k: int,
    assignments: Seq<usize>,
    centroids: Seq<u32>,
    others: Seq<u32>,
    c: int,
    j: int,
    l: int,
)
    requires
        0 <= c < k,
        0 <= j < d,
        0 <= l < e,
        centroids.len() == k * d,
        others.len() == k * e,
        centroids[c * d + j] == others[c * e + l],
        forall|i: int| 0 <= i < assignments.len() ==> #[trigger] data[i * d + j] == other[i * e + l],
    ensures
        means(kernel, data, d, assignments, centroids)[c * d + j] == means(
            kernel,
            other,
            e,
            assignments,
            others,
        )[c * e + l],
{
    lemma_place(c, j, d, k);
    lemma_place(c, l, e, k);
    lemma_same_member_sums(
        kernel.gather,
        data,
        d,
        j,
        other,
        e,
        l,
        assignments,
        c,
        assignments.len(),
    );
}

/// The mean of numbers that are all the same is that number: a centroid whose
/// rows are all one row is at that row.
pub proof fn law_the_mean_of_one_value(weights: Seq<real>, terms: Seq<real>, one: real, mean: real)
    requires
        weights.len() == terms.len(),
        forall|i: int|
            0 <= i < terms.len() && weights[i] != 0real ==> #[trigger] terms[i] == one,
        total(weights) != 0real,
        times(total(weights), mean) == crate::exact::dot(weights, terms),
    ensures
        mean == one,
{
    let all = crate::exact::products(weights, terms);
    assert forall|i: int| 0 <= i < all.len() implies #[trigger] all[i] == times(one, weights[i])
        + times(0real, weights[i]) by {
        crate::exact::lemma_times_small(weights[i]);
        crate::exact::lemma_times_small(terms[i]);
        crate::exact::lemma_times_small(one);
        crate::exact::lemma_times_commutes(one, weights[i]);
    }
    crate::exact::lemma_total_combines(all, weights, weights, one, 0real);
    crate::exact::lemma_times_small(total(weights));
    crate::exact::lemma_times_commutes(mean, total(weights));
    crate::exact::lemma_times_cancels(mean, one, total(weights));
}

/// Numbers that are added one after the other make up their sum.
pub proof fn law_running_totals_add_up<A: Fn(u32, u32) -> u32>(
    sum: A,
    value: spec_fn(u32) -> real,
    holds: spec_fn(real) -> bool,
    objectives: Seq<u32>,
)
    requires
        value(0u32) == 0real,
        crate::table_values::adds(sum, value, holds),
        sum_holds(holds, crate::exact::values(value, objectives)),
    ensures
        value(crate::kmeans_assign::running_total(sum, objectives)) == total(
            crate::exact::values(value, objectives),
        ),
        holds(value(crate::kmeans_assign::running_total(sum, objectives))),
{
    let terms = crate::exact::values(value, objectives);
    let n = objectives.len();
    let partial = Seq::new(
        n + 1,
        |k: int| value(crate::kmeans_assign::running_total(sum, objectives.take(k))),
    );
    assert(objectives.take(0) =~= Seq::<u32>::empty());
    assert(objectives.take(n as int) =~= objectives);
    assert forall|k: int|
        0 <= k < terms.len() && holds(partial[k]) && holds(partial[k] + terms[k]) implies partial[k
        + 1] == partial[k] + #[trigger] terms[k] by {
        assert(holds(terms[k]));
        let longer = objectives.take(k + 1);
        assert(longer.drop_last() =~= objectives.take(k));
        assert(crate::kmeans_assign::running_total(sum, longer) == crate::float_ops::result_of(
            sum,
            crate::kmeans_assign::running_total(sum, objectives.take(k)),
            objectives[k],
        ));
    }
    assert(grows_by(holds, partial, terms));
    crate::exact::lemma_partial_sums(holds, partial, terms, n);
}

/// The totals of chunks.
pub open spec fn chunk_sums(
    value: spec_fn(u32) -> real,
    objectives: Seq<u32>,
    chunk: int,
    chunks: nat,
) -> Seq<real> {
    Seq::new(
        chunks,
        |t: int|
            total(
                crate::exact::values(
                    value,
                    crate::kmeans_assign::chunk_values(objectives, chunk, t),
                ),
            ),
    )
}

/// Adding up by chunks takes in every row once.
pub proof fn law_chunk_totals_add_up<A: Fn(u32, u32) -> u32>(
    sum: A,
    value: spec_fn(u32) -> real,
    holds: spec_fn(real) -> bool,
    objectives: Seq<u32>,
    chunk: int,
)
    requires
        0 < chunk,
        objectives.len() <= usize::MAX,
        value(0u32) == 0real,
        crate::table_values::adds(sum, value, holds),
        sum_holds(holds, crate::exact::values(value, objectives)),
        ({
            let chunks = crate::kmeans_assign::chunk_count(objectives.len() as int, chunk) as nat;
            &&& sum_holds(holds, chunk_sums(value, objectives, chunk, chunks))
            &&& forall|t: int|
                0 <= t < chunks ==> sum_holds(
                    holds,
                    crate::exact::values(
                        value,
                        #[trigger] crate::kmeans_assign::chunk_values(objectives, chunk, t),
                    ),
                )
        }),
    ensures
        value(crate::kmeans_assign::total_objective(sum, objectives, chunk)) == total(
            crate::exact::values(value, objectives),
        ),
{
    let n = objectives.len() as int;
    if n <= chunk {
        law_running_totals_add_up(sum, value, holds, objectives);
    } else {
        let plain = crate::exact::values(value, objectives);
        let chunks = crate::kmeans_assign::chunk_count(n, chunk) as nat;
        let parts = chunk_sums(value, objectives, chunk, chunks);
        vstd::arithmetic::div_mod::lemma_fundamental_div_mod(n + chunk - 1, chunk);
        vstd::arithmetic::div_mod::lemma_mod_bound(n + chunk - 1, chunk);
        vstd::arithmetic::div_mod::lemma_div_non_zero(n + chunk - 1, chunk);
        vstd::arithmetic::mul::lemma_mul_is_commutative(chunk, chunks as int);
        vstd::arithmetic::mul::lemma_mul_is_distributive_sub_other_way(chunk, chunks as int, 1);
        assert(chunks * chunk >= n && (chunks - 1) * chunk < n && chunks >= 1);
        let partial = Seq::new(
            chunks + 1,
            |k: int| value(crate::kmeans_assign::chunks_total(sum, objectives, chunk, k as nat)),
        );
        assert forall|k: int|
            0 <= k < parts.len() && holds(partial[k]) && holds(partial[k] + parts[k]) implies
            partial[k + 1] == partial[k] + #[trigger] parts[k] by {
            let own = crate::kmeans_assign::chunk_values(objectives, chunk, k);
            law_running_totals_add_up(sum, value, holds, own);
            assert(crate::kmeans_assign::chunks_total(sum, objectives, chunk, (k + 1) as nat)
                == crate::float_ops::result_of(
                sum,
                crate::kmeans_assign::chunks_total(sum, objectives, chunk, k as nat),
                crate::kmeans_assign::running_total(sum, own),
            ));
        }
        assert(grows_by(holds, partial, parts));
        crate::exact::lemma_partial_sums(holds, partial, parts, chunks);
        let offsets = Seq::new(
            chunks + 1,
            |t: int| crate::kmeans_plan::min_of(t * chunk, n) as usize,
        );
        assert forall|i: int, j: int| 0 <= i <= j < offsets.len() implies #[trigger] offsets[i]
            <= #[trigger] offsets[j] by {
            assert(0 <= i * chunk <= j * chunk) by (nonlinear_arith)
                requires
                    0 <= i <= j,
                    0 < chunk,
            ;
        }
        assert(0 * chunk == 0);
        assert forall|t: int| 0 <= t < parts.len() implies #[trigger] parts[t] == total(
            plain.subrange(offsets[t] as int, offsets[t + 1] as int),
        ) by {
            assert(0 <= t * chunk <= (chunks - 1) * chunk) by (nonlinear_arith)
                requires
                    0 <= t <= chunks - 1,
                    0 < chunk,
            ;
            assert(t * chunk <= (t + 1) * chunk) by (nonlinear_arith)
                requires
                    0 < chunk,
            ;
            assert(crate::exact::values(
                value,
                crate::kmeans_assign::chunk_values(objectives, chunk, t),
            ) =~= plain.subrange(offsets[t] as int, offsets[t + 1] as int));
        }
        crate::table_values::lemma_chunks_make_up(offsets, plain, parts, chunks);
        assert(parts.take(chunks as int) =~= parts);
        assert(plain.take(n) =~= plain);
    }
}

} // verus!
