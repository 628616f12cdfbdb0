//! What the factors of codes and the terms of queries stand for: parts of the
//! distance of a query to the row that a code stands for.
use crate::distance::MetricType;
use crate::exact::{
    differences, distance, distance_holds, dot, dot_holds, grows_by, products, stretched, sums,
    times, values,
};
use crate::rq_factors::{
    base_term, code_factors, counted, is_degenerate, product, squared_distance, squared_error,
    step_result, terms_from_distance, terms_of, TermStep,
};
use crate::rq_products::{estimated, RowStep};
use vstd::prelude::*;

verus! {

/// The steps compute what they say, where nothing has to be rounded.
pub open spec fn is_exact<F: Fn(TermStep) -> u32>(
    f: F,
    value: spec_fn(u32) -> real,
    holds: spec_fn(real) -> bool,
) -> bool {
    &&& forall|sum: u32, a: u32, b: u32|
        holds(value(sum)) && holds(value(a)) && holds(value(b)) && holds(times(value(a), value(b)))
            && holds(value(sum) + times(value(a), value(b))) ==> value(
            #[trigger] step_result(f, TermStep::Product { sum, a, b }),
        ) == value(sum) + times(value(a), value(b))
    &&& forall|sum: u32, a: u32, b: u32|
        {
            let gap = value(a) - value(b);
            holds(value(sum)) && holds(value(a)) && holds(value(b)) && holds(gap) && holds(
                times(gap, gap),
            ) && holds(value(sum) + times(gap, gap)) ==> value(
                #[trigger] step_result(f, TermStep::Square { sum, a, b }),
            ) == value(sum) + times(gap, gap)
        }
    &&& forall|sum: u32, x: u32, rescale: u32, code: u32|
        {
            let gap = value(x) - times(value(rescale), value(code));
            holds(value(sum)) && holds(value(x)) && holds(value(rescale)) && holds(value(code))
                && holds(times(value(rescale), value(code))) && holds(gap) && holds(
                times(gap, gap),
            ) && holds(value(sum) + times(gap, gap)) ==> value(
                #[trigger] step_result(f, TermStep::Error { sum, value: x, rescale, code }),
            ) == value(sum) + times(gap, gap)
        }
    &&& forall|a: u32, b: u32, quotient: real|
        holds(value(a)) && holds(value(b)) && value(b) != 0real && holds(quotient)
            && #[trigger] times(quotient, value(b)) == value(a) ==> value(
            #[trigger] step_result(f, TermStep::Ratio { a, b }),
        ) == quotient
    &&& forall|x: u32, root: real|
        holds(value(x)) && root >= 0real && holds(root) && #[trigger] times(root, root) == value(x)
            ==> value(#[trigger] step_result(f, TermStep::Root { value: x })) == root
    &&& forall|x: u32|
        holds(value(x)) && holds(value(x) / 2real) ==> value(
            #[trigger] step_result(f, TermStep::Half { value: x }),
        ) == value(x) / 2real
    &&& forall|x: u32|
        holds(value(x)) && holds(value(x) + value(x)) ==> value(
            #[trigger] step_result(f, TermStep::Double { value: x }),
        ) == value(x) + value(x)
    &&& forall|x: u32|
        holds(value(x)) ==> value(#[trigger] step_result(f, TermStep::Negate { value: x }))
            == -value(x)
    &&& forall|a: u32, b: u32, gap: u32|
        {
            let twice = value(a) + value(b) - value(gap);
            holds(value(a)) && holds(value(b)) && holds(value(gap)) && holds(value(a) + value(b))
                && holds(twice) && holds(twice / 2real) ==> value(
                #[trigger] step_result(f, TermStep::Cross { a, b, distance: gap }),
            ) == -(twice / 2real)
        }
}

/// An estimate is a sum of its parts, where nothing has to be rounded.
pub open spec fn estimates<G: Fn(RowStep) -> u32>(
    g: G,
    value: spec_fn(u32) -> real,
    holds: spec_fn(real) -> bool,
) -> bool {
    forall|along: u32, f_add: u32, f_rescale: u32, g_add: u32|
        holds(value(along)) && holds(value(f_add)) && holds(value(f_rescale)) && holds(
            value(g_add),
        ) && holds(value(f_add) + value(g_add)) && holds(times(value(f_rescale), value(along)))
            && holds(value(f_add) + value(g_add) + times(value(f_rescale), value(along)))
            ==> value(
            #[trigger] crate::rq_products::step_result(
                g,
                RowStep::Estimate { product: along, f_add, f_rescale, g_add },
            ),
        ) == value(f_add) + value(g_add) + times(value(f_rescale), value(along))
}

/// Sums of products are inner products, over every component.
pub proof fn law_products_are_inner_products<F: Fn(TermStep) -> u32>(
    f: F,
    value: spec_fn(u32) -> real,
    holds: spec_fn(real) -> bool,
    a: Seq<u32>,
    b: Seq<u32>,
)
    requires
        a.len() == b.len(),
        value(0u32) == 0real,
        is_exact(f, value, holds),
        dot_holds(holds, values(value, a), values(value, b)),
    ensures
        value(product(f, a, b, a.len())) == dot(values(value, a), values(value, b)),
        holds(value(product(f, a, b, a.len()))),
{
    let n = a.len();
    let x = values(value, a);
    let y = values(value, b);
    let terms = products(x, y);
    let partial = Seq::new(n + 1, |k: int| value(product(f, a, b, k as nat)));
    assert forall|k: int|
        0 <= k < terms.len() && holds(partial[k]) && holds(partial[k] + terms[k]) implies partial[k
        + 1] == partial[k] + #[trigger] terms[k] by {
        assert(holds(x[k]) && holds(y[k]) && holds(terms[k]));
        assert(product(f, a, b, (k + 1) as nat) == step_result(
            f,
            TermStep::Product { sum: product(f, a, b, k as nat), a: a[k], b: b[k] },
        ));
    }
    assert(grows_by(holds, partial, terms));
    crate::exact::lemma_partial_sums(holds, partial, terms, n);
}

/// Sums of squared differences are squared distances, over every component.
pub proof fn law_squares_are_distances<F: Fn(TermStep) -> u32>(
    f: F,
    value: spec_fn(u32) -> real,
    holds: spec_fn(real) -> bool,
    a: Seq<u32>,
    b: Seq<u32>,
)
    requires
        a.len() == b.len(),
        value(0u32) == 0real,
        is_exact(f, value, holds),
        distance_holds(holds, values(value, a), values(value, b)),
    ensures
        value(squared_distance(f, a, b, a.len())) == distance(values(value, a), values(value, b)),
        holds(value(squared_distance(f, a, b, a.len()))),
{
    let n = a.len();
    let x = values(value, a);
    let y = values(value, b);
    let gap = differences(x, y);
    let terms = products(gap, gap);
    let partial = Seq::new(n + 1, |k: int| value(squared_distance(f, a, b, k as nat)));
    assert forall|k: int|
        0 <= k < terms.len() && holds(partial[k]) && holds(partial[k] + terms[k]) implies partial[k
        + 1] == partial[k] + #[trigger] terms[k] by {
        assert(holds(x[k]) && holds(y[k]) && holds(gap[k]) && holds(terms[k]));
        assert(squared_distance(f, a, b, (k + 1) as nat) == step_result(
            f,
            TermStep::Square { sum: squared_distance(f, a, b, k as nat), a: a[k], b: b[k] },
        ));
    }
    assert(grows_by(holds, partial, terms));
    crate::exact::lemma_partial_sums(holds, partial, terms, n);
}

/// Sums of squared errors are squared distances to the stretched code.
pub proof fn law_errors_are_distances<F: Fn(TermStep) -> u32>(
    f: F,
    value: spec_fn(u32) -> real,
    holds: spec_fn(real) -> bool,
    residual: Seq<u32>,
    rescale: u32,
    code: Seq<u32>,
)
    requires
        residual.len() == code.len(),
        value(0u32) == 0real,
        is_exact(f, value, holds),
        holds(value(rescale)),
        crate::exact::all_hold(holds, values(value, code)),
        distance_holds(
            holds,
            values(value, residual),
            stretched(value(rescale), values(value, code)),
        ),
    ensures
        value(squared_error(f, residual, rescale, code, residual.len())) == distance(
            values(value, residual),
            stretched(value(rescale), values(value, code)),
        ),
        holds(value(squared_error(f, residual, rescale, code, residual.len()))),
{
    let n = residual.len();
    let x = values(value, residual);
    let c = values(value, code);
    let y = stretched(value(rescale), c);
    let gap = differences(x, y);
    let terms = products(gap, gap);
    let partial = Seq::new(
        n + 1,
        |k: int| value(squared_error(f, residual, rescale, code, k as nat)),
    );
    assert forall|k: int|
        0 <= k < terms.len() && holds(partial[k]) && holds(partial[k] + terms[k]) implies partial[k
        + 1] == partial[k] + #[trigger] terms[k] by {
        assert(holds(x[k]) && holds(c[k]) && holds(y[k]) && holds(gap[k]) && holds(terms[k]));
        assert(squared_error(f, residual, rescale, code, (k + 1) as nat) == step_result(
            f,
            TermStep::Error {
                sum: squared_error(f, residual, rescale, code, k as nat),
                value: residual[k],
                rescale,
                code: code[k],
            },
        ));
    }
    assert(grows_by(holds, partial, terms));
    crate::exact::lemma_partial_sums(holds, partial, terms, n);
}

/// The part of a distance that a vector beside a centroid has on its own: its
/// squared length, half of that, or its negated inner product with the centroid.
pub open spec fn own_part(metric: MetricType, norm: real, along: real) -> real {
    match metric {
        MetricType::L2 => norm,
        MetricType::Cosine => norm / 2real,
        MetricType::InnerProduct => -along,
    }
}

/// How often an inner product counts in a distance.
pub open spec fn share_of(metric: MetricType, product: real) -> real {
    if metric == MetricType::L2 {
        product + product
    } else {
        product
    }
}

/// Everything that factors are made of can be computed without rounding.
pub open spec fn factors_hold(
    holds: spec_fn(real) -> bool,
    metric: MetricType,
    residual: Seq<real>,
    centroid: Seq<real>,
    code: Seq<real>,
    rescale: real,
) -> bool {
    let base = own_part(metric, dot(residual, residual), dot(residual, centroid));
    let stretch = share_of(metric, rescale);
    &&& dot_holds(holds, residual, residual)
    &&& dot_holds(holds, residual, centroid)
    &&& dot_holds(holds, residual, code)
    &&& dot_holds(holds, centroid, code)
    &&& holds(rescale)
    &&& holds(stretch)
    &&& holds(-stretch)
    &&& holds(base)
    &&& holds(times(stretch, dot(centroid, code)))
    &&& holds(base + times(stretch, dot(centroid, code)))
}

/// The base of the factors: under inner product it is the negated product of
/// residual and centroid, with its sign.
proof fn lemma_base<F: Fn(TermStep) -> u32>(
    f: F,
    value: spec_fn(u32) -> real,
    holds: spec_fn(real) -> bool,
    metric: MetricType,
    norm: u32,
    along: u32,
)
    requires
        is_exact(f, value, holds),
        holds(value(norm)),
        holds(value(along)),
        holds(own_part(metric, value(norm), value(along))),
    ensures
        value(base_term(f, metric, norm, along)) == own_part(metric, value(norm), value(along)),
{
}

/// The factors of a code that is stretched by `rescale`, so that its product
/// with the residual is the residual's squared length: what the residual has on
/// its own, the product of the centroid with the stretched code, and the
/// stretching itself, negated.
pub proof fn law_factors_stretch_the_code<F: Fn(TermStep) -> u32>(
    f: F,
    value: spec_fn(u32) -> real,
    holds: spec_fn(real) -> bool,
    residual: Seq<u32>,
    centroid: Seq<u32>,
    code: Seq<u32>,
    metric: MetricType,
    rescale: real,
)
    requires
        centroid.len() == residual.len(),
        code.len() == residual.len(),
        value(0u32) == 0real,
        is_exact(f, value, holds),
        !is_degenerate(
            product(f, residual, residual, residual.len()),
            product(f, residual, code, residual.len()),
        ),
        ({
            let o = values(value, residual);
            let x = values(value, code);
            &&& factors_hold(holds, metric, o, values(value, centroid), x, rescale)
            &&& dot(o, x) != 0real
            &&& times(rescale, dot(o, x)) == dot(o, o)
        }),
    ensures
        ({
            let o = values(value, residual);
            let c = values(value, centroid);
            let x = values(value, code);
            let factors = code_factors(f, residual, centroid, code, metric);
            &&& value(factors.f_add) == own_part(metric, dot(o, o), dot(o, c)) + share_of(
                metric,
                dot(c, stretched(rescale, x)),
            )
            &&& value(factors.f_rescale) == -share_of(metric, rescale)
        }),
        value(
            step_result(
                f,
                TermStep::Ratio {
                    a: product(f, residual, residual, residual.len()),
                    b: product(f, residual, code, residual.len()),
                },
            ),
        ) == rescale,
{
    let n = residual.len();
    let o = values(value, residual);
    let c = values(value, centroid);
    let x = values(value, code);
    law_products_are_inner_products(f, value, holds, residual, residual);
    law_products_are_inner_products(f, value, holds, residual, code);
    law_products_are_inner_products(f, value, holds, residual, centroid);
    law_products_are_inner_products(f, value, holds, centroid, code);
    let norm = product(f, residual, residual, n);
    let along = product(f, residual, code, n);
    lemma_base(f, value, holds, metric, norm, product(f, residual, centroid, n));
    let ratio = step_result(f, TermStep::Ratio { a: norm, b: along });
    assert(times(rescale, value(along)) == value(norm));
    assert(value(ratio) == rescale);
    let stretch = counted(f, metric, ratio);
    assert(value(stretch) == share_of(metric, rescale));
    crate::exact::lemma_dot_of_stretched(rescale, x, c);
    crate::exact::lemma_times_distributes(dot(c, x), rescale, rescale);
}

/// The factors of a residual without length, or without length along its code:
/// what the residual has on its own.
pub proof fn law_degenerate_factors<F: Fn(TermStep) -> u32>(
    f: F,
    value: spec_fn(u32) -> real,
    holds: spec_fn(real) -> bool,
    residual: Seq<u32>,
    centroid: Seq<u32>,
    code: Seq<u32>,
    metric: MetricType,
    length: real,
)
    requires
        centroid.len() == residual.len(),
        code.len() == residual.len(),
        value(0u32) == 0real,
        is_exact(f, value, holds),
        is_degenerate(
            product(f, residual, residual, residual.len()),
            product(f, residual, code, residual.len()),
        ),
        ({
            let o = values(value, residual);
            let c = values(value, centroid);
            &&& dot_holds(holds, o, o)
            &&& dot_holds(holds, o, c)
            &&& holds(own_part(metric, dot(o, o), dot(o, c)))
            &&& length >= 0real
            &&& times(length, length) == dot(o, o)
            &&& holds(length)
            &&& holds(share_of(metric, length))
        }),
    ensures
        ({
            let o = values(value, residual);
            let c = values(value, centroid);
            let factors = code_factors(f, residual, centroid, code, metric);
            &&& value(factors.f_add) == own_part(metric, dot(o, o), dot(o, c))
            &&& value(factors.f_rescale) == 0real
            &&& value(factors.f_error) == share_of(metric, length)
        }),
{
    let n = residual.len();
    law_products_are_inner_products(f, value, holds, residual, residual);
    law_products_are_inner_products(f, value, holds, residual, centroid);
    let norm = product(f, residual, residual, n);
    lemma_base(f, value, holds, metric, norm, product(f, residual, centroid, n));
    assert(times(length, length) == value(norm));
}

/// The error factor is how far the residual is from its stretched code, as often
/// as inner products count.
pub proof fn law_error_factors_are_distances<F: Fn(TermStep) -> u32>(
    f: F,
    value: spec_fn(u32) -> real,
    holds: spec_fn(real) -> bool,
    residual: Seq<u32>,
    centroid: Seq<u32>,
    code: Seq<u32>,
    metric: MetricType,
    rescale: real,
    error: real,
)
    requires
        centroid.len() == residual.len(),
        code.len() == residual.len(),
        value(0u32) == 0real,
        is_exact(f, value, holds),
        !is_degenerate(
            product(f, residual, residual, residual.len()),
            product(f, residual, code, residual.len()),
        ),
        ({
            let o = values(value, residual);
            let x = values(value, code);
            &&& factors_hold(holds, metric, o, values(value, centroid), x, rescale)
            &&& dot(o, x) != 0real
            &&& times(rescale, dot(o, x)) == dot(o, o)
            &&& distance_holds(holds, o, stretched(rescale, x))
            &&& error >= 0real
            &&& times(error, error) == distance(o, stretched(rescale, x))
            &&& holds(error)
            &&& holds(share_of(metric, error))
        }),
    ensures
        value(code_factors(f, residual, centroid, code, metric).f_error) == share_of(metric, error),
{
    let n = residual.len();
    law_factors_stretch_the_code(f, value, holds, residual, centroid, code, metric, rescale);
    let ratio = step_result(
        f,
        TermStep::Ratio { a: product(f, residual, residual, n), b: product(f, residual, code, n) },
    );
    law_errors_are_distances(f, value, holds, residual, ratio, code);
    let squared = squared_error(f, residual, ratio, code, n);
    assert(times(error, error) == value(squared));
    let root = step_result(f, TermStep::Root { value: squared });
    assert(value(root) == error);
    assert(value(counted(f, metric, root)) == share_of(metric, error));
}

/// The terms of a query: what the query has on its own beside the centroid, and
/// how far it is from there.
pub proof fn law_terms_measure_the_query<F: Fn(TermStep) -> u32>(
    f: F,
    value: spec_fn(u32) -> real,
    holds: spec_fn(real) -> bool,
    query: Seq<u32>,
    centroid: Seq<u32>,
    metric: MetricType,
    length: real,
)
    requires
        query.len() == centroid.len(),
        value(0u32) == 0real,
        is_exact(f, value, holds),
        ({
            let q = values(value, query);
            let c = values(value, centroid);
            &&& distance_holds(holds, q, c)
            &&& dot_holds(holds, q, c)
            &&& holds(own_part(metric, distance(q, c), dot(q, c)))
            &&& length >= 0real
            &&& times(length, length) == distance(q, c)
            &&& holds(length)
        }),
    ensures
        ({
            let q = values(value, query);
            let c = values(value, centroid);
            let terms = terms_of(f, query, centroid, metric);
            &&& value(terms.g_add) == own_part(metric, distance(q, c), dot(q, c))
            &&& value(terms.g_error) == length
        }),
{
    let n = centroid.len();
    law_squares_are_distances(f, value, holds, query, centroid);
    law_products_are_inner_products(f, value, holds, query, centroid);
    let norm = squared_distance(f, query, centroid, n);
    lemma_base(f, value, holds, metric, norm, product(f, query, centroid, n));
    assert(times(length, length) == value(norm));
}

/// Terms from a squared distance and squared lengths are those from the vectors.
pub proof fn law_terms_from_distances_agree<F: Fn(TermStep) -> u32>(
    f: F,
    value: spec_fn(u32) -> real,
    holds: spec_fn(real) -> bool,
    q: Seq<real>,
    c: Seq<real>,
    gap: u32,
    query_norm: u32,
    centroid_norm: u32,
    metric: MetricType,
    length: real,
)
    requires
        q.len() == c.len(),
        is_exact(f, value, holds),
        crate::order::less(0, gap) || gap == 0,
        value(gap) == distance(q, c),
        value(query_norm) == dot(q, q),
        value(centroid_norm) == dot(c, c),
        holds(distance(q, c)),
        holds(dot(q, q)),
        holds(dot(c, c)),
        holds(dot(q, q) + dot(c, c)),
        holds(dot(q, c) + dot(q, c)),
        holds(dot(q, c)),
        holds(distance(q, c) / 2real),
        length >= 0real,
        times(length, length) == distance(q, c),
        holds(length),
    ensures
        ({
            let terms = terms_from_distance(f, gap, query_norm, centroid_norm, metric);
            &&& value(terms.g_add) == own_part(metric, distance(q, c), dot(q, c))
            &&& value(terms.g_error) == length
        }),
{
    crate::exact::lemma_distance_expands(q, c);
    assert(crate::order::max_number(gap, 0) == gap);
    assert(times(length, length) == value(gap));
    let twice = value(query_norm) + value(centroid_norm) - value(gap);
    assert(twice == dot(q, c) + dot(q, c));
    assert(twice / 2real == dot(q, c));
}

/// The estimate of a distance is the distance of the query to the row, as far as
/// the code tells: what query and residual have on their own, and the inner
/// product of the query's residual with the stretched code.
pub proof fn law_estimates_are_distances<F: Fn(TermStep) -> u32, G: Fn(RowStep) -> u32>(
    f: F,
    g: G,
    value: spec_fn(u32) -> real,
    holds: spec_fn(real) -> bool,
    query: Seq<u32>,
    residual: Seq<u32>,
    centroid: Seq<u32>,
    code: Seq<u32>,
    along: u32,
    metric: MetricType,
    rescale: real,
    length: real,
)
    requires
        query.len() == residual.len(),
        centroid.len() == residual.len(),
        code.len() == residual.len(),
        value(0u32) == 0real,
        is_exact(f, value, holds),
        estimates(g, value, holds),
        !is_degenerate(
            product(f, residual, residual, residual.len()),
            product(f, residual, code, residual.len()),
        ),
        ({
            let q = values(value, query);
            let o = values(value, residual);
            let c = values(value, centroid);
            let x = values(value, code);
            let own = own_part(metric, dot(o, o), dot(o, c)) + share_of(
                metric,
                dot(c, stretched(rescale, x)),
            );
            let asked = own_part(metric, distance(q, c), dot(q, c));
            &&& factors_hold(holds, metric, o, c, x, rescale)
            &&& dot(o, x) != 0real
            &&& times(rescale, dot(o, x)) == dot(o, o)
            &&& distance_holds(holds, q, c)
            &&& dot_holds(holds, q, c)
            &&& holds(asked)
            &&& length >= 0real
            &&& times(length, length) == distance(q, c)
            &&& holds(length)
            &&& value(along) == dot(q, x)
            &&& holds(dot(q, x))
            &&& holds(own)
            &&& holds(own + asked)
            &&& holds(-share_of(metric, dot(q, stretched(rescale, x))))
            &&& holds(own + asked - share_of(metric, dot(q, stretched(rescale, x))))
        }),
    ensures
        ({
            let q = values(value, query);
            let o = values(value, residual);
            let c = values(value, centroid);
            let x = values(value, code);
            let factors = code_factors(f, residual, centroid, code, metric);
            let terms = terms_of(f, query, centroid, metric);
            let estimate = value(estimated(g, along, factors, terms));
            &&& estimate == own_part(metric, distance(q, c), dot(q, c)) + own_part(
                metric,
                dot(o, o),
                dot(o, c),
            ) - share_of(metric, dot(differences(q, c), stretched(rescale, x)))
            &&& stretched(rescale, x) == o ==> estimate == (match metric {
                MetricType::L2 => distance(q, sums(c, o)),
                MetricType::Cosine => distance(q, sums(c, o)) / 2real,
                MetricType::InnerProduct => -dot(q, sums(c, o)),
            })
        }),
{
    let q = values(value, query);
    let o = values(value, residual);
    let c = values(value, centroid);
    let x = values(value, code);
    let long = stretched(rescale, x);
    law_factors_stretch_the_code(f, value, holds, residual, centroid, code, metric, rescale);
    law_terms_measure_the_query(f, value, holds, query, centroid, metric, length);
    let factors = code_factors(f, residual, centroid, code, metric);
    let terms = terms_of(f, query, centroid, metric);
    // The product of the factor with the query's product.
    crate::exact::lemma_dot_of_stretched(rescale, x, q);
    let stretch = share_of(metric, rescale);
    crate::exact::lemma_times_small(stretch);
    crate::exact::lemma_times_associates(-1real, stretch, dot(q, x));
    crate::exact::lemma_times_small(times(stretch, dot(q, x)));
    crate::exact::lemma_times_distributes(dot(q, x), rescale, rescale);
    assert(times(value(factors.f_rescale), value(along)) == -share_of(metric, dot(q, long)));
    assert(value(estimated(g, along, factors, terms)) == value(factors.f_add) + value(terms.g_add)
        + times(value(factors.f_rescale), value(along)));
    crate::exact::lemma_dot_of_difference(q, c, long);
    if long == o {
        lemma_metric_parts(q, c, o);
    }
}

/// The distance to a centroid with a residual, from the parts.
proof fn lemma_metric_parts(q: Seq<real>, c: Seq<real>, o: Seq<real>)
    requires
        q.len() == c.len(),
        o.len() == c.len(),
    ensures
        distance(q, sums(c, o)) == distance(q, c) + dot(o, o) - dot(differences(q, c), o) - dot(
            differences(q, c),
            o,
        ),
        dot(q, sums(c, o)) == dot(q, c) + dot(o, c) + dot(differences(q, c), o),
{
    let gap = differences(q, c);
    assert(differences(q, sums(c, o)) =~= differences(gap, o));
    crate::exact::lemma_distance_expands(gap, o);
    crate::exact::lemma_dot_of_sum(c, o, q);
    crate::exact::lemma_dot_of_difference(q, c, o);
    crate::exact::lemma_dot_symmetric(c, o);
}

} // verus!
