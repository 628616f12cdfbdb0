//! What turns products with codes into distances: the factors of a code and
//! the terms of a query.
use crate::distance::MetricType;
use crate::order::float_max;
use crate::rq::{RQCodeFactors, RaBitQuantizer};
use crate::rq_encode::negligible;
use crate::rq_products::RQQueryTerms;
use crate::rq_query::RQQueryContext;
use vstd::prelude::*;

verus! {

/// One step of the arithmetic of factors and terms.
#[derive(Debug, Clone, Copy, PartialEq, Eq, Structural)]
pub enum TermStep {
    /// A sum to which a product is added.
    Product { sum: u32, a: u32, b: u32 },
    /// A sum to which the square of a difference is added.
    Square { sum: u32, a: u32, b: u32 },
    /// A sum to which the square of `value` less `rescale` times `code` is
    /// added.
    Error { sum: u32, value: u32, rescale: u32, code: u32 },
    /// The quotient of two numbers.
    Ratio { a: u32, b: u32 },
    Root { value: u32 },
    Half { value: u32 },
    Double { value: u32 },
    Negate { value: u32 },
    /// The inner product, negated, of two vectors with these squared lengths
    /// and this squared distance.
    Cross { a: u32, b: u32, distance: u32 },
}

/// Every step has one result.
pub open spec fn is_arithmetic<F: Fn(TermStep) -> u32>(f: F) -> bool {
    &&& forall|step: TermStep| #[trigger] call_requires(f, (step,))
    &&& forall|step: TermStep, x: u32, y: u32| #[trigger]
        call_ensures(f, (step,), x) && #[trigger] call_ensures(f, (step,), y) ==> x == y
}

/// The result of a step.
pub open spec fn step_result<F: Fn(TermStep) -> u32>(f: F, step: TermStep) -> u32 {
    choose|x: u32| call_ensures(f, (step,), x)
}

fn take_step<F: Fn(TermStep) -> u32>(f: &F, step: TermStep) -> (x: u32)
    requires
        is_arithmetic(*f),
    ensures
        x == step_result(*f, step),
{
    let x: u32 = f(step);
    assert(call_ensures(*f, (step,), x));
    x
}

/// The inner product of the first `n` components, summed in turn from zero.
pub open spec fn product<F: Fn(TermStep) -> u32>(f: F, a: Seq<u32>, b: Seq<u32>, n: nat) -> u32
    decreases n,
{
    if n == 0 {
        0
    } else {
        step_result(
            f,
            TermStep::Product { sum: product(f, a, b, (n - 1) as nat), a: a[n - 1], b: b[n - 1] },
        )
    }
}

/// The squared distance of the first `n` components, summed in turn from zero.
pub open spec fn squared_distance<F: Fn(TermStep) -> u32>(
    f: F,
    a: Seq<u32>,
    b: Seq<u32>,
    n: nat,
) -> u32
    decreases n,
{
    if n == 0 {
        0
    } else {
        step_result(
            f,
            TermStep::Square {
                sum: squared_distance(f, a, b, (n - 1) as nat),
                a: a[n - 1],
                b: b[n - 1],
            },
        )
    }
}

/// The squared error of a rescaled code over the first `n` components, summed
/// in turn from zero.
pub open spec fn squared_error<F: Fn(TermStep) -> u32>(
    f: F,
    residual: Seq<u32>,
    rescale: u32,
    code: Seq<u32>,
    n: nat,
) -> u32
    decreases n,
{
    if n == 0 {
        0
    } else {
        step_result(
            f,
            TermStep::Error {
                sum: squared_error(f, residual, rescale, code, (n - 1) as nat),
                value: residual[n - 1],
                rescale,
                code: code[n - 1],
            },
        )
    }
}

fn inner_product<F: Fn(TermStep) -> u32>(f: &F, a: &[u32], b: &[u32]) -> (sum: u32)
    requires
        is_arithmetic(*f),
        a@.len() == b@.len(),
    ensures
        sum == product(*f, a@, b@, a@.len()),
{
    let mut sum: u32 = 0;
    let mut i: usize = 0;
    while i < a.len()
        invariant
            is_arithmetic(*f),
            a@.len() == b@.len(),
            i <= a@.len(),
            sum == product(*f, a@, b@, i as nat),
        decreases a@.len() - i,
    {
        sum = take_step(f, TermStep::Product { sum, a: a[i], b: b[i] });
        i = i + 1;
    }
    sum
}

/// What a distance adds for a residual, before its code is looked at.
pub open spec fn base_term<F: Fn(TermStep) -> u32>(
    f: F,
    metric: MetricType,
    norm: u32,
    centroid_product: u32,
) -> u32 {
    match metric {
        MetricType::L2 => norm,
        MetricType::Cosine => step_result(f, TermStep::Half { value: norm }),
        MetricType::InnerProduct => step_result(f, TermStep::Negate { value: centroid_product }),
    }
}

fn base_of<F: Fn(TermStep) -> u32>(
    f: &F,
    metric: MetricType,
    norm: u32,
    centroid_product: u32,
) -> (base: u32)
    requires
        is_arithmetic(*f),
    ensures
        base == base_term(*f, metric, norm, centroid_product),
{
    match metric {
        MetricType::L2 => norm,
        MetricType::Cosine => take_step(f, TermStep::Half { value: norm }),
        MetricType::InnerProduct => take_step(f, TermStep::Negate { value: centroid_product }),
    }
}

/// Squared distances count an inner product twice.
pub open spec fn counted<F: Fn(TermStep) -> u32>(f: F, metric: MetricType, value: u32) -> u32 {
    if metric == MetricType::L2 {
        step_result(f, TermStep::Double { value })
    } else {
        value
    }
}

fn count<F: Fn(TermStep) -> u32>(f: &F, metric: MetricType, value: u32) -> (result: u32)
    requires
        is_arithmetic(*f),
    ensures
        result == counted(*f, metric, value),
{
    if metric == MetricType::L2 {
        take_step(f, TermStep::Double { value })
    } else {
        value
    }
}

/// A residual that has no length, or none along its code.
pub open spec fn is_degenerate(norm: u32, code_product: u32) -> bool {
    crate::rq_encode::is_negligible(norm) || crate::rq_encode::is_negligible(
        crate::rq_encode::unsigned(code_product),
    )
}

/// The factors of a residual whose code stands for the components `code`. The
/// code is stretched so that its product with the residual is right; a
/// degenerate residual counts as its length alone.
pub open spec fn code_factors<F: Fn(TermStep) -> u32>(
    f: F,
    residual: Seq<u32>,
    centroid: Seq<u32>,
    code: Seq<u32>,
    metric: MetricType,
) -> RQCodeFactors {
    let n = residual.len();
    let norm = product(f, residual, residual, n);
    let code_product = product(f, residual, code, n);
    let base = base_term(f, metric, norm, product(f, residual, centroid, n));
    if is_degenerate(norm, code_product) {
        RQCodeFactors {
            f_add: base,
            f_rescale: 0,
            f_error: counted(f, metric, step_result(f, TermStep::Root { value: norm })),
        }
    } else {
        let rescale = step_result(f, TermStep::Ratio { a: norm, b: code_product });
        let stretch = counted(f, metric, rescale);
        let error = step_result(
            f,
            TermStep::Root { value: squared_error(f, residual, rescale, code, n) },
        );
        RQCodeFactors {
            f_add: step_result(
                f,
                TermStep::Product { sum: base, a: stretch, b: product(f, centroid, code, n) },
            ),
            f_rescale: step_result(f, TermStep::Negate { value: stretch }),
            f_error: counted(f, metric, error),
        }
    }
}

/// The factors of a residual whose code stands for the components `code`.
pub fn compute_factors<F: Fn(TermStep) -> u32>(
    residual: &[u32],
    centroid: &[u32],
    code: &[u32],
    metric: MetricType,
    f: &F,
) -> (factors: RQCodeFactors)
    requires
        is_arithmetic(*f),
        centroid@.len() == residual@.len(),
        code@.len() == residual@.len(),
    ensures
        factors == code_factors(*f, residual@, centroid@, code@, metric),
{
    let norm: u32 = inner_product(f, residual, residual);
    let code_product: u32 = inner_product(f, residual, code);
    let centroid_product: u32 = inner_product(f, residual, centroid);
    let base: u32 = base_of(f, metric, norm, centroid_product);
    if negligible(norm) || negligible(crate::rq_encode::without_sign(code_product)) {
        let length: u32 = take_step(f, TermStep::Root { value: norm });
        return RQCodeFactors { f_add: base, f_rescale: 0, f_error: count(f, metric, length) };
    }
    let rescale: u32 = take_step(f, TermStep::Ratio { a: norm, b: code_product });
    let mut sum: u32 = 0;
    let mut i: usize = 0;
    while i < residual.len()
        invariant
            is_arithmetic(*f),
            code@.len() == residual@.len(),
            i <= residual@.len(),
            sum == squared_error(*f, residual@, rescale, code@, i as nat),
        decreases residual@.len() - i,
    {
        sum = take_step(
            f,
            TermStep::Error { sum, value: residual[i], rescale, code: code[i] },
        );
        i = i + 1;
    }
    let error: u32 = take_step(f, TermStep::Root { value: sum });
    let stretch: u32 = count(f, metric, rescale);
    let along: u32 = inner_product(f, centroid, code);
    RQCodeFactors {
        f_add: take_step(f, TermStep::Product { sum: base, a: stretch, b: along }),
        f_rescale: take_step(f, TermStep::Negate { value: stretch }),
        f_error: count(f, metric, error),
    }
}

/// The terms of a query and the centroid of a list.
pub open spec fn terms_of<F: Fn(TermStep) -> u32>(
    f: F,
    query: Seq<u32>,
    centroid: Seq<u32>,
    metric: MetricType,
) -> RQQueryTerms {
    let n = centroid.len();
    let norm = squared_distance(f, query, centroid, n);
    RQQueryTerms {
        g_add: base_term(f, metric, norm, product(f, query, centroid, n)),
        g_error: step_result(f, TermStep::Root { value: norm }),
    }
}

/// The terms from the squared distance and the squared lengths of a query and a
/// centroid.
pub open spec fn terms_from_distance<F: Fn(TermStep) -> u32>(
    f: F,
    distance: u32,
    query_norm: u32,
    centroid_norm: u32,
    metric: MetricType,
) -> RQQueryTerms {
    let norm = crate::order::max_number(distance, 0);
    RQQueryTerms {
        g_add: match metric {
            MetricType::L2 => norm,
            MetricType::Cosine => step_result(f, TermStep::Half { value: norm }),
            MetricType::InnerProduct => step_result(
                f,
                TermStep::Cross { a: query_norm, b: centroid_norm, distance: norm },
            ),
        },
        g_error: step_result(f, TermStep::Root { value: norm }),
    }
}

impl RaBitQuantizer {
    /// The terms of a query and the centroid of a list.
    pub fn query_terms<F: Fn(TermStep) -> u32>(
        &self,
        context: &RQQueryContext,
        rotated_centroid: &[u32],
        metric: MetricType,
        f: &F,
    ) -> (terms: RQQueryTerms)
        requires
            is_arithmetic(*f),
            context.rotated_query@.len() == rotated_centroid@.len(),
        ensures
            terms == terms_of(*f, context.rotated_query@, rotated_centroid@, metric),
    {
        let query = &context.rotated_query;
        let mut norm: u32 = 0;
        let mut i: usize = 0;
        while i < query.len()
            invariant
                is_arithmetic(*f),
                query@.len() == rotated_centroid@.len(),
                i <= query@.len(),
                norm == squared_distance(*f, query@, rotated_centroid@, i as nat),
            decreases query@.len() - i,
        {
            norm = take_step(
                f,
                TermStep::Square { sum: norm, a: query[i], b: rotated_centroid[i] },
            );
            i = i + 1;
        }
        let along: u32 = inner_product(f, query.as_slice(), rotated_centroid);
        RQQueryTerms {
            g_add: base_of(f, metric, norm, along),
            g_error: take_step(f, TermStep::Root { value: norm }),
        }
    }

    /// The same terms from the squared distance and the squared lengths of a
    /// query and a centroid. A negative distance counts as zero.
    pub fn query_terms_from_coarse_distance<F: Fn(TermStep) -> u32>(
        &self,
        residual_norm_sqr: u32,
        query_norm_sqr: u32,
        centroid_norm_sqr: u32,
        metric: MetricType,
        f: &F,
    ) -> (terms: RQQueryTerms)
        requires
            is_arithmetic(*f),
        ensures
            terms == terms_from_distance(
                *f,
                residual_norm_sqr,
                query_norm_sqr,
                centroid_norm_sqr,
                metric,
            ),
    {
        let norm: u32 = float_max(residual_norm_sqr, 0);
        let g_error: u32 = take_step(f, TermStep::Root { value: norm });
        let g_add: u32 = match metric {
            MetricType::L2 => norm,
            MetricType::Cosine => take_step(f, TermStep::Half { value: norm }),
            MetricType::InnerProduct => take_step(
                f,
                TermStep::Cross { a: query_norm_sqr, b: centroid_norm_sqr, distance: norm },
            ),
        };
        RQQueryTerms { g_add, g_error }
    }
}

} // verus!
