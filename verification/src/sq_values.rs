//! What distances to scalar-quantized codes stand for.
use crate::distance::MetricType;
use crate::exact::{distance, distance_holds, dot, dot_holds, stretched, times, values};
use crate::ivfsq::IVFSQIndex;
use crate::sq::ScalarQuantizer;
use crate::sq_blocks::{BlockStep, BlockedCodes};
use crate::sq_distance::{distance_to_values, DistanceKernel};
use crate::table_values::{adds_products, adds_squares, negates};
use vstd::prelude::*;

verus! {

/// One less the cosine of an angle, from an inner product, a squared length and
/// a length, where nothing has to be rounded. The cosine is the quotient of the
/// product and both lengths.
pub open spec fn is_cosine_step<C: Fn(u32, u32, u32) -> u32>(
    step: C,
    value: spec_fn(u32) -> real,
    holds: spec_fn(real) -> bool,
) -> bool {
    forall|product: u32, norm: u32, query_norm: u32, length: real, cosine: real|
        holds(value(product)) && holds(value(norm)) && holds(value(query_norm)) && holds(length)
            && length > 0real && value(query_norm) > 0real && #[trigger] times(length, length)
            == value(norm) && holds(times(value(query_norm), length)) && holds(cosine) && holds(
            1real - cosine,
        ) && #[trigger] times(cosine, times(value(query_norm), length)) == value(product)
            ==> value(#[trigger] crate::pq_tables::stepped(step, product, norm, query_norm))
            == 1real - cosine
}

/// Distances by squared distance and by inner product, over every component.
pub proof fn law_distances_are_measured<
    A: Fn(u32, u32) -> u32,
    D: Fn(u32, u32, u32) -> u32,
    M: Fn(u32, u32, u32) -> u32,
    N: Fn(u32) -> u32,
    R: Fn(u32) -> u32,
    C: Fn(u32, u32, u32) -> u32,
>(
    kernel: DistanceKernel<A, D, M, N, R, C>,
    value: spec_fn(u32) -> real,
    holds: spec_fn(real) -> bool,
    metric: MetricType,
    query_norm: u32,
    query: Seq<u32>,
    row: Seq<u32>,
)
    requires
        row.len() == query.len(),
        value(0u32) == 0real,
        metric == MetricType::L2 ==> adds_squares(kernel.squared_step, value, value, holds)
            && distance_holds(holds, values(value, query), values(value, row)),
        metric == MetricType::InnerProduct ==> adds_products(
            kernel.product_step,
            value,
            value,
            holds,
        ) && negates(kernel.negate, value, holds) && dot_holds(
            holds,
            values(value, query),
            values(value, row),
        ),
    ensures
        metric == MetricType::L2 ==> value(
            distance_to_values(kernel, metric, query_norm, query, row),
        ) == distance(values(value, query), values(value, row)),
        metric == MetricType::InnerProduct ==> value(
            distance_to_values(kernel, metric, query_norm, query, row),
        ) == -dot(values(value, query), values(value, row)),
{
    let d = row.len();
    assert(query.subrange(0, d as int) =~= query);
    assert(row.subrange(0, d as int) =~= row);
    match metric {
        MetricType::L2 => {
            crate::table_values::law_steps_make_squared_distances(
                kernel.squared_step,
                0u32,
                value,
                value,
                holds,
                query,
                0,
                row,
                0,
                d,
            );
        },
        MetricType::InnerProduct => {
            crate::table_values::law_steps_make_inner_products(
                kernel.product_step,
                0u32,
                value,
                value,
                holds,
                query,
                0,
                row,
                0,
                d,
            );
        },
        MetricType::Cosine => {},
    }
}

/// A distance by angle is one less the cosine: the inner product, with its sign,
/// divided by both lengths.
pub proof fn law_angles_are_measured<
    A: Fn(u32, u32) -> u32,
    D: Fn(u32, u32, u32) -> u32,
    M: Fn(u32, u32, u32) -> u32,
    N: Fn(u32) -> u32,
    R: Fn(u32) -> u32,
    C: Fn(u32, u32, u32) -> u32,
>(
    kernel: DistanceKernel<A, D, M, N, R, C>,
    value: spec_fn(u32) -> real,
    holds: spec_fn(real) -> bool,
    query_norm: u32,
    query: Seq<u32>,
    row: Seq<u32>,
    length: real,
    cosine: real,
)
    requires
        row.len() == query.len(),
        value(0u32) == 0real,
        adds_products(kernel.product_step, value, value, holds),
        is_cosine_step(kernel.cosine, value, holds),
        dot_holds(holds, values(value, query), values(value, row)),
        dot_holds(holds, values(value, row), values(value, row)),
        holds(value(query_norm)),
        value(query_norm) > 0real,
        times(value(query_norm), value(query_norm)) == dot(
            values(value, query),
            values(value, query),
        ),
        length > 0real,
        times(length, length) == dot(values(value, row), values(value, row)),
        holds(length),
        holds(times(value(query_norm), length)),
        holds(cosine),
        holds(1real - cosine),
        times(cosine, times(value(query_norm), length)) == dot(
            values(value, query),
            values(value, row),
        ),
    ensures
        value(distance_to_values(kernel, MetricType::Cosine, query_norm, query, row)) == 1real
            - cosine,
{
    let d = row.len();
    assert(query.subrange(0, d as int) =~= query);
    assert(row.subrange(0, d as int) =~= row);
    crate::table_values::law_steps_make_inner_products(
        kernel.product_step,
        0u32,
        value,
        value,
        holds,
        query,
        0,
        row,
        0,
        d,
    );
    crate::table_values::law_steps_make_inner_products(
        kernel.product_step,
        0u32,
        value,
        value,
        holds,
        row,
        0,
        row,
        0,
        d,
    );
    let product = crate::pq_tables::accumulated(kernel.product_step, 0u32, query, 0, row, 0, d);
    let norm = crate::pq_tables::accumulated(kernel.product_step, 0u32, row, 0, row, 0, d);
    assert(times(length, length) == value(norm));
    assert(times(cosine, times(value(query_norm), length)) == value(product));
    assert(distance_to_values(kernel, MetricType::Cosine, query_norm, query, row)
        == crate::pq_tables::stepped(kernel.cosine, product, norm, query_norm));
}

/// A vector and its opposite have distances by angle that sum to two.
pub proof fn law_opposite_vectors_are_opposite<
    A: Fn(u32, u32) -> u32,
    D: Fn(u32, u32, u32) -> u32,
    M: Fn(u32, u32, u32) -> u32,
    N: Fn(u32) -> u32,
    R: Fn(u32) -> u32,
    C: Fn(u32, u32, u32) -> u32,
>(
    kernel: DistanceKernel<A, D, M, N, R, C>,
    value: spec_fn(u32) -> real,
    holds: spec_fn(real) -> bool,
    query_norm: u32,
    query: Seq<u32>,
    row: Seq<u32>,
    opposite: Seq<u32>,
    length: real,
    cosine: real,
)
    requires
        row.len() == query.len(),
        values(value, opposite) == stretched(-1real, values(value, row)),
        value(0u32) == 0real,
        adds_products(kernel.product_step, value, value, holds),
        is_cosine_step(kernel.cosine, value, holds),
        dot_holds(holds, values(value, query), values(value, row)),
        dot_holds(holds, values(value, row), values(value, row)),
        dot_holds(holds, values(value, query), values(value, opposite)),
        dot_holds(holds, values(value, opposite), values(value, opposite)),
        holds(value(query_norm)),
        value(query_norm) > 0real,
        times(value(query_norm), value(query_norm)) == dot(
            values(value, query),
            values(value, query),
        ),
        length > 0real,
        times(length, length) == dot(values(value, row), values(value, row)),
        holds(length),
        holds(times(value(query_norm), length)),
        holds(cosine),
        holds(-cosine),
        holds(1real - cosine),
        holds(1real + cosine),
        times(cosine, times(value(query_norm), length)) == dot(
            values(value, query),
            values(value, row),
        ),
    ensures
        value(distance_to_values(kernel, MetricType::Cosine, query_norm, query, row)) + value(
            distance_to_values(kernel, MetricType::Cosine, query_norm, query, opposite),
        ) == 2real,
{
    let q = values(value, query);
    let r = values(value, row);
    let s = values(value, opposite);
    assert(opposite.len() == s.len() && s.len() == stretched(-1real, r).len());
    law_angles_are_measured(kernel, value, holds, query_norm, query, row, length, cosine);
    crate::exact::lemma_dot_of_stretched(-1real, r, q);
    crate::exact::lemma_times_small(dot(q, r));
    crate::exact::lemma_dot_of_stretched(-1real, r, s);
    crate::exact::lemma_dot_of_stretched(-1real, r, r);
    crate::exact::lemma_dot_symmetric(r, s);
    crate::exact::lemma_times_small(dot(r, r));
    crate::exact::lemma_times_small(dot(r, s));
    assert(dot(s, s) == dot(r, r));
    let both = times(value(query_norm), length);
    crate::exact::lemma_times_small(cosine);
    crate::exact::lemma_times_associates(-1real, cosine, both);
    crate::exact::lemma_times_small(times(cosine, both));
    assert(times(-cosine, both) == dot(q, s));
    law_angles_are_measured(kernel, value, holds, query_norm, query, opposite, length, -cosine);
}

/// A map takes square roots, where nothing has to be rounded.
pub open spec fn takes_roots<R: Fn(u32) -> u32>(
    root: R,
    value: spec_fn(u32) -> real,
    holds: spec_fn(real) -> bool,
) -> bool {
    forall|x: u32, length: real|
        holds(value(x)) && length >= 0real && holds(length) && #[trigger] times(length, length)
            == value(x) ==> value(#[trigger] crate::float_ops::image_of(root, x)) == length
}

/// The norm of a query is its length.
pub proof fn law_query_norms_are_lengths<M: Fn(u32, u32, u32) -> u32, R: Fn(u32) -> u32>(
    product_step: M,
    root: R,
    value: spec_fn(u32) -> real,
    holds: spec_fn(real) -> bool,
    query: Seq<u32>,
    length: real,
)
    requires
        value(0u32) == 0real,
        adds_products(product_step, value, value, holds),
        takes_roots(root, value, holds),
        dot_holds(holds, values(value, query), values(value, query)),
        length >= 0real,
        holds(length),
        times(length, length) == dot(values(value, query), values(value, query)),
    ensures
        value(
            crate::sq_distance::query_norm_of(product_step, root, MetricType::Cosine, query),
        ) == length,
{
    let d = query.len();
    assert(query.subrange(0, d as int) =~= query);
    crate::table_values::law_steps_make_inner_products(
        product_step,
        0u32,
        value,
        value,
        holds,
        query,
        0,
        query,
        0,
        d,
    );
    let norm = crate::pq_tables::accumulated(product_step, 0u32, query, 0, query, 0, d);
    assert(times(length, length) == value(norm));
}

/// Values are moved by adding the offset, component by component.
pub proof fn law_moved_values_are_sums<A: Fn(u32, u32) -> u32>(
    add: A,
    value: spec_fn(u32) -> real,
    holds: spec_fn(real) -> bool,
    decoded: Seq<u32>,
    offset: Seq<u32>,
)
    requires
        decoded.len() == offset.len(),
        crate::table_values::adds(add, value, holds),
        crate::exact::all_hold(holds, values(value, decoded)),
        crate::exact::all_hold(holds, values(value, offset)),
        crate::exact::all_hold(
            holds,
            crate::exact::sums(values(value, decoded), values(value, offset)),
        ),
    ensures
        values(value, crate::sq_distance::moved_values(add, decoded, Some(offset)))
            == crate::exact::sums(values(value, decoded), values(value, offset)),
{
    let x = values(value, decoded);
    let y = values(value, offset);
    let both = crate::exact::sums(x, y);
    let moved = values(value, crate::sq_distance::moved_values(add, decoded, Some(offset)));
    assert forall|i: int| 0 <= i < both.len() implies moved[i] == both[i] by {
        assert(holds(x[i]) && holds(y[i]) && holds(both[i]));
    }
    assert(moved =~= both);
}

/// The steps of a blocked scan compute what they say, where nothing has to be
/// rounded. A code stands for as many steps of its range. The step itself is a
/// quotient that is always rounded; nothing is said of it.
pub open spec fn is_exact_scan<F: Fn(BlockStep) -> u32>(
    f: F,
    value: spec_fn(u32) -> real,
    holds: spec_fn(real) -> bool,
) -> bool {
    &&& forall|query: u32, offset: u32, min: u32|
        holds(value(query)) && holds(value(offset)) && holds(value(min)) && holds(
            value(query) - value(offset),
        ) && holds(value(query) - value(offset) - value(min)) ==> value(
            #[trigger] crate::sq_blocks::step_result(f, BlockStep::Bias { query, offset, min }),
        ) == value(query) - value(offset) - value(min)
    &&& forall|offset: u32, min: u32|
        holds(value(offset)) && holds(value(min)) && holds(value(offset) + value(min)) ==> value(
            #[trigger] crate::sq_blocks::step_result(f, BlockStep::Base { offset, min }),
        ) == value(offset) + value(min)
    &&& forall|base: u32, code: u8, width: u32|
        {
            let part = times(code as real, value(width));
            holds(value(base)) && holds(value(width)) && holds(part) && holds(value(base) + part)
                ==> value(
                #[trigger] crate::sq_blocks::step_result(
                    f,
                    BlockStep::Decode { base, code, width },
                ),
            ) == value(base) + part
        }
    &&& forall|sum: u32, bias: u32, code: u8, width: u32|
        {
            let part = times(code as real, value(width));
            let gap = value(bias) - part;
            holds(value(sum)) && holds(value(bias)) && holds(value(width)) && holds(part) && holds(
                gap,
            ) && holds(times(gap, gap)) && holds(value(sum) + times(gap, gap)) ==> value(
                #[trigger] crate::sq_blocks::step_result(
                    f,
                    BlockStep::Square { sum, bias, code, width },
                ),
            ) == value(sum) + times(gap, gap)
        }
    &&& forall|sum: u32, a: u32, b: u32|
        holds(value(sum)) && holds(value(a)) && holds(value(b)) && holds(times(value(a), value(b)))
            && holds(value(sum) + times(value(a), value(b))) ==> value(
            #[trigger] crate::sq_blocks::step_result(f, BlockStep::Product { sum, a, b }),
        ) == value(sum) + times(value(a), value(b))
    &&& forall|x: u32|
        holds(value(x)) ==> value(
            #[trigger] crate::sq_blocks::step_result(f, BlockStep::Negate { value: x }),
        ) == -value(x)
    &&& forall|x: u32, length: real|
        holds(value(x)) && length >= 0real && holds(length) && #[trigger] times(length, length)
            == value(x) ==> value(
            #[trigger] crate::sq_blocks::step_result(f, BlockStep::Root { value: x }),
        ) == length
    &&& forall|product: u32, norm: u32, query_norm: u32, length: real, cosine: real|
        holds(value(product)) && holds(value(norm)) && holds(value(query_norm)) && holds(length)
            && length > 0real && value(query_norm) > 0real && #[trigger] times(length, length)
            == value(norm) && holds(times(value(query_norm), length)) && holds(cosine) && holds(
            1real - cosine,
        ) && #[trigger] times(cosine, times(value(query_norm), length)) == value(product)
            ==> value(
            #[trigger] crate::sq_blocks::step_result(
                f,
                BlockStep::Cosine { product, norm, query_norm },
            ),
        ) == 1real - cosine
}

/// The step from one code to the next in a dimension.
pub open spec fn code_step<F: Fn(BlockStep) -> u32>(
    f: F,
    value: spec_fn(u32) -> real,
    sq: ScalarQuantizer,
    dim: int,
) -> real {
    value(
        crate::sq_blocks::step_result(
            f,
            BlockStep::Width { min: sq.mins@[dim], max: sq.maxs@[dim] },
        ),
    )
}

/// How far the code of a row lies above the least value of a dimension.
pub open spec fn code_height<F: Fn(BlockStep) -> u32>(
    f: F,
    value: spec_fn(u32) -> real,
    sq: ScalarQuantizer,
    blocks: BlockedCodes,
    row: int,
    dim: int,
) -> real {
    times(blocks.spec_code(sq.d as int, row, dim) as real, code_step(f, value, sq, dim))
}

/// The vector that the codes of a row stand for: in each dimension the offset,
/// the least value and the height of the code.
pub open spec fn rebuilt<F: Fn(BlockStep) -> u32>(
    f: F,
    value: spec_fn(u32) -> real,
    sq: ScalarQuantizer,
    offset: Seq<u32>,
    blocks: BlockedCodes,
    row: int,
) -> Seq<real> {
    Seq::new(
        sq.d as nat,
        |dim: int|
            value(offset[dim]) + value(sq.mins@[dim]) + code_height(f, value, sq, blocks, row, dim),
    )
}

/// The codes of a row can be read in a dimension without rounding.
pub open spec fn reads_exactly<F: Fn(BlockStep) -> u32>(
    f: F,
    value: spec_fn(u32) -> real,
    holds: spec_fn(real) -> bool,
    sq: ScalarQuantizer,
    query: Seq<u32>,
    offset: Seq<u32>,
    blocks: BlockedCodes,
    row: int,
    dim: int,
) -> bool {
    let (q, o, m) = (value(query[dim]), value(offset[dim]), value(sq.mins@[dim]));
    &&& holds(q)
    &&& holds(o)
    &&& holds(m)
    &&& holds(q - o)
    &&& holds(q - o - m)
    &&& holds(o + m)
    &&& holds(code_step(f, value, sq, dim))
    &&& holds(code_height(f, value, sq, blocks, row, dim))
}

/// A blocked scan sums up the squared distance of the query to the vector that
/// the codes of a row stand for, over every dimension.
pub proof fn law_blocked_squares_are_distances<F: Fn(BlockStep) -> u32>(
    f: F,
    value: spec_fn(u32) -> real,
    holds: spec_fn(real) -> bool,
    sq: ScalarQuantizer,
    query: Seq<u32>,
    offset: Seq<u32>,
    blocks: BlockedCodes,
    row: int,
)
    requires
        0 <= row < blocks.count,
        query.len() == sq.d,
        value(0u32) == 0real,
        is_exact_scan(f, value, holds),
        forall|dim: int|
            0 <= dim < sq.d ==> #[trigger] reads_exactly(
                f,
                value,
                holds,
                sq,
                query,
                offset,
                blocks,
                row,
                dim,
            ),
        distance_holds(holds, values(value, query), rebuilt(f, value, sq, offset, blocks, row)),
    ensures
        value(
            crate::sq_blocks::squared_upto(f, sq, query, offset, blocks, sq.d as int)[row],
        ) == distance(values(value, query), rebuilt(f, value, sq, offset, blocks, row)),
{
    let n = sq.d as nat;
    let x = values(value, query);
    let y = rebuilt(f, value, sq, offset, blocks, row);
    let gap = crate::exact::differences(x, y);
    let terms = crate::exact::products(gap, gap);
    let partial = Seq::new(
        n + 1,
        |k: int|
            value(
                crate::sq_blocks::squares_added(f, sq, query, offset, blocks, row, 0, k, 0),
            ),
    );
    assert forall|k: int|
        0 <= k < terms.len() && holds(partial[k]) && holds(partial[k] + terms[k]) implies partial[k
        + 1] == partial[k] + #[trigger] terms[k] by {
        assert(reads_exactly(f, value, holds, sq, query, offset, blocks, row, k));
        assert(holds(gap[k]) && holds(terms[k]));
        let bias = crate::sq_blocks::step_result(
            f,
            BlockStep::Bias { query: query[k], offset: offset[k], min: sq.mins@[k] },
        );
        let width = crate::sq_blocks::step_result(
            f,
            BlockStep::Width { min: sq.mins@[k], max: sq.maxs@[k] },
        );
        let sum = crate::sq_blocks::squares_added(f, sq, query, offset, blocks, row, 0, k, 0);
        let code = blocks.spec_code(sq.d as int, row, k);
        assert(value(bias) - times(code as real, value(width)) == gap[k]);
        assert(crate::sq_blocks::squares_added(f, sq, query, offset, blocks, row, 0, k + 1, 0)
            == crate::sq_blocks::step_result(f, BlockStep::Square { sum, bias, code, width }));
    }
    assert(crate::exact::grows_by(holds, partial, terms));
    crate::exact::lemma_partial_sums(holds, partial, terms, n);
}

/// Sums of products of a blocked scan are inner products.
proof fn lemma_blocked_product<F: Fn(BlockStep) -> u32>(
    f: F,
    value: spec_fn(u32) -> real,
    holds: spec_fn(real) -> bool,
    a: Seq<u32>,
    b: Seq<u32>,
)
    requires
        a.len() == b.len(),
        value(0u32) == 0real,
        is_exact_scan(f, value, holds),
        dot_holds(holds, values(value, a), values(value, b)),
    ensures
        value(crate::sq_blocks::product(f, a, b, a.len())) == dot(
            values(value, a),
            values(value, b),
        ),
        holds(value(crate::sq_blocks::product(f, a, b, a.len()))),
{
    let n = a.len();
    let x = values(value, a);
    let y = values(value, b);
    let terms = crate::exact::products(x, y);
    let partial = Seq::new(n + 1, |k: int| value(crate::sq_blocks::product(f, a, b, k as nat)));
    assert forall|k: int|
        0 <= k < terms.len() && holds(partial[k]) && holds(partial[k] + terms[k]) implies partial[k
        + 1] == partial[k] + #[trigger] terms[k] by {
        assert(holds(x[k]) && holds(y[k]) && holds(terms[k]));
        assert(crate::sq_blocks::product(f, a, b, (k + 1) as nat) == crate::sq_blocks::step_result(
            f,
            BlockStep::Product {
                sum: crate::sq_blocks::product(f, a, b, k as nat),
                a: a[k],
                b: b[k],
            },
        ));
    }
    assert(crate::exact::grows_by(holds, partial, terms));
    crate::exact::lemma_partial_sums(holds, partial, terms, n);
}

/// A blocked scan measures by the negated inner product, or by one less the
/// cosine, with the vector that the codes of a row stand for.
pub proof fn law_blocked_products_are_measured<F: Fn(BlockStep) -> u32>(
    f: F,
    value: spec_fn(u32) -> real,
    holds: spec_fn(real) -> bool,
    sq: ScalarQuantizer,
    query: Seq<u32>,
    offset: Seq<u32>,
    blocks: BlockedCodes,
    metric: MetricType,
    row: int,
    query_length: real,
    length: real,
    cosine: real,
)
    requires
        0 <= row < blocks.count,
        query.len() == sq.d,
        metric != MetricType::L2,
        value(0u32) == 0real,
        is_exact_scan(f, value, holds),
        forall|dim: int|
            0 <= dim < sq.d ==> #[trigger] reads_exactly(
                f,
                value,
                holds,
                sq,
                query,
                offset,
                blocks,
                row,
                dim,
            ),
        ({
            let q = values(value, query);
            let v = rebuilt(f, value, sq, offset, blocks, row);
            &&& dot_holds(holds, q, v)
            &&& metric == MetricType::Cosine ==> {
                &&& dot_holds(holds, q, q)
                &&& dot_holds(holds, v, v)
                &&& query_length > 0real
                &&& times(query_length, query_length) == dot(q, q)
                &&& length > 0real
                &&& times(length, length) == dot(v, v)
                &&& holds(query_length)
                &&& holds(length)
                &&& holds(times(query_length, length))
                &&& holds(cosine)
                &&& holds(1real - cosine)
                &&& times(cosine, times(query_length, length)) == dot(q, v)
            }
        }),
    ensures
        value(
            crate::sq_blocks::product_distance(f, sq, query, offset, blocks, metric, row),
        ) == (if metric == MetricType::Cosine {
            1real - cosine
        } else {
            -dot(values(value, query), rebuilt(f, value, sq, offset, blocks, row))
        }),
{
    let d = sq.d as nat;
    let row_values = crate::sq_blocks::decoded_row(f, sq, offset, blocks, row);
    let v = rebuilt(f, value, sq, offset, blocks, row);
    assert forall|k: int| 0 <= k < d implies value(row_values[k]) == v[k] by {
        assert(reads_exactly(f, value, holds, sq, query, offset, blocks, row, k));
        assert(holds(v[k]));
        let base = crate::sq_blocks::step_result(
            f,
            BlockStep::Base { offset: offset[k], min: sq.mins@[k] },
        );
        let width = crate::sq_blocks::step_result(
            f,
            BlockStep::Width { min: sq.mins@[k], max: sq.maxs@[k] },
        );
        let code = blocks.spec_code(sq.d as int, row, k);
        assert(row_values[k] == crate::sq_blocks::step_result(
            f,
            BlockStep::Decode { base, code, width },
        ));
    }
    assert(values(value, row_values) =~= v);
    lemma_blocked_product(f, value, holds, query, row_values);
    if metric == MetricType::Cosine {
        lemma_blocked_product(f, value, holds, query, query);
        lemma_blocked_product(f, value, holds, row_values, row_values);
        let along = crate::sq_blocks::product(f, query, row_values, d);
        let norm = crate::sq_blocks::product(f, row_values, row_values, d);
        let squared = crate::sq_blocks::product(f, query, query, d);
        let root = crate::sq_blocks::step_result(f, BlockStep::Root { value: squared });
        assert(times(query_length, query_length) == value(squared));
        assert(value(root) == query_length);
        assert(times(length, length) == value(norm));
        assert(times(cosine, times(value(root), length)) == value(along));
        assert(crate::sq_blocks::product_distance(f, sq, query, offset, blocks, metric, row)
            == crate::sq_blocks::step_result(
            f,
            BlockStep::Cosine { product: along, norm, query_norm: root },
        ));
    }
}

/// A code lies as far into its range as it is of all codes, where nothing has to
/// be rounded.
pub open spec fn places<P: Fn(u8, u32, u32) -> u32>(
    place: P,
    value: spec_fn(u32) -> real,
    holds: spec_fn(real) -> bool,
) -> bool {
    forall|code: u8, min: u32, max: u32, part: real, x: u32|
        {
            let width = value(max) - value(min);
            holds(value(min)) && holds(value(max)) && holds(width) && holds(
                times(code as real, width),
            ) && holds(part) && holds(value(min) + part) && #[trigger] times(255real, part)
                == times(code as real, width) && #[trigger] call_ensures(
                place,
                (code, min, max),
                x,
            ) ==> value(x) == value(min) + part
        }
}

/// The value of a code in a dimension lies in the range of that dimension, by as
/// much as the code is of all codes.
pub proof fn law_codes_stand_for_values<P: Fn(u8, u32, u32) -> u32>(
    place: P,
    value: spec_fn(u32) -> real,
    holds: spec_fn(real) -> bool,
    sq: ScalarQuantizer,
    code: u8,
    dim: int,
    x: u32,
    part: real,
)
    requires
        sq.well_formed(),
        0 <= dim < sq.d,
        places(place, value, holds),
        sq.decodes(place, code, dim, x),
        ({
            let (low, high) = (value(sq.mins@[dim]), value(sq.maxs@[dim]));
            &&& holds(low)
            &&& holds(high)
            &&& holds(high - low)
            &&& holds(times(code as real, high - low))
            &&& holds(part)
            &&& holds(low + part)
            &&& times(255real, part) == times(code as real, high - low)
        }),
    ensures
        if crate::sq::at_least(sq.mins@[dim], sq.maxs@[dim]) {
            x == sq.mins@[dim]
        } else {
            value(x) == value(sq.mins@[dim]) + part
        },
{
}

/// The distance of a row of a list is that of the query to the centroid of the
/// list moved by the values of the row's code: squared, or the negated inner
/// product.
pub proof fn law_rows_are_measured_from_their_centroid<
    P: Fn(u8, u32, u32) -> u32,
    A: Fn(u32, u32) -> u32,
    D: Fn(u32, u32, u32) -> u32,
    M: Fn(u32, u32, u32) -> u32,
    N: Fn(u32) -> u32,
    R: Fn(u32) -> u32,
    C: Fn(u32, u32, u32) -> u32,
>(
    place: P,
    kernel: DistanceKernel<A, D, M, N, R, C>,
    value: spec_fn(u32) -> real,
    holds: spec_fn(real) -> bool,
    index: IVFSQIndex,
    query: Seq<u32>,
    list: int,
    row: int,
    decoded: Seq<u32>,
    centroid: Seq<u32>,
)
    requires
        crate::ivfsq_codes::is_searchable(index),
        0 <= list < index.nlist,
        0 <= row < index.ids@[list]@.len(),
        query.len() == index.d,
        decoded == crate::ivfsq_codes::decoded(
            place,
            crate::ivfsq_codes::quantizer_of(index, list),
            crate::ivfsq_codes::code_of(index, list, row),
        ),
        decoded.len() == index.d,
        centroid.len() == index.d,
        forall|dim: int|
            0 <= dim < index.d ==> #[trigger] centroid[dim] == index.quantizer_centroids@[list
                * index.d + dim],
        value(0u32) == 0real,
        crate::table_values::adds(kernel.add, value, holds),
        adds_squares(kernel.squared_step, value, value, holds),
        adds_products(kernel.product_step, value, value, holds),
        negates(kernel.negate, value, holds),
        ({
            let v = crate::exact::sums(values(value, decoded), values(value, centroid));
            &&& crate::exact::all_hold(holds, values(value, decoded))
            &&& crate::exact::all_hold(holds, values(value, centroid))
            &&& crate::exact::all_hold(holds, v)
            &&& distance_holds(holds, values(value, query), v)
            &&& dot_holds(holds, values(value, query), v)
        }),
    ensures
        ({
            let v = crate::exact::sums(values(value, decoded), values(value, centroid));
            let found = value(
                crate::ivfsq_codes::coded_distance(place, kernel, index, query, list, row),
            );
            &&& index.metric == MetricType::L2 ==> found == distance(values(value, query), v)
            &&& index.metric == MetricType::InnerProduct ==> found == -dot(
                values(value, query),
                v,
            )
        }),
{
    let d = index.d as int;
    assert((list + 1) * d == list * d + d && 0 <= list * d && (list + 1) * d <= index.nlist * d)
        by (nonlinear_arith)
        requires
            0 <= list < index.nlist,
            0 <= d,
    ;
    assert(index.quantizer_centroids@.subrange(list * d, (list + 1) * d) =~= centroid);
    let moved = crate::sq_distance::moved_values(kernel.add, decoded, Some(centroid));
    law_moved_values_are_sums(kernel.add, value, holds, decoded, centroid);
    let norm = crate::sq_distance::query_norm_of(
        kernel.product_step,
        kernel.root,
        index.metric,
        query,
    );
    law_distances_are_measured(kernel, value, holds, index.metric, norm, query, moved);
}

} // verus!
