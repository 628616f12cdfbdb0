//! Distances of queries to scalar-quantized codes.
use crate::distance::MetricType;
use crate::float_ops::{apply, operate};
use crate::sq::{ScalarQuantizer, ScalarQuantizerDecodeLut};
use vstd::prelude::*;

verus! {

/// What a distance needs of the query beside its components.
#[derive(Debug, Clone, Copy)]
pub struct DistanceContext {
    metric: MetricType,
    query_norm: u32,
}

/// The arithmetic of distances: adding, one step of a squared distance, one
/// step of an inner product, negation, the square root, and the cosine
/// distance from a product, a squared norm and the norm of the query.
pub struct DistanceKernel<A, D, M, N, R, C> {
    pub add: A,
    pub squared_step: D,
    pub product_step: M,
    pub negate: N,
    pub root: R,
    pub cosine: C,
}

pub open spec fn is_distance_kernel<
    A: Fn(u32, u32) -> u32,
    D: Fn(u32, u32, u32) -> u32,
    M: Fn(u32, u32, u32) -> u32,
    N: Fn(u32) -> u32,
    R: Fn(u32) -> u32,
    C: Fn(u32, u32, u32) -> u32,
>(kernel: DistanceKernel<A, D, M, N, R, C>) -> bool {
    &&& crate::float_ops::is_operation(kernel.add)
    &&& crate::pq_tables::is_step(kernel.squared_step)
    &&& crate::pq_tables::is_step(kernel.product_step)
    &&& crate::float_ops::is_map(kernel.negate)
    &&& crate::float_ops::is_map(kernel.root)
    &&& crate::pq_tables::is_step(kernel.cosine)
}

/// The distance of a query to values.
pub open spec fn distance_to_values<
    A: Fn(u32, u32) -> u32,
    D: Fn(u32, u32, u32) -> u32,
    M: Fn(u32, u32, u32) -> u32,
    N: Fn(u32) -> u32,
    R: Fn(u32) -> u32,
    C: Fn(u32, u32, u32) -> u32,
>(
    kernel: DistanceKernel<A, D, M, N, R, C>,
    metric: MetricType,
    query_norm: u32,
    query: Seq<u32>,
    values: Seq<u32>,
) -> u32 {
    let d = values.len();
    let product = crate::pq_tables::accumulated(kernel.product_step, 0u32, query, 0, values, 0, d);
    match metric {
        MetricType::L2 => crate::pq_tables::accumulated(
            kernel.squared_step,
            0u32,
            query,
            0,
            values,
            0,
            d,
        ),
        MetricType::InnerProduct => crate::float_ops::image_of(kernel.negate, product),
        MetricType::Cosine => crate::pq_tables::stepped(
            kernel.cosine,
            product,
            crate::pq_tables::accumulated(kernel.product_step, 0u32, values, 0, values, 0, d),
            query_norm,
        ),
    }
}

/// The norm of a query, zero where the metric needs none.
pub open spec fn query_norm_of<M: Fn(u32, u32, u32) -> u32, R: Fn(u32) -> u32>(
    product_step: M,
    root: R,
    metric: MetricType,
    query: Seq<u32>,
) -> u32 {
    if metric == MetricType::Cosine {
        crate::float_ops::image_of(
            root,
            crate::pq_tables::accumulated(product_step, 0u32, query, 0, query, 0, query.len()),
        )
    } else {
        0u32
    }
}

impl DistanceContext {
    pub closed spec fn spec_metric(self) -> MetricType {
        self.metric
    }

    /// The norm of the query, zero where the metric needs none.
    pub closed spec fn spec_norm(self) -> u32 {
        self.query_norm
    }

    pub fn new<M: Fn(u32, u32, u32) -> u32, R: Fn(u32) -> u32>(
        query: &[u32],
        metric: MetricType,
        product_step: &M,
        root: &R,
    ) -> (context: Self)
        requires
            crate::pq_tables::is_step(*product_step),
            crate::float_ops::is_map(*root),
        ensures
            context.spec_metric() == metric,
            context.spec_norm() == query_norm_of(*product_step, *root, metric, query@),
    {
        let query_norm: u32 = match metric {
            MetricType::Cosine => {
                let norm: u32 = crate::pq_tables::accumulate(
                    product_step,
                    0u32,
                    query,
                    0,
                    query,
                    0,
                    query.len(),
                );
                apply(root, norm)
            },
            _ => 0,
        };
        Self { metric, query_norm }
    }

    /// The distance of a query to values.
    fn measure<
        A: Fn(u32, u32) -> u32,
        D: Fn(u32, u32, u32) -> u32,
        M: Fn(u32, u32, u32) -> u32,
        N: Fn(u32) -> u32,
        R: Fn(u32) -> u32,
        C: Fn(u32, u32, u32) -> u32,
    >(
        &self,
        query: &[u32],
        values: &[u32],
        kernel: &DistanceKernel<A, D, M, N, R, C>,
    ) -> (distance: u32)
        requires
            is_distance_kernel(*kernel),
            values@.len() <= query@.len(),
        ensures
            distance == distance_to_values(
                *kernel,
                self.spec_metric(),
                self.spec_norm(),
                query@,
                values@,
            ),
    {
        let d: usize = values.len();
        match self.metric {
            MetricType::L2 => crate::pq_tables::accumulate(
                &kernel.squared_step,
                0u32,
                query,
                0,
                values,
                0,
                d,
            ),
            MetricType::InnerProduct => {
                let product: u32 = crate::pq_tables::accumulate(
                    &kernel.product_step,
                    0u32,
                    query,
                    0,
                    values,
                    0,
                    d,
                );
                apply(&kernel.negate, product)
            },
            MetricType::Cosine => {
                let product: u32 = crate::pq_tables::accumulate(
                    &kernel.product_step,
                    0u32,
                    query,
                    0,
                    values,
                    0,
                    d,
                );
                let norm: u32 = crate::pq_tables::accumulate(
                    &kernel.product_step,
                    0u32,
                    values,
                    0,
                    values,
                    0,
                    d,
                );
                let distance: u32 = (kernel.cosine)(product, norm, self.query_norm);
                assert(call_ensures(kernel.cosine, (product, norm, self.query_norm), distance));
                distance
            },
        }
    }
}

/// `values` moved by `offset`.
fn moved<A: Fn(u32, u32) -> u32>(values: Vec<u32>, offset: &[u32], add: &A) -> (sums: Vec<u32>)
    requires
        crate::float_ops::is_operation(*add),
        values@.len() <= offset@.len(),
    ensures
        sums@ == moved_values(*add, values@, Some(offset@)),
{
    let mut sums: Vec<u32> = Vec::new();
    let mut i: usize = 0;
    while i < values.len()
        invariant
            crate::float_ops::is_operation(*add),
            values@.len() <= offset@.len(),
            i <= values@.len(),
            sums@ == moved_values(*add, values@, Some(offset@)).take(i as int),
        decreases values@.len() - i,
    {
        sums.push(operate(add, values[i], offset[i]));
        i = i + 1;
        assert(sums@ =~= moved_values(*add, values@, Some(offset@)).take(i as int));
    }
    assert(sums@ =~= moved_values(*add, values@, Some(offset@)));
    sums
}

/// Values, moved by an offset where there is one.
pub open spec fn moved_values<A: Fn(u32, u32) -> u32>(
    add: A,
    values: Seq<u32>,
    offset: Option<Seq<u32>>,
) -> Seq<u32> {
    match offset {
        Some(offset) => Seq::new(
            values.len(),
            |i: int| crate::float_ops::result_of(add, values[i], offset[i]),
        ),
        None => values,
    }
}

/// The offset that a distance moves decoded values by.
pub open spec fn offset_view(offset: Option<&[u32]>) -> Option<Seq<u32>> {
    match offset {
        Some(offset) => Some(offset@),
        None => None,
    }
}

impl ScalarQuantizer {
    /// The values of a code.
    pub open spec fn is_decoded<P: Fn(u8, u32, u32) -> u32>(
        self,
        place: P,
        code: Seq<u8>,
        values: Seq<u32>,
    ) -> bool {
        &&& values.len() == self.d
        &&& forall|dim: int|
            0 <= dim < self.d ==> self.decodes(place, code[dim], dim, #[trigger] values[dim])
    }

    /// What distances to codes need of a query.
    pub fn distance_context<M: Fn(u32, u32, u32) -> u32, R: Fn(u32) -> u32>(
        &self,
        query: &[u32],
        metric: MetricType,
        product_step: &M,
        root: &R,
    ) -> (context: DistanceContext)
        requires
            self.d <= query@.len(),
            crate::pq_tables::is_step(*product_step),
            crate::float_ops::is_map(*root),
        ensures
            context.spec_metric() == metric,
            context.spec_norm() == query_norm_of(
                *product_step,
                *root,
                metric,
                query@.take(self.d as int),
            ),
    {
        let own = vstd::slice::slice_subrange(query, 0, self.d);
        assert(own@ =~= query@.take(self.d as int));
        DistanceContext::new(own, metric, product_step, root)
    }

    /// The distance of a query to a code whose values are moved by `offset`.
    pub fn distance_to_code_with_offset_with_context<
        P: Fn(u8, u32, u32) -> u32,
        A: Fn(u32, u32) -> u32,
        D: Fn(u32, u32, u32) -> u32,
        M: Fn(u32, u32, u32) -> u32,
        N: Fn(u32) -> u32,
        R: Fn(u32) -> u32,
        C: Fn(u32, u32, u32) -> u32,
    >(
        &self,
        query: &[u32],
        code: &[u8],
        offset: Option<&[u32]>,
        context: DistanceContext,
        place: &P,
        kernel: &DistanceKernel<A, D, M, N, R, C>,
    ) -> (distance: u32)
        requires
            self.well_formed(),
            self.d <= query@.len(),
            self.d <= code@.len(),
            offset matches Some(offset) ==> self.d <= offset@.len(),
            forall|code: u8, min: u32, max: u32| #[trigger] call_requires(place, (code, min, max)),
            is_distance_kernel(*kernel),
        ensures
            exists|values: Seq<u32>| #[trigger]
                self.is_decoded(*place, code@, values) && distance == distance_to_values(
                    *kernel,
                    context.spec_metric(),
                    context.spec_norm(),
                    query@,
                    moved_values(kernel.add, values, offset_view(offset)),
                ),
    {
        let values: Vec<u32> = self.decode(code, place);
        assert(self.is_decoded(*place, code@, values@));
        match offset {
            Some(offset) => {
                let sums = moved(values, offset, &kernel.add);
                context.measure(query, sums.as_slice(), kernel)
            },
            None => context.measure(query, values.as_slice(), kernel),
        }
    }

    /// The distance of a query to a code.
    pub fn distance_to_code_with_context<
        P: Fn(u8, u32, u32) -> u32,
        A: Fn(u32, u32) -> u32,
        D: Fn(u32, u32, u32) -> u32,
        M: Fn(u32, u32, u32) -> u32,
        N: Fn(u32) -> u32,
        R: Fn(u32) -> u32,
        C: Fn(u32, u32, u32) -> u32,
    >(
        &self,
        query: &[u32],
        code: &[u8],
        context: DistanceContext,
        place: &P,
        kernel: &DistanceKernel<A, D, M, N, R, C>,
    ) -> (distance: u32)
        requires
            self.well_formed(),
            self.d <= query@.len(),
            self.d <= code@.len(),
            forall|code: u8, min: u32, max: u32| #[trigger] call_requires(place, (code, min, max)),
            is_distance_kernel(*kernel),
        ensures
            exists|values: Seq<u32>| #[trigger]
                self.is_decoded(*place, code@, values) && distance == distance_to_values(
                    *kernel,
                    context.spec_metric(),
                    context.spec_norm(),
                    query@,
                    values,
                ),
    {
        self.distance_to_code_with_offset_with_context(query, code, None, context, place, kernel)
    }

    /// The distance of a query to a code under a metric.
    pub fn distance_to_code<
        P: Fn(u8, u32, u32) -> u32,
        A: Fn(u32, u32) -> u32,
        D: Fn(u32, u32, u32) -> u32,
        M: Fn(u32, u32, u32) -> u32,
        N: Fn(u32) -> u32,
        R: Fn(u32) -> u32,
        C: Fn(u32, u32, u32) -> u32,
    >(
        &self,
        query: &[u32],
        code: &[u8],
        metric: MetricType,
        place: &P,
        kernel: &DistanceKernel<A, D, M, N, R, C>,
    ) -> (distance: u32)
        requires
            self.well_formed(),
            self.d <= query@.len(),
            self.d <= code@.len(),
            forall|code: u8, min: u32, max: u32| #[trigger] call_requires(place, (code, min, max)),
            is_distance_kernel(*kernel),
        ensures
            exists|values: Seq<u32>| #[trigger]
                self.is_decoded(*place, code@, values) && distance == distance_to_values(
                    *kernel,
                    metric,
                    query_norm_of(
                        kernel.product_step,
                        kernel.root,
                        metric,
                        query@.take(self.d as int),
                    ),
                    query@,
                    values,
                ),
    {
        let context = self.distance_context(query, metric, &kernel.product_step, &kernel.root);
        self.distance_to_code_with_context(query, code, context, place, kernel)
    }

    /// The distance of a query to a code whose values are looked up and moved
    /// by `offset`.
    pub fn distance_to_code_with_lut_offset_with_context<
        A: Fn(u32, u32) -> u32,
        D: Fn(u32, u32, u32) -> u32,
        M: Fn(u32, u32, u32) -> u32,
        N: Fn(u32) -> u32,
        R: Fn(u32) -> u32,
        C: Fn(u32, u32, u32) -> u32,
    >(
        &self,
        query: &[u32],
        code: &[u8],
        offset: Option<&[u32]>,
        lut: &ScalarQuantizerDecodeLut,
        context: DistanceContext,
        kernel: &DistanceKernel<A, D, M, N, R, C>,
    ) -> (distance: u32)
        requires
            lut.well_formed(),
            lut.spec_dimension() == self.d,
            self.d <= query@.len(),
            self.d <= code@.len(),
            offset matches Some(offset) ==> self.d <= offset@.len(),
            is_distance_kernel(*kernel),
        ensures
            distance == distance_to_values(
                *kernel,
                context.spec_metric(),
                context.spec_norm(),
                query@,
                moved_values(
                    kernel.add,
                    Seq::new(self.d as nat, |dim: int| lut.spec_value(code@[dim], dim)),
                    offset_view(offset),
                ),
            ),
    {
        let ghost expected = Seq::new(self.d as nat, |dim: int| lut.spec_value(code@[dim], dim));
        let mut values: Vec<u32> = Vec::new();
        let mut dim: usize = 0;
        while dim < self.d
            invariant
                lut.well_formed(),
                lut.spec_dimension() == self.d,
                self.d <= code@.len(),
                dim <= self.d,
                expected == Seq::new(self.d as nat, |dim: int| lut.spec_value(code@[dim], dim)),
                values@ == expected.take(dim as int),
            decreases self.d - dim,
        {
            values.push(lut.decode_value(code[dim], dim));
            dim = dim + 1;
            assert(values@ =~= expected.take(dim as int));
        }
        assert(values@ =~= expected);
        match offset {
            Some(offset) => {
                let sums = moved(values, offset, &kernel.add);
                context.measure(query, sums.as_slice(), kernel)
            },
            None => context.measure(query, values.as_slice(), kernel),
        }
    }

    /// The distance of a query to a code whose values are looked up.
    pub fn distance_to_code_with_lut_with_context<
        A: Fn(u32, u32) -> u32,
        D: Fn(u32, u32, u32) -> u32,
        M: Fn(u32, u32, u32) -> u32,
        N: Fn(u32) -> u32,
        R: Fn(u32) -> u32,
        C: Fn(u32, u32, u32) -> u32,
    >(
        &self,
        query: &[u32],
        code: &[u8],
        lut: &ScalarQuantizerDecodeLut,
        context: DistanceContext,
        kernel: &DistanceKernel<A, D, M, N, R, C>,
    ) -> (distance: u32)
        requires
            lut.well_formed(),
            lut.spec_dimension() == self.d,
            self.d <= query@.len(),
            self.d <= code@.len(),
            is_distance_kernel(*kernel),
        ensures
            distance == distance_to_values(
                *kernel,
                context.spec_metric(),
                context.spec_norm(),
                query@,
                Seq::new(self.d as nat, |dim: int| lut.spec_value(code@[dim], dim)),
            ),
    {
        self.distance_to_code_with_lut_offset_with_context(
            query,
            code,
            None,
            lut,
            context,
            kernel,
        )
    }

    /// Looking values up gives what decoding gives, so both ways measure the
    /// same distances.
    pub proof fn law_looking_up_is_decoding<P: Fn(u8, u32, u32) -> u32>(
        self,
        place: P,
        lut: ScalarQuantizerDecodeLut,
        code: Seq<u8>,
        values: Seq<u32>,
    )
        requires
            forall|code: u8, min: u32, max: u32, x: u32, y: u32| #[trigger]
                call_ensures(place, (code, min, max), x) && #[trigger] call_ensures(
                    place,
                    (code, min, max),
                    y,
                ) ==> x == y,
            forall|dim: int, code: u8|
                0 <= dim < self.d ==> self.decodes(place, code, dim, #[trigger] lut.spec_value(code, dim)),
            self.is_decoded(place, code, values),
        ensures
            Seq::new(self.d as nat, |dim: int| lut.spec_value(code[dim], dim)) == values,
    {
        let looked_up = Seq::new(self.d as nat, |dim: int| lut.spec_value(code[dim], dim));
        assert forall|dim: int| 0 <= dim < self.d implies looked_up[dim] == values[dim] by {
            assert(self.decodes(place, code[dim], dim, lut.spec_value(code[dim], dim)));
            assert(self.decodes(place, code[dim], dim, values[dim]));
        }
        assert(looked_up =~= values);
    }
}

} // verus!
