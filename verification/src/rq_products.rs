//! Inner products of a query with codes, from tables of subset sums, and the
//! distances that they stand for.
use crate::rq::{RQCodeFactors, RQVectorFactors, RaBitQuantizer};
use crate::rq_query::RQQueryContext;
use vstd::prelude::*;

verus! {

/// What the distances of a query to the rows of one list have in common.
#[derive(Debug, Clone, Copy, PartialEq, Eq, Structural)]
pub struct RQQueryTerms {
    pub g_add: u32,
    pub g_error: u32,
}

/// One step of the arithmetic of distances.
#[derive(Debug, Clone, Copy, PartialEq, Eq, Structural)]
pub enum RowStep {
    /// The sum of two numbers.
    Add { a: u32, b: u32 },
    /// A sum of one-byte entries, moved to the scale of the query.
    Place { offset: u32, scale: u32, sum: u32 },
    /// A multiple of a number.
    Scale { weight: usize, value: u32 },
    /// A sum to which a multiple of a number is added.
    Weigh { total: u32, weight: usize, value: u32 },
    /// A product moved to levels around zero; `levels` is the greatest level.
    Center { total: u32, levels: usize, query_sum: u32 },
    /// The distance that a product stands for.
    Estimate { product: u32, f_add: u32, f_rescale: u32, g_add: u32 },
    /// What an estimate is at least.
    Lower { estimate: u32, f_error: u32, g_error: u32 },
    /// A bound lowered by the error of a product of one-byte entries.
    Loosen { bound: u32, rescale: u32, weight: usize, error: u32 },
}

/// Every step has one result.
pub open spec fn is_arithmetic<F: Fn(RowStep) -> u32>(f: F) -> bool {
    &&& forall|step: RowStep| #[trigger] call_requires(f, (step,))
    &&& forall|step: RowStep, x: u32, y: u32| #[trigger]
        call_ensures(f, (step,), x) && #[trigger] call_ensures(f, (step,), y) ==> x == y
}

/// The result of a step.
pub open spec fn step_result<F: Fn(RowStep) -> u32>(f: F, step: RowStep) -> u32 {
    choose|x: u32| call_ensures(f, (step,), x)
}

pub(crate) fn take_step<F: Fn(RowStep) -> u32>(f: &F, step: RowStep) -> (x: u32)
    requires
        is_arithmetic(*f),
    ensures
        x == step_result(*f, step),
{
    let x: u32 = f(step);
    assert(call_ensures(*f, (step,), x));
    x
}

/// The distance that a product stands for.
pub open spec fn estimated<F: Fn(RowStep) -> u32>(
    f: F,
    product: u32,
    factors: RQCodeFactors,
    terms: RQQueryTerms,
) -> u32 {
    step_result(
        f,
        RowStep::Estimate {
            product,
            f_add: factors.f_add,
            f_rescale: factors.f_rescale,
            g_add: terms.g_add,
        },
    )
}

/// What an estimated distance is at least.
pub open spec fn lowered<F: Fn(RowStep) -> u32>(
    f: F,
    estimate: u32,
    factors: RQCodeFactors,
    terms: RQQueryTerms,
) -> u32 {
    step_result(
        f,
        RowStep::Lower { estimate, f_error: factors.f_error, g_error: terms.g_error },
    )
}

/// `2` to the power `e`.
pub open spec fn power_of_two(e: nat) -> nat
    decreases e,
{
    if e == 0 {
        1
    } else {
        2 * power_of_two((e - 1) as nat)
    }
}

/// `2` to the power `e`.
pub(crate) fn weight_of(e: usize) -> (weight: usize)
    requires
        e <= 8,
    ensures
        weight == power_of_two(e as nat),
        1 <= weight <= 256,
{
    let mut weight: usize = 1;
    let mut i: usize = 0;
    while i < e
        invariant
            i <= e <= 8,
            weight == power_of_two(i as nat),
            1 <= weight <= 256,
        decreases e - i,
    {
        assert(2 * power_of_two(i as nat) <= 256) by {
            reveal_with_fuel(power_of_two, 9);
        }
        weight = weight * 2;
        i = i + 1;
    }
    weight
}

/// The entries that the first `bytes` bytes of a plane name, summed in turn
/// from zero.
pub open spec fn plane_product<F: Fn(RowStep) -> u32>(
    f: F,
    sums: Seq<u32>,
    code: Seq<u8>,
    start: int,
    bytes: nat,
) -> u32
    decreases bytes,
{
    if bytes == 0 {
        0
    } else {
        let byte = bytes - 1;
        step_result(
            f,
            RowStep::Add {
                a: plane_product(f, sums, code, start, byte as nat),
                b: sums[byte * 256 + code[start + byte]],
            },
        )
    }
}

/// The weighted sums of the first `planes` planes of a code, the most
/// significant first; that one sums up to `coarse`.
pub open spec fn weighted_planes<F: Fn(RowStep) -> u32>(
    f: F,
    sums: Seq<u32>,
    code: Seq<u8>,
    bits: int,
    plane_size: int,
    coarse: u32,
    planes: nat,
) -> u32
    decreases planes,
{
    if planes == 0 {
        0
    } else {
        let plane = planes - 1;
        step_result(
            f,
            RowStep::Weigh {
                total: weighted_planes(f, sums, code, bits, plane_size, coarse, plane as nat),
                weight: power_of_two((bits - 1 - plane) as nat) as usize,
                value: if plane == 0 {
                    coarse
                } else {
                    plane_product(f, sums, code, plane * plane_size, plane_size as nat)
                },
            },
        )
    }
}

/// The product of a query with a first plane that sums up to `coarse`: its
/// bits stand for a half and a negative half.
pub open spec fn sign_product<F: Fn(RowStep) -> u32>(
    f: F,
    context: RQQueryContext,
    coarse: u32,
) -> u32 {
    step_result(f, RowStep::Center { total: coarse, levels: 1, query_sum: context.sum })
}

/// The product of a query with a code whose first plane sums up to `coarse`.
pub open spec fn code_product<F: Fn(RowStep) -> u32>(
    f: F,
    context: RQQueryContext,
    code: Seq<u8>,
    bits: int,
    plane_size: int,
    coarse: u32,
) -> u32 {
    step_result(
        f,
        RowStep::Center {
            total: weighted_planes(
                f,
                context.byte_subset_sums@,
                code,
                bits,
                plane_size,
                coarse,
                bits as nat,
            ),
            levels: (power_of_two(bits as nat) - 1) as usize,
            query_sum: context.sum,
        },
    )
}

/// The sum that a scan of a stored list runs up: a multiple of `coarse`, which
/// the first plane sums up to, and then for each of the first `bytes` bytes of
/// the other planes a multiple of the entry that it names.
pub open spec fn running_sum<F: Fn(RowStep) -> u32>(
    f: F,
    sums: Seq<u32>,
    code: Seq<u8>,
    bits: int,
    plane_size: int,
    coarse: u32,
    bytes: nat,
) -> u32
    decreases bytes,
{
    if bytes == 0 {
        step_result(
            f,
            RowStep::Scale { weight: power_of_two((bits - 1) as nat) as usize, value: coarse },
        )
    } else {
        let at = plane_size + bytes - 1;
        let plane = at / plane_size;
        let byte = at % plane_size;
        step_result(
            f,
            RowStep::Weigh {
                total: running_sum(f, sums, code, bits, plane_size, coarse, (bytes - 1) as nat),
                weight: power_of_two((bits - 1 - plane) as nat) as usize,
                value: sums[byte * 256 + code[at]],
            },
        )
    }
}

/// The product of a query with a stored code whose first plane sums up to
/// `coarse`.
pub open spec fn stored_product<F: Fn(RowStep) -> u32>(
    f: F,
    context: RQQueryContext,
    code: Seq<u8>,
    bits: int,
    plane_size: int,
    coarse: u32,
) -> u32 {
    step_result(
        f,
        RowStep::Center {
            total: running_sum(
                f,
                context.byte_subset_sums@,
                code,
                bits,
                plane_size,
                coarse,
                (plane_size * (bits - 1)) as nat,
            ),
            levels: (power_of_two(bits as nat) - 1) as usize,
            query_sum: context.sum,
        },
    )
}

/// The distance of a stored code whose first plane sums up to `coarse`. A code
/// of one bit has no other plane.
pub open spec fn stored_distance_with<F: Fn(RowStep) -> u32>(
    f: F,
    quantizer: RaBitQuantizer,
    context: RQQueryContext,
    code: Seq<u8>,
    factors: RQCodeFactors,
    terms: RQQueryTerms,
    coarse: u32,
) -> u32 {
    let product = if quantizer.spec_bits() == 1 {
        sign_product(f, context, coarse)
    } else {
        stored_product(
            f,
            context,
            code,
            quantizer.spec_bits() as int,
            quantizer.spec_plane_size() as int,
            coarse,
        )
    };
    estimated(f, product, factors, terms)
}

/// Multiples are added without rounding, so that it makes no difference whether
/// a sum or its terms are multiplied.
pub open spec fn weighs_exactly<F: Fn(RowStep) -> u32>(f: F) -> bool {
    &&& forall|weight: usize, value: u32| #[trigger]
        step_result(f, RowStep::Scale { weight, value }) == step_result(
            f,
            RowStep::Weigh { total: 0, weight, value },
        )
    &&& forall|total: u32, weight: usize| #[trigger]
        step_result(f, RowStep::Weigh { total, weight, value: 0 }) == total
    &&& forall|total: u32, weight: usize, a: u32, b: u32| #[trigger]
        step_result(
            f,
            RowStep::Weigh { total, weight, value: step_result(f, RowStep::Add { a, b }) },
        ) == step_result(
            f,
            RowStep::Weigh {
                total: step_result(f, RowStep::Weigh { total, weight, value: a }),
                weight,
                value: b,
            },
        )
}

proof fn lemma_running_sum_in_plane<F: Fn(RowStep) -> u32>(
    f: F,
    sums: Seq<u32>,
    code: Seq<u8>,
    bits: int,
    size: int,
    coarse: u32,
    plane: int,
    bytes: nat,
)
    requires
        weighs_exactly(f),
        size > 0,
        1 <= plane < bits,
        bytes <= size,
        running_sum(f, sums, code, bits, size, coarse, (size * (plane - 1)) as nat)
            == weighted_planes(f, sums, code, bits, size, coarse, plane as nat),
    ensures
        running_sum(f, sums, code, bits, size, coarse, (size * (plane - 1) + bytes) as nat)
            == step_result(
            f,
            RowStep::Weigh {
                total: weighted_planes(f, sums, code, bits, size, coarse, plane as nat),
                weight: power_of_two((bits - 1 - plane) as nat) as usize,
                value: plane_product(f, sums, code, plane * size, bytes),
            },
        ),
    decreases bytes,
{
    let total = weighted_planes(f, sums, code, bits, size, coarse, plane as nat);
    let weight = power_of_two((bits - 1 - plane) as nat) as usize;
    assert(0 <= size * (plane - 1) && size * (plane - 1) + size == plane * size)
        by (nonlinear_arith)
        requires
            size > 0,
            plane >= 1,
    ;
    if bytes == 0 {
        assert(step_result(f, RowStep::Weigh { total, weight, value: 0 }) == total);
    } else {
        let byte = bytes - 1;
        lemma_running_sum_in_plane(f, sums, code, bits, size, coarse, plane, byte as nat);
        let at = plane * size + byte;
        vstd::arithmetic::div_mod::lemma_fundamental_div_mod_converse(at, size, plane, byte);
        let a = plane_product(f, sums, code, plane * size, byte as nat);
        let b = sums[byte * 256 + code[at]];
        assert(step_result(
            f,
            RowStep::Weigh { total, weight, value: step_result(f, RowStep::Add { a, b }) },
        ) == step_result(
            f,
            RowStep::Weigh {
                total: step_result(f, RowStep::Weigh { total, weight, value: a }),
                weight,
                value: b,
            },
        ));
    }
}

proof fn lemma_running_sum_of_planes<F: Fn(RowStep) -> u32>(
    f: F,
    sums: Seq<u32>,
    code: Seq<u8>,
    bits: int,
    size: int,
    coarse: u32,
    planes: nat,
)
    requires
        weighs_exactly(f),
        size > 0,
        1 <= planes <= bits,
    ensures
        running_sum(f, sums, code, bits, size, coarse, (size * (planes - 1)) as nat)
            == weighted_planes(f, sums, code, bits, size, coarse, planes),
    decreases planes,
{
    let plane = planes - 1;
    if planes == 1 {
        assert(size * (planes - 1) == 0) by (nonlinear_arith)
            requires
                planes == 1,
        ;
        assert(weighted_planes(f, sums, code, bits, size, coarse, 0) == 0);
        assert(step_result(
            f,
            RowStep::Scale { weight: power_of_two((bits - 1) as nat) as usize, value: coarse },
        ) == step_result(
            f,
            RowStep::Weigh {
                total: 0,
                weight: power_of_two((bits - 1) as nat) as usize,
                value: coarse,
            },
        ));
    } else {
        lemma_running_sum_of_planes(f, sums, code, bits, size, coarse, plane as nat);
        lemma_running_sum_in_plane(f, sums, code, bits, size, coarse, plane, size as nat);
        assert(size * (plane - 1) + size == size * plane) by (nonlinear_arith);
    }
}

/// Where multiples are added without rounding, a stored code has the distance
/// that it has in memory.
pub proof fn law_stored_codes_are_as_far<F: Fn(RowStep) -> u32>(
    f: F,
    quantizer: RaBitQuantizer,
    context: RQQueryContext,
    code: Seq<u8>,
    factors: RQCodeFactors,
    terms: RQQueryTerms,
    coarse: u32,
)
    requires
        quantizer.well_formed(),
        weighs_exactly(f) || quantizer.spec_bits() == 1,
    ensures
        stored_distance_with(f, quantizer, context, code, factors, terms, coarse) == distance_with(
            f,
            quantizer,
            context,
            code,
            factors,
            terms,
            coarse,
        ),
{
    let bits = quantizer.spec_bits() as int;
    if bits > 1 {
        lemma_running_sum_of_planes(
            f,
            context.byte_subset_sums@,
            code,
            bits,
            quantizer.spec_plane_size() as int,
            coarse,
            bits as nat,
        );
    }
}

/// The sum of the first plane of a code.
pub open spec fn first_plane<F: Fn(RowStep) -> u32>(
    f: F,
    context: RQQueryContext,
    code: Seq<u8>,
    plane_size: int,
) -> u32 {
    plane_product(f, context.byte_subset_sums@, code, 0, plane_size as nat)
}

/// The distance of a code whose first plane sums up to `coarse`. A code of one
/// bit has no other plane.
pub open spec fn distance_with<F: Fn(RowStep) -> u32>(
    f: F,
    quantizer: RaBitQuantizer,
    context: RQQueryContext,
    code: Seq<u8>,
    factors: RQCodeFactors,
    terms: RQQueryTerms,
    coarse: u32,
) -> u32 {
    let product = if quantizer.spec_bits() == 1 {
        sign_product(f, context, coarse)
    } else {
        code_product(
            f,
            context,
            code,
            quantizer.spec_bits() as int,
            quantizer.spec_plane_size() as int,
            coarse,
        )
    };
    estimated(f, product, factors, terms)
}

/// The factors that the distance of a vector is computed with.
pub open spec fn used_factors(
    quantizer: RaBitQuantizer,
    factors: RQVectorFactors,
) -> RQCodeFactors {
    if quantizer.spec_bits() == 1 {
        factors.coarse
    } else {
        factors.full
    }
}

/// The distance of a code.
pub open spec fn code_distance<F: Fn(RowStep) -> u32>(
    f: F,
    quantizer: RaBitQuantizer,
    context: RQQueryContext,
    code: Seq<u8>,
    factors: RQVectorFactors,
    terms: RQQueryTerms,
) -> u32 {
    distance_with(
        f,
        quantizer,
        context,
        code,
        used_factors(quantizer, factors),
        terms,
        first_plane(f, context, code, quantizer.spec_plane_size() as int),
    )
}

/// What the distance of a code is at least, from its first plane alone.
pub open spec fn code_bound<F: Fn(RowStep) -> u32>(
    f: F,
    quantizer: RaBitQuantizer,
    context: RQQueryContext,
    code: Seq<u8>,
    factors: RQCodeFactors,
    terms: RQQueryTerms,
) -> u32 {
    let coarse = first_plane(f, context, code, quantizer.spec_plane_size() as int);
    let product = sign_product(f, context, coarse);
    lowered(f, estimated(f, product, factors, terms), factors, terms)
}

impl RaBitQuantizer {
    /// The sum of the query's components that the bits of a plane choose; the
    /// plane starts at byte `start` of the code.
    pub fn unsigned_plane_inner_product<F: Fn(RowStep) -> u32>(
        &self,
        context: &RQQueryContext,
        code: &[u8],
        start: usize,
        f: &F,
    ) -> (product: u32)
        requires
            is_arithmetic(*f),
            context.byte_subset_sums@.len() == self.spec_plane_size() * 256,
            start + self.spec_plane_size() <= code@.len(),
        ensures
            product == plane_product(
                *f,
                context.byte_subset_sums@,
                code@,
                start as int,
                self.spec_plane_size() as nat,
            ),
    {
        let size: usize = self.plane_size();
        let sums = &context.byte_subset_sums;
        let sums_len: usize = sums.len();
        let code_len: usize = code.len();
        let mut product: u32 = 0;
        let mut byte: usize = 0;
        while byte < size
            invariant
                is_arithmetic(*f),
                size == self.spec_plane_size(),
                sums@ == context.byte_subset_sums@,
                sums_len == sums@.len(),
                sums_len == size * 256,
                code_len == code@.len(),
                start + size <= code_len,
                byte <= size,
                product == plane_product(*f, sums@, code@, start as int, byte as nat),
            decreases size - byte,
        {
            let pattern: usize = code[start + byte] as usize;
            product = take_step(f, RowStep::Add { a: product, b: sums[byte * 256 + pattern] });
            byte = byte + 1;
        }
        product
    }

    /// The inner product of a query with the most significant plane of a
    /// code, whose bits stand for a half and a negative half.
    pub fn coarse_inner_product<F: Fn(RowStep) -> u32>(
        &self,
        context: &RQQueryContext,
        code: &[u8],
        f: &F,
    ) -> (product: u32)
        requires
            is_arithmetic(*f),
            context.byte_subset_sums@.len() == self.spec_plane_size() * 256,
            self.spec_plane_size() <= code@.len(),
        ensures
            product == sign_product(
                *f,
                *context,
                first_plane(*f, *context, code@, self.spec_plane_size() as int),
            ),
    {
        let total: u32 = self.unsigned_plane_inner_product(context, code, 0, f);
        take_step(f, RowStep::Center { total, levels: 1, query_sum: context.sum })
    }

    /// The inner product of a query with a code whose first plane sums up to
    /// `coarse`.
    pub(crate) fn product_from_coarse<F: Fn(RowStep) -> u32>(
        &self,
        context: &RQQueryContext,
        code: &[u8],
        coarse: u32,
        f: &F,
    ) -> (product: u32)
        requires
            self.well_formed(),
            is_arithmetic(*f),
            context.byte_subset_sums@.len() == self.spec_plane_size() * 256,
            self.spec_plane_size() * self.spec_bits() <= code@.len(),
        ensures
            product == code_product(
                *f,
                *context,
                code@,
                self.spec_bits() as int,
                self.spec_plane_size() as int,
                coarse,
            ),
    {
        let bits: usize = self.bits();
        let size: usize = self.plane_size();
        let code_len: usize = code.len();
        let mut total: u32 = 0;
        let mut plane: usize = 0;
        while plane < bits
            invariant
                self.well_formed(),
                is_arithmetic(*f),
                context.byte_subset_sums@.len() == self.spec_plane_size() * 256,
                bits == self.spec_bits(),
                size == self.spec_plane_size(),
                code_len == code@.len(),
                size * bits <= code_len,
                plane <= bits,
                total == weighted_planes(
                    *f,
                    context.byte_subset_sums@,
                    code@,
                    bits as int,
                    size as int,
                    coarse,
                    plane as nat,
                ),
            decreases bits - plane,
        {
            assert(0 <= plane * size && plane * size + size <= size * bits) by (nonlinear_arith)
                requires
                    plane < bits,
            ;
            let weight: usize = weight_of(bits - 1 - plane);
            let value: u32 = if plane == 0 {
                coarse
            } else {
                self.unsigned_plane_inner_product(context, code, plane * size, f)
            };
            total = take_step(f, RowStep::Weigh { total, weight, value });
            plane = plane + 1;
        }
        let levels: usize = weight_of(bits) - 1;
        take_step(f, RowStep::Center { total, levels, query_sum: context.sum })
    }

    /// The inner product of a query with all planes of a code.
    pub fn full_inner_product<F: Fn(RowStep) -> u32>(
        &self,
        context: &RQQueryContext,
        code: &[u8],
        f: &F,
    ) -> (product: u32)
        requires
            self.well_formed(),
            is_arithmetic(*f),
            context.byte_subset_sums@.len() == self.spec_plane_size() * 256,
            self.spec_plane_size() * self.spec_bits() <= code@.len(),
        ensures
            product == code_product(
                *f,
                *context,
                code@,
                self.spec_bits() as int,
                self.spec_plane_size() as int,
                first_plane(*f, *context, code@, self.spec_plane_size() as int),
            ),
    {
        proof {
            lemma_plane_within_code(*self);
        }
        let coarse: u32 = self.unsigned_plane_inner_product(context, code, 0, f);
        self.product_from_coarse(context, code, coarse, f)
    }

    /// The distance that the product of a query with a code stands for.
    pub fn estimate<F: Fn(RowStep) -> u32>(
        &self,
        inner_product: u32,
        factors: RQCodeFactors,
        query_terms: RQQueryTerms,
        f: &F,
    ) -> (distance: u32)
        requires
            is_arithmetic(*f),
        ensures
            distance == estimated(*f, inner_product, factors, query_terms),
    {
        take_step(
            f,
            RowStep::Estimate {
                product: inner_product,
                f_add: factors.f_add,
                f_rescale: factors.f_rescale,
                g_add: query_terms.g_add,
            },
        )
    }

    /// What an estimated distance is at least.
    pub fn lower_bound<F: Fn(RowStep) -> u32>(
        &self,
        estimate: u32,
        factors: RQCodeFactors,
        query_terms: RQQueryTerms,
        f: &F,
    ) -> (bound: u32)
        requires
            is_arithmetic(*f),
        ensures
            bound == lowered(*f, estimate, factors, query_terms),
    {
        take_step(
            f,
            RowStep::Lower { estimate, f_error: factors.f_error, g_error: query_terms.g_error },
        )
    }

    /// The distance of a code whose first plane sums up to `coarse`.
    pub(crate) fn distance_from_coarse<F: Fn(RowStep) -> u32>(
        &self,
        context: &RQQueryContext,
        code: &[u8],
        factors: RQCodeFactors,
        terms: RQQueryTerms,
        coarse: u32,
        f: &F,
    ) -> (distance: u32)
        requires
            self.well_formed(),
            is_arithmetic(*f),
            context.byte_subset_sums@.len() == self.spec_plane_size() * 256,
            self.spec_plane_size() * self.spec_bits() <= code@.len(),
        ensures
            distance == distance_with(*f, *self, *context, code@, factors, terms, coarse),
    {
        let product: u32 = if self.bits() == 1 {
            take_step(f, RowStep::Center { total: coarse, levels: 1, query_sum: context.sum })
        } else {
            self.product_from_coarse(context, code, coarse, f)
        };
        self.estimate(product, factors, terms, f)
    }

    /// The product of a query with a stored code whose first plane sums up to
    /// `coarse`, summed up byte by byte.
    fn stored_product_from_coarse<F: Fn(RowStep) -> u32>(
        &self,
        context: &RQQueryContext,
        code: &[u8],
        coarse: u32,
        f: &F,
    ) -> (product: u32)
        requires
            self.well_formed(),
            is_arithmetic(*f),
            context.byte_subset_sums@.len() == self.spec_plane_size() * 256,
            self.spec_plane_size() * self.spec_bits() <= code@.len(),
        ensures
            product == stored_product(
                *f,
                *context,
                code@,
                self.spec_bits() as int,
                self.spec_plane_size() as int,
                coarse,
            ),
    {
        proof {
            lemma_plane_within_code(*self);
        }
        let bits: usize = self.bits();
        let size: usize = self.plane_size();
        let code_len: usize = code.len();
        let sums = &context.byte_subset_sums;
        let sums_len: usize = sums.len();
        assert(0 <= size * bits) by (nonlinear_arith);
        let end: usize = size * bits;
        let mut total: u32 = take_step(
            f,
            RowStep::Scale { weight: weight_of(bits - 1), value: coarse },
        );
        let mut at: usize = size;
        while at < end
            invariant
                is_arithmetic(*f),
                1 <= bits <= 8,
                sums@ == context.byte_subset_sums@,
                sums_len == sums@.len(),
                sums_len == size * 256,
                code_len == code@.len(),
                end == size * bits,
                end <= code_len,
                size <= at <= end,
                total == running_sum(
                    *f,
                    sums@,
                    code@,
                    bits as int,
                    size as int,
                    coarse,
                    (at - size) as nat,
                ),
            decreases end - at,
        {
            assert(size > 0) by (nonlinear_arith)
                requires
                    size * bits > at,
                    at >= 0,
                    size >= 0,
            ;
            let plane: usize = at / size;
            let byte: usize = at % size;
            proof {
                assert(plane < bits) by (nonlinear_arith)
                    requires
                        plane == at / size,
                        at < size * bits,
                        size > 0,
                ;
            }
            let pattern: usize = code[at] as usize;
            total = take_step(
                f,
                RowStep::Weigh {
                    total,
                    weight: weight_of(bits - 1 - plane),
                    value: sums[byte * 256 + pattern],
                },
            );
            at = at + 1;
        }
        proof {
            assert(size * bits - size == size * (bits - 1)) by (nonlinear_arith);
        }
        let levels: usize = weight_of(bits) - 1;
        take_step(f, RowStep::Center { total, levels, query_sum: context.sum })
    }

    /// The distance of a stored code whose first plane sums up to `coarse`.
    pub(crate) fn stored_distance_from_coarse<F: Fn(RowStep) -> u32>(
        &self,
        context: &RQQueryContext,
        code: &[u8],
        factors: RQCodeFactors,
        terms: RQQueryTerms,
        coarse: u32,
        f: &F,
    ) -> (distance: u32)
        requires
            self.well_formed(),
            is_arithmetic(*f),
            context.byte_subset_sums@.len() == self.spec_plane_size() * 256,
            self.spec_plane_size() * self.spec_bits() <= code@.len(),
        ensures
            distance == stored_distance_with(*f, *self, *context, code@, factors, terms, coarse),
    {
        let product: u32 = if self.bits() == 1 {
            take_step(f, RowStep::Center { total: coarse, levels: 1, query_sum: context.sum })
        } else {
            self.stored_product_from_coarse(context, code, coarse, f)
        };
        self.estimate(product, factors, terms, f)
    }

    /// The distance of a code.
    pub fn code_distance<F: Fn(RowStep) -> u32>(
        &self,
        context: &RQQueryContext,
        code: &[u8],
        factors: RQVectorFactors,
        terms: RQQueryTerms,
        f: &F,
    ) -> (distance: u32)
        requires
            self.well_formed(),
            is_arithmetic(*f),
            context.byte_subset_sums@.len() == self.spec_plane_size() * 256,
            self.spec_plane_size() * self.spec_bits() <= code@.len(),
        ensures
            distance == code_distance(*f, *self, *context, code@, factors, terms),
    {
        proof {
            lemma_plane_within_code(*self);
        }
        let coarse: u32 = self.unsigned_plane_inner_product(context, code, 0, f);
        let used = if self.bits() == 1 {
            factors.coarse
        } else {
            factors.full
        };
        self.distance_from_coarse(context, code, used, terms, coarse, f)
    }

    /// What the distance of a code is at least, from its first plane alone.
    pub fn code_bound<F: Fn(RowStep) -> u32>(
        &self,
        context: &RQQueryContext,
        code: &[u8],
        factors: RQCodeFactors,
        terms: RQQueryTerms,
        f: &F,
    ) -> (bound: u32)
        requires
            self.well_formed(),
            is_arithmetic(*f),
            context.byte_subset_sums@.len() == self.spec_plane_size() * 256,
            self.spec_plane_size() <= code@.len(),
        ensures
            bound == code_bound(*f, *self, *context, code@, factors, terms),
    {
        let product: u32 = self.coarse_inner_product(context, code, f);
        let estimate: u32 = self.estimate(product, factors, terms, f);
        self.lower_bound(estimate, factors, terms, f)
    }
}

/// A plane is no longer than a code.
pub(crate) proof fn lemma_plane_within_code(quantizer: RaBitQuantizer)
    requires
        quantizer.well_formed(),
    ensures
        quantizer.spec_plane_size() <= quantizer.spec_plane_size() * quantizer.spec_bits(),
{
    let size = quantizer.spec_plane_size() as int;
    let bits = quantizer.spec_bits() as int;
    assert(size <= size * bits) by (nonlinear_arith)
        requires
            0 <= size,
            1 <= bits,
    ;
}

} // verus!
