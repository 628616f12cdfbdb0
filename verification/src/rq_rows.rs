//! Bounds and distances of the rows of a stored list, from its block layout.
use crate::blocks::read_block_factor;
use crate::rq::{RQCodeFactors, RQVectorFactors, RaBitQuantizer, RQ_SCAN_BLOCK_SIZE};
use crate::rq_products::{is_arithmetic, step_result, take_step, RQQueryTerms, RowStep};
use crate::rq_query::RQQueryContext;
use vstd::prelude::*;
use vstd::slice::slice_subrange;

verus! {

/// The codes and factors of a list of `count` rows in the block layout.
pub struct StoredRows<'a> {
    pub codes: &'a [u8],
    pub factors: &'a [u32],
    pub count: usize,
}

/// The lists of a quantizer: codes and factors of all rows.
pub open spec fn stores_rows(quantizer: RaBitQuantizer, rows: StoredRows) -> bool {
    &&& rows.codes@.len() == rows.count * (quantizer.spec_plane_size() * quantizer.spec_bits())
    &&& rows.factors@.len() == rows.count * crate::rq::spec_factor_fields(
        quantizer.spec_bits() as int,
    )
}

/// The tables of a query have the sizes of the quantizer.
pub open spec fn fits_query(quantizer: RaBitQuantizer, context: RQQueryContext) -> bool {
    &&& context.byte_subset_sums@.len() == quantizer.spec_plane_size() * 256
    &&& context.fastscan_lut@.len() >= quantizer.spec_plane_size() * 32
    &&& quantizer.spec_plane_size() * 510 <= u32::MAX
}

/// The code of a row, read from the block layout.
pub open spec fn stored_code(codes: Seq<u8>, count: int, size: nat, row: int) -> Seq<u8> {
    Seq::new(size, |at: int| codes[crate::blocks::block_at(count, size as int, row, at)])
}

/// Reads the code of a row from the block layout.
pub fn block_code(codes: &[u8], count: usize, size: usize, row: usize) -> (code: Vec<u8>)
    requires
        codes@.len() == count * size,
        row < count,
    ensures
        code@ == stored_code(codes@, count as int, size as nat, row as int),
{
    let total: usize = codes.len();
    let start: usize = row / RQ_SCAN_BLOCK_SIZE * RQ_SCAN_BLOCK_SIZE;
    let left: usize = count - start;
    let lanes: usize = if left < RQ_SCAN_BLOCK_SIZE {
        left
    } else {
        RQ_SCAN_BLOCK_SIZE
    };
    let lane: usize = row - start;
    let mut code: Vec<u8> = Vec::new();
    let mut at: usize = 0;
    while at < size
        invariant
            total == codes@.len(),
            codes@.len() == count * size,
            row < count,
            start == crate::blocks::block_start(row as int),
            lanes == crate::blocks::block_lanes(count as int, start as int),
            lane == row - start,
            at <= size,
            code@ == stored_code(codes@, count as int, size as nat, row as int).take(at as int),
        decreases size - at,
    {
        proof {
            crate::blocks::lemma_block_at_in_range(
                count as int,
                size as int,
                row as int,
                at as int,
            );
            assert(0 <= start * size && 0 <= at * lanes) by (nonlinear_arith);
        }
        code.push(codes[start * size + at * lanes + lane]);
        at = at + 1;
        assert(code@ =~= stored_code(codes@, count as int, size as nat, row as int).take(
            at as int,
        ));
    }
    assert(code@ =~= stored_code(codes@, count as int, size as nat, row as int));
    code
}

/// Codes that were put into the block layout are read back.
pub proof fn law_codes_survive_blocks(
    codes: Seq<u8>,
    order: Seq<usize>,
    size: nat,
    blocked: Seq<u8>,
    place: int,
)
    requires
        crate::blocks::is_blocked(codes, order, size as int, blocked),
        0 <= place < order.len(),
        (order[place] + 1) * size <= codes.len(),
    ensures
        stored_code(blocked, order.len() as int, size, place) == codes.subrange(
            order[place] * size,
            (order[place] + 1) * size,
        ),
{
    let row = order[place] as int;
    assert(row * size + size == (row + 1) * size && 0 <= row * size) by (nonlinear_arith)
        requires
            0 <= row,
    ;
    assert forall|at: int| 0 <= at < size implies stored_code(
        blocked,
        order.len() as int,
        size,
        place,
    )[at] == codes[row * size + at] by {
        let p = crate::blocks::block_at(order.len() as int, size as int, place, at);
        assert(blocked[p] == codes[row * size + at]);
    }
    assert(stored_code(blocked, order.len() as int, size, place) =~= codes.subrange(
        row * size,
        (row + 1) * size,
    ));
}

/// The factors of a row, from field `first` on.
pub open spec fn factors_at(
    factors: Seq<u32>,
    count: int,
    fields: int,
    row: int,
    first: int,
    has_error: bool,
) -> RQCodeFactors {
    RQCodeFactors {
        f_add: factors[crate::blocks::block_at(count, fields, row, first)],
        f_rescale: factors[crate::blocks::block_at(count, fields, row, first + 1)],
        f_error: if has_error {
            factors[crate::blocks::block_at(count, fields, row, first + 2)]
        } else {
            0
        },
    }
}

/// The block of a row is whole.
pub open spec fn whole_block(count: int, row: int) -> bool {
    crate::blocks::block_start(row) + 32 <= count
}

/// The sum of the first plane of a row, from the one-byte tables.
pub open spec fn quick_sum<F: Fn(RowStep) -> u32>(
    f: F,
    quantizer: RaBitQuantizer,
    rows: StoredRows,
    context: RQQueryContext,
    row: int,
) -> u32 {
    let size = quantizer.spec_plane_size() * quantizer.spec_bits();
    let start = crate::blocks::block_start(row);
    step_result(
        f,
        RowStep::Place {
            offset: context.fastscan_offset,
            scale: context.fastscan_scale,
            sum: crate::rq::lane_sum(
                context.fastscan_lut@,
                rows.codes@.subrange(
                    start * size,
                    start * size + quantizer.spec_plane_size() * 32,
                ),
                row - start,
                quantizer.spec_plane_size() as nat,
            ) as u32,
        },
    )
}

/// The code of a row of a list.
pub open spec fn row_code(quantizer: RaBitQuantizer, rows: StoredRows, row: int) -> Seq<u8> {
    stored_code(
        rows.codes@,
        rows.count as int,
        (quantizer.spec_plane_size() * quantizer.spec_bits()) as nat,
        row,
    )
}

/// The factors that the bound of a row is computed with.
pub open spec fn bound_factors(
    quantizer: RaBitQuantizer,
    rows: StoredRows,
    row: int,
) -> RQCodeFactors {
    factors_at(
        rows.factors@,
        rows.count as int,
        crate::rq::spec_factor_fields(quantizer.spec_bits() as int),
        row,
        0,
        quantizer.spec_bits() > 1,
    )
}

/// A bound of the distance of a row from its first plane alone: the estimate
/// less its error, and less the error of the one-byte tables where they are
/// used.
pub open spec fn row_bound<F: Fn(RowStep) -> u32>(
    f: F,
    quantizer: RaBitQuantizer,
    rows: StoredRows,
    context: RQQueryContext,
    terms: RQQueryTerms,
    row: int,
    fast: bool,
) -> u32 {
    let factors = bound_factors(quantizer, rows, row);
    if fast && whole_block(rows.count as int, row) {
        let sum = quick_sum(f, quantizer, rows, context, row);
        let product = crate::rq_products::sign_product(f, context, sum);
        let estimate = crate::rq_products::estimated(f, product, factors, terms);
        step_result(
            f,
            RowStep::Loosen {
                bound: crate::rq_products::lowered(f, estimate, factors, terms),
                rescale: factors.f_rescale,
                weight: 1,
                error: context.fastscan_ip_error,
            },
        )
    } else {
        crate::rq_products::code_bound(
            f,
            quantizer,
            context,
            row_code(quantizer, rows, row),
            factors,
            terms,
        )
    }
}

/// The factors that the distance of a row is computed with.
pub open spec fn distance_factors(
    quantizer: RaBitQuantizer,
    rows: StoredRows,
    row: int,
) -> RQCodeFactors {
    factors_at(
        rows.factors@,
        rows.count as int,
        crate::rq::spec_factor_fields(quantizer.spec_bits() as int),
        row,
        if quantizer.spec_bits() == 1 {
            0
        } else {
            3
        },
        false,
    )
}

/// The distance of a row, summed up byte by byte.
pub open spec fn row_distance<F: Fn(RowStep) -> u32>(
    f: F,
    quantizer: RaBitQuantizer,
    rows: StoredRows,
    context: RQQueryContext,
    terms: RQQueryTerms,
    row: int,
) -> u32 {
    let code = row_code(quantizer, rows, row);
    crate::rq_products::stored_distance_with(
        f,
        quantizer,
        context,
        code,
        distance_factors(quantizer, rows, row),
        terms,
        crate::rq_products::first_plane(f, context, code, quantizer.spec_plane_size() as int),
    )
}

/// A bound of the distance of a row from all of its planes, the first one
/// summed by the one-byte tables where its block is whole.
pub open spec fn row_approximation<F: Fn(RowStep) -> u32>(
    f: F,
    quantizer: RaBitQuantizer,
    rows: StoredRows,
    context: RQQueryContext,
    terms: RQQueryTerms,
    row: int,
) -> u32 {
    if whole_block(rows.count as int, row) {
        let coarse = quick_sum(f, quantizer, rows, context, row);
        step_result(
            f,
            RowStep::Loosen {
                bound: crate::rq_products::stored_distance_with(
                    f,
                    quantizer,
                    context,
                    row_code(quantizer, rows, row),
                    distance_factors(quantizer, rows, row),
                    terms,
                    coarse,
                ),
                rescale: distance_factors(quantizer, rows, row).f_rescale,
                weight: crate::rq_products::power_of_two(
                    (quantizer.spec_bits() - 1) as nat,
                ) as usize,
                error: context.fastscan_ip_error,
            },
        )
    } else {
        row_distance(f, quantizer, rows, context, terms, row)
    }
}

/// A list in the block layout has the codes, factors and bounds of the vectors
/// that were put into it, so that scanning a stored list measures what scanning
/// the vectors themselves does. The distances are the same too, for codes of one
/// bit, and for all codes where multiples are added without rounding: a scan
/// adds up the bytes of the further planes in turn, not plane by plane.
pub proof fn law_stored_rows_keep_their_distances<F: Fn(RowStep) -> u32>(
    f: F,
    quantizer: RaBitQuantizer,
    codes: Seq<u8>,
    factors: Seq<RQVectorFactors>,
    order: Seq<usize>,
    rows: StoredRows,
    context: RQQueryContext,
    terms: RQQueryTerms,
    place: int,
)
    requires
        quantizer.well_formed(),
        crate::rq::is_permutation(order),
        rows.count == order.len(),
        factors.len() == order.len(),
        codes.len() == order.len() * (quantizer.spec_plane_size() * quantizer.spec_bits()),
        crate::blocks::is_blocked(
            codes,
            order,
            quantizer.spec_plane_size() * quantizer.spec_bits(),
            rows.codes@,
        ),
        crate::blocks::is_blocked(
            crate::blocks::factor_rows(factors, quantizer.spec_bits() as int),
            order,
            crate::rq::spec_factor_fields(quantizer.spec_bits() as int),
            rows.factors@,
        ),
        0 <= place < order.len(),
    ensures
        ({
            let size = quantizer.spec_plane_size() * quantizer.spec_bits();
            let vector = order[place] as int;
            let code = codes.subrange(vector * size, (vector + 1) * size);
            &&& row_code(quantizer, rows, place) == code
            &&& quantizer.spec_bits() > 1 ==> row_bound(
                f,
                quantizer,
                rows,
                context,
                terms,
                place,
                false,
            ) == crate::rq_products::code_bound(
                f,
                quantizer,
                context,
                code,
                factors[vector].coarse,
                terms,
            )
            &&& distance_factors(quantizer, rows, place) == (RQCodeFactors {
                f_error: 0,
                ..crate::rq_products::used_factors(quantizer, factors[vector])
            })
            &&& quantizer.spec_bits() == 1 || crate::rq_products::weighs_exactly(f) ==> row_distance(
                f,
                quantizer,
                rows,
                context,
                terms,
                place,
            ) == crate::rq_products::code_distance(
                f,
                quantizer,
                context,
                code,
                factors[vector],
                terms,
            )
        }),
{
    let bits = quantizer.spec_bits() as int;
    let size = quantizer.spec_plane_size() * quantizer.spec_bits();
    let vector = order[place] as int;
    assert(order[place] < order.len());
    assert((vector + 1) * size <= order.len() * size) by (nonlinear_arith)
        requires
            vector < order.len(),
            0 <= size,
    ;
    law_codes_survive_blocks(codes, order, size as nat, rows.codes@, place);
    assert forall|field: int| 0 <= field < crate::rq::spec_factor_fields(bits) implies (
    #[trigger] rows.factors@[crate::blocks::block_at(
        order.len() as int,
        crate::rq::spec_factor_fields(bits),
        place,
        field,
    )]) == crate::blocks::stored_factors(factors[vector], bits)[field] by {
        crate::blocks::law_factors_survive_blocks(
            factors,
            order,
            bits,
            rows.factors@,
            place,
            field,
        );
    }
    if bits == 1 || crate::rq_products::weighs_exactly(f) {
        let code = row_code(quantizer, rows, place);
        crate::rq_products::law_stored_codes_are_as_far(
            f,
            quantizer,
            context,
            code,
            distance_factors(quantizer, rows, place),
            terms,
            crate::rq_products::first_plane(f, context, code, quantizer.spec_plane_size() as int),
        );
    }
}

impl RaBitQuantizer {
    fn quick_first_plane<F: Fn(RowStep) -> u32>(
        &self,
        rows: &StoredRows<'_>,
        context: &RQQueryContext,
        row: usize,
        f: &F,
    ) -> (sum: u32)
        requires
            self.well_formed(),
            is_arithmetic(*f),
            stores_rows(*self, *rows),
            fits_query(*self, *context),
            row < rows.count,
            whole_block(rows.count as int, row as int),
        ensures
            sum == quick_sum(*f, *self, *rows, *context, row as int),
    {
        let size: usize = self.code_size();
        let plane_size: usize = self.plane_size();
        let bits: usize = self.bits();
        let total: usize = rows.codes.len();
        let start: usize = row / RQ_SCAN_BLOCK_SIZE * RQ_SCAN_BLOCK_SIZE;
        proof {
            let count = rows.count as int;
            assert(plane_size * 32 <= size * 32) by (nonlinear_arith)
                requires
                    size == plane_size * bits,
                    bits >= 1,
            ;
            assert(0 <= start * size && start * size + 32 * size <= count * size)
                by (nonlinear_arith)
                requires
                    start + 32 <= count,
            ;
            assert(size * 32 == 32 * size) by (nonlinear_arith);
        }
        let from: usize = start * size;
        let block = slice_subrange(rows.codes, from, from + plane_size * 32);
        let sums = self.fastscan_coarse_block(context.fastscan_lut.as_slice(), block);
        take_step(
            f,
            RowStep::Place {
                offset: context.fastscan_offset,
                scale: context.fastscan_scale,
                sum: sums[row - start],
            },
        )
    }

    /// A bound of the distance of a row from its first plane alone. The
    /// one-byte tables of the query are used if `fast` is set and the block of
    /// the row is whole.
    pub fn row_bound<F: Fn(RowStep) -> u32>(
        &self,
        rows: &StoredRows<'_>,
        context: &RQQueryContext,
        terms: RQQueryTerms,
        row: usize,
        fast: bool,
        f: &F,
    ) -> (bound: u32)
        requires
            self.well_formed(),
            is_arithmetic(*f),
            stores_rows(*self, *rows),
            fits_query(*self, *context),
            row < rows.count,
        ensures
            bound == row_bound(*f, *self, *rows, *context, terms, row as int, fast),
    {
        let fields: usize = self.factor_fields();
        let size: usize = self.code_size();
        let factors = read_block_factor(rows.factors, rows.count, fields, row, 0, self.bits() > 1);
        assert(factors == bound_factors(*self, *rows, row as int));
        proof {
            crate::rq_products::lemma_plane_within_code(*self);
        }
        let start: usize = row / RQ_SCAN_BLOCK_SIZE * RQ_SCAN_BLOCK_SIZE;
        if !fast || rows.count - start < RQ_SCAN_BLOCK_SIZE {
            let code = block_code(rows.codes, rows.count, size, row);
            return self.code_bound(context, code.as_slice(), factors, terms, f);
        }
        let total: u32 = self.quick_first_plane(rows, context, row, f);
        let product: u32 = take_step(
            f,
            RowStep::Center { total, levels: 1, query_sum: context.sum },
        );
        let estimate: u32 = self.estimate(product, factors, terms, f);
        let bound: u32 = self.lower_bound(estimate, factors, terms, f);
        take_step(
            f,
            RowStep::Loosen {
                bound,
                rescale: factors.f_rescale,
                weight: 1,
                error: context.fastscan_ip_error,
            },
        )
    }

    fn factors_for_distance(&self, rows: &StoredRows<'_>, row: usize) -> (factors: RQCodeFactors)
        requires
            self.well_formed(),
            stores_rows(*self, *rows),
            row < rows.count,
        ensures
            factors == distance_factors(*self, *rows, row as int),
    {
        let fields: usize = self.factor_fields();
        let first_field: usize = if self.bits() == 1 {
            0
        } else {
            3
        };
        read_block_factor(rows.factors, rows.count, fields, row, first_field, false)
    }

    /// The distance of a row.
    pub fn row_distance<F: Fn(RowStep) -> u32>(
        &self,
        rows: &StoredRows<'_>,
        context: &RQQueryContext,
        terms: RQQueryTerms,
        row: usize,
        f: &F,
    ) -> (distance: u32)
        requires
            self.well_formed(),
            is_arithmetic(*f),
            stores_rows(*self, *rows),
            fits_query(*self, *context),
            row < rows.count,
        ensures
            distance == row_distance(*f, *self, *rows, *context, terms, row as int),
    {
        proof {
            crate::rq_products::lemma_plane_within_code(*self);
        }
        let factors = self.factors_for_distance(rows, row);
        let code = block_code(rows.codes, rows.count, self.code_size(), row);
        let coarse: u32 = self.unsigned_plane_inner_product(context, code.as_slice(), 0, f);
        self.stored_distance_from_coarse(context, code.as_slice(), factors, terms, coarse, f)
    }

    /// A bound of the distance of a row from all of its planes, the first one
    /// summed by the one-byte tables where its block is whole.
    pub fn row_approximation<F: Fn(RowStep) -> u32>(
        &self,
        rows: &StoredRows<'_>,
        context: &RQQueryContext,
        terms: RQQueryTerms,
        row: usize,
        f: &F,
    ) -> (bound: u32)
        requires
            self.well_formed(),
            is_arithmetic(*f),
            stores_rows(*self, *rows),
            fits_query(*self, *context),
            row < rows.count,
        ensures
            bound == row_approximation(*f, *self, *rows, *context, terms, row as int),
    {
        let start: usize = row / RQ_SCAN_BLOCK_SIZE * RQ_SCAN_BLOCK_SIZE;
        if rows.count - start < RQ_SCAN_BLOCK_SIZE {
            return self.row_distance(rows, context, terms, row, f);
        }
        let coarse: u32 = self.quick_first_plane(rows, context, row, f);
        let factors = self.factors_for_distance(rows, row);
        let code = block_code(rows.codes, rows.count, self.code_size(), row);
        let bound: u32 = self.stored_distance_from_coarse(
            context,
            code.as_slice(),
            factors,
            terms,
            coarse,
            f,
        );
        take_step(
            f,
            RowStep::Loosen {
                bound,
                rescale: factors.f_rescale,
                weight: crate::rq_products::weight_of(self.bits() - 1),
                error: context.fastscan_ip_error,
            },
        )
    }
}

} // verus!
