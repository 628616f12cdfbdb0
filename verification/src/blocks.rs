//! The block layout of stored lists: 32 rows at a time, each value of all rows
//! of a block side by side.
use crate::rq::{RQCodeFactors, RQVectorFactors, RQ_SCAN_BLOCK_SIZE};
use vstd::prelude::*;

verus! {

/// The first row of the block that holds row `row`.
pub open spec fn block_start(row: int) -> int {
    row / 32 * 32
}

/// Rows of the block that starts at `start` in a list of `n` rows.
pub open spec fn block_lanes(n: int, start: int) -> int {
    if n - start < 32 {
        n - start
    } else {
        32
    }
}

/// Where the value `at` of row `row` stands in the block layout of `n` rows of
/// `width` values.
pub open spec fn block_at(n: int, width: int, row: int, at: int) -> int {
    let start = block_start(row);
    start * width + at * block_lanes(n, start) + (row - start)
}

/// Every place of the block layout lies within it.
pub proof fn lemma_block_at_in_range(n: int, width: int, row: int, at: int)
    requires
        0 <= row < n,
        0 <= at < width,
    ensures
        block_start(row) * width <= block_at(n, width, row, at) < block_start(row) * width
            + block_lanes(n, block_start(row)) * width,
        0 <= block_at(n, width, row, at) < n * width,
{
    let start = block_start(row);
    let lanes = block_lanes(n, start);
    let lane = row - start;
    assert(0 <= lane < lanes);
    assert(0 <= at * lanes && at * lanes + lane < lanes * width) by (nonlinear_arith)
        requires
            0 <= at < width,
            0 <= lane < lanes,
    ;
    assert(0 <= start * width) by (nonlinear_arith)
        requires
            0 <= start,
            0 <= width,
    ;
    assert(start * width + lanes * width <= n * width) by (nonlinear_arith)
        requires
            start + lanes <= n,
            0 <= width,
    ;
}

/// Different values stand at different places.
pub proof fn law_blocks_keep_values_apart(
    n: int,
    width: int,
    row_a: int,
    at_a: int,
    row_b: int,
    at_b: int,
)
    requires
        0 <= row_a < n,
        0 <= row_b < n,
        0 <= at_a < width,
        0 <= at_b < width,
        block_at(n, width, row_a, at_a) == block_at(n, width, row_b, at_b),
    ensures
        row_a == row_b,
        at_a == at_b,
{
    let a = block_start(row_a);
    let b = block_start(row_b);
    let la = block_lanes(n, a);
    let lb = block_lanes(n, b);
    lemma_block_at_in_range(n, width, row_a, at_a);
    lemma_block_at_in_range(n, width, row_b, at_b);
    if a < b {
        assert(a + 32 <= b);
        assert(a * width + la * width <= b * width) by (nonlinear_arith)
            requires
                a + la <= b,
                0 <= width,
        ;
    } else if b < a {
        assert(b + 32 <= a);
        assert(b * width + lb * width <= a * width) by (nonlinear_arith)
            requires
                b + lb <= a,
                0 <= width,
        ;
    } else {
        let xa = row_a - a;
        let xb = row_b - b;
        assert(at_a * la + xa == at_b * la + xb);
        assert(at_a == at_b && xa == xb) by (nonlinear_arith)
            requires
                at_a * la + xa == at_b * la + xb,
                0 <= xa < la,
                0 <= xb < la,
        ;
    }
}

/// `blocked` holds the rows of `rows`, taken in `order`, in the block layout.
pub open spec fn is_blocked<T>(rows: Seq<T>, order: Seq<usize>, width: int, blocked: Seq<T>) -> bool {
    &&& blocked.len() == order.len() * width
    &&& forall|i: int, at: int|
        #![trigger block_at(order.len() as int, width, i, at)]
        0 <= i < order.len() && 0 <= at < width ==> blocked[block_at(
            order.len() as int,
            width,
            i,
            at,
        )] == rows[order[i] * width + at]
}

/// Every place of the block layout holds a value of a row.
pub proof fn lemma_block_place(n: int, width: int, place: int) -> (found: (int, int))
    requires
        0 <= n,
        0 < width,
        0 <= place < n * width,
    ensures
        0 <= found.0 < n,
        0 <= found.1 < width,
        block_at(n, width, found.0, found.1) == place,
{
    let size = 32 * width;
    let b = place / size;
    let start = 32 * b;
    let rest = place % size;
    vstd::arithmetic::div_mod::lemma_fundamental_div_mod(place, size);
    vstd::arithmetic::div_mod::lemma_mod_bound(place, size);
    vstd::arithmetic::div_mod::lemma_div_pos_is_pos(place, size);
    assert(size * b == start * width) by (nonlinear_arith)
        requires
            size == 32 * width,
            start == 32 * b,
    ;
    assert(start < n) by (nonlinear_arith)
        requires
            start * width <= place,
            place < n * width,
            0 < width,
    ;
    let lanes = block_lanes(n, start);
    assert(rest < lanes * width) by (nonlinear_arith)
        requires
            rest == place - start * width,
            place < n * width,
            rest < 32 * width,
            lanes == n - start || lanes == 32,
    ;
    let at = rest / lanes;
    let lane = rest % lanes;
    vstd::arithmetic::div_mod::lemma_fundamental_div_mod(rest, lanes);
    vstd::arithmetic::div_mod::lemma_mod_bound(rest, lanes);
    vstd::arithmetic::div_mod::lemma_div_pos_is_pos(rest, lanes);
    assert(at < width) by (nonlinear_arith)
        requires
            rest == lanes * at + lane,
            rest < lanes * width,
            0 <= lane,
            0 < lanes,
    ;
    assert(lanes * at == at * lanes) by (nonlinear_arith);
    assert(block_start(start + lane) == start);
    (start + lane, at)
}

/// The block layout is determined by the rows.
pub proof fn law_block_layout_is_unique<T>(
    rows: Seq<T>,
    order: Seq<usize>,
    width: int,
    a: Seq<T>,
    b: Seq<T>,
)
    requires
        0 < width,
        is_blocked(rows, order, width, a),
        is_blocked(rows, order, width, b),
    ensures
        a == b,
{
    assert forall|p: int| 0 <= p < a.len() implies a[p] == b[p] by {
        let (row, at) = lemma_block_place(order.len() as int, width, p);
        assert(a[block_at(order.len() as int, width, row, at)] == rows[order[row] * width + at]);
    }
    assert(a =~= b);
}

/// Lays rows of `width` values out in blocks.
#[verifier::loop_isolation(false)]
pub fn block_rows<T: Copy>(rows: &[T], order: &[usize], width: usize) -> (blocked: Vec<T>)
    requires
        order@.len() * width <= usize::MAX,
        forall|i: int| 0 <= i < order@.len() ==> (#[trigger] order@[i] + 1) * width <= rows@.len(),
    ensures
        is_blocked(rows@, order@, width as int, blocked@),
{
    let n: usize = order.len();
    let total: usize = rows.len();
    let mut blocked: Vec<T> = Vec::new();
    let mut start: usize = 0;
    proof {
        assert(0 * width == 0) by (nonlinear_arith);
    }
    while start < n
        invariant
            start <= n,
            start % 32 == 0 || start == n,
            blocked@.len() == start * width,
            forall|i: int, at: int|
                #![trigger block_at(n as int, width as int, i, at)]
                0 <= i < start && 0 <= at < width ==> blocked@[block_at(
                    n as int,
                    width as int,
                    i,
                    at,
                )] == rows@[order@[i] * width + at],
        decreases n - start,
    {
        let left: usize = n - start;
        let lanes: usize = if left < RQ_SCAN_BLOCK_SIZE {
            left
        } else {
            RQ_SCAN_BLOCK_SIZE
        };
        let ghost done = blocked@;
        proof {
            assert(0 * lanes == 0) by (nonlinear_arith);
        }
        let mut at: usize = 0;
        while at < width
            invariant
                at <= width,
                blocked@.len() == start * width + at * lanes,
                blocked@.take(done.len() as int) == done,
                forall|lane: int, a: int|
                    #![trigger block_at(n as int, width as int, start + lane, a)]
                    0 <= lane < lanes && 0 <= a < at ==> blocked@[block_at(
                        n as int,
                        width as int,
                        start + lane,
                        a,
                    )] == rows@[order@[start + lane] * width + a],
            decreases width - at,
        {
            let ghost column = blocked@;
            let mut lane: usize = 0;
            while lane < lanes
                invariant
                    lane <= lanes,
                    blocked@.len() == column.len() + lane,
                    blocked@.take(column.len() as int) == column,
                    forall|l: int|
                        0 <= l < lane ==> #[trigger] blocked@[column.len() + l] == rows@[order@[start
                            + l] * width + at],
                decreases lanes - lane,
            {
                let row: usize = order[start + lane];
                proof {
                    assert((order@[start + lane] + 1) * width <= total);
                    assert((row + 1) * width == row * width + width && 0 <= row * width)
                        by (nonlinear_arith);
                }
                let ghost before = blocked@;
                blocked.push(rows[row * width + at]);
                assert(blocked@.take(column.len() as int) =~= before.take(column.len() as int));
                lane = lane + 1;
            }
            proof {
                assert((at + 1) * lanes == at * lanes + lanes) by (nonlinear_arith);
                assert(0 <= at * lanes && 0 <= start * width) by (nonlinear_arith);
                assert(blocked@.take(done.len() as int) =~= column.take(done.len() as int));
                assert forall|l: int, a: int|
                    #![trigger block_at(n as int, width as int, start + l, a)]
                    0 <= l < lanes && 0 <= a < at + 1 implies blocked@[block_at(
                    n as int,
                    width as int,
                    start + l,
                    a,
                )] == rows@[order@[start + l] * width + a] by {
                    assert(block_start(start + l) == start);
                    let p = block_at(n as int, width as int, start + l, a);
                    assert(p == start * width + a * lanes + l);
                    if a < at {
                        assert(a * lanes + lanes <= at * lanes && 0 <= a * lanes)
                            by (nonlinear_arith)
                            requires
                                0 <= a < at,
                        ;
                        assert(column[p] == blocked@.take(column.len() as int)[p]);
                    } else {
                        assert(blocked@[column.len() + l] == rows@[order@[start + l] * width + at]);
                    }
                }
            }
            at = at + 1;
        }
        proof {
            assert((start + lanes) * width == start * width + width * lanes) by (nonlinear_arith);
            assert forall|i: int, a: int|
                #![trigger block_at(n as int, width as int, i, a)]
                0 <= i < start + lanes && 0 <= a < width implies blocked@[block_at(
                n as int,
                width as int,
                i,
                a,
            )] == rows@[order@[i] * width + a] by {
                let p = block_at(n as int, width as int, i, a);
                if i < start {
                    lemma_block_at_in_range(n as int, width as int, i, a);
                    let s = block_start(i);
                    let l = block_lanes(n as int, s);
                    assert(s + l <= start);
                    assert(s * width + l * width <= start * width) by (nonlinear_arith)
                        requires
                            s + l <= start,
                            0 <= width,
                    ;
                    assert(0 <= s * width) by (nonlinear_arith)
                        requires
                            0 <= s,
                            0 <= width,
                    ;
                    assert(done[p] == rows@[order@[i] * width + a]);
                    assert(done[p] == blocked@.take(done.len() as int)[p]);
                } else {
                    let lane = i - start;
                    assert(block_at(n as int, width as int, start + lane, a) == p);
                }
            }
        }
        start = start + lanes;
    }
    blocked
}

/// A vector's factors as they are stored: two for one-bit codes, else five.
pub open spec fn stored_factors(factors: RQVectorFactors, bits: int) -> Seq<u32> {
    if bits == 1 {
        seq![factors.coarse.f_add, factors.coarse.f_rescale]
    } else {
        seq![
            factors.coarse.f_add,
            factors.coarse.f_rescale,
            factors.coarse.f_error,
            factors.full.f_add,
            factors.full.f_rescale,
        ]
    }
}

/// One stored factor.
pub fn factor_value(factors: RQVectorFactors, field: usize, bits: usize) -> (value: u32)
    requires
        1 <= bits,
        field < crate::rq::spec_factor_fields(bits as int),
    ensures
        value == stored_factors(factors, bits as int)[field as int],
{
    if field == 0 {
        factors.coarse.f_add
    } else if field == 1 {
        factors.coarse.f_rescale
    } else if field == 2 {
        factors.coarse.f_error
    } else if field == 3 {
        factors.full.f_add
    } else {
        factors.full.f_rescale
    }
}

/// The stored factors of all vectors, one vector after the other.
pub open spec fn factor_rows(factors: Seq<RQVectorFactors>, bits: int) -> Seq<u32>
    decreases factors.len(),
{
    if factors.len() == 0 {
        Seq::empty()
    } else {
        factor_rows(factors.drop_last(), bits) + stored_factors(factors.last(), bits)
    }
}

pub proof fn lemma_factor_rows(factors: Seq<RQVectorFactors>, bits: int)
    requires
        bits >= 1,
    ensures
        factor_rows(factors, bits).len() == factors.len() * crate::rq::spec_factor_fields(bits),
        forall|i: int, field: int|
            #![trigger stored_factors(factors[i], bits)[field]]
            0 <= i < factors.len() && 0 <= field < crate::rq::spec_factor_fields(bits)
                ==> factor_rows(factors, bits)[i * crate::rq::spec_factor_fields(bits) + field]
                == stored_factors(factors[i], bits)[field],
    decreases factors.len(),
{
    let fields = crate::rq::spec_factor_fields(bits);
    if factors.len() == 0 {
        assert(0 * fields == 0) by (nonlinear_arith);
    } else {
        let shorter = factors.drop_last();
        lemma_factor_rows(shorter, bits);
        let m = shorter.len() as int;
        assert((m + 1) * fields == m * fields + fields && 0 <= m * fields) by (nonlinear_arith)
            requires
                0 <= m,
                0 <= fields,
        ;
        assert forall|i: int, field: int|
            #![trigger stored_factors(factors[i], bits)[field]]
            0 <= i < factors.len() && 0 <= field < fields implies factor_rows(factors, bits)[i
            * fields + field] == stored_factors(factors[i], bits)[field] by {
            if i < m {
                assert(i * fields + fields <= m * fields && 0 <= i * fields) by (nonlinear_arith)
                    requires
                        0 <= i < m,
                        0 <= fields,
                ;
                assert(stored_factors(shorter[i], bits)[field] == stored_factors(factors[i], bits)[field]);
            }
        }
    }
}

fn flatten_factors(factors: &[RQVectorFactors], bits: usize) -> (rows: Vec<u32>)
    requires
        bits >= 1,
    ensures
        rows@ == factor_rows(factors@, bits as int),
{
    let fields: usize = if bits == 1 {
        2
    } else {
        5
    };
    let mut rows: Vec<u32> = Vec::new();
    assert(factors@.take(0) =~= Seq::<RQVectorFactors>::empty());
    let mut i: usize = 0;
    while i < factors.len()
        invariant
            i <= factors@.len(),
            bits >= 1,
            fields == crate::rq::spec_factor_fields(bits as int),
            rows@ == factor_rows(factors@.take(i as int), bits as int),
        decreases factors@.len() - i,
    {
        let ghost before = rows@;
        let vector: RQVectorFactors = factors[i];
        let ghost stored = stored_factors(vector, bits as int);
        assert(before + stored.take(0) =~= before);
        let mut field: usize = 0;
        while field < fields
            invariant
                field <= fields,
                bits >= 1,
                fields == crate::rq::spec_factor_fields(bits as int),
                stored == stored_factors(vector, bits as int),
                stored.len() == fields,
                rows@ == before + stored.take(field as int),
            decreases fields - field,
        {
            rows.push(factor_value(vector, field, bits));
            assert(rows@ =~= before + stored.take(field + 1));
            field = field + 1;
        }
        proof {
            assert(stored.take(fields as int) =~= stored);
            assert(factors@.take(i + 1).drop_last() =~= factors@.take(i as int));
        }
        i = i + 1;
    }
    assert(factors@.take(factors@.len() as int) =~= factors@);
    rows
}

/// The codes and factors of a list, taken in `order`, in the block layout.
pub fn block_list(
    codes: &[u8],
    factors: &[RQVectorFactors],
    order: &[usize],
    code_size: usize,
    bits: usize,
) -> (out: (Vec<u8>, Vec<u32>))
    requires
        bits >= 1,
        factors@.len() == order@.len(),
        codes@.len() == order@.len() * code_size,
        crate::rq::is_permutation(order@),
        order@.len() * 5 <= usize::MAX,
    ensures
        is_blocked(codes@, order@, code_size as int, out.0@),
        is_blocked(
            factor_rows(factors@, bits as int),
            order@,
            crate::rq::spec_factor_fields(bits as int),
            out.1@,
        ),
{
    let fields: usize = if bits == 1 {
        2
    } else {
        5
    };
    let total: usize = codes.len();
    let rows = flatten_factors(factors, bits);
    proof {
        lemma_factor_rows(factors@, bits as int);
        let n = order@.len() as int;
        assert forall|i: int| 0 <= i < n implies (#[trigger] order@[i] + 1) * code_size
            <= codes@.len() && (order@[i] + 1) * fields <= rows@.len() by {
            let row = order@[i] as int;
            assert(row < n);
            assert((row + 1) * code_size <= n * code_size) by (nonlinear_arith)
                requires
                    row < n,
            ;
            assert((row + 1) * fields <= n * fields) by (nonlinear_arith)
                requires
                    row < n,
            ;
        }
        assert(n * fields <= n * 5) by (nonlinear_arith)
            requires
                fields <= 5,
                0 <= n,
        ;
    }
    let blocked_codes = block_rows(codes, order, code_size);
    let blocked_factors = block_rows(rows.as_slice(), order, fields);
    (blocked_codes, blocked_factors)
}

/// The factors of a row of a stored list, from field `first_field` on.
pub fn read_block_factor(
    factors: &[u32],
    n: usize,
    fields: usize,
    row: usize,
    first_field: usize,
    has_error: bool,
) -> (read: RQCodeFactors)
    requires
        factors@.len() == n * fields,
        row < n,
        first_field + 2 <= fields,
        has_error ==> first_field + 3 <= fields,
    ensures
        read.f_add == factors@[block_at(n as int, fields as int, row as int, first_field as int)],
        read.f_rescale == factors@[block_at(
            n as int,
            fields as int,
            row as int,
            first_field + 1,
        )],
        read.f_error == (if has_error {
            factors@[block_at(n as int, fields as int, row as int, first_field + 2)]
        } else {
            0u32
        }),
{
    let total: usize = factors.len();
    let start: usize = row / RQ_SCAN_BLOCK_SIZE * RQ_SCAN_BLOCK_SIZE;
    let left: usize = n - start;
    let lanes: usize = if left < RQ_SCAN_BLOCK_SIZE {
        left
    } else {
        RQ_SCAN_BLOCK_SIZE
    };
    let lane: usize = row - start;
    proof {
        lemma_block_at_in_range(n as int, fields as int, row as int, first_field as int);
        lemma_block_at_in_range(n as int, fields as int, row as int, first_field + 1);
        if has_error {
            lemma_block_at_in_range(n as int, fields as int, row as int, first_field + 2);
        }
        assert(0 <= start * fields && 0 <= first_field * lanes && 0 <= (first_field + 1) * lanes)
            by (nonlinear_arith);
        assert(0 <= (first_field + 2) * lanes) by (nonlinear_arith);
    }
    let base: usize = start * fields;
    let f_add: u32 = factors[base + first_field * lanes + lane];
    let f_rescale: u32 = factors[base + (first_field + 1) * lanes + lane];
    let f_error: u32 = if has_error {
        factors[base + (first_field + 2) * lanes + lane]
    } else {
        0
    };
    RQCodeFactors { f_add, f_rescale, f_error }
}

/// Factors survive the block layout: the factors read for a place are those of
/// the vector that was put there.
pub proof fn law_factors_survive_blocks(
    factors: Seq<RQVectorFactors>,
    order: Seq<usize>,
    bits: int,
    blocked: Seq<u32>,
    place: int,
    field: int,
)
    requires
        bits >= 1,
        factors.len() == order.len(),
        crate::rq::is_permutation(order),
        is_blocked(
            factor_rows(factors, bits),
            order,
            crate::rq::spec_factor_fields(bits),
            blocked,
        ),
        0 <= place < order.len(),
        0 <= field < crate::rq::spec_factor_fields(bits),
    ensures
        blocked[block_at(
            order.len() as int,
            crate::rq::spec_factor_fields(bits),
            place,
            field,
        )] == stored_factors(factors[order[place] as int], bits)[field],
{
    lemma_factor_rows(factors, bits);
    assert(order[place] < order.len());
    assert(stored_factors(factors[order[place] as int], bits)[field] == stored_factors(
        factors[order[place] as int],
        bits,
    )[field]);
}

} // verus!
