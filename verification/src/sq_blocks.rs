//! Distances of a query to scalar-quantized codes that are stored in blocks of
//! rows, dimension by dimension.
use crate::distance::MetricType;
use crate::sq::{blocked_distances, ScalarQuantizer};
use vstd::prelude::*;

verus! {

/// One step of the arithmetic of distances to codes.
#[derive(Debug, Clone, Copy, PartialEq, Eq, Structural)]
pub enum BlockStep {
    /// A component of the query, moved to where the codes begin.
    Bias { query: u32, offset: u32, min: u32 },
    /// The value of the code zero.
    Base { offset: u32, min: u32 },
    /// The step from one code to the next.
    Width { min: u32, max: u32 },
    /// A sum to which the square of a bias less a code's part of the range is
    /// added.
    Square { sum: u32, bias: u32, code: u8, width: u32 },
    /// The value of a code.
    Decode { base: u32, code: u8, width: u32 },
    /// A sum to which a product is added.
    Product { sum: u32, a: u32, b: u32 },
    Negate { value: u32 },
    Root { value: u32 },
    /// The cosine distance from an inner product, the squared length of a row
    /// and the length of the query.
    Cosine { product: u32, norm: u32, query_norm: u32 },
}

/// Every step has one result.
pub open spec fn is_arithmetic<F: Fn(BlockStep) -> u32>(f: F) -> bool {
    &&& forall|step: BlockStep| #[trigger] call_requires(f, (step,))
    &&& forall|step: BlockStep, x: u32, y: u32| #[trigger]
        call_ensures(f, (step,), x) && #[trigger] call_ensures(f, (step,), y) ==> x == y
}

/// The result of a step.
pub open spec fn step_result<F: Fn(BlockStep) -> u32>(f: F, step: BlockStep) -> u32 {
    choose|x: u32| call_ensures(f, (step,), x)
}

fn take_step<F: Fn(BlockStep) -> u32>(f: &F, step: BlockStep) -> (x: u32)
    requires
        is_arithmetic(*f),
    ensures
        x == step_result(*f, step),
{
    let x: u32 = f(step);
    assert(call_ensures(*f, (step,), x));
    x
}

/// Rows of the block that holds row `row`.
pub open spec fn block_len(count: int, block_size: int, row: int) -> int {
    let start = crate::sq::sq_block_start(row, block_size);
    if count - start < block_size {
        count - start
    } else {
        block_size
    }
}

/// Where the code of row `row` in dimension `dim` stands.
pub open spec fn code_place(count: int, d: int, block_size: int, row: int, dim: int) -> int {
    let start = crate::sq::sq_block_start(row, block_size);
    start * d + dim * block_len(count, block_size, row) + (row - start)
}

/// Every place lies within the codes.
pub proof fn lemma_code_place(count: int, d: int, block_size: int, row: int, dim: int)
    requires
        0 < block_size,
        0 <= row < count,
        0 <= dim < d,
    ensures
        0 <= crate::sq::sq_block_start(row, block_size) <= row,
        row - crate::sq::sq_block_start(row, block_size) < block_len(count, block_size, row),
        0 <= crate::sq::sq_block_start(row, block_size) * d,
        0 <= dim * block_len(count, block_size, row),
        0 <= code_place(count, d, block_size, row, dim) < count * d,
{
    let start = crate::sq::sq_block_start(row, block_size);
    let len = block_len(count, block_size, row);
    vstd::arithmetic::div_mod::lemma_fundamental_div_mod(row, block_size);
    vstd::arithmetic::div_mod::lemma_mod_bound(row, block_size);
    vstd::arithmetic::div_mod::lemma_div_pos_is_pos(row, block_size);
    assert(row / block_size * block_size == block_size * (row / block_size)) by (nonlinear_arith);
    assert(0 <= row / block_size * block_size) by (nonlinear_arith)
        requires
            0 <= row / block_size,
            0 < block_size,
    ;
    let lane = row - start;
    assert(0 <= lane < len);
    assert(0 <= start * d && 0 <= dim * len) by (nonlinear_arith)
        requires
            0 <= start,
            0 <= d,
            0 <= dim,
            0 <= len,
    ;
    assert(dim * len + lane < d * len) by (nonlinear_arith)
        requires
            0 <= dim < d,
            0 <= lane < len,
    ;
    assert(start * d + d * len <= count * d) by (nonlinear_arith)
        requires
            start + len <= count,
            0 <= d,
    ;
}

/// Different codes stand at different places.
pub proof fn law_code_places_differ(
    count: int,
    d: int,
    block_size: int,
    row_a: int,
    dim_a: int,
    row_b: int,
    dim_b: int,
)
    requires
        0 < block_size,
        0 <= row_a < count,
        0 <= row_b < count,
        0 <= dim_a < d,
        0 <= dim_b < d,
        code_place(count, d, block_size, row_a, dim_a) == code_place(
            count,
            d,
            block_size,
            row_b,
            dim_b,
        ),
    ensures
        row_a == row_b,
        dim_a == dim_b,
{
    lemma_code_place(count, d, block_size, row_a, dim_a);
    lemma_code_place(count, d, block_size, row_b, dim_b);
    let a = crate::sq::sq_block_start(row_a, block_size);
    let b = crate::sq::sq_block_start(row_b, block_size);
    let la = block_len(count, block_size, row_a);
    let lb = block_len(count, block_size, row_b);
    let xa = row_a - a;
    let xb = row_b - b;
    let qa = row_a / block_size;
    let qb = row_b / block_size;
    assert(0 <= dim_a * la + xa < d * la) by (nonlinear_arith)
        requires
            0 <= dim_a < d,
            0 <= xa < la,
    ;
    assert(0 <= dim_b * lb + xb < d * lb) by (nonlinear_arith)
        requires
            0 <= dim_b < d,
            0 <= xb < lb,
    ;
    if qa < qb {
        assert(a + block_size <= b) by (nonlinear_arith)
            requires
                a == qa * block_size,
                b == qb * block_size,
                qa < qb,
                0 < block_size,
        ;
        assert(a * d + d * la <= b * d) by (nonlinear_arith)
            requires
                a + la <= b,
                0 <= d,
        ;
    } else if qb < qa {
        assert(b + block_size <= a) by (nonlinear_arith)
            requires
                a == qa * block_size,
                b == qb * block_size,
                qb < qa,
                0 < block_size,
        ;
        assert(b * d + d * lb <= a * d) by (nonlinear_arith)
            requires
                b + lb <= a,
                0 <= d,
        ;
    } else {
        assert(dim_a == dim_b && xa == xb) by (nonlinear_arith)
            requires
                dim_a * la + xa == dim_b * la + xb,
                0 <= xa < la,
                0 <= xb < la,
        ;
    }
}

/// Codes of `count` rows in blocks of `block_size` rows.
pub struct BlockedCodes<'a> {
    pub codes: &'a [u8],
    pub count: usize,
    pub block_size: usize,
}

impl<'a> BlockedCodes<'a> {
    /// The code of row `row` in dimension `dim`.
    pub open spec fn spec_code(self, d: int, row: int, dim: int) -> u8 {
        self.codes@[code_place(self.count as int, d, self.block_size as int, row, dim)]
    }

    /// The code of row `row` in dimension `dim`.
    pub fn code(&self, d: usize, row: usize, dim: usize) -> (code: u8)
        requires
            self.block_size > 0,
            self.codes@.len() == self.count * d,
            row < self.count,
            dim < d,
        ensures
            code == self.spec_code(d as int, row as int, dim as int),
    {
        proof {
            lemma_code_place(
                self.count as int,
                d as int,
                self.block_size as int,
                row as int,
                dim as int,
            );
        }
        let total: usize = self.codes.len();
        let start: usize = row / self.block_size * self.block_size;
        let left: usize = self.count - start;
        let len: usize = if left < self.block_size {
            left
        } else {
            self.block_size
        };
        self.codes[start * d + dim * len + (row - start)]
    }
}

/// A sum to which the squares of the dimensions `start..end` of a row are
/// added.
pub open spec fn squares_added<F: Fn(BlockStep) -> u32>(
    f: F,
    sq: ScalarQuantizer,
    query: Seq<u32>,
    offset: Seq<u32>,
    blocks: BlockedCodes,
    row: int,
    start: int,
    end: int,
    sum: u32,
) -> u32
    decreases end - start,
{
    if end <= start {
        sum
    } else {
        let dim = end - 1;
        step_result(
            f,
            BlockStep::Square {
                sum: squares_added(f, sq, query, offset, blocks, row, start, dim, sum),
                bias: step_result(
                    f,
                    BlockStep::Bias { query: query[dim], offset: offset[dim], min: sq.mins@[dim] },
                ),
                code: blocks.spec_code(sq.d as int, row, dim),
                width: step_result(
                    f,
                    BlockStep::Width { min: sq.mins@[dim], max: sq.maxs@[dim] },
                ),
            },
        )
    }
}

/// Sums continue where they stopped.
pub proof fn law_squares_continue<F: Fn(BlockStep) -> u32>(
    f: F,
    sq: ScalarQuantizer,
    query: Seq<u32>,
    offset: Seq<u32>,
    blocks: BlockedCodes,
    row: int,
    start: int,
    middle: int,
    end: int,
    sum: u32,
)
    requires
        start <= middle <= end,
    ensures
        squares_added(
            f,
            sq,
            query,
            offset,
            blocks,
            row,
            middle,
            end,
            squares_added(f, sq, query, offset, blocks, row, start, middle, sum),
        ) == squares_added(f, sq, query, offset, blocks, row, start, end, sum),
    decreases end - middle,
{
    if middle < end {
        law_squares_continue(
            f,
            sq,
            query,
            offset,
            blocks,
            row,
            start,
            middle,
            end - 1,
            sum,
        );
    }
}

/// The squared distances of all rows over their first `upto` dimensions.
pub open spec fn squared_upto<F: Fn(BlockStep) -> u32>(
    f: F,
    sq: ScalarQuantizer,
    query: Seq<u32>,
    offset: Seq<u32>,
    blocks: BlockedCodes,
    upto: int,
) -> Seq<u32> {
    Seq::new(
        blocks.count as nat,
        |row: int| squares_added(f, sq, query, offset, blocks, row, 0, upto, 0),
    )
}

/// Squared distances: those over all dimensions, but for the blocks that are
/// given up at the checkpoint.
pub open spec fn squared_distances<F: Fn(BlockStep) -> u32>(
    f: F,
    sq: ScalarQuantizer,
    query: Seq<u32>,
    offset: Seq<u32>,
    blocks: BlockedCodes,
    cutoff: u32,
) -> Seq<u32> {
    let middle = crate::sq::checkpoint(sq.d as int);
    let partial = squared_upto(f, sq, query, offset, blocks, middle);
    let whole = squared_upto(f, sq, query, offset, blocks, sq.d as int);
    Seq::new(
        blocks.count as nat,
        |row: int|
            if middle > 0 && crate::sq::given_up(
                partial,
                crate::sq::sq_block_start(row, blocks.block_size as int),
                blocks.count as int,
                blocks.block_size as int,
                cutoff,
            ) {
                partial[row]
            } else {
                whole[row]
            },
    )
}

/// The value of a row in a dimension.
pub open spec fn decoded_value<F: Fn(BlockStep) -> u32>(
    f: F,
    sq: ScalarQuantizer,
    offset: Seq<u32>,
    blocks: BlockedCodes,
    row: int,
    dim: int,
) -> u32 {
    step_result(
        f,
        BlockStep::Decode {
            base: step_result(f, BlockStep::Base { offset: offset[dim], min: sq.mins@[dim] }),
            code: blocks.spec_code(sq.d as int, row, dim),
            width: step_result(f, BlockStep::Width { min: sq.mins@[dim], max: sq.maxs@[dim] }),
        },
    )
}

/// The values of a row.
pub open spec fn decoded_row<F: Fn(BlockStep) -> u32>(
    f: F,
    sq: ScalarQuantizer,
    offset: Seq<u32>,
    blocks: BlockedCodes,
    row: int,
) -> Seq<u32> {
    Seq::new(sq.d as nat, |dim: int| decoded_value(f, sq, offset, blocks, row, dim))
}

/// An inner product of the first `n` components, summed in turn from zero.
pub open spec fn product<F: Fn(BlockStep) -> u32>(f: F, a: Seq<u32>, b: Seq<u32>, n: nat) -> u32
    decreases n,
{
    if n == 0 {
        0
    } else {
        step_result(
            f,
            BlockStep::Product { sum: product(f, a, b, (n - 1) as nat), a: a[n - 1], b: b[n - 1] },
        )
    }
}

fn inner_product<F: Fn(BlockStep) -> u32>(f: &F, a: &[u32], b: &[u32], n: usize) -> (sum: u32)
    requires
        is_arithmetic(*f),
        n <= a@.len(),
        n <= b@.len(),
    ensures
        sum == product(*f, a@, b@, n as nat),
{
    let mut sum: u32 = 0;
    let mut i: usize = 0;
    while i < n
        invariant
            is_arithmetic(*f),
            n <= a@.len(),
            n <= b@.len(),
            i <= n,
            sum == product(*f, a@, b@, i as nat),
        decreases n - i,
    {
        sum = take_step(f, BlockStep::Product { sum, a: a[i], b: b[i] });
        i = i + 1;
    }
    sum
}

/// The distance of a row by an inner product or an angle.
pub open spec fn product_distance<F: Fn(BlockStep) -> u32>(
    f: F,
    sq: ScalarQuantizer,
    query: Seq<u32>,
    offset: Seq<u32>,
    blocks: BlockedCodes,
    metric: MetricType,
    row: int,
) -> u32 {
    let d = sq.d as nat;
    let values = decoded_row(f, sq, offset, blocks, row);
    let along = product(f, query, values, d);
    if metric == MetricType::Cosine {
        step_result(
            f,
            BlockStep::Cosine {
                product: along,
                norm: product(f, values, values, d),
                query_norm: step_result(f, BlockStep::Root { value: product(f, query, query, d) }),
            },
        )
    } else {
        step_result(f, BlockStep::Negate { value: along })
    }
}

/// The distances of a query to all rows.
pub open spec fn block_distances<F: Fn(BlockStep) -> u32>(
    f: F,
    sq: ScalarQuantizer,
    query: Seq<u32>,
    offset: Seq<u32>,
    blocks: BlockedCodes,
    metric: MetricType,
    cutoff: u32,
) -> Seq<u32> {
    if metric == MetricType::L2 {
        squared_distances(f, sq, query, offset, blocks, cutoff)
    } else {
        Seq::new(
            blocks.count as nat,
            |row: int| product_distance(f, sq, query, offset, blocks, metric, row),
        )
    }
}

/// Adding squares never makes a sum less.
pub open spec fn squares_grow<F: Fn(BlockStep) -> u32>(f: F) -> bool {
    forall|sum: u32, bias: u32, code: u8, width: u32|
        !crate::order::is_nan(sum) ==> crate::sq::at_least(
            #[trigger] step_result(f, BlockStep::Square { sum, bias, code, width }),
            sum,
        )
}

proof fn lemma_sums_grow<F: Fn(BlockStep) -> u32>(
    f: F,
    sq: ScalarQuantizer,
    query: Seq<u32>,
    offset: Seq<u32>,
    blocks: BlockedCodes,
    row: int,
    start: int,
    end: int,
    sum: u32,
)
    requires
        squares_grow(f),
        !crate::order::is_nan(sum),
    ensures
        crate::sq::at_least(
            squares_added(f, sq, query, offset, blocks, row, start, end, sum),
            sum,
        ),
    decreases end - start,
{
    if start < end {
        lemma_sums_grow(f, sq, query, offset, blocks, row, start, end - 1, sum);
    }
}

/// The cutoff changes no distance below it: a row whose squared distance is
/// below the cutoff gets that distance, and all others stay at or above it.
pub proof fn law_competitive_distances_are_exact<F: Fn(BlockStep) -> u32>(
    f: F,
    sq: ScalarQuantizer,
    query: Seq<u32>,
    offset: Seq<u32>,
    blocks: BlockedCodes,
    cutoff: u32,
    row: int,
)
    requires
        squares_grow(f),
        blocks.block_size > 0,
        0 <= row < blocks.count,
    ensures
        ({
            let whole = squared_upto(f, sq, query, offset, blocks, sq.d as int)[row];
            let measured = squared_distances(f, sq, query, offset, blocks, cutoff)[row];
            &&& crate::sq::at_least(measured, cutoff) == crate::sq::at_least(whole, cutoff)
            &&& !crate::sq::at_least(whole, cutoff) ==> measured == whole
        }),
{
    let size = blocks.block_size as int;
    let middle = crate::sq::checkpoint(sq.d as int);
    let partial = squared_upto(f, sq, query, offset, blocks, middle);
    vstd::arithmetic::div_mod::lemma_fundamental_div_mod(row, size);
    vstd::arithmetic::div_mod::lemma_mod_bound(row, size);
    assert(row / size * size == size * (row / size)) by (nonlinear_arith);
    let start = crate::sq::sq_block_start(row, size);
    if crate::sq::given_up(partial, start, blocks.count as int, size, cutoff) {
        assert(crate::sq::at_least(partial[row], cutoff));
        law_squares_continue(f, sq, query, offset, blocks, row, 0, middle, sq.d as int, 0);
        lemma_sums_grow(
            f,
            sq,
            query,
            offset,
            blocks,
            row,
            middle,
            sq.d as int,
            partial[row],
        );
    }
}

/// A cutoff gives up nothing but whole blocks, whatever the arithmetic: a row
/// has its squared distance, or every row of its block had reached the cutoff at
/// the checkpoint, and then it has what it had there.
pub proof fn law_a_cutoff_gives_up_whole_blocks<F: Fn(BlockStep) -> u32>(
    f: F,
    sq: ScalarQuantizer,
    query: Seq<u32>,
    offset: Seq<u32>,
    blocks: BlockedCodes,
    cutoff: u32,
    row: int,
)
    requires
        blocks.block_size > 0,
        0 <= row < blocks.count,
    ensures
        ({
            let whole = squared_upto(f, sq, query, offset, blocks, sq.d as int);
            let partial = squared_upto(
                f,
                sq,
                query,
                offset,
                blocks,
                crate::sq::checkpoint(sq.d as int),
            );
            let measured = squared_distances(f, sq, query, offset, blocks, cutoff)[row];
            let start = crate::sq::sq_block_start(row, blocks.block_size as int);
            ||| measured == whole[row]
            ||| measured == partial[row] && crate::sq::at_least(measured, cutoff)
                && crate::sq::given_up(
                partial,
                start,
                blocks.count as int,
                blocks.block_size as int,
                cutoff,
            )
        }),
{
    let size = blocks.block_size as int;
    vstd::arithmetic::div_mod::lemma_fundamental_div_mod(row, size);
    vstd::arithmetic::div_mod::lemma_mod_bound(row, size);
    assert(row / size * size == size * (row / size)) by (nonlinear_arith);
}

/// The cutoff changes no distance below it: compared with a scan without one,
/// whose cutoff is infinite, a row is at or above the cutoff in both or in
/// neither, and below it has the same distance in both.
pub proof fn law_a_cutoff_keeps_what_is_below<F: Fn(BlockStep) -> u32>(
    f: F,
    sq: ScalarQuantizer,
    query: Seq<u32>,
    offset: Seq<u32>,
    blocks: BlockedCodes,
    cutoff: u32,
    row: int,
)
    requires
        squares_grow(f),
        blocks.block_size > 0,
        0 <= row < blocks.count,
    ensures
        ({
            let all = squared_distances(
                f,
                sq,
                query,
                offset,
                blocks,
                crate::order::INFINITE_DISTANCE,
            )[row];
            let measured = squared_distances(f, sq, query, offset, blocks, cutoff)[row];
            &&& crate::sq::at_least(measured, cutoff) == crate::sq::at_least(all, cutoff)
            &&& !crate::sq::at_least(all, cutoff) ==> measured == all
        }),
{
    law_competitive_distances_are_exact(f, sq, query, offset, blocks, cutoff, row);
    law_competitive_distances_are_exact(
        f,
        sq,
        query,
        offset,
        blocks,
        crate::order::INFINITE_DISTANCE,
        row,
    );
}

impl ScalarQuantizer {
    fn add_squares<F: Fn(BlockStep) -> u32>(
        &self,
        query: &[u32],
        offset: &[u32],
        blocks: &BlockedCodes<'_>,
        row: usize,
        start: usize,
        end: usize,
        sum: u32,
        f: &F,
    ) -> (total: u32)
        requires
            self.well_formed(),
            is_arithmetic(*f),
            query@.len() >= self.d,
            offset@.len() >= self.d,
            blocks.block_size > 0,
            blocks.codes@.len() == blocks.count * self.d,
            row < blocks.count,
            start <= end <= self.d,
        ensures
            total == squares_added(
                *f,
                *self,
                query@,
                offset@,
                *blocks,
                row as int,
                start as int,
                end as int,
                sum,
            ),
    {
        let mut total: u32 = sum;
        let mut dim: usize = start;
        while dim < end
            invariant
                self.well_formed(),
                is_arithmetic(*f),
                query@.len() >= self.d,
                offset@.len() >= self.d,
                blocks.block_size > 0,
                blocks.codes@.len() == blocks.count * self.d,
                row < blocks.count,
                start <= dim <= end <= self.d,
                total == squares_added(
                    *f,
                    *self,
                    query@,
                    offset@,
                    *blocks,
                    row as int,
                    start as int,
                    dim as int,
                    sum,
                ),
            decreases end - dim,
        {
            let bias: u32 = take_step(
                f,
                BlockStep::Bias { query: query[dim], offset: offset[dim], min: self.mins[dim] },
            );
            let width: u32 = take_step(
                f,
                BlockStep::Width { min: self.mins[dim], max: self.maxs[dim] },
            );
            let code: u8 = blocks.code(self.d, row, dim);
            total = take_step(f, BlockStep::Square { sum: total, bias, code, width });
            dim = dim + 1;
        }
        total
    }

    fn decode_row<F: Fn(BlockStep) -> u32>(
        &self,
        offset: &[u32],
        blocks: &BlockedCodes<'_>,
        row: usize,
        f: &F,
    ) -> (values: Vec<u32>)
        requires
            self.well_formed(),
            is_arithmetic(*f),
            offset@.len() >= self.d,
            blocks.block_size > 0,
            blocks.codes@.len() == blocks.count * self.d,
            row < blocks.count,
        ensures
            values@ == decoded_row(*f, *self, offset@, *blocks, row as int),
    {
        let ghost expected = decoded_row(*f, *self, offset@, *blocks, row as int);
        let mut values: Vec<u32> = Vec::new();
        let mut dim: usize = 0;
        while dim < self.d
            invariant
                self.well_formed(),
                is_arithmetic(*f),
                offset@.len() >= self.d,
                blocks.block_size > 0,
                blocks.codes@.len() == blocks.count * self.d,
                row < blocks.count,
                expected == decoded_row(*f, *self, offset@, *blocks, row as int),
                dim <= self.d,
                values@ == expected.take(dim as int),
            decreases self.d - dim,
        {
            let base: u32 = take_step(
                f,
                BlockStep::Base { offset: offset[dim], min: self.mins[dim] },
            );
            let width: u32 = take_step(
                f,
                BlockStep::Width { min: self.mins[dim], max: self.maxs[dim] },
            );
            let code: u8 = blocks.code(self.d, row, dim);
            values.push(take_step(f, BlockStep::Decode { base, code, width }));
            dim = dim + 1;
            assert(values@ =~= expected.take(dim as int));
        }
        assert(values@ =~= expected);
        values
    }

    fn squared_to_blocks<F: Fn(BlockStep) -> u32>(
        &self,
        query: &[u32],
        offset: &[u32],
        blocks: &BlockedCodes<'_>,
        cutoff: u32,
        f: &F,
    ) -> (distances: Vec<u32>)
        requires
            self.well_formed(),
            is_arithmetic(*f),
            query@.len() >= self.d,
            offset@.len() >= self.d,
            blocks.block_size > 0,
            blocks.codes@.len() == blocks.count * self.d,
        ensures
            distances@ == squared_distances(*f, *self, query@, offset@, *blocks, cutoff),
    {
        let sum_of = |row: usize, start: usize, end: usize, sum: u32| -> (total: u32)
            requires
                row < blocks.count,
                start <= end <= self.d,
            ensures
                total == squares_added(
                    *f,
                    *self,
                    query@,
                    offset@,
                    *blocks,
                    row as int,
                    start as int,
                    end as int,
                    sum,
                ),
            { self.add_squares(query, offset, blocks, row, start, end, sum, f) };
        let distances = blocked_distances(&sum_of, blocks.count, self.d, blocks.block_size, cutoff);
        proof {
            let count = blocks.count as int;
            let d = self.d as int;
            let size = blocks.block_size as int;
            let middle = crate::sq::checkpoint(d);
            let partial = choose|partial: Seq<u32>| #[trigger]
                crate::sq::blocked_sums(
                    sum_of,
                    partial,
                    distances@,
                    count,
                    d,
                    size,
                    cutoff,
                );
            let parts = squared_upto(*f, *self, query@, offset@, *blocks, middle);
            assert forall|i: int| 0 <= i < count implies #[trigger] partial[i] == parts[i] by {
                assert(call_ensures(
                    sum_of,
                    (i as usize, 0usize, middle as usize, 0u32),
                    partial[i],
                ));
            }
            assert(partial =~= parts);
            let expected = squared_distances(*f, *self, query@, offset@, *blocks, cutoff);
            assert forall|i: int| 0 <= i < count implies #[trigger] distances@[i]
                == expected[i] by {
                law_squares_continue(
                    *f,
                    *self,
                    query@,
                    offset@,
                    *blocks,
                    i,
                    0,
                    middle,
                    d,
                    0,
                );
            }
            assert(distances@ =~= expected);
        }
        distances
    }

    /// The distances of a query to codes that are stored in blocks of
    /// `block_size` rows, each moved by `offset`. Squared distances of a block
    /// stop growing at the checkpoint once all of them have reached `cutoff`.
    pub fn distances_to_blocked_codes_with_offset<F: Fn(BlockStep) -> u32>(
        &self,
        query: &[u32],
        offset: &[u32],
        blocks: &BlockedCodes<'_>,
        metric: MetricType,
        cutoff: u32,
        f: &F,
    ) -> (distances: Vec<u32>)
        requires
            self.well_formed(),
            is_arithmetic(*f),
            query@.len() >= self.d,
            offset@.len() >= self.d,
            blocks.block_size > 0,
            blocks.codes@.len() == blocks.count * self.d,
        ensures
            distances@ == block_distances(
                *f,
                *self,
                query@,
                offset@,
                *blocks,
                metric,
                cutoff,
            ),
    {
        if metric == MetricType::L2 {
            return self.squared_to_blocks(query, offset, blocks, cutoff, f);
        }
        let query_norm: u32 = if metric == MetricType::Cosine {
            let norm: u32 = inner_product(f, query, query, self.d);
            take_step(f, BlockStep::Root { value: norm })
        } else {
            0
        };
        let ghost expected = block_distances(
            *f,
            *self,
            query@,
            offset@,
            *blocks,
            metric,
            cutoff,
        );
        let mut distances: Vec<u32> = Vec::new();
        let mut row: usize = 0;
        while row < blocks.count
            invariant
                self.well_formed(),
                is_arithmetic(*f),
                query@.len() >= self.d,
                offset@.len() >= self.d,
                blocks.block_size > 0,
                blocks.codes@.len() == blocks.count * self.d,
                metric != MetricType::L2,
                metric == MetricType::Cosine ==> query_norm == step_result(
                    *f,
                    BlockStep::Root { value: product(*f, query@, query@, self.d as nat) },
                ),
                expected == block_distances(
                    *f,
                    *self,
                    query@,
                    offset@,
                    *blocks,
                    metric,
                    cutoff,
                ),
                row <= blocks.count,
                distances@ == expected.take(row as int),
            decreases blocks.count - row,
        {
            let values = self.decode_row(offset, blocks, row, f);
            let along: u32 = inner_product(f, query, values.as_slice(), self.d);
            let distance: u32 = if metric == MetricType::Cosine {
                let norm: u32 = inner_product(f, values.as_slice(), values.as_slice(), self.d);
                take_step(f, BlockStep::Cosine { product: along, norm, query_norm })
            } else {
                take_step(f, BlockStep::Negate { value: along })
            };
            distances.push(distance);
            row = row + 1;
            assert(distances@ =~= expected.take(row as int));
        }
        assert(distances@ =~= expected);
        distances
    }
}

} // verus!
