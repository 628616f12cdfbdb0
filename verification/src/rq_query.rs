//! Tables of a query: the sums of all subsets of a few components, and their
//! one-byte form for the block scan.
use crate::float_ops::{apply, operate};
use crate::order::{
    float_is_nan, float_less, float_max, float_min, INFINITE_DISTANCE, NEGATIVE_INFINITY,
};
use crate::rq::RaBitQuantizer;
use vstd::prelude::*;

verus! {

/// The gap between one and the next larger number.
pub const EPSILON: u32 = 0x3400_0000;

/// Whether bit `bit` of a pattern is set.
pub open spec fn pattern_bit(pattern: u32, bit: int) -> bool {
    (pattern >> (bit as u32)) & 1u32 == 1u32
}

/// The sum of the components whose bit is set, from bit `from` on: the highest
/// comes first.
pub open spec fn subset_sum<A: Fn(u32, u32) -> u32>(
    add: A,
    values: Seq<u32>,
    base: int,
    width: int,
    pattern: u32,
    from: int,
) -> u32
    decreases width - from,
{
    if from >= width {
        0
    } else {
        let above = subset_sum(add, values, base, width, pattern, from + 1);
        if pattern_bit(pattern, from) {
            crate::float_ops::result_of(add, above, values[base + from])
        } else {
            above
        }
    }
}

/// All subset sums of each group of `width` components.
pub open spec fn are_subset_sums<A: Fn(u32, u32) -> u32>(
    add: A,
    values: Seq<u32>,
    groups: int,
    width: int,
    size: int,
    sums: Seq<u32>,
) -> bool {
    &&& sums.len() == groups * size
    &&& forall|group: int, pattern: u32|
        #![trigger sums[group * size + pattern]]
        0 <= group < groups && pattern < size ==> sums[group * size + pattern]
            == subset_sum(add, values, group * width, width, pattern, 0)
}

proof fn lemma_low_bits_clear(pattern: u32, low: u32, bit: u32)
    requires
        low < 32,
        bit < low,
        (pattern >> low) << low == pattern,
    ensures
        !pattern_bit(pattern, bit as int),
{
    assert(low < 32 && bit < low && (pattern >> low) << low == pattern ==> (pattern >> bit)
        & 1u32 != 1u32) by (bit_vector);
}

proof fn lemma_without_lowest(pattern: u32, below: u32, low: u32, bit: u32)
    requires
        below + 1 == pattern,
        low < 32,
        bit < 32,
        (pattern >> low) << low == pattern,
        pattern_bit(pattern, low as int),
    ensures
        bit <= low ==> !pattern_bit(pattern & below, bit as int),
        bit > low ==> pattern_bit(pattern & below, bit as int) == pattern_bit(
            pattern,
            bit as int,
        ),
{
    assert(below + 1 == pattern && low < 32 && bit < 32 && (pattern >> low) << low == pattern && (
    pattern >> low) & 1u32 == 1u32 ==> (bit <= low ==> ((pattern & below) >> bit) & 1u32 != 1u32)
        && (bit > low ==> (((pattern & below) >> bit) & 1u32 == 1u32) == ((pattern >> bit) & 1u32
        == 1u32))) by (bit_vector);
}

/// Bits below `from` do not matter.
proof fn lemma_same_upper_bits<A: Fn(u32, u32) -> u32>(
    add: A,
    values: Seq<u32>,
    base: int,
    width: int,
    one: u32,
    two: u32,
    from: int,
)
    requires
        forall|bit: int| from <= bit < width ==> pattern_bit(one, bit) == pattern_bit(two, bit),
    ensures
        subset_sum(add, values, base, width, one, from) == subset_sum(
            add,
            values,
            base,
            width,
            two,
            from,
        ),
    decreases width - from,
{
    if from < width {
        lemma_same_upper_bits(add, values, base, width, one, two, from + 1);
    }
}

/// Clear bits add nothing.
proof fn lemma_skip_clear_bits<A: Fn(u32, u32) -> u32>(
    add: A,
    values: Seq<u32>,
    base: int,
    width: int,
    pattern: u32,
    from: int,
    to: int,
)
    requires
        from <= to <= width,
        forall|bit: int| from <= bit < to ==> !pattern_bit(pattern, bit),
    ensures
        subset_sum(add, values, base, width, pattern, from) == subset_sum(
            add,
            values,
            base,
            width,
            pattern,
            to,
        ),
    decreases to - from,
{
    if from < to {
        lemma_skip_clear_bits(add, values, base, width, pattern, from + 1, to);
    }
}

/// The lowest component comes last.
proof fn lemma_lowest_comes_last<A: Fn(u32, u32) -> u32>(
    add: A,
    values: Seq<u32>,
    base: int,
    width: int,
    pattern: u32,
    below: u32,
    low: u32,
)
    requires
        below + 1 == pattern,
        low < width <= 32,
        (pattern >> low) << low == pattern,
        pattern_bit(pattern, low as int),
    ensures
        subset_sum(add, values, base, width, pattern, 0) == crate::float_ops::result_of(
            add,
            subset_sum(add, values, base, width, pattern & below, 0),
            values[base + low],
        ),
{
    let rest = pattern & below;
    assert forall|bit: int| 0 <= bit < low implies !pattern_bit(pattern, bit) by {
        lemma_low_bits_clear(pattern, low, bit as u32);
    }
    assert forall|bit: int| 0 <= bit < low + 1 implies !pattern_bit(rest, bit) by {
        lemma_without_lowest(pattern, below, low, bit as u32);
    }
    assert forall|bit: int| low + 1 <= bit < width implies pattern_bit(rest, bit) == pattern_bit(
        pattern,
        bit,
    ) by {
        lemma_without_lowest(pattern, below, low, bit as u32);
    }
    lemma_skip_clear_bits(add, values, base, width, pattern, 0, low as int);
    lemma_skip_clear_bits(add, values, base, width, rest, 0, low + 1);
    lemma_same_upper_bits(add, values, base, width, rest, pattern, low + 1);
}

/// The place of the lowest bit that is set.
fn lowest_bit(pattern: u32, width: u32) -> (low: u32)
    requires
        0 < pattern,
        0 < width < 32,
        pattern < 1u32 << width,
    ensures
        low < width,
        (pattern >> low) << low == pattern,
        pattern_bit(pattern, low as int),
{
    let mut low: u32 = 0;
    assert((pattern >> 0u32) << 0u32 == pattern) by (bit_vector);
    while (pattern >> low) & 1 != 1
        invariant
            0 < pattern,
            0 < width < 32,
            pattern < 1u32 << width,
            low < width,
            (pattern >> low) << low == pattern,
        decreases width - low,
    {
        assert(low < 31 && (pattern >> low) << low == pattern && (pattern >> low) & 1 != 1 ==> (
        pattern >> ((low + 1) as u32)) << ((low + 1) as u32) == pattern) by (bit_vector);
        assert(width < 32 && pattern < 1u32 << width && (pattern >> width) << width == pattern
            ==> pattern == 0) by (bit_vector);
        low = low + 1;
    }
    low
}

/// The sums of all subsets of each group of `width` components.
pub fn subset_sums<A: Fn(u32, u32) -> u32>(values: &[u32], width: u32, add: &A) -> (sums: Vec<u32>)
    requires
        width == 4 || width == 8,
        crate::float_ops::is_operation(*add),
        values@.len() * 64 <= usize::MAX,
    ensures
        width == 4 ==> are_subset_sums(*add, values@, values@.len() as int / 4, 4, 16, sums@),
        width == 8 ==> are_subset_sums(*add, values@, values@.len() as int / 8, 8, 256, sums@),
{
    let size: u32 = if width == 4 {
        16
    } else {
        256
    };
    assert(1u32 << 4u32 == 16 && 1u32 << 8u32 == 256) by (bit_vector);
    let total: usize = values.len();
    let groups: usize = if width == 4 {
        total / 4
    } else {
        total / 8
    };
    let mut sums: Vec<u32> = Vec::new();
    let mut group: usize = 0;
    while group < groups
        invariant
            group <= groups,
            total == values@.len(),
            total * 64 <= usize::MAX,
            width == 4 && size == 16 && groups == total / 4 || width == 8 && size == 256 && groups
                == total / 8,
            size == 1u32 << width,
            crate::float_ops::is_operation(*add),
            sums@.len() == group * size,
            forall|g: int, p: u32|
                #![trigger sums@[g * size + p]]
                0 <= g < group && p < size ==> sums@[g * size + p] == subset_sum(
                    *add,
                    values@,
                    g * width,
                    width as int,
                    p,
                    0,
                ),
        decreases groups - group,
    {
        proof {
            if width == 4 {
                assert(group * 4 + 4 <= total && group * 16 + 16 <= total * 64);
            } else {
                assert(group * 8 + 8 <= total && group * 256 + 256 <= total * 64);
            }
        }
        let base: usize = group * width as usize;
        let start: usize = group * size as usize;
        let ghost before = sums@;
        sums.push(0);
        proof {
            assert forall|bit: int| 0 <= bit < width implies !pattern_bit(0u32, bit) by {
                let b = bit as u32;
                assert((0u32 >> b) & 1u32 != 1u32) by (bit_vector);
            }
            lemma_skip_clear_bits(
                *add,
                values@,
                base as int,
                width as int,
                0u32,
                0,
                width as int,
            );
        }
        let mut pattern: u32 = 1;
        while pattern < size
            invariant
                1 <= pattern <= size,
                group < groups,
                total == values@.len(),
                width == 4 && size == 16 || width == 8 && size == 256,
                size == 1u32 << width,
                base == group * width,
                start == group * size,
                base + width <= total,
                start + size <= usize::MAX,
                crate::float_ops::is_operation(*add),
                sums@.len() == start + pattern,
                before.len() == start,
                forall|i: int| 0 <= i < start ==> sums@[i] == before[i],
                forall|p: u32|
                    #![trigger sums@[start + p]]
                    p < pattern ==> sums@[start + p] == subset_sum(
                        *add,
                        values@,
                        base as int,
                        width as int,
                        p,
                        0,
                    ),
            decreases size - pattern,
        {
            let low: u32 = lowest_bit(pattern, width);
            let below: u32 = pattern - 1;
            let rest: u32 = pattern & below;
            assert(pattern & below <= below) by (bit_vector);
            proof {
                lemma_lowest_comes_last(
                    *add,
                    values@,
                    base as int,
                    width as int,
                    pattern,
                    below,
                    low,
                );
                assert(sums@[start + rest] == subset_sum(
                    *add,
                    values@,
                    base as int,
                    width as int,
                    rest,
                    0,
                ));
            }
            let sum: u32 = operate(add, sums[start + rest as usize], values[base + low as usize]);
            sums.push(sum);
            pattern = pattern + 1;
        }
        proof {
            assert((group + 1) * size == group * size + size) by (nonlinear_arith);
            assert forall|g: int, p: u32|
                #![trigger sums@[g * size + p]]
                0 <= g < group + 1 && p < size implies sums@[g * size + p] == subset_sum(
                *add,
                values@,
                g * width,
                width as int,
                p,
                0,
            ) by {
                if g < group {
                    assert(g * size + p < group * size) by (nonlinear_arith)
                        requires
                            g + 1 <= group,
                            p < size,
                            size == 16 || size == 256,
                    ;
                    assert(0 <= g * size) by (nonlinear_arith)
                        requires
                            0 <= g,
                            size == 16 || size == 256,
                    ;
                    assert(sums@[g * size + p] == before[g * size + p]);
                } else {
                    assert(sums@[start + p] == subset_sum(
                        *add,
                        values@,
                        base as int,
                        width as int,
                        p,
                        0,
                    ));
                }
            }
        }
        group = group + 1;
    }
    sums
}

/// The arithmetic that preparing a query needs: the sum and the difference of
/// two numbers, the step of a one-byte scale that covers a range, the byte for
/// a number on the scale that begins at a minimum, and how far the number for
/// that byte is from the exact one.
pub struct QueryKernel<A, S, U, Q, G> {
    pub add: A,
    pub subtract: S,
    pub step_of: U,
    pub byte_of: Q,
    pub gap_of: G,
}

pub open spec fn is_kernel<
    A: Fn(u32, u32) -> u32,
    S: Fn(u32, u32) -> u32,
    U: Fn(u32) -> u32,
    Q: Fn(u32, u32, u32) -> u8,
    G: Fn(u32, u32, u32, u8) -> u32,
>(kernel: QueryKernel<A, S, U, Q, G>) -> bool {
    &&& crate::float_ops::is_operation(kernel.add)
    &&& crate::float_ops::is_operation(kernel.subtract)
    &&& crate::float_ops::is_map(kernel.step_of)
    &&& forall|exact: u32, min: u32, step: u32| #[trigger]
        call_requires(kernel.byte_of, (exact, min, step))
    &&& forall|exact: u32, min: u32, step: u32, x: u8, y: u8| #[trigger]
        call_ensures(kernel.byte_of, (exact, min, step), x) && #[trigger] call_ensures(
            kernel.byte_of,
            (exact, min, step),
            y,
        ) ==> x == y
    &&& forall|exact: u32, min: u32, step: u32, byte: u8| #[trigger]
        call_requires(kernel.gap_of, (exact, min, step, byte))
    &&& forall|exact: u32, min: u32, step: u32, byte: u8, x: u32, y: u32| #[trigger]
        call_ensures(kernel.gap_of, (exact, min, step, byte), x) && #[trigger] call_ensures(
            kernel.gap_of,
            (exact, min, step, byte),
            y,
        ) ==> x == y
}

/// The subset sums of one group of four components.
pub open spec fn group_sums<A: Fn(u32, u32) -> u32>(add: A, query: Seq<u32>, group: int) -> Seq<
    u32,
> {
    Seq::new(16, |pattern: int| subset_sum(add, query, group * 4, 4, pattern as u32, 0))
}

pub open spec fn group_min<A: Fn(u32, u32) -> u32>(add: A, query: Seq<u32>, group: int) -> u32 {
    crate::sq::least(INFINITE_DISTANCE, group_sums(add, query, group), 16)
}

pub open spec fn group_max<A: Fn(u32, u32) -> u32>(add: A, query: Seq<u32>, group: int) -> u32 {
    crate::sq::greatest(NEGATIVE_INFINITY, group_sums(add, query, group), 16)
}

/// The widest range of the subset sums of a group, among the first groups.
pub open spec fn widest<A: Fn(u32, u32) -> u32, S: Fn(u32, u32) -> u32>(
    add: A,
    subtract: S,
    query: Seq<u32>,
    groups: nat,
) -> u32
    decreases groups,
{
    if groups == 0 {
        0
    } else {
        let last = groups - 1;
        crate::order::max_number(
            widest(add, subtract, query, last as nat),
            crate::float_ops::result_of(
                subtract,
                group_max(add, query, last),
                group_min(add, query, last),
            ),
        )
    }
}

/// Steps this small tell nothing apart.
pub open spec fn is_flat(step: u32) -> bool {
    !crate::order::is_nan(step) && !crate::order::less(EPSILON, step)
}

/// The byte for a number.
pub open spec fn table_byte<Q: Fn(u32, u32, u32) -> u8>(
    byte_of: Q,
    exact: u32,
    min: u32,
    step: u32,
) -> u8 {
    if is_flat(step) {
        0
    } else {
        choose|x: u8| call_ensures(byte_of, (exact, min, step), x)
    }
}

/// How far a byte is off.
pub open spec fn byte_gap<G: Fn(u32, u32, u32, u8) -> u32>(
    gap_of: G,
    exact: u32,
    min: u32,
    step: u32,
    byte: u8,
) -> u32 {
    choose|x: u32| call_ensures(gap_of, (exact, min, step, byte), x)
}

/// How far the bytes of a group are off.
pub open spec fn group_gaps<Q: Fn(u32, u32, u32) -> u8, G: Fn(u32, u32, u32, u8) -> u32>(
    byte_of: Q,
    gap_of: G,
    sums: Seq<u32>,
    min: u32,
    step: u32,
) -> Seq<u32> {
    Seq::new(
        sums.len(),
        |i: int|
            byte_gap(gap_of, sums[i], min, step, table_byte(byte_of, sums[i], min, step)),
    )
}

/// The tables of a query: the subset sums of each eight components, and for
/// each four components their subset sums as bytes, the least of the sums and
/// how far the bytes are off at most.
pub struct QueryTables {
    pub byte_subset_sums: Vec<u32>,
    pub fastscan_lut: Vec<u8>,
    pub fastscan_scale: u32,
    pub group_mins: Vec<u32>,
    pub group_errors: Vec<u32>,
}

/// The tables belong to the query.
pub open spec fn are_tables<
    A: Fn(u32, u32) -> u32,
    S: Fn(u32, u32) -> u32,
    U: Fn(u32) -> u32,
    Q: Fn(u32, u32, u32) -> u8,
    G: Fn(u32, u32, u32, u8) -> u32,
>(kernel: QueryKernel<A, S, U, Q, G>, query: Seq<u32>, tables: QueryTables) -> bool {
    let groups = query.len() as int / 4;
    &&& are_subset_sums(
        kernel.add,
        query,
        query.len() as int / 8,
        8,
        256,
        tables.byte_subset_sums@,
    )
    &&& tables.fastscan_scale == crate::float_ops::image_of(
        kernel.step_of,
        widest(kernel.add, kernel.subtract, query, groups as nat),
    )
    &&& tables.group_mins@ == Seq::new(
        groups as nat,
        |group: int| group_min(kernel.add, query, group),
    )
    &&& tables.fastscan_lut@.len() == groups * 16
    &&& forall|group: int, pattern: int|
        #![trigger tables.fastscan_lut@[group * 16 + pattern]]
        0 <= group < groups && 0 <= pattern < 16 ==> tables.fastscan_lut@[group * 16 + pattern]
            == table_byte(
            kernel.byte_of,
            group_sums(kernel.add, query, group)[pattern],
            group_min(kernel.add, query, group),
            tables.fastscan_scale,
        )
    &&& tables.group_errors@ == Seq::new(
        groups as nat,
        |group: int|
            crate::sq::greatest(
                0,
                group_gaps(
                    kernel.byte_of,
                    kernel.gap_of,
                    group_sums(kernel.add, query, group),
                    group_min(kernel.add, query, group),
                    tables.fastscan_scale,
                ),
                16,
            ),
    )
}

/// The least and the greatest subset sum of a group.
fn group_extrema<A: Fn(u32, u32) -> u32>(
    add: &A,
    query: &[u32],
    sums: &Vec<u32>,
    group: usize,
) -> (out: (u32, u32))
    requires
        are_subset_sums(*add, query@, query@.len() as int / 4, 4, 16, sums@),
        group < query@.len() as int / 4,
        query@.len() * 64 <= usize::MAX,
    ensures
        out.0 == group_min(*add, query@, group as int),
        out.1 == group_max(*add, query@, group as int),
{
    let total: usize = query.len();
    let ghost mine = group_sums(*add, query@, group as int);
    let start: usize = group * 16;
    let mut min: u32 = INFINITE_DISTANCE;
    let mut max: u32 = NEGATIVE_INFINITY;
    let mut pattern: usize = 0;
    while pattern < 16
        invariant
            pattern <= 16,
            are_subset_sums(*add, query@, query@.len() as int / 4, 4, 16, sums@),
            group < query@.len() as int / 4,
            start == group * 16,
            start + 16 <= sums@.len(),
            mine == group_sums(*add, query@, group as int),
            min == crate::sq::least(INFINITE_DISTANCE, mine, pattern as nat),
            max == crate::sq::greatest(NEGATIVE_INFINITY, mine, pattern as nat),
        decreases 16 - pattern,
    {
        let ghost key = pattern as u32;
        let value: u32 = sums[start + pattern];
        proof {
            assert(sums@[group * 16 + key] == subset_sum(
                *add,
                query@,
                group * 4,
                4,
                key,
                0,
            ));
            assert(value == mine[pattern as int]);
        }
        min = float_min(min, value);
        max = float_max(max, value);
        pattern = pattern + 1;
    }
    (min, max)
}

/// The first `n` numbers, summed in turn from zero.
pub open spec fn summed<A: Fn(u32, u32) -> u32>(add: A, values: Seq<u32>, n: nat) -> u32
    decreases n,
{
    if n == 0 {
        0
    } else {
        crate::float_ops::result_of(add, summed(add, values, (n - 1) as nat), values[n - 1])
    }
}

fn sum_all<A: Fn(u32, u32) -> u32>(add: &A, values: &Vec<u32>) -> (sum: u32)
    requires
        crate::float_ops::is_operation(*add),
    ensures
        sum == summed(*add, values@, values@.len()),
{
    let mut sum: u32 = 0;
    let mut i: usize = 0;
    while i < values.len()
        invariant
            crate::float_ops::is_operation(*add),
            i <= values@.len(),
            sum == summed(*add, values@, i as nat),
        decreases values@.len() - i,
    {
        sum = operate(add, sum, values[i]);
        i = i + 1;
    }
    sum
}

/// The numbers without their signs.
fn magnitudes(values: &Vec<u32>) -> (sizes: Vec<u32>)
    ensures
        sizes@ == crate::rq_encode::unsigned_values(values@),
{
    let mut sizes: Vec<u32> = Vec::new();
    let mut i: usize = 0;
    while i < values.len()
        invariant
            i <= values@.len(),
            sizes@ == crate::rq_encode::unsigned_values(values@).take(i as int),
        decreases values@.len() - i,
    {
        sizes.push(crate::rq_encode::without_sign(values[i]));
        i = i + 1;
        assert(sizes@ =~= crate::rq_encode::unsigned_values(values@).take(i as int));
    }
    assert(sizes@ =~= crate::rq_encode::unsigned_values(values@));
    sizes
}

/// A rotated query with everything that scanning codes needs of it: its sum,
/// its tables, where the scale of the one-byte tables begins, the step of that
/// scale, and how far a sum of one-byte entries is off at most.
#[derive(Debug, Clone)]
pub struct RQQueryContext {
    pub rotated_query: Vec<u32>,
    pub sum: u32,
    pub byte_subset_sums: Vec<u32>,
    pub fastscan_lut: Vec<u8>,
    pub fastscan_offset: u32,
    pub fastscan_scale: u32,
    pub fastscan_ip_error: u32,
}

/// The function is defined on all numbers and always gives the same result.
pub open spec fn is_guard<B: Fn(u32, u32, usize, u32) -> u32>(guard_of: B) -> bool {
    &&& forall|offset: u32, scale: u32, groups: usize, magnitude: u32| #[trigger]
        call_requires(guard_of, (offset, scale, groups, magnitude))
    &&& forall|offset: u32, scale: u32, groups: usize, magnitude: u32, x: u32, y: u32| #[trigger]
        call_ensures(guard_of, (offset, scale, groups, magnitude), x) && #[trigger] call_ensures(
            guard_of,
            (offset, scale, groups, magnitude),
            y,
        ) ==> x == y
}

/// The context belongs to the query with these tables: the scale begins at the
/// sum of the least subset sums, and the error is that of all groups and a
/// guard for rounding.
pub open spec fn is_context<A: Fn(u32, u32) -> u32, B: Fn(u32, u32, usize, u32) -> u32>(
    add: A,
    guard_of: B,
    query: Seq<u32>,
    tables: QueryTables,
    context: RQQueryContext,
) -> bool {
    &&& context.rotated_query@ == query
    &&& context.sum == summed(add, query, query.len())
    &&& context.byte_subset_sums@ == tables.byte_subset_sums@
    &&& context.fastscan_lut@ == tables.fastscan_lut@
    &&& context.fastscan_offset == summed(add, tables.group_mins@, tables.group_mins@.len())
    &&& context.fastscan_scale == tables.fastscan_scale
    &&& exists|guard: u32| #[trigger]
        call_ensures(
            guard_of,
            (
                context.fastscan_offset,
                tables.fastscan_scale,
                tables.group_mins.len(),
                summed(add, crate::rq_encode::unsigned_values(query), query.len()),
            ),
            guard,
        ) && context.fastscan_ip_error == crate::float_ops::result_of(
            add,
            summed(add, tables.group_errors@, tables.group_errors@.len()),
            guard,
        )
}

impl RaBitQuantizer {
    /// Prepares a rotated query. `guard_of` allows for the rounding of sums of
    /// one-byte entries.
    pub fn prepare_query<
        A: Fn(u32, u32) -> u32,
        S: Fn(u32, u32) -> u32,
        U: Fn(u32) -> u32,
        Q: Fn(u32, u32, u32) -> u8,
        G: Fn(u32, u32, u32, u8) -> u32,
        B: Fn(u32, u32, usize, u32) -> u32,
    >(&self, rotated_query: Vec<u32>, kernel: &QueryKernel<A, S, U, Q, G>, guard_of: &B) -> (context:
        RQQueryContext)
        requires
            self.well_formed(),
            rotated_query@.len() == self.spec_padded(),
            rotated_query@.len() * 64 <= usize::MAX,
            is_kernel(*kernel),
            is_guard(*guard_of),
        ensures
            exists|tables: QueryTables| #[trigger]
                are_tables(*kernel, rotated_query@, tables) && is_context(
                    kernel.add,
                    *guard_of,
                    rotated_query@,
                    tables,
                    context,
                ),
            context.byte_subset_sums@.len() == self.spec_plane_size() * 256,
            context.fastscan_lut@.len() == self.spec_plane_size() * 32,
    {
        let tables = self.query_tables(rotated_query.as_slice(), kernel);
        let sum: u32 = sum_all(&kernel.add, &rotated_query);
        let offset: u32 = sum_all(&kernel.add, &tables.group_mins);
        let error: u32 = sum_all(&kernel.add, &tables.group_errors);
        let sizes = magnitudes(&rotated_query);
        let magnitude: u32 = sum_all(&kernel.add, &sizes);
        let groups: usize = tables.group_mins.len();
        let guard: u32 = guard_of(offset, tables.fastscan_scale, groups, magnitude);
        assert(call_ensures(
            *guard_of,
            (offset, tables.fastscan_scale, groups, magnitude),
            guard,
        ));
        let fastscan_ip_error: u32 = operate(&kernel.add, error, guard);
        let ghost made = tables;
        let context = RQQueryContext {
            rotated_query,
            sum,
            byte_subset_sums: tables.byte_subset_sums,
            fastscan_lut: tables.fastscan_lut,
            fastscan_offset: offset,
            fastscan_scale: tables.fastscan_scale,
            fastscan_ip_error,
        };
        proof {
            assert(are_tables(*kernel, rotated_query@, made));
            assert(is_context(kernel.add, *guard_of, rotated_query@, made, context));
        }
        context
    }

    /// The tables of a rotated query.
    pub fn query_tables<
        A: Fn(u32, u32) -> u32,
        S: Fn(u32, u32) -> u32,
        U: Fn(u32) -> u32,
        Q: Fn(u32, u32, u32) -> u8,
        G: Fn(u32, u32, u32, u8) -> u32,
    >(&self, rotated_query: &[u32], kernel: &QueryKernel<A, S, U, Q, G>) -> (tables: QueryTables)
        requires
            self.well_formed(),
            rotated_query@.len() == self.spec_padded(),
            rotated_query@.len() * 64 <= usize::MAX,
            is_kernel(*kernel),
        ensures
            are_tables(*kernel, rotated_query@, tables),
    {
        let total: usize = rotated_query.len();
        let groups: usize = total / 4;
        let byte_subset_sums = subset_sums(rotated_query, 8, &kernel.add);
        let sums = subset_sums(rotated_query, 4, &kernel.add);
        let mut group_mins: Vec<u32> = Vec::new();
        let mut range: u32 = 0;
        let mut group: usize = 0;
        while group < groups
            invariant
                group <= groups,
                groups == rotated_query@.len() / 4,
                rotated_query@.len() * 64 <= usize::MAX,
                is_kernel(*kernel),
                are_subset_sums(
                    kernel.add,
                    rotated_query@,
                    rotated_query@.len() as int / 4,
                    4,
                    16,
                    sums@,
                ),
                group_mins@ == Seq::new(
                    group as nat,
                    |g: int| group_min(kernel.add, rotated_query@, g),
                ),
                range == widest(kernel.add, kernel.subtract, rotated_query@, group as nat),
            decreases groups - group,
        {
            let (min, max) = group_extrema(&kernel.add, rotated_query, &sums, group);
            group_mins.push(min);
            range = float_max(range, operate(&kernel.subtract, max, min));
            group = group + 1;
            assert(group_mins@ =~= Seq::new(
                group as nat,
                |g: int| group_min(kernel.add, rotated_query@, g),
            ));
        }
        let step: u32 = apply(&kernel.step_of, range);
        let flat: bool = !float_is_nan(step) && !float_less(EPSILON, step);
        let mut fastscan_lut: Vec<u8> = Vec::new();
        let mut group_errors: Vec<u32> = Vec::new();
        let mut at: usize = 0;
        while at < groups
            invariant
                at <= groups,
                groups == rotated_query@.len() / 4,
                rotated_query@.len() * 64 <= usize::MAX,
                is_kernel(*kernel),
                flat == is_flat(step),
                are_subset_sums(
                    kernel.add,
                    rotated_query@,
                    rotated_query@.len() as int / 4,
                    4,
                    16,
                    sums@,
                ),
                group_mins@ == Seq::new(
                    groups as nat,
                    |g: int| group_min(kernel.add, rotated_query@, g),
                ),
                fastscan_lut@.len() == at * 16,
                forall|g: int, pattern: int|
                    #![trigger fastscan_lut@[g * 16 + pattern]]
                    0 <= g < at && 0 <= pattern < 16 ==> fastscan_lut@[g * 16 + pattern]
                        == table_byte(
                        kernel.byte_of,
                        group_sums(kernel.add, rotated_query@, g)[pattern],
                        group_min(kernel.add, rotated_query@, g),
                        step,
                    ),
                group_errors@ == Seq::new(
                    at as nat,
                    |g: int|
                        crate::sq::greatest(
                            0,
                            group_gaps(
                                kernel.byte_of,
                                kernel.gap_of,
                                group_sums(kernel.add, rotated_query@, g),
                                group_min(kernel.add, rotated_query@, g),
                                step,
                            ),
                            16,
                        ),
                ),
            decreases groups - at,
        {
            let ghost before = fastscan_lut@;
            let ghost mine = group_sums(kernel.add, rotated_query@, at as int);
            let min: u32 = group_mins[at];
            let ghost gaps = group_gaps(kernel.byte_of, kernel.gap_of, mine, min, step);
            let mut error: u32 = 0;
            let start: usize = at * 16;
            let mut pattern: usize = 0;
            while pattern < 16
                invariant
                    pattern <= 16,
                    at < groups,
                    groups == rotated_query@.len() / 4,
                    start == at * 16,
                    start + 16 <= sums@.len(),
                    is_kernel(*kernel),
                    flat == is_flat(step),
                    are_subset_sums(
                        kernel.add,
                        rotated_query@,
                        rotated_query@.len() as int / 4,
                        4,
                        16,
                        sums@,
                    ),
                    mine == group_sums(kernel.add, rotated_query@, at as int),
                    gaps == group_gaps(kernel.byte_of, kernel.gap_of, mine, min, step),
                    before.len() == start,
                    fastscan_lut@.len() == start + pattern,
                    forall|i: int| 0 <= i < start ==> fastscan_lut@[i] == before[i],
                    forall|p: int|
                        0 <= p < pattern ==> #[trigger] fastscan_lut@[start + p] == table_byte(
                            kernel.byte_of,
                            mine[p],
                            min,
                            step,
                        ),
                    error == crate::sq::greatest(0, gaps, pattern as nat),
                decreases 16 - pattern,
            {
                let exact: u32 = sums[start + pattern];
                let ghost key = pattern as u32;
                proof {
                    assert(sums@[at * 16 + key] == subset_sum(
                        kernel.add,
                        rotated_query@,
                        at * 4,
                        4,
                        key,
                        0,
                    ));
                    assert(exact == mine[pattern as int]);
                }
                let byte: u8 = if flat {
                    0
                } else {
                    (kernel.byte_of)(exact, min, step)
                };
                assert(byte == table_byte(kernel.byte_of, exact, min, step));
                let gap: u32 = (kernel.gap_of)(exact, min, step, byte);
                assert(call_ensures(kernel.gap_of, (exact, min, step, byte), gap));
                assert(gap == gaps[pattern as int]);
                fastscan_lut.push(byte);
                error = float_max(error, gap);
                pattern = pattern + 1;
            }
            group_errors.push(error);
            proof {
                assert forall|g: int, p: int|
                    #![trigger fastscan_lut@[g * 16 + p]]
                    0 <= g < at + 1 && 0 <= p < 16 implies fastscan_lut@[g * 16 + p] == table_byte(
                    kernel.byte_of,
                    group_sums(kernel.add, rotated_query@, g)[p],
                    group_min(kernel.add, rotated_query@, g),
                    step,
                ) by {
                    if g < at {
                        assert(fastscan_lut@[g * 16 + p] == before[g * 16 + p]);
                    } else {
                        assert(fastscan_lut@[start + p] == table_byte(
                            kernel.byte_of,
                            mine[p],
                            min,
                            step,
                        ));
                    }
                }
                assert(group_errors@ =~= Seq::new(
                    (at + 1) as nat,
                    |g: int|
                        crate::sq::greatest(
                            0,
                            group_gaps(
                                kernel.byte_of,
                                kernel.gap_of,
                                group_sums(kernel.add, rotated_query@, g),
                                group_min(kernel.add, rotated_query@, g),
                                step,
                            ),
                            16,
                        ),
                ));
            }
            at = at + 1;
        }
        QueryTables { byte_subset_sums, fastscan_lut, fastscan_scale: step, group_mins, group_errors }
    }
}

} // verus!
