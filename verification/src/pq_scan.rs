//! Distances of the codes of a list, by looking up tables of partial
//! distances. Codes are stored by columns: the codes of all rows for the
//! first chunk, then those for the second, and so on.
use crate::float_ops::operate;
use crate::matching::{should_scan_sparse, MatchingRows};
use crate::order::{float_max, float_min, INFINITE_DISTANCE};
use crate::table_reuse::{quantized_column_sums, TRANSPOSED_SPARSE_SCAN_DIVISOR};
use vstd::prelude::*;

verus! {

/// Packed codes of this many leading rows are measured without quantizing
/// the table.
pub const FLAT_NUM: usize = 200;

/// The least finite number.
pub const MIN_DISTANCE: u32 = 0xFF7F_FFFF;

/// How the codes of a list are scanned.
#[derive(Debug, Clone, Copy, PartialEq, Eq, Structural)]
pub enum CodeLayout {
    Rows,
    Columns,
    PackedRows,
    PackedColumns,
}

/// The layout of codes of `nbits` bits.
pub fn code_layout(nbits: usize, transposed: bool) -> (layout: CodeLayout)
    ensures
        layout == (if nbits == 4 && transposed {
            CodeLayout::PackedColumns
        } else if nbits == 4 {
            CodeLayout::PackedRows
        } else if transposed {
            CodeLayout::Columns
        } else {
            CodeLayout::Rows
        }),
{
    if nbits == 4 {
        if transposed {
            CodeLayout::PackedColumns
        } else {
            CodeLayout::PackedRows
        }
    } else if transposed {
        CodeLayout::Columns
    } else {
        CodeLayout::Rows
    }
}

/// The table holds `ksub` entries for each of `m` chunks, and the codes name
/// them for `count` rows.
pub open spec fn codes_fit(
    table: Seq<u32>,
    codes: Seq<u8>,
    count: nat,
    m: nat,
    ksub: nat,
) -> bool {
    &&& m * ksub <= table.len()
    &&& m * count <= codes.len()
    &&& forall|i: int| 0 <= i < m * count ==> (#[trigger] codes[i]) < ksub
}

/// `base` and the entries of a row's first `chunks` codes, summed in turn.
pub open spec fn column_distance<A: Fn(u32, u32) -> u32>(
    add: A,
    table: Seq<u32>,
    codes: Seq<u8>,
    count: int,
    ksub: int,
    base: u32,
    row: int,
    chunks: nat,
) -> u32
    decreases chunks,
{
    if chunks == 0 {
        base
    } else {
        let sub = chunks - 1;
        crate::float_ops::result_of(
            add,
            column_distance(add, table, codes, count, ksub, base, row, sub as nat),
            table[sub * ksub + codes[sub * count + row]],
        )
    }
}

/// The row is scanned.
pub open spec fn is_visited(rows: Option<&MatchingRows>, row: int) -> bool {
    match rows {
        Some(found) => found.holds(row),
        None => true,
    }
}

/// The code of a chunk names an entry of its table.
proof fn lemma_entry(table: Seq<u32>, codes: Seq<u8>, count: nat, m: nat, ksub: nat, row: int, sub: int)
    requires
        codes_fit(table, codes, count, m, ksub),
        0 <= row < count,
        0 <= sub < m,
    ensures
        0 <= sub * count + row < m * count,
        sub * count + row < codes.len(),
        codes[sub * count + row] < ksub,
        0 <= sub * ksub + codes[sub * count + row] < table.len(),
        sub * ksub + ksub <= m * ksub,
        0 <= sub * count,
        0 <= sub * ksub,
{
    assert(sub * count + count <= m * count && 0 <= sub * count) by (nonlinear_arith)
        requires
            0 <= sub < m,
    ;
    assert(sub * ksub + ksub <= m * ksub && 0 <= sub * ksub) by (nonlinear_arith)
        requires
            0 <= sub < m,
    ;
}

/// The distance of one row.
fn row_distance<A: Fn(u32, u32) -> u32>(
    table: &[u32],
    codes: &[u8],
    count: usize,
    m: usize,
    ksub: usize,
    base: u32,
    row: usize,
    add: &A,
) -> (distance: u32)
    requires
        crate::float_ops::is_operation(*add),
        codes_fit(table@, codes@, count as nat, m as nat, ksub as nat),
        row < count,
    ensures
        distance == column_distance(
            *add,
            table@,
            codes@,
            count as int,
            ksub as int,
            base,
            row as int,
            m as nat,
        ),
{
    let table_len: usize = table.len();
    let codes_len: usize = codes.len();
    let mut distance: u32 = base;
    let mut sub: usize = 0;
    while sub < m
        invariant
            crate::float_ops::is_operation(*add),
            codes_fit(table@, codes@, count as nat, m as nat, ksub as nat),
            table_len == table@.len(),
            codes_len == codes@.len(),
            row < count,
            sub <= m,
            distance == column_distance(
                *add,
                table@,
                codes@,
                count as int,
                ksub as int,
                base,
                row as int,
                sub as nat,
            ),
        decreases m - sub,
    {
        proof {
            lemma_entry(table@, codes@, count as nat, m as nat, ksub as nat, row as int, sub as int);
        }
        let code: usize = codes[sub * count + row] as usize;
        distance = operate(add, distance, table[sub * ksub + code]);
        sub = sub + 1;
    }
    distance
}

/// The distances of all rows, one column of codes after the other.
fn column_sums<A: Fn(u32, u32) -> u32>(
    table: &[u32],
    codes: &[u8],
    count: usize,
    m: usize,
    ksub: usize,
    base: u32,
    add: &A,
) -> (distances: Vec<u32>)
    requires
        crate::float_ops::is_operation(*add),
        codes_fit(table@, codes@, count as nat, m as nat, ksub as nat),
    ensures
        distances@.len() == count,
        forall|row: int|
            0 <= row < count ==> #[trigger] distances@[row] == column_distance(
                *add,
                table@,
                codes@,
                count as int,
                ksub as int,
                base,
                row,
                m as nat,
            ),
{
    let table_len: usize = table.len();
    let codes_len: usize = codes.len();
    let mut distances: Vec<u32> = vec![base; count];
    let mut sub: usize = 0;
    while sub < m
        invariant
            crate::float_ops::is_operation(*add),
            codes_fit(table@, codes@, count as nat, m as nat, ksub as nat),
            table_len == table@.len(),
            codes_len == codes@.len(),
            sub <= m,
            distances@.len() == count,
            forall|row: int|
                0 <= row < count ==> #[trigger] distances@[row] == column_distance(
                    *add,
                    table@,
                    codes@,
                    count as int,
                    ksub as int,
                    base,
                    row,
                    sub as nat,
                ),
        decreases m - sub,
    {
        let mut row: usize = 0;
        while row < count
            invariant
                crate::float_ops::is_operation(*add),
                codes_fit(table@, codes@, count as nat, m as nat, ksub as nat),
                table_len == table@.len(),
                codes_len == codes@.len(),
                sub < m,
                row <= count,
                distances@.len() == count,
                forall|r: int|
                    0 <= r < count ==> #[trigger] distances@[r] == column_distance(
                        *add,
                        table@,
                        codes@,
                        count as int,
                        ksub as int,
                        base,
                        r,
                        if r < row {
                            (sub + 1) as nat
                        } else {
                            sub as nat
                        },
                    ),
            decreases count - row,
        {
            proof {
                lemma_entry(
                    table@,
                    codes@,
                    count as nat,
                    m as nat,
                    ksub as nat,
                    row as int,
                    sub as int,
                );
            }
            let code: usize = codes[sub * count + row] as usize;
            let sum: u32 = operate(add, distances[row], table[sub * ksub + code]);
            distances.set(row, sum);
            row = row + 1;
        }
        sub = sub + 1;
    }
    distances
}

/// The distances of the scanned rows of a list whose codes are stored by
/// columns. Few rows are measured one by one, many together; rows that are
/// not scanned have no particular distance.
pub fn transposed_distances<A: Fn(u32, u32) -> u32>(
    table: &[u32],
    codes: &[u8],
    count: usize,
    m: usize,
    ksub: usize,
    base: u32,
    rows: Option<&MatchingRows>,
    add: &A,
) -> (distances: Vec<u32>)
    requires
        crate::float_ops::is_operation(*add),
        codes_fit(table@, codes@, count as nat, m as nat, ksub as nat),
        rows matches Some(found) ==> found.well_formed(count as nat),
    ensures
        distances@.len() == count,
        forall|row: int|
            0 <= row < count && is_visited(rows, row) ==> #[trigger] distances@[row]
                == column_distance(
                *add,
                table@,
                codes@,
                count as int,
                ksub as int,
                base,
                row,
                m as nat,
            ),
{
    match rows {
        Some(found) if should_scan_sparse(count, found, TRANSPOSED_SPARSE_SCAN_DIVISOR) => {
            let positions = found.positions(count);
            proof {
                crate::matching::lemma_picked(|p: int| found.holds(p), count as nat);
            }
            let mut distances: Vec<u32> = vec![base; count];
            let mut i: usize = 0;
            while i < positions.len()
                invariant
                    crate::float_ops::is_operation(*add),
                    codes_fit(table@, codes@, count as nat, m as nat, ksub as nat),
                    i <= positions@.len(),
                    distances@.len() == count,
                    forall|j: int| 0 <= j < positions@.len() ==> #[trigger] positions@[j] < count,
                    forall|j: int|
                        0 <= j < i ==> distances@[#[trigger] positions@[j] as int]
                            == column_distance(
                            *add,
                            table@,
                            codes@,
                            count as int,
                            ksub as int,
                            base,
                            positions@[j] as int,
                            m as nat,
                        ),
                decreases positions@.len() - i,
            {
                let row: usize = positions[i];
                let distance: u32 = row_distance(table, codes, count, m, ksub, base, row, add);
                distances.set(row, distance);
                i = i + 1;
            }
            proof {
                assert forall|row: int| 0 <= row < count && found.holds(row) implies
                    #[trigger] distances@[row] == column_distance(
                    *add,
                    table@,
                    codes@,
                    count as int,
                    ksub as int,
                    base,
                    row,
                    m as nat,
                ) by {
                    assert((|p: int| found.holds(p))(row));
                    assert(positions@.contains(row as usize));
                }
            }
            distances
        },
        _ => column_sums(table, codes, count, m, ksub, base, add),
    }
}

/// The arithmetic of scanning packed codes: adding, the level of a table
/// entry between the least and the greatest value, and the distance that a
/// sum of levels stands for.
pub struct PackedKernel<A, L, R> {
    pub add: A,
    pub level_of: L,
    pub distance_of: R,
}

pub open spec fn is_packed_kernel<
    A: Fn(u32, u32) -> u32,
    L: Fn(u32, u32, u32) -> u8,
    R: Fn(u16, u32, u32) -> u32,
>(kernel: PackedKernel<A, L, R>) -> bool {
    &&& crate::float_ops::is_operation(kernel.add)
    &&& forall|value: u32, min: u32, max: u32| #[trigger]
        call_requires(kernel.level_of, (value, min, max))
    &&& forall|value: u32, min: u32, max: u32, x: u8, y: u8| #[trigger]
        call_ensures(kernel.level_of, (value, min, max), x) && #[trigger] call_ensures(
            kernel.level_of,
            (value, min, max),
            y,
        ) ==> x == y
    &&& forall|sum: u16, min: u32, max: u32| #[trigger]
        call_requires(kernel.distance_of, (sum, min, max))
    &&& forall|sum: u16, min: u32, max: u32, x: u32, y: u32| #[trigger]
        call_ensures(kernel.distance_of, (sum, min, max), x) && #[trigger] call_ensures(
            kernel.distance_of,
            (sum, min, max),
            y,
        ) ==> x == y
}

/// The entries of a row's first `pairs` bytes, summed in turn from zero. A
/// byte holds the code of an even chunk below that of the next chunk.
pub open spec fn packed_distance<A: Fn(u32, u32) -> u32>(
    add: A,
    table: Seq<u32>,
    codes: Seq<u8>,
    count: int,
    row: int,
    pairs: nat,
) -> u32
    decreases pairs,
{
    if pairs == 0 {
        0
    } else {
        let pair = pairs - 1;
        let byte = codes[pair * count + row] as int;
        crate::float_ops::result_of(
            add,
            crate::float_ops::result_of(
                add,
                packed_distance(add, table, codes, count, row, pair as nat),
                table[pair * 32 + byte % 16],
            ),
            table[pair * 32 + 16 + byte / 16],
        )
    }
}

/// The exact distances of the leading rows.
pub open spec fn flat_distances<A: Fn(u32, u32) -> u32>(
    add: A,
    table: Seq<u32>,
    codes: Seq<u8>,
    count: int,
    pairs: nat,
) -> Seq<u32> {
    Seq::new(
        if count < FLAT_NUM {
            count as nat
        } else {
            FLAT_NUM as nat
        },
        |row: int| packed_distance(add, table, codes, count, row, pairs),
    )
}

/// The table with each entry replaced by its level.
pub open spec fn levels<L: Fn(u32, u32, u32) -> u8>(
    level_of: L,
    table: Seq<u32>,
    min: u32,
    max: u32,
) -> Seq<u8> {
    Seq::new(table.len(), |i: int| choose|x: u8| call_ensures(level_of, (table[i], min, max), x))
}

/// The distance of a row: exact for the leading rows, for the others what
/// the sum of its levels between the least table entry and the greatest
/// exact distance stands for.
pub open spec fn quantized_distance<
    A: Fn(u32, u32) -> u32,
    L: Fn(u32, u32, u32) -> u8,
    R: Fn(u16, u32, u32) -> u32,
>(
    kernel: PackedKernel<A, L, R>,
    table: Seq<u32>,
    codes: Seq<u8>,
    count: int,
    pairs: nat,
    row: int,
) -> u32 {
    if row < FLAT_NUM {
        packed_distance(kernel.add, table, codes, count, row, pairs)
    } else {
        let flat = flat_distances(kernel.add, table, codes, count, pairs);
        let min = crate::sq::least(INFINITE_DISTANCE, table, table.len());
        let max = crate::sq::greatest(MIN_DISTANCE, flat, flat.len());
        let sum = crate::table_reuse::pair_sum(
            levels(kernel.level_of, table, min, max),
            codes,
            count,
            row,
            pairs,
        ) as u16;
        choose|x: u32| call_ensures(kernel.distance_of, (sum, min, max), x)
    }
}

fn packed_row_distance<A: Fn(u32, u32) -> u32>(
    table: &[u32],
    codes: &[u8],
    count: usize,
    pairs: usize,
    row: usize,
    add: &A,
) -> (distance: u32)
    requires
        crate::float_ops::is_operation(*add),
        pairs * 32 <= table@.len(),
        pairs * count <= codes@.len(),
        row < count,
    ensures
        distance == packed_distance(
            *add,
            table@,
            codes@,
            count as int,
            row as int,
            pairs as nat,
        ),
{
    let table_len: usize = table.len();
    let codes_len: usize = codes.len();
    let mut distance: u32 = 0;
    let mut pair: usize = 0;
    while pair < pairs
        invariant
            crate::float_ops::is_operation(*add),
            pairs * 32 <= table@.len(),
            pairs * count <= codes@.len(),
            table_len == table@.len(),
            codes_len == codes@.len(),
            row < count,
            pair <= pairs,
            distance == packed_distance(
                *add,
                table@,
                codes@,
                count as int,
                row as int,
                pair as nat,
            ),
        decreases pairs - pair,
    {
        assert(pair * count + count <= pairs * count && 0 <= pair * count) by (nonlinear_arith)
            requires
                pair < pairs,
        ;
        let byte: usize = codes[pair * count + row] as usize;
        let low: u32 = operate(add, distance, table[pair * 32 + byte % 16]);
        distance = operate(add, low, table[pair * 32 + 16 + byte / 16]);
        pair = pair + 1;
    }
    distance
}

/// The least table entry.
fn least_entry(table: &[u32]) -> (min: u32)
    ensures
        min == crate::sq::least(INFINITE_DISTANCE, table@, table@.len()),
{
    let mut min: u32 = INFINITE_DISTANCE;
    let mut i: usize = 0;
    while i < table.len()
        invariant
            i <= table@.len(),
            min == crate::sq::least(INFINITE_DISTANCE, table@, i as nat),
        decreases table@.len() - i,
    {
        min = float_min(min, table[i]);
        i = i + 1;
    }
    min
}

/// The distances of the rows of a list whose four-bit codes are packed in
/// pairs and stored by columns, each added to `base`.
pub fn packed_distances<
    A: Fn(u32, u32) -> u32,
    L: Fn(u32, u32, u32) -> u8,
    R: Fn(u16, u32, u32) -> u32,
>(
    table: &[u32],
    codes: &[u8],
    count: usize,
    m: usize,
    base: u32,
    kernel: &PackedKernel<A, L, R>,
) -> (distances: Vec<u32>)
    requires
        is_packed_kernel(*kernel),
        m % 2 == 0,
        m * 255 <= u16::MAX,
        m * 16 <= table@.len(),
        (m / 2) * count <= codes@.len(),
    ensures
        distances@.len() == count,
        forall|row: int|
            0 <= row < count ==> #[trigger] distances@[row] == crate::float_ops::result_of(
                kernel.add,
                base,
                quantized_distance(
                    *kernel,
                    table@,
                    codes@,
                    count as int,
                    (m / 2) as nat,
                    row,
                ),
            ),
{
    let pairs: usize = m / 2;
    let flat_end: usize = if count < FLAT_NUM {
        count
    } else {
        FLAT_NUM
    };
    let ghost flat = flat_distances(kernel.add, table@, codes@, count as int, pairs as nat);
    let mut distances: Vec<u32> = Vec::new();
    let mut max: u32 = MIN_DISTANCE;
    let mut row: usize = 0;
    while row < flat_end
        invariant
            is_packed_kernel(*kernel),
            pairs * 32 <= table@.len(),
            pairs * count <= codes@.len(),
            flat_end <= count,
            flat_end <= FLAT_NUM,
            flat == flat_distances(kernel.add, table@, codes@, count as int, pairs as nat),
            flat.len() == flat_end,
            row <= flat_end,
            distances@.len() == row,
            max == crate::sq::greatest(MIN_DISTANCE, flat, row as nat),
            forall|r: int|
                0 <= r < row ==> #[trigger] distances@[r] == crate::float_ops::result_of(
                    kernel.add,
                    base,
                    quantized_distance(
                        *kernel,
                        table@,
                        codes@,
                        count as int,
                        pairs as nat,
                        r,
                    ),
                ),
        decreases flat_end - row,
    {
        let distance: u32 = packed_row_distance(table, codes, count, pairs, row, &kernel.add);
        assert(distance == flat[row as int]);
        max = float_max(max, distance);
        distances.push(operate(&kernel.add, base, distance));
        row = row + 1;
    }
    if count > FLAT_NUM {
        let min: u32 = least_entry(table);
        let mut quantized: Vec<u8> = Vec::new();
        let mut i: usize = 0;
        while i < table.len()
            invariant
                is_packed_kernel(*kernel),
                i <= table@.len(),
                quantized@.len() == i,
                forall|j: int|
                    0 <= j < i ==> #[trigger] quantized@[j] == levels(
                        kernel.level_of,
                        table@,
                        min,
                        max,
                    )[j],
            decreases table@.len() - i,
        {
            let level: u8 = (kernel.level_of)(table[i], min, max);
            assert(call_ensures(kernel.level_of, (table@[i as int], min, max), level));
            quantized.push(level);
            i = i + 1;
        }
        assert(quantized@ =~= levels(kernel.level_of, table@, min, max));
        let sums = quantized_column_sums(quantized.as_slice(), codes, count, flat_end, pairs);
        let mut r: usize = flat_end;
        while r < count
            invariant
                is_packed_kernel(*kernel),
                flat_end == FLAT_NUM,
                flat_end <= r <= count,
                flat == flat_distances(kernel.add, table@, codes@, count as int, pairs as nat),
                flat.len() == flat_end,
                max == crate::sq::greatest(MIN_DISTANCE, flat, flat.len()),
                min == crate::sq::least(INFINITE_DISTANCE, table@, table@.len()),
                quantized@ == levels(kernel.level_of, table@, min, max),
                sums@.len() == count - flat_end,
                forall|i: int|
                    0 <= i < sums@.len() ==> #[trigger] sums@[i] == crate::table_reuse::pair_sum(
                        quantized@,
                        codes@,
                        count as int,
                        flat_end + i,
                        pairs as nat,
                    ),
                distances@.len() == r,
                forall|i: int|
                    0 <= i < r ==> #[trigger] distances@[i] == crate::float_ops::result_of(
                        kernel.add,
                        base,
                        quantized_distance(
                            *kernel,
                            table@,
                            codes@,
                            count as int,
                            pairs as nat,
                            i,
                        ),
                    ),
            decreases count - r,
        {
            let sum: u16 = sums[r - flat_end];
            let distance: u32 = (kernel.distance_of)(sum, min, max);
            proof {
                assert(sums@[r - flat_end] == sum);
                assert(call_ensures(kernel.distance_of, (sum, min, max), distance));
                assert(distance == quantized_distance(
                    *kernel,
                    table@,
                    codes@,
                    count as int,
                    pairs as nat,
                    r as int,
                ));
            }
            distances.push(operate(&kernel.add, base, distance));
            r = r + 1;
        }
    }
    distances
}

} // verus!
