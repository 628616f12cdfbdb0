//! Whether and how wide a projection of the centroids is built.
use crate::arith::{
    larger, quotient_up, saturating_product, saturating_rest, saturating_total, smaller,
};
use crate::kmeans_plan::assignment_block_plan;
use vstd::prelude::*;

verus! {

/// Automatic mode tries widths up to this fraction of the dimension.
pub const MAX_AUTO_DP_DIVISOR: usize = 3;

/// Fewer calibration rows count as none.
pub const MIN_CALIBRATION_ROWS: usize = 256;

/// The smallest width, and the unit of widths.
pub const MIN_DP: usize = 8;

/// Most rows of a block.
pub const MAX_BLOCK_ROWS: usize = 1024;

/// Most bytes that automatic fitting may take.
pub const MAX_AUTO_PCA_BYTES: u128 = 268_435_456;

/// Most operations that automatic fitting may take.
pub const MAX_AUTO_PCA_FLOPS: u128 = 100_000_000_000;

/// How the nearest centroid of a row is found when rows are added. All ways
/// give the same result.
#[derive(Debug, Clone, Copy, PartialEq, Eq, Structural)]
pub enum ProjectedAssignment {
    /// By projection where it was measured to pay off.
    Auto,
    /// By projection.
    Enabled,
    /// By a scan of all centroids.
    Disabled,
}

impl Default for ProjectedAssignment {
    fn default() -> (mode: Self)
        ensures
            mode == ProjectedAssignment::Auto,
    {
        ProjectedAssignment::Auto
    }
}

/// Scratch of a worker for all centroids: a bound, and a candidate of bound and
/// index.
pub open spec fn bound_scratch(nlist: int) -> int {
    crate::arith::sat_mul(
        nlist,
        crate::arith::ceil_div(
            crate::arith::sat_add(8, vstd::layout::size_of::<(u64, u32)>() as int),
            4,
        ),
    )
}

/// Elements of a row while it is projected.
pub open spec fn projection_row(d: int, dp: int) -> int {
    crate::arith::sat_add(
        crate::arith::sat_add(crate::arith::sat_mul(d, 2), crate::arith::sat_mul(dp, 3)),
        2,
    )
}

/// Elements of a row while it is scored, besides its scores: those of the
/// larger of the two phases, which do not overlap.
pub open spec fn phase_scratch(d: int, dp: int, nlist: int) -> int {
    let scores = crate::kmeans_plan::max_of(nlist, 1);
    let scored = crate::arith::sat_add(crate::arith::sat_add(scores, dp), 2);
    crate::arith::sat_sub(crate::kmeans_plan::max_of(projection_row(d, dp), scored), scores)
}

/// Rows of a block of a projected assignment, and whether blocks run in
/// parallel.
pub fn projected_assignment_block_plan(
    n: usize,
    d: usize,
    dp: usize,
    nlist: usize,
    threads: usize,
) -> (plan: (usize, bool))
    ensures
        ({
            let (rows, parallel) = crate::kmeans_plan::block_plan(
                n as int,
                dp as int,
                nlist as int,
                threads as int,
                bound_scratch(nlist as int),
                phase_scratch(d as int, dp as int, nlist as int),
            );
            &&& plan.0 == crate::kmeans_plan::min_of(rows, MAX_BLOCK_ROWS as int)
            &&& plan.1 == parallel
        }),
        plan.0 > 0,
{
    let elems: usize = quotient_up(saturating_total(8, std::mem::size_of::<(u64, u32)>()), 4);
    let fixed: usize = saturating_product(nlist, elems);
    let projected: usize = saturating_total(
        saturating_total(saturating_product(d, 2), saturating_product(dp, 3)),
        2,
    );
    let scores: usize = larger(nlist, 1);
    let scored: usize = saturating_total(saturating_total(scores, dp), 2);
    let per_row: usize = saturating_rest(larger(projected, scored), scores);
    let (rows, parallel): (usize, bool) = assignment_block_plan(
        n,
        dp,
        nlist,
        threads,
        fixed,
        per_row,
    );
    (smaller(rows, MAX_BLOCK_ROWS), parallel)
}

/// Bytes that fitting a projection takes.
pub open spec fn fit_bytes(n: int, d: int, block: int) -> int {
    n * d * 12 + block * d * 16 + block * n * 8 + block * block * 20
}

/// Operations that fitting a projection takes.
pub open spec fn fit_flops(n: int, d: int, block: int) -> int {
    n * d * block * 34 + block * block * d * 20 + n * block * block * 2
}

/// The number, or the largest `u128` if it does not fit.
spec fn capped(x: int) -> int {
    if x <= u128::MAX {
        x
    } else {
        u128::MAX as int
    }
}

/// The product of a capped number and another.
fn capped_product(a: u128, b: u128, exact: Ghost<int>) -> (product: u128)
    requires
        exact@ >= 0,
        a == capped(exact@),
    ensures
        product == capped(exact@ * b),
{
    let product: u128 = match a.checked_mul(b) {
        Some(product) => product,
        None => u128::MAX,
    };
    proof {
        let x = exact@;
        assert(x * b >= 0) by (nonlinear_arith)
            requires
                x >= 0,
        ;
        if x > u128::MAX {
            if b == 0 {
                assert(x * b == 0 && a * b == 0) by (nonlinear_arith)
                    requires
                        b == 0,
                ;
            } else {
                assert(x * b >= x) by (nonlinear_arith)
                    requires
                        x >= 0,
                        b >= 1,
                ;
                assert(a * b >= a) by (nonlinear_arith)
                    requires
                        a >= 0,
                        b >= 1,
                ;
            }
        }
    }
    product
}

/// The sum of two capped numbers.
fn capped_sum(a: u128, b: u128, exact_a: Ghost<int>, exact_b: Ghost<int>) -> (sum: u128)
    requires
        exact_a@ >= 0,
        exact_b@ >= 0,
        a == capped(exact_a@),
        b == capped(exact_b@),
    ensures
        sum == capped(exact_a@ + exact_b@),
{
    match a.checked_add(b) {
        Some(sum) => sum,
        None => u128::MAX,
    }
}

/// Fitting a projection automatically stays within the limits of memory and
/// operations.
pub fn auto_pca_within_budget(n: usize, d: usize, block: usize) -> (fits: bool)
    ensures
        fits == (fit_bytes(n as int, d as int, block as int) <= MAX_AUTO_PCA_BYTES && fit_flops(
            n as int,
            d as int,
            block as int,
        ) <= MAX_AUTO_PCA_FLOPS),
{
    let (rows, width, size): (u128, u128, u128) = (n as u128, d as u128, block as u128);
    let ghost (gn, gd, gb) = (n as int, d as int, block as int);
    proof {
        lemma_products_are_positive(gn, gd, gb);
    }
    let nd: u128 = capped_product(rows, width, Ghost(gn));
    let bd: u128 = capped_product(size, width, Ghost(gb));
    let bn: u128 = capped_product(size, rows, Ghost(gb));
    let bb: u128 = capped_product(size, size, Ghost(gb));
    let b1: u128 = capped_product(nd, 12, Ghost(gn * gd));
    let b2: u128 = capped_product(bd, 16, Ghost(gb * gd));
    let b3: u128 = capped_product(bn, 8, Ghost(gb * gn));
    let b4: u128 = capped_product(bb, 20, Ghost(gb * gb));
    let s1: u128 = capped_sum(b1, b2, Ghost(gn * gd * 12), Ghost(gb * gd * 16));
    let s2: u128 = capped_sum(
        s1,
        b3,
        Ghost(gn * gd * 12 + gb * gd * 16),
        Ghost(gb * gn * 8),
    );
    let bytes: u128 = capped_sum(
        s2,
        b4,
        Ghost(gn * gd * 12 + gb * gd * 16 + gb * gn * 8),
        Ghost(gb * gb * 20),
    );
    let ndb: u128 = capped_product(nd, size, Ghost(gn * gd));
    let f1: u128 = capped_product(ndb, 34, Ghost(gn * gd * gb));
    let bbd: u128 = capped_product(bb, width, Ghost(gb * gb));
    let f2: u128 = capped_product(bbd, 20, Ghost(gb * gb * gd));
    let nb: u128 = capped_product(rows, size, Ghost(gn));
    let nbb: u128 = capped_product(nb, size, Ghost(gn * gb));
    let f3: u128 = capped_product(nbb, 2, Ghost(gn * gb * gb));
    let t1: u128 = capped_sum(f1, f2, Ghost(gn * gd * gb * 34), Ghost(gb * gb * gd * 20));
    let flops: u128 = capped_sum(
        t1,
        f3,
        Ghost(gn * gd * gb * 34 + gb * gb * gd * 20),
        Ghost(gn * gb * gb * 2),
    );
    bytes <= MAX_AUTO_PCA_BYTES && flops <= MAX_AUTO_PCA_FLOPS
}

proof fn lemma_products_are_positive(n: int, d: int, b: int)
    requires
        0 <= n,
        0 <= d,
        0 <= b,
    ensures
        0 <= n * d,
        0 <= b * d,
        0 <= b * n,
        0 <= b * b,
        0 <= n * b,
        0 <= n * d * b,
        0 <= b * b * d,
        0 <= n * b * b,
{
    assert(0 <= n * d && 0 <= b * d && 0 <= b * n && 0 <= b * b && 0 <= n * b) by (nonlinear_arith)
        requires
            0 <= n,
            0 <= d,
            0 <= b,
    ;
    let (x, y, z) = (n * d, b * b, n * b);
    assert(0 <= x * b && 0 <= y * d && 0 <= z * b) by (nonlinear_arith)
        requires
            0 <= x,
            0 <= y,
            0 <= z,
            0 <= d,
            0 <= b,
    ;
}

/// The widest projection that may be tried; none where it cannot pay off.
/// Forced mode goes up to half of the coordinates, but not beyond the number of
/// centroids: a single coordinate has no half. Automatic mode needs a calibration sample, a width of at least one unit,
/// twice as many centroids as that, and a fit within budget.
pub open spec fn widest_projection(nlist: int, d: int, force: bool, calibration: int) -> Option<int> {
    let auto = d / (MAX_AUTO_DP_DIVISOR as int) / (MIN_DP as int) * MIN_DP;
    let wanted = if force {
        d / 2
    } else {
        auto
    };
    let block = crate::kmeans_plan::min_of(wanted, nlist);
    if block == 0 {
        None
    } else if force {
        Some(block)
    } else if calibration < MIN_CALIBRATION_ROWS || auto < MIN_DP || nlist < 2 * auto {
        None
    } else if fit_bytes(nlist, d, block) <= MAX_AUTO_PCA_BYTES && fit_flops(nlist, d, block)
        <= MAX_AUTO_PCA_FLOPS {
        Some(block)
    } else {
        None
    }
}

pub fn projection_block(nlist: usize, d: usize, force: bool, calibration_rows: usize) -> (block:
    Option<usize>)
    ensures
        match block {
            Some(block) => widest_projection(
                nlist as int,
                d as int,
                force,
                calibration_rows as int,
            ) == Some(block as int),
            None => widest_projection(
                nlist as int,
                d as int,
                force,
                calibration_rows as int,
            ) is None,
        },
{
    if nlist == 0 || d == 0 {
        return None;
    }
    if force {
        let block: usize = smaller(d / 2, nlist);
        if block == 0 {
            return None;
        }
        return Some(block);
    }
    if calibration_rows < MIN_CALIBRATION_ROWS {
        return None;
    }
    let auto: usize = d / MAX_AUTO_DP_DIVISOR / MIN_DP * MIN_DP;
    if auto < MIN_DP || nlist / 2 < auto {
        return None;
    }
    let block: usize = smaller(auto, nlist);
    if !auto_pca_within_budget(nlist, d, block) {
        return None;
    }
    Some(block)
}

/// The calibration rows that there really are.
pub fn usable_calibration(calibration_rows: usize, values: usize, d: usize) -> (rows: usize)
    requires
        d > 0,
    ensures
        rows == crate::kmeans_plan::min_of(calibration_rows as int, values as int / d as int),
{
    smaller(calibration_rows, values / d)
}

/// A width rounded up to a unit.
pub open spec fn rounded(width: int) -> int {
    crate::arith::ceil_div(width, MIN_DP as int) * MIN_DP
}

/// A width that is tried: an eighth, a quarter, a half or three quarters of the
/// widest, rounded up, or the widest itself, if it is at least one unit and not
/// wider than the widest. Forced mode tries the widest in any case.
pub open spec fn is_width(block: int, force: bool, width: int) -> bool {
    ||| MIN_DP <= width <= block && (width == rounded(block / 8) || width == rounded(block / 4)
        || width == rounded(block / 2) || width == rounded(block * 3 / 4) || width == block)
    ||| force && block < MIN_DP && width == block
}

/// Adds a width to ascending ones unless it is there or not to be tried.
fn add_width(widths: &mut Vec<usize>, width: usize, block: usize)
    requires
        forall|i: int, j: int|
            0 <= i < j < old(widths)@.len() ==> #[trigger] old(widths)@[i]
                < #[trigger] old(widths)@[j],
    ensures
        forall|i: int, j: int|
            0 <= i < j < final(widths)@.len() ==> #[trigger] final(widths)@[i]
                < #[trigger] final(widths)@[j],
        forall|w: usize|
            #![trigger final(widths)@.contains(w)]
            final(widths)@.contains(w) == (old(widths)@.contains(w) || (w == width && MIN_DP
                <= width <= block)),
        final(widths)@.len() <= old(widths)@.len() + 1,
{
    let ghost before = widths@;
    if width < MIN_DP || width > block {
        return ;
    }
    let total: usize = widths.len();
    let mut at: usize = 0;
    while at < total && widths[at] < width
        invariant
            at <= total,
            total == widths@.len(),
            widths@ == before,
            forall|i: int| 0 <= i < at ==> #[trigger] widths@[i] < width,
        decreases total - at,
    {
        at = at + 1;
    }
    if at < total && widths[at] == width {
        assert(before[at as int] == width);
        return ;
    }
    widths.insert(at, width);
    proof {
        assert forall|w: usize| #[trigger] widths@.contains(w) == (before.contains(w) || w
            == width) by {
            if widths@.contains(w) {
                let i = choose|i: int| 0 <= i < widths@.len() && widths@[i] == w;
                if i < at {
                    assert(before[i] == w);
                } else if i > at {
                    assert(before[i - 1] == w);
                }
            }
            if before.contains(w) {
                let i = choose|i: int| 0 <= i < before.len() && before[i] == w;
                if i < at {
                    assert(widths@[i] == w);
                } else {
                    assert(widths@[i + 1] == w);
                }
            }
            if w == width {
                assert(widths@[at as int] == w);
            }
        }
    }
}

fn round_up(width: usize) -> (size: usize)
    requires
        width <= usize::MAX - MIN_DP,
    ensures
        size == rounded(width as int),
{
    let units: usize = quotient_up(width, MIN_DP);
    units * MIN_DP
}

/// The widths that are tried, in ascending order.
pub fn candidate_widths(block: usize, force: bool) -> (widths: Vec<usize>)
    requires
        block * 4 <= usize::MAX,
    ensures
        forall|i: int, j: int|
            0 <= i < j < widths@.len() ==> #[trigger] widths@[i] < #[trigger] widths@[j],
        forall|w: usize|
            #![trigger widths@.contains(w)]
            widths@.contains(w) == is_width(block as int, force, w as int),
{
    let mut widths: Vec<usize> = Vec::new();
    let eighth: usize = round_up(block / 8);
    let quarter: usize = round_up(block / 4);
    let half: usize = round_up(block / 2);
    let most: usize = round_up(block * 3 / 4);
    add_width(&mut widths, eighth, block);
    add_width(&mut widths, quarter, block);
    add_width(&mut widths, half, block);
    add_width(&mut widths, most, block);
    add_width(&mut widths, block, block);
    let ghost added = widths@;
    if block < MIN_DP {
        assert(widths@.len() == 0) by {
            if widths@.len() > 0 {
                assert(widths@.contains(widths@[0]));
            }
        }
        if force {
            widths.push(block);
            assert(widths@ =~= seq![block]);
            assert forall|w: usize| #[trigger] widths@.contains(w) == is_width(
                block as int,
                force,
                w as int,
            ) by {
                if w == block {
                    assert(widths@[0] == w);
                }
            }
        }
    }
    widths
}

/// The last of the shortest times among the widths that could be built.
pub open spec fn is_fastest(times: Seq<Option<u64>>, best: int) -> bool {
    &&& 0 <= best < times.len()
    &&& times[best] is Some
    &&& forall|i: int|
        0 <= i < times.len() ==> (#[trigger] times[i] matches Some(t) ==> t >= times[best]->0)
    &&& forall|i: int|
        best < i < times.len() ==> (#[trigger] times[i] matches Some(t) ==> t > times[best]->0)
}

/// The width to use: the fastest, the later on ties, unless it takes longer
/// than the limit or none could be built.
pub fn select_width(times: &[Option<u64>], limit: Option<u64>) -> (chosen: Option<usize>)
    ensures
        match chosen {
            Some(best) => {
                &&& is_fastest(times@, best as int)
                &&& limit matches Some(most) ==> times@[best as int]->0 <= most
            },
            None => {
                ||| forall|i: int| 0 <= i < times@.len() ==> #[trigger] times@[i] is None
                ||| exists|best: int| #[trigger]
                    is_fastest(times@, best) && limit is Some && times@[best]->0 > limit->0
            },
        },
{
    let total: usize = times.len();
    let mut best: Option<(usize, u64)> = None;
    let mut i: usize = 0;
    while i < total
        invariant
            i <= total,
            total == times@.len(),
            match best {
                None => forall|j: int| 0 <= j < i ==> #[trigger] times@[j] is None,
                Some((at, time)) => {
                    &&& at < i
                    &&& times@[at as int] == Some(time)
                    &&& forall|j: int|
                        0 <= j < i ==> (#[trigger] times@[j] matches Some(t) ==> t >= time)
                    &&& forall|j: int|
                        at < j < i ==> (#[trigger] times@[j] matches Some(t) ==> t > time)
                },
            },
        decreases total - i,
    {
        if let Some(time) = times[i] {
            best = match best {
                Some((at, least)) => if time <= least {
                    Some((i, time))
                } else {
                    Some((at, least))
                },
                None => Some((i, time)),
            };
        }
        i = i + 1;
    }
    match best {
        None => None,
        Some((at, time)) => {
            assert(is_fastest(times@, at as int));
            match limit {
                Some(most) => if time <= most {
                    Some(at)
                } else {
                    None
                },
                None => Some(at),
            }
        },
    }
}

} // verus!
