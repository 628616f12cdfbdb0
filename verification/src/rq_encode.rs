//! Choosing the levels of a residual.
use crate::distance::MetricType;
use crate::float_ops::{apply, operate};
use crate::order::{float_is_nan, float_less, float_max};
use crate::rq::{RQCodeFactors, RQVectorFactors, RaBitQuantizer};
use crate::rq_factors::{compute_factors, TermStep};
use crate::rq_query::EPSILON;
use vstd::prelude::*;

verus! {

/// How often the width of a level is refined.
pub const QUANTIZATION_REFINEMENT_ROUNDS: usize = 3;

/// The arithmetic of levels: the width of a level from the greatest
/// component, the level of a component, a level around zero, one step of an
/// inner product, and a ratio.
pub struct LevelKernel<B, L, C, M, R> {
    pub first_width: B,
    pub level_of: L,
    pub centered: C,
    pub product_step: M,
    pub ratio: R,
}

pub open spec fn is_level_kernel<
    B: Fn(u32) -> u32,
    L: Fn(u32, u32) -> u8,
    C: Fn(u8) -> u32,
    M: Fn(u32, u32, u32) -> u32,
    R: Fn(u32, u32) -> u32,
>(kernel: LevelKernel<B, L, C, M, R>) -> bool {
    &&& crate::float_ops::is_map(kernel.first_width)
    &&& forall|value: u32, width: u32| #[trigger] call_requires(kernel.level_of, (value, width))
    &&& forall|value: u32, width: u32, x: u8, y: u8| #[trigger]
        call_ensures(kernel.level_of, (value, width), x) && #[trigger] call_ensures(
            kernel.level_of,
            (value, width),
            y,
        ) ==> x == y
    &&& forall|level: u8| #[trigger] call_requires(kernel.centered, (level,))
    &&& forall|level: u8, x: u32, y: u32| #[trigger]
        call_ensures(kernel.centered, (level,), x) && #[trigger] call_ensures(
            kernel.centered,
            (level,),
            y,
        ) ==> x == y
    &&& crate::pq_tables::is_step(kernel.product_step)
    &&& crate::float_ops::is_operation(kernel.ratio)
}

/// A number without its sign.
pub open spec fn unsigned(value: u32) -> u32 {
    crate::order::magnitude(value) as u32
}

/// The components without their signs.
pub open spec fn unsigned_values(values: Seq<u32>) -> Seq<u32> {
    Seq::new(values.len(), |i: int| unsigned(values[i]))
}

/// The greatest component without its sign.
pub open spec fn greatest_component(residual: Seq<u32>) -> u32 {
    crate::sq::greatest(0, unsigned_values(residual), residual.len())
}

/// A number that is no more than the least that counts.
pub open spec fn is_negligible(value: u32) -> bool {
    !crate::order::is_nan(value) && !crate::order::less(EPSILON, value)
}

/// The levels of all components for a width.
pub open spec fn levels_for<L: Fn(u32, u32) -> u8>(
    level_of: L,
    residual: Seq<u32>,
    width: u32,
) -> Seq<u8> {
    Seq::new(
        residual.len(),
        |i: int| choose|x: u8| call_ensures(level_of, (residual[i], width), x),
    )
}

/// The levels around zero.
pub open spec fn centered_levels<C: Fn(u8) -> u32>(centered: C, levels: Seq<u8>) -> Seq<u32> {
    Seq::new(levels.len(), |i: int| choose|x: u32| call_ensures(centered, (levels[i],), x))
}

/// The width that the levels of the last of `rounds` rounds are taken for. A
/// round replaces the width by the best one for its levels, unless the
/// products that it is made from are negligible.
pub open spec fn refined_width<
    B: Fn(u32) -> u32,
    L: Fn(u32, u32) -> u8,
    C: Fn(u8) -> u32,
    M: Fn(u32, u32, u32) -> u32,
    R: Fn(u32, u32) -> u32,
>(kernel: LevelKernel<B, L, C, M, R>, residual: Seq<u32>, width: u32, rounds: nat) -> u32
    decreases rounds,
{
    if rounds <= 1 {
        width
    } else {
        let around = centered_levels(kernel.centered, levels_for(kernel.level_of, residual, width));
        let n = residual.len();
        let product = crate::pq_tables::accumulated(
            kernel.product_step,
            0u32,
            residual,
            0,
            around,
            0,
            n,
        );
        let norm = crate::pq_tables::accumulated(kernel.product_step, 0u32, around, 0, around, 0, n);
        if is_negligible(product) || is_negligible(norm) {
            width
        } else {
            refined_width(
                kernel,
                residual,
                crate::float_ops::result_of(kernel.ratio, product, norm),
                (rounds - 1) as nat,
            )
        }
    }
}

/// The levels of a residual. One without length has the lowest level
/// everywhere.
pub open spec fn chosen_levels<
    B: Fn(u32) -> u32,
    L: Fn(u32, u32) -> u8,
    C: Fn(u8) -> u32,
    M: Fn(u32, u32, u32) -> u32,
    R: Fn(u32, u32) -> u32,
>(kernel: LevelKernel<B, L, C, M, R>, residual: Seq<u32>) -> Seq<u8> {
    let max = greatest_component(residual);
    if is_negligible(max) {
        Seq::new(residual.len(), |i: int| 0u8)
    } else {
        levels_for(
            kernel.level_of,
            residual,
            refined_width(
                kernel,
                residual,
                crate::float_ops::image_of(kernel.first_width, max),
                QUANTIZATION_REFINEMENT_ROUNDS as nat,
            ),
        )
    }
}

pub(crate) fn negligible(value: u32) -> (small: bool)
    ensures
        small == is_negligible(value),
{
    !float_is_nan(value) && !float_less(EPSILON, value)
}

/// A number without its sign.
pub(crate) fn without_sign(value: u32) -> (size: u32)
    ensures
        size == unsigned(value),
{
    if value < 0x8000_0000 {
        value
    } else {
        value - 0x8000_0000
    }
}

/// The greatest component without its sign.
fn find_greatest(residual: &[u32]) -> (max: u32)
    ensures
        max == greatest_component(residual@),
{
    let ghost values = unsigned_values(residual@);
    let mut max: u32 = 0;
    let mut i: usize = 0;
    while i < residual.len()
        invariant
            i <= residual@.len(),
            values == unsigned_values(residual@),
            max == crate::sq::greatest(0, values, i as nat),
        decreases residual@.len() - i,
    {
        let size: u32 = without_sign(residual[i]);
        assert(size == values[i as int]);
        max = float_max(max, size);
        i = i + 1;
    }
    max
}

fn take_levels<
    B: Fn(u32) -> u32,
    L: Fn(u32, u32) -> u8,
    C: Fn(u8) -> u32,
    M: Fn(u32, u32, u32) -> u32,
    R: Fn(u32, u32) -> u32,
>(residual: &[u32], width: u32, kernel: &LevelKernel<B, L, C, M, R>) -> (out: (Vec<u8>, Vec<u32>))
    requires
        is_level_kernel(*kernel),
    ensures
        out.0@ == levels_for(kernel.level_of, residual@, width),
        out.1@ == centered_levels(kernel.centered, out.0@),
{
    let ghost expected = levels_for(kernel.level_of, residual@, width);
    let ghost around = centered_levels(kernel.centered, expected);
    let mut levels: Vec<u8> = Vec::new();
    let mut centered: Vec<u32> = Vec::new();
    let mut i: usize = 0;
    while i < residual.len()
        invariant
            is_level_kernel(*kernel),
            i <= residual@.len(),
            expected == levels_for(kernel.level_of, residual@, width),
            around == centered_levels(kernel.centered, expected),
            levels@ == expected.take(i as int),
            centered@ == around.take(i as int),
        decreases residual@.len() - i,
    {
        let level: u8 = (kernel.level_of)(residual[i], width);
        assert(call_ensures(kernel.level_of, (residual@[i as int], width), level));
        assert(level == expected[i as int]);
        let value: u32 = (kernel.centered)(level);
        assert(call_ensures(kernel.centered, (level,), value));
        assert(value == around[i as int]);
        levels.push(level);
        centered.push(value);
        i = i + 1;
        assert(levels@ =~= expected.take(i as int));
        assert(centered@ =~= around.take(i as int));
    }
    assert(levels@ =~= expected);
    assert(centered@ =~= around);
    (levels, centered)
}

/// The levels of a residual, and the same around zero.
pub fn quantize_centered_levels<
    B: Fn(u32) -> u32,
    L: Fn(u32, u32) -> u8,
    C: Fn(u8) -> u32,
    M: Fn(u32, u32, u32) -> u32,
    R: Fn(u32, u32) -> u32,
>(residual: &[u32], kernel: &LevelKernel<B, L, C, M, R>) -> (out: (Vec<u8>, Vec<u32>))
    requires
        is_level_kernel(*kernel),
    ensures
        out.0@ == chosen_levels(*kernel, residual@),
        out.1@ == centered_levels(kernel.centered, out.0@),
{
    let n: usize = residual.len();
    let max: u32 = find_greatest(residual);
    if negligible(max) {
        let lowest: u32 = (kernel.centered)(0u8);
        assert(call_ensures(kernel.centered, (0u8,), lowest));
        let levels: Vec<u8> = vec![0u8; n];
        let centered: Vec<u32> = vec![lowest; n];
        assert(levels@ =~= Seq::new(residual@.len(), |i: int| 0u8));
        assert(centered@ =~= centered_levels(kernel.centered, levels@));
        return (levels, centered);
    }
    let first: u32 = apply(&kernel.first_width, max);
    let mut width: u32 = first;
    let mut out = take_levels(residual, width, kernel);
    let mut left: usize = QUANTIZATION_REFINEMENT_ROUNDS;
    let mut open: bool = true;
    while open && left > 1
        invariant
            is_level_kernel(*kernel),
            n == residual@.len(),
            1 <= left <= QUANTIZATION_REFINEMENT_ROUNDS,
            out.0@ == levels_for(kernel.level_of, residual@, width),
            out.1@ == centered_levels(kernel.centered, out.0@),
            open ==> refined_width(
                *kernel,
                residual@,
                first,
                QUANTIZATION_REFINEMENT_ROUNDS as nat,
            ) == refined_width(*kernel, residual@, width, left as nat),
            !open ==> refined_width(
                *kernel,
                residual@,
                first,
                QUANTIZATION_REFINEMENT_ROUNDS as nat,
            ) == width,
        decreases left, open as int,
    {
        let around: &[u32] = out.1.as_slice();
        let product: u32 = crate::pq_tables::accumulate(
            &kernel.product_step,
            0u32,
            residual,
            0,
            around,
            0,
            n,
        );
        let norm: u32 = crate::pq_tables::accumulate(
            &kernel.product_step,
            0u32,
            around,
            0,
            around,
            0,
            n,
        );
        if negligible(product) || negligible(norm) {
            open = false;
        } else {
            width = operate(&kernel.ratio, product, norm);
            out = take_levels(residual, width, kernel);
            left = left - 1;
        }
    }
    out
}

/// One half.
pub const HALF: u32 = 0x3F00_0000;

/// Minus one half.
pub const NEGATIVE_HALF: u32 = 0xBF00_0000;

/// The most significant bits of levels as halves around zero.
pub open spec fn halves(levels: Seq<u8>, bits: int) -> Seq<u32> {
    Seq::new(
        levels.len(),
        |i: int|
            if crate::bitops::byte_bit(levels[i], bits - 1) {
                HALF
            } else {
                NEGATIVE_HALF
            },
    )
}

/// A residual has this code and these factors: the code stores the levels of
/// the residual, and the factors are those of its most significant bits and of
/// its levels.
pub open spec fn is_encoded<
    B: Fn(u32) -> u32,
    L: Fn(u32, u32) -> u8,
    C: Fn(u8) -> u32,
    M: Fn(u32, u32, u32) -> u32,
    R: Fn(u32, u32) -> u32,
    F: Fn(TermStep) -> u32,
>(
    quantizer: RaBitQuantizer,
    kernel: LevelKernel<B, L, C, M, R>,
    f: F,
    residual: Seq<u32>,
    centroid: Seq<u32>,
    metric: MetricType,
    code: Seq<u8>,
    factors: RQVectorFactors,
) -> bool {
    let levels = chosen_levels(kernel, residual);
    let bits = quantizer.spec_bits() as int;
    &&& crate::rq::stores_planes(code, levels, bits, quantizer.spec_plane_size() as int)
    &&& factors.coarse == crate::rq_factors::code_factors(
        f,
        residual,
        centroid,
        halves(levels, bits),
        metric,
    )
    &&& factors.full == (if bits == 1 {
        factors.coarse
    } else {
        crate::rq_factors::code_factors(
            f,
            residual,
            centroid,
            centered_levels(kernel.centered, levels),
            metric,
        )
    })
}

impl RaBitQuantizer {
    /// Writes the code of a rotated residual and returns its factors: those of
    /// its most significant bits, and those of its levels.
    pub fn encode<
        B: Fn(u32) -> u32,
        L: Fn(u32, u32) -> u8,
        C: Fn(u8) -> u32,
        M: Fn(u32, u32, u32) -> u32,
        R: Fn(u32, u32) -> u32,
        F: Fn(TermStep) -> u32,
    >(
        &self,
        rotated_residual: &[u32],
        rotated_centroid: &[u32],
        metric: MetricType,
        code: &mut Vec<u8>,
        kernel: &LevelKernel<B, L, C, M, R>,
        f: &F,
    ) -> (factors: RQVectorFactors)
        requires
            self.well_formed(),
            rotated_residual@.len() == self.spec_padded(),
            rotated_centroid@.len() == self.spec_padded(),
            old(code)@.len() >= self.spec_plane_size() * self.spec_bits(),
            is_level_kernel(*kernel),
            crate::rq_factors::is_arithmetic(*f),
        ensures
            final(code)@.len() == old(code)@.len(),
            is_encoded(
                *self,
                *kernel,
                *f,
                rotated_residual@,
                rotated_centroid@,
                metric,
                final(code)@,
                factors,
            ),
            forall|i: int|
                self.spec_plane_size() * self.spec_bits() <= i < old(code)@.len()
                    ==> final(code)@[i] == old(code)@[i],
    {
        let (levels, centered) = quantize_centered_levels(rotated_residual, kernel);
        self.encode_planes(levels.as_slice(), code);
        let bits: usize = self.bits();
        let ghost expected = halves(levels@, bits as int);
        let mut signs: Vec<u32> = Vec::new();
        let mut i: usize = 0;
        while i < levels.len()
            invariant
                self.well_formed(),
                bits == self.spec_bits(),
                i <= levels@.len(),
                expected == halves(levels@, bits as int),
                signs@ == expected.take(i as int),
            decreases levels@.len() - i,
        {
            signs.push(
                if self.is_upper_level(levels[i]) {
                    HALF
                } else {
                    NEGATIVE_HALF
                },
            );
            i = i + 1;
            assert(signs@ =~= expected.take(i as int));
        }
        assert(signs@ =~= expected);
        let coarse: RQCodeFactors = compute_factors(
            rotated_residual,
            rotated_centroid,
            signs.as_slice(),
            metric,
            f,
        );
        let full: RQCodeFactors = if bits == 1 {
            coarse
        } else {
            compute_factors(rotated_residual, rotated_centroid, centered.as_slice(), metric, f)
        };
        RQVectorFactors { coarse, full }
    }
}

} // verus!
