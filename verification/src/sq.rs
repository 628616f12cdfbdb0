//! Scalar quantizers with one range per dimension.
use crate::order::{float_key, float_is_nan, float_max, float_min, INFINITE_DISTANCE, NEGATIVE_INFINITY};
use vstd::prelude::*;

verus! {

/// A quantizer that maps each dimension's range to the codes `0..=255`. The
/// bounds are bit patterns.
#[derive(Debug)]
pub struct ScalarQuantizer {
    pub d: usize,
    pub min: u32,
    pub max: u32,
    pub mins: Vec<u32>,
    pub maxs: Vec<u32>,
}

/// The least of the first `n` numbers and `first`.
pub open spec fn least(first: u32, values: Seq<u32>, n: nat) -> u32
    decreases n,
{
    if n == 0 {
        first
    } else {
        crate::order::min_number(least(first, values, (n - 1) as nat), values[n - 1])
    }
}

/// The greatest of the first `n` numbers and `first`.
pub open spec fn greatest(first: u32, values: Seq<u32>, n: nat) -> u32
    decreases n,
{
    if n == 0 {
        first
    } else {
        crate::order::max_number(greatest(first, values, (n - 1) as nat), values[n - 1])
    }
}

/// The values of dimension `dim` of the given rows.
pub open spec fn column(data: Seq<u32>, rows: Seq<usize>, d: int, dim: int) -> Seq<u32> {
    Seq::new(rows.len(), |i: int| data[rows[i] * d + dim])
}

/// The first value is a number that is at least the second.
pub open spec fn at_least(a: u32, b: u32) -> bool {
    &&& !crate::order::is_nan(a)
    &&& !crate::order::is_nan(b)
    &&& crate::order::numeric_key(a) >= crate::order::numeric_key(b)
}

fn is_at_least(a: u32, b: u32) -> (result: bool)
    ensures
        result == at_least(a, b),
{
    !float_is_nan(a) && !float_is_nan(b) && float_key(a) >= float_key(b)
}

/// The global bounds follow from those of the dimensions.
pub open spec fn bounds_agree(sq: ScalarQuantizer) -> bool {
    if sq.d == 0 {
        sq.min == 0 && sq.max == 0
    } else {
        &&& sq.min == least(INFINITE_DISTANCE, sq.mins@, sq.mins@.len())
        &&& sq.max == greatest(NEGATIVE_INFINITY, sq.maxs@, sq.maxs@.len())
    }
}

fn filled(value: u32, n: usize) -> (values: Vec<u32>)
    ensures
        values@ == Seq::new(n as nat, |i: int| value),
{
    let values: Vec<u32> = vec![value; n];
    assert(values@ =~= Seq::new(n as nat, |i: int| value));
    values
}

impl ScalarQuantizer {
    /// One range per dimension.
    pub open spec fn well_formed(self) -> bool {
        &&& self.mins@.len() == self.d
        &&& self.maxs@.len() == self.d
    }

    /// All ranges are zero.
    pub fn new(d: usize) -> (sq: Self)
        ensures
            sq.well_formed(),
            sq.d == d,
            sq.min == 0,
            sq.max == 0,
            sq.mins@ == Seq::new(d as nat, |i: int| 0u32),
            sq.maxs@ == Seq::new(d as nat, |i: int| 0u32),
    {
        Self::with_bounds(d, 0, 0)
    }

    /// The same range for every dimension.
    pub fn with_bounds(d: usize, min: u32, max: u32) -> (sq: Self)
        ensures
            sq.well_formed(),
            sq.d == d,
            sq.min == min,
            sq.max == max,
            sq.mins@ == Seq::new(d as nat, |i: int| min),
            sq.maxs@ == Seq::new(d as nat, |i: int| max),
    {
        ScalarQuantizer { d, min, max, mins: filled(min, d), maxs: filled(max, d) }
    }

    /// The given range for each dimension.
    pub fn with_dimension_bounds(d: usize, mins: Vec<u32>, maxs: Vec<u32>) -> (sq: Self)
        requires
            mins@.len() == d,
            maxs@.len() == d,
        ensures
            sq.well_formed(),
            sq.d == d,
            sq.mins@ == mins@,
            sq.maxs@ == maxs@,
            bounds_agree(sq),
    {
        let mut sq = ScalarQuantizer { d, min: 0, max: 0, mins, maxs };
        sq.refresh_global_bounds();
        sq
    }

    /// A quantizer with the same ranges.
    pub fn duplicate(&self) -> (copy: Self)
        ensures
            copy.d == self.d,
            copy.min == self.min,
            copy.max == self.max,
            copy.mins@ == self.mins@,
            copy.maxs@ == self.maxs@,
    {
        ScalarQuantizer {
            d: self.d,
            min: self.min,
            max: self.max,
            mins: crate::distance::copy_numbers(&self.mins),
            maxs: crate::distance::copy_numbers(&self.maxs),
        }
    }

    /// Takes the ranges of the first `n` vectors; zero ranges if there are
    /// none. Components that are not numbers are passed over.
    pub fn train(&mut self, data: &[u32], n: usize)
        requires
            n * old(self).d <= data@.len(),
            old(self).d == 0 || n == 0 ==> old(self).well_formed(),
        ensures
            final(self).d == old(self).d,
            final(self).well_formed(),
            if n == 0 || old(self).d == 0 {
                &&& final(self).min == 0
                &&& final(self).max == 0
                &&& final(self).mins@ == Seq::new(old(self).d as nat, |i: int| 0u32)
                &&& final(self).maxs@ == Seq::new(old(self).d as nat, |i: int| 0u32)
            } else {
                &&& bounds_agree(*final(self))
                &&& forall|dim: int|
                    0 <= dim < old(self).d ==> #[trigger] final(self).mins@[dim] == least(
                        INFINITE_DISTANCE,
                        column(
                            data@,
                            crate::rq::identity_order(n as nat),
                            old(self).d as int,
                            dim,
                        ),
                        n as nat,
                    )
                &&& forall|dim: int|
                    0 <= dim < old(self).d ==> #[trigger] final(self).maxs@[dim] == greatest(
                        NEGATIVE_INFINITY,
                        column(
                            data@,
                            crate::rq::identity_order(n as nat),
                            old(self).d as int,
                            dim,
                        ),
                        n as nat,
                    )
            },
    {
        if n == 0 || self.d == 0 {
            self.min = 0;
            self.max = 0;
            self.mins = filled(0, self.d);
            self.maxs = filled(0, self.d);
            return;
        }
        let total: usize = data.len();
        let mut rows: Vec<usize> = Vec::new();
        let mut i: usize = 0;
        while i < n
            invariant
                i <= n,
                rows@ == crate::rq::identity_order(i as nat),
            decreases n - i,
        {
            rows.push(i);
            assert(rows@ =~= crate::rq::identity_order((i + 1) as nat));
            i = i + 1;
        }
        assert forall|j: int| 0 <= j < rows@.len() implies (#[trigger] rows@[j] + 1) * self.d
            <= data@.len() by {
            let row = rows@[j] as int;
            assert((row + 1) * self.d <= n * self.d) by (nonlinear_arith)
                requires
                    row < n,
            ;
        }
        let (mins, maxs) = row_extrema(data, rows.as_slice(), self.d);
        self.mins = mins;
        self.maxs = maxs;
        self.refresh_global_bounds();
    }

    /// Bytes of one code.
    pub fn code_size(&self) -> (size: usize)
        ensures
            size == self.d,
    {
        self.d
    }

    fn refresh_global_bounds(&mut self)
        requires
            old(self).well_formed(),
        ensures
            final(self).d == old(self).d,
            final(self).mins == old(self).mins,
            final(self).maxs == old(self).maxs,
            bounds_agree(*final(self)),
    {
        if self.d == 0 {
            self.min = 0;
            self.max = 0;
            return;
        }
        let mut min: u32 = INFINITE_DISTANCE;
        let mut max: u32 = NEGATIVE_INFINITY;
        let mut dim: usize = 0;
        while dim < self.d
            invariant
                dim <= self.d,
                self.mins@.len() == self.d,
                self.maxs@.len() == self.d,
                min == least(INFINITE_DISTANCE, self.mins@, dim as nat),
                max == greatest(NEGATIVE_INFINITY, self.maxs@, dim as nat),
            decreases self.d - dim,
        {
            min = float_min(min, self.mins[dim]);
            max = float_max(max, self.maxs[dim]);
            dim = dim + 1;
        }
        self.min = min;
        self.max = max;
    }

    /// The codes of the first `n` vectors. `scale` gives the code of a value
    /// within a range; a range without extent has the code zero only.
    pub fn encode_batch<Q: Fn(u32, u32, u32) -> u8>(&self, data: &[u32], n: usize, scale: &Q) -> (codes:
        Vec<u8>)
        requires
            self.well_formed(),
            n * self.d <= data@.len(),
            forall|value: u32, min: u32, max: u32| #[trigger]
                call_requires(scale, (value, min, max)),
        ensures
            codes@.len() == n * self.d,
            forall|row: int, dim: int|
                #![trigger codes@[row * self.d + dim]]
                0 <= row < n && 0 <= dim < self.d ==> (if at_least(
                    self.mins@[dim],
                    self.maxs@[dim],
                ) {
                    codes@[row * self.d + dim] == 0
                } else {
                    call_ensures(
                        scale,
                        (data@[row * self.d + dim], self.mins@[dim], self.maxs@[dim]),
                        codes@[row * self.d + dim],
                    )
                }),
    {
        let total: usize = data.len();
        let mut codes: Vec<u8> = Vec::new();
        proof {
            assert(0 * self.d == 0) by (nonlinear_arith);
        }
        let mut row: usize = 0;
        while row < n
            invariant
                row <= n,
                self.well_formed(),
                total == data@.len(),
                n * self.d <= total,
                forall|value: u32, min: u32, max: u32| #[trigger]
                    call_requires(scale, (value, min, max)),
                codes@.len() == row * self.d,
                forall|r: int, dim: int|
                    #![trigger codes@[r * self.d + dim]]
                    0 <= r < row && 0 <= dim < self.d ==> self.encodes(
                        *scale,
                        data@[r * self.d + dim],
                        dim,
                        codes@[r * self.d + dim],
                    ),
            decreases n - row,
        {
            let ghost before = codes@;
            proof {
                assert((row + 1) * self.d == row * self.d + self.d && 0 <= row * self.d && (row
                    + 1) * self.d <= n * self.d) by (nonlinear_arith)
                    requires
                        row < n,
                ;
            }
            let base: usize = row * self.d;
            let mut dim: usize = 0;
            while dim < self.d
                invariant
                    dim <= self.d,
                    self.well_formed(),
                    total == data@.len(),
                    base == row * self.d,
                    base + self.d <= total,
                    forall|value: u32, min: u32, max: u32| #[trigger]
                        call_requires(scale, (value, min, max)),
                    before.len() == base,
                    codes@.len() == base + dim,
                    forall|i: int| 0 <= i < base ==> codes@[i] == before[i],
                    forall|k: int|
                        0 <= k < dim ==> self.encodes(
                            *scale,
                            data@[base + k],
                            k,
                            #[trigger] codes@[base + k],
                        ),
                decreases self.d - dim,
            {
                let min: u32 = self.mins[dim];
                let max: u32 = self.maxs[dim];
                if is_at_least(min, max) {
                    codes.push(0);
                } else {
                    codes.push(scale(data[base + dim], min, max));
                }
                dim = dim + 1;
            }
            proof {
                assert forall|r: int, k: int|
                    #![trigger codes@[r * self.d + k]]
                    0 <= r < row + 1 && 0 <= k < self.d implies self.encodes(
                    *scale,
                    data@[r * self.d + k],
                    k,
                    codes@[r * self.d + k],
                ) by {
                    if r < row {
                        assert(0 <= r * self.d && r * self.d + k < row * self.d)
                            by (nonlinear_arith)
                            requires
                                0 <= r < row,
                                0 <= k < self.d,
                        ;
                        assert(self.encodes(
                            *scale,
                            data@[r * self.d + k],
                            k,
                            before[r * self.d + k],
                        ));
                    } else {
                        assert(codes@[base + k] == codes@[r * self.d + k]);
                    }
                }
            }
            row = row + 1;
        }
        assert forall|r: int, dim: int|
            #![trigger codes@[r * self.d + dim]]
            0 <= r < n && 0 <= dim < self.d implies (if at_least(
            self.mins@[dim],
            self.maxs@[dim],
        ) {
            codes@[r * self.d + dim] == 0
        } else {
            call_ensures(
                scale,
                (data@[r * self.d + dim], self.mins@[dim], self.maxs@[dim]),
                codes@[r * self.d + dim],
            )
        }) by {
            assert(self.encodes(
                *scale,
                data@[r * self.d + dim],
                dim,
                codes@[r * self.d + dim],
            ));
        }
        codes
    }

    /// `code` is a code of `value` in dimension `dim`.
    pub open spec fn encodes<Q: Fn(u32, u32, u32) -> u8>(
        self,
        scale: Q,
        value: u32,
        dim: int,
        code: u8,
    ) -> bool {
        if at_least(self.mins@[dim], self.maxs@[dim]) {
            code == 0
        } else {
            call_ensures(scale, (value, self.mins@[dim], self.maxs@[dim]), code)
        }
    }

    /// The value of a code in dimension `dim`; `place` gives the value of a
    /// code within a range. A range without extent has its bound only.
    pub fn decode_value<P: Fn(u8, u32, u32) -> u32>(&self, code: u8, dim: usize, place: &P) -> (value:
        u32)
        requires
            self.well_formed(),
            dim < self.d,
            call_requires(place, (code, self.mins@[dim as int], self.maxs@[dim as int])),
        ensures
            self.decodes(*place, code, dim as int, value),
    {
        let min: u32 = self.mins[dim];
        let max: u32 = self.maxs[dim];
        if is_at_least(min, max) {
            min
        } else {
            place(code, min, max)
        }
    }

    /// `value` is a value of `code` in dimension `dim`.
    pub open spec fn decodes<P: Fn(u8, u32, u32) -> u32>(
        self,
        place: P,
        code: u8,
        dim: int,
        value: u32,
    ) -> bool {
        if at_least(self.mins@[dim], self.maxs@[dim]) {
            value == self.mins@[dim]
        } else {
            call_ensures(place, (code, self.mins@[dim], self.maxs@[dim]), value)
        }
    }

    /// The values of all codes of all dimensions.
    pub fn build_decode_lut<P: Fn(u8, u32, u32) -> u32>(&self, place: &P) -> (lut:
        ScalarQuantizerDecodeLut)
        requires
            self.well_formed(),
            self.d * 256 <= usize::MAX,
            forall|code: u8, min: u32, max: u32| #[trigger] call_requires(place, (code, min, max)),
        ensures
            lut.well_formed(),
            lut.spec_dimension() == self.d,
            forall|dim: int, code: u8|
                0 <= dim < self.d ==> self.decodes(
                    *place,
                    code,
                    dim,
                    #[trigger] lut.spec_value(code, dim),
                ),
    {
        let mut values: Vec<u32> = Vec::new();
        let mut dim: usize = 0;
        while dim < self.d
            invariant
                dim <= self.d,
                self.well_formed(),
                forall|code: u8, min: u32, max: u32| #[trigger]
                    call_requires(place, (code, min, max)),
                values@.len() == dim * 256,
                forall|k: int, code: u8|
                    0 <= k < dim ==> self.decodes(
                        *place,
                        code,
                        k,
                        #[trigger] values@[k * 256 + code],
                    ),
            decreases self.d - dim,
        {
            let ghost before = values@;
            let mut code: usize = 0;
            while code < 256
                invariant
                    code <= 256,
                    dim < self.d,
                    self.well_formed(),
                    forall|c: u8, min: u32, max: u32| #[trigger]
                        call_requires(place, (c, min, max)),
                    before.len() == dim * 256,
                    values@.len() == dim * 256 + code,
                    forall|i: int| 0 <= i < before.len() ==> values@[i] == before[i],
                    forall|c: u8|
                        c < code ==> self.decodes(
                            *place,
                            c,
                            dim as int,
                            #[trigger] values@[dim * 256 + c],
                        ),
                decreases 256 - code,
            {
                values.push(self.decode_value(code as u8, dim, place));
                code = code + 1;
            }
            proof {
                assert forall|k: int, c: u8| 0 <= k < dim + 1 implies self.decodes(
                    *place,
                    c,
                    k,
                    #[trigger] values@[k * 256 + c],
                ) by {
                    if k < dim {
                        assert(self.decodes(*place, c, k, before[k * 256 + c]));
                    }
                }
            }
            dim = dim + 1;
        }
        ScalarQuantizerDecodeLut { d: self.d, values }
    }
}

/// The least and greatest component of each dimension over the given rows.
pub fn row_extrema(data: &[u32], rows: &[usize], d: usize) -> (out: (Vec<u32>, Vec<u32>))
    requires
        forall|i: int| 0 <= i < rows@.len() ==> (#[trigger] rows@[i] + 1) * d <= data@.len(),
    ensures
        out.0@.len() == d,
        out.1@.len() == d,
        forall|dim: int|
            0 <= dim < d ==> #[trigger] out.0@[dim] == least(
                INFINITE_DISTANCE,
                column(data@, rows@, d as int, dim),
                rows@.len(),
            ),
        forall|dim: int|
            0 <= dim < d ==> #[trigger] out.1@[dim] == greatest(
                NEGATIVE_INFINITY,
                column(data@, rows@, d as int, dim),
                rows@.len(),
            ),
{
    let total: usize = data.len();
    let mut mins = filled(INFINITE_DISTANCE, d);
    let mut maxs = filled(NEGATIVE_INFINITY, d);
    let mut i: usize = 0;
    while i < rows.len()
        invariant
            i <= rows@.len(),
            total == data@.len(),
            forall|j: int| 0 <= j < rows@.len() ==> (#[trigger] rows@[j] + 1) * d <= total,
            mins@.len() == d,
            maxs@.len() == d,
            forall|dim: int|
                0 <= dim < d ==> #[trigger] mins@[dim] == least(
                    INFINITE_DISTANCE,
                    column(data@, rows@, d as int, dim),
                    i as nat,
                ),
            forall|dim: int|
                0 <= dim < d ==> #[trigger] maxs@[dim] == greatest(
                    NEGATIVE_INFINITY,
                    column(data@, rows@, d as int, dim),
                    i as nat,
                ),
        decreases rows@.len() - i,
    {
        let row: usize = rows[i];
        proof {
            assert((rows@[i as int] + 1) * d <= total);
            assert((row + 1) * d == row * d + d && 0 <= row * d) by (nonlinear_arith);
        }
        let base: usize = row * d;
        let mut dim: usize = 0;
        while dim < d
            invariant
                dim <= d,
                i < rows@.len(),
                row == rows@[i as int],
                base == row * d,
                base + d <= total,
                total == data@.len(),
                mins@.len() == d,
                maxs@.len() == d,
                forall|k: int|
                    0 <= k < d ==> #[trigger] mins@[k] == least(
                        INFINITE_DISTANCE,
                        column(data@, rows@, d as int, k),
                        (if k < dim {
                            i + 1
                        } else {
                            i as int
                        }) as nat,
                    ),
                forall|k: int|
                    0 <= k < d ==> #[trigger] maxs@[k] == greatest(
                        NEGATIVE_INFINITY,
                        column(data@, rows@, d as int, k),
                        (if k < dim {
                            i + 1
                        } else {
                            i as int
                        }) as nat,
                    ),
            decreases d - dim,
        {
            let value: u32 = data[base + dim];
            assert(column(data@, rows@, d as int, dim as int)[i as int] == value);
            let low: u32 = float_min(mins[dim], value);
            let high: u32 = float_max(maxs[dim], value);
            mins.set(dim, low);
            maxs.set(dim, high);
            dim = dim + 1;
        }
        i = i + 1;
    }
    (mins, maxs)
}

/// `sq` has the ranges of the residuals of the given rows: the extrema of the
/// rows, each less the offset of its dimension.
pub open spec fn is_residual_quantizer<S: Fn(u32, usize, usize) -> u32>(
    data: Seq<u32>,
    rows: Seq<usize>,
    d: usize,
    list: usize,
    subtract: S,
    sq: ScalarQuantizer,
) -> bool {
    &&& sq.well_formed()
    &&& sq.d == d
    &&& bounds_agree(sq)
    &&& forall|dim: int|
        0 <= dim < d ==> call_ensures(
            subtract,
            (
                least(INFINITE_DISTANCE, column(data, rows, d as int, dim), rows.len()),
                list,
                dim as usize,
            ),
            #[trigger] sq.mins@[dim],
        )
    &&& forall|dim: int|
        0 <= dim < d ==> call_ensures(
            subtract,
            (
                greatest(NEGATIVE_INFINITY, column(data, rows, d as int, dim), rows.len()),
                list,
                dim as usize,
            ),
            #[trigger] sq.maxs@[dim],
        )
}

impl ScalarQuantizer {
    /// The ranges of the residuals of the given rows. `subtract` takes the
    /// offset of a list in a dimension from a value; as subtraction keeps the
    /// order, only the extrema need it.
    pub fn train_residual_rows<S: Fn(u32, usize, usize) -> u32>(
        data: &[u32],
        rows: &[usize],
        d: usize,
        list: usize,
        subtract: &S,
    ) -> (sq: Self)
        requires
            forall|i: int| 0 <= i < rows@.len() ==> (#[trigger] rows@[i] + 1) * d <= data@.len(),
            forall|value: u32, dim: usize|
                dim < d ==> #[trigger] call_requires(subtract, (value, list, dim)),
        ensures
            is_residual_quantizer(data@, rows@, d, list, *subtract, sq),
    {
        let (lows, highs) = row_extrema(data, rows, d);
        let mut mins: Vec<u32> = Vec::new();
        let mut maxs: Vec<u32> = Vec::new();
        let mut dim: usize = 0;
        while dim < d
            invariant
                dim <= d,
                lows@.len() == d,
                highs@.len() == d,
                forall|value: u32, k: usize|
                    k < d ==> #[trigger] call_requires(subtract, (value, list, k)),
                mins@.len() == dim,
                maxs@.len() == dim,
                forall|k: int|
                    0 <= k < dim ==> call_ensures(
                        subtract,
                        (lows@[k], list, k as usize),
                        #[trigger] mins@[k],
                    ),
                forall|k: int|
                    0 <= k < dim ==> call_ensures(
                        subtract,
                        (highs@[k], list, k as usize),
                        #[trigger] maxs@[k],
                    ),
            decreases d - dim,
        {
            mins.push(subtract(lows[dim], list, dim));
            maxs.push(subtract(highs[dim], list, dim));
            dim = dim + 1;
        }
        let sq = Self::with_dimension_bounds(d, mins, maxs);
        proof {
            assert forall|k: int| 0 <= k < d implies call_ensures(
                subtract,
                (
                    least(INFINITE_DISTANCE, column(data@, rows@, d as int, k), rows@.len()),
                    list,
                    k as usize,
                ),
                #[trigger] sq.mins@[k],
            ) by {
                assert(call_ensures(subtract, (lows@[k], list, k as usize), mins@[k]));
            }
            assert forall|k: int| 0 <= k < d implies call_ensures(
                subtract,
                (
                    greatest(NEGATIVE_INFINITY, column(data@, rows@, d as int, k), rows@.len()),
                    list,
                    k as usize,
                ),
                #[trigger] sq.maxs@[k],
            ) by {
                assert(call_ensures(subtract, (highs@[k], list, k as usize), maxs@[k]));
            }
        }
        sq
    }
}

/// Pooled ranges: per dimension the least lower and the greatest upper bound
/// of the given quantizers.
pub fn pooled_bounds(sqs: &Vec<ScalarQuantizer>, d: usize) -> (out: (Vec<u32>, Vec<u32>))
    requires
        forall|i: int|
            0 <= i < sqs@.len() ==> (#[trigger] sqs@[i]).well_formed() && sqs@[i].d == d,
    ensures
        out.0@.len() == d,
        out.1@.len() == d,
        forall|dim: int|
            0 <= dim < d ==> #[trigger] out.0@[dim] == least(
                INFINITE_DISTANCE,
                Seq::new(sqs@.len(), |i: int| sqs@[i].mins@[dim]),
                sqs@.len(),
            ),
        forall|dim: int|
            0 <= dim < d ==> #[trigger] out.1@[dim] == greatest(
                NEGATIVE_INFINITY,
                Seq::new(sqs@.len(), |i: int| sqs@[i].maxs@[dim]),
                sqs@.len(),
            ),
{
    let mut mins: Vec<u32> = Vec::new();
    let mut maxs: Vec<u32> = Vec::new();
    let mut dim: usize = 0;
    while dim < d
        invariant
            dim <= d,
            forall|i: int|
                0 <= i < sqs@.len() ==> (#[trigger] sqs@[i]).well_formed() && sqs@[i].d == d,
            mins@.len() == dim,
            maxs@.len() == dim,
            forall|k: int|
                0 <= k < dim ==> #[trigger] mins@[k] == least(
                    INFINITE_DISTANCE,
                    Seq::new(sqs@.len(), |i: int| sqs@[i].mins@[k]),
                    sqs@.len(),
                ),
            forall|k: int|
                0 <= k < dim ==> #[trigger] maxs@[k] == greatest(
                    NEGATIVE_INFINITY,
                    Seq::new(sqs@.len(), |i: int| sqs@[i].maxs@[k]),
                    sqs@.len(),
                ),
        decreases d - dim,
    {
        let ghost lows = Seq::new(sqs@.len(), |i: int| sqs@[i].mins@[dim as int]);
        let ghost highs = Seq::new(sqs@.len(), |i: int| sqs@[i].maxs@[dim as int]);
        let mut low: u32 = INFINITE_DISTANCE;
        let mut high: u32 = NEGATIVE_INFINITY;
        let mut i: usize = 0;
        while i < sqs.len()
            invariant
                i <= sqs@.len(),
                dim < d,
                forall|j: int|
                    0 <= j < sqs@.len() ==> (#[trigger] sqs@[j]).well_formed() && sqs@[j].d == d,
                lows == Seq::new(sqs@.len(), |j: int| sqs@[j].mins@[dim as int]),
                highs == Seq::new(sqs@.len(), |j: int| sqs@[j].maxs@[dim as int]),
                low == least(INFINITE_DISTANCE, lows, i as nat),
                high == greatest(NEGATIVE_INFINITY, highs, i as nat),
            decreases sqs@.len() - i,
        {
            assert(sqs@[i as int].well_formed());
            low = float_min(low, sqs[i].mins[dim]);
            high = float_max(high, sqs[i].maxs[dim]);
            i = i + 1;
        }
        mins.push(low);
        maxs.push(high);
        dim = dim + 1;
    }
    (mins, maxs)
}

/// The values of all codes, 256 per dimension.
#[derive(Debug)]
pub struct ScalarQuantizerDecodeLut {
    d: usize,
    values: Vec<u32>,
}

impl ScalarQuantizerDecodeLut {
    pub closed spec fn spec_dimension(self) -> usize {
        self.d
    }

    /// The value of `code` in dimension `dim`.
    pub closed spec fn spec_value(self, code: u8, dim: int) -> u32 {
        self.values@[dim * 256 + code]
    }

    pub closed spec fn well_formed(self) -> bool {
        self.values@.len() == self.d * 256
    }

    pub fn decode_value(&self, code: u8, dim: usize) -> (value: u32)
        requires
            self.well_formed(),
            dim < self.spec_dimension(),
        ensures
            value == self.spec_value(code, dim as int),
    {
        let total: usize = self.values.len();
        self.values[dim * 256 + code as usize]
    }

    pub fn dimension(&self) -> (d: usize)
        ensures
            d == self.spec_dimension(),
    {
        self.d
    }
}

/// No number lies outside the extrema, and the extrema are numbers.
pub proof fn law_extrema_cover(values: Seq<u32>, n: nat, i: int)
    requires
        n <= values.len(),
        0 <= i < n,
        !crate::order::is_nan(values[i]),
    ensures
        !crate::order::less(values[i], least(INFINITE_DISTANCE, values, n)),
        !crate::order::less(greatest(NEGATIVE_INFINITY, values, n), values[i]),
        !crate::order::is_nan(least(INFINITE_DISTANCE, values, n)),
        !crate::order::is_nan(greatest(NEGATIVE_INFINITY, values, n)),
    decreases n,
{
    lemma_extrema_are_numbers(values, n);
    lemma_extrema_are_numbers(values, (n - 1) as nat);
    if i < n - 1 {
        law_extrema_cover(values, (n - 1) as nat, i);
    }
}

proof fn lemma_extrema_are_numbers(values: Seq<u32>, n: nat)
    requires
        n <= values.len(),
    ensures
        !crate::order::is_nan(least(INFINITE_DISTANCE, values, n)),
        !crate::order::is_nan(greatest(NEGATIVE_INFINITY, values, n)),
    decreases n,
{
    if n > 0 {
        lemma_extrema_are_numbers(values, (n - 1) as nat);
    }
}

/// Dimensions that are summed before a block may be given up.
pub open spec fn checkpoint(d: int) -> int {
    let half = if d / 2 > 32 {
        d / 2
    } else {
        32
    };
    if half < d {
        half
    } else {
        d
    }
}

fn checkpoint_of(d: usize) -> (at: usize)
    ensures
        at == checkpoint(d as int),
{
    let half: usize = if d / 2 > 32 {
        d / 2
    } else {
        32
    };
    if half < d {
        half
    } else {
        d
    }
}

/// The rows of the block that holds row `row`.
pub open spec fn sq_block_start(row: int, block_size: int) -> int {
    row / block_size * block_size
}

/// Every partial sum of the block that starts at `start` has reached the
/// cutoff.
pub open spec fn given_up(
    partial: Seq<u32>,
    start: int,
    count: int,
    block_size: int,
    cutoff: u32,
) -> bool {
    forall|i: int|
        start <= i < start + block_size && i < count ==> at_least(#[trigger] partial[i], cutoff)
}

/// What a blocked scan of squared distances computes: for each row a partial
/// sum up to the checkpoint, and the whole sum unless the row's block is given
/// up there.
pub open spec fn blocked_sums<P: Fn(usize, usize, usize, u32) -> u32>(
    sum_of: P,
    partial: Seq<u32>,
    distances: Seq<u32>,
    count: int,
    d: int,
    block_size: int,
    cutoff: u32,
) -> bool {
    &&& partial.len() == count
    &&& distances.len() == count
    &&& forall|i: int|
        0 <= i < count ==> call_ensures(
            sum_of,
            (i as usize, 0usize, checkpoint(d) as usize, 0u32),
            #[trigger] partial[i],
        )
    &&& forall|i: int|
        0 <= i < count ==> (if checkpoint(d) > 0 && given_up(
            partial,
            sq_block_start(i, block_size),
            count,
            block_size,
            cutoff,
        ) {
            #[trigger] distances[i] == partial[i]
        } else {
            call_ensures(
                sum_of,
                (i as usize, checkpoint(d) as usize, d as usize, partial[i]),
                distances[i],
            )
        })
}

/// Squared distances block by block; a block whose partial sums have all
/// reached the cutoff at the checkpoint is given up there. `sum_of` adds the
/// terms of a row's dimensions `start..end` to a sum.
#[verifier::loop_isolation(false)]
pub fn blocked_distances<P: Fn(usize, usize, usize, u32) -> u32>(
    sum_of: &P,
    count: usize,
    d: usize,
    block_size: usize,
    cutoff: u32,
) -> (distances: Vec<u32>)
    requires
        block_size > 0,
        forall|row: usize, start: usize, end: usize, sum: u32|
            row < count && start <= end <= d ==> #[trigger] call_requires(
                sum_of,
                (row, start, end, sum),
            ),
    ensures
        exists|partial: Seq<u32>| #[trigger]
            blocked_sums(
                *sum_of,
                partial,
                distances@,
                count as int,
                d as int,
                block_size as int,
                cutoff,
            ),
{
    let middle: usize = checkpoint_of(d);
    let mut distances: Vec<u32> = Vec::new();
    let ghost mut partial: Seq<u32> = Seq::empty();
    let mut start: usize = 0;
    while start < count
        invariant
            start <= count,
            start == count || start as int % block_size as int == 0,
            partial.len() == start,
            distances@.len() == start,
            forall|i: int|
                0 <= i < start ==> call_ensures(
                    sum_of,
                    (i as usize, 0usize, middle, 0u32),
                    #[trigger] partial[i],
                ),
            forall|i: int|
                0 <= i < start ==> (if middle > 0 && given_up(
                    partial,
                    sq_block_start(i, block_size as int),
                    start as int,
                    block_size as int,
                    cutoff,
                ) {
                    #[trigger] distances@[i] == partial[i]
                } else {
                    call_ensures(sum_of, (i as usize, middle, d, partial[i]), distances@[i])
                }),
            forall|i: int|
                0 <= i < start && start < count ==> sq_block_start(i, block_size as int)
                    + block_size <= start,
        decreases count - start,
    {
        let left: usize = count - start;
        let len: usize = if left < block_size {
            left
        } else {
            block_size
        };
        let mut sums: Vec<u32> = Vec::new();
        let mut reached: bool = true;
        let mut lane: usize = 0;
        while lane < len
            invariant
                lane <= len,
                sums@.len() == lane,
                forall|j: int|
                    0 <= j < lane ==> call_ensures(
                        sum_of,
                        ((start + j) as usize, 0usize, middle, 0u32),
                        #[trigger] sums@[j],
                    ),
                reached == (forall|j: int| 0 <= j < lane ==> at_least(#[trigger] sums@[j], cutoff)),
            decreases len - lane,
        {
            let sum: u32 = sum_of(start + lane, 0, middle, 0);
            let ghost before = sums@;
            sums.push(sum);
            let good: bool = is_at_least(sum, cutoff);
            proof {
                assert(forall|j: int| 0 <= j < lane ==> sums@[j] == before[j]);
                assert(sums@[lane as int] == sum);
                if reached && good {
                    assert forall|j: int| 0 <= j < lane + 1 implies at_least(
                        #[trigger] sums@[j],
                        cutoff,
                    ) by {
                        if j < lane {
                            assert(at_least(before[j], cutoff));
                        }
                    }
                } else if !reached {
                    let j = choose|j: int|
                        0 <= j < lane && !at_least(#[trigger] before[j], cutoff);
                    assert(!at_least(sums@[j], cutoff));
                }
            }
            reached = reached && good;
            lane = lane + 1;
        }
        let ghost all_partial = partial + sums@;
        let ghost done = distances@;
        let give_up: bool = middle > 0 && reached;
        let mut lane: usize = 0;
        while lane < len
            invariant
                lane <= len,
                distances@.len() == start + lane,
                forall|i: int| 0 <= i < start ==> distances@[i] == done[i],
                forall|j: int|
                    0 <= j < lane ==> (if give_up {
                        #[trigger] distances@[start + j] == sums@[j]
                    } else {
                        call_ensures(
                            sum_of,
                            ((start + j) as usize, middle, d, sums@[j]),
                            distances@[start + j],
                        )
                    }),
            decreases len - lane,
        {
            if give_up {
                distances.push(sums[lane]);
            } else {
                distances.push(sum_of(start + lane, middle, d, sums[lane]));
            }
            lane = lane + 1;
        }
        proof {
            let size = block_size as int;
            let next = start + len;
            assert forall|i: int| start <= i < next implies sq_block_start(i, size) == start by {
                lemma_block_of(start as int, size, i);
            }
            assert(given_up(all_partial, start as int, next as int, size, cutoff) == reached) by {
                if reached {
                    assert forall|i: int|
                        start <= i < start + size && i < next implies at_least(
                        #[trigger] all_partial[i],
                        cutoff,
                    ) by {
                        assert(all_partial[i] == sums@[i - start]);
                    }
                } else {
                    let j = choose|j: int| 0 <= j < len && !at_least(#[trigger] sums@[j], cutoff);
                    assert(all_partial[start + j] == sums@[j]);
                }
            }
            assert forall|i: int| 0 <= i < next implies call_ensures(
                sum_of,
                (i as usize, 0usize, middle, 0u32),
                #[trigger] all_partial[i],
            ) by {
                if i >= start {
                    assert(all_partial[i] == sums@[i - start]);
                } else {
                    assert(all_partial[i] == partial[i]);
                }
            }
            assert forall|i: int| 0 <= i < next implies (if middle > 0 && given_up(
                all_partial,
                sq_block_start(i, size),
                next as int,
                size,
                cutoff,
            ) {
                #[trigger] distances@[i] == all_partial[i]
            } else {
                call_ensures(sum_of, (i as usize, middle, d, all_partial[i]), distances@[i])
            }) by {
                if i < start {
                    let s = sq_block_start(i, size);
                    assert(s + size <= start);
                    assert(given_up(all_partial, s, next as int, size, cutoff) == given_up(
                        partial,
                        s,
                        start as int,
                        size,
                        cutoff,
                    )) by {
                        lemma_block_starts(i, size);
                        assert forall|j: int| s <= j < s + size implies all_partial[j]
                            == partial[j] by {}
                        if given_up(all_partial, s, next as int, size, cutoff) {
                            assert forall|j: int| s <= j < s + size && j < start implies at_least(
                                #[trigger] partial[j],
                                cutoff,
                            ) by {
                                assert(at_least(all_partial[j], cutoff));
                            }
                        }
                        if given_up(partial, s, start as int, size, cutoff) {
                            assert forall|j: int| s <= j < s + size && j < next implies at_least(
                                #[trigger] all_partial[j],
                                cutoff,
                            ) by {
                                assert(at_least(partial[j], cutoff));
                            }
                        }
                    }
                    assert(distances@[i] == done[i]);
                } else {
                    assert(distances@[start + (i - start)] == distances@[i]);
                    assert(all_partial[i] == sums@[i - start]);
                }
            }
            assert forall|i: int| 0 <= i < next && next < count implies sq_block_start(i, size)
                + size <= next by {
                if i < start {
                    assert(sq_block_start(i, size) + size <= start);
                }
            }
            if next < count {
                assert(len == block_size);
                lemma_next_block(start as int, size);
            }
            partial = all_partial;
        }
        start = start + len;
    }
    assert(blocked_sums(
        *sum_of,
        partial,
        distances@,
        count as int,
        d as int,
        block_size as int,
        cutoff,
    ));
    distances
}

proof fn lemma_next_block(start: int, size: int)
    requires
        size > 0,
        start % size == 0,
    ensures
        (start + size) % size == 0,
{
    vstd::arithmetic::div_mod::lemma_mod_add_multiples_vanish(start, size);
}

proof fn lemma_block_starts(row: int, size: int)
    requires
        size > 0,
        row >= 0,
    ensures
        0 <= sq_block_start(row, size) <= row,
{
    vstd::arithmetic::div_mod::lemma_fundamental_div_mod(row, size);
    vstd::arithmetic::div_mod::lemma_mod_bound(row, size);
    vstd::arithmetic::div_mod::lemma_div_pos_is_pos(row, size);
    assert(size * (row / size) == row / size * size) by (nonlinear_arith);
    assert(0 <= row / size * size) by (nonlinear_arith)
        requires
            0 <= row / size,
            size > 0,
    ;
}

proof fn lemma_block_of(start: int, size: int, row: int)
    requires
        size > 0,
        start >= 0,
        start % size == 0,
        start <= row < start + size,
    ensures
        sq_block_start(row, size) == start,
{
    vstd::arithmetic::div_mod::lemma_fundamental_div_mod(start, size);
    let q = start / size;
    assert(start == size * q);
    assert(size * q == q * size) by (nonlinear_arith);
    vstd::arithmetic::div_mod::lemma_fundamental_div_mod_converse(row, size, q, row - start);
    assert(row / size * size == start) by (nonlinear_arith)
        requires
            row / size == q,
            start == size * q,
    ;
}

/// Giving up blocks keeps every competitive distance: where sums never shrink,
/// a row whose whole sum is below the cutoff gets its whole sum, and every
/// other row gets something that is not below the cutoff.
pub proof fn law_cutoff_keeps_competitive_distances<P: Fn(usize, usize, usize, u32) -> u32>(
    sum_of: P,
    partial: Seq<u32>,
    distances: Seq<u32>,
    whole: Seq<u32>,
    count: int,
    d: int,
    block_size: int,
    cutoff: u32,
    row: int,
)
    requires
        block_size > 0,
        0 <= row < count <= usize::MAX,
        0 <= d <= usize::MAX,
        whole.len() == count,
        blocked_sums(sum_of, partial, distances, count, d, block_size, cutoff),
        forall|sum: u32| #[trigger]
            call_ensures(
                sum_of,
                (row as usize, checkpoint(d) as usize, d as usize, partial[row]),
                sum,
            ) ==> sum == whole[row],
        at_least(whole[row], partial[row]),
    ensures
        crate::order::less(whole[row], cutoff) ==> distances[row] == whole[row],
        !crate::order::less(whole[row], cutoff) ==> !crate::order::less(distances[row], cutoff),
{
    lemma_block_starts(row, block_size);
    vstd::arithmetic::div_mod::lemma_fundamental_div_mod(row, block_size);
    vstd::arithmetic::div_mod::lemma_mod_bound(row, block_size);
    let start = sq_block_start(row, block_size);
    assert(block_size * (row / block_size) == start) by (nonlinear_arith)
        requires
            start == row / block_size * block_size,
    ;
    assert(row < start + block_size);
    if checkpoint(d) > 0 && given_up(partial, start, count, block_size, cutoff) {
        assert(distances[row] == partial[row]);
        assert(at_least(partial[row], cutoff));
    } else {
        assert(distances[row] == whole[row]);
    }
}

} // verus!
