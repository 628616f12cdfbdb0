//! Encoding the residuals of chosen rows, and decoding batches of rows.
use crate::sq::ScalarQuantizer;
use vstd::prelude::*;

verus! {

impl ScalarQuantizer {
    /// Encodes one vector.
    pub fn encode<Q: Fn(u32, u32, u32) -> u8>(&self, vector: &[u32], scale: &Q) -> (code: Vec<u8>)
        requires
            self.well_formed(),
            self.d <= vector@.len(),
            forall|value: u32, min: u32, max: u32| #[trigger]
                call_requires(scale, (value, min, max)),
        ensures
            code@.len() == self.d,
            forall|dim: int|
                0 <= dim < self.d ==> self.encodes(
                    *scale,
                    vector@[dim],
                    dim,
                    #[trigger] code@[dim],
                ),
    {
        assert(1 * self.d == self.d) by (nonlinear_arith);
        let code = self.encode_batch(vector, 1, scale);
        proof {
            assert(0 * self.d == 0) by (nonlinear_arith);
            assert forall|dim: int| 0 <= dim < self.d implies self.encodes(
                *scale,
                vector@[dim],
                dim,
                #[trigger] code@[dim],
            ) by {
                assert(code@[0 * self.d + dim] == code@[dim]);
            }
        }
        code
    }

    /// `code` is a code of a residual of row `row`.
    pub open spec fn encodes_residual<
        S: Fn(u32, usize) -> u32,
        Q: Fn(u32, u32, u32) -> u8,
    >(self, subtract: S, scale: Q, value: u32, dim: int, code: u8) -> bool {
        exists|residual: u32| #[trigger]
            call_ensures(subtract, (value, dim as usize), residual) && self.encodes(
                scale,
                residual,
                dim,
                code,
            )
    }

    /// Encodes the residuals of some rows; `subtract` gives the residual of a
    /// component.
    pub fn encode_residual_rows<S: Fn(u32, usize) -> u32, Q: Fn(u32, u32, u32) -> u8>(
        &self,
        data: &[u32],
        rows: &[usize],
        subtract: &S,
        scale: &Q,
    ) -> (codes: Vec<u8>)
        requires
            self.well_formed(),
            forall|i: int| 0 <= i < rows@.len() ==> (#[trigger] rows@[i] + 1) * self.d
                <= data@.len(),
            forall|value: u32, dim: usize|
                dim < self.d ==> #[trigger] call_requires(subtract, (value, dim)),
            forall|value: u32, min: u32, max: u32| #[trigger]
                call_requires(scale, (value, min, max)),
        ensures
            codes@.len() == rows@.len() * self.d,
            forall|i: int, dim: int|
                #![trigger codes@[i * self.d + dim]]
                0 <= i < rows@.len() && 0 <= dim < self.d ==> self.encodes_residual(
                    *subtract,
                    *scale,
                    data@[rows@[i] * self.d + dim],
                    dim,
                    codes@[i * self.d + dim],
                ),
    {
        let total: usize = data.len();
        let mut codes: Vec<u8> = Vec::new();
        assert(0 * self.d == 0) by (nonlinear_arith);
        let mut i: usize = 0;
        while i < rows.len()
            invariant
                i <= rows@.len(),
                self.well_formed(),
                total == data@.len(),
                forall|k: int| 0 <= k < rows@.len() ==> (#[trigger] rows@[k] + 1) * self.d <= total,
                forall|value: u32, dim: usize|
                    dim < self.d ==> #[trigger] call_requires(subtract, (value, dim)),
                forall|value: u32, min: u32, max: u32| #[trigger]
                    call_requires(scale, (value, min, max)),
                codes@.len() == i * self.d,
                forall|k: int, dim: int|
                    #![trigger codes@[k * self.d + dim]]
                    0 <= k < i && 0 <= dim < self.d ==> self.encodes_residual(
                        *subtract,
                        *scale,
                        data@[rows@[k] * self.d + dim],
                        dim,
                        codes@[k * self.d + dim],
                    ),
            decreases rows@.len() - i,
        {
            let row: usize = rows[i];
            let ghost before = codes@;
            proof {
                assert((row + 1) * self.d <= total);
                assert((row + 1) * self.d == row * self.d + self.d && (i + 1) * self.d == i
                    * self.d + self.d && 0 <= row * self.d) by (nonlinear_arith);
            }
            let base: usize = row * self.d;
            let mut residuals: Vec<u32> = Vec::new();
            let mut dim: usize = 0;
            while dim < self.d
                invariant
                    dim <= self.d,
                    base + self.d <= total,
                    total == data@.len(),
                    forall|value: u32, k: usize|
                        k < self.d ==> #[trigger] call_requires(subtract, (value, k)),
                    residuals@.len() == dim,
                    forall|k: int|
                        0 <= k < dim ==> call_ensures(
                            subtract,
                            (data@[base + k], k as usize),
                            #[trigger] residuals@[k],
                        ),
                decreases self.d - dim,
            {
                residuals.push(subtract(data[base + dim], dim));
                dim = dim + 1;
            }
            let mut code = self.encode(residuals.as_slice(), scale);
            let ghost added = code@;
            codes.append(&mut code);
            proof {
                assert forall|k: int, d: int|
                    #![trigger codes@[k * self.d + d]]
                    0 <= k < i + 1 && 0 <= d < self.d implies self.encodes_residual(
                    *subtract,
                    *scale,
                    data@[rows@[k] * self.d + d],
                    d,
                    codes@[k * self.d + d],
                ) by {
                    if k < i {
                        assert(0 <= k * self.d && k * self.d + d < i * self.d)
                            by (nonlinear_arith)
                            requires
                                0 <= k < i,
                                0 <= d < self.d,
                        ;
                        assert(codes@[k * self.d + d] == before[k * self.d + d]);
                    } else {
                        assert(codes@[k * self.d + d] == added[d]);
                        assert(call_ensures(
                            *subtract,
                            (data@[base + d], d as usize),
                            residuals@[d],
                        ));
                    }
                }
            }
            i = i + 1;
        }
        codes
    }

    /// The values of the codes of `n` rows.
    pub fn decode_batch<P: Fn(u8, u32, u32) -> u32>(&self, codes: &[u8], n: usize, place: &P) -> (
    vectors: Vec<u32>)
        requires
            self.well_formed(),
            n * self.d <= codes@.len(),
            forall|code: u8, min: u32, max: u32| #[trigger] call_requires(place, (code, min, max)),
        ensures
            vectors@.len() == n * self.d,
            forall|row: int, dim: int|
                #![trigger vectors@[row * self.d + dim]]
                0 <= row < n && 0 <= dim < self.d ==> self.decodes(
                    *place,
                    codes@[row * self.d + dim],
                    dim,
                    vectors@[row * self.d + dim],
                ),
    {
        let total: usize = codes.len();
        let mut vectors: Vec<u32> = Vec::new();
        assert(0 * self.d == 0) by (nonlinear_arith);
        let mut row: usize = 0;
        while row < n
            invariant
                row <= n,
                self.well_formed(),
                total == codes@.len(),
                n * self.d <= total,
                forall|code: u8, min: u32, max: u32| #[trigger]
                    call_requires(place, (code, min, max)),
                vectors@.len() == row * self.d,
                forall|r: int, dim: int|
                    #![trigger vectors@[r * self.d + dim]]
                    0 <= r < row && 0 <= dim < self.d ==> self.decodes(
                        *place,
                        codes@[r * self.d + dim],
                        dim,
                        vectors@[r * self.d + dim],
                    ),
            decreases n - row,
        {
            let ghost before = vectors@;
            proof {
                assert((row + 1) * self.d == row * self.d + self.d && 0 <= row * self.d && (row
                    + 1) * self.d <= n * self.d) by (nonlinear_arith)
                    requires
                        row < n,
                ;
            }
            let base: usize = row * self.d;
            let mut dim: usize = 0;
            while dim < self.d
                invariant
                    dim <= self.d,
                    self.well_formed(),
                    total == codes@.len(),
                    base + self.d <= total,
                    forall|code: u8, min: u32, max: u32| #[trigger]
                        call_requires(place, (code, min, max)),
                    before.len() == base,
                    vectors@.len() == base + dim,
                    forall|i: int| 0 <= i < base ==> vectors@[i] == before[i],
                    forall|k: int|
                        0 <= k < dim ==> self.decodes(
                            *place,
                            codes@[base + k],
                            k,
                            #[trigger] vectors@[base + k],
                        ),
                decreases self.d - dim,
            {
                let value: u32 = self.decode_value(codes[base + dim], dim, place);
                vectors.push(value);
                dim = dim + 1;
            }
            proof {
                assert forall|r: int, k: int|
                    #![trigger vectors@[r * self.d + k]]
                    0 <= r < row + 1 && 0 <= k < self.d implies self.decodes(
                    *place,
                    codes@[r * self.d + k],
                    k,
                    vectors@[r * self.d + k],
                ) by {
                    if r < row {
                        assert(0 <= r * self.d && r * self.d + k < row * self.d)
                            by (nonlinear_arith)
                            requires
                                0 <= r < row,
                                0 <= k < self.d,
                        ;
                        assert(vectors@[r * self.d + k] == before[r * self.d + k]);
                    } else {
                        assert(vectors@[base + k] == vectors@[r * self.d + k]);
                    }
                }
            }
            row = row + 1;
        }
        vectors
    }

    /// The values of one code.
    pub fn decode<P: Fn(u8, u32, u32) -> u32>(&self, code: &[u8], place: &P) -> (vector: Vec<u32>)
        requires
            self.well_formed(),
            self.d <= code@.len(),
            forall|code: u8, min: u32, max: u32| #[trigger] call_requires(place, (code, min, max)),
        ensures
            vector@.len() == self.d,
            forall|dim: int|
                0 <= dim < self.d ==> self.decodes(*place, code@[dim], dim, #[trigger] vector@[dim]),
    {
        assert(1 * self.d == self.d) by (nonlinear_arith);
        let vector = self.decode_batch(code, 1, place);
        proof {
            assert(0 * self.d == 0) by (nonlinear_arith);
            assert forall|dim: int| 0 <= dim < self.d implies self.decodes(
                *place,
                code@[dim],
                dim,
                #[trigger] vector@[dim],
            ) by {
                assert(vector@[0 * self.d + dim] == vector@[dim]);
            }
        }
        vector
    }

    /// `sum` is a value of `code` moved by an offset.
    pub open spec fn decodes_moved<P: Fn(u8, u32, u32) -> u32, A: Fn(u32, u32) -> u32>(
        self,
        place: P,
        sum_of: A,
        code: u8,
        dim: int,
        offset: u32,
        sum: u32,
    ) -> bool {
        exists|value: u32|
            self.decodes(place, code, dim, value) && #[trigger] call_ensures(
                sum_of,
                (value, offset),
                sum,
            )
    }

    /// The values of the codes of `n` rows, with an offset added to each row.
    pub fn decode_batch_with_offset<P: Fn(u8, u32, u32) -> u32, A: Fn(u32, u32) -> u32>(
        &self,
        codes: &[u8],
        n: usize,
        offset: &[u32],
        place: &P,
        sum_of: &A,
    ) -> (vectors: Vec<u32>)
        requires
            self.well_formed(),
            n * self.d <= codes@.len(),
            self.d <= offset@.len(),
            forall|code: u8, min: u32, max: u32| #[trigger] call_requires(place, (code, min, max)),
            forall|a: u32, b: u32| #[trigger] call_requires(sum_of, (a, b)),
        ensures
            vectors@.len() == n * self.d,
            forall|row: int, dim: int|
                #![trigger vectors@[row * self.d + dim]]
                0 <= row < n && 0 <= dim < self.d ==> self.decodes_moved(
                    *place,
                    *sum_of,
                    codes@[row * self.d + dim],
                    dim,
                    offset@[dim],
                    vectors@[row * self.d + dim],
                ),
    {
        let decoded = self.decode_batch(codes, n, place);
        let total: usize = decoded.len();
        let mut vectors: Vec<u32> = Vec::new();
        assert(0 * self.d == 0) by (nonlinear_arith);
        let mut row: usize = 0;
        while row < n
            invariant
                row <= n,
                self.well_formed(),
                self.d <= offset@.len(),
                total == decoded@.len() == n * self.d,
                forall|a: u32, b: u32| #[trigger] call_requires(sum_of, (a, b)),
                forall|r: int, dim: int|
                    #![trigger decoded@[r * self.d + dim]]
                    0 <= r < n && 0 <= dim < self.d ==> self.decodes(
                        *place,
                        codes@[r * self.d + dim],
                        dim,
                        decoded@[r * self.d + dim],
                    ),
                vectors@.len() == row * self.d,
                forall|r: int, dim: int|
                    #![trigger vectors@[r * self.d + dim]]
                    0 <= r < row && 0 <= dim < self.d ==> self.decodes_moved(
                        *place,
                        *sum_of,
                        codes@[r * self.d + dim],
                        dim,
                        offset@[dim],
                        vectors@[r * self.d + dim],
                    ),
            decreases n - row,
        {
            let ghost before = vectors@;
            proof {
                assert((row + 1) * self.d == row * self.d + self.d && 0 <= row * self.d && (row
                    + 1) * self.d <= n * self.d) by (nonlinear_arith)
                    requires
                        row < n,
                ;
            }
            let base: usize = row * self.d;
            let mut dim: usize = 0;
            while dim < self.d
                invariant
                    dim <= self.d,
                    self.d <= offset@.len(),
                    total == decoded@.len(),
                    base + self.d <= total,
                    forall|a: u32, b: u32| #[trigger] call_requires(sum_of, (a, b)),
                    before.len() == base,
                    vectors@.len() == base + dim,
                    forall|i: int| 0 <= i < base ==> vectors@[i] == before[i],
                    forall|k: int|
                        0 <= k < dim ==> call_ensures(
                            sum_of,
                            (decoded@[base + k], offset@[k]),
                            #[trigger] vectors@[base + k],
                        ),
                decreases self.d - dim,
            {
                vectors.push(sum_of(decoded[base + dim], offset[dim]));
                dim = dim + 1;
            }
            proof {
                assert forall|r: int, k: int|
                    #![trigger vectors@[r * self.d + k]]
                    0 <= r < row + 1 && 0 <= k < self.d implies self.decodes_moved(
                    *place,
                    *sum_of,
                    codes@[r * self.d + k],
                    k,
                    offset@[k],
                    vectors@[r * self.d + k],
                ) by {
                    if r < row {
                        assert(0 <= r * self.d && r * self.d + k < row * self.d)
                            by (nonlinear_arith)
                            requires
                                0 <= r < row,
                                0 <= k < self.d,
                        ;
                        assert(vectors@[r * self.d + k] == before[r * self.d + k]);
                    } else {
                        assert(self.decodes(
                            *place,
                            codes@[r * self.d + k],
                            k,
                            decoded@[r * self.d + k],
                        ));
                        assert(call_ensures(
                            *sum_of,
                            (decoded@[base + k], offset@[k]),
                            vectors@[base + k],
                        ));
                    }
                }
            }
            row = row + 1;
        }
        vectors
    }
}

} // verus!
