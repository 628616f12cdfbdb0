//! Encoding vectors as the codes of their nearest centroids.
use crate::pq::{BatchEncoder, ProductQuantizer};
use vstd::prelude::*;
use vstd::slice::slice_subrange;

verus! {

/// How components are summed up.
#[derive(Debug, Clone, Copy, PartialEq, Eq, Structural)]
pub enum SumKind {
    /// The product of two components is added.
    Product,
    /// The square of a difference is added.
    Square,
    /// The square of a difference is added with a single rounding.
    Fused,
}

/// One step of the arithmetic of distances to centroids.
#[derive(Debug, Clone, Copy, PartialEq, Eq, Structural)]
pub enum EncodeStep {
    /// A sum with one more pair of components.
    Add { kind: SumKind, sum: u32, a: u32, b: u32 },
    /// The squared distance from two squared lengths and an inner product, at
    /// least zero.
    Close { query_norm: u32, centroid_norm: u32, product: u32 },
}

/// Every step has one result.
pub open spec fn is_arithmetic<F: Fn(EncodeStep) -> u32>(f: F) -> bool {
    &&& forall|step: EncodeStep| #[trigger] call_requires(f, (step,))
    &&& forall|step: EncodeStep, x: u32, y: u32| #[trigger]
        call_ensures(f, (step,), x) && #[trigger] call_ensures(f, (step,), y) ==> x == y
}

/// The result of a step.
pub open spec fn step_result<F: Fn(EncodeStep) -> u32>(f: F, step: EncodeStep) -> u32 {
    choose|x: u32| call_ensures(f, (step,), x)
}

fn take_step<F: Fn(EncodeStep) -> u32>(f: &F, step: EncodeStep) -> (x: u32)
    requires
        is_arithmetic(*f),
    ensures
        x == step_result(*f, step),
{
    let x: u32 = f(step);
    assert(call_ensures(*f, (step,), x));
    x
}

/// `width` components of `a` from `i` and of `b` from `j`, summed in turn from
/// zero.
pub open spec fn summed<F: Fn(EncodeStep) -> u32>(
    f: F,
    kind: SumKind,
    a: Seq<u32>,
    i: int,
    b: Seq<u32>,
    j: int,
    width: nat,
) -> u32
    decreases width,
{
    if width == 0 {
        0
    } else {
        let k = width - 1;
        step_result(
            f,
            EncodeStep::Add {
                kind,
                sum: summed(f, kind, a, i, b, j, k as nat),
                a: a[i + k],
                b: b[j + k],
            },
        )
    }
}

fn sum_chunk<F: Fn(EncodeStep) -> u32>(
    f: &F,
    kind: SumKind,
    a: &[u32],
    i: usize,
    b: &[u32],
    j: usize,
    width: usize,
) -> (sum: u32)
    requires
        is_arithmetic(*f),
        i + width <= a@.len(),
        j + width <= b@.len(),
    ensures
        sum == summed(*f, kind, a@, i as int, b@, j as int, width as nat),
{
    let a_len: usize = a.len();
    let b_len: usize = b.len();
    let mut sum: u32 = 0;
    let mut k: usize = 0;
    while k < width
        invariant
            is_arithmetic(*f),
            a_len == a@.len(),
            b_len == b@.len(),
            i + width <= a_len,
            j + width <= b_len,
            k <= width,
            sum == summed(*f, kind, a@, i as int, b@, j as int, k as nat),
        decreases width - k,
    {
        sum = take_step(f, EncodeStep::Add { kind, sum, a: a[i + k], b: b[j + k] });
        k = k + 1;
    }
    sum
}

/// The codebook is complete, with the squared lengths of all of its centroids
/// or of none, and distances to all of its centroids can be held.
pub open spec fn can_encode(pq: ProductQuantizer) -> bool {
    &&& crate::pq_tables::is_trained(pq)
    &&& pq.norms().len() == 0 || pq.norms().len() == pq.spec_m() * pq.spec_ksub()
}

/// The squared length of a centroid: the one that is kept, where any is.
pub open spec fn centroid_norm<F: Fn(EncodeStep) -> u32>(
    f: F,
    pq: ProductQuantizer,
    sub: int,
    code: int,
) -> u32 {
    if pq.norms().len() == 0 {
        let start = pq.centroid_at(sub, code, 0);
        summed(
            f,
            SumKind::Product,
            pq.codebook(),
            start,
            pq.codebook(),
            start,
            pq.spec_chunk_dim(sub) as nat,
        )
    } else {
        pq.norms()[sub * pq.spec_ksub() + code]
    }
}

/// The squared distance of a chunk of a vector to a centroid. Direct distances
/// are summed up with single roundings; the others are direct for chunks of
/// less than four components, and else made from lengths and inner products.
pub open spec fn centroid_distance<F: Fn(EncodeStep) -> u32>(
    f: F,
    pq: ProductQuantizer,
    x: Seq<u32>,
    direct: bool,
    sub: int,
    code: int,
) -> u32 {
    let at = pq.offsets()[sub] as int;
    let width = pq.spec_chunk_dim(sub) as nat;
    let start = pq.centroid_at(sub, code, 0);
    if direct {
        summed(f, SumKind::Fused, x, at, pq.codebook(), start, width)
    } else if width < 4 {
        summed(f, SumKind::Square, x, at, pq.codebook(), start, width)
    } else {
        step_result(
            f,
            EncodeStep::Close {
                query_norm: summed(f, SumKind::Product, x, at, x, at, width),
                centroid_norm: centroid_norm(f, pq, sub, code),
                product: summed(f, SumKind::Product, x, at, pq.codebook(), start, width),
            },
        )
    }
}

/// The squared distances of a vector to all centroids, chunk by chunk.
pub open spec fn all_distances<F: Fn(EncodeStep) -> u32>(
    f: F,
    pq: ProductQuantizer,
    x: Seq<u32>,
    direct: bool,
) -> Seq<u32> {
    let ksub = pq.spec_ksub() as int;
    Seq::new(
        (pq.spec_m() * pq.spec_ksub()) as nat,
        |at: int| centroid_distance(f, pq, x, direct, at / ksub, at % ksub),
    )
}

/// `code` names the nearest centroid of each chunk, by these distances; a
/// nibble that no chunk uses is zero.
pub open spec fn encodes(pq: ProductQuantizer, distances: Seq<u32>, code: Seq<u8>) -> bool {
    &&& code.len() == pq.spec_code_size()
    &&& forall|sub: int|
        0 <= sub < pq.spec_m() ==> crate::pq::is_argmin(
            distances.subrange(sub * pq.spec_ksub(), (sub + 1) * pq.spec_ksub()),
            #[trigger] crate::pq::code_of(code, pq.spec_nbits() as int, sub),
        )
    &&& pq.spec_nbits() == 4 && pq.spec_m() % 2 == 1 ==> code[pq.spec_code_size() - 1] < 16
}

/// A vector has one code: it is the same whatever batch the vector is encoded
/// in.
pub proof fn law_code_is_unique(
    pq: ProductQuantizer,
    distances: Seq<u32>,
    a: Seq<u8>,
    b: Seq<u8>,
)
    requires
        pq.well_formed(),
        encodes(pq, distances, a),
        encodes(pq, distances, b),
    ensures
        a == b,
{
    let nbits = pq.spec_nbits() as int;
    assert forall|sub: int| 0 <= sub < pq.spec_m() implies #[trigger] crate::pq::code_of(
        a,
        nbits,
        sub,
    ) == crate::pq::code_of(b, nbits, sub) by {
        crate::pq::law_argmin_is_unique(
            distances.subrange(sub * pq.spec_ksub(), (sub + 1) * pq.spec_ksub()),
            crate::pq::code_of(a, nbits, sub),
            crate::pq::code_of(b, nbits, sub),
        );
    }
    assert forall|p: int| 0 <= p < a.len() implies a[p] == b[p] by {
        if nbits == 4 {
            assert(crate::pq::code_of(a, nbits, 2 * p) == crate::pq::code_of(b, nbits, 2 * p));
            if 2 * p + 1 < pq.spec_m() {
                assert(crate::pq::code_of(a, nbits, 2 * p + 1) == crate::pq::code_of(
                    b,
                    nbits,
                    2 * p + 1,
                ));
            }
        } else {
            assert(crate::pq::code_of(a, nbits, p) == crate::pq::code_of(b, nbits, p));
        }
    }
    assert(a =~= b);
}

/// The codebook with the components of all centroids of a chunk side by side.
pub struct TransposedCodebook {
    pub values: Vec<u32>,
    pub stride: usize,
}

/// The transposed codebook belongs to the quantizer.
pub open spec fn is_transposed(pq: ProductQuantizer, table: TransposedCodebook) -> bool {
    let ksub = pq.spec_ksub() as int;
    let stride = table.stride as int;
    &&& table.stride == pq.spec_dsub() * pq.spec_ksub()
    &&& table.values@.len() == pq.spec_m() * table.stride
    &&& forall|sub: int, k: int, j: int|
        0 <= sub < pq.spec_m() && 0 <= k < pq.spec_dsub() && 0 <= j < ksub
            ==> #[trigger] table.values@[crate::pq::transposed_at(sub, k, j, stride, ksub)] == (
        if k < pq.spec_chunk_dim(sub) {
            pq.codebook()[pq.centroid_at(sub, j, k)]
        } else {
            0
        })
}

/// Every row of the batch has the code of its nearest centroids.
pub open spec fn encodes_batch<F: Fn(EncodeStep) -> u32>(
    f: F,
    pq: ProductQuantizer,
    data: Seq<u32>,
    n: int,
    direct: bool,
    codes: Seq<u8>,
) -> bool {
    let size = pq.spec_code_size();
    let d = pq.spec_d() as int;
    &&& codes.len() == n * size
    &&& forall|row: int|
        0 <= row < n ==> encodes(
            pq,
            all_distances(f, pq, data.subrange(row * d, (row + 1) * d), direct),
            #[trigger] codes.subrange(row * size, (row + 1) * size),
        )
}

impl ProductQuantizer {
    proof fn lemma_chunk_inside(self, sub: int, code: int)
        requires
            can_encode(self),
            0 <= sub < self.spec_m(),
            0 <= code < self.spec_ksub(),
        ensures
            0 <= self.offsets()[sub],
            0 <= self.spec_chunk_dim(sub),
            self.offsets()[sub + 1] <= self.spec_d(),
            0 <= self.offsets()[sub] * self.spec_ksub(),
            0 <= code * self.spec_chunk_dim(sub),
            0 <= self.centroid_at(sub, code, 0),
            self.centroid_at(sub, code, 0) + self.spec_chunk_dim(sub) <= self.codebook().len(),
            0 <= sub * self.spec_ksub() + code < self.spec_m() * self.spec_ksub(),
            (sub * self.spec_ksub() + code) / (self.spec_ksub() as int) == sub,
            (sub * self.spec_ksub() + code) % (self.spec_ksub() as int) == code,
    {
        let ksub = self.spec_ksub() as int;
        let m = self.spec_m() as int;
        let start = self.offsets()[sub] as int;
        let end = self.offsets()[sub + 1] as int;
        let width = end - start;
        assert(self.offsets()[sub] <= self.offsets()[sub + 1]);
        assert(self.offsets()[sub + 1] <= self.offsets().last());
        assert(0 <= start * ksub && 0 <= code * width && start * ksub + code * width + width
            <= self.spec_d() * ksub) by (nonlinear_arith)
            requires
                0 <= start,
                start + width == end,
                end <= self.spec_d(),
                0 <= code < ksub,
                0 <= width,
        ;
        assert(0 <= sub * ksub && sub * ksub + code < m * ksub) by (nonlinear_arith)
            requires
                0 <= sub < m,
                0 <= code < ksub,
        ;
        vstd::arithmetic::div_mod::lemma_fundamental_div_mod_converse(
            sub * ksub + code,
            ksub,
            sub,
            code,
        );
    }

    /// The squared distance of a chunk of a vector to a centroid, from lengths
    /// and inner products where the chunk is wide enough.
    fn expanded_distance<F: Fn(EncodeStep) -> u32>(
        &self,
        x: &[u32],
        sub: usize,
        code: usize,
        f: &F,
    ) -> (distance: u32)
        requires
            can_encode(*self),
            is_arithmetic(*f),
            x@.len() == self.spec_d(),
            sub < self.spec_m(),
            code < self.spec_ksub(),
        ensures
            distance == centroid_distance(*f, *self, x@, false, sub as int, code as int),
    {
        proof {
            self.lemma_chunk_inside(sub as int, code as int);
        }
        let width: usize = self.chunk_dim(sub);
        let at: usize = self.chunk_offsets()[sub];
        let centroids = self.centroids();
        let total: usize = centroids.len();
        let start: usize = self.centroid_chunk_base(sub) + code * width;
        if width < 4 {
            return sum_chunk(f, SumKind::Square, x, at, centroids, start, width);
        }
        let norms = self.centroid_norms();
        let norms_len: usize = norms.len();
        let centroid_norm: u32 = if norms_len == 0 {
            sum_chunk(f, SumKind::Product, centroids, start, centroids, start, width)
        } else {
            norms[sub * self.ksub() + code]
        };
        let query_norm: u32 = sum_chunk(f, SumKind::Product, x, at, x, at, width);
        let product: u32 = sum_chunk(f, SumKind::Product, x, at, centroids, start, width);
        take_step(f, EncodeStep::Close { query_norm, centroid_norm, product })
    }

    /// The direct squared distance of a chunk of a vector to a centroid.
    fn direct_distance<F: Fn(EncodeStep) -> u32>(
        &self,
        x: &[u32],
        table: &TransposedCodebook,
        sub: usize,
        code: usize,
        f: &F,
    ) -> (distance: u32)
        requires
            can_encode(*self),
            is_arithmetic(*f),
            is_transposed(*self, *table),
            x@.len() == self.spec_d(),
            sub < self.spec_m(),
            code < self.spec_ksub(),
        ensures
            distance == centroid_distance(*f, *self, x@, true, sub as int, code as int),
    {
        proof {
            self.lemma_chunk_inside(sub as int, code as int);
            crate::pq::lemma_widest_chunk(self.offsets(), self.spec_m() as nat);
        }
        let width: usize = self.chunk_dim(sub);
        let at: usize = self.chunk_offsets()[sub];
        let ksub: usize = self.ksub();
        let stride: usize = table.stride;
        let total: usize = table.values.len();
        let ghost start = self.centroid_at(sub as int, code as int, 0);
        let mut sum: u32 = 0;
        let mut k: usize = 0;
        while k < width
            invariant
                can_encode(*self),
                is_arithmetic(*f),
                is_transposed(*self, *table),
                x@.len() == self.spec_d(),
                sub < self.spec_m(),
                code < ksub,
                ksub == self.spec_ksub(),
                stride == table.stride,
                total == table.values@.len(),
                width == self.spec_chunk_dim(sub as int),
                width <= self.spec_dsub(),
                at == self.offsets()[sub as int],
                at + width <= self.spec_d(),
                start == self.centroid_at(sub as int, code as int, 0),
                k <= width,
                sum == summed(
                    *f,
                    SumKind::Fused,
                    x@,
                    at as int,
                    self.codebook(),
                    start,
                    k as nat,
                ),
            decreases width - k,
        {
            proof {
                let m = self.spec_m() as int;
                let dsub = self.spec_dsub() as int;
                assert(0 <= sub * stride && sub * stride + stride <= m * stride)
                    by (nonlinear_arith)
                    requires
                        0 <= sub < m,
                        0 <= stride,
                ;
                assert(0 <= k * ksub && k * ksub + ksub <= dsub * ksub) by (nonlinear_arith)
                    requires
                        0 <= k < dsub,
                        0 <= ksub,
                ;
                assert(table.values@[crate::pq::transposed_at(
                    sub as int,
                    k as int,
                    code as int,
                    stride as int,
                    ksub as int,
                )] == self.codebook()[self.centroid_at(sub as int, code as int, k as int)]);
            }
            let value: u32 = table.values[sub * stride + k * ksub + code];
            sum = take_step(f, EncodeStep::Add { kind: SumKind::Fused, sum, a: x[at + k], b: value });
            k = k + 1;
        }
        sum
    }

    /// The squared distances of a vector to all centroids, chunk by chunk:
    /// direct ones where a transposed codebook is given.
    pub fn centroid_distances<F: Fn(EncodeStep) -> u32>(
        &self,
        x: &[u32],
        transposed: Option<&TransposedCodebook>,
        f: &F,
    ) -> (distances: Vec<u32>)
        requires
            can_encode(*self),
            is_arithmetic(*f),
            transposed matches Some(table) ==> is_transposed(*self, *table),
            x@.len() == self.spec_d(),
        ensures
            distances@ == all_distances(*f, *self, x@, transposed is Some),
    {
        let m: usize = self.m();
        let ksub: usize = self.ksub();
        let ghost expected = all_distances(*f, *self, x@, transposed is Some);
        let mut distances: Vec<u32> = Vec::new();
        let mut sub: usize = 0;
        while sub < m
            invariant
                can_encode(*self),
                is_arithmetic(*f),
                transposed matches Some(table) ==> is_transposed(*self, *table),
                x@.len() == self.spec_d(),
                m == self.spec_m(),
                ksub == self.spec_ksub(),
                expected == all_distances(*f, *self, x@, transposed is Some),
                sub <= m,
                distances@.len() == sub * ksub,
                forall|at: int| 0 <= at < distances@.len() ==> distances@[at] == expected[at],
            decreases m - sub,
        {
            let mut code: usize = 0;
            while code < ksub
                invariant
                    can_encode(*self),
                    is_arithmetic(*f),
                    transposed matches Some(table) ==> is_transposed(*self, *table),
                    x@.len() == self.spec_d(),
                    m == self.spec_m(),
                    ksub == self.spec_ksub(),
                    expected == all_distances(*f, *self, x@, transposed is Some),
                    sub < m,
                    code <= ksub,
                    distances@.len() == sub * ksub + code,
                    forall|at: int| 0 <= at < distances@.len() ==> distances@[at] == expected[at],
                decreases ksub - code,
            {
                let distance: u32 = match transposed {
                    Some(table) => self.direct_distance(x, table, sub, code, f),
                    None => self.expanded_distance(x, sub, code, f),
                };
                proof {
                    self.lemma_chunk_inside(sub as int, code as int);
                    assert(distance == expected[sub * ksub + code]);
                }
                distances.push(distance);
                code = code + 1;
            }
            assert(sub * ksub + ksub == (sub + 1) * ksub) by (nonlinear_arith);
            sub = sub + 1;
        }
        assert(distances@ =~= expected);
        distances
    }

    /// The codes of `n` vectors, one after the other.
    pub fn encode_rows<F: Fn(EncodeStep) -> u32>(
        &self,
        data: &[u32],
        n: usize,
        transposed: Option<&TransposedCodebook>,
        f: &F,
    ) -> (codes: Vec<u8>)
        requires
            can_encode(*self),
            is_arithmetic(*f),
            transposed matches Some(table) ==> is_transposed(*self, *table),
            n * self.spec_d() <= data@.len(),
        ensures
            encodes_batch(*f, *self, data@, n as int, transposed is Some, codes@),
    {
        let d: usize = self.d();
        let size: usize = self.code_size();
        let total: usize = data.len();
        let mut codes: Vec<u8> = Vec::new();
        let mut row: usize = 0;
        while row < n
            invariant
                can_encode(*self),
                is_arithmetic(*f),
                transposed matches Some(table) ==> is_transposed(*self, *table),
                d == self.spec_d(),
                size == self.spec_code_size(),
                total == data@.len(),
                n * d <= total,
                row <= n,
                encodes_batch(*f, *self, data@, row as int, transposed is Some, codes@),
            decreases n - row,
        {
            assert(0 <= row * d && row * d + d <= n * d && row * d + d == (row + 1) * d)
                by (nonlinear_arith)
                requires
                    row < n,
            ;
            let x = slice_subrange(data, row * d, row * d + d);
            let distances = self.centroid_distances(x, transposed, f);
            let mut code: Vec<u8> = vec![0u8; size];
            self.encode(distances.as_slice(), &mut code);
            let ghost before = codes@;
            let ghost one = code@;
            codes.append(&mut code);
            proof {
                let after = codes@;
                assert(after =~= before + one);
                assert(row * size + size == (row + 1) * size && 0 <= row * size)
                    by (nonlinear_arith);
                assert(encodes(
                    *self,
                    all_distances(*f, *self, x@, transposed is Some),
                    one,
                ));
                assert forall|r: int| 0 <= r < row + 1 implies encodes(
                    *self,
                    all_distances(
                        *f,
                        *self,
                        data@.subrange(r * d, (r + 1) * d),
                        transposed is Some,
                    ),
                    #[trigger] after.subrange(r * size, (r + 1) * size),
                ) by {
                    if r < row {
                        assert(0 <= r * size && r * size <= (r + 1) * size && (r + 1) * size
                            <= row * size) by (nonlinear_arith)
                            requires
                                0 <= r < row,
                                0 <= size,
                        ;
                        assert(after.subrange(r * size, (r + 1) * size) =~= before.subrange(
                            r * size,
                            (r + 1) * size,
                        ));
                    } else {
                        assert(after.subrange(r * size, (r + 1) * size) =~= one);
                    }
                }
            }
            row = row + 1;
        }
        codes
    }

    /// The codes of `n` vectors, as each is encoded alone.
    pub fn encode_batch<F: Fn(EncodeStep) -> u32>(&self, data: &[u32], n: usize, f: &F) -> (codes:
        Vec<u8>)
        requires
            can_encode(*self),
            is_arithmetic(*f),
            n * self.spec_d() <= data@.len(),
        ensures
            encodes_batch(*f, *self, data@, n as int, false, codes@),
    {
        self.encode_rows(data, n, None, f)
    }

    /// The transposed codebook.
    pub fn transposed_codebook(&self) -> (table: TransposedCodebook)
        requires
            can_encode(*self),
            self.spec_m() * (self.spec_dsub() * self.spec_ksub()) <= usize::MAX,
        ensures
            is_transposed(*self, table),
    {
        let (values, stride) = self.build_transposed_codebook();
        TransposedCodebook { values, stride }
    }

    /// The codes of `n` vectors by the encoder for this shape: direct
    /// distances where chunks are wide and there is a fast way to compute
    /// them.
    pub fn encode_batch_blocked<F: Fn(EncodeStep) -> u32>(
        &self,
        data: &[u32],
        n: usize,
        fast_transposed: bool,
        f: &F,
    ) -> (codes: Vec<u8>)
        requires
            can_encode(*self),
            is_arithmetic(*f),
            n * self.spec_d() <= data@.len(),
            self.spec_m() * (self.spec_dsub() * self.spec_ksub()) <= usize::MAX,
        ensures
            encodes_batch(
                *f,
                *self,
                data@,
                n as int,
                self.wide_chunks() && fast_transposed,
                codes@,
            ),
    {
        match self.select_batch_encoder(fast_transposed) {
            BatchEncoder::Transposed => {
                let table = self.transposed_codebook();
                self.encode_rows(data, n, Some(&table), f)
            },
            BatchEncoder::Blocked | BatchEncoder::Canonical => self.encode_rows(data, n, None, f),
        }
    }
}

/// Splitting a batch changes nothing: a vector has the same code in every
/// batch that holds it.
pub proof fn law_batches_agree<F: Fn(EncodeStep) -> u32>(
    f: F,
    pq: ProductQuantizer,
    one: Seq<u32>,
    one_n: int,
    one_codes: Seq<u8>,
    other: Seq<u32>,
    other_n: int,
    other_codes: Seq<u8>,
    direct: bool,
    a: int,
    b: int,
)
    requires
        pq.well_formed(),
        encodes_batch(f, pq, one, one_n, direct, one_codes),
        encodes_batch(f, pq, other, other_n, direct, other_codes),
        0 <= a < one_n,
        0 <= b < other_n,
        one.subrange(a * pq.spec_d(), (a + 1) * pq.spec_d()) == other.subrange(
            b * pq.spec_d(),
            (b + 1) * pq.spec_d(),
        ),
    ensures
        one_codes.subrange(a * pq.spec_code_size(), (a + 1) * pq.spec_code_size())
            == other_codes.subrange(b * pq.spec_code_size(), (b + 1) * pq.spec_code_size()),
{
    let size = pq.spec_code_size();
    law_code_is_unique(
        pq,
        all_distances(f, pq, one.subrange(a * pq.spec_d(), (a + 1) * pq.spec_d()), direct),
        one_codes.subrange(a * size, (a + 1) * size),
        other_codes.subrange(b * size, (b + 1) * size),
    );
}

} // verus!
