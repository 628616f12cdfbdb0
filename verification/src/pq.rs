//! Product quantizer: chunk layout, codebook layout and code packing.
use crate::arith::quotient_up;
use crate::distance::copy_numbers;
use crate::order::{float_less, MAX_DISTANCE};
use vstd::prelude::*;

verus! {

/// Rows that one task of a batch encode takes at most.
pub const MAX_ENCODE_BLOCK_ROWS: usize = 512;

/// Splits vectors of `d` components into `m` contiguous chunks and codes each
/// chunk by the nearest of `ksub` centroids.
///
/// Centroids are chunk-major: chunk `i` starts at `chunk_offsets[i] * ksub`,
/// and each of its centroids holds as many components as the chunk is wide.
#[derive(Debug)]
pub struct ProductQuantizer {
    d: usize,
    m: usize,
    nbits: usize,
    dsub: usize,
    ksub: usize,
    chunk_offsets: Vec<usize>,
    centroids: Vec<u32>,
    centroid_norms: Vec<u32>,
}

/// Bounds of contiguous chunks that cover `0..d`.
pub open spec fn is_partition(offsets: Seq<usize>, d: int) -> bool {
    &&& offsets.len() >= 2
    &&& offsets[0] == 0
    &&& offsets.last() == d
    &&& forall|i: int, j: int|
        0 <= i <= j < offsets.len() ==> #[trigger] offsets[i] <= #[trigger] offsets[j]
}

/// Every chunk holds at least one component.
pub open spec fn is_strict(offsets: Seq<usize>) -> bool {
    forall|i: int, j: int|
        0 <= i < j < offsets.len() ==> #[trigger] offsets[i] < #[trigger] offsets[j]
}

/// The width of the widest chunk.
pub open spec fn widest_chunk(offsets: Seq<usize>, chunks: nat) -> int
    decreases chunks,
{
    if chunks == 0 {
        0
    } else {
        let before = widest_chunk(offsets, (chunks - 1) as nat);
        let width = offsets[chunks as int] - offsets[chunks - 1];
        if width > before {
            width
        } else {
            before
        }
    }
}

/// No chunk is wider than the widest, and one is as wide.
pub proof fn lemma_widest_chunk(offsets: Seq<usize>, chunks: nat)
    requires
        chunks < offsets.len(),
        forall|i: int, j: int|
            0 <= i <= j < offsets.len() ==> #[trigger] offsets[i] <= #[trigger] offsets[j],
    ensures
        forall|i: int|
            0 <= i < chunks ==> #[trigger] offsets[i + 1] - offsets[i] <= widest_chunk(
                offsets,
                chunks,
            ),
        chunks > 0 ==> exists|i: int|
            0 <= i < chunks && #[trigger] offsets[i + 1] - offsets[i] == widest_chunk(
                offsets,
                chunks,
            ),
        widest_chunk(offsets, chunks) >= 0,
        widest_chunk(offsets, chunks) <= offsets[chunks as int],
    decreases chunks,
{
    if chunks > 0 {
        let fewer = (chunks - 1) as nat;
        lemma_widest_chunk(offsets, fewer);
        let width = offsets[chunks as int] - offsets[chunks - 1];
        assert(offsets[chunks - 1] <= offsets[chunks as int]);
        if width > widest_chunk(offsets, fewer) || fewer == 0 {
            assert(offsets[(chunks - 1) + 1] - offsets[chunks - 1] == width);
        } else {
            let i = choose|i: int|
                0 <= i < fewer && #[trigger] offsets[i + 1] - offsets[i] == widest_chunk(
                    offsets,
                    fewer,
                );
            assert(offsets[i + 1] - offsets[i] == widest_chunk(offsets, chunks));
        }
    }
}

impl ProductQuantizer {
    pub closed spec fn spec_d(self) -> usize {
        self.d
    }

    pub closed spec fn spec_m(self) -> usize {
        self.m
    }

    pub closed spec fn spec_nbits(self) -> usize {
        self.nbits
    }

    pub closed spec fn spec_dsub(self) -> usize {
        self.dsub
    }

    pub closed spec fn spec_ksub(self) -> usize {
        self.ksub
    }

    pub closed spec fn offsets(self) -> Seq<usize> {
        self.chunk_offsets@
    }

    pub closed spec fn codebook(self) -> Seq<u32> {
        self.centroids@
    }

    /// The squared norm of each centroid, as computed for the codebook.
    pub closed spec fn norms(self) -> Seq<u32> {
        self.centroid_norms@
    }

    /// The layout that the constructors establish.
    pub open spec fn well_formed(self) -> bool {
        &&& is_partition(self.offsets(), self.spec_d() as int)
        &&& self.offsets().len() == self.spec_m() + 1
        &&& self.spec_nbits() == 4 || self.spec_nbits() == 8
        &&& self.spec_ksub() == (if self.spec_nbits() == 4 {
            16int
        } else {
            256
        })
        &&& self.spec_dsub() == widest_chunk(self.offsets(), self.spec_m() as nat)
        &&& self.codebook().len() == 0 || self.codebook().len() == self.spec_d() * self.spec_ksub()
    }

    pub open spec fn spec_chunk_dim(self, sub: int) -> int {
        self.offsets()[sub + 1] - self.offsets()[sub]
    }

    /// Where component `k` of centroid `code` of chunk `sub` is stored.
    pub open spec fn centroid_at(self, sub: int, code: int, k: int) -> int {
        self.offsets()[sub] * self.spec_ksub() + code * self.spec_chunk_dim(sub) + k
    }

    /// Vector dimension.
    pub fn d(&self) -> (d: usize)
        ensures
            d == self.spec_d(),
    {
        self.d
    }

    /// Number of chunks.
    pub fn m(&self) -> (m: usize)
        ensures
            m == self.spec_m(),
    {
        self.m
    }

    /// Bits per chunk code.
    pub fn nbits(&self) -> (nbits: usize)
        ensures
            nbits == self.spec_nbits(),
    {
        self.nbits
    }

    /// Width of the widest chunk.
    pub fn dsub(&self) -> (dsub: usize)
        ensures
            dsub == self.spec_dsub(),
    {
        self.dsub
    }

    /// Centroids per chunk.
    pub fn ksub(&self) -> (ksub: usize)
        ensures
            ksub == self.spec_ksub(),
    {
        self.ksub
    }

    /// Chunk bounds.
    pub fn chunk_offsets(&self) -> (offsets: &[usize])
        ensures
            offsets@ == self.offsets(),
    {
        self.chunk_offsets.as_slice()
    }

    /// Chunk-major codebook.
    pub fn centroids(&self) -> (centroids: &[u32])
        ensures
            centroids@ == self.codebook(),
    {
        self.centroids.as_slice()
    }

    /// Squared centroid norms, `ksub` per chunk; empty before training.
    pub fn centroid_norms(&self) -> (norms: &[u32])
        ensures
            norms@ == self.norms(),
    {
        self.centroid_norms.as_slice()
    }

    /// Eight-bit codes over chunks of equal width.
    pub fn new(d: usize, m: usize) -> (pq: Self)
        requires
            0 < m < usize::MAX,
            d % m == 0,
        ensures
            pq.well_formed(),
            pq.spec_d() == d,
            pq.spec_m() == m,
            pq.spec_nbits() == 8,
            forall|i: int| 0 <= i <= m ==> #[trigger] pq.offsets()[i] == i * (d / m),
            pq.codebook() == Seq::<u32>::empty(),
            pq.norms() == Seq::<u32>::empty(),
    {
        Self::with_nbits(d, m, 8)
    }

    /// Chunks of equal width.
    pub fn with_nbits(d: usize, m: usize, nbits: usize) -> (pq: Self)
        requires
            0 < m < usize::MAX,
            d % m == 0,
            nbits == 4 || nbits == 8,
        ensures
            pq.well_formed(),
            pq.spec_d() == d,
            pq.spec_m() == m,
            pq.spec_nbits() == nbits,
            forall|i: int| 0 <= i <= m ==> #[trigger] pq.offsets()[i] == i * (d / m),
            pq.codebook() == Seq::<u32>::empty(),
            pq.norms() == Seq::<u32>::empty(),
    {
        let dsub: usize = d / m;
        proof {
            vstd::arithmetic::div_mod::lemma_fundamental_div_mod(d as int, m as int);
        }
        assert(m * dsub == d);
        let mut offsets: Vec<usize> = Vec::new();
        let mut chunk: usize = 0;
        while chunk <= m
            invariant
                chunk <= m + 1,
                m < usize::MAX,
                m * dsub == d,
                offsets@.len() == chunk,
                forall|i: int| 0 <= i < chunk ==> #[trigger] offsets@[i] == i * dsub,
            decreases m + 1 - chunk,
        {
            assert(chunk * dsub <= m * dsub) by (nonlinear_arith)
                requires
                    chunk <= m,
            ;
            offsets.push(chunk * dsub);
            chunk = chunk + 1;
        }
        assert forall|i: int, j: int| 0 <= i <= j < offsets@.len() implies #[trigger] offsets@[i]
            <= #[trigger] offsets@[j] by {
            assert(i * dsub <= j * dsub) by (nonlinear_arith)
                requires
                    i <= j,
            ;
        }
        assert(offsets@[0] == 0 * dsub);
        assert(offsets@.last() == m * dsub);
        Self::with_layout(d, nbits, offsets)
    }

    /// Chunks whose widths differ by at most one; the first `d % m` chunks
    /// hold one component more.
    pub fn with_nbits_balanced(d: usize, m: usize, nbits: usize) -> (pq: Self)
        requires
            0 < d,
            0 < m <= d,
            m < usize::MAX,
            nbits == 4 || nbits == 8,
        ensures
            pq.well_formed(),
            pq.spec_d() == d,
            pq.spec_m() == m,
            pq.spec_nbits() == nbits,
            is_strict(pq.offsets()),
            forall|i: int|
                0 <= i <= m ==> #[trigger] pq.offsets()[i] == balanced_offset(
                    d as int,
                    m as int,
                    i,
                ),
            pq.codebook() == Seq::<u32>::empty(),
            pq.norms() == Seq::<u32>::empty(),
    {
        let base: usize = d / m;
        let remainder: usize = d % m;
        proof {
            vstd::arithmetic::div_mod::lemma_fundamental_div_mod(d as int, m as int);
            assert(base >= 1) by (nonlinear_arith)
                requires
                    d as int == m * base + remainder,
                    remainder < m,
                    m <= d,
            ;
        }
        let mut offsets: Vec<usize> = Vec::new();
        offsets.push(0);
        let mut offset: usize = 0;
        let mut chunk: usize = 0;
        while chunk < m
            invariant
                chunk <= m,
                0 < m <= d,
                base >= 1,
                d == m * base + remainder,
                remainder < m,
                base == d as int / m as int,
                remainder == d as int % m as int,
                offsets@.len() == chunk + 1,
                offset == balanced_offset(d as int, m as int, chunk as int),
                forall|i: int|
                    0 <= i <= chunk ==> #[trigger] offsets@[i] == balanced_offset(
                        d as int,
                        m as int,
                        i,
                    ),
            decreases m - chunk,
        {
            let extra: usize = if chunk < remainder {
                1
            } else {
                0
            };
            proof {
                lemma_balanced_step(d as int, m as int, chunk as int);
                lemma_balanced_bound(d as int, m as int, chunk + 1);
            }
            offset = offset + (base + extra);
            offsets.push(offset);
            chunk = chunk + 1;
        }
        proof {
            lemma_balanced_bound(d as int, m as int, m as int);
            assert forall|i: int, j: int| 0 <= i < j < offsets@.len() implies #[trigger] offsets@[i]
                < #[trigger] offsets@[j] by {
                lemma_balanced_increases(d as int, m as int, i, j);
            }
            assert(offsets@.last() == balanced_offset(d as int, m as int, m as int));
        }
        Self::with_layout(d, nbits, offsets)
    }

    /// Restores a stored chunk plan.
    pub fn try_with_chunk_offsets(d: usize, nbits: usize, chunk_offsets: Vec<usize>) -> (result:
        Result<Self, &'static str>)
        ensures
            match result {
                Ok(pq) => {
                    &&& layout_problem(d, nbits, chunk_offsets@) is None
                    &&& pq.well_formed()
                    &&& pq.spec_d() == d
                    &&& pq.spec_nbits() == nbits
                    &&& pq.offsets() == chunk_offsets@
                    &&& is_strict(pq.offsets())
                    &&& pq.codebook() == Seq::<u32>::empty()
                    &&& pq.norms() == Seq::<u32>::empty()
                },
                Err(message) => layout_problem(d, nbits, chunk_offsets@) == Some(message@),
            },
    {
        if d == 0 || !(nbits == 4 || nbits == 8) || chunk_offsets.len() < 2 {
            return Err("invalid PQ shape");
        }
        let last: usize = chunk_offsets[chunk_offsets.len() - 1];
        if chunk_offsets[0] != 0 || last != d {
            return Err("invalid PQ chunk bounds");
        }
        let mut i: usize = 1;
        while i < chunk_offsets.len()
            invariant
                1 <= i <= chunk_offsets@.len(),
                d != 0,
                nbits == 4 || nbits == 8,
                chunk_offsets@.len() >= 2,
                chunk_offsets@[0] == 0,
                chunk_offsets@.last() == d,
                forall|a: int, b: int|
                    0 <= a < b < i ==> #[trigger] chunk_offsets@[a] < #[trigger] chunk_offsets@[b],
            decreases chunk_offsets@.len() - i,
        {
            if chunk_offsets[i - 1] >= chunk_offsets[i] {
                assert(!is_strict(chunk_offsets@)) by {
                    assert(chunk_offsets@[i - 1] >= chunk_offsets@[i as int]);
                }
                return Err("PQ chunk offsets must be strictly increasing");
            }
            i = i + 1;
        }
        Ok(Self::with_layout(d, nbits, chunk_offsets))
    }

    fn with_layout(d: usize, nbits: usize, chunk_offsets: Vec<usize>) -> (pq: Self)
        requires
            nbits == 4 || nbits == 8,
            is_partition(chunk_offsets@, d as int),
        ensures
            pq.well_formed(),
            pq.spec_d() == d,
            pq.spec_nbits() == nbits,
            pq.offsets() == chunk_offsets@,
            pq.codebook() == Seq::<u32>::empty(),
            pq.norms() == Seq::<u32>::empty(),
    {
        let m: usize = chunk_offsets.len() - 1;
        let mut dsub: usize = 0;
        let mut i: usize = 0;
        while i < m
            invariant
                i <= m,
                m + 1 == chunk_offsets@.len(),
                is_partition(chunk_offsets@, d as int),
                dsub == widest_chunk(chunk_offsets@, i as nat),
            decreases m - i,
        {
            assert(chunk_offsets@[i as int] <= chunk_offsets@[i + 1]);
            let width: usize = chunk_offsets[i + 1] - chunk_offsets[i];
            if width > dsub {
                dsub = width;
            }
            i = i + 1;
        }
        let ksub: usize = if nbits == 4 {
            16
        } else {
            256
        };
        ProductQuantizer {
            d,
            m,
            nbits,
            dsub,
            ksub,
            chunk_offsets,
            centroids: Vec::new(),
            centroid_norms: Vec::new(),
        }
    }

    /// A quantizer with the same layout and codebook.
    pub fn duplicate(&self) -> (copy: Self)
        requires
            self.well_formed(),
        ensures
            copy.well_formed(),
            copy.spec_d() == self.spec_d(),
            copy.spec_m() == self.spec_m(),
            copy.spec_nbits() == self.spec_nbits(),
            copy.spec_dsub() == self.spec_dsub(),
            copy.spec_ksub() == self.spec_ksub(),
            copy.offsets() == self.offsets(),
            copy.codebook() == self.codebook(),
            copy.norms() == self.norms(),
    {
        let mut chunk_offsets: Vec<usize> = Vec::new();
        let mut i: usize = 0;
        while i < self.chunk_offsets.len()
            invariant
                i <= self.chunk_offsets@.len(),
                chunk_offsets@ == self.chunk_offsets@.take(i as int),
            decreases self.chunk_offsets@.len() - i,
        {
            chunk_offsets.push(self.chunk_offsets[i]);
            assert(self.chunk_offsets@.take(i + 1) =~= self.chunk_offsets@.take(i as int).push(
                self.chunk_offsets@[i as int],
            ));
            i = i + 1;
        }
        assert(self.chunk_offsets@.take(self.chunk_offsets@.len() as int) =~= self.chunk_offsets@);
        ProductQuantizer {
            d: self.d,
            m: self.m,
            nbits: self.nbits,
            dsub: self.dsub,
            ksub: self.ksub,
            chunk_offsets,
            centroids: copy_numbers(&self.centroids),
            centroid_norms: copy_numbers(&self.centroid_norms),
        }
    }

    /// The components of chunk `sub`.
    pub fn chunk_range(&self, sub: usize) -> (range: std::ops::Range<usize>)
        requires
            self.well_formed(),
            sub < self.spec_m(),
        ensures
            range.start == self.offsets()[sub as int],
            range.end == self.offsets()[sub + 1],
    {
        self.chunk_offsets[sub]..self.chunk_offsets[sub + 1]
    }

    /// The width of chunk `sub`.
    pub fn chunk_dim(&self, sub: usize) -> (width: usize)
        requires
            self.well_formed(),
            sub < self.spec_m(),
        ensures
            width == self.spec_chunk_dim(sub as int),
    {
        assert(self.chunk_offsets@[sub as int] <= self.chunk_offsets@[sub + 1]);
        self.chunk_offsets[sub + 1] - self.chunk_offsets[sub]
    }

    /// Where the centroids of chunk `sub` start.
    pub fn centroid_chunk_base(&self, sub: usize) -> (base: usize)
        requires
            self.well_formed(),
            sub < self.spec_m(),
            self.spec_d() * self.spec_ksub() <= usize::MAX,
        ensures
            base == self.offsets()[sub as int] * self.spec_ksub(),
    {
        proof {
            assert(self.chunk_offsets@[sub as int] <= self.chunk_offsets@.last());
            assert(self.chunk_offsets@[sub as int] * self.ksub <= self.d * self.ksub)
                by (nonlinear_arith)
                requires
                    self.chunk_offsets@[sub as int] <= self.d,
            ;
        }
        self.chunk_offsets[sub] * self.ksub
    }

    /// Bytes per encoded vector.
    pub fn code_size(&self) -> (size: usize)
        requires
            self.well_formed(),
        ensures
            size == self.spec_code_size(),
    {
        if self.nbits == 4 {
            quotient_up(self.m, 2)
        } else {
            self.m
        }
    }

    /// One byte per chunk, or one per two chunks of four bits.
    pub open spec fn spec_code_size(self) -> int {
        if self.spec_nbits() == 4 {
            crate::arith::ceil_div(self.spec_m() as int, 2)
        } else {
            self.spec_m() as int
        }
    }

    /// Whether the plan is strict and the codebook complete.
    pub fn has_valid_layout(&self) -> (valid: bool)
        requires
            self.well_formed(),
        ensures
            valid == (layout_problem(self.spec_d(), self.spec_nbits(), self.offsets()) is None
                && self.codebook().len() == self.spec_d() * self.spec_ksub()),
    {
        if self.d == 0 {
            return false;
        }
        let mut i: usize = 1;
        while i < self.chunk_offsets.len()
            invariant
                1 <= i <= self.chunk_offsets@.len(),
                self.well_formed(),
                forall|a: int, b: int|
                    0 <= a < b < i ==> #[trigger] self.chunk_offsets@[a]
                        < #[trigger] self.chunk_offsets@[b],
            decreases self.chunk_offsets@.len() - i,
        {
            if self.chunk_offsets[i - 1] >= self.chunk_offsets[i] {
                assert(!is_strict(self.chunk_offsets@)) by {
                    assert(self.chunk_offsets@[i - 1] >= self.chunk_offsets@[i as int]);
                }
                return false;
            }
            i = i + 1;
        }
        proof {
            assert(self.d * self.ksub > 0) by (nonlinear_arith)
                requires
                    self.d > 0,
                    self.ksub > 0,
            ;
        }
        self.centroids.len() > 0
    }

    /// Replaces the codebook; no squared lengths of its centroids are kept.
    pub(crate) fn replace_codebook(&mut self, centroids: Vec<u32>)
        requires
            old(self).well_formed(),
            centroids@.len() == old(self).spec_d() * old(self).spec_ksub(),
        ensures
            final(self).well_formed(),
            final(self).codebook() == centroids@,
            final(self).norms().len() == 0,
            final(self).offsets() == old(self).offsets(),
            final(self).spec_d() == old(self).spec_d(),
            final(self).spec_m() == old(self).spec_m(),
            final(self).spec_nbits() == old(self).spec_nbits(),
            final(self).spec_dsub() == old(self).spec_dsub(),
            final(self).spec_ksub() == old(self).spec_ksub(),
    {
        self.centroids = centroids;
        self.centroid_norms = Vec::new();
    }

    /// Keeps the squared lengths of the centroids.
    pub(crate) fn keep_norms(&mut self, norms: Vec<u32>)
        requires
            old(self).well_formed(),
        ensures
            final(self).well_formed(),
            final(self).codebook() == old(self).codebook(),
            final(self).norms() == norms@,
            final(self).offsets() == old(self).offsets(),
            final(self).spec_d() == old(self).spec_d(),
            final(self).spec_m() == old(self).spec_m(),
            final(self).spec_nbits() == old(self).spec_nbits(),
            final(self).spec_dsub() == old(self).spec_dsub(),
            final(self).spec_ksub() == old(self).spec_ksub(),
    {
        self.centroid_norms = norms;
    }
}

/// Where chunk `i` starts in a balanced layout.
pub open spec fn balanced_offset(d: int, m: int, i: int) -> int {
    i * (d / m) + (if i < d % m {
        i
    } else {
        d % m
    })
}

proof fn lemma_balanced_step(d: int, m: int, i: int)
    requires
        0 <= i < m,
    ensures
        balanced_offset(d, m, i + 1) == balanced_offset(d, m, i) + d / m + (if i < d % m {
            1int
        } else {
            0
        }),
{
    let base = d / m;
    assert((i + 1) * base == i * base + base) by (nonlinear_arith);
}

proof fn lemma_balanced_bound(d: int, m: int, i: int)
    requires
        0 < m <= d,
        0 <= i <= m,
    ensures
        0 <= balanced_offset(d, m, i) <= d,
        balanced_offset(d, m, m) == d,
{
    let base = d / m;
    vstd::arithmetic::div_mod::lemma_fundamental_div_mod(d, m);
    assert(i * base <= m * base && 0 <= i * base) by (nonlinear_arith)
        requires
            0 <= i <= m,
            base >= 0,
    ;
}

proof fn lemma_balanced_increases(d: int, m: int, i: int, j: int)
    requires
        0 < m <= d,
        0 <= i < j <= m,
    ensures
        balanced_offset(d, m, i) < balanced_offset(d, m, j),
{
    let base = d / m;
    vstd::arithmetic::div_mod::lemma_fundamental_div_mod(d, m);
    assert(base >= 1) by (nonlinear_arith)
        requires
            d == m * base + d % m,
            d % m < m,
            m <= d,
            m > 0,
    ;
    assert(i * base < j * base) by (nonlinear_arith)
        requires
            i < j,
            base >= 1,
    ;
}

/// The chunks of a balanced layout differ in width by at most one, and the
/// wider ones come first.
pub proof fn law_balanced_widths(d: int, m: int, i: int)
    requires
        0 < m <= d,
        0 <= i < m,
    ensures
        balanced_offset(d, m, i + 1) - balanced_offset(d, m, i) == d / m + (if i < d % m {
            1int
        } else {
            0
        }),
        balanced_offset(d, m, 0) == 0,
        balanced_offset(d, m, m) == d,
{
    lemma_balanced_step(d, m, i);
    lemma_balanced_bound(d, m, i);
}

/// What is wrong with a stored chunk plan.
pub open spec fn layout_problem(d: usize, nbits: usize, offsets: Seq<usize>) -> Option<Seq<char>> {
    if d == 0 || !(nbits == 4 || nbits == 8) || offsets.len() < 2 {
        Some("invalid PQ shape"@)
    } else if offsets[0] != 0 || offsets.last() != d {
        Some("invalid PQ chunk bounds"@)
    } else if !is_strict(offsets) {
        Some("PQ chunk offsets must be strictly increasing"@)
    } else {
        None
    }
}

/// `best` is the first of the smallest distances; zero if none is below the
/// largest finite number. A distance that is not a number never wins.
pub open spec fn is_argmin(distances: Seq<u32>, best: int) -> bool {
    if exists|j: int|
        0 <= j < distances.len() && crate::order::less(#[trigger] distances[j], MAX_DISTANCE) {
        &&& 0 <= best < distances.len()
        &&& crate::order::less(distances[best], MAX_DISTANCE)
        &&& forall|j: int|
            0 <= j < distances.len() ==> !crate::order::less(
                #[trigger] distances[j],
                distances[best],
            )
        &&& forall|j: int|
            0 <= j < best ==> crate::order::is_nan(#[trigger] distances[j]) || crate::order::less(
                distances[best],
                distances[j],
            )
    } else {
        best == 0
    }
}

/// Only one index is the argmin.
pub proof fn law_argmin_is_unique(distances: Seq<u32>, a: int, b: int)
    requires
        is_argmin(distances, a),
        is_argmin(distances, b),
    ensures
        a == b,
{
    if exists|j: int|
        0 <= j < distances.len() && crate::order::less(#[trigger] distances[j], MAX_DISTANCE) {
        if a < b {
            assert(!crate::order::less(distances[b], distances[a]));
        } else if b < a {
            assert(!crate::order::less(distances[a], distances[b]));
        }
    }
}

/// The code of the nearest centroid; ties go to the smallest code.
pub fn argmin_code(distances: &[u32]) -> (code: u8)
    requires
        distances@.len() <= 256,
    ensures
        is_argmin(distances@, code as int),
{
    let mut best: usize = 0;
    let mut best_distance: u32 = MAX_DISTANCE;
    let mut j: usize = 0;
    while j < distances.len()
        invariant
            j <= distances@.len() <= 256,
            best <= j,
            best_distance == MAX_DISTANCE ==> best == 0 && forall|i: int|
                0 <= i < j ==> !crate::order::less(#[trigger] distances@[i], MAX_DISTANCE),
            best_distance != MAX_DISTANCE ==> {
                &&& best < j
                &&& best_distance == distances@[best as int]
                &&& crate::order::less(best_distance, MAX_DISTANCE)
                &&& forall|i: int|
                    0 <= i < j ==> !crate::order::less(#[trigger] distances@[i], best_distance)
                &&& forall|i: int|
                    0 <= i < best ==> crate::order::is_nan(#[trigger] distances@[i])
                        || crate::order::less(best_distance, distances@[i])
            },
        decreases distances@.len() - j,
    {
        if float_less(distances[j], best_distance) {
            best_distance = distances[j];
            best = j;
        }
        j = j + 1;
    }
    best as u8
}

/// Two four-bit codes in one byte, the first in the low nibble.
pub open spec fn packed(low: int, high: int) -> int {
    low + 16 * high
}

/// The code of chunk `sub`.
pub open spec fn code_of(codes: Seq<u8>, nbits: int, sub: int) -> int {
    if nbits == 4 {
        if sub % 2 == 0 {
            codes[sub / 2] as int % 16
        } else {
            codes[sub / 2] as int / 16
        }
    } else {
        codes[sub] as int
    }
}

/// Where byte `p` of a row's code lies in the codes of a list.
pub open spec fn list_byte(count: int, size: int, row: int, p: int, transposed: bool) -> int {
    if transposed {
        p * count + row
    } else {
        row * size + p
    }
}

/// What packing two codes stores, reading gives back.
pub proof fn law_nibbles_round_trip(low: int, high: int)
    requires
        0 <= low < 16,
        0 <= high < 16,
    ensures
        0 <= packed(low, high) < 256,
        packed(low, high) % 16 == low,
        packed(low, high) / 16 == high,
{
}

impl ProductQuantizer {
    /// Codes of the nearest centroids, from the distances of the vector's
    /// chunks to their centroids, `ksub` per chunk. With an odd number of
    /// four-bit codes the last high nibble is zero.
    pub fn encode(&self, distances: &[u32], codes: &mut Vec<u8>)
        requires
            self.well_formed(),
            self.spec_m() * self.spec_ksub() <= distances@.len(),
            old(codes)@.len() >= self.spec_code_size(),
        ensures
            final(codes)@.len() == old(codes)@.len(),
            forall|sub: int|
                0 <= sub < self.spec_m() ==> is_argmin(
                    distances@.subrange(sub * self.spec_ksub(), (sub + 1) * self.spec_ksub()),
                    #[trigger] code_of(final(codes)@, self.spec_nbits() as int, sub),
                ),
            self.spec_nbits() == 4 && self.spec_m() % 2 == 1
                ==> final(codes)@[self.spec_code_size() - 1] < 16,
            forall|i: int|
                self.spec_code_size() <= i < old(codes)@.len() ==> final(codes)@[i] == old(codes)@[i],
    {
        if self.nbits == 4 {
            let pairs: usize = self.code_size();
            let mut pair: usize = 0;
            while pair < pairs
                invariant
                    self.well_formed(),
                    self.nbits == 4,
                    pairs == self.spec_code_size(),
                    pair <= pairs,
                    self.m * self.ksub <= distances@.len(),
                    codes@.len() == old(codes)@.len(),
                    pairs <= codes@.len(),
                    forall|sub: int|
                        0 <= sub < self.m && sub < 2 * pair ==> is_argmin(
                            distances@.subrange(sub * self.ksub, (sub + 1) * self.ksub),
                            #[trigger] code_of(codes@, 4, sub),
                        ),
                    self.m % 2 == 1 && pair == pairs ==> codes@[pairs - 1] < 16,
                    forall|i: int| pairs <= i < codes@.len() ==> codes@[i] == old(codes)@[i],
                decreases pairs - pair,
            {
                let low: u8 = self.nearest_code(distances, pair * 2);
                let high: u8 = if pair * 2 + 1 < self.m {
                    self.nearest_code(distances, pair * 2 + 1)
                } else {
                    0
                };
                let ghost before = codes@;
                let byte: u8 = low + high * 16;
                codes.set(pair, byte);
                assert forall|sub: int| 0 <= sub < self.m && sub < 2 * (pair + 1) implies is_argmin(
                    distances@.subrange(sub * self.ksub, (sub + 1) * self.ksub),
                    #[trigger] code_of(codes@, 4, sub),
                ) by {
                    if sub < 2 * pair {
                        assert(code_of(before, 4, sub) == code_of(codes@, 4, sub));
                    } else {
                        assert(byte as int % 16 == low && byte as int / 16 == high);
                    }
                }
                pair = pair + 1;
            }
        } else {
            let mut sub: usize = 0;
            while sub < self.m
                invariant
                    self.well_formed(),
                    self.nbits == 8,
                    sub <= self.m,
                    self.m * self.ksub <= distances@.len(),
                    codes@.len() == old(codes)@.len(),
                    self.m <= codes@.len(),
                    forall|s: int|
                        0 <= s < sub ==> is_argmin(
                            distances@.subrange(s * self.ksub, (s + 1) * self.ksub),
                            #[trigger] code_of(codes@, 8, s),
                        ),
                    forall|i: int| self.m <= i < codes@.len() ==> codes@[i] == old(codes)@[i],
                decreases self.m - sub,
            {
                let code: u8 = self.nearest_code(distances, sub);
                let ghost before = codes@;
                codes.set(sub, code);
                assert forall|s: int| 0 <= s < sub + 1 implies is_argmin(
                    distances@.subrange(s * self.ksub, (s + 1) * self.ksub),
                    #[trigger] code_of(codes@, 8, s),
                ) by {
                    if s < sub {
                        assert(code_of(before, 8, s) == code_of(codes@, 8, s));
                    }
                }
                sub = sub + 1;
            }
        }
    }

    /// The nearest centroid of one chunk.
    fn nearest_code(&self, distances: &[u32], sub: usize) -> (code: u8)
        requires
            self.well_formed(),
            sub < self.spec_m(),
            self.spec_m() * self.spec_ksub() <= distances@.len(),
        ensures
            is_argmin(
                distances@.subrange(sub * self.spec_ksub(), (sub + 1) * self.spec_ksub()),
                code as int,
            ),
            code < self.spec_ksub(),
    {
        proof {
            assert(sub * self.ksub + self.ksub == (sub + 1) * self.ksub) by (nonlinear_arith);
            assert((sub + 1) * self.ksub <= self.m * self.ksub) by (nonlinear_arith)
                requires
                    sub < self.m,
            ;
        }
        let total: usize = distances.len();
        let start: usize = sub * self.ksub;
        let code: u8 = argmin_code(vstd::slice::slice_subrange(distances, start, start + self.ksub));
        code
    }

    /// Reads the code of chunk `sub`.
    pub fn read_code(&self, codes: &[u8], sub: usize) -> (code: usize)
        requires
            self.well_formed(),
            sub < self.spec_m(),
            codes@.len() >= self.spec_code_size(),
        ensures
            code == code_of(codes@, self.spec_nbits() as int, sub as int),
            code < self.spec_ksub(),
    {
        if self.nbits == 4 {
            let byte: usize = codes[sub / 2] as usize;
            if sub % 2 == 0 {
                byte % 16
            } else {
                byte / 16
            }
        } else {
            codes[sub] as usize
        }
    }

    /// Where each chunk's code looks up a distance table of `ksub` entries per
    /// chunk.
    pub fn table_offsets(&self, codes: &[u8]) -> (offsets: Vec<usize>)
        requires
            self.well_formed(),
            codes@.len() >= self.spec_code_size(),
            self.spec_m() * self.spec_ksub() <= usize::MAX,
        ensures
            offsets@.len() == self.spec_m(),
            forall|sub: int|
                0 <= sub < self.spec_m() ==> #[trigger] offsets@[sub] == sub * self.spec_ksub()
                    + code_of(codes@, self.spec_nbits() as int, sub) && offsets@[sub]
                    < self.spec_m() * self.spec_ksub(),
    {
        let mut offsets: Vec<usize> = Vec::new();
        let mut sub: usize = 0;
        while sub < self.m
            invariant
                self.well_formed(),
                sub <= self.m,
                codes@.len() >= self.spec_code_size(),
                self.m * self.ksub <= usize::MAX,
                offsets@.len() == sub,
                forall|s: int|
                    0 <= s < sub ==> #[trigger] offsets@[s] == s * self.ksub + code_of(
                        codes@,
                        self.nbits as int,
                        s,
                    ) && offsets@[s] < self.m * self.ksub,
            decreases self.m - sub,
        {
            let code: usize = self.read_code(codes, sub);
            assert(sub * self.ksub + self.ksub <= self.m * self.ksub) by (nonlinear_arith)
                requires
                    sub < self.m,
            ;
            offsets.push(sub * self.ksub + code);
            sub = sub + 1;
        }
        offsets
    }

    /// The code of one row of a list of `count` rows. Row by row, a row's bytes
    /// lie together; transposed, byte `p` of all rows does.
    pub fn row_code(&self, codes: &[u8], count: usize, row: usize, transposed: bool) -> (code: Vec<
        u8,
    >)
        requires
            self.well_formed(),
            row < count,
            codes@.len() == count * self.spec_code_size(),
        ensures
            code@.len() == self.spec_code_size(),
            forall|p: int|
                0 <= p < code@.len() ==> #[trigger] code@[p] == codes@[list_byte(
                    count as int,
                    self.spec_code_size(),
                    row as int,
                    p,
                    transposed,
                )],
    {
        let size: usize = self.code_size();
        let total: usize = codes.len();
        let mut code: Vec<u8> = Vec::new();
        let mut p: usize = 0;
        while p < size
            invariant
                p <= size,
                size == self.spec_code_size(),
                row < count,
                total == codes@.len() == count * size,
                code@.len() == p,
                forall|q: int|
                    0 <= q < p ==> #[trigger] code@[q] == codes@[list_byte(
                        count as int,
                        size as int,
                        row as int,
                        q,
                        transposed,
                    )],
            decreases size - p,
        {
            assert(0 <= row * size && row * size + size <= count * size) by (nonlinear_arith)
                requires
                    row + 1 <= count,
            ;
            assert(0 <= p * count && p * count + count <= count * size) by (nonlinear_arith)
                requires
                    p + 1 <= size,
            ;
            let byte: u8 = if transposed {
                codes[p * count + row]
            } else {
                codes[row * size + p]
            };
            code.push(byte);
            p = p + 1;
        }
        code
    }

    /// A component of a centroid lies inside the codebook.
    proof fn lemma_centroid_inside(self, sub: int, code: int, k: int)
        requires
            self.well_formed(),
            0 <= sub < self.spec_m(),
            0 <= code < self.spec_ksub(),
            0 <= k < self.spec_chunk_dim(sub),
        ensures
            0 <= self.centroid_at(sub, code, k) < self.spec_d() * self.spec_ksub(),
            0 <= self.offsets()[sub] * self.spec_ksub(),
            0 <= code * self.spec_chunk_dim(sub),
            self.offsets()[sub] * self.spec_ksub() + code * self.spec_chunk_dim(sub)
                + self.spec_chunk_dim(sub) <= self.spec_d() * self.spec_ksub(),
    {
        let start = self.offsets()[sub] as int;
        let end = self.offsets()[sub + 1] as int;
        let width = end - start;
        let ksub = self.spec_ksub() as int;
        assert(self.offsets()[sub + 1] <= self.offsets().last());
        assert(0 <= start * ksub && 0 <= code * width && start * ksub + code * width + width
            <= self.spec_d() * ksub) by (nonlinear_arith)
            requires
                0 <= start,
                start + width == end,
                end <= self.spec_d(),
                0 <= code < ksub,
                0 <= width,
        ;
    }

    /// The vector that the codes stand for: each chunk is copied from its
    /// centroid.
    pub fn decode(&self, codes: &[u8], x: &mut Vec<u32>)
        requires
            self.well_formed(),
            self.codebook().len() == self.spec_d() * self.spec_ksub(),
            codes@.len() >= self.spec_code_size(),
            old(x)@.len() >= self.spec_d(),
        ensures
            final(x)@.len() == old(x)@.len(),
            forall|sub: int, k: int|
                0 <= sub < self.spec_m() && 0 <= k < self.spec_chunk_dim(sub)
                    ==> final(x)@[self.offsets()[sub] + k]
                    == #[trigger] self.codebook()[self.centroid_at(
                    sub,
                    code_of(codes@, self.spec_nbits() as int, sub),
                    k,
                )],
            forall|i: int| self.spec_d() <= i < old(x)@.len() ==> final(x)@[i] == old(x)@[i],
    {
        let total: usize = self.centroids.len();
        let mut sub: usize = 0;
        while sub < self.m
            invariant
                self.well_formed(),
                sub <= self.m,
                total == self.d * self.ksub,
                self.centroids@.len() == total,
                codes@.len() >= self.spec_code_size(),
                x@.len() == old(x)@.len(),
                x@.len() >= self.d,
                forall|s: int, k: int|
                    0 <= s < sub && 0 <= k < self.spec_chunk_dim(s) ==> x@[self.offsets()[s] + k]
                        == #[trigger] self.codebook()[self.centroid_at(
                        s,
                        code_of(codes@, self.nbits as int, s),
                        k,
                    )],
                forall|i: int| self.d <= i < x@.len() ==> x@[i] == old(x)@[i],
            decreases self.m - sub,
        {
            let code: usize = self.read_code(codes, sub);
            let start: usize = self.chunk_offsets[sub];
            let width: usize = self.chunk_dim(sub);
            assert(self.chunk_offsets@[sub + 1] <= self.chunk_offsets@.last());
            let mut k: usize = 0;
            while k < width
                invariant
                    self.well_formed(),
                    sub < self.m,
                    k <= width,
                    total == self.d * self.ksub,
                    self.centroids@.len() == total,
                    code == code_of(codes@, self.nbits as int, sub as int),
                    code < self.ksub,
                    start == self.chunk_offsets@[sub as int],
                    width == self.spec_chunk_dim(sub as int),
                    start + width <= self.d,
                    x@.len() == old(x)@.len(),
                    x@.len() >= self.d,
                    forall|s: int, j: int|
                        0 <= s < sub && 0 <= j < self.spec_chunk_dim(s) ==> x@[self.offsets()[s] + j]
                            == #[trigger] self.codebook()[self.centroid_at(
                            s,
                            code_of(codes@, self.nbits as int, s),
                            j,
                        )],
                    forall|j: int|
                        0 <= j < k ==> x@[start + j] == #[trigger] self.codebook()[self.centroid_at(
                            sub as int,
                            code as int,
                            j,
                        )],
                    forall|i: int| self.d <= i < x@.len() ==> x@[i] == old(x)@[i],
                decreases width - k,
            {
                proof {
                    self.lemma_centroid_inside(sub as int, code as int, k as int);
                }
                let base: usize = start * self.ksub;
                let value: u32 = self.centroids[base + code * width + k];
                x.set(start + k, value);
                assert forall|s: int, j: int|
                    0 <= s < sub && 0 <= j < self.spec_chunk_dim(s) implies x@[self.offsets()[s]
                    + j] == #[trigger] self.codebook()[self.centroid_at(
                    s,
                    code_of(codes@, self.nbits as int, s),
                    j,
                )] by {
                    assert(self.chunk_offsets@[s + 1] <= self.chunk_offsets@[sub as int]);
                }
                k = k + 1;
            }
            sub = sub + 1;
        }
    }

    /// The codebook with each chunk's block turned into `[width][ksub]`, at a
    /// uniform stride of `dsub * ksub` per chunk; unused places are zero.
    pub fn build_transposed_codebook(&self) -> (out: (Vec<u32>, usize))
        requires
            self.well_formed(),
            self.codebook().len() == self.spec_d() * self.spec_ksub(),
            self.spec_m() * (self.spec_dsub() * self.spec_ksub()) <= usize::MAX,
        ensures
            out.1 == self.spec_dsub() * self.spec_ksub(),
            out.0@.len() == self.spec_m() * out.1,
            forall|sub: int, k: int, j: int|
                0 <= sub < self.spec_m() && 0 <= k < self.spec_dsub() && 0 <= j < self.spec_ksub()
                    ==> #[trigger] out.0@[transposed_at(sub, k, j, out.1 as int, self.spec_ksub() as int)]
                    == (if k < self.spec_chunk_dim(sub) {
                    self.codebook()[self.centroid_at(sub, j, k)]
                } else {
                    0
                }),
    {
        let total: usize = self.centroids.len();
        proof {
            assert(self.dsub * self.ksub <= self.m * (self.dsub * self.ksub)) by (nonlinear_arith)
                requires
                    self.m >= 1,
                    self.dsub * self.ksub >= 0,
            ;
        }
        let stride: usize = self.dsub * self.ksub;
        let mut out: Vec<u32> = Vec::new();
        let mut sub: usize = 0;
        while sub < self.m
            invariant
                self.well_formed(),
                sub <= self.m,
                total == self.d * self.ksub,
                self.centroids@.len() == total,
                stride == self.dsub * self.ksub,
                out@.len() == sub * stride,
                forall|s: int, k: int, j: int|
                    0 <= s < sub && 0 <= k < self.dsub && 0 <= j < self.ksub
                        ==> #[trigger] out@[transposed_at(s, k, j, stride as int, self.ksub as int)]
                        == (if k < self.spec_chunk_dim(s) {
                        self.codebook()[self.centroid_at(s, j, k)]
                    } else {
                        0
                    }),
            decreases self.m - sub,
        {
            let start: usize = self.chunk_offsets[sub];
            let width: usize = self.chunk_dim(sub);
            let ghost done = out@;
            let mut k: usize = 0;
            while k < self.dsub
                invariant
                    self.well_formed(),
                    sub < self.m,
                    k <= self.dsub,
                    total == self.d * self.ksub,
                    self.centroids@.len() == total,
                    start == self.chunk_offsets@[sub as int],
                    width == self.spec_chunk_dim(sub as int),
                    stride == self.dsub * self.ksub,
                    done.len() == sub * stride,
                    out@.len() == sub * stride + k * self.ksub,
                    forall|i: int| 0 <= i < done.len() ==> out@[i] == done[i],
                    forall|p: int, j: int|
                        0 <= p < k && 0 <= j < self.ksub ==> #[trigger] out@[transposed_at(
                            sub as int,
                            p,
                            j,
                            stride as int,
                            self.ksub as int,
                        )] == (if p < width {
                            self.codebook()[self.centroid_at(sub as int, j, p)]
                        } else {
                            0
                        }),
                decreases self.dsub - k,
            {
                let ghost row = out@;
                let mut j: usize = 0;
                while j < self.ksub
                    invariant
                        self.well_formed(),
                        sub < self.m,
                        k < self.dsub,
                        j <= self.ksub,
                        total == self.d * self.ksub,
                        self.centroids@.len() == total,
                        start == self.chunk_offsets@[sub as int],
                        width == self.spec_chunk_dim(sub as int),
                        row.len() == sub * stride + k * self.ksub,
                        out@.len() == row.len() + j,
                        forall|i: int| 0 <= i < row.len() ==> out@[i] == row[i],
                        forall|i: int|
                            0 <= i < j ==> #[trigger] out@[row.len() + i] == (if k < width {
                                self.codebook()[self.centroid_at(sub as int, i, k as int)]
                            } else {
                                0
                            }),
                    decreases self.ksub - j,
                {
                    if k < width {
                        proof {
                            self.lemma_centroid_inside(sub as int, j as int, k as int);
                        }
                        let base: usize = start * self.ksub;
                        out.push(self.centroids[base + j * width + k]);
                    } else {
                        out.push(0);
                    }
                    j = j + 1;
                }
                proof {
                    assert((k + 1) * self.ksub == k * self.ksub + self.ksub) by (nonlinear_arith);
                    assert forall|p: int, j: int|
                        0 <= p < k + 1 && 0 <= j < self.ksub implies #[trigger] out@[transposed_at(
                        sub as int,
                        p,
                        j,
                        stride as int,
                        self.ksub as int,
                    )] == (if p < width {
                        self.codebook()[self.centroid_at(sub as int, j, p)]
                    } else {
                        0
                    }) by {
                        let at = transposed_at(sub as int, p, j, stride as int, self.ksub as int);
                        if p < k {
                            assert(p * self.ksub + j < k * self.ksub) by (nonlinear_arith)
                                requires
                                    p < k,
                                    j < self.ksub,
                            ;
                            assert(0 <= sub * stride && 0 <= p * self.ksub) by (nonlinear_arith)
                                requires
                                    0 <= p,
                            ;
                            assert(row[at] == out@[at]);
                        } else {
                            assert(at == row.len() + j);
                        }
                    }
                }
                k = k + 1;
            }
            proof {
                assert((sub + 1) * stride == sub * stride + stride) by (nonlinear_arith);
                assert forall|s: int, p: int, j: int|
                    0 <= s < sub + 1 && 0 <= p < self.dsub && 0 <= j
                        < self.ksub implies #[trigger] out@[transposed_at(
                    s,
                    p,
                    j,
                    stride as int,
                    self.ksub as int,
                )] == (if p < self.spec_chunk_dim(s) {
                    self.codebook()[self.centroid_at(s, j, p)]
                } else {
                    0
                }) by {
                    let at = transposed_at(s, p, j, stride as int, self.ksub as int);
                    if s < sub {
                        assert(p * self.ksub + j < self.dsub * self.ksub && 0 <= p * self.ksub)
                            by (nonlinear_arith)
                            requires
                                0 <= p < self.dsub,
                                0 <= j < self.ksub,
                        ;
                        assert(s * stride + stride <= sub * stride && 0 <= s * stride)
                            by (nonlinear_arith)
                            requires
                                0 <= s < sub,
                        ;
                        assert(done[at] == out@[at]);
                    }
                }
            }
            sub = sub + 1;
        }
        (out, stride)
    }
}

/// Where component `k` of centroid `j` of chunk `sub` lies in the transposed
/// codebook.
pub open spec fn transposed_at(sub: int, k: int, j: int, stride: int, ksub: int) -> int {
    sub * stride + k * ksub + j
}

/// How a batch is encoded. The choice depends on the shape, the codebook and
/// the CPU, never on the number of rows.
#[derive(Debug, Clone, Copy, PartialEq, Eq, Structural)]
pub enum BatchEncoder {
    /// Direct distances over the transposed codebook.
    Transposed,
    /// Blocked matrix products.
    Blocked,
    /// The same as encoding one vector.
    Canonical,
}

impl ProductQuantizer {
    /// Every chunk is wide enough for the batch kernels.
    pub open spec fn wide_chunks(self) -> bool {
        self.spec_nbits() == 8 && forall|sub: int|
            0 <= sub < self.spec_m() ==> #[trigger] self.spec_chunk_dim(sub) >= 4
    }

    /// Picks the encoder of the batch path.
    pub fn select_batch_encoder(&self, fast_transposed: bool) -> (encoder: BatchEncoder)
        requires
            self.well_formed(),
        ensures
            encoder == (if !self.wide_chunks() {
                BatchEncoder::Canonical
            } else if fast_transposed {
                BatchEncoder::Transposed
            } else if all_finite(self.codebook()) {
                BatchEncoder::Blocked
            } else {
                BatchEncoder::Canonical
            }),
    {
        if self.nbits != 8 {
            return BatchEncoder::Canonical;
        }
        let mut sub: usize = 0;
        while sub < self.m
            invariant
                self.well_formed(),
                self.nbits == 8,
                sub <= self.m,
                forall|s: int| 0 <= s < sub ==> #[trigger] self.spec_chunk_dim(s) >= 4,
            decreases self.m - sub,
        {
            if self.chunk_dim(sub) < 4 {
                assert(self.spec_chunk_dim(sub as int) < 4);
                return BatchEncoder::Canonical;
            }
            sub = sub + 1;
        }
        if fast_transposed {
            return BatchEncoder::Transposed;
        }
        if are_finite(self.centroids.as_slice()) {
            BatchEncoder::Blocked
        } else {
            BatchEncoder::Canonical
        }
    }

    /// The columns of chunk `sub` of `n` training vectors.
    pub fn chunk_columns(&self, data: &[u32], n: usize, sub: usize) -> (columns: Vec<u32>)
        requires
            self.well_formed(),
            sub < self.spec_m(),
            n * self.spec_d() <= data@.len(),
        ensures
            columns@.len() == n * self.spec_chunk_dim(sub as int),
            forall|i: int, k: int|
                0 <= i < n && 0 <= k < self.spec_chunk_dim(sub as int)
                    ==> #[trigger] columns@[i * self.spec_chunk_dim(sub as int) + k] == data@[i
                    * self.spec_d() + self.offsets()[sub as int] + k],
    {
        let total: usize = data.len();
        let start: usize = self.chunk_offsets[sub];
        let width: usize = self.chunk_dim(sub);
        assert(self.chunk_offsets@[sub + 1] <= self.chunk_offsets@.last());
        let mut columns: Vec<u32> = Vec::new();
        let mut i: usize = 0;
        while i < n
            invariant
                i <= n,
                total == data@.len(),
                n * self.d <= total,
                start == self.chunk_offsets@[sub as int],
                width == self.spec_chunk_dim(sub as int),
                start + width <= self.d,
                columns@.len() == i * width,
                forall|r: int, k: int|
                    0 <= r < i && 0 <= k < width ==> #[trigger] columns@[r * width + k] == data@[r
                        * self.d + start + k],
            decreases n - i,
        {
            let ghost done = columns@;
            proof {
                assert(i * self.d + self.d <= n * self.d && 0 <= i * self.d) by (nonlinear_arith)
                    requires
                        i < n,
                ;
            }
            let base: usize = i * self.d + start;
            let mut k: usize = 0;
            while k < width
                invariant
                    k <= width,
                    i < n,
                    total == data@.len(),
                    start + width <= self.d,
                    base == i * self.d + start,
                    base + width <= total,
                    done.len() == i * width,
                    columns@.len() == i * width + k,
                    forall|p: int| 0 <= p < done.len() ==> columns@[p] == done[p],
                    forall|p: int|
                        0 <= p < k ==> #[trigger] columns@[i * width + p] == data@[base + p],
                decreases width - k,
            {
                columns.push(data[base + k]);
                k = k + 1;
            }
            proof {
                assert((i + 1) * width == i * width + width) by (nonlinear_arith);
                assert forall|r: int, k: int|
                    0 <= r < i + 1 && 0 <= k < width implies #[trigger] columns@[r * width + k]
                    == data@[r * self.d + start + k] by {
                    if r < i {
                        assert(0 <= r * width && r * width + k < i * width) by (nonlinear_arith)
                            requires
                                0 <= r < i,
                                0 <= k < width,
                        ;
                        assert(done[r * width + k] == data@[r * self.d + start + k]);
                    } else {
                        assert(columns@[i * width + k] == data@[base + k]);
                    }
                }
            }
            i = i + 1;
        }
        columns
    }

    /// The codebook made of the chunks' centroids, each `ksub` times its width.
    pub fn join_codebooks(&self, chunks: &Vec<Vec<u32>>) -> (centroids: Vec<u32>)
        requires
            self.well_formed(),
            chunks@.len() == self.spec_m(),
            forall|sub: int|
                0 <= sub < self.spec_m() ==> (#[trigger] chunks@[sub])@.len() == self.spec_ksub()
                    * self.spec_chunk_dim(sub),
        ensures
            centroids@.len() == self.spec_d() * self.spec_ksub(),
            forall|sub: int, i: int|
                0 <= sub < self.spec_m() && 0 <= i < chunks@[sub]@.len()
                    ==> centroids@[self.offsets()[sub] * self.spec_ksub() + i]
                    == #[trigger] chunks@[sub]@[i],
    {
        let mut centroids: Vec<u32> = Vec::new();
        let mut sub: usize = 0;
        while sub < self.m
            invariant
                self.well_formed(),
                sub <= self.m,
                chunks@.len() == self.m,
                forall|s: int|
                    0 <= s < self.m ==> (#[trigger] chunks@[s])@.len() == self.ksub
                        * self.spec_chunk_dim(s),
                centroids@.len() == self.chunk_offsets@[sub as int] * self.ksub,
                forall|s: int, i: int|
                    0 <= s < sub && 0 <= i < chunks@[s]@.len() ==> centroids@[self.offsets()[s]
                        * self.ksub + i] == #[trigger] chunks@[s]@[i],
            decreases self.m - sub,
        {
            let chunk = &chunks[sub];
            let ghost done = centroids@;
            let mut i: usize = 0;
            while i < chunk.len()
                invariant
                    i <= chunk@.len(),
                    centroids@.len() == done.len() + i,
                    forall|p: int| 0 <= p < done.len() ==> centroids@[p] == done[p],
                    forall|p: int|
                        0 <= p < i ==> #[trigger] chunk@[p] == centroids@[done.len() + p],
                decreases chunk@.len() - i,
            {
                centroids.push(chunk[i]);
                i = i + 1;
            }
            proof {
                let a = self.chunk_offsets@[sub as int] as int;
                let b = self.chunk_offsets@[sub + 1] as int;
                let ksub = self.ksub as int;
                assert(a * ksub + ksub * (b - a) == b * ksub) by (nonlinear_arith);
                assert forall|s: int, i: int|
                    0 <= s < sub + 1 && 0 <= i < chunks@[s]@.len() implies centroids@[self.offsets()[s]
                    * self.ksub + i] == #[trigger] chunks@[s]@[i] by {
                    if s < sub {
                        let c = self.chunk_offsets@[s] as int;
                        let e = self.chunk_offsets@[s + 1] as int;
                        assert(self.chunk_offsets@[s + 1] <= self.chunk_offsets@[sub as int]);
                        assert(0 <= c * ksub && c * ksub + i < a * ksub) by (nonlinear_arith)
                            requires
                                0 <= c <= e <= a,
                                0 <= i < ksub * (e - c),
                        ;
                        assert(done[c * ksub + i] == chunks@[s]@[i]);
                    }
                }
            }
            sub = sub + 1;
        }
        centroids
    }
}

/// No value is infinite or a NaN.
pub open spec fn all_finite(values: Seq<u32>) -> bool {
    forall|i: int| 0 <= i < values.len() ==> crate::order::magnitude(#[trigger] values[i])
        < 0x7F80_0000
}

pub fn are_finite(values: &[u32]) -> (finite: bool)
    ensures
        finite == all_finite(values@),
{
    let mut i: usize = 0;
    while i < values.len()
        invariant
            i <= values@.len(),
            forall|j: int|
                0 <= j < i ==> crate::order::magnitude(#[trigger] values@[j]) < 0x7F80_0000,
        decreases values@.len() - i,
    {
        if !crate::order::float_is_finite(values[i]) {
            assert(crate::order::magnitude(values@[i as int]) >= 0x7F80_0000);
            return false;
        }
        i = i + 1;
    }
    true
}

/// Rows per task of a batch encode: an equal share for each worker, at least
/// one and at most 512.
pub fn encode_block_rows(rows: usize, workers: usize) -> (block: usize)
    ensures
        block == ({
            let share = crate::arith::ceil_div(
                rows as int,
                if workers == 0 {
                    1
                } else {
                    workers as int
                },
            );
            if share < 1 {
                1
            } else if share > 512 {
                512
            } else {
                share
            }
        }),
{
    let share: usize = quotient_up(
        rows,
        if workers == 0 {
            1
        } else {
            workers
        },
    );
    if share < 1 {
        1
    } else if share > MAX_ENCODE_BLOCK_ROWS {
        MAX_ENCODE_BLOCK_ROWS
    } else {
        share
    }
}

} // verus!
