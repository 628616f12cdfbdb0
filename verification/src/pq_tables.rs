//! Tables that combine vectors with the centroids of a codebook. The
//! arithmetic is handed in; `N` is the type of the numbers it works with.
use crate::distance::MetricType;
use crate::float_ops::{apply, operate};
use crate::pq::ProductQuantizer;
use vstd::prelude::*;

verus! {

/// The function is defined everywhere and always gives the same result.
pub open spec fn is_step<N, F: Fn(N, u32, u32) -> N>(f: F) -> bool {
    &&& forall|sum: N, a: u32, b: u32| #[trigger] call_requires(f, (sum, a, b))
    &&& forall|sum: N, a: u32, b: u32, x: N, y: N| #[trigger]
        call_ensures(f, (sum, a, b), x) && #[trigger] call_ensures(f, (sum, a, b), y) ==> x == y
}

/// A sum after one more step.
pub open spec fn stepped<N, F: Fn(N, u32, u32) -> N>(f: F, sum: N, a: u32, b: u32) -> N {
    choose|x: N| call_ensures(f, (sum, a, b), x)
}

/// The steps of `width` components of `a` from `i` and of `b` from `j`, taken
/// in turn.
pub open spec fn accumulated<N, F: Fn(N, u32, u32) -> N>(
    f: F,
    zero: N,
    a: Seq<u32>,
    i: int,
    b: Seq<u32>,
    j: int,
    width: nat,
) -> N
    decreases width,
{
    if width == 0 {
        zero
    } else {
        let k = width - 1;
        stepped(f, accumulated(f, zero, a, i, b, j, k as nat), a[i + k], b[j + k])
    }
}

pub fn accumulate<N: Copy, F: Fn(N, u32, u32) -> N>(
    f: &F,
    zero: N,
    a: &[u32],
    i: usize,
    b: &[u32],
    j: usize,
    width: usize,
) -> (sum: N)
    requires
        is_step(*f),
        i + width <= a@.len(),
        j + width <= b@.len(),
    ensures
        sum == accumulated(*f, zero, a@, i as int, b@, j as int, width as nat),
{
    let a_len: usize = a.len();
    let b_len: usize = b.len();
    let mut sum: N = zero;
    let mut k: usize = 0;
    while k < width
        invariant
            is_step(*f),
            a_len == a@.len(),
            b_len == b@.len(),
            i + width <= a_len,
            j + width <= b_len,
            k <= width,
            sum == accumulated(*f, zero, a@, i as int, b@, j as int, k as nat),
        decreases width - k,
    {
        let ghost before = sum;
        sum = f(sum, a[i + k], b[j + k]);
        assert(call_ensures(*f, (before, a@[i + k], b@[j + k]), sum));
        k = k + 1;
    }
    sum
}

/// The chunk that a table entry belongs to.
pub open spec fn entry_chunk(pq: ProductQuantizer, at: int) -> int {
    at / (pq.spec_ksub() as int)
}

/// Where the centroid of a table entry starts in the codebook.
pub open spec fn entry_centroid(pq: ProductQuantizer, at: int) -> int {
    pq.centroid_at(entry_chunk(pq, at), at % (pq.spec_ksub() as int), 0)
}

/// The entry of a table of a vector and a centroid.
pub open spec fn table_entry<N, F: Fn(N, u32, u32) -> N>(
    f: F,
    zero: N,
    pq: ProductQuantizer,
    vector: Seq<u32>,
    at: int,
) -> N {
    let sub = entry_chunk(pq, at);
    accumulated(
        f,
        zero,
        vector,
        pq.offsets()[sub] as int,
        pq.codebook(),
        entry_centroid(pq, at),
        pq.spec_chunk_dim(sub) as nat,
    )
}

/// The entry of a table of each centroid and itself.
pub open spec fn norm_entry<N, F: Fn(N, u32, u32) -> N>(
    f: F,
    zero: N,
    pq: ProductQuantizer,
    at: int,
) -> N {
    let start = entry_centroid(pq, at);
    accumulated(
        f,
        zero,
        pq.codebook(),
        start,
        pq.codebook(),
        start,
        pq.spec_chunk_dim(entry_chunk(pq, at)) as nat,
    )
}

/// The codebook is complete and tables of all its centroids can be held.
pub open spec fn is_trained(pq: ProductQuantizer) -> bool {
    &&& pq.well_formed()
    &&& pq.codebook().len() == pq.spec_d() * pq.spec_ksub()
    &&& pq.spec_m() * pq.spec_ksub() <= usize::MAX
}

/// The centroid of a table entry lies in the codebook, and its chunk in a
/// vector.
proof fn lemma_entry(pq: ProductQuantizer, at: int)
    requires
        is_trained(pq),
        0 <= at < pq.spec_m() * pq.spec_ksub(),
    ensures
        0 <= entry_chunk(pq, at) < pq.spec_m(),
        0 <= at % (pq.spec_ksub() as int) < pq.spec_ksub(),
        0 <= pq.spec_chunk_dim(entry_chunk(pq, at)),
        0 <= pq.offsets()[entry_chunk(pq, at)],
        pq.offsets()[entry_chunk(pq, at) + 1] <= pq.spec_d(),
        0 <= pq.offsets()[entry_chunk(pq, at)] * pq.spec_ksub(),
        0 <= (at % (pq.spec_ksub() as int)) * pq.spec_chunk_dim(entry_chunk(pq, at)),
        0 <= entry_centroid(pq, at),
        entry_centroid(pq, at) + pq.spec_chunk_dim(entry_chunk(pq, at)) <= pq.codebook().len(),
{
    let ksub = pq.spec_ksub() as int;
    let m = pq.spec_m() as int;
    let sub = at / ksub;
    let code = at % ksub;
    assert(0 <= sub < m && 0 <= code < ksub) by (nonlinear_arith)
        requires
            0 <= at < m * ksub,
            ksub == 16 || ksub == 256,
            sub == at / ksub,
            code == at % ksub,
    ;
    let start = pq.offsets()[sub] as int;
    let end = pq.offsets()[sub + 1] as int;
    let width = end - start;
    assert(pq.offsets()[sub] <= pq.offsets()[sub + 1]);
    assert(pq.offsets()[sub + 1] <= pq.offsets().last());
    assert(0 <= start * ksub && 0 <= code * width && start * ksub + code * width + width
        <= pq.spec_d() * ksub) by (nonlinear_arith)
        requires
            0 <= start,
            start + width == end,
            end <= pq.spec_d(),
            0 <= code < ksub,
            0 <= width,
    ;
}

/// One entry for each centroid: the steps of the centroid and the part of
/// the vector that its chunk covers.
pub fn codebook_table<N: Copy, F: Fn(N, u32, u32) -> N>(
    pq: &ProductQuantizer,
    vector: &[u32],
    zero: N,
    f: &F,
) -> (table: Vec<N>)
    requires
        is_trained(*pq),
        vector@.len() == pq.spec_d(),
        is_step(*f),
    ensures
        table@ == Seq::new(
            (pq.spec_m() * pq.spec_ksub()) as nat,
            |at: int| table_entry(*f, zero, *pq, vector@, at),
        ),
{
    let ksub: usize = pq.ksub();
    let total: usize = pq.m() * ksub;
    let codebook: &[u32] = pq.centroids();
    let book_len: usize = codebook.len();
    let mut table: Vec<N> = Vec::new();
    let mut at: usize = 0;
    while at < total
        invariant
            is_trained(*pq),
            vector@.len() == pq.spec_d(),
            is_step(*f),
            ksub == pq.spec_ksub(),
            total == pq.spec_m() * pq.spec_ksub(),
            codebook@ == pq.codebook(),
            book_len == codebook@.len(),
            at <= total,
            table@ == Seq::new(at as nat, |i: int| table_entry(*f, zero, *pq, vector@, i)),
        decreases total - at,
    {
        proof {
            lemma_entry(*pq, at as int);
        }
        let sub: usize = at / ksub;
        let code: usize = at % ksub;
        let range = pq.chunk_range(sub);
        let width: usize = range.end - range.start;
        let start: usize = range.start * ksub + code * width;
        let entry: N = accumulate(f, zero, vector, range.start, codebook, start, width);
        table.push(entry);
        at = at + 1;
        assert(table@ =~= Seq::new(at as nat, |i: int| table_entry(*f, zero, *pq, vector@, i)));
    }
    table
}

/// One entry for each centroid: its steps with itself.
pub fn codebook_norms<N: Copy, F: Fn(N, u32, u32) -> N>(
    pq: &ProductQuantizer,
    zero: N,
    f: &F,
) -> (norms: Vec<N>)
    requires
        is_trained(*pq),
        is_step(*f),
    ensures
        norms@ == Seq::new(
            (pq.spec_m() * pq.spec_ksub()) as nat,
            |at: int| norm_entry(*f, zero, *pq, at),
        ),
{
    let ksub: usize = pq.ksub();
    let total: usize = pq.m() * ksub;
    let codebook: &[u32] = pq.centroids();
    let book_len: usize = codebook.len();
    let mut norms: Vec<N> = Vec::new();
    let mut at: usize = 0;
    while at < total
        invariant
            is_trained(*pq),
            is_step(*f),
            ksub == pq.spec_ksub(),
            total == pq.spec_m() * pq.spec_ksub(),
            codebook@ == pq.codebook(),
            book_len == codebook@.len(),
            at <= total,
            norms@ == Seq::new(at as nat, |i: int| norm_entry(*f, zero, *pq, i)),
        decreases total - at,
    {
        proof {
            lemma_entry(*pq, at as int);
        }
        let sub: usize = at / ksub;
        let code: usize = at % ksub;
        let range = pq.chunk_range(sub);
        let width: usize = range.end - range.start;
        let start: usize = range.start * ksub + code * width;
        let entry: N = accumulate(f, zero, codebook, start, codebook, start, width);
        norms.push(entry);
        at = at + 1;
        assert(norms@ =~= Seq::new(at as nat, |i: int| norm_entry(*f, zero, *pq, i)));
    }
    norms
}

/// One entry for each chunk: the steps of the parts that it covers of a
/// vector and of another.
pub fn chunk_sums<N: Copy, F: Fn(N, u32, u32) -> N>(
    pq: &ProductQuantizer,
    vector: &[u32],
    other: &[u32],
    zero: N,
    f: &F,
) -> (sums: Vec<N>)
    requires
        pq.well_formed(),
        vector@.len() == pq.spec_d(),
        other@.len() == pq.spec_d(),
        is_step(*f),
    ensures
        sums@ == Seq::new(
            pq.spec_m() as nat,
            |sub: int|
                accumulated(
                    *f,
                    zero,
                    vector@,
                    pq.offsets()[sub] as int,
                    other@,
                    pq.offsets()[sub] as int,
                    pq.spec_chunk_dim(sub) as nat,
                ),
        ),
{
    let ghost expected = Seq::new(
        pq.spec_m() as nat,
        |sub: int|
            accumulated(
                *f,
                zero,
                vector@,
                pq.offsets()[sub] as int,
                other@,
                pq.offsets()[sub] as int,
                pq.spec_chunk_dim(sub) as nat,
            ),
    );
    let m: usize = pq.m();
    let mut sums: Vec<N> = Vec::new();
    let mut sub: usize = 0;
    while sub < m
        invariant
            pq.well_formed(),
            vector@.len() == pq.spec_d(),
            other@.len() == pq.spec_d(),
            is_step(*f),
            m == pq.spec_m(),
            sub <= m,
            expected == Seq::new(
                pq.spec_m() as nat,
                |s: int|
                    accumulated(
                        *f,
                        zero,
                        vector@,
                        pq.offsets()[s] as int,
                        other@,
                        pq.offsets()[s] as int,
                        pq.spec_chunk_dim(s) as nat,
                    ),
            ),
            sums@ == expected.take(sub as int),
        decreases m - sub,
    {
        proof {
            assert(pq.offsets()[sub as int] <= pq.offsets()[sub + 1]);
            assert(pq.offsets()[sub + 1] <= pq.offsets().last());
        }
        let range = pq.chunk_range(sub);
        let width: usize = range.end - range.start;
        let sum: N = accumulate(f, zero, vector, range.start, other, range.start, width);
        assert(sum == expected[sub as int]);
        sums.push(sum);
        sub = sub + 1;
        assert(sums@ =~= expected.take(sub as int));
    }
    assert(sums@ =~= expected);
    sums
}

/// The function is defined everywhere and always gives the same result.
pub open spec fn is_pairing<N, G: Fn(N, N) -> N>(g: G) -> bool {
    &&& forall|a: N, b: N| #[trigger] call_requires(g, (a, b))
    &&& forall|a: N, b: N, x: N, y: N| #[trigger]
        call_ensures(g, (a, b), x) && #[trigger] call_ensures(g, (a, b), y) ==> x == y
}

/// What two numbers are combined to.
pub open spec fn paired<N, G: Fn(N, N) -> N>(g: G, a: N, b: N) -> N {
    choose|x: N| call_ensures(g, (a, b), x)
}

/// Combines two tables entry by entry.
pub fn combine<N: Copy, G: Fn(N, N) -> N>(a: &[N], b: &[N], g: &G) -> (table: Vec<N>)
    requires
        a@.len() == b@.len(),
        is_pairing(*g),
    ensures
        table@ == Seq::new(a@.len(), |at: int| paired(*g, a@[at], b@[at])),
{
    let mut table: Vec<N> = Vec::new();
    let mut at: usize = 0;
    while at < a.len()
        invariant
            a@.len() == b@.len(),
            is_pairing(*g),
            at <= a@.len(),
            table@ == Seq::new(at as nat, |i: int| paired(*g, a@[i], b@[i])),
        decreases a@.len() - at,
    {
        let x: N = g(a[at], b[at]);
        assert(call_ensures(*g, (a@[at as int], b@[at as int]), x));
        table.push(x);
        at = at + 1;
        assert(table@ =~= Seq::new(at as nat, |i: int| paired(*g, a@[i], b@[i])));
    }
    table
}

/// The function is defined everywhere and always gives the same result.
pub open spec fn is_closing<N, C: Fn(N, N, N) -> u32>(c: C) -> bool {
    &&& forall|norm: N, list: N, query: N| #[trigger] call_requires(c, (norm, list, query))
    &&& forall|norm: N, list: N, query: N, x: u32, y: u32| #[trigger]
        call_ensures(c, (norm, list, query), x) && #[trigger] call_ensures(
            c,
            (norm, list, query),
            y,
        ) ==> x == y
}

/// The partial distances of a query to the centroids of a list: each entry
/// combines the distance of the chunk to the list's centroid with the entries
/// of the list's table and of the query's table.
pub fn residual_table<N: Copy, C: Fn(N, N, N) -> u32>(
    pq: &ProductQuantizer,
    norms: &[N],
    list: &[N],
    query: &[N],
    c: &C,
) -> (table: Vec<u32>)
    requires
        is_trained(*pq),
        norms@.len() == pq.spec_m(),
        list@.len() == pq.spec_m() * pq.spec_ksub(),
        query@.len() == pq.spec_m() * pq.spec_ksub(),
        is_closing(*c),
    ensures
        table@ == Seq::new(
            (pq.spec_m() * pq.spec_ksub()) as nat,
            |at: int|
                closed_entry(*c, norms@[entry_chunk(*pq, at)], list@[at], query@[at]),
        ),
{
    let ksub: usize = pq.ksub();
    let total: usize = list.len();
    let ghost expected = Seq::new(
        (pq.spec_m() * pq.spec_ksub()) as nat,
        |at: int|
            closed_entry(*c, norms@[entry_chunk(*pq, at)], list@[at], query@[at]),
    );
    let mut table: Vec<u32> = Vec::new();
    let mut at: usize = 0;
    while at < total
        invariant
            is_trained(*pq),
            norms@.len() == pq.spec_m(),
            list@.len() == total,
            query@.len() == total,
            is_closing(*c),
            ksub == pq.spec_ksub(),
            total == pq.spec_m() * pq.spec_ksub(),
            at <= total,
            expected == Seq::new(
                (pq.spec_m() * pq.spec_ksub()) as nat,
                |i: int|
                    closed_entry(*c, norms@[entry_chunk(*pq, i)], list@[i], query@[i]),
            ),
            table@ == expected.take(at as int),
        decreases total - at,
    {
        proof {
            lemma_entry(*pq, at as int);
        }
        let norm: N = norms[at / ksub];
        let x: u32 = c(norm, list[at], query[at]);
        proof {
            assert(call_ensures(
                *c,
                (norms@[entry_chunk(*pq, at as int)], list@[at as int], query@[at as int]),
                x,
            ));
            assert(x == expected[at as int]);
        }
        table.push(x);
        at = at + 1;
        assert(table@ =~= expected.take(at as int));
    }
    assert(table@ =~= expected);
    table
}

/// Each row without the centroid of the list that it is assigned to.
pub fn residual_rows<S: Fn(u32, u32) -> u32>(
    rows: &[u32],
    centroids: &[u32],
    assignments: &[usize],
    d: usize,
    nlist: usize,
    subtract: &S,
) -> (residuals: Vec<u32>)
    requires
        crate::float_ops::is_operation(*subtract),
        d > 0,
        rows@.len() == assignments@.len() * d,
        centroids@.len() == nlist * d,
        forall|i: int| 0 <= i < assignments@.len() ==> #[trigger] assignments@[i] < nlist,
    ensures
        residuals@ == Seq::new(
            rows@.len(),
            |at: int|
                crate::float_ops::result_of(
                    *subtract,
                    rows@[at],
                    centroids@[assignments@[at / (d as int)] * d + at % (d as int)],
                ),
        ),
{
    let total: usize = rows.len();
    let centroids_len: usize = centroids.len();
    let ghost expected = Seq::new(
        rows@.len(),
        |at: int|
            crate::float_ops::result_of(
                *subtract,
                rows@[at],
                centroids@[assignments@[at / (d as int)] * d + at % (d as int)],
            ),
    );
    let mut residuals: Vec<u32> = Vec::new();
    let mut at: usize = 0;
    while at < total
        invariant
            crate::float_ops::is_operation(*subtract),
            d > 0,
            total == rows@.len(),
            total == assignments@.len() * d,
            centroids_len == centroids@.len(),
            centroids@.len() == nlist * d,
            forall|i: int| 0 <= i < assignments@.len() ==> #[trigger] assignments@[i] < nlist,
            at <= total,
            expected == Seq::new(
                rows@.len(),
                |i: int|
                    crate::float_ops::result_of(
                        *subtract,
                        rows@[i],
                        centroids@[assignments@[i / (d as int)] * d + i % (d as int)],
                    ),
            ),
            residuals@ == expected.take(at as int),
        decreases total - at,
    {
        let row: usize = at / d;
        let column: usize = at % d;
        let ghost n = assignments@.len() as int;
        assert(0 <= row < n && 0 <= column < d) by (nonlinear_arith)
            requires
                0 <= at < n * d,
                d > 0,
                row == at / d,
                column == at % d,
        ;
        let list: usize = assignments[row];
        assert(0 <= list * d && list * d + d <= nlist * d) by (nonlinear_arith)
            requires
                list < nlist,
                d > 0,
        ;
        let value: u32 = operate(subtract, rows[at], centroids[list * d + column]);
        assert(value == expected[at as int]);
        residuals.push(value);
        at = at + 1;
        assert(residuals@ =~= expected.take(at as int));
    }
    assert(residuals@ =~= expected);
    residuals
}

/// The entries that the codes of the first `chunks` chunks name, summed in
/// turn from zero.
pub open spec fn code_distance<A: Fn(u32, u32) -> u32>(
    add: A,
    pq: ProductQuantizer,
    table: Seq<u32>,
    codes: Seq<u8>,
    chunks: nat,
) -> u32
    decreases chunks,
{
    if chunks == 0 {
        0
    } else {
        let sub = chunks - 1;
        crate::float_ops::result_of(
            add,
            code_distance(add, pq, table, codes, sub as nat),
            table[sub * pq.spec_ksub() + crate::pq::code_of(codes, pq.spec_nbits() as int, sub)],
        )
    }
}

impl ProductQuantizer {
    /// The inner products of a query's chunks with all centroids.
    pub fn compute_inner_product_table<F: Fn(u32, u32, u32) -> u32>(
        &self,
        query: &[u32],
        product_step: &F,
    ) -> (table: Vec<u32>)
        requires
            is_trained(*self),
            query@.len() == self.spec_d(),
            is_step(*product_step),
        ensures
            table@ == Seq::new(
                (self.spec_m() * self.spec_ksub()) as nat,
                |at: int| table_entry(*product_step, 0u32, *self, query@, at),
            ),
    {
        codebook_table(self, query, 0u32, product_step)
    }

    /// The distances of a query's chunks to all centroids: squared distances
    /// from the norms and the inner product, or negated inner products.
    pub fn compute_distance_table<
        F: Fn(u32, u32, u32) -> u32,
        N: Fn(u32) -> u32,
        C: Fn(u32, u32, u32) -> u32,
    >(
        &self,
        query: &[u32],
        metric: MetricType,
        product_step: &F,
        negate: &N,
        close: &C,
    ) -> (table: Vec<u32>)
        requires
            is_trained(*self),
            self.norms().len() == self.spec_m() * self.spec_ksub(),
            query@.len() == self.spec_d(),
            is_step(*product_step),
            crate::float_ops::is_map(*negate),
            is_closing(*close),
        ensures
            table@ == Seq::new(
                (self.spec_m() * self.spec_ksub()) as nat,
                |at: int|
                    distance_table_entry(
                        *product_step,
                        *negate,
                        *close,
                        *self,
                        metric,
                        query@,
                        at,
                    ),
            ),
    {
        let products = codebook_table(self, query, 0u32, product_step);
        let ghost expected = Seq::new(
            (self.spec_m() * self.spec_ksub()) as nat,
            |at: int|
                distance_table_entry(
                    *product_step,
                    *negate,
                    *close,
                    *self,
                    metric,
                    query@,
                    at,
                ),
        );
        match metric {
            MetricType::InnerProduct => {
                let mut table: Vec<u32> = Vec::new();
                let mut at: usize = 0;
                while at < products.len()
                    invariant
                        crate::float_ops::is_map(*negate),
                        at <= products@.len(),
                        table@.len() == at,
                        forall|i: int|
                            0 <= i < at ==> #[trigger] table@[i] == crate::float_ops::image_of(
                                *negate,
                                products@[i],
                            ),
                    decreases products@.len() - at,
                {
                    table.push(apply(negate, products[at]));
                    at = at + 1;
                }
                assert(table@ =~= expected);
                table
            },
            _ => {
                let norms = chunk_sums(self, query, query, 0u32, product_step);
                let table = residual_table(
                    self,
                    norms.as_slice(),
                    self.centroid_norms(),
                    products.as_slice(),
                    close,
                );
                proof {
                    assert forall|at: int| 0 <= at < table@.len() implies table@[at]
                        == expected[at] by {
                        lemma_entry(*self, at);
                    }
                    assert(table@ =~= expected);
                }
                table
            },
        }
    }

    /// The distance of a code: the table entries that it names, summed.
    pub fn distance_from_table<A: Fn(u32, u32) -> u32>(
        &self,
        table: &[u32],
        codes: &[u8],
        add: &A,
    ) -> (distance: u32)
        requires
            self.well_formed(),
            self.spec_m() * self.spec_ksub() <= table@.len(),
            codes@.len() >= self.spec_code_size(),
            crate::float_ops::is_operation(*add),
        ensures
            distance == code_distance(*add, *self, table@, codes@, self.spec_m() as nat),
    {
        let table_len: usize = table.len();
        let offsets = self.table_offsets(codes);
        let mut distance: u32 = 0;
        let mut sub: usize = 0;
        while sub < offsets.len()
            invariant
                self.spec_m() * self.spec_ksub() <= table@.len(),
                crate::float_ops::is_operation(*add),
                offsets@.len() == self.spec_m(),
                forall|s: int|
                    0 <= s < self.spec_m() ==> #[trigger] offsets@[s] == s * self.spec_ksub()
                        + crate::pq::code_of(codes@, self.spec_nbits() as int, s) && offsets@[s]
                        < self.spec_m() * self.spec_ksub(),
                sub <= offsets@.len(),
                distance == code_distance(*add, *self, table@, codes@, sub as nat),
            decreases offsets@.len() - sub,
        {
            distance = operate(add, distance, table[offsets[sub]]);
            sub = sub + 1;
        }
        distance
    }

    /// Replaces the codebook and the squared norms of its centroids.
    pub fn set_centroids<F: Fn(u32, u32, u32) -> u32>(
        &mut self,
        centroids: Vec<u32>,
        product_step: &F,
    )
        requires
            old(self).well_formed(),
            centroids@.len() == old(self).spec_d() * old(self).spec_ksub(),
            old(self).spec_m() * old(self).spec_ksub() <= usize::MAX,
            is_step(*product_step),
        ensures
            final(self).well_formed(),
            final(self).codebook() == centroids@,
            final(self).norms() == Seq::new(
                (old(self).spec_m() * old(self).spec_ksub()) as nat,
                |at: int| norm_entry(*product_step, 0u32, *final(self), at),
            ),
            final(self).offsets() == old(self).offsets(),
            final(self).spec_d() == old(self).spec_d(),
            final(self).spec_m() == old(self).spec_m(),
            final(self).spec_nbits() == old(self).spec_nbits(),
            final(self).spec_dsub() == old(self).spec_dsub(),
            final(self).spec_ksub() == old(self).spec_ksub(),
    {
        let ghost before = *self;
        self.replace_codebook(centroids);
        let ghost bare = *self;
        let norms = codebook_norms(self, 0u32, product_step);
        self.keep_norms(norms);
        proof {
            assert(self.norms() =~= Seq::new(
                (before.spec_m() * before.spec_ksub()) as nat,
                |at: int| norm_entry(*product_step, 0u32, *self, at),
            )) by {
                assert forall|at: int| 0 <= at < self.norms().len() implies norm_entry(
                    *product_step,
                    0u32,
                    bare,
                    at,
                ) == norm_entry(*product_step, 0u32, *self, at) by {}
            }
        }
    }

    /// The squared norms of all centroids: those that were set with the
    /// codebook, or else computed from it.
    pub fn compute_centroid_norms<F: Fn(u32, u32, u32) -> u32>(&self, product_step: &F) -> (norms:
        Vec<u32>)
        requires
            is_trained(*self),
            is_step(*product_step),
        ensures
            norms@ == (if self.norms().len() > 0 {
                self.norms()
            } else {
                Seq::new(
                    (self.spec_m() * self.spec_ksub()) as nat,
                    |at: int| norm_entry(*product_step, 0u32, *self, at),
                )
            }),
    {
        let stored: &[u32] = self.centroid_norms();
        if stored.len() > 0 {
            let mut norms: Vec<u32> = Vec::new();
            norms.extend_from_slice(stored);
            assert(norms@ =~= stored@);
            norms
        } else {
            codebook_norms(self, 0u32, product_step)
        }
    }
}

/// The squared norm of a chunk of a vector.
pub open spec fn chunk_norm<F: Fn(u32, u32, u32) -> u32>(
    f: F,
    pq: ProductQuantizer,
    vector: Seq<u32>,
    sub: int,
) -> u32 {
    accumulated(
        f,
        0u32,
        vector,
        pq.offsets()[sub] as int,
        vector,
        pq.offsets()[sub] as int,
        pq.spec_chunk_dim(sub) as nat,
    )
}

/// What the entries of a norm, of a list and of a query are combined to.
pub open spec fn closed_entry<N, C: Fn(N, N, N) -> u32>(c: C, norm: N, list: N, query: N) -> u32 {
    choose|x: u32| call_ensures(c, (norm, list, query), x)
}

/// The entry of a table of distances: the squared distance of a chunk to a
/// centroid from the norms and the inner product, or the negated inner product.
pub open spec fn distance_table_entry<
    F: Fn(u32, u32, u32) -> u32,
    N: Fn(u32) -> u32,
    C: Fn(u32, u32, u32) -> u32,
>(
    product_step: F,
    negate: N,
    close: C,
    pq: ProductQuantizer,
    metric: MetricType,
    vector: Seq<u32>,
    at: int,
) -> u32 {
    if metric == MetricType::InnerProduct {
        crate::float_ops::image_of(negate, table_entry(product_step, 0u32, pq, vector, at))
    } else {
        closed_entry(
            close,
            chunk_norm(product_step, pq, vector, entry_chunk(pq, at)),
            pq.norms()[at],
            table_entry(product_step, 0u32, pq, vector, at),
        )
    }
}

} // verus!
