//! What the tables of a product quantizer stand for: inner products and squared
//! distances of whole chunks, and by them of whole vectors.
use crate::distance::MetricType;
use crate::exact::{
    all_hold, differences, distance, distance_holds, dot, dot_holds, grows_by, products, sum_holds,
    times, total, values,
};
use crate::ivfpq::IVFPQIndex;
use crate::pq::ProductQuantizer;
use crate::pq_encode::{EncodeStep, SumKind};
use crate::pq_scan::PackedKernel;
use crate::pq_search::TableKernel;
use crate::pq_tables::{accumulated, stepped};
use vstd::prelude::*;

verus! {

/// A step adds the product of its components, where nothing has to be rounded.
/// `read` gives the numbers that sums stand for.
pub open spec fn adds_products<N, F: Fn(N, u32, u32) -> N>(
    f: F,
    read: spec_fn(N) -> real,
    value: spec_fn(u32) -> real,
    holds: spec_fn(real) -> bool,
) -> bool {
    forall|sum: N, a: u32, b: u32|
        holds(read(sum)) && holds(value(a)) && holds(value(b)) && holds(times(value(a), value(b)))
            && holds(read(sum) + times(value(a), value(b))) ==> read(#[trigger] stepped(f, sum, a, b))
            == read(sum) + times(value(a), value(b))
}

/// A step adds the square of the difference of its components, where nothing
/// has to be rounded.
pub open spec fn adds_squares<N, F: Fn(N, u32, u32) -> N>(
    f: F,
    read: spec_fn(N) -> real,
    value: spec_fn(u32) -> real,
    holds: spec_fn(real) -> bool,
) -> bool {
    forall|sum: N, a: u32, b: u32|
        {
            let gap = value(a) - value(b);
            holds(read(sum)) && holds(value(a)) && holds(value(b)) && holds(gap) && holds(
                times(gap, gap),
            ) && holds(read(sum) + times(gap, gap)) ==> read(#[trigger] stepped(f, sum, a, b))
                == read(sum) + times(gap, gap)
        }
}

/// An operation adds, where nothing has to be rounded.
pub open spec fn adds<A: Fn(u32, u32) -> u32>(
    add: A,
    value: spec_fn(u32) -> real,
    holds: spec_fn(real) -> bool,
) -> bool {
    forall|a: u32, b: u32|
        holds(value(a)) && holds(value(b)) && holds(value(a) + value(b)) ==> value(
            #[trigger] crate::float_ops::result_of(add, a, b),
        ) == value(a) + value(b)
}

/// A map changes the sign.
pub open spec fn negates<N: Fn(u32) -> u32>(
    negate: N,
    value: spec_fn(u32) -> real,
    holds: spec_fn(real) -> bool,
) -> bool {
    forall|a: u32|
        holds(value(a)) ==> value(#[trigger] crate::float_ops::image_of(negate, a)) == -value(a)
}

/// Steps of products sum up to the inner product of all the components.
pub proof fn law_steps_make_inner_products<N, F: Fn(N, u32, u32) -> N>(
    f: F,
    zero: N,
    read: spec_fn(N) -> real,
    value: spec_fn(u32) -> real,
    holds: spec_fn(real) -> bool,
    a: Seq<u32>,
    i: int,
    b: Seq<u32>,
    j: int,
    width: nat,
)
    requires
        read(zero) == 0real,
        adds_products(f, read, value, holds),
        0 <= i && i + width <= a.len(),
        0 <= j && j + width <= b.len(),
        dot_holds(
            holds,
            values(value, a.subrange(i, i + width)),
            values(value, b.subrange(j, j + width)),
        ),
    ensures
        read(accumulated(f, zero, a, i, b, j, width)) == dot(
            values(value, a.subrange(i, i + width)),
            values(value, b.subrange(j, j + width)),
        ),
        holds(read(accumulated(f, zero, a, i, b, j, width))),
{
    let x = values(value, a.subrange(i, i + width));
    let y = values(value, b.subrange(j, j + width));
    let terms = products(x, y);
    let partial = Seq::new(
        width + 1,
        |k: int| read(accumulated(f, zero, a, i, b, j, k as nat)),
    );
    assert forall|k: int|
        0 <= k < terms.len() && holds(partial[k]) && holds(partial[k] + terms[k]) implies partial[k
        + 1] == partial[k] + #[trigger] terms[k] by {
        let before = accumulated(f, zero, a, i, b, j, k as nat);
        assert(x[k] == value(a[i + k]) && y[k] == value(b[j + k]));
        assert(holds(x[k]) && holds(y[k]) && holds(terms[k]));
        assert(terms[k] == times(x[k], y[k]));
        assert(accumulated(f, zero, a, i, b, j, (k + 1) as nat) == stepped(
            f,
            before,
            a[i + k],
            b[j + k],
        ));
    }
    assert(grows_by(holds, partial, terms));
    crate::exact::lemma_partial_sums(holds, partial, terms, width);
}

/// Steps of squares sum up to the squared distance of all the components.
pub proof fn law_steps_make_squared_distances<N, F: Fn(N, u32, u32) -> N>(
    f: F,
    zero: N,
    read: spec_fn(N) -> real,
    value: spec_fn(u32) -> real,
    holds: spec_fn(real) -> bool,
    a: Seq<u32>,
    i: int,
    b: Seq<u32>,
    j: int,
    width: nat,
)
    requires
        read(zero) == 0real,
        adds_squares(f, read, value, holds),
        0 <= i && i + width <= a.len(),
        0 <= j && j + width <= b.len(),
        distance_holds(
            holds,
            values(value, a.subrange(i, i + width)),
            values(value, b.subrange(j, j + width)),
        ),
    ensures
        read(accumulated(f, zero, a, i, b, j, width)) == distance(
            values(value, a.subrange(i, i + width)),
            values(value, b.subrange(j, j + width)),
        ),
        holds(read(accumulated(f, zero, a, i, b, j, width))),
{
    let x = values(value, a.subrange(i, i + width));
    let y = values(value, b.subrange(j, j + width));
    let gap = differences(x, y);
    let terms = products(gap, gap);
    let partial = Seq::new(
        width + 1,
        |k: int| read(accumulated(f, zero, a, i, b, j, k as nat)),
    );
    assert forall|k: int|
        0 <= k < terms.len() && holds(partial[k]) && holds(partial[k] + terms[k]) implies partial[k
        + 1] == partial[k] + #[trigger] terms[k] by {
        let before = accumulated(f, zero, a, i, b, j, k as nat);
        assert(x[k] == value(a[i + k]) && y[k] == value(b[j + k]));
        assert(holds(x[k]) && holds(y[k]) && holds(gap[k]) && holds(terms[k]));
        assert(terms[k] == times(gap[k], gap[k]));
        assert(accumulated(f, zero, a, i, b, j, (k + 1) as nat) == stepped(
            f,
            before,
            a[i + k],
            b[j + k],
        ));
    }
    assert(grows_by(holds, partial, terms));
    crate::exact::lemma_partial_sums(holds, partial, terms, width);
}

/// The components of a vector that a chunk covers.
pub open spec fn chunk_of(pq: ProductQuantizer, vector: Seq<u32>, sub: int) -> Seq<u32> {
    vector.subrange(pq.offsets()[sub] as int, pq.offsets()[sub + 1] as int)
}

/// The components of a centroid: the codebook holds the centroids of a chunk one
/// after the other, behind those of the chunks before.
pub open spec fn centroid_of(pq: ProductQuantizer, sub: int, code: int) -> Seq<u32> {
    let width = pq.offsets()[sub + 1] - pq.offsets()[sub];
    let start = pq.offsets()[sub] * pq.spec_ksub() + code * width;
    pq.codebook().subrange(start, start + width)
}

/// Where the entry of a centroid stands, and that chunk and centroid exist.
proof fn lemma_place(pq: ProductQuantizer, sub: int, code: int)
    requires
        crate::pq_tables::is_trained(pq),
        0 <= sub < pq.spec_m(),
        0 <= code < pq.spec_ksub(),
    ensures
        0 <= sub * pq.spec_ksub() + code < pq.spec_m() * pq.spec_ksub(),
        crate::pq_tables::entry_chunk(pq, sub * pq.spec_ksub() + code) == sub,
        (sub * pq.spec_ksub() + code) % (pq.spec_ksub() as int) == code,
        0 <= pq.offsets()[sub] <= pq.offsets()[sub + 1] <= pq.spec_d(),
        0 <= crate::pq_tables::entry_centroid(pq, sub * pq.spec_ksub() + code),
        crate::pq_tables::entry_centroid(pq, sub * pq.spec_ksub() + code) == pq.offsets()[sub]
            * pq.spec_ksub() + code * (pq.offsets()[sub + 1] - pq.offsets()[sub]),
        crate::pq_tables::entry_centroid(pq, sub * pq.spec_ksub() + code) + pq.spec_chunk_dim(sub)
            <= pq.codebook().len(),
{
    let ksub = pq.spec_ksub() as int;
    let m = pq.spec_m() as int;
    assert(0 <= sub * ksub && sub * ksub + code < m * ksub) by (nonlinear_arith)
        requires
            0 <= sub < m,
            0 <= code < ksub,
    ;
    vstd::arithmetic::div_mod::lemma_fundamental_div_mod_converse(
        sub * ksub + code,
        ksub,
        sub,
        code,
    );
    let start = pq.offsets()[sub] as int;
    let end = pq.offsets()[sub + 1] as int;
    assert(pq.offsets()[sub] <= pq.offsets()[sub + 1]);
    assert(pq.offsets()[sub + 1] <= pq.offsets().last());
    let width = end - start;
    assert(0 <= start * ksub && 0 <= code * width && start * ksub + code * width + width
        <= pq.spec_d() * ksub) by (nonlinear_arith)
        requires
            0 <= start,
            start + width == end,
            end <= pq.spec_d(),
            0 <= code < ksub,
            0 <= width,
    ;
}

/// An entry of a table is the inner product of a chunk of the vector with a
/// centroid, over every component of the chunk.
pub proof fn law_entries_are_inner_products<N, F: Fn(N, u32, u32) -> N>(
    f: F,
    zero: N,
    read: spec_fn(N) -> real,
    value: spec_fn(u32) -> real,
    holds: spec_fn(real) -> bool,
    pq: ProductQuantizer,
    vector: Seq<u32>,
    sub: int,
    code: int,
)
    requires
        crate::pq_tables::is_trained(pq),
        vector.len() == pq.spec_d(),
        0 <= sub < pq.spec_m(),
        0 <= code < pq.spec_ksub(),
        read(zero) == 0real,
        adds_products(f, read, value, holds),
        dot_holds(
            holds,
            values(value, chunk_of(pq, vector, sub)),
            values(value, centroid_of(pq, sub, code)),
        ),
    ensures
        read(
            crate::pq_tables::table_entry(f, zero, pq, vector, sub * pq.spec_ksub() + code),
        ) == dot(
            values(value, chunk_of(pq, vector, sub)),
            values(value, centroid_of(pq, sub, code)),
        ),
        holds(
            read(crate::pq_tables::table_entry(f, zero, pq, vector, sub * pq.spec_ksub() + code)),
        ),
{
    lemma_place(pq, sub, code);
    law_steps_make_inner_products(
        f,
        zero,
        read,
        value,
        holds,
        vector,
        pq.offsets()[sub] as int,
        pq.codebook(),
        crate::pq_tables::entry_centroid(pq, sub * pq.spec_ksub() + code),
        pq.spec_chunk_dim(sub) as nat,
    );
}

/// The norm of a centroid is its squared length, over every component.
pub proof fn law_norms_are_squared_lengths<N, F: Fn(N, u32, u32) -> N>(
    f: F,
    zero: N,
    read: spec_fn(N) -> real,
    value: spec_fn(u32) -> real,
    holds: spec_fn(real) -> bool,
    pq: ProductQuantizer,
    sub: int,
    code: int,
)
    requires
        crate::pq_tables::is_trained(pq),
        0 <= sub < pq.spec_m(),
        0 <= code < pq.spec_ksub(),
        read(zero) == 0real,
        adds_products(f, read, value, holds),
        dot_holds(
            holds,
            values(value, centroid_of(pq, sub, code)),
            values(value, centroid_of(pq, sub, code)),
        ),
    ensures
        read(crate::pq_tables::norm_entry(f, zero, pq, sub * pq.spec_ksub() + code)) == dot(
            values(value, centroid_of(pq, sub, code)),
            values(value, centroid_of(pq, sub, code)),
        ),
{
    lemma_place(pq, sub, code);
    let start = crate::pq_tables::entry_centroid(pq, sub * pq.spec_ksub() + code);
    law_steps_make_inner_products(
        f,
        zero,
        read,
        value,
        holds,
        pq.codebook(),
        start,
        pq.codebook(),
        start,
        pq.spec_chunk_dim(sub) as nat,
    );
}

/// Steps depend on the components that they are taken over and on nothing else.
pub proof fn lemma_same_steps<N, F: Fn(N, u32, u32) -> N>(
    f: F,
    zero: N,
    a: Seq<u32>,
    i: int,
    b: Seq<u32>,
    j: int,
    c: Seq<u32>,
    k: int,
    e: Seq<u32>,
    l: int,
    width: nat,
)
    requires
        forall|s: int| 0 <= s < width ==> #[trigger] a[i + s] == c[k + s],
        forall|s: int| 0 <= s < width ==> #[trigger] b[j + s] == e[l + s],
    ensures
        accumulated(f, zero, a, i, b, j, width) == accumulated(f, zero, c, k, e, l, width),
    decreases width,
{
    if width > 0 {
        lemma_same_steps(f, zero, a, i, b, j, c, k, e, l, (width - 1) as nat);
        assert(a[i + (width - 1)] == c[k + (width - 1)]);
        assert(b[j + (width - 1)] == e[l + (width - 1)]);
    }
}

/// A vector whose chunk is a centroid has the norm of that centroid for an
/// entry, which is the norm of its chunk, whatever is rounded.
pub proof fn law_a_centroid_meets_itself<F: Fn(u32, u32, u32) -> u32>(
    f: F,
    pq: ProductQuantizer,
    vector: Seq<u32>,
    sub: int,
    code: int,
)
    requires
        crate::pq_tables::is_trained(pq),
        vector.len() == pq.spec_d(),
        0 <= sub < pq.spec_m(),
        0 <= code < pq.spec_ksub(),
        chunk_of(pq, vector, sub) == centroid_of(pq, sub, code),
    ensures
        crate::pq_tables::table_entry(f, 0u32, pq, vector, sub * pq.spec_ksub() + code)
            == crate::pq_tables::norm_entry(f, 0u32, pq, sub * pq.spec_ksub() + code),
        crate::pq_tables::table_entry(f, 0u32, pq, vector, sub * pq.spec_ksub() + code)
            == crate::pq_tables::chunk_norm(f, pq, vector, sub),
{
    lemma_place(pq, sub, code);
    let at = pq.offsets()[sub] as int;
    let start = crate::pq_tables::entry_centroid(pq, sub * pq.spec_ksub() + code);
    let width = pq.spec_chunk_dim(sub) as nat;
    assert forall|s: int| 0 <= s < width implies #[trigger] vector[at + s] == pq.codebook()[start
        + s] by {
        assert(chunk_of(pq, vector, sub)[s] == vector[at + s]);
        assert(centroid_of(pq, sub, code) == pq.codebook().subrange(start, start + width));
        assert(centroid_of(pq, sub, code)[s] == pq.codebook()[start + s]);
    }
    let book = pq.codebook();
    lemma_same_steps(f, 0u32, vector, at, book, start, book, start, book, start, width);
    assert forall|s: int| 0 <= s < width implies #[trigger] book[start + s] == vector[at + s] by {
        assert(vector[at + s] == book[start + s]);
    }
    lemma_same_steps(f, 0u32, vector, at, book, start, vector, at, vector, at, width);
}

/// The sums of the first chunks make up the sum of all they cover.
pub proof fn lemma_chunks_make_up(offsets: Seq<usize>, terms: Seq<real>, parts: Seq<real>, upto: nat)
    requires
        crate::pq::is_partition(offsets, terms.len() as int),
        parts.len() == offsets.len() - 1,
        upto <= parts.len(),
        forall|s: int|
            0 <= s < parts.len() ==> #[trigger] parts[s] == total(
                terms.subrange(offsets[s] as int, offsets[s + 1] as int),
            ),
    ensures
        total(parts.take(upto as int)) == total(terms.take(offsets[upto as int] as int)),
    decreases upto,
{
    if upto > 0 {
        let s = upto - 1;
        lemma_chunks_make_up(offsets, terms, parts, s as nat);
        crate::exact::lemma_total_step(parts, s);
        let start = offsets[s] as int;
        let end = offsets[s + 1] as int;
        assert(start <= end && end <= offsets.last());
        crate::exact::lemma_total_parts(terms.take(start), terms.subrange(start, end));
        assert(terms.take(start) + terms.subrange(start, end) =~= terms.take(end));
        assert(parts[s] == total(terms.subrange(start, end)));
    } else {
        assert(parts.take(0) =~= Seq::<real>::empty());
        assert(terms.take(0) =~= Seq::<real>::empty());
    }
}

/// The vector that a code stands for: each chunk is the centroid that its part
/// of the code names.
pub open spec fn is_decoded(pq: ProductQuantizer, codes: Seq<u8>, row: Seq<u32>) -> bool {
    &&& row.len() == pq.spec_d()
    &&& forall|sub: int|
        0 <= sub < pq.spec_m() ==> #[trigger] chunk_of(pq, row, sub) == centroid_of(
            pq,
            sub,
            crate::pq::code_of(codes, pq.spec_nbits() as int, sub),
        )
}

/// The table entries that a code names.
pub open spec fn named_entries(
    value: spec_fn(u32) -> real,
    pq: ProductQuantizer,
    table: Seq<u32>,
    codes: Seq<u8>,
) -> Seq<real> {
    Seq::new(
        pq.spec_m() as nat,
        |sub: int|
            value(
                table[sub * pq.spec_ksub() + crate::pq::code_of(
                    codes,
                    pq.spec_nbits() as int,
                    sub,
                )],
            ),
    )
}

/// The distance of a code is the sum of the entries that it names, one for each
/// chunk.
proof fn lemma_code_distance<A: Fn(u32, u32) -> u32>(
    add: A,
    value: spec_fn(u32) -> real,
    holds: spec_fn(real) -> bool,
    pq: ProductQuantizer,
    table: Seq<u32>,
    codes: Seq<u8>,
)
    requires
        value(0u32) == 0real,
        adds(add, value, holds),
        sum_holds(holds, named_entries(value, pq, table, codes)),
    ensures
        value(crate::pq_tables::code_distance(add, pq, table, codes, pq.spec_m() as nat)) == total(
            named_entries(value, pq, table, codes),
        ),
{
    let m = pq.spec_m() as nat;
    let terms = named_entries(value, pq, table, codes);
    let partial = Seq::new(
        m + 1,
        |k: int| value(crate::pq_tables::code_distance(add, pq, table, codes, k as nat)),
    );
    assert forall|k: int|
        0 <= k < terms.len() && holds(partial[k]) && holds(partial[k] + terms[k]) implies partial[k
        + 1] == partial[k] + #[trigger] terms[k] by {
        assert(holds(terms[k]));
        let before = crate::pq_tables::code_distance(add, pq, table, codes, k as nat);
        let entry = table[k * pq.spec_ksub() + crate::pq::code_of(
            codes,
            pq.spec_nbits() as int,
            k,
        )];
        assert(crate::pq_tables::code_distance(add, pq, table, codes, (k + 1) as nat)
            == crate::float_ops::result_of(add, before, entry));
    }
    assert(grows_by(holds, partial, terms));
    crate::exact::lemma_partial_sums(holds, partial, terms, m);
}

/// The distance of a code, from entries that are squared distances of chunks, is
/// the squared distance of the vectors; from negated inner products of chunks it
/// is the negated inner product.
pub proof fn law_code_distances_are_distances<A: Fn(u32, u32) -> u32>(
    add: A,
    value: spec_fn(u32) -> real,
    holds: spec_fn(real) -> bool,
    pq: ProductQuantizer,
    table: Seq<u32>,
    vector: Seq<u32>,
    codes: Seq<u8>,
    row: Seq<u32>,
    by_product: bool,
)
    requires
        crate::pq_tables::is_trained(pq),
        vector.len() == pq.spec_d(),
        is_decoded(pq, codes, row),
        value(0u32) == 0real,
        adds(add, value, holds),
        sum_holds(holds, named_entries(value, pq, table, codes)),
        forall|sub: int|
            0 <= sub < pq.spec_m() ==> #[trigger] named_entries(value, pq, table, codes)[sub] == (
            if by_product {
                -dot(
                    values(value, chunk_of(pq, vector, sub)),
                    values(value, chunk_of(pq, row, sub)),
                )
            } else {
                distance(
                    values(value, chunk_of(pq, vector, sub)),
                    values(value, chunk_of(pq, row, sub)),
                )
            }),
    ensures
        value(crate::pq_tables::code_distance(add, pq, table, codes, pq.spec_m() as nat)) == (
        if by_product {
            -dot(values(value, vector), values(value, row))
        } else {
            distance(values(value, vector), values(value, row))
        }),
{
    lemma_code_distance(add, value, holds, pq, table, codes);
    let x = values(value, vector);
    let y = values(value, row);
    let gap = differences(x, y);
    let plain = if by_product {
        products(x, y)
    } else {
        products(gap, gap)
    };
    let entries = named_entries(value, pq, table, codes);
    let parts = if by_product {
        Seq::new(entries.len(), |s: int| -entries[s])
    } else {
        entries
    };
    assert forall|s: int| 0 <= s < parts.len() implies #[trigger] parts[s] == total(
        plain.subrange(pq.offsets()[s] as int, pq.offsets()[s + 1] as int),
    ) by {
        let start = pq.offsets()[s] as int;
        let end = pq.offsets()[s + 1] as int;
        assert(start <= end && end <= pq.offsets().last());
        let u = values(value, chunk_of(pq, vector, s));
        let v = values(value, chunk_of(pq, row, s));
        assert(u =~= x.subrange(start, end));
        assert(v =~= y.subrange(start, end));
        assert(entries[s] == named_entries(value, pq, table, codes)[s]);
        if by_product {
            assert(products(u, v) =~= plain.subrange(start, end));
        } else {
            assert(differences(u, v) =~= gap.subrange(start, end));
            assert(products(differences(u, v), differences(u, v)) =~= plain.subrange(start, end));
        }
    }
    lemma_chunks_make_up(pq.offsets(), plain, parts, parts.len());
    assert(parts.take(parts.len() as int) =~= parts);
    assert(plain.take(plain.len() as int) =~= plain);
    if by_product {
        assert forall|s: int| 0 <= s < parts.len() implies #[trigger] parts[s] == times(
            -1real,
            entries[s],
        ) + times(0real, entries[s]) by {
            crate::exact::lemma_times_small(entries[s]);
        }
        crate::exact::lemma_total_combines(parts, entries, entries, -1real, 0real);
        crate::exact::lemma_times_small(total(entries));
    }
}

/// The last step of a squared distance: two squared lengths less twice the inner
/// product.
pub open spec fn closes<C: Fn(u32, u32, u32) -> u32>(
    close: C,
    value: spec_fn(u32) -> real,
    holds: spec_fn(real) -> bool,
) -> bool {
    forall|own: u32, other: u32, product: u32|
        {
            let result = value(own) + value(other) - value(product) - value(product);
            holds(value(own)) && holds(value(other)) && holds(value(product)) && holds(
                value(own) + value(other),
            ) && holds(value(product) + value(product)) && holds(result) && result >= 0real
                ==> value(
                #[trigger] crate::pq_tables::closed_entry(close, own, other, product),
            ) == result
        }
}

/// The squared length of a chunk takes in every component of the chunk.
pub proof fn law_chunk_norms_are_squared_lengths<F: Fn(u32, u32, u32) -> u32>(
    f: F,
    value: spec_fn(u32) -> real,
    holds: spec_fn(real) -> bool,
    pq: ProductQuantizer,
    vector: Seq<u32>,
    sub: int,
)
    requires
        pq.well_formed(),
        vector.len() == pq.spec_d(),
        0 <= sub < pq.spec_m(),
        value(0u32) == 0real,
        adds_products(f, value, value, holds),
        dot_holds(
            holds,
            values(value, chunk_of(pq, vector, sub)),
            values(value, chunk_of(pq, vector, sub)),
        ),
    ensures
        value(crate::pq_tables::chunk_norm(f, pq, vector, sub)) == dot(
            values(value, chunk_of(pq, vector, sub)),
            values(value, chunk_of(pq, vector, sub)),
        ),
        holds(value(crate::pq_tables::chunk_norm(f, pq, vector, sub))),
{
    let start = pq.offsets()[sub] as int;
    assert(pq.offsets()[sub] <= pq.offsets()[sub + 1]);
    assert(pq.offsets()[sub + 1] <= pq.offsets().last());
    law_steps_make_inner_products(
        f,
        0u32,
        value,
        value,
        holds,
        vector,
        start,
        vector,
        start,
        pq.spec_chunk_dim(sub) as nat,
    );
}

/// An entry of a table of distances is the squared distance of a chunk of the
/// vector to a centroid, or their negated inner product.
pub proof fn law_entries_are_distances<
    F: Fn(u32, u32, u32) -> u32,
    N: Fn(u32) -> u32,
    C: Fn(u32, u32, u32) -> u32,
    S: Fn(u32, u32) -> u32,
    W: Fn(u32, u32) -> u32,
>(
    kernel: TableKernel<F, N, C, S, W>,
    value: spec_fn(u32) -> real,
    holds: spec_fn(real) -> bool,
    pq: ProductQuantizer,
    metric: MetricType,
    vector: Seq<u32>,
    sub: int,
    code: int,
)
    requires
        crate::pq_tables::is_trained(pq),
        vector.len() == pq.spec_d(),
        0 <= sub < pq.spec_m(),
        0 <= code < pq.spec_ksub(),
        value(0u32) == 0real,
        adds_products(kernel.product_step, value, value, holds),
        negates(kernel.negate, value, holds),
        closes(kernel.close, value, holds),
        ({
            let x = values(value, chunk_of(pq, vector, sub));
            let y = values(value, centroid_of(pq, sub, code));
            &&& dot_holds(holds, x, y)
            &&& dot_holds(holds, x, x)
            &&& holds(dot(y, y))
            &&& holds(dot(x, x) + dot(y, y))
            &&& holds(dot(x, y) + dot(x, y))
            &&& holds(distance(x, y))
            &&& value(pq.norms()[sub * pq.spec_ksub() + code]) == dot(y, y)
        }),
    ensures
        value(
            crate::pq_search::distance_entry(
                kernel,
                pq,
                metric,
                vector,
                sub * pq.spec_ksub() + code,
            ),
        ) == ({
            let x = values(value, chunk_of(pq, vector, sub));
            let y = values(value, centroid_of(pq, sub, code));
            if metric == MetricType::InnerProduct {
                -dot(x, y)
            } else {
                distance(x, y)
            }
        }),
{
    let x = values(value, chunk_of(pq, vector, sub));
    let y = values(value, centroid_of(pq, sub, code));
    lemma_place(pq, sub, code);
    law_entries_are_inner_products(
        kernel.product_step,
        0u32,
        value,
        value,
        holds,
        pq,
        vector,
        sub,
        code,
    );
    law_chunk_norms_are_squared_lengths(kernel.product_step, value, holds, pq, vector, sub);
    assert(x.len() == y.len());
    crate::exact::lemma_distance_expands(x, y);
}

/// Codes by columns are as far as the same codes by rows, whatever is rounded.
pub proof fn law_columns_are_as_far<A: Fn(u32, u32) -> u32>(
    add: A,
    pq: ProductQuantizer,
    table: Seq<u32>,
    codes: Seq<u8>,
    count: int,
    row: int,
    own: Seq<u8>,
    chunks: nat,
)
    requires
        pq.spec_nbits() == 8,
        chunks <= pq.spec_m(),
        forall|sub: int|
            0 <= sub < pq.spec_m() ==> #[trigger] own[sub] == codes[sub * count + row],
    ensures
        crate::pq_scan::column_distance(
            add,
            table,
            codes,
            count,
            pq.spec_ksub() as int,
            0,
            row,
            chunks,
        ) == crate::pq_tables::code_distance(add, pq, table, own, chunks),
    decreases chunks,
{
    if chunks > 0 {
        let sub = chunks - 1;
        law_columns_are_as_far(add, pq, table, codes, count, row, own, sub as nat);
        assert(own[sub] == codes[sub * count + row]);
    }
}

/// Packed codes by columns are as far as the same codes by rows, whatever is
/// rounded.
pub proof fn law_packed_columns_are_as_far<A: Fn(u32, u32) -> u32>(
    add: A,
    pq: ProductQuantizer,
    table: Seq<u32>,
    codes: Seq<u8>,
    count: int,
    row: int,
    own: Seq<u8>,
    pairs: nat,
)
    requires
        pq.spec_nbits() == 4,
        pq.spec_ksub() == 16,
        2 * pairs <= pq.spec_m(),
        forall|p: int| 0 <= p < pairs ==> #[trigger] own[p] == codes[p * count + row],
    ensures
        crate::pq_scan::packed_distance(add, table, codes, count, row, pairs)
            == crate::pq_tables::code_distance(add, pq, table, own, 2 * pairs),
    decreases pairs,
{
    if pairs > 0 {
        let p = pairs - 1;
        law_packed_columns_are_as_far(add, pq, table, codes, count, row, own, p as nat);
        assert(own[p] == codes[p * count + row]);
        let first = crate::pq_tables::code_distance(add, pq, table, own, (2 * p + 1) as nat);
        assert((2 * p) % 2 == 0 && (2 * p) / 2 == p);
        assert((2 * p + 1) % 2 == 1 && (2 * p + 1) / 2 == p);
        assert(first == crate::float_ops::result_of(
            add,
            crate::pq_tables::code_distance(add, pq, table, own, (2 * p) as nat),
            table[(2 * p) * 16 + own[p] as int % 16],
        ));
        assert(crate::pq_tables::code_distance(add, pq, table, own, (2 * p + 2) as nat)
            == crate::float_ops::result_of(
            add,
            first,
            table[(2 * p + 1) * 16 + own[p] as int / 16],
        ));
    }
}

/// The distance of a row adds up the distance that it begins with and the
/// entries that the codes of the row name, one for each chunk.
pub proof fn law_column_distances_add_up<A: Fn(u32, u32) -> u32>(
    add: A,
    value: spec_fn(u32) -> real,
    holds: spec_fn(real) -> bool,
    table: Seq<u32>,
    codes: Seq<u8>,
    count: int,
    ksub: int,
    base: u32,
    row: int,
    chunks: nat,
)
    requires
        adds(add, value, holds),
        sum_holds(
            holds,
            seq![value(base)] + Seq::new(
                chunks,
                |sub: int| value(table[sub * ksub + codes[sub * count + row]]),
            ),
        ),
    ensures
        value(
            crate::pq_scan::column_distance(add, table, codes, count, ksub, base, row, chunks),
        ) == value(base) + total(
            Seq::new(chunks, |sub: int| value(table[sub * ksub + codes[sub * count + row]])),
        ),
{
    let entries = Seq::new(
        chunks,
        |sub: int| value(table[sub * ksub + codes[sub * count + row]]),
    );
    let terms = seq![value(base)] + entries;
    let partial = Seq::new(
        chunks + 2,
        |k: int|
            if k == 0 {
                0real
            } else {
                value(
                    crate::pq_scan::column_distance(
                        add,
                        table,
                        codes,
                        count,
                        ksub,
                        base,
                        row,
                        (k - 1) as nat,
                    ),
                )
            },
    );
    assert forall|k: int|
        0 <= k < terms.len() && holds(partial[k]) && holds(partial[k] + terms[k]) implies partial[k
        + 1] == partial[k] + #[trigger] terms[k] by {
        assert(holds(terms[k]));
        if k > 0 {
            let sub = k - 1;
            assert(terms[k] == entries[sub]);
            assert(crate::pq_scan::column_distance(
                add,
                table,
                codes,
                count,
                ksub,
                base,
                row,
                k as nat,
            ) == crate::float_ops::result_of(
                add,
                crate::pq_scan::column_distance(
                    add,
                    table,
                    codes,
                    count,
                    ksub,
                    base,
                    row,
                    sub as nat,
                ),
                table[sub * ksub + codes[sub * count + row]],
            ));
        }
    }
    assert(grows_by(holds, partial, terms));
    crate::exact::lemma_partial_sums(holds, partial, terms, terms.len());
    crate::exact::lemma_total_parts(seq![value(base)], entries);
    assert(seq![value(base)].drop_last() =~= Seq::<real>::empty());
    assert(total(seq![value(base)]) == total(Seq::<real>::empty()) + value(base));
}

/// A number to which twice another is added, where nothing has to be rounded.
pub open spec fn adds_twice<G: Fn(u32, u32) -> u32>(
    g: G,
    value: spec_fn(u32) -> real,
    holds: spec_fn(real) -> bool,
) -> bool {
    forall|a: u32, b: u32|
        holds(value(a)) && holds(value(b)) && holds(value(b) + value(b)) && holds(
            value(a) + value(b) + value(b),
        ) ==> value(#[trigger] crate::pq_tables::paired(g, a, b)) == value(a) + value(b) + value(b)
}

/// A number from which twice another is taken, where nothing has to be rounded.
pub open spec fn takes_twice<G: Fn(u32, u32) -> u32>(
    g: G,
    value: spec_fn(u32) -> real,
    holds: spec_fn(real) -> bool,
) -> bool {
    forall|a: u32, b: u32|
        holds(value(a)) && holds(value(b)) && holds(value(b) + value(b)) && holds(
            value(a) - value(b) - value(b),
        ) ==> value(#[trigger] crate::pq_tables::paired(g, a, b)) == value(a) - value(b) - value(b)
}

/// The table of a list, combined with the inner products of a query, leaves out
/// exactly the distance of the query to the list's centroid: with it, an entry
/// is the squared distance of the query's chunk to the centroid of the list
/// moved by that of the codebook.
pub proof fn law_list_tables_leave_out_the_centroid<
    F: Fn(u32, u32, u32) -> u32,
    G: Fn(u32, u32) -> u32,
    W: Fn(u32, u32) -> u32,
>(
    f: F,
    expand: G,
    without_twice: W,
    value: spec_fn(u32) -> real,
    holds: spec_fn(real) -> bool,
    pq: ProductQuantizer,
    query: Seq<u32>,
    centroid: Seq<u32>,
    sub: int,
    code: int,
)
    requires
        crate::pq_tables::is_trained(pq),
        query.len() == pq.spec_d(),
        centroid.len() == pq.spec_d(),
        0 <= sub < pq.spec_m(),
        0 <= code < pq.spec_ksub(),
        value(0u32) == 0real,
        adds_products(f, value, value, holds),
        adds_twice(expand, value, holds),
        takes_twice(without_twice, value, holds),
        ({
            let q = values(value, chunk_of(pq, query, sub));
            let c = values(value, chunk_of(pq, centroid, sub));
            let x = values(value, centroid_of(pq, sub, code));
            let own = dot(x, x) + dot(c, x) + dot(c, x);
            &&& dot_holds(holds, q, x)
            &&& dot_holds(holds, c, x)
            &&& holds(dot(x, x))
            &&& value(pq.norms()[sub * pq.spec_ksub() + code]) == dot(x, x)
            &&& holds(dot(c, x) + dot(c, x))
            &&& holds(own)
            &&& holds(dot(q, x) + dot(q, x))
            &&& holds(own - dot(q, x) - dot(q, x))
        }),
    ensures
        ({
            let q = values(value, chunk_of(pq, query, sub));
            let c = values(value, chunk_of(pq, centroid, sub));
            let x = values(value, centroid_of(pq, sub, code));
            let at = sub * pq.spec_ksub() + code;
            value(
                crate::pq_tables::paired(
                    without_twice,
                    crate::ivfpq::list_table(f, expand, pq, centroid)[at],
                    crate::pq_tables::table_entry(f, 0u32, pq, query, at),
                ),
            ) + distance(q, c) == distance(q, crate::exact::sums(c, x))
        }),
{
    let q = values(value, chunk_of(pq, query, sub));
    let c = values(value, chunk_of(pq, centroid, sub));
    let x = values(value, centroid_of(pq, sub, code));
    lemma_place(pq, sub, code);
    law_entries_are_inner_products(f, 0u32, value, value, holds, pq, query, sub, code);
    law_entries_are_inner_products(f, 0u32, value, value, holds, pq, centroid, sub, code);
    let gap = differences(q, c);
    assert(differences(q, crate::exact::sums(c, x)) =~= differences(gap, x));
    crate::exact::lemma_distance_expands(gap, x);
    crate::exact::lemma_dot_of_difference(q, c, x);
}

/// The residual of a query is the query less the centroid of the list, in every
/// component.
pub proof fn law_residuals_are_differences<S: Fn(u32, u32) -> u32>(
    subtract: S,
    value: spec_fn(u32) -> real,
    holds: spec_fn(real) -> bool,
    query: Seq<u32>,
    centroids: Seq<u32>,
    list: int,
)
    requires
        0 <= list,
        (list + 1) * query.len() <= centroids.len(),
        forall|a: u32, b: u32|
            holds(value(a)) && holds(value(b)) && holds(value(a) - value(b)) ==> value(
                #[trigger] crate::float_ops::result_of(subtract, a, b),
            ) == value(a) - value(b),
        all_hold(holds, values(value, query)),
        all_hold(
            holds,
            values(
                value,
                centroids.subrange(list * query.len(), (list + 1) * query.len()),
            ),
        ),
        all_hold(
            holds,
            differences(
                values(value, query),
                values(
                    value,
                    centroids.subrange(list * query.len(), (list + 1) * query.len()),
                ),
            ),
        ),
    ensures
        values(
            value,
            crate::pq_search::compared_vector(subtract, true, query, centroids, list),
        ) == differences(
            values(value, query),
            values(value, centroids.subrange(list * query.len(), (list + 1) * query.len())),
        ),
{
    let d = query.len() as int;
    assert((list + 1) * d == list * d + d && 0 <= list * d) by (nonlinear_arith)
        requires
            0 <= list,
            0 <= d,
    ;
    let q = values(value, query);
    let c = values(value, centroids.subrange(list * d, (list + 1) * d));
    let gap = differences(q, c);
    let found = values(
        value,
        crate::pq_search::compared_vector(subtract, true, query, centroids, list),
    );
    assert forall|i: int| 0 <= i < d implies found[i] == gap[i] by {
        assert(holds(q[i]) && holds(c[i]) && holds(gap[i]));
    }
    assert(found =~= gap);
}

/// The steps of encoding compute what they say, where nothing has to be rounded.
pub open spec fn encodes_exactly<F: Fn(EncodeStep) -> u32>(
    f: F,
    value: spec_fn(u32) -> real,
    holds: spec_fn(real) -> bool,
) -> bool {
    &&& forall|kind: SumKind, sum: u32, a: u32, b: u32|
        {
            let gap = value(a) - value(b);
            let term = if kind == SumKind::Product {
                times(value(a), value(b))
            } else {
                times(gap, gap)
            };
            holds(value(sum)) && holds(value(a)) && holds(value(b)) && (kind == SumKind::Product
                || holds(gap)) && holds(term) && holds(value(sum) + term) ==> value(
                #[trigger] crate::pq_encode::step_result(f, EncodeStep::Add { kind, sum, a, b }),
            ) == value(sum) + term
        }
    &&& forall|query_norm: u32, centroid_norm: u32, product: u32|
        {
            let result = value(query_norm) + value(centroid_norm) - value(product) - value(product);
            holds(value(query_norm)) && holds(value(centroid_norm)) && holds(value(product))
                && holds(value(query_norm) + value(centroid_norm)) && holds(
                value(product) + value(product),
            ) && holds(result) && result >= 0real ==> value(
                #[trigger] crate::pq_encode::step_result(
                    f,
                    EncodeStep::Close { query_norm, centroid_norm, product },
                ),
            ) == result
        }
}

/// Sums of encoding steps are inner products or squared distances.
proof fn lemma_encode_sum<F: Fn(EncodeStep) -> u32>(
    f: F,
    value: spec_fn(u32) -> real,
    holds: spec_fn(real) -> bool,
    kind: SumKind,
    a: Seq<u32>,
    i: int,
    b: Seq<u32>,
    j: int,
    width: nat,
)
    requires
        value(0u32) == 0real,
        encodes_exactly(f, value, holds),
        0 <= i && i + width <= a.len(),
        0 <= j && j + width <= b.len(),
        kind == SumKind::Product ==> dot_holds(
            holds,
            values(value, a.subrange(i, i + width)),
            values(value, b.subrange(j, j + width)),
        ),
        kind != SumKind::Product ==> distance_holds(
            holds,
            values(value, a.subrange(i, i + width)),
            values(value, b.subrange(j, j + width)),
        ),
    ensures
        value(crate::pq_encode::summed(f, kind, a, i, b, j, width)) == (if kind
            == SumKind::Product {
            dot(
                values(value, a.subrange(i, i + width)),
                values(value, b.subrange(j, j + width)),
            )
        } else {
            distance(
                values(value, a.subrange(i, i + width)),
                values(value, b.subrange(j, j + width)),
            )
        }),
        holds(value(crate::pq_encode::summed(f, kind, a, i, b, j, width))),
{
    let x = values(value, a.subrange(i, i + width));
    let y = values(value, b.subrange(j, j + width));
    let gap = differences(x, y);
    let terms = if kind == SumKind::Product {
        products(x, y)
    } else {
        products(gap, gap)
    };
    let partial = Seq::new(
        width + 1,
        |k: int| value(crate::pq_encode::summed(f, kind, a, i, b, j, k as nat)),
    );
    assert forall|k: int|
        0 <= k < terms.len() && holds(partial[k]) && holds(partial[k] + terms[k]) implies partial[k
        + 1] == partial[k] + #[trigger] terms[k] by {
        assert(x[k] == value(a[i + k]) && y[k] == value(b[j + k]));
        assert(holds(x[k]) && holds(y[k]) && holds(terms[k]));
        assert(kind != SumKind::Product ==> holds(gap[k]));
        assert(crate::pq_encode::summed(f, kind, a, i, b, j, (k + 1) as nat)
            == crate::pq_encode::step_result(
            f,
            EncodeStep::Add {
                kind,
                sum: crate::pq_encode::summed(f, kind, a, i, b, j, k as nat),
                a: a[i + k],
                b: b[j + k],
            },
        ));
    }
    assert(grows_by(holds, partial, terms));
    crate::exact::lemma_partial_sums(holds, partial, terms, width);
}

/// The distances that a vector is encoded by are the squared distances of its
/// chunks to the centroids, over every component, however they are computed.
pub proof fn law_encoding_measures_distances<F: Fn(EncodeStep) -> u32>(
    f: F,
    value: spec_fn(u32) -> real,
    holds: spec_fn(real) -> bool,
    pq: ProductQuantizer,
    vector: Seq<u32>,
    direct: bool,
    sub: int,
    code: int,
)
    requires
        crate::pq_encode::can_encode(pq),
        vector.len() == pq.spec_d(),
        0 <= sub < pq.spec_m(),
        0 <= code < pq.spec_ksub(),
        value(0u32) == 0real,
        encodes_exactly(f, value, holds),
        ({
            let x = values(value, chunk_of(pq, vector, sub));
            let y = values(value, centroid_of(pq, sub, code));
            &&& distance_holds(holds, x, y)
            &&& dot_holds(holds, x, y)
            &&& dot_holds(holds, x, x)
            &&& dot_holds(holds, y, y)
            &&& holds(dot(x, x) + dot(y, y))
            &&& holds(dot(x, y) + dot(x, y))
            &&& holds(distance(x, y))
            &&& pq.norms().len() > 0 ==> value(pq.norms()[sub * pq.spec_ksub() + code]) == dot(y, y)
        }),
    ensures
        value(crate::pq_encode::centroid_distance(f, pq, vector, direct, sub, code)) == distance(
            values(value, chunk_of(pq, vector, sub)),
            values(value, centroid_of(pq, sub, code)),
        ),
{
    let x = values(value, chunk_of(pq, vector, sub));
    let y = values(value, centroid_of(pq, sub, code));
    lemma_place(pq, sub, code);
    let at = pq.offsets()[sub] as int;
    let width = pq.spec_chunk_dim(sub) as nat;
    let start = pq.centroid_at(sub, code, 0);
    let book = pq.codebook();
    lemma_encode_sum(f, value, holds, SumKind::Fused, vector, at, book, start, width);
    lemma_encode_sum(f, value, holds, SumKind::Square, vector, at, book, start, width);
    lemma_encode_sum(f, value, holds, SumKind::Product, vector, at, vector, at, width);
    lemma_encode_sum(f, value, holds, SumKind::Product, book, start, book, start, width);
    lemma_encode_sum(f, value, holds, SumKind::Product, vector, at, book, start, width);
    assert(x.len() == y.len());
    crate::exact::lemma_distance_expands(x, y);
    assert(value(crate::pq_encode::centroid_norm(f, pq, sub, code)) == dot(y, y));
}

/// An operation subtracts, where nothing has to be rounded.
pub open spec fn subtracts<S: Fn(u32, u32) -> u32>(
    subtract: S,
    value: spec_fn(u32) -> real,
    holds: spec_fn(real) -> bool,
) -> bool {
    forall|a: u32, b: u32|
        holds(value(a)) && holds(value(b)) && holds(value(a) - value(b)) ==> value(
            #[trigger] crate::float_ops::result_of(subtract, a, b),
        ) == value(a) - value(b)
}

/// A row that is encoded by its residual has the centroid of its own list taken
/// off, in every component.
pub proof fn law_encoded_vectors_are_differences<S: Fn(u32, u32) -> u32>(
    subtract: S,
    value: spec_fn(u32) -> real,
    holds: spec_fn(real) -> bool,
    index: IVFPQIndex,
    assignments: Seq<usize>,
    rows: Seq<u32>,
    i: int,
    dim: int,
)
    requires
        index.by_residual,
        subtracts(subtract, value, holds),
        0 <= i < assignments.len(),
        0 <= dim < index.d,
        rows.len() == assignments.len() * index.d,
        ({
            let own = value(rows[i * index.d + dim]);
            let other = value(index.quantizer_centroids@[assignments[i] * index.d + dim]);
            holds(own) && holds(other) && holds(own - other)
        }),
    ensures
        value(
            crate::ivfpq_codes::encoded_vectors(subtract, index, assignments, rows)[i * index.d
                + dim],
        ) == value(rows[i * index.d + dim]) - value(
            index.quantizer_centroids@[assignments[i] * index.d + dim],
        ),
{
    let d = index.d as int;
    assert(0 <= i * d && i * d + d <= assignments.len() * d) by (nonlinear_arith)
        requires
            0 <= i < assignments.len(),
            0 < d,
    ;
    vstd::arithmetic::div_mod::lemma_fundamental_div_mod_converse(i * d + dim, d, i, dim);
}

/// The residual of a row is the row less the centroid, in every component.
pub proof fn law_row_residuals_are_differences<S: Fn(u32, u32) -> u32>(
    subtract: S,
    value: spec_fn(u32) -> real,
    holds: spec_fn(real) -> bool,
    row: Seq<u32>,
    centroids: Seq<u32>,
    start: int,
)
    requires
        0 <= start,
        start + row.len() <= centroids.len(),
        subtracts(subtract, value, holds),
        all_hold(holds, values(value, row)),
        all_hold(holds, values(value, centroids.subrange(start, start + row.len()))),
        all_hold(
            holds,
            differences(
                values(value, row),
                values(value, centroids.subrange(start, start + row.len())),
            ),
        ),
    ensures
        values(value, crate::ivfrq::residual_of(subtract, row, centroids, start)) == differences(
            values(value, row),
            values(value, centroids.subrange(start, start + row.len())),
        ),
{
    let q = values(value, row);
    let c = values(value, centroids.subrange(start, start + row.len()));
    let gap = differences(q, c);
    let found = values(value, crate::ivfrq::residual_of(subtract, row, centroids, start));
    assert forall|i: int| 0 <= i < q.len() implies found[i] == gap[i] by {
        assert(holds(q[i]) && holds(c[i]) && holds(gap[i]));
    }
    assert(found =~= gap);
}

/// The distance of a row by the table of its list, with what it begins with,
/// adds up to the distance of the query to the row: the tables of lists leave
/// out the distance to the list's centroid, and it is added to theirs.
pub proof fn law_held_rows_are_measured<
    P: Fn(u32, u32, u32) -> u32,
    N: Fn(u32) -> u32,
    C: Fn(u32, u32, u32) -> u32,
    S: Fn(u32, u32) -> u32,
    W: Fn(u32, u32) -> u32,
    A: Fn(u32, u32) -> u32,
    L: Fn(u32, u32, u32) -> u8,
    R: Fn(u16, u32, u32) -> u32,
    Q: Fn(&Vec<u32>, &Vec<u8>, usize) -> Vec<u32>,
>(
    tables: TableKernel<P, N, C, S, W>,
    packed: PackedKernel<A, L, R>,
    scan: Q,
    value: spec_fn(u32) -> real,
    holds: spec_fn(real) -> bool,
    index: IVFPQIndex,
    query: Seq<u32>,
    probes: Seq<usize>,
    coarse: Seq<u32>,
    r: int,
    row: int,
    found: u32,
    whole: Seq<real>,
)
    requires
        crate::ivfpq_codes::is_searchable(index),
        index.pq.spec_nbits() == 8,
        0 <= r < probes.len(),
        probes[r] < index.nlist,
        coarse.len() == probes.len(),
        0 <= row < index.ids@[probes[r] as int]@.len(),
        whole.len() == index.d,
        value(0u32) == 0real,
        adds(packed.add, value, holds),
        crate::ivfpq_codes::held_measures(tables, packed, scan, index, query, probes, coarse)(
            r,
            row,
            found,
        ),
        ({
            let list = probes[r] as int;
            let table = crate::ivfpq_codes::held_table(tables, index, query, list);
            let code = index.codes@[list]@.subrange(
                row * index.pq.spec_m(),
                (row + 1) * index.pq.spec_m(),
            );
            let entries = named_entries(value, index.pq, table, code);
            &&& sum_holds(holds, entries)
            &&& holds(value(coarse[r]))
            &&& holds(value(coarse[r]) + total(entries))
            &&& forall|sub: int|
                0 <= sub < index.pq.spec_m() ==> #[trigger] entries[sub] == total(
                    whole.subrange(
                        index.pq.offsets()[sub] as int,
                        index.pq.offsets()[sub + 1] as int,
                    ),
                )
        }),
    ensures
        value(found) == total(whole) + (if index.precomputed_table@.len() > 0 {
            value(coarse[r])
        } else {
            0real
        }),
{
    let list = probes[r] as int;
    let pq = index.pq;
    let table = crate::ivfpq_codes::held_table(tables, index, query, list);
    let code = index.codes@[list]@.subrange(row * pq.spec_m(), (row + 1) * pq.spec_m());
    let entries = named_entries(value, pq, table, code);
    lemma_code_distance(packed.add, value, holds, pq, table, code);
    lemma_chunks_make_up(pq.offsets(), whole, entries, entries.len());
    assert(entries.take(entries.len() as int) =~= entries);
    assert(whole.take(whole.len() as int) =~= whole);
    assert(holds(total(entries.take(entries.len() as int))));
    assert(holds(total(entries.take(0))));
    assert(entries.take(0) =~= Seq::<real>::empty());
    assert(!crate::ivfpq_codes::uses_packed_codes(index));
    let base = if index.precomputed_table@.len() > 0 {
        coarse[r]
    } else {
        0
    };
    assert(found == crate::float_ops::result_of(
        packed.add,
        base,
        crate::pq_tables::code_distance(packed.add, pq, table, code, pq.spec_m() as nat),
    ));
}

} // verus!
