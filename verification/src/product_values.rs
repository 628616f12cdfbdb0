//! What the products of queries with bit-plane codes stand for.
use crate::exact::{
    dot, grows_by, products, stretched, sum_holds, times, total, values,
};
use crate::rq_products::{step_result, RowStep};
use crate::rq_query::RQQueryContext;
use crate::table_values::adds;
use vstd::arithmetic::power2::pow2;
use vstd::prelude::*;

verus! {

/// The steps compute what they say, where nothing has to be rounded.
pub open spec fn is_exact_row<G: Fn(RowStep) -> u32>(
    g: G,
    value: spec_fn(u32) -> real,
    holds: spec_fn(real) -> bool,
) -> bool {
    &&& forall|a: u32, b: u32|
        holds(value(a)) && holds(value(b)) && holds(value(a) + value(b)) ==> value(
            #[trigger] step_result(g, RowStep::Add { a, b }),
        ) == value(a) + value(b)
    &&& forall|weight: usize, x: u32|
        holds(value(x)) && holds(weight as real) && holds(times(weight as real, value(x)))
            ==> value(#[trigger] step_result(g, RowStep::Scale { weight, value: x })) == times(
            weight as real,
            value(x),
        )
    &&& forall|sum: u32, weight: usize, x: u32|
        {
            let part = times(weight as real, value(x));
            holds(value(sum)) && holds(value(x)) && holds(weight as real) && holds(part) && holds(
                value(sum) + part,
            ) ==> value(
                #[trigger] step_result(g, RowStep::Weigh { total: sum, weight, value: x }),
            ) == value(sum) + part
        }
    &&& forall|sum: u32, levels: usize, query_sum: u32|
        {
            let part = times(levels as real / 2real, value(query_sum));
            holds(value(sum)) && holds(value(query_sum)) && holds(levels as real) && holds(
                levels as real / 2real,
            ) && holds(part) && holds(value(sum) - part) ==> value(
                #[trigger] step_result(g, RowStep::Center { total: sum, levels, query_sum }),
            ) == value(sum) - part
        }
}

/// A sum does not depend on the order of its terms from front or back.
proof fn lemma_total_reverse(terms: Seq<real>)
    ensures
        total(terms.reverse()) == total(terms),
    decreases terms.len(),
{
    if terms.len() == 0 {
        assert(terms.reverse() =~= terms);
    } else {
        let rest = terms.drop_last();
        let first = seq![terms.last()];
        lemma_total_reverse(rest);
        assert(terms.reverse() =~= first + rest.reverse());
        crate::exact::lemma_total_parts(first, rest.reverse());
        assert(first.drop_last() =~= Seq::<real>::empty());
        assert(total(first) == total(Seq::<real>::empty()) + terms.last());
    }
}

/// The components that a pattern picks, and zero for the others.
pub open spec fn picked(x: Seq<real>, base: int, width: nat, pattern: u32) -> Seq<real> {
    Seq::new(
        width,
        |k: int|
            if crate::rq_query::pattern_bit(pattern, k) {
                x[base + k]
            } else {
                0real
            },
    )
}

/// A subset sum is the sum of the components that the pattern picks.
pub proof fn law_subset_sums_add_up<A: Fn(u32, u32) -> u32>(
    add: A,
    value: spec_fn(u32) -> real,
    holds: spec_fn(real) -> bool,
    query: Seq<u32>,
    base: int,
    width: nat,
    pattern: u32,
)
    requires
        0 <= base && base + width <= query.len(),
        value(0u32) == 0real,
        adds(add, value, holds),
        sum_holds(holds, picked(values(value, query), base, width, pattern).reverse()),
    ensures
        value(crate::rq_query::subset_sum(add, query, base, width as int, pattern, 0)) == total(
            picked(values(value, query), base, width, pattern),
        ),
{
    let chosen = picked(values(value, query), base, width, pattern);
    let terms = chosen.reverse();
    let partial = Seq::new(
        width + 1,
        |k: int|
            value(
                crate::rq_query::subset_sum(add, query, base, width as int, pattern, width - k),
            ),
    );
    assert forall|k: int|
        0 <= k < terms.len() && holds(partial[k]) && holds(partial[k] + terms[k]) implies partial[k
        + 1] == partial[k] + #[trigger] terms[k] by {
        let from = width - k - 1;
        assert(terms[k] == chosen[from]);
        assert(holds(terms[k]));
        let above = crate::rq_query::subset_sum(add, query, base, width as int, pattern, width - k);
        assert(from + 1 == width - k);
        if crate::rq_query::pattern_bit(pattern, from) {
            assert(crate::rq_query::subset_sum(add, query, base, width as int, pattern, from)
                == crate::float_ops::result_of(add, above, query[base + from]));
        } else {
            assert(crate::rq_query::subset_sum(add, query, base, width as int, pattern, from)
                == above);
        }
    }
    assert(grows_by(holds, partial, terms));
    crate::exact::lemma_partial_sums(holds, partial, terms, width);
    lemma_total_reverse(chosen);
}

/// The bits of a plane as ones and zeros: eight to a byte, the least first.
pub open spec fn plane_ones(code: Seq<u8>, start: int, bytes: nat) -> Seq<real> {
    Seq::new(
        8 * bytes,
        |i: int|
            if crate::bitops::byte_bit(code[start + i / 8], i % 8) {
                1real
            } else {
                0real
            },
    )
}

/// The entries that the bytes of a plane name.
pub open spec fn plane_entries(
    value: spec_fn(u32) -> real,
    entries: Seq<u32>,
    code: Seq<u8>,
    start: int,
    bytes: nat,
) -> Seq<real> {
    Seq::new(bytes, |byte: int| value(entries[byte * 256 + code[start + byte]]))
}

/// Everything that the sum of a plane is made of can be computed without
/// rounding.
pub open spec fn plane_holds(
    value: spec_fn(u32) -> real,
    holds: spec_fn(real) -> bool,
    query: Seq<u32>,
    entries: Seq<u32>,
    code: Seq<u8>,
    start: int,
    bytes: nat,
) -> bool {
    &&& sum_holds(holds, plane_entries(value, entries, code, start, bytes))
    &&& forall|byte: int|
        0 <= byte < bytes ==> sum_holds(
            holds,
            picked(
                values(value, query),
                8 * byte,
                8,
                #[trigger] code[start + byte] as u32,
            ).reverse(),
        )
}

proof fn lemma_bits_agree(byte: u8, k: int)
    requires
        0 <= k < 8,
    ensures
        crate::rq_query::pattern_bit(byte as u32, k) == crate::bitops::byte_bit(byte, k),
{
    let j = k as u8;
    let l = k as u32;
    assert(j < 8 && l == j as u32 ==> ((((byte as u32) >> l) & 1u32 == 1u32) == ((byte >> j) & 1u8
        == 1u8))) by (bit_vector);
}

/// The sum of a plane is the inner product of the query with the bits of the
/// plane, over every component.
pub proof fn law_plane_sums_are_inner_products<A: Fn(u32, u32) -> u32, G: Fn(RowStep) -> u32>(
    add: A,
    g: G,
    value: spec_fn(u32) -> real,
    holds: spec_fn(real) -> bool,
    query: Seq<u32>,
    entries: Seq<u32>,
    code: Seq<u8>,
    start: int,
    bytes: nat,
)
    requires
        query.len() == 8 * bytes,
        8 * bytes <= usize::MAX,
        value(0u32) == 0real,
        adds(add, value, holds),
        is_exact_row(g, value, holds),
        crate::rq_query::are_subset_sums(add, query, bytes as int, 8, 256, entries),
        plane_holds(value, holds, query, entries, code, start, bytes),
    ensures
        value(crate::rq_products::plane_product(g, entries, code, start, bytes)) == dot(
            values(value, query),
            plane_ones(code, start, bytes),
        ),
        holds(value(crate::rq_products::plane_product(g, entries, code, start, bytes))),
        total(plane_entries(value, entries, code, start, bytes)) == dot(
            values(value, query),
            plane_ones(code, start, bytes),
        ),
{
    let x = values(value, query);
    let ones = plane_ones(code, start, bytes);
    let plain = products(x, ones);
    let parts = plane_entries(value, entries, code, start, bytes);
    let partial = Seq::new(
        bytes + 1,
        |k: int| value(crate::rq_products::plane_product(g, entries, code, start, k as nat)),
    );
    assert forall|k: int|
        0 <= k < parts.len() && holds(partial[k]) && holds(partial[k] + parts[k]) implies partial[k
        + 1] == partial[k] + #[trigger] parts[k] by {
        assert(holds(parts[k]));
        assert(crate::rq_products::plane_product(g, entries, code, start, (k + 1) as nat)
            == step_result(
            g,
            RowStep::Add {
                a: crate::rq_products::plane_product(g, entries, code, start, k as nat),
                b: entries[k * 256 + code[start + k]],
            },
        ));
    }
    assert(grows_by(holds, partial, parts));
    crate::exact::lemma_partial_sums(holds, partial, parts, bytes);
    let offsets = Seq::new(bytes + 1, |i: int| (8 * i) as usize);
    assert forall|s: int| 0 <= s < parts.len() implies #[trigger] parts[s] == total(
        plain.subrange(offsets[s] as int, offsets[s + 1] as int),
    ) by {
        let pattern = code[start + s] as u32;
        assert(s * 256 + code[start + s] == s * 256 + pattern);
        assert(entries[s * 256 + pattern] == crate::rq_query::subset_sum(
            add,
            query,
            s * 8,
            8,
            pattern,
            0,
        ));
        law_subset_sums_add_up(add, value, holds, query, 8 * s, 8, pattern);
        let chosen = picked(x, 8 * s, 8, pattern);
        let part = plain.subrange(8 * s, 8 * s + 8);
        assert forall|k: int| 0 <= k < 8 implies chosen[k] == part[k] by {
            lemma_bits_agree(code[start + s], k);
            assert((8 * s + k) / 8 == s && (8 * s + k) % 8 == k);
            assert(part[k] == times(x[8 * s + k], ones[8 * s + k]));
            crate::exact::lemma_times_small(x[8 * s + k]);
        }
        assert(chosen =~= part);
    }
    if bytes > 0 {
        crate::table_values::lemma_chunks_make_up(offsets, plain, parts, bytes);
    } else {
        assert(plain =~= Seq::<real>::empty() && parts =~= Seq::<real>::empty());
    }
    assert(parts.take(bytes as int) =~= parts);
    assert(plain.take(plain.len() as int) =~= plain);
}

/// The weight of a plane: the most significant one comes first.
pub open spec fn plane_weight(bits: int, plane: int) -> real {
    pow2((bits - 1 - plane) as nat) as int as real
}

/// The numbers whose binary digits the first `planes` planes of a code hold, one
/// for each component.
pub open spec fn levels_of(
    code: Seq<u8>,
    bits: int,
    plane_size: nat,
    planes: nat,
) -> Seq<real>
    decreases planes,
{
    if planes == 0 {
        Seq::new(8 * plane_size, |i: int| 0real)
    } else {
        let plane = planes - 1;
        crate::exact::sums(
            levels_of(code, bits, plane_size, plane as nat),
            stretched(
                plane_weight(bits, plane),
                plane_ones(code, plane * plane_size, plane_size),
            ),
        )
    }
}

/// The levels of a code around zero.
pub open spec fn centered(code: Seq<u8>, bits: int, plane_size: nat) -> Seq<real> {
    let levels = levels_of(code, bits, plane_size, bits as nat);
    let middle = (pow2(bits as nat) - 1) as real / 2real;
    Seq::new(levels.len(), |i: int| levels[i] - middle)
}

proof fn lemma_powers_agree(e: nat)
    requires
        e <= 8,
    ensures
        crate::rq_products::power_of_two(e) == pow2(e),
        1 <= pow2(e) <= 256,
        pow2(e) as usize == pow2(e),
    decreases e,
{
    if e == 0 {
        vstd::arithmetic::power2::lemma2_to64();
    } else {
        vstd::arithmetic::power2::lemma2_to64();
        lemma_powers_agree((e - 1) as nat);
        vstd::arithmetic::power2::lemma_pow2_unfold(e);
    }
}

proof fn lemma_levels_len(code: Seq<u8>, bits: int, plane_size: nat, planes: nat)
    ensures
        levels_of(code, bits, plane_size, planes).len() == 8 * plane_size,
    decreases planes,
{
    if planes > 0 {
        lemma_levels_len(code, bits, plane_size, (planes - 1) as nat);
    }
}

/// The weighted sums of the planes.
pub open spec fn plane_terms(
    value: spec_fn(u32) -> real,
    query: Seq<u32>,
    code: Seq<u8>,
    bits: int,
    plane_size: nat,
) -> Seq<real> {
    Seq::new(
        bits as nat,
        |plane: int|
            times(
                plane_weight(bits, plane),
                dot(values(value, query), plane_ones(code, plane * plane_size, plane_size)),
            ),
    )
}

/// The weighted sums of the first planes make up the inner product with the
/// numbers that these planes hold.
proof fn lemma_planes_make_up(
    value: spec_fn(u32) -> real,
    query: Seq<u32>,
    code: Seq<u8>,
    bits: int,
    plane_size: nat,
    planes: nat,
)
    requires
        planes <= bits,
        query.len() == 8 * plane_size,
    ensures
        dot(values(value, query), levels_of(code, bits, plane_size, planes)) == total(
            plane_terms(value, query, code, bits, plane_size).take(planes as int),
        ),
    decreases planes,
{
    let x = values(value, query);
    let terms = plane_terms(value, query, code, bits, plane_size);
    if planes == 0 {
        let none = levels_of(code, bits, plane_size, 0);
        assert forall|i: int| 0 <= i < none.len() implies #[trigger] none[i] == times(0real, x[i])
            + times(0real, x[i]) by {
            crate::exact::lemma_times_small(x[i]);
        }
        crate::exact::lemma_dot_linear(none, x, x, 0real, 0real, x);
        crate::exact::lemma_times_small(dot(x, x));
        crate::exact::lemma_dot_symmetric(none, x);
        assert(terms.take(0) =~= Seq::<real>::empty());
    } else {
        let plane = planes - 1;
        lemma_planes_make_up(value, query, code, bits, plane_size, plane as nat);
        lemma_levels_len(code, bits, plane_size, plane as nat);
        let ones = plane_ones(code, plane * plane_size, plane_size);
        let weight = plane_weight(bits, plane);
        let before = levels_of(code, bits, plane_size, plane as nat);
        crate::exact::lemma_dot_of_sum(before, stretched(weight, ones), x);
        crate::exact::lemma_dot_of_stretched(weight, ones, x);
        crate::exact::lemma_total_step(terms, plane);
    }
}

/// The product of a query with a code is the inner product with the levels of
/// the code around zero.
pub proof fn law_code_products_are_inner_products<A: Fn(u32, u32) -> u32, G: Fn(RowStep) -> u32>(
    add: A,
    g: G,
    value: spec_fn(u32) -> real,
    holds: spec_fn(real) -> bool,
    context: RQQueryContext,
    code: Seq<u8>,
    bits: int,
    plane_size: nat,
)
    requires
        1 <= bits <= 8,
        context.rotated_query@.len() == 8 * plane_size,
        value(0u32) == 0real,
        adds(add, value, holds),
        is_exact_row(g, value, holds),
        crate::rq_query::are_subset_sums(
            add,
            context.rotated_query@,
            plane_size as int,
            8,
            256,
            context.byte_subset_sums@,
        ),
        value(context.sum) == total(values(value, context.rotated_query@)),
        forall|plane: int|
            0 <= plane < bits ==> holds(#[trigger] plane_weight(bits, plane)) && plane_holds(
                value,
                holds,
                context.rotated_query@,
                context.byte_subset_sums@,
                code,
                plane * plane_size,
                plane_size,
            ),
        sum_holds(holds, plane_terms(value, context.rotated_query@, code, bits, plane_size)),
        ({
            let all = (pow2(bits as nat) - 1) as real;
            let part = times(all / 2real, value(context.sum));
            &&& holds(value(context.sum))
            &&& holds(all)
            &&& holds(all / 2real)
            &&& holds(part)
            &&& holds(
                dot(
                    values(value, context.rotated_query@),
                    levels_of(code, bits, plane_size, bits as nat),
                ) - part,
            )
        }),
    ensures
        value(
            crate::rq_products::code_product(
                g,
                context,
                code,
                bits,
                plane_size as int,
                crate::rq_products::first_plane(g, context, code, plane_size as int),
            ),
        ) == dot(values(value, context.rotated_query@), centered(code, bits, plane_size)),
{
    let query = context.rotated_query@;
    let entries = context.byte_subset_sums@;
    let x = values(value, query);
    let terms = plane_terms(value, query, code, bits, plane_size);
    let coarse = crate::rq_products::first_plane(g, context, code, plane_size as int);
    assert(context.rotated_query.len() == 8 * plane_size);
    let size = plane_size as int;
    let partial = Seq::new(
        (bits + 1) as nat,
        |k: int|
            value(
                crate::rq_products::weighted_planes(
                    g,
                    entries,
                    code,
                    bits,
                    size,
                    coarse,
                    k as nat,
                ),
            ),
    );
    assert forall|k: int|
        0 <= k < terms.len() && holds(partial[k]) && holds(partial[k] + terms[k]) implies partial[k
        + 1] == partial[k] + #[trigger] terms[k] by {
        assert(holds(terms[k]) && holds(plane_weight(bits, k)));
        lemma_powers_agree((bits - 1 - k) as nat);
        law_plane_sums_are_inner_products(
            add,
            g,
            value,
            holds,
            query,
            entries,
            code,
            k * plane_size,
            plane_size,
        );
        assert(0 * size == 0);
        let weight = crate::rq_products::power_of_two((bits - 1 - k) as nat) as usize;
        let own = crate::rq_products::plane_product(g, entries, code, k * size, plane_size);
        assert(k == 0 ==> own == coarse);
        assert(crate::rq_products::weighted_planes(
            g,
            entries,
            code,
            bits,
            size,
            coarse,
            (k + 1) as nat,
        ) == step_result(
            g,
            RowStep::Weigh {
                total: crate::rq_products::weighted_planes(
                    g,
                    entries,
                    code,
                    bits,
                    size,
                    coarse,
                    k as nat,
                ),
                weight,
                value: own,
            },
        ));
        assert(weight as real == plane_weight(bits, k));
        assert(terms[k] == times(weight as real, value(own)));
    }
    assert(grows_by(holds, partial, terms));
    crate::exact::lemma_partial_sums(holds, partial, terms, bits as nat);
    lemma_planes_make_up(value, query, code, bits, plane_size, bits as nat);
    assert(terms.take(bits) =~= terms);
    lemma_powers_agree(bits as nat);
    lemma_centered(x, code, bits, plane_size);
    let top = (crate::rq_products::power_of_two(bits as nat) - 1) as usize;
    assert(top as real == (pow2(bits as nat) - 1) as real);
}

/// The sum of a query is the sum of its components.
pub proof fn law_query_sums_add_up<A: Fn(u32, u32) -> u32>(
    add: A,
    value: spec_fn(u32) -> real,
    holds: spec_fn(real) -> bool,
    query: Seq<u32>,
)
    requires
        value(0u32) == 0real,
        adds(add, value, holds),
        sum_holds(holds, values(value, query)),
    ensures
        value(crate::rq_query::summed(add, query, query.len())) == total(values(value, query)),
{
    let n = query.len();
    let terms = values(value, query);
    let partial = Seq::new(n + 1, |k: int| value(crate::rq_query::summed(add, query, k as nat)));
    assert forall|k: int|
        0 <= k < terms.len() && holds(partial[k]) && holds(partial[k] + terms[k]) implies partial[k
        + 1] == partial[k] + #[trigger] terms[k] by {
        assert(holds(terms[k]));
        assert(crate::rq_query::summed(add, query, (k + 1) as nat) == crate::float_ops::result_of(
            add,
            crate::rq_query::summed(add, query, k as nat),
            query[k],
        ));
    }
    assert(grows_by(holds, partial, terms));
    crate::exact::lemma_partial_sums(holds, partial, terms, n);
}

/// The inner product with levels around zero.
proof fn lemma_centered(x: Seq<real>, code: Seq<u8>, bits: int, plane_size: nat)
    requires
        x.len() == 8 * plane_size,
    ensures
        dot(x, centered(code, bits, plane_size)) == dot(
            x,
            levels_of(code, bits, plane_size, bits as nat),
        ) - times((pow2(bits as nat) - 1) as real / 2real, total(x)),
{
    lemma_levels_len(code, bits, plane_size, bits as nat);
    let levels = levels_of(code, bits, plane_size, bits as nat);
    let middle = (pow2(bits as nat) - 1) as real / 2real;
    lemma_moved(x, levels, middle, centered(code, bits, plane_size));
}

/// The inner product with components that are all less by the same number.
proof fn lemma_moved(x: Seq<real>, y: Seq<real>, middle: real, around: Seq<real>)
    requires
        x.len() == y.len(),
        around.len() == y.len(),
        forall|i: int| 0 <= i < y.len() ==> #[trigger] around[i] == y[i] - middle,
    ensures
        dot(x, around) == dot(x, y) - times(middle, total(x)),
{
    let ones = Seq::new(x.len(), |i: int| 1real);
    assert forall|i: int| 0 <= i < around.len() implies #[trigger] around[i] == times(1real, y[i])
        + times(-middle, ones[i]) by {
        crate::exact::lemma_times_small(y[i]);
        crate::exact::lemma_times_small(-middle);
    }
    crate::exact::lemma_dot_linear(around, y, ones, 1real, -middle, x);
    crate::exact::lemma_dot_symmetric(around, x);
    crate::exact::lemma_dot_symmetric(y, x);
    crate::exact::lemma_dot_symmetric(ones, x);
    crate::exact::lemma_times_small(dot(y, x));
    assert(products(x, ones) =~= x) by {
        assert forall|i: int| 0 <= i < x.len() implies products(x, ones)[i] == x[i] by {
            crate::exact::lemma_times_small(x[i]);
        }
    }
    crate::exact::lemma_times_small(middle);
    crate::exact::lemma_times_associates(-1real, middle, total(x));
    crate::exact::lemma_times_small(times(middle, total(x)));
}

/// The product of a query with a first plane is the inner product with its bits
/// as halves around zero.
pub proof fn law_sign_products_are_inner_products<A: Fn(u32, u32) -> u32, G: Fn(RowStep) -> u32>(
    add: A,
    g: G,
    value: spec_fn(u32) -> real,
    holds: spec_fn(real) -> bool,
    context: RQQueryContext,
    code: Seq<u8>,
    plane_size: nat,
    signs: Seq<real>,
)
    requires
        context.rotated_query@.len() == 8 * plane_size,
        value(0u32) == 0real,
        adds(add, value, holds),
        is_exact_row(g, value, holds),
        crate::rq_query::are_subset_sums(
            add,
            context.rotated_query@,
            plane_size as int,
            8,
            256,
            context.byte_subset_sums@,
        ),
        value(context.sum) == total(values(value, context.rotated_query@)),
        plane_holds(
            value,
            holds,
            context.rotated_query@,
            context.byte_subset_sums@,
            code,
            0,
            plane_size,
        ),
        signs.len() == 8 * plane_size,
        forall|i: int|
            0 <= i < signs.len() ==> #[trigger] signs[i] == (if crate::rq::plane_bit(
                code,
                plane_size as int,
                0,
                i,
            ) {
                1real / 2real
            } else {
                -(1real / 2real)
            }),
        holds(value(context.sum)),
        holds(1real),
        holds(1real / 2real),
        holds(times(1real / 2real, value(context.sum))),
        holds(dot(values(value, context.rotated_query@), signs)),
    ensures
        value(
            crate::rq_products::sign_product(
                g,
                context,
                crate::rq_products::first_plane(g, context, code, plane_size as int),
            ),
        ) == dot(values(value, context.rotated_query@), signs),
{
    let query = context.rotated_query@;
    assert(context.rotated_query.len() == 8 * plane_size);
    let x = values(value, query);
    let ones = plane_ones(code, 0, plane_size);
    law_plane_sums_are_inner_products(
        add,
        g,
        value,
        holds,
        query,
        context.byte_subset_sums@,
        code,
        0,
        plane_size,
    );
    assert(0 * plane_size == 0);
    assert forall|i: int| 0 <= i < ones.len() implies #[trigger] signs[i] == ones[i] - 1real / 2real by {
        assert(0 * (plane_size as int) + i / 8 == 0 + i / 8);
    }
    lemma_moved(x, ones, 1real / 2real, signs);
    assert(1usize as real == 1real);
}

/// What a scan of a stored list adds up: the weighted sum of the first plane,
/// and the weighted entries of all bytes of the other planes.
pub open spec fn stored_terms(
    value: spec_fn(u32) -> real,
    entries: Seq<u32>,
    code: Seq<u8>,
    bits: int,
    plane_size: nat,
    coarse: u32,
) -> Seq<real> {
    Seq::new(
        (1 + plane_size * (bits - 1)) as nat,
        |k: int|
            if k == 0 {
                times(plane_weight(bits, 0), value(coarse))
            } else {
                let at = plane_size + k - 1;
                times(
                    plane_weight(bits, at / (plane_size as int)),
                    value(entries[at % (plane_size as int) * 256 + code[at]]),
                )
            },
    )
}

/// The terms of a stored list make up the weighted sums of the planes.
proof fn lemma_stored_terms(
    value: spec_fn(u32) -> real,
    query: Seq<u32>,
    entries: Seq<u32>,
    code: Seq<u8>,
    bits: int,
    plane_size: nat,
    coarse: u32,
)
    requires
        1 <= bits <= 8,
        plane_size > 0,
        1 + plane_size * (bits - 1) <= usize::MAX,
        value(coarse) == dot(values(value, query), plane_ones(code, 0, plane_size)),
        forall|plane: int|
            0 <= plane < bits ==> total(
                #[trigger] plane_entries(value, entries, code, plane * plane_size, plane_size),
            ) == dot(
                values(value, query),
                plane_ones(code, plane * plane_size, plane_size),
            ),
    ensures
        total(stored_terms(value, entries, code, bits, plane_size, coarse)) == total(
            plane_terms(value, query, code, bits, plane_size),
        ),
{
    let size = plane_size as int;
    let terms = stored_terms(value, entries, code, bits, plane_size, coarse);
    let parts = plane_terms(value, query, code, bits, plane_size);
    let offsets = Seq::new(
        (bits + 1) as nat,
        |p: int|
            if p == 0 {
                0usize
            } else {
                (1 + size * (p - 1)) as usize
            },
    );
    assert forall|p: int| 1 <= p <= bits implies 0 <= #[trigger] (size * (p - 1)) <= size * (bits
        - 1) by {
        assert(0 <= size * (p - 1) <= size * (bits - 1)) by (nonlinear_arith)
            requires
                1 <= p <= bits,
                0 < size,
        ;
    }
    assert(size * (1 - 1) == 0);
    assert forall|i: int, j: int| 0 <= i <= j < offsets.len() implies #[trigger] offsets[i]
        <= #[trigger] offsets[j] by {
        if i > 0 {
            assert(0 <= size * (i - 1) <= size * (bits - 1));
            assert(0 <= size * (j - 1) <= size * (bits - 1));
            assert(size * (i - 1) <= size * (j - 1)) by (nonlinear_arith)
                requires
                    i <= j,
                    0 < size,
            ;
        }
    }
    assert(0 <= size * (bits - 1) <= size * (bits - 1));
    assert(offsets.last() == terms.len());
    assert forall|p: int| 0 <= p < bits implies #[trigger] parts[p] == total(
        terms.subrange(offsets[p] as int, offsets[p + 1] as int),
    ) by {
        assert(0 <= size * (p + 1 - 1) <= size * (bits - 1));
        let part = terms.subrange(offsets[p] as int, offsets[p + 1] as int);
        if p == 0 {
            assert(0 * plane_size == 0);
            assert(part =~= seq![terms[0]]);
            assert(part.drop_last() =~= Seq::<real>::empty());
            assert(total(part) == total(Seq::<real>::empty()) + terms[0]);
        } else {
            assert(0 <= size * (p - 1) <= size * (bits - 1));
            let own = plane_entries(value, entries, code, p * plane_size, plane_size);
            let weight = plane_weight(bits, p);
            assert(size * p == size * (p - 1) + size && p * size == size * p) by (nonlinear_arith);
            assert(part.len() == size);
            assert forall|j: int| 0 <= j < part.len() implies #[trigger] part[j] == times(
                weight,
                own[j],
            ) + times(0real, own[j]) by {
                let k = 1 + size * (p - 1) + j;
                let at = size + k - 1;
                assert(at == p * size + j);
                vstd::arithmetic::div_mod::lemma_fundamental_div_mod_converse(at, size, p, j);
                assert(part[j] == terms[k]);
                crate::exact::lemma_times_small(own[j]);
            }
            crate::exact::lemma_total_combines(part, own, own, weight, 0real);
            crate::exact::lemma_times_small(total(own));
        }
    }
    crate::table_values::lemma_chunks_make_up(offsets, terms, parts, bits as nat);
    assert(parts.take(bits) =~= parts);
    assert(terms.take(terms.len() as int) =~= terms);
}

/// The product of a query with a stored code is the inner product with the
/// levels of the code around zero, as that of any code.
pub proof fn law_stored_products_are_inner_products<
    A: Fn(u32, u32) -> u32,
    G: Fn(RowStep) -> u32,
>(
    add: A,
    g: G,
    value: spec_fn(u32) -> real,
    holds: spec_fn(real) -> bool,
    context: RQQueryContext,
    code: Seq<u8>,
    bits: int,
    plane_size: nat,
)
    requires
        1 <= bits <= 8,
        plane_size > 0,
        1 + plane_size * (bits - 1) <= usize::MAX,
        context.rotated_query@.len() == 8 * plane_size,
        value(0u32) == 0real,
        adds(add, value, holds),
        is_exact_row(g, value, holds),
        crate::rq_query::are_subset_sums(
            add,
            context.rotated_query@,
            plane_size as int,
            8,
            256,
            context.byte_subset_sums@,
        ),
        value(context.sum) == total(values(value, context.rotated_query@)),
        forall|plane: int|
            0 <= plane < bits ==> holds(#[trigger] plane_weight(bits, plane)) && plane_holds(
                value,
                holds,
                context.rotated_query@,
                context.byte_subset_sums@,
                code,
                plane * plane_size,
                plane_size,
            ),
        sum_holds(
            holds,
            stored_terms(
                value,
                context.byte_subset_sums@,
                code,
                bits,
                plane_size,
                crate::rq_products::first_plane(g, context, code, plane_size as int),
            ),
        ),
        ({
            let all = (pow2(bits as nat) - 1) as real;
            let part = times(all / 2real, value(context.sum));
            &&& holds(value(context.sum))
            &&& holds(all)
            &&& holds(all / 2real)
            &&& holds(part)
            &&& holds(
                dot(
                    values(value, context.rotated_query@),
                    levels_of(code, bits, plane_size, bits as nat),
                ) - part,
            )
        }),
    ensures
        value(
            crate::rq_products::stored_product(
                g,
                context,
                code,
                bits,
                plane_size as int,
                crate::rq_products::first_plane(g, context, code, plane_size as int),
            ),
        ) == dot(values(value, context.rotated_query@), centered(code, bits, plane_size)),
{
    let query = context.rotated_query@;
    let entries = context.byte_subset_sums@;
    let x = values(value, query);
    let size = plane_size as int;
    let coarse = crate::rq_products::first_plane(g, context, code, size);
    assert(context.rotated_query.len() == 8 * plane_size);
    assert(0 * plane_size == 0);
    assert forall|plane: int| 0 <= plane < bits implies total(
        #[trigger] plane_entries(value, entries, code, plane * plane_size, plane_size),
    ) == dot(x, plane_ones(code, plane * plane_size, plane_size)) by {
        assert(holds(plane_weight(bits, plane)));
        law_plane_sums_are_inner_products(
            add,
            g,
            value,
            holds,
            query,
            entries,
            code,
            plane * plane_size,
            plane_size,
        );
    }
    assert(holds(plane_weight(bits, 0)));
    law_plane_sums_are_inner_products(add, g, value, holds, query, entries, code, 0, plane_size);
    let terms = stored_terms(value, entries, code, bits, plane_size, coarse);
    let all_bytes = (plane_size * (bits - 1)) as nat;
    assert(plane_size * (bits - 1) >= 0) by (nonlinear_arith)
        requires
            bits >= 1,
    ;
    let partial = Seq::new(
        all_bytes + 2,
        |k: int|
            if k == 0 {
                0real
            } else {
                value(
                    crate::rq_products::running_sum(
                        g,
                        entries,
                        code,
                        bits,
                        size,
                        coarse,
                        (k - 1) as nat,
                    ),
                )
            },
    );
    assert forall|k: int|
        0 <= k < terms.len() && holds(partial[k]) && holds(partial[k] + terms[k]) implies partial[k
        + 1] == partial[k] + #[trigger] terms[k] by {
        assert(holds(terms[k]));
        if k == 0 {
            lemma_powers_agree((bits - 1) as nat);
            let weight = crate::rq_products::power_of_two((bits - 1) as nat) as usize;
            assert(weight as real == plane_weight(bits, 0));
            assert(crate::rq_products::running_sum(g, entries, code, bits, size, coarse, 0)
                == step_result(g, RowStep::Scale { weight, value: coarse }));
        } else {
            let at = size + k - 1;
            let plane = at / size;
            let byte = at % size;
            assert(1 <= plane < bits && 0 <= byte < size && at == plane * size + byte)
                by (nonlinear_arith)
                requires
                    plane == at / size,
                    byte == at % size,
                    size <= at < size + size * (bits - 1),
                    0 < size,
            ;
            assert(holds(plane_weight(bits, plane)));
            lemma_powers_agree((bits - 1 - plane) as nat);
            let weight = crate::rq_products::power_of_two((bits - 1 - plane) as nat) as usize;
            assert(weight as real == plane_weight(bits, plane));
            let own = plane_entries(value, entries, code, plane * plane_size, plane_size);
            assert(own[byte] == value(entries[byte * 256 + code[at]]));
            assert(plane_holds(value, holds, query, entries, code, plane * plane_size, plane_size));
            assert(holds(own[byte]));
            assert(crate::rq_products::running_sum(g, entries, code, bits, size, coarse, k as nat)
                == step_result(
                g,
                RowStep::Weigh {
                    total: crate::rq_products::running_sum(
                        g,
                        entries,
                        code,
                        bits,
                        size,
                        coarse,
                        (k - 1) as nat,
                    ),
                    weight,
                    value: entries[byte * 256 + code[at]],
                },
            ));
        }
    }
    assert(grows_by(holds, partial, terms));
    crate::exact::lemma_partial_sums(holds, partial, terms, terms.len());
    lemma_stored_terms(value, query, entries, code, bits, plane_size, coarse);
    lemma_planes_make_up(value, query, code, bits, plane_size, bits as nat);
    let parts = plane_terms(value, query, code, bits, plane_size);
    assert(parts.take(bits) =~= parts);
    lemma_powers_agree(bits as nat);
    lemma_centered(x, code, bits, plane_size);
    let top = (crate::rq_products::power_of_two(bits as nat) - 1) as usize;
    assert(top as real == (pow2(bits as nat) - 1) as real);
}

/// The lowest `bits` bits of a byte.
spec fn low_bits(byte: u8, bits: u8) -> u8 {
    if bits >= 8 {
        byte
    } else {
        byte & ((1u8 << bits) - 1) as u8
    }
}

proof fn lemma_low_bits(byte: u8, bits: u8)
    requires
        bits < 8,
    ensures
        low_bits(byte, (bits + 1) as u8) == low_bits(byte, bits) + (if crate::bitops::byte_bit(
            byte,
            bits as int,
        ) {
            pow2(bits as nat)
        } else {
            0
        }),
        low_bits(byte, 0) == 0,
{
    vstd::arithmetic::power2::lemma2_to64();
    assert(byte & ((1u8 << 0u8) - 1) as u8 == 0) by (bit_vector);
    if bits == 0 {
        assert(byte & ((1u8 << 1u8) - 1) as u8 == (if (byte >> 0u8) & 1u8 == 1u8 { 1u8 } else { 0u8 }))
            by (bit_vector);
    } else if bits == 1 {
        assert(byte & ((1u8 << 2u8) - 1) as u8 == (byte & ((1u8 << 1u8) - 1) as u8) + (if (byte >> 1u8) & 1u8 == 1u8 { 2u8 } else { 0u8 }))
            by (bit_vector);
    } else if bits == 2 {
        assert(byte & ((1u8 << 3u8) - 1) as u8 == (byte & ((1u8 << 2u8) - 1) as u8) + (if (byte >> 2u8) & 1u8 == 1u8 { 4u8 } else { 0u8 }))
            by (bit_vector);
    } else if bits == 3 {
        assert(byte & ((1u8 << 4u8) - 1) as u8 == (byte & ((1u8 << 3u8) - 1) as u8) + (if (byte >> 3u8) & 1u8 == 1u8 { 8u8 } else { 0u8 }))
            by (bit_vector);
    } else if bits == 4 {
        assert(byte & ((1u8 << 5u8) - 1) as u8 == (byte & ((1u8 << 4u8) - 1) as u8) + (if (byte >> 4u8) & 1u8 == 1u8 { 16u8 } else { 0u8 }))
            by (bit_vector);
    } else if bits == 5 {
        assert(byte & ((1u8 << 6u8) - 1) as u8 == (byte & ((1u8 << 5u8) - 1) as u8) + (if (byte >> 5u8) & 1u8 == 1u8 { 32u8 } else { 0u8 }))
            by (bit_vector);
    } else if bits == 6 {
        assert(byte & ((1u8 << 7u8) - 1) as u8 == (byte & ((1u8 << 6u8) - 1) as u8) + (if (byte >> 6u8) & 1u8 == 1u8 { 64u8 } else { 0u8 }))
            by (bit_vector);
    } else {
        assert(byte == (byte & ((1u8 << 7u8) - 1) as u8) + (if (byte >> 7u8) & 1u8 == 1u8 { 128u8 } else { 0u8 }))
            by (bit_vector);
    }
}

/// The planes of a code hold the levels that it stores: the digits that they
/// give to a component make up its level.
proof fn lemma_levels_upto(
    code: Seq<u8>,
    levels: Seq<u8>,
    bits: int,
    plane_size: nat,
    planes: nat,
    i: int,
)
    requires
        1 <= bits <= 8,
        planes <= bits,
        levels.len() == 8 * plane_size,
        0 <= i < levels.len(),
        crate::rq::stores_planes(code, levels, bits, plane_size as int),
    ensures
        levels_of(code, bits, plane_size, planes)[i] == (low_bits(levels[i], bits as u8)
            - low_bits(levels[i], (bits - planes) as u8)) as real,
    decreases planes,
{
    if planes > 0 {
        let plane = planes - 1;
        lemma_levels_upto(code, levels, bits, plane_size, plane as nat, i);
        lemma_levels_len(code, bits, plane_size, plane as nat);
        let at = (bits - planes) as u8;
        lemma_low_bits(levels[i], at);
        lemma_powers_agree(at as nat);
        assert(crate::rq::plane_bit(code, plane_size as int, plane, i) == crate::bitops::byte_bit(
            levels[i],
            bits - 1 - plane,
        ));
        let weight = plane_weight(bits, plane);
        crate::exact::lemma_times_small(weight);
        let ones = plane_ones(code, plane * plane_size, plane_size);
        assert(levels_of(code, bits, plane_size, planes)[i] == levels_of(
            code,
            bits,
            plane_size,
            plane as nat,
        )[i] + times(weight, ones[i]));
    }
}

/// The numbers that the planes of a code hold are the levels that it stores.
pub proof fn law_planes_hold_the_levels(
    code: Seq<u8>,
    levels: Seq<u8>,
    bits: int,
    plane_size: nat,
    i: int,
)
    requires
        1 <= bits <= 8,
        levels.len() == 8 * plane_size,
        0 <= i < levels.len(),
        levels[i] < pow2(bits as nat),
        crate::rq::stores_planes(code, levels, bits, plane_size as int),
    ensures
        levels_of(code, bits, plane_size, bits as nat)[i] == levels[i] as real,
{
    lemma_levels_upto(code, levels, bits, plane_size, bits as nat, i);
    lemma_low_bits(levels[i], 0);
    vstd::arithmetic::power2::lemma2_to64();
    let byte = levels[i];
    if bits < 8 {
        assert(byte < 2 ==> byte & ((1u8 << 1u8) - 1) as u8 == byte) by (bit_vector);
        assert(byte < 4 ==> byte & ((1u8 << 2u8) - 1) as u8 == byte) by (bit_vector);
        assert(byte < 8 ==> byte & ((1u8 << 3u8) - 1) as u8 == byte) by (bit_vector);
        assert(byte < 16 ==> byte & ((1u8 << 4u8) - 1) as u8 == byte) by (bit_vector);
        assert(byte < 32 ==> byte & ((1u8 << 5u8) - 1) as u8 == byte) by (bit_vector);
        assert(byte < 64 ==> byte & ((1u8 << 6u8) - 1) as u8 == byte) by (bit_vector);
        assert(byte < 128 ==> byte & ((1u8 << 7u8) - 1) as u8 == byte) by (bit_vector);
    }
}

} // verus!
