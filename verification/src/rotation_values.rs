//! What a rotation keeps: inner products, and with them lengths and distances.
use crate::exact::{all_hold, dot, products, stretched, times, total, values};
use crate::rq::RQRotation;
use vstd::prelude::*;

verus! {

proof fn lemma_cross_terms(a: real, b: real, c: real, e: real)
    ensures
        times(a + b, c + e) + times(a - b, c - e) == times(2real, times(a, c)) + times(
            2real,
            times(b, e),
        ),
{
    reveal(times);
    assert((a + b) * (c + e) + (a - b) * (c - e) == 2real * (a * c) + 2real * (b * e))
        by (nonlinear_arith);
}

/// Components whose places differ by `width`, replaced by their sum and their
/// difference.
pub open spec fn cross(x: Seq<real>, width: int) -> Seq<real> {
    Seq::new(
        x.len(),
        |i: int|
            if i / width % 2 == 0 {
                x[i] + x[i + width]
            } else {
                x[i - width] - x[i]
            },
    )
}

/// A block of two times `width` components keeps its inner product, doubled.
proof fn lemma_cross_block(x: Seq<real>, y: Seq<real>, width: int, b: int)
    requires
        x.len() == y.len(),
        width > 0,
        0 <= b,
        (b + 1) * (2 * width) <= x.len(),
    ensures
        total(
            products(cross(x, width), cross(y, width)).subrange(
                b * (2 * width),
                (b + 1) * (2 * width),
            ),
        ) == times(
            2real,
            total(products(x, y).subrange(b * (2 * width), (b + 1) * (2 * width))),
        ),
{
    let start = b * (2 * width);
    assert((b + 1) * (2 * width) == start + 2 * width && 0 <= start && start == (2 * b) * width
        && start + width == (2 * b + 1) * width) by (nonlinear_arith)
        requires
            start == b * (2 * width),
            0 <= b,
            0 < width,
    ;
    let p = products(cross(x, width), cross(y, width));
    let q = products(x, y);
    let (p1, p2) = (p.subrange(start, start + width), p.subrange(start + width, start + 2 * width));
    let (q1, q2) = (q.subrange(start, start + width), q.subrange(start + width, start + 2 * width));
    crate::exact::lemma_total_parts(p1, p2);
    crate::exact::lemma_total_parts(q1, q2);
    assert(p1 + p2 =~= p.subrange(start, start + 2 * width));
    assert(q1 + q2 =~= q.subrange(start, start + 2 * width));
    let both = Seq::new(width as nat, |k: int| p1[k] + p2[k]);
    assert forall|k: int| 0 <= k < both.len() implies #[trigger] both[k] == times(1real, p1[k])
        + times(1real, p2[k]) by {
        crate::exact::lemma_times_small(p1[k]);
        crate::exact::lemma_times_small(p2[k]);
    }
    crate::exact::lemma_total_combines(both, p1, p2, 1real, 1real);
    assert forall|k: int| 0 <= k < both.len() implies #[trigger] both[k] == times(2real, q1[k])
        + times(2real, q2[k]) by {
        let i = start + k;
        let j = start + width + k;
        vstd::arithmetic::div_mod::lemma_fundamental_div_mod_converse(i, width, 2 * b, k);
        vstd::arithmetic::div_mod::lemma_fundamental_div_mod_converse(j, width, 2 * b + 1, k);
        assert((2 * b) % 2 == 0 && (2 * b + 1) % 2 == 1);
        assert(p1[k] == times(x[i] + x[j], y[i] + y[j]));
        assert(p2[k] == times(x[i] - x[j], y[i] - y[j]));
        assert(q1[k] == times(x[i], y[i]) && q2[k] == times(x[j], y[j]));
        lemma_cross_terms(x[i], x[j], y[i], y[j]);
    }
    crate::exact::lemma_total_combines(both, q1, q2, 2real, 2real);
    crate::exact::lemma_times_small(total(p1));
    crate::exact::lemma_times_small(total(p2));
    crate::exact::lemma_times_distributes(2real, total(q1), total(q2));
}

/// Sums and differences of pairs keep the inner product, doubled.
pub proof fn lemma_cross_doubles(x: Seq<real>, y: Seq<real>, width: int, blocks: nat)
    requires
        x.len() == y.len(),
        width > 0,
        blocks > 0,
        x.len() == blocks * (2 * width),
        x.len() <= usize::MAX,
    ensures
        dot(cross(x, width), cross(y, width)) == times(2real, dot(x, y)),
{
    let step = 2 * width;
    let p = products(cross(x, width), cross(y, width));
    let q = products(x, y);
    let offsets = Seq::new(blocks + 1, |b: int| (b * step) as usize);
    assert forall|b: int| 0 <= b <= blocks implies 0 <= #[trigger] (b * step) <= x.len() by {
        assert(0 <= b * step <= blocks * step) by (nonlinear_arith)
            requires
                0 <= b <= blocks,
                0 < step,
        ;
    }
    assert(0 * step == 0);
    assert forall|i: int, j: int| 0 <= i <= j < offsets.len() implies #[trigger] offsets[i]
        <= #[trigger] offsets[j] by {
        assert(0 <= i * step <= x.len() && 0 <= j * step <= x.len());
        assert(i * step <= j * step) by (nonlinear_arith)
            requires
                i <= j,
                0 < step,
        ;
    }
    let ps = Seq::new(blocks, |b: int| total(p.subrange(b * step, (b + 1) * step)));
    let qs = Seq::new(blocks, |b: int| total(q.subrange(b * step, (b + 1) * step)));
    assert forall|b: int| 0 <= b < blocks implies #[trigger] ps[b] == times(2real, qs[b]) + times(
        0real,
        qs[b],
    ) by {
        assert(0 <= (b + 1) * step <= x.len());
        lemma_cross_block(x, y, width, b);
        crate::exact::lemma_times_small(qs[b]);
    }
    assert(blocks * step == x.len());
    assert(offsets.last() == x.len());
    assert forall|b: int| 0 <= b < blocks implies #[trigger] ps[b] == total(
        p.subrange(offsets[b] as int, offsets[b + 1] as int),
    ) by {
        assert(0 <= b * step <= x.len() && 0 <= (b + 1) * step <= x.len());
    }
    assert forall|b: int| 0 <= b < blocks implies #[trigger] qs[b] == total(
        q.subrange(offsets[b] as int, offsets[b + 1] as int),
    ) by {
        assert(0 <= b * step <= x.len() && 0 <= (b + 1) * step <= x.len());
    }
    crate::table_values::lemma_chunks_make_up(offsets, p, ps, blocks);
    crate::table_values::lemma_chunks_make_up(offsets, q, qs, blocks);
    assert(ps.take(blocks as int) =~= ps && qs.take(blocks as int) =~= qs);
    assert(p.take(p.len() as int) =~= p && q.take(q.len() as int) =~= q);
    crate::exact::lemma_total_combines(ps, qs, qs, 2real, 0real);
    crate::exact::lemma_times_small(total(qs));
}

/// The operations add, subtract and divide by eight, where nothing has to be
/// rounded, and the sign bit changes the sign.
pub open spec fn is_exact_rotation<
    A: Fn(u32, u32) -> u32,
    S: Fn(u32, u32) -> u32,
    E: Fn(u32) -> u32,
>(
    add: A,
    subtract: S,
    eighth: E,
    value: spec_fn(u32) -> real,
    holds: spec_fn(real) -> bool,
) -> bool {
    &&& crate::table_values::adds(add, value, holds)
    &&& forall|a: u32, b: u32|
        holds(value(a)) && holds(value(b)) && holds(value(a) - value(b)) ==> value(
            #[trigger] crate::float_ops::result_of(subtract, a, b),
        ) == value(a) - value(b)
    &&& forall|a: u32|
        holds(value(a)) && holds(value(a) / 8real) ==> value(
            #[trigger] crate::float_ops::image_of(eighth, a),
        ) == value(a) / 8real
    &&& forall|a: u32|
        holds(value(a)) ==> value(#[trigger] crate::rq::negated(a)) == -value(a)
}

/// A block after passes of doubling width.
pub open spec fn spread(x: Seq<real>) -> Seq<real> {
    cross(cross(cross(cross(cross(cross(x, 1), 2), 4), 8), 16), 32)
}

pub open spec fn eighths(x: Seq<real>) -> Seq<real> {
    Seq::new(x.len(), |i: int| x[i] / 8real)
}

/// A block can be transformed without rounding.
pub open spec fn spread_holds(holds: spec_fn(real) -> bool, x: Seq<real>) -> bool {
    &&& all_hold(holds, x)
    &&& all_hold(holds, cross(x, 1))
    &&& all_hold(holds, cross(cross(x, 1), 2))
    &&& all_hold(holds, cross(cross(cross(x, 1), 2), 4))
    &&& all_hold(holds, cross(cross(cross(cross(x, 1), 2), 4), 8))
    &&& all_hold(holds, cross(cross(cross(cross(cross(x, 1), 2), 4), 8), 16))
    &&& all_hold(holds, spread(x))
    &&& all_hold(holds, eighths(spread(x)))
}

/// One pass of the transform.
proof fn lemma_crossed<A: Fn(u32, u32) -> u32, S: Fn(u32, u32) -> u32, E: Fn(u32) -> u32>(
    add: A,
    subtract: S,
    eighth: E,
    value: spec_fn(u32) -> real,
    holds: spec_fn(real) -> bool,
    block: Seq<u32>,
    width: int,
)
    requires
        is_exact_rotation(add, subtract, eighth, value, holds),
        block.len() == 64,
        width == 1 || width == 2 || width == 4 || width == 8 || width == 16 || width == 32,
        all_hold(holds, values(value, block)),
        all_hold(holds, cross(values(value, block), width)),
    ensures
        values(value, crate::rotate::crossed(add, subtract, block, width)) == cross(
            values(value, block),
            width,
        ),
{
    let x = values(value, block);
    let c = cross(x, width);
    let found = values(value, crate::rotate::crossed(add, subtract, block, width));
    assert forall|i: int| 0 <= i < 64 implies found[i] == c[i] by {
        assert(holds(c[i]) && holds(x[i]));
        if i / width % 2 == 0 {
            assert(i + width < 64) by {
                if width == 1 {
                } else if width == 2 {
                } else if width == 4 {
                } else if width == 8 {
                } else if width == 16 {
                }
            }
            assert(holds(x[i + width]));
        } else {
            assert(0 <= i - width) by {
                if width == 1 {
                } else if width == 2 {
                } else if width == 4 {
                } else if width == 8 {
                } else if width == 16 {
                }
            }
            assert(holds(x[i - width]));
        }
    }
    assert(found =~= c);
}

/// The transform of a block is its spread, divided by eight.
proof fn lemma_transformed<A: Fn(u32, u32) -> u32, S: Fn(u32, u32) -> u32, E: Fn(u32) -> u32>(
    add: A,
    subtract: S,
    eighth: E,
    value: spec_fn(u32) -> real,
    holds: spec_fn(real) -> bool,
    block: Seq<u32>,
)
    requires
        is_exact_rotation(add, subtract, eighth, value, holds),
        block.len() == 64,
        spread_holds(holds, values(value, block)),
    ensures
        values(value, crate::rotate::transformed(add, subtract, eighth, block)) == eighths(
            spread(values(value, block)),
        ),
{
    let one = crate::rotate::crossed(add, subtract, block, 1);
    let two = crate::rotate::crossed(add, subtract, one, 2);
    let four = crate::rotate::crossed(add, subtract, two, 4);
    let eight = crate::rotate::crossed(add, subtract, four, 8);
    let sixteen = crate::rotate::crossed(add, subtract, eight, 16);
    let all = crate::rotate::crossed(add, subtract, sixteen, 32);
    lemma_crossed(add, subtract, eighth, value, holds, block, 1);
    lemma_crossed(add, subtract, eighth, value, holds, one, 2);
    lemma_crossed(add, subtract, eighth, value, holds, two, 4);
    lemma_crossed(add, subtract, eighth, value, holds, four, 8);
    lemma_crossed(add, subtract, eighth, value, holds, eight, 16);
    lemma_crossed(add, subtract, eighth, value, holds, sixteen, 32);
    let end = eighths(spread(values(value, block)));
    let found = values(value, crate::rotate::transformed(add, subtract, eighth, block));
    assert forall|i: int| 0 <= i < 64 implies found[i] == end[i] by {
        assert(holds(spread(values(value, block))[i]) && holds(end[i]));
        assert(values(value, all)[i] == spread(values(value, block))[i]);
    }
    assert(found =~= end);
}

/// Six doublings and a division by eight keep an inner product.
proof fn lemma_spread_keeps(x: Seq<real>, y: Seq<real>)
    requires
        x.len() == 64,
        y.len() == 64,
    ensures
        dot(eighths(spread(x)), eighths(spread(y))) == dot(x, y),
{
    let (x1, y1) = (cross(x, 1), cross(y, 1));
    let (x2, y2) = (cross(x1, 2), cross(y1, 2));
    let (x4, y4) = (cross(x2, 4), cross(y2, 4));
    let (x8, y8) = (cross(x4, 8), cross(y4, 8));
    let (x16, y16) = (cross(x8, 16), cross(y8, 16));
    let (x32, y32) = (cross(x16, 32), cross(y16, 32));
    lemma_cross_doubles(x, y, 1, 32);
    lemma_cross_doubles(x1, y1, 2, 16);
    lemma_cross_doubles(x2, y2, 4, 8);
    lemma_cross_doubles(x4, y4, 8, 4);
    lemma_cross_doubles(x8, y8, 16, 2);
    lemma_cross_doubles(x16, y16, 32, 1);
    crate::exact::lemma_times_small(dot(x, y));
    crate::exact::lemma_times_small(dot(x1, y1));
    crate::exact::lemma_times_small(dot(x2, y2));
    crate::exact::lemma_times_small(dot(x4, y4));
    crate::exact::lemma_times_small(dot(x8, y8));
    crate::exact::lemma_times_small(dot(x16, y16));
    let part = 1real / 8real;
    assert(eighths(x32) =~= stretched(part, x32)) by {
        assert forall|i: int| 0 <= i < x32.len() implies eighths(x32)[i] == stretched(part, x32)[i] by {
            lemma_eighth(x32[i]);
        }
    }
    assert(eighths(y32) =~= stretched(part, y32)) by {
        assert forall|i: int| 0 <= i < y32.len() implies eighths(y32)[i] == stretched(part, y32)[i] by {
            lemma_eighth(y32[i]);
        }
    }
    crate::exact::lemma_dot_of_stretched(part, x32, stretched(part, y32));
    crate::exact::lemma_dot_of_stretched(part, y32, x32);
    lemma_eighth(dot(x32, y32));
    lemma_eighth(dot(x32, y32) / 8real);
}

proof fn lemma_eighth(a: real)
    ensures
        times(1real / 8real, a) == a / 8real,
{
    reveal(times);
    assert((1real / 8real) * a == a / 8real) by (nonlinear_arith);
}

/// The transform of a block keeps inner products: it is a rotation.
pub proof fn law_transforming_keeps_products<
    A: Fn(u32, u32) -> u32,
    S: Fn(u32, u32) -> u32,
    E: Fn(u32) -> u32,
>(
    add: A,
    subtract: S,
    eighth: E,
    value: spec_fn(u32) -> real,
    holds: spec_fn(real) -> bool,
    a: Seq<u32>,
    b: Seq<u32>,
)
    requires
        is_exact_rotation(add, subtract, eighth, value, holds),
        a.len() == 64,
        b.len() == 64,
        spread_holds(holds, values(value, a)),
        spread_holds(holds, values(value, b)),
    ensures
        dot(
            values(value, crate::rotate::transformed(add, subtract, eighth, a)),
            values(value, crate::rotate::transformed(add, subtract, eighth, b)),
        ) == dot(values(value, a), values(value, b)),
{
    lemma_transformed(add, subtract, eighth, value, holds, a);
    lemma_transformed(add, subtract, eighth, value, holds, b);
    lemma_spread_keeps(values(value, a), values(value, b));
}

/// A sum does not depend on where its terms stand.
proof fn lemma_permuted_total(s: Seq<real>, t: Seq<real>, place: Seq<int>)
    requires
        s.len() == t.len(),
        s.len() == place.len(),
        forall|i: int| 0 <= i < place.len() ==> 0 <= #[trigger] place[i] < t.len(),
        forall|i: int, j: int|
            0 <= i < place.len() && 0 <= j < place.len() && i != j ==> #[trigger] place[i]
                != #[trigger] place[j],
        forall|i: int| 0 <= i < place.len() ==> t[#[trigger] place[i]] == s[i],
    ensures
        total(t) == total(s),
    decreases s.len(),
{
    if s.len() > 0 {
        let n = s.len() - 1;
        let p = place[n];
        let (front, back) = (t.take(p), t.subrange(p + 1, t.len() as int));
        let one = seq![t[p]];
        let rest = front + back;
        let moved = Seq::new(
            n as nat,
            |i: int|
                if place[i] > p {
                    place[i] - 1
                } else {
                    place[i]
                },
        );
        assert(t =~= front + one + back);
        crate::exact::lemma_total_parts(front + one, back);
        crate::exact::lemma_total_parts(front, one);
        crate::exact::lemma_total_parts(front, back);
        assert(one.drop_last() =~= Seq::<real>::empty());
        assert(total(one) == total(Seq::<real>::empty()) + t[p]);
        assert forall|i: int| 0 <= i < moved.len() implies 0 <= #[trigger] moved[i] < rest.len()
            && rest[moved[i]] == s.drop_last()[i] by {
            assert(place[i] != place[n]);
            assert(t[place[i]] == s[i]);
        }
        assert forall|i: int, j: int|
            0 <= i < moved.len() && 0 <= j < moved.len() && i != j implies #[trigger] moved[i]
            != #[trigger] moved[j] by {
            assert(place[i] != place[j] && place[i] != place[n] && place[j] != place[n]);
        }
        lemma_permuted_total(s.drop_last(), rest, moved);
        assert(t[place[n]] == s[n]);
    } else {
        assert(s =~= t);
    }
}

/// A stage of a rotation can be computed without rounding.
pub open spec fn stage_holds(
    value: spec_fn(u32) -> real,
    holds: spec_fn(real) -> bool,
    signs: Seq<u8>,
    stage: Seq<u32>,
) -> bool {
    &&& all_hold(holds, values(value, stage))
    &&& forall|b: int|
        0 <= b < stage.len() / 64 ==> spread_holds(
            holds,
            values(
                value,
                #[trigger] crate::rq::sign_flipped(signs, stage).subrange(64 * b, 64 * b + 64),
            ),
        )
}

/// Transforming all blocks keeps inner products.
proof fn lemma_blocks_keep<A: Fn(u32, u32) -> u32, S: Fn(u32, u32) -> u32, E: Fn(u32) -> u32>(
    add: A,
    subtract: S,
    eighth: E,
    value: spec_fn(u32) -> real,
    holds: spec_fn(real) -> bool,
    a: Seq<u32>,
    b: Seq<u32>,
)
    requires
        is_exact_rotation(add, subtract, eighth, value, holds),
        a.len() == b.len(),
        a.len() % 64 == 0,
        a.len() <= usize::MAX,
        forall|k: int|
            0 <= k < a.len() / 64 ==> spread_holds(
                holds,
                values(value, #[trigger] a.subrange(64 * k, 64 * k + 64)),
            ),
        forall|k: int|
            0 <= k < b.len() / 64 ==> spread_holds(
                holds,
                values(value, #[trigger] b.subrange(64 * k, 64 * k + 64)),
            ),
    ensures
        dot(
            values(value, crate::rotate::blocks_transformed(add, subtract, eighth, a)),
            values(value, crate::rotate::blocks_transformed(add, subtract, eighth, b)),
        ) == dot(values(value, a), values(value, b)),
{
    let count = (a.len() / 64) as nat;
    let fa = crate::rotate::blocks_transformed(add, subtract, eighth, a);
    let fb = crate::rotate::blocks_transformed(add, subtract, eighth, b);
    let p = products(values(value, fa), values(value, fb));
    let q = products(values(value, a), values(value, b));
    let offsets = Seq::new(count + 1, |k: int| (64 * k) as usize);
    let parts = Seq::new(count, |k: int| total(q.subrange(64 * k, 64 * k + 64)));
    assert forall|k: int| 0 <= k < count implies #[trigger] parts[k] == total(
        p.subrange(offsets[k] as int, offsets[k + 1] as int),
    ) && parts[k] == total(q.subrange(offsets[k] as int, offsets[k + 1] as int)) by {
        let (ak, bk) = (a.subrange(64 * k, 64 * k + 64), b.subrange(64 * k, 64 * k + 64));
        law_transforming_keeps_products(add, subtract, eighth, value, holds, ak, bk);
        let ta = crate::rotate::transformed(add, subtract, eighth, ak);
        let tb = crate::rotate::transformed(add, subtract, eighth, bk);
        assert(products(values(value, ak), values(value, bk)) =~= q.subrange(64 * k, 64 * k + 64));
        assert(products(values(value, ta), values(value, tb)) =~= p.subrange(64 * k, 64 * k + 64))
            by {
            assert forall|i: int| 0 <= i < 64 implies fa[64 * k + i] == ta[i] && fb[64 * k + i]
                == tb[i] by {
                assert((64 * k + i) / 64 == k && (64 * k + i) % 64 == i);
                assert((64 * k + i) / 64 * 64 == 64 * k);
            }
        }
    }
    if count > 0 {
        crate::table_values::lemma_chunks_make_up(offsets, p, parts, count);
        crate::table_values::lemma_chunks_make_up(offsets, q, parts, count);
    } else {
        assert(p =~= q);
    }
    assert(p.take(p.len() as int) =~= p && q.take(q.len() as int) =~= q);
}

/// Changing the signs of the same components of two vectors keeps their inner
/// product.
proof fn lemma_flipping_keeps(
    value: spec_fn(u32) -> real,
    holds: spec_fn(real) -> bool,
    signs: Seq<u8>,
    a: Seq<u32>,
    b: Seq<u32>,
)
    requires
        forall|x: u32| holds(value(x)) ==> value(#[trigger] crate::rq::negated(x)) == -value(x),
        a.len() == b.len(),
        all_hold(holds, values(value, a)),
        all_hold(holds, values(value, b)),
    ensures
        dot(
            values(value, crate::rq::sign_flipped(signs, a)),
            values(value, crate::rq::sign_flipped(signs, b)),
        ) == dot(values(value, a), values(value, b)),
{
    let (x, y) = (values(value, a), values(value, b));
    let fx = values(value, crate::rq::sign_flipped(signs, a));
    let fy = values(value, crate::rq::sign_flipped(signs, b));
    assert forall|i: int| 0 <= i < x.len() implies products(fx, fy)[i] == products(x, y)[i] by {
        assert(holds(x[i]) && holds(y[i]));
        crate::exact::lemma_times_small(x[i]);
        crate::exact::lemma_times_small(y[i]);
        crate::exact::lemma_times_associates(-1real, x[i], -y[i]);
        crate::exact::lemma_times_associates(x[i], y[i], -1real);
        crate::exact::lemma_times_small(times(x[i], -y[i]));
        crate::exact::lemma_times_small(times(x[i], y[i]));
    }
    assert(products(fx, fy) =~= products(x, y));
}

/// A rotation keeps inner products, round by round: those of the rotated vectors
/// are those of the vectors. With two times the same vector, it keeps lengths.
pub proof fn law_rotating_keeps_products<
    A: Fn(u32, u32) -> u32,
    S: Fn(u32, u32) -> u32,
    E: Fn(u32) -> u32,
>(
    rotation: RQRotation,
    add: A,
    subtract: S,
    eighth: E,
    value: spec_fn(u32) -> real,
    holds: spec_fn(real) -> bool,
    xs: Seq<Seq<u32>>,
    ys: Seq<Seq<u32>>,
    rounds: nat,
)
    requires
        rotation.well_formed(),
        rounds <= rotation.spec_rounds(),
        is_exact_rotation(add, subtract, eighth, value, holds),
        crate::rotate::is_rotation(rotation, add, subtract, eighth, xs),
        crate::rotate::is_rotation(rotation, add, subtract, eighth, ys),
        xs.len() == rotation.spec_rounds() + 1,
        ys.len() == rotation.spec_rounds() + 1,
        forall|r: int|
            0 <= r < rotation.spec_rounds() ==> stage_holds(
                value,
                holds,
                rotation.signs(r),
                #[trigger] xs[r],
            ),
        forall|r: int|
            0 <= r < rotation.spec_rounds() ==> stage_holds(
                value,
                holds,
                rotation.signs(r),
                #[trigger] ys[r],
            ),
    ensures
        dot(values(value, xs[rounds as int]), values(value, ys[rounds as int])) == dot(
            values(value, xs[0]),
            values(value, ys[0]),
        ),
    decreases rounds,
{
    if rounds > 0 {
        let r = rounds - 1;
        law_rotating_keeps_products(
            rotation,
            add,
            subtract,
            eighth,
            value,
            holds,
            xs,
            ys,
            r as nat,
        );
        rotation.lemma_round_is_permutation(r);
        rotation.lemma_padded_is_whole();
        let order = rotation.permutation(r);
        assert(stage_holds(value, holds, rotation.signs(r), xs[r]));
        assert(stage_holds(value, holds, rotation.signs(r), ys[r]));
        assert(xs[r].len() == rotation.spec_padded() && ys[r].len() == rotation.spec_padded());
        assert(xs[r + 1].len() == rotation.spec_padded() && ys[r + 1].len()
            == rotation.spec_padded());
        let fx = crate::rq::sign_flipped(rotation.signs(r), xs[r]);
        let fy = crate::rq::sign_flipped(rotation.signs(r), ys[r]);
        lemma_flipping_keeps(value, holds, rotation.signs(r), xs[r], ys[r]);
        lemma_blocks_keep(add, subtract, eighth, value, holds, fx, fy);
        let bx = crate::rotate::blocks_transformed(add, subtract, eighth, fx);
        let by = crate::rotate::blocks_transformed(add, subtract, eighth, fy);
        let s = products(values(value, bx), values(value, by));
        let t = products(values(value, xs[r + 1]), values(value, ys[r + 1]));
        let place = Seq::new(order.len(), |i: int| order[i] as int);
        assert forall|i: int| 0 <= i < place.len() implies t[#[trigger] place[i]] == s[i] by {
            assert(xs[r + 1][rotation.permutation(r)[i] as int] == bx[i]);
            assert(ys[r + 1][rotation.permutation(r)[i] as int] == by[i]);
        }
        lemma_permuted_total(s, t, place);
    }
}

/// A component of a vector that a learned rotation is applied to is the inner
/// product of the vector with a row of the rotation.
pub proof fn law_applied_components_are_inner_products<F: Fn(u32, u32, u32) -> u32>(
    f: F,
    value: spec_fn(u32) -> real,
    holds: spec_fn(real) -> bool,
    rotation: Seq<u32>,
    d: int,
    x: Seq<u32>,
    start: int,
    i: int,
)
    requires
        0 <= i < d,
        rotation.len() == d * d,
        0 <= start && start + d <= x.len(),
        value(0u32) == 0real,
        crate::table_values::adds_products(f, value, value, holds),
        crate::exact::dot_holds(
            holds,
            values(value, rotation.subrange(i * d, i * d + d)),
            values(value, x.subrange(start, start + d)),
        ),
    ensures
        value(crate::opq::rotated_component(f, rotation, d, x, start, i)) == dot(
            values(value, rotation.subrange(i * d, i * d + d)),
            values(value, x.subrange(start, start + d)),
        ),
{
    assert(0 <= i * d && i * d + d <= d * d) by (nonlinear_arith)
        requires
            0 <= i < d,
    ;
    crate::table_values::law_steps_make_inner_products(
        f,
        0u32,
        value,
        value,
        holds,
        rotation,
        i * d,
        x,
        start,
        d as nat,
    );
}

/// A column of a square matrix.
pub open spec fn column(matrix: Seq<u32>, d: int, i: int) -> Seq<u32> {
    Seq::new(d as nat, |j: int| matrix[j * d + i])
}

/// Undoing a learned rotation takes inner products with its columns.
pub proof fn law_reversed_components_are_inner_products<F: Fn(u32, u32, u32) -> u32>(
    f: F,
    value: spec_fn(u32) -> real,
    holds: spec_fn(real) -> bool,
    rotation: Seq<u32>,
    d: int,
    y: Seq<u32>,
    i: int,
)
    requires
        0 <= i < d,
        d <= y.len(),
        value(0u32) == 0real,
        crate::table_values::adds_products(f, value, value, holds),
        crate::exact::dot_holds(
            holds,
            values(value, column(rotation, d, i)),
            values(value, y.take(d)),
        ),
    ensures
        value(crate::opq::column_steps(f, rotation, d, y, i, d as nat)) == dot(
            values(value, column(rotation, d, i)),
            values(value, y.take(d)),
        ),
{
    let a = values(value, column(rotation, d, i));
    let b = values(value, y.take(d));
    let terms = products(a, b);
    let partial = Seq::new(
        (d + 1) as nat,
        |k: int| value(crate::opq::column_steps(f, rotation, d, y, i, k as nat)),
    );
    assert forall|k: int|
        0 <= k < terms.len() && holds(partial[k]) && holds(partial[k] + terms[k]) implies partial[k
        + 1] == partial[k] + #[trigger] terms[k] by {
        assert(holds(a[k]) && holds(b[k]) && holds(terms[k]));
        assert(crate::opq::column_steps(f, rotation, d, y, i, (k + 1) as nat)
            == crate::pq_tables::stepped(
            f,
            crate::opq::column_steps(f, rotation, d, y, i, k as nat),
            rotation[k * d + i],
            y[k],
        ));
    }
    assert(crate::exact::grows_by(holds, partial, terms));
    crate::exact::lemma_partial_sums(holds, partial, terms, d as nat);
}

} // verus!
