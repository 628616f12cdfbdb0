//! The real numbers that floating-point arithmetic works out. Arithmetic that
//! rounds to the nearest number is exact wherever the true result is a number
//! itself. Laws on such arithmetic speak of the real number that each pattern
//! stands for, its `value`, and of the real numbers that some pattern `holds`.
use vstd::prelude::*;

verus! {

/// The product of two real numbers.
#[verifier::opaque]
pub open spec fn times(a: real, b: real) -> real {
    a * b
}

pub proof fn lemma_times_commutes(a: real, b: real)
    ensures
        times(a, b) == times(b, a),
{
    reveal(times);
    assert(a * b == b * a) by (nonlinear_arith);
}

pub proof fn lemma_times_associates(a: real, b: real, c: real)
    ensures
        times(times(a, b), c) == times(a, times(b, c)),
{
    reveal(times);
    assert((a * b) * c == a * (b * c)) by (nonlinear_arith);
}

pub proof fn lemma_times_distributes(a: real, b: real, c: real)
    ensures
        times(a, b + c) == times(a, b) + times(a, c),
        times(b + c, a) == times(b, a) + times(c, a),
{
    reveal(times);
    assert(a * (b + c) == a * b + a * c) by (nonlinear_arith);
    assert((b + c) * a == b * a + c * a) by (nonlinear_arith);
}

pub proof fn lemma_times_small(a: real)
    ensures
        times(0real, a) == 0real,
        times(a, 0real) == 0real,
        times(1real, a) == a,
        times(a, 1real) == a,
        times(-1real, a) == -a,
        times(a, -1real) == -a,
        times(2real, a) == a + a,
        times(a, 2real) == a + a,
{
    reveal(times);
}

pub proof fn lemma_square_is_no_less(a: real)
    ensures
        times(a, a) >= 0real,
{
    reveal(times);
    assert(a * a >= 0real) by (nonlinear_arith);
}

/// A factor that is not zero can be left out.
pub proof fn lemma_times_cancels(a: real, b: real, c: real)
    requires
        times(a, c) == times(b, c),
        c != 0real,
    ensures
        a == b,
{
    reveal(times);
    assert(a == b) by (nonlinear_arith)
        requires
            a * c == b * c,
            c != 0real,
    ;
}

/// The sum of real numbers.
pub open spec fn total(terms: Seq<real>) -> real
    decreases terms.len(),
{
    if terms.len() == 0 {
        0real
    } else {
        total(terms.drop_last()) + terms.last()
    }
}

/// The numbers that patterns stand for.
pub open spec fn values(value: spec_fn(u32) -> real, patterns: Seq<u32>) -> Seq<real> {
    Seq::new(patterns.len(), |k: int| value(patterns[k]))
}

pub open spec fn products(x: Seq<real>, y: Seq<real>) -> Seq<real> {
    Seq::new(x.len(), |k: int| times(x[k], y[k]))
}

pub open spec fn differences(x: Seq<real>, y: Seq<real>) -> Seq<real> {
    Seq::new(x.len(), |k: int| x[k] - y[k])
}

pub open spec fn sums(x: Seq<real>, y: Seq<real>) -> Seq<real> {
    Seq::new(x.len(), |k: int| x[k] + y[k])
}

/// A vector stretched by a factor.
pub open spec fn stretched(factor: real, x: Seq<real>) -> Seq<real> {
    Seq::new(x.len(), |k: int| times(factor, x[k]))
}

/// The inner product of two vectors.
pub open spec fn dot(x: Seq<real>, y: Seq<real>) -> real {
    total(products(x, y))
}

/// The squared distance of two vectors.
pub open spec fn distance(x: Seq<real>, y: Seq<real>) -> real {
    dot(differences(x, y), differences(x, y))
}

pub open spec fn all_hold(holds: spec_fn(real) -> bool, terms: Seq<real>) -> bool {
    forall|k: int| 0 <= k < terms.len() ==> holds(#[trigger] terms[k])
}

/// Every term, and every sum of leading terms, is a number that some pattern
/// stands for.
pub open spec fn sum_holds(holds: spec_fn(real) -> bool, terms: Seq<real>) -> bool {
    &&& all_hold(holds, terms)
    &&& forall|k: int| 0 <= k <= terms.len() ==> holds(total(#[trigger] terms.take(k)))
}

/// An inner product can be summed up without rounding.
pub open spec fn dot_holds(holds: spec_fn(real) -> bool, x: Seq<real>, y: Seq<real>) -> bool {
    &&& all_hold(holds, x)
    &&& all_hold(holds, y)
    &&& sum_holds(holds, products(x, y))
}

/// A squared distance can be summed up without rounding.
pub open spec fn distance_holds(holds: spec_fn(real) -> bool, x: Seq<real>, y: Seq<real>) -> bool {
    &&& all_hold(holds, x)
    &&& all_hold(holds, y)
    &&& dot_holds(holds, differences(x, y), differences(x, y))
}

/// One more term.
pub proof fn lemma_total_step(terms: Seq<real>, k: int)
    requires
        0 <= k < terms.len(),
    ensures
        total(terms.take(k + 1)) == total(terms.take(k)) + terms[k],
{
    assert(terms.take(k + 1).drop_last() =~= terms.take(k));
}

/// Each sum is the one before with one more term, where that is exact.
pub open spec fn grows_by(
    holds: spec_fn(real) -> bool,
    partial: Seq<real>,
    terms: Seq<real>,
) -> bool {
    &&& partial.len() == terms.len() + 1
    &&& partial[0] == 0real
    &&& forall|k: int|
        0 <= k < terms.len() && holds(partial[k]) && holds(partial[k] + terms[k]) ==> partial[k + 1]
            == partial[k] + #[trigger] terms[k]
}

/// Sums that grow by one term each end with the sum of all terms.
pub proof fn lemma_partial_sums(
    holds: spec_fn(real) -> bool,
    partial: Seq<real>,
    terms: Seq<real>,
    upto: nat,
)
    requires
        grows_by(holds, partial, terms),
        sum_holds(holds, terms),
        upto <= terms.len(),
    ensures
        partial[upto as int] == total(terms.take(upto as int)),
        holds(partial[upto as int]),
        upto == terms.len() ==> partial[upto as int] == total(terms),
    decreases upto,
{
    assert(terms.take(terms.len() as int) =~= terms);
    assert(holds(total(terms.take(upto as int))));
    if upto > 0 {
        let k = upto - 1;
        lemma_partial_sums(holds, partial, terms, k as nat);
        lemma_total_step(terms, k);
        assert(partial[k + 1] == partial[k] + terms[k]);
    } else {
        assert(terms.take(0) =~= Seq::<real>::empty());
    }
}

/// Sums of terms that are made of two other terms each.
pub proof fn lemma_total_combines(a: Seq<real>, b: Seq<real>, c: Seq<real>, s: real, t: real)
    requires
        a.len() == b.len(),
        a.len() == c.len(),
        forall|k: int| 0 <= k < a.len() ==> #[trigger] a[k] == times(s, b[k]) + times(t, c[k]),
    ensures
        total(a) == times(s, total(b)) + times(t, total(c)),
    decreases a.len(),
{
    if a.len() == 0 {
        lemma_times_small(s);
        lemma_times_small(t);
    } else {
        let (p, q, r) = (a.drop_last(), b.drop_last(), c.drop_last());
        assert forall|k: int| 0 <= k < p.len() implies #[trigger] p[k] == times(s, q[k]) + times(
            t,
            r[k],
        ) by {
            assert(a[k] == times(s, b[k]) + times(t, c[k]));
        }
        lemma_total_combines(p, q, r, s, t);
        assert(a[a.len() - 1] == times(s, b[a.len() - 1]) + times(t, c[a.len() - 1]));
        lemma_times_distributes(s, total(q), b.last());
        lemma_times_distributes(t, total(r), c.last());
    }
}

/// The sums of two parts add up to the sum of the whole.
pub proof fn lemma_total_parts(a: Seq<real>, b: Seq<real>)
    ensures
        total(a + b) == total(a) + total(b),
    decreases b.len(),
{
    if b.len() == 0 {
        assert(a + b =~= a);
    } else {
        assert((a + b).drop_last() =~= a + b.drop_last());
        assert((a + b).last() == b.last());
        lemma_total_parts(a, b.drop_last());
    }
}

/// A sum of numbers that are not negative is not negative.
pub proof fn lemma_total_is_no_less(terms: Seq<real>)
    requires
        forall|k: int| 0 <= k < terms.len() ==> #[trigger] terms[k] >= 0real,
    ensures
        total(terms) >= 0real,
    decreases terms.len(),
{
    if terms.len() > 0 {
        let rest = terms.drop_last();
        assert forall|k: int| 0 <= k < rest.len() implies #[trigger] rest[k] >= 0real by {
            assert(terms[k] >= 0real);
        }
        lemma_total_is_no_less(rest);
        assert(terms[terms.len() - 1] >= 0real);
    }
}

/// A squared length is not negative.
pub proof fn lemma_dot_is_no_less(x: Seq<real>)
    ensures
        dot(x, x) >= 0real,
{
    let terms = products(x, x);
    assert forall|k: int| 0 <= k < terms.len() implies #[trigger] terms[k] >= 0real by {
        lemma_square_is_no_less(x[k]);
    }
    lemma_total_is_no_less(terms);
}

/// An inner product does not depend on the order of its vectors.
pub proof fn lemma_dot_symmetric(x: Seq<real>, y: Seq<real>)
    requires
        x.len() == y.len(),
    ensures
        dot(x, y) == dot(y, x),
{
    assert forall|k: int| 0 <= k < x.len() implies products(x, y)[k] == products(y, x)[k] by {
        lemma_times_commutes(x[k], y[k]);
    }
    assert(products(x, y) =~= products(y, x));
}

/// An inner product is linear in its first vector.
pub proof fn lemma_dot_linear(
    x: Seq<real>,
    a: Seq<real>,
    b: Seq<real>,
    s: real,
    t: real,
    y: Seq<real>,
)
    requires
        x.len() == y.len(),
        a.len() == y.len(),
        b.len() == y.len(),
        forall|k: int| 0 <= k < x.len() ==> #[trigger] x[k] == times(s, a[k]) + times(t, b[k]),
    ensures
        dot(x, y) == times(s, dot(a, y)) + times(t, dot(b, y)),
{
    let (p, q, r) = (products(x, y), products(a, y), products(b, y));
    assert forall|k: int| 0 <= k < p.len() implies #[trigger] p[k] == times(s, q[k]) + times(
        t,
        r[k],
    ) by {
        assert(x[k] == times(s, a[k]) + times(t, b[k]));
        lemma_times_distributes(y[k], times(s, a[k]), times(t, b[k]));
        lemma_times_associates(s, a[k], y[k]);
        lemma_times_associates(t, b[k], y[k]);
    }
    lemma_total_combines(p, q, r, s, t);
}

/// An inner product with a difference.
pub proof fn lemma_dot_of_difference(x: Seq<real>, y: Seq<real>, z: Seq<real>)
    requires
        x.len() == z.len(),
        y.len() == z.len(),
    ensures
        dot(differences(x, y), z) == dot(x, z) - dot(y, z),
{
    let gap = differences(x, y);
    assert forall|k: int| 0 <= k < gap.len() implies #[trigger] gap[k] == times(1real, x[k])
        + times(-1real, y[k]) by {
        lemma_times_small(x[k]);
        lemma_times_small(y[k]);
    }
    lemma_dot_linear(gap, x, y, 1real, -1real, z);
    lemma_times_small(dot(x, z));
    lemma_times_small(dot(y, z));
}

/// An inner product with a sum.
pub proof fn lemma_dot_of_sum(x: Seq<real>, y: Seq<real>, z: Seq<real>)
    requires
        x.len() == z.len(),
        y.len() == z.len(),
    ensures
        dot(sums(x, y), z) == dot(x, z) + dot(y, z),
        dot(z, sums(x, y)) == dot(z, x) + dot(z, y),
{
    let both = sums(x, y);
    assert forall|k: int| 0 <= k < both.len() implies #[trigger] both[k] == times(1real, x[k])
        + times(1real, y[k]) by {
        lemma_times_small(x[k]);
        lemma_times_small(y[k]);
    }
    lemma_dot_linear(both, x, y, 1real, 1real, z);
    lemma_times_small(dot(x, z));
    lemma_times_small(dot(y, z));
    lemma_dot_symmetric(both, z);
    lemma_dot_symmetric(x, z);
    lemma_dot_symmetric(y, z);
}

/// An inner product with a stretched vector.
pub proof fn lemma_dot_of_stretched(factor: real, x: Seq<real>, z: Seq<real>)
    requires
        x.len() == z.len(),
    ensures
        dot(stretched(factor, x), z) == times(factor, dot(x, z)),
        dot(z, stretched(factor, x)) == times(factor, dot(z, x)),
{
    let long = stretched(factor, x);
    assert forall|k: int| 0 <= k < long.len() implies #[trigger] long[k] == times(factor, x[k])
        + times(0real, x[k]) by {
        lemma_times_small(x[k]);
    }
    lemma_dot_linear(long, x, x, factor, 0real, z);
    lemma_times_small(dot(x, z));
    lemma_dot_symmetric(long, z);
    lemma_dot_symmetric(x, z);
}

/// A squared distance from two squared lengths and an inner product.
pub proof fn lemma_distance_expands(x: Seq<real>, y: Seq<real>)
    requires
        x.len() == y.len(),
    ensures
        distance(x, y) == dot(x, x) + dot(y, y) - dot(x, y) - dot(x, y),
        distance(x, y) >= 0real,
{
    let gap = differences(x, y);
    lemma_dot_of_difference(x, y, gap);
    lemma_dot_symmetric(x, gap);
    lemma_dot_symmetric(y, gap);
    lemma_dot_of_difference(x, y, x);
    lemma_dot_of_difference(x, y, y);
    lemma_dot_symmetric(x, y);
    lemma_dot_is_no_less(gap);
}

} // verus!
