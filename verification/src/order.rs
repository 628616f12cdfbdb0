//! The order of single-precision bit patterns, and sorting by integer keys.
use vstd::multiset::Multiset;
use vstd::prelude::*;

verus! {

/// The largest finite number.
pub const MAX_DISTANCE: u32 = 0x7F7F_FFFF;

/// Positive infinity.
pub const INFINITE_DISTANCE: u32 = 0x7F80_0000;

/// Negative infinity.
pub const NEGATIVE_INFINITY: u32 = 0xFF80_0000;

/// The pattern without its sign bit.
pub open spec fn magnitude(bits: u32) -> int {
    if bits < 0x8000_0000 {
        bits as int
    } else {
        bits - 0x8000_0000
    }
}

/// The pattern is not a number.
pub open spec fn is_nan(bits: u32) -> bool {
    magnitude(bits) > 0x7F80_0000
}

/// Orders numbers by value; both zeros have the same key.
pub open spec fn numeric_key(bits: u32) -> int {
    if bits < 0x8000_0000 {
        bits as int
    } else {
        -magnitude(bits)
    }
}

/// Orders all patterns, negative before positive and the two zeros apart.
pub open spec fn total_key(bits: u32) -> int {
    if bits < 0x8000_0000 {
        bits as int
    } else {
        -magnitude(bits) - 1
    }
}

/// Numeric `a < b`; false when either is not a number.
pub open spec fn less(a: u32, b: u32) -> bool {
    !is_nan(a) && !is_nan(b) && numeric_key(a) < numeric_key(b)
}

pub fn float_is_nan(bits: u32) -> (nan: bool)
    ensures
        nan == is_nan(bits),
{
    if bits < 0x8000_0000 {
        bits > 0x7F80_0000
    } else {
        bits - 0x8000_0000 > 0x7F80_0000
    }
}

pub fn float_is_finite(bits: u32) -> (finite: bool)
    ensures
        finite == (magnitude(bits) < 0x7F80_0000),
{
    if bits < 0x8000_0000 {
        bits < 0x7F80_0000
    } else {
        bits - 0x8000_0000 < 0x7F80_0000
    }
}

pub fn float_key(bits: u32) -> (key: i64)
    ensures
        key == numeric_key(bits),
{
    if bits < 0x8000_0000 {
        bits as i64
    } else {
        -((bits - 0x8000_0000) as i64)
    }
}

pub fn float_total_key(bits: u32) -> (key: i64)
    ensures
        key == total_key(bits),
{
    if bits < 0x8000_0000 {
        bits as i64
    } else {
        -((bits - 0x8000_0000) as i64) - 1
    }
}

pub fn float_less(a: u32, b: u32) -> (result: bool)
    ensures
        result == less(a, b),
{
    !float_is_nan(a) && !float_is_nan(b) && float_key(a) < float_key(b)
}

/// The pattern with the given total key.
pub fn float_of_total_key(key: i64) -> (bits: u32)
    requires
        -0x8000_0000 <= key < 0x8000_0000,
    ensures
        total_key(bits) == key,
{
    if key >= 0 {
        key as u32
    } else {
        (0x7FFF_FFFFi64 - key) as u32
    }
}

/// Distinct patterns have distinct total keys.
pub proof fn law_total_key_is_injective(a: u32, b: u32)
    requires
        total_key(a) == total_key(b),
    ensures
        a == b,
{
}

/// The total order refines the numeric order of numbers.
pub proof fn law_total_key_refines_numeric_order(a: u32, b: u32)
    requires
        less(a, b),
    ensures
        total_key(a) < total_key(b),
{
}

/// The smaller of two numbers; a pattern that is not a number gives way.
pub open spec fn min_number(a: u32, b: u32) -> u32 {
    if is_nan(a) {
        b
    } else if less(b, a) {
        b
    } else {
        a
    }
}

/// The larger of two numbers; a pattern that is not a number gives way.
pub open spec fn max_number(a: u32, b: u32) -> u32 {
    if is_nan(a) {
        b
    } else if less(a, b) {
        b
    } else {
        a
    }
}

pub fn float_min(a: u32, b: u32) -> (smaller: u32)
    ensures
        smaller == min_number(a, b),
{
    if float_is_nan(a) {
        b
    } else if float_less(b, a) {
        b
    } else {
        a
    }
}

pub fn float_max(a: u32, b: u32) -> (larger: u32)
    ensures
        larger == max_number(a, b),
{
    if float_is_nan(a) {
        b
    } else if float_less(a, b) {
        b
    } else {
        a
    }
}

/// Lexicographic order of key and index.
pub open spec fn pair_before(a: (i64, usize), b: (i64, usize)) -> bool {
    a.0 < b.0 || a.0 == b.0 && a.1 < b.1
}

pub open spec fn pairs_sorted(pairs: Seq<(i64, usize)>) -> bool {
    forall|i: int, j: int|
        0 <= i < j < pairs.len() ==> !pair_before(#[trigger] pairs[j], #[trigger] pairs[i])
}

fn is_pair_before(a: (i64, usize), b: (i64, usize)) -> (before: bool)
    ensures
        before == pair_before(a, b),
{
    a.0 < b.0 || (a.0 == b.0 && a.1 < b.1)
}

/// Two sorted runs merged into one.
fn merge_pairs(left: &Vec<(i64, usize)>, right: &Vec<(i64, usize)>) -> (merged: Vec<
    (i64, usize),
>)
    requires
        pairs_sorted(left@),
        pairs_sorted(right@),
    ensures
        pairs_sorted(merged@),
        merged@.to_multiset() == left@.to_multiset().add(right@.to_multiset()),
{
    let mut merged: Vec<(i64, usize)> = Vec::new();
    let mut i: usize = 0;
    let mut j: usize = 0;
    proof {
        assert(left@.take(0) =~= Seq::<(i64, usize)>::empty());
        assert(right@.take(0) =~= Seq::<(i64, usize)>::empty());
        assert(merged@ =~= Seq::<(i64, usize)>::empty());
        Seq::<(i64, usize)>::empty().to_multiset_ensures();
        assert(Seq::<(i64, usize)>::empty().to_multiset() =~= Multiset::empty());
    }
    while i < left.len() || j < right.len()
        invariant
            i <= left@.len(),
            j <= right@.len(),
            pairs_sorted(left@),
            pairs_sorted(right@),
            pairs_sorted(merged@),
            merged@.to_multiset() == left@.take(i as int).to_multiset().add(
                right@.take(j as int).to_multiset(),
            ),
            forall|a: int, b: int|
                0 <= a < merged@.len() && i <= b < left@.len() ==> !pair_before(
                    #[trigger] left@[b],
                    #[trigger] merged@[a],
                ),
            forall|a: int, b: int|
                0 <= a < merged@.len() && j <= b < right@.len() ==> !pair_before(
                    #[trigger] right@[b],
                    #[trigger] merged@[a],
                ),
        decreases left@.len() - i + right@.len() - j,
    {
        let from_left: bool = if i >= left.len() {
            false
        } else if j >= right.len() {
            true
        } else {
            !is_pair_before(right[j], left[i])
        };
        let ghost before = merged@;
        if from_left {
            let next: (i64, usize) = left[i];
            merged.push(next);
            proof {
                before.to_multiset_ensures();
                left@.take(i as int).to_multiset_ensures();
                assert(left@.take(i + 1) =~= left@.take(i as int).push(next));
                assert(merged@.to_multiset() =~= left@.take(i + 1).to_multiset().add(
                    right@.take(j as int).to_multiset(),
                ));
            }
            i = i + 1;
        } else {
            let next: (i64, usize) = right[j];
            merged.push(next);
            proof {
                before.to_multiset_ensures();
                right@.take(j as int).to_multiset_ensures();
                assert(right@.take(j + 1) =~= right@.take(j as int).push(next));
                assert(merged@.to_multiset() =~= left@.take(i as int).to_multiset().add(
                    right@.take(j + 1).to_multiset(),
                ));
            }
            j = j + 1;
        }
    }
    proof {
        assert(left@.take(left@.len() as int) =~= left@);
        assert(right@.take(right@.len() as int) =~= right@);
    }
    merged
}

/// The pairs `pairs[from..to]` in lexicographic order.
fn sort_range(pairs: &[(i64, usize)], from: usize, to: usize) -> (sorted: Vec<(i64, usize)>)
    requires
        from <= to <= pairs@.len(),
    ensures
        pairs_sorted(sorted@),
        sorted@.to_multiset() == pairs@.subrange(from as int, to as int).to_multiset(),
    decreases to - from,
{
    if to - from <= 1 {
        let mut sorted: Vec<(i64, usize)> = Vec::new();
        if to - from == 1 {
            sorted.push(pairs[from]);
        }
        assert(sorted@ =~= pairs@.subrange(from as int, to as int));
        return sorted;
    }
    let middle: usize = from + (to - from) / 2;
    let left = sort_range(pairs, from, middle);
    let right = sort_range(pairs, middle, to);
    proof {
        let a = pairs@.subrange(from as int, middle as int);
        let b = pairs@.subrange(middle as int, to as int);
        assert(pairs@.subrange(from as int, to as int) =~= a + b);
        vstd::seq_lib::lemma_multiset_commutative(a, b);
    }
    merge_pairs(&left, &right)
}

/// Sorts by key and then by index.
pub fn sort_pairs(pairs: &[(i64, usize)]) -> (sorted: Vec<(i64, usize)>)
    ensures
        pairs_sorted(sorted@),
        sorted@.to_multiset() == pairs@.to_multiset(),
        sorted@.len() == pairs@.len(),
{
    proof {
        assert(pairs@.subrange(0, pairs@.len() as int) =~= pairs@);
        pairs@.to_multiset_ensures();
    }
    let sorted = sort_range(pairs, 0, pairs.len());
    proof {
        sorted@.to_multiset_ensures();
    }
    sorted
}

/// `order` lists the positions of `keys` by key, equal keys in position order.
pub open spec fn is_stable_order(keys: Seq<i64>, order: Seq<usize>) -> bool {
    &&& order.len() == keys.len()
    &&& crate::rq::is_permutation(order)
    &&& forall|i: int, j: int|
        0 <= i < j < order.len() ==> pair_before(
            (keys[#[trigger] order[i] as int], order[i]),
            (keys[#[trigger] order[j] as int], order[j]),
        )
}

/// Key and position of each element.
pub open spec fn indexed(keys: Seq<i64>) -> Seq<(i64, usize)> {
    Seq::new(keys.len(), |i: int| (keys[i], i as usize))
}

/// The positions of `keys` in stable ascending order.
pub fn stable_order(keys: &[i64]) -> (order: Vec<usize>)
    ensures
        is_stable_order(keys@, order@),
{
    let mut pairs: Vec<(i64, usize)> = Vec::new();
    let mut i: usize = 0;
    while i < keys.len()
        invariant
            i <= keys@.len(),
            pairs@ == indexed(keys@.take(i as int)),
        decreases keys@.len() - i,
    {
        pairs.push((keys[i], i));
        proof {
            assert(indexed(keys@.take(i + 1)) =~= indexed(keys@.take(i as int)).push(
                (keys@[i as int], i),
            ));
        }
        i = i + 1;
    }
    assert(keys@.take(keys@.len() as int) =~= keys@);
    let sorted = sort_pairs(pairs.as_slice());
    let mut order: Vec<usize> = Vec::new();
    let mut k: usize = 0;
    while k < sorted.len()
        invariant
            k <= sorted@.len(),
            order@ == Seq::new(k as nat, |x: int| sorted@[x].1),
        decreases sorted@.len() - k,
    {
        let position: usize = sorted[k].1;
        order.push(position);
        k = k + 1;
    }
    proof {
        lemma_sorted_indexes(keys@, sorted@, order@);
    }
    order
}

/// Sorting the indexed keys lists every position once, in stable order.
proof fn lemma_sorted_indexes(keys: Seq<i64>, sorted: Seq<(i64, usize)>, order: Seq<usize>)
    requires
        keys.len() <= usize::MAX,
        pairs_sorted(sorted),
        sorted.to_multiset() == indexed(keys).to_multiset(),
        sorted.len() == keys.len(),
        order == Seq::new(sorted.len(), |x: int| sorted[x].1),
    ensures
        is_stable_order(keys, order),
{
    let pairs = indexed(keys);
    assert(pairs.no_duplicates());
    pairs.lemma_multiset_has_no_duplicates();
    assert forall|i: int| 0 <= i < sorted.len() implies (#[trigger] sorted[i]).1 < keys.len()
        && sorted[i].0 == keys[sorted[i].1 as int] by {
        sorted.to_multiset_ensures();
        pairs.to_multiset_ensures();
        assert(sorted.contains(sorted[i]));
        assert(pairs.to_multiset().count(sorted[i]) > 0);
        assert(pairs.contains(sorted[i]));
    }
    assert(sorted.no_duplicates()) by {
        sorted.to_multiset_ensures();
        assert forall|x: (i64, usize)| sorted.to_multiset().contains(x) implies
            sorted.to_multiset().count(x) == 1 by {}
        sorted.lemma_multiset_has_no_duplicates_conv();
    }
    assert forall|i: int, j: int| 0 <= i < sorted.len() && 0 <= j < sorted.len() && i != j implies
        order[i] != order[j] by {
        if order[i] == order[j] {
            assert(sorted[i] == sorted[j]);
        }
    }
    assert forall|i: int, j: int| 0 <= i < j < order.len() implies pair_before(
        (keys[#[trigger] order[i] as int], order[i]),
        (keys[#[trigger] order[j] as int], order[j]),
    ) by {
        assert(!pair_before(sorted[j], sorted[i]));
        assert(order[i] != order[j]);
    }
}

/// There is one stable order.
pub proof fn law_stable_order_is_unique(keys: Seq<i64>, a: Seq<usize>, b: Seq<usize>)
    requires
        is_stable_order(keys, a),
        is_stable_order(keys, b),
    ensures
        a == b,
{
    lemma_stable_orders_agree(keys, a, b, keys.len());
    assert(a =~= b);
}

proof fn lemma_stable_orders_agree(keys: Seq<i64>, a: Seq<usize>, b: Seq<usize>, n: nat)
    requires
        is_stable_order(keys, a),
        is_stable_order(keys, b),
        n <= keys.len(),
    ensures
        forall|i: int| 0 <= i < n ==> a[i] == b[i],
    decreases n,
{
    if n > 0 {
        let i = n - 1;
        lemma_stable_orders_agree(keys, a, b, i as nat);
        if a[i] != b[i] {
            crate::rq::lemma_permutation_reaches(b, a[i] as int);
            crate::rq::lemma_permutation_reaches(a, b[i] as int);
            let j = choose|j: int| 0 <= j < b.len() && b[j] == a[i];
            let m = choose|m: int| 0 <= m < a.len() && a[m] == b[i];
            if j < i {
                assert(a[j] == b[j]);
                assert(a[j] != a[i]);
            }
            if m < i {
                assert(a[m] == b[m]);
                assert(b[m] != b[i]);
            }
            assert(pair_before(
                (keys[b[i] as int], b[i]),
                (keys[b[j] as int], b[j]),
            ));
            assert(pair_before(
                (keys[a[i] as int], a[i]),
                (keys[a[m] as int], a[m]),
            ));
        }
    }
}

} // verus!
