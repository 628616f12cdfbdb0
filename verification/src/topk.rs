//! Bounded collections of the nearest rows.
use crate::order::{float_key, float_less, stable_order};
use vstd::multiset::Multiset;
use vstd::prelude::*;

verus! {

/// A row and the bit pattern of its distance.
pub type Neighbor = (u32, i64);

/// The item orders after no other item of the collection.
pub open spec fn is_worst(items: Multiset<Neighbor>, worst: Neighbor) -> bool {
    &&& items.contains(worst)
    &&& forall|x: Neighbor|
        #[trigger] items.contains(x) ==> crate::order::numeric_key(x.0)
            <= crate::order::numeric_key(worst.0)
}

/// What offering `item` to a collection bounded by `k` does to its contents:
/// it is added while there is room, replaces a worst item if it is strictly
/// nearer, and is dropped otherwise.
pub open spec fn offered(
    before: Multiset<Neighbor>,
    after: Multiset<Neighbor>,
    k: nat,
    item: Neighbor,
) -> bool {
    if k == 0 {
        after == before
    } else if before.len() < k {
        after == before.insert(item)
    } else {
        exists|worst: Neighbor| #[trigger]
            is_worst(before, worst) && after == (if crate::order::less(item.0, worst.0) {
                before.remove(worst).insert(item)
            } else {
                before
            })
    }
}

/// `kept` are `k` nearest items of `seen`, or all of them if there are fewer.
pub open spec fn nearest_of(seen: Multiset<Neighbor>, kept: Multiset<Neighbor>, k: nat) -> bool {
    &&& kept.subset_of(seen)
    &&& kept.len() == (if seen.len() < k {
        seen.len()
    } else {
        k
    })
    &&& forall|x: Neighbor, y: Neighbor|
        #![trigger kept.contains(x), seen.sub(kept).contains(y)]
        kept.contains(x) && seen.sub(kept).contains(y) ==> crate::order::numeric_key(x.0)
            <= crate::order::numeric_key(y.0)
}

/// No distance in the collection is a NaN.
pub open spec fn all_numbers(items: Multiset<Neighbor>) -> bool {
    forall|x: Neighbor| #[trigger] items.contains(x) ==> !crate::order::is_nan(x.0)
}

/// Offering one more item keeps the nearest: whatever was kept of the items
/// seen so far, afterwards the collection keeps the nearest of all of them.
pub proof fn law_offering_keeps_the_nearest(
    seen: Multiset<Neighbor>,
    before: Multiset<Neighbor>,
    after: Multiset<Neighbor>,
    k: nat,
    item: Neighbor,
)
    requires
        nearest_of(seen, before, k),
        all_numbers(before),
        !crate::order::is_nan(item.0),
        offered(before, after, k, item),
    ensures
        nearest_of(seen.insert(item), after, k),
{
    let all = seen.insert(item);
    if k == 0 {
        assert(all.len() == seen.len() + 1);
    } else if before.len() < k {
        assert(seen.len() == before.len());
        assert(all.len() == seen.len() + 1);
        assert(after.len() == before.len() + 1);
        assert(after.subset_of(all));
        assert forall|x: Neighbor, y: Neighbor|
            #![trigger after.contains(x), all.sub(after).contains(y)]
            after.contains(x) && all.sub(after).contains(y) implies crate::order::numeric_key(x.0)
            <= crate::order::numeric_key(y.0) by {
            assert(before.count(y) <= seen.count(y));
            assert(all.sub(after).len() == 0);
        }
    } else {
        let worst = choose|worst: Neighbor| #[trigger]
            is_worst(before, worst) && after == (if crate::order::less(item.0, worst.0) {
                before.remove(worst).insert(item)
            } else {
                before
            });
        assert(before.contains(worst));
        assert(all.len() == seen.len() + 1);
        assert(after.len() == before.len());
        assert forall|x: Neighbor| after.count(x) <= all.count(x) by {
            assert(before.count(x) <= seen.count(x));
        }
        assert(after.subset_of(all));
        assert forall|x: Neighbor, y: Neighbor|
            #![trigger after.contains(x), all.sub(after).contains(y)]
            after.contains(x) && all.sub(after).contains(y) implies crate::order::numeric_key(x.0)
            <= crate::order::numeric_key(y.0) by {
            assert(after.count(x) > 0);
            assert(all.sub(after).count(y) > 0);
            if crate::order::less(item.0, worst.0) {
                if x != item {
                    assert(before.contains(x));
                }
                if y != worst {
                    assert(seen.sub(before).count(y) > 0 || y == item);
                    if seen.sub(before).count(y) > 0 {
                        assert(seen.sub(before).contains(y));
                        assert(before.contains(worst));
                    } else {
                        assert(before.count(y) == seen.count(y));
                        assert(all.count(y) == after.count(y));
                    }
                } else if seen.sub(before).count(y) > 0 {
                    assert(seen.sub(before).contains(y));
                }
            } else {
                assert(before.contains(x));
                if y == item {
                    assert(crate::order::numeric_key(x.0) <= crate::order::numeric_key(worst.0));
                } else {
                    assert(seen.sub(before).contains(y));
                }
            }
        }
    }
}

/// The sort keys of the items.
pub open spec fn distance_keys(items: Seq<Neighbor>) -> Seq<i64> {
    Seq::new(items.len(), |i: int| crate::order::numeric_key(items[i].0) as i64)
}

/// The items in the order given by `order`.
pub open spec fn gathered(items: Seq<Neighbor>, order: Seq<usize>) -> Seq<Neighbor> {
    Seq::new(order.len(), |i: int| items[order[i] as int])
}

/// `sorted` lists `items` by distance, and items of equal distance as they
/// stand in `items`.
pub open spec fn stably_sorted(items: Seq<Neighbor>, sorted: Seq<Neighbor>) -> bool {
    exists|order: Seq<usize>| #[trigger]
        crate::order::is_stable_order(distance_keys(items), order) && sorted == gathered(
            items,
            order,
        )
}

/// Distances never decrease along the sequence.
pub open spec fn ascending(items: Seq<Neighbor>) -> bool {
    forall|i: int, j: int|
        0 <= i < j < items.len() ==> crate::order::numeric_key((#[trigger] items[i]).0)
            <= crate::order::numeric_key((#[trigger] items[j]).0)
}

/// Reordering by a permutation keeps the multiset of items.
pub proof fn lemma_gathered_multiset(items: Seq<Neighbor>, order: Seq<usize>)
    requires
        order.len() == items.len(),
        crate::rq::is_permutation(order),
    ensures
        gathered(items, order).to_multiset() == items.to_multiset(),
    decreases items.len(),
{
    broadcast use vstd::seq_lib::group_to_multiset_ensures;

    if items.len() == 0 {
        assert(gathered(items, order) =~= items);
    } else {
        let last = order.len() - 1;
        let p = order[last] as int;
        let fewer = items.remove(p);
        let rest = Seq::new(
            last as nat,
            |i: int|
                if order[i] > p {
                    (order[i] - 1) as usize
                } else {
                    order[i]
                },
        );
        assert forall|i: int| 0 <= i < rest.len() implies #[trigger] rest[i] < rest.len() by {
            assert(order[i] != order[last]);
            assert(order[i] < order.len());
        }
        assert forall|i: int, j: int|
            0 <= i < rest.len() && 0 <= j < rest.len() && i != j implies #[trigger] rest[i]
            != #[trigger] rest[j] by {
            assert(order[i] != order[j]);
            assert(order[i] != order[last]);
            assert(order[j] != order[last]);
        }
        lemma_gathered_multiset(fewer, rest);
        assert forall|i: int| 0 <= i < rest.len() implies gathered(fewer, rest)[i] == gathered(
            items,
            order,
        )[i] by {
            assert(order[i] != order[last]);
        }
        assert(gathered(items, order) =~= gathered(fewer, rest).push(items[p]));
        assert(items.to_multiset().contains(items[p])) by {
            assert(items.contains(items[p]));
        }
        assert(fewer.to_multiset().insert(items[p]) =~= items.to_multiset());
    }
}

/// A stable sort by distance keeps the items and orders them.
pub proof fn lemma_stably_sorted(items: Seq<Neighbor>, sorted: Seq<Neighbor>)
    requires
        stably_sorted(items, sorted),
    ensures
        sorted.len() == items.len(),
        sorted.to_multiset() == items.to_multiset(),
        ascending(sorted),
{
    let keys = distance_keys(items);
    let order = choose|order: Seq<usize>| #[trigger]
        crate::order::is_stable_order(keys, order) && sorted == gathered(items, order);
    lemma_gathered_multiset(items, order);
    assert forall|i: int, j: int| 0 <= i < j < sorted.len() implies crate::order::numeric_key(
        (#[trigger] sorted[i]).0,
    ) <= crate::order::numeric_key((#[trigger] sorted[j]).0) by {
        assert(crate::order::pair_before(
            (keys[order[i] as int], order[i]),
            (keys[order[j] as int], order[j]),
        ));
    }
}

/// Sorts by distance, keeping the given order among equal distances.
pub fn sort_neighbors(items: &Vec<Neighbor>) -> (sorted: Vec<Neighbor>)
    ensures
        stably_sorted(items@, sorted@),
{
    let mut keys: Vec<i64> = Vec::new();
    let mut i: usize = 0;
    while i < items.len()
        invariant
            i <= items@.len(),
            keys@ == distance_keys(items@.take(i as int)),
        decreases items@.len() - i,
    {
        keys.push(float_key(items[i].0));
        assert(distance_keys(items@.take(i + 1)) =~= distance_keys(items@.take(i as int)).push(
            crate::order::numeric_key(items@[i as int].0) as i64,
        ));
        i = i + 1;
    }
    assert(items@.take(items@.len() as int) =~= items@);
    let order = stable_order(keys.as_slice());
    let mut sorted: Vec<Neighbor> = Vec::new();
    let mut k: usize = 0;
    while k < order.len()
        invariant
            k <= order@.len(),
            order@.len() == items@.len(),
            crate::rq::is_permutation(order@),
            sorted@ == gathered(items@, order@.take(k as int)),
        decreases order@.len() - k,
    {
        let at: usize = order[k];
        sorted.push(items[at]);
        assert(gathered(items@, order@.take(k + 1)) =~= gathered(
            items@,
            order@.take(k as int),
        ).push(items@[at as int]));
        k = k + 1;
    }
    assert(order@.take(order@.len() as int) =~= order@);
    sorted
}

/// Position `c` is a child of position `p` of a binary heap.
pub open spec fn is_child(p: int, c: int) -> bool {
    c == 2 * p + 1 || c == 2 * p + 2
}

/// In the part of the array whose parents are at `start` or later, no child
/// orders after its parent, except below `hole`.
pub open spec fn heap_except(items: Seq<Neighbor>, start: int, hole: int) -> bool {
    forall|p: int, c: int|
        start <= p && p != hole && 0 <= p && c < items.len() && #[trigger] is_child(p, c)
            ==> crate::order::numeric_key(items[c].0) <= crate::order::numeric_key(items[p].0)
}

/// The items below `hole` order no later than the item above it.
pub open spec fn covered(items: Seq<Neighbor>, start: int, hole: int) -> bool {
    forall|p: int, c: int|
        start <= p && 0 <= p && c < items.len() && is_child(p, hole) && #[trigger] is_child(hole, c)
            && #[trigger] is_child(p, hole) ==> crate::order::numeric_key(items[c].0)
            <= crate::order::numeric_key(items[p].0)
}

/// Exchanging the item at `hole` with its largest child moves the hole there.
proof fn lemma_sift_step(items: Seq<Neighbor>, start: int, hole: int, largest: int)
    requires
        0 <= start <= hole < items.len(),
        is_child(hole, largest),
        largest < items.len(),
        heap_except(items, start, hole),
        covered(items, start, hole),
        crate::order::numeric_key(items[hole].0) < crate::order::numeric_key(items[largest].0),
        forall|c: int|
            c < items.len() && #[trigger] is_child(hole, c) ==> crate::order::numeric_key(
                items[c].0,
            ) <= crate::order::numeric_key(items[largest].0),
    ensures
        ({
            let next = items.update(hole, items[largest]).update(largest, items[hole]);
            &&& heap_except(next, start, largest)
            &&& covered(next, start, largest)
            &&& next.to_multiset() == items.to_multiset()
        }),
{
    let next = items.update(hole, items[largest]).update(largest, items[hole]);
    assert forall|p: int, c: int|
        start <= p && p != largest && 0 <= p && c < next.len() && #[trigger] is_child(
            p,
            c,
        ) implies crate::order::numeric_key(next[c].0) <= crate::order::numeric_key(next[p].0) by {
        if p == hole {
            assert(is_child(hole, c));
        } else if c == hole {
            assert(is_child(p, hole) && is_child(hole, largest));
        } else {
            assert(c != largest);
            assert(is_child(p, c));
        }
    }
    assert forall|p: int, c: int|
        start <= p && 0 <= p && c < next.len() && is_child(p, largest) && #[trigger] is_child(
            largest,
            c,
        ) && #[trigger] is_child(p, largest) implies crate::order::numeric_key(next[c].0)
        <= crate::order::numeric_key(next[p].0) by {
        assert(p == hole);
        assert(is_child(largest, c));
    }
    vstd::seq_lib::to_multiset_update(items, hole, items[largest]);
    vstd::seq_lib::to_multiset_update(
        items.update(hole, items[largest]),
        largest,
        items[hole],
    );
    items.to_multiset_ensures();
    assert(items.contains(items[hole]));
    assert(items.contains(items[largest]));
    assert(next.to_multiset() =~= items.to_multiset());
}

/// Every item is a number.
pub open spec fn numbers_only(items: Seq<Neighbor>) -> bool {
    forall|i: int| 0 <= i < items.len() ==> !crate::order::is_nan((#[trigger] items[i]).0)
}

/// The one of a position and its children whose item is farthest; of equally
/// far ones the position itself before its left child, and that before its
/// right child.
pub open spec fn farthest_of(items: Seq<Neighbor>, at: int) -> int {
    let (left, right) = (2 * at + 1, 2 * at + 2);
    let first = if left < items.len() && crate::order::less(items[at].0, items[left].0) {
        left
    } else {
        at
    };
    if right < items.len() && crate::order::less(items[first].0, items[right].0) {
        right
    } else {
        first
    }
}

/// The items after the one at `at` has sunk: it changes places with a farthest
/// child as long as that is farther.
pub open spec fn sunk(items: Seq<Neighbor>, at: int) -> Seq<Neighbor>
    decreases items.len() - at,
{
    let next = farthest_of(items, at);
    if at < 0 || at >= items.len() || next == at {
        items
    } else {
        sunk(items.update(at, items[next]).update(next, items[at]), next)
    }
}

/// The items after those before `upto` have sunk, the last one first.
pub open spec fn all_sunk(items: Seq<Neighbor>, upto: nat) -> Seq<Neighbor>
    decreases upto,
{
    if upto == 0 {
        items
    } else {
        all_sunk(sunk(items, upto - 1), (upto - 1) as nat)
    }
}

/// The items of a collection bounded by `k` after `item` was offered. While
/// there is room, it goes behind the others, and the one that fills the
/// collection makes it a heap. A full collection gives up its first item for
/// one that is strictly nearer, which then sinks.
#[verifier::opaque]
pub open spec fn pushed(items: Seq<Neighbor>, k: nat, item: Neighbor) -> Seq<Neighbor> {
    if k == 0 {
        items
    } else if items.len() < k {
        let more = items.push(item);
        if more.len() == k {
            all_sunk(more, k / 2)
        } else {
            more
        }
    } else if crate::order::less(item.0, items[0].0) {
        sunk(items.update(0, item), 0)
    } else {
        items
    }
}

/// The items of a collection bounded by `k` after others were offered in turn.
pub open spec fn all_pushed(items: Seq<Neighbor>, k: nat, offers: Seq<Neighbor>) -> Seq<Neighbor>
    decreases offers.len(),
{
    if offers.len() == 0 {
        items
    } else {
        pushed(all_pushed(items, k, offers.drop_last()), k, offers.last())
    }
}

/// Offering some items and then others is offering all of them in turn.
pub proof fn law_pushing_in_parts(
    items: Seq<Neighbor>,
    k: nat,
    a: Seq<Neighbor>,
    b: Seq<Neighbor>,
)
    ensures
        all_pushed(all_pushed(items, k, a), k, b) == all_pushed(items, k, a + b),
    decreases b.len(),
{
    if b.len() == 0 {
        assert(a + b =~= a);
    } else {
        law_pushing_in_parts(items, k, a, b.drop_last());
        assert((a + b).drop_last() =~= a + b.drop_last());
    }
}

/// There is one way to sort items by distance and keep equally far ones in
/// order.
pub proof fn law_stable_sorting_is_unique(
    items: Seq<Neighbor>,
    a: Seq<Neighbor>,
    b: Seq<Neighbor>,
)
    requires
        stably_sorted(items, a),
        stably_sorted(items, b),
    ensures
        a == b,
{
    let keys = distance_keys(items);
    let first = choose|order: Seq<usize>| #[trigger]
        crate::order::is_stable_order(keys, order) && a == gathered(items, order);
    let second = choose|order: Seq<usize>| #[trigger]
        crate::order::is_stable_order(keys, order) && b == gathered(items, order);
    crate::order::law_stable_order_is_unique(keys, first, second);
}

/// Restores the heap order below `start`.
fn sift_down(items: &mut Vec<Neighbor>, start: usize)
    requires
        heap_except(old(items)@, start as int, start as int),
        old(items)@.len() * 2 + 2 <= usize::MAX,
        numbers_only(old(items)@),
    ensures
        heap_except(final(items)@, start as int, -1),
        final(items)@.to_multiset() == old(items)@.to_multiset(),
        final(items)@.len() == old(items)@.len(),
        numbers_only(final(items)@),
        final(items)@ == sunk(old(items)@, start as int),
{
    let n: usize = items.len();
    if start >= n {
        return;
    }
    let mut i: usize = start;
    loop
        invariant
            n == items@.len(),
            n == old(items)@.len(),
            n * 2 + 2 <= usize::MAX,
            start <= i < n,
            items@.to_multiset() == old(items)@.to_multiset(),
            heap_except(items@, start as int, i as int),
            covered(items@, start as int, i as int),
            numbers_only(items@),
            sunk(items@, i as int) == sunk(old(items)@, start as int),
        decreases n - i,
    {
        let left: usize = 2 * i + 1;
        let right: usize = 2 * i + 2;
        let mut largest: usize = i;
        if left < n && float_less(items[largest].0, items[left].0) {
            largest = left;
        }
        if right < n && float_less(items[largest].0, items[right].0) {
            largest = right;
        }
        assert(largest == farthest_of(items@, i as int));
        if largest == i {
            assert(heap_except(items@, start as int, -1));
            return;
        }
        proof {
            lemma_sift_step(items@, start as int, i as int, largest as int);
        }
        let a: Neighbor = items[i];
        let b: Neighbor = items[largest];
        items.set(i, b);
        items.set(largest, a);
        i = largest;
    }
}

/// No child orders after its parent anywhere.
pub open spec fn is_max_heap(items: Seq<Neighbor>) -> bool {
    heap_except(items, 0, -1)
}

/// The root of a heap is a worst item.
proof fn lemma_root_is_worst(items: Seq<Neighbor>, i: int)
    requires
        is_max_heap(items),
        0 <= i < items.len(),
    ensures
        crate::order::numeric_key(items[i].0) <= crate::order::numeric_key(items[0].0),
    decreases i,
{
    if i > 0 {
        let p = (i - 1) / 2;
        lemma_root_is_worst(items, p);
        assert(is_child(p, i));
    }
}

/// Arranges the items as a heap.
fn build_max_heap(items: &mut Vec<Neighbor>)
    requires
        old(items)@.len() * 2 + 2 <= usize::MAX,
        numbers_only(old(items)@),
    ensures
        is_max_heap(final(items)@),
        final(items)@.to_multiset() == old(items)@.to_multiset(),
        final(items)@.len() == old(items)@.len(),
        numbers_only(final(items)@),
        final(items)@ == all_sunk(old(items)@, old(items)@.len() / 2),
{
    let n: usize = items.len();
    let mut i: usize = n / 2;
    while i > 0
        invariant
            n == items@.len(),
            n == old(items)@.len(),
            n * 2 + 2 <= usize::MAX,
            i <= n / 2,
            heap_except(items@, i as int, -1),
            items@.to_multiset() == old(items)@.to_multiset(),
            numbers_only(items@),
            all_sunk(items@, i as nat) == all_sunk(old(items)@, old(items)@.len() / 2),
        decreases i,
    {
        i = i - 1;
        sift_down(items, i);
    }
}

/// Keeps the `k` nearest of the neighbors pushed into it, optionally only
/// those within a largest distance.
#[derive(Debug, Clone)]
pub struct TopKHeap {
    k: usize,
    limited: bool,
    limit: u32,
    data: Vec<Neighbor>,
}

impl TopKHeap {
    pub closed spec fn spec_k(self) -> usize {
        self.k
    }

    /// The items as they are stored.
    pub closed spec fn items(self) -> Seq<Neighbor> {
        self.data@
    }

    /// The largest distance that the collection admits, if it has one.
    pub closed spec fn max_distance(self) -> Option<u32> {
        if self.limited {
            Some(self.limit)
        } else {
            None
        }
    }

    /// What the collection holds.
    pub open spec fn contents(self) -> Multiset<Neighbor> {
        self.items().to_multiset()
    }

    /// At most `k` numbers, heap-ordered once there are `k` of them.
    pub closed spec fn well_formed(self) -> bool {
        &&& self.k * 2 + 2 <= usize::MAX
        &&& self.data@.len() <= self.k
        &&& numbers_only(self.data@)
        &&& self.data@.len() == self.k ==> is_max_heap(self.data@)
    }

    /// Whether a neighbor at this distance would enter the collection.
    pub open spec fn admits(self, distance: u32) -> bool {
        &&& self.spec_k() > 0
        &&& self.max_distance() matches Some(limit) ==> !crate::order::less(limit, distance)
        &&& self.items().len() < self.spec_k() || forall|worst: Neighbor| #[trigger]
            is_worst(self.contents(), worst) ==> crate::order::less(distance, worst.0)
    }

    pub proof fn lemma_facts(self)
        requires
            self.well_formed(),
        ensures
            self.items().len() <= self.spec_k(),
            self.contents().len() == self.items().len(),
            all_numbers(self.contents()),
    {
        broadcast use vstd::seq_lib::group_to_multiset_ensures;

        assert forall|x: Neighbor| #[trigger] self.contents().contains(x) implies
            !crate::order::is_nan(x.0) by {
            assert(self.data@.contains(x));
        }
    }

    pub fn new(k: usize) -> (heap: Self)
        requires
            k * 2 + 2 <= usize::MAX,
        ensures
            heap.well_formed(),
            heap.spec_k() == k,
            heap.items() == Seq::<Neighbor>::empty(),
            heap.max_distance() is None,
    {
        Self { k, limited: false, limit: 0, data: Vec::new() }
    }

    /// A collection that drops every neighbor farther than `limit`.
    pub fn with_max_distance(k: usize, limit: u32) -> (heap: Self)
        requires
            k * 2 + 2 <= usize::MAX,
        ensures
            heap.well_formed(),
            heap.spec_k() == k,
            heap.items() == Seq::<Neighbor>::empty(),
            heap.max_distance() == Some(limit),
    {
        Self { k, limited: true, limit, data: Vec::new() }
    }

    pub fn len(&self) -> (n: usize)
        ensures
            n == self.items().len(),
    {
        self.data.len()
    }

    /// The distance that a new neighbor has to beat, once `k` are held.
    pub fn worst_distance(&self) -> (distance: Option<u32>)
        requires
            self.well_formed(),
        ensures
            distance is Some == (self.spec_k() > 0 && self.items().len() == self.spec_k()),
            distance matches Some(worst) ==> exists|item: Neighbor| #[trigger]
                is_worst(self.contents(), item) && item.0 == worst,
            distance matches Some(worst) ==> worst == self.items()[0].0,
    {
        if self.k > 0 && self.data.len() == self.k {
            proof {
                self.lemma_full();
            }
            Some(self.data[0].0)
        } else {
            None
        }
    }

    /// The root of a full collection is a worst item.
    proof fn lemma_full(self)
        requires
            self.well_formed(),
            self.k > 0,
            self.data@.len() == self.k,
        ensures
            is_worst(self.contents(), self.data@[0]),
    {
        broadcast use vstd::seq_lib::group_to_multiset_ensures;

        assert(self.data@.contains(self.data@[0]));
        assert forall|x: Neighbor| #[trigger] self.contents().contains(x) implies
            crate::order::numeric_key(x.0) <= crate::order::numeric_key(self.data@[0].0) by {
            assert(self.data@.contains(x));
            let i = choose|i: int| 0 <= i < self.data@.len() && self.data@[i] == x;
            lemma_root_is_worst(self.data@, i);
        }
    }

    /// Whether pushing a neighbor at this distance would change the collection.
    pub fn should_consider(&self, distance: u32) -> (consider: bool)
        requires
            self.well_formed(),
        ensures
            consider == self.admits(distance),
    {
        if self.k == 0 {
            return false;
        }
        if self.limited && float_less(self.limit, distance) {
            return false;
        }
        if self.data.len() < self.k {
            return true;
        }
        proof {
            self.lemma_full();
            assert forall|worst: Neighbor| #[trigger] is_worst(self.contents(), worst) implies
                crate::order::numeric_key(worst.0) == crate::order::numeric_key(self.data@[0].0)
                && !crate::order::is_nan(worst.0) by {
                self.lemma_facts();
                assert(self.contents().contains(worst));
                assert(self.contents().contains(self.data@[0]));
            }
        }
        float_less(distance, self.data[0].0)
    }

    /// Offers a neighbor. A full collection gives up the first of its items for
    /// it, which is a worst one.
    pub fn push(&mut self, distance: u32, id: i64)
        requires
            old(self).well_formed(),
            crate::order::is_nan(distance) ==> old(self).items().len() == old(self).spec_k(),
        ensures
            final(self).well_formed(),
            final(self).spec_k() == old(self).spec_k(),
            final(self).max_distance() == old(self).max_distance(),
            crate::order::is_nan(distance) ==> final(self).items() == old(self).items(),
            old(self).max_distance() matches Some(limit) && crate::order::less(limit, distance)
                ==> final(self).items() == old(self).items(),
            !(old(self).max_distance() matches Some(limit) && crate::order::less(limit, distance))
                ==> offered(
                old(self).contents(),
                final(self).contents(),
                old(self).spec_k() as nat,
                (distance, id),
            ),
            !old(self).admits(distance) ==> final(self).items() == old(self).items(),
            !(old(self).max_distance() matches Some(limit) && crate::order::less(limit, distance))
                ==> final(self).items() == pushed(
                old(self).items(),
                old(self).spec_k() as nat,
                (distance, id),
            ),
    {
        broadcast use vstd::seq_lib::group_to_multiset_ensures;

        reveal(pushed);
        if !self.should_consider(distance) {
            proof {
                if self.k > 0 && self.data@.len() == self.k {
                    self.lemma_full();
                    if !(self.max_distance() matches Some(limit) && crate::order::less(
                        limit,
                        distance,
                    )) {
                        let beaten = choose|worst: Neighbor| #[trigger]
                            is_worst(self.contents(), worst) && !crate::order::less(
                                distance,
                                worst.0,
                            );
                        assert(is_worst(self.contents(), beaten));
                    }
                }
            }
            return;
        }
        if self.data.len() < self.k {
            self.data.push((distance, id));
            if self.data.len() == self.k {
                build_max_heap(&mut self.data);
            }
        } else {
            let ghost before = self.data@;
            proof {
                self.lemma_full();
                assert(crate::order::less(distance, self.data@[0].0));
            }
            self.data.set(0, (distance, id));
            proof {
                vstd::seq_lib::to_multiset_update(before, 0, (distance, id));
                assert(before.contains(before[0]));
                assert(before.to_multiset().insert((distance, id)).remove(before[0])
                    =~= before.to_multiset().remove(before[0]).insert((distance, id)));
            }
            sift_down(&mut self.data, 0);
            assert(is_worst(before.to_multiset(), before[0]));
        }
    }

    /// The held neighbors by ascending distance.
    pub fn into_sorted(self) -> (sorted: Vec<Neighbor>)
        requires
            self.well_formed(),
        ensures
            stably_sorted(self.items(), sorted@),
            sorted@.to_multiset() == self.contents(),
            sorted@.len() == self.items().len(),
            sorted@.len() <= self.spec_k(),
            ascending(sorted@),
    {
        let sorted = sort_neighbors(&self.data);
        proof {
            lemma_stably_sorted(self.data@, sorted@);
        }
        sorted
    }
}

/// Whatever the first collection refuses, the second refuses too.
pub open spec fn only_tightens(before: TopKHeap, after: TopKHeap) -> bool {
    forall|distance: u32| #[trigger] after.admits(distance) ==> before.admits(distance)
}

/// Pushing never loosens a collection: a distance that it refused stays
/// refused.
pub proof fn law_pushing_only_tightens(before: TopKHeap, after: TopKHeap, item: Neighbor)
    requires
        before.well_formed(),
        after.well_formed(),
        after.spec_k() == before.spec_k(),
        after.max_distance() == before.max_distance(),
        after.contents() == before.contents() || offered(
            before.contents(),
            after.contents(),
            before.spec_k() as nat,
            item,
        ),
    ensures
        only_tightens(before, after),
{
    before.lemma_facts();
    after.lemma_facts();
    assert forall|distance: u32| #[trigger] after.admits(distance) implies before.admits(
        distance,
    ) by {
        let k = before.spec_k() as nat;
        if before.contents().len() == k && k > 0 {
            if after.contents() != before.contents() {
                let worst = choose|worst: Neighbor| #[trigger]
                    is_worst(before.contents(), worst) && after.contents() == (
                    if crate::order::less(item.0, worst.0) {
                        before.contents().remove(worst).insert(item)
                    } else {
                        before.contents()
                    });
                assert(after.contents() == before.contents().remove(worst).insert(item));
                assert(after.contents().len() == k);
                lemma_worst_exists(after.contents());
                let last = choose|w: Neighbor| #[trigger] is_worst(after.contents(), w);
                assert(crate::order::less(distance, last.0));
                assert(after.contents().contains(last));
                if last != item {
                    assert(before.contents().contains(last));
                }
                assert forall|w: Neighbor| #[trigger] is_worst(before.contents(), w) implies
                    crate::order::less(distance, w.0) by {
                    assert(before.contents().contains(w));
                    assert(before.contents().contains(worst));
                }
            }
        }
    }
}

/// A collection that is not empty has a worst item.
pub proof fn lemma_worst_exists(items: Multiset<Neighbor>)
    requires
        items.len() > 0,
    ensures
        exists|w: Neighbor| #[trigger] is_worst(items, w),
    decreases items.len(),
{
    let some = items.choose();
    assert(items.contains(some));
    let rest = items.remove(some);
    if rest.len() == 0 {
        assert forall|x: Neighbor| #[trigger] items.contains(x) implies crate::order::numeric_key(
            x.0,
        ) <= crate::order::numeric_key(some.0) by {
            if x != some {
                assert(rest.contains(x));
                assert(rest.remove(x).len() == rest.len() - 1);
            }
        }
        assert(is_worst(items, some));
    } else {
        lemma_worst_exists(rest);
        let w = choose|w: Neighbor| #[trigger] is_worst(rest, w);
        assert(rest.contains(w));
        let top = if crate::order::numeric_key(w.0) >= crate::order::numeric_key(some.0) {
            w
        } else {
            some
        };
        assert forall|x: Neighbor| #[trigger] items.contains(x) implies crate::order::numeric_key(
            x.0,
        ) <= crate::order::numeric_key(top.0) by {
            if x != some {
                assert(rest.contains(x));
            }
        }
        assert(items.contains(top));
        assert(is_worst(items, top));
    }
}

} // verus!
