//! Scans that skip rows by a bound on their distance.
use crate::filter::{is_row_allowed, RowIdFilter};
use crate::order::float_is_nan;
use crate::topk::{Neighbor, TopKHeap};
use vstd::multiset::Multiset;
use vstd::prelude::*;

verus! {

/// The item is a number within the collection's largest distance.
pub open spec fn worth_offering(limit: Option<u32>, item: Neighbor) -> bool {
    &&& !crate::order::is_nan(item.0)
    &&& limit matches Some(most) ==> !crate::order::less(most, item.0)
}

/// The items that are worth offering.
pub open spec fn worthy(limit: Option<u32>, items: Seq<Neighbor>) -> Seq<Neighbor>
    decreases items.len(),
{
    if items.len() == 0 {
        Seq::empty()
    } else {
        let before = worthy(limit, items.drop_last());
        if worth_offering(limit, items.last()) {
            before.push(items.last())
        } else {
            before
        }
    }
}

/// The heap was offered `items` and keeps the nearest of what it has seen.
pub open spec fn absorbs(before: TopKHeap, after: TopKHeap, items: Seq<Neighbor>) -> bool {
    &&& after.well_formed()
    &&& after.spec_k() == before.spec_k()
    &&& after.max_distance() == before.max_distance()
    &&& crate::topk::only_tightens(before, after)
    &&& forall|seen: Multiset<Neighbor>| #[trigger]
        crate::topk::nearest_of(seen, before.contents(), before.spec_k() as nat)
            ==> crate::topk::nearest_of(
            seen.add(worthy(before.max_distance(), items).to_multiset()),
            after.contents(),
            before.spec_k() as nat,
        )
}

pub proof fn lemma_absorbs_nothing(heap: TopKHeap)
    requires
        heap.well_formed(),
    ensures
        absorbs(heap, heap, Seq::empty()),
{
    let none = Seq::<Neighbor>::empty().to_multiset();
    Seq::<Neighbor>::empty().to_multiset_ensures();
    assert(none =~= Multiset::empty());
    assert forall|seen: Multiset<Neighbor>| #[trigger]
        crate::topk::nearest_of(seen, heap.contents(), heap.spec_k() as nat) implies
        crate::topk::nearest_of(
        seen.add(worthy(heap.max_distance(), Seq::empty()).to_multiset()),
        heap.contents(),
        heap.spec_k() as nat,
    ) by {
        assert(seen.add(none) =~= seen);
    }
}

/// Offering one more item after others.
pub proof fn lemma_absorbs_push(
    first: TopKHeap,
    second: TopKHeap,
    third: TopKHeap,
    items: Seq<Neighbor>,
    item: Neighbor,
)
    requires
        absorbs(first, second, items),
        absorbs(second, third, seq![item]),
    ensures
        absorbs(first, third, items.push(item)),
{
    let limit = first.max_distance();
    assert(items.push(item).drop_last() =~= items);
    assert(seq![item].drop_last() =~= Seq::<Neighbor>::empty());
    let done = worthy(limit, items);
    let one = worthy(limit, seq![item]);
    let all = worthy(limit, items.push(item));
    assert(worthy(limit, Seq::<Neighbor>::empty()) =~= Seq::<Neighbor>::empty());
    done.to_multiset_ensures();
    Seq::<Neighbor>::empty().to_multiset_ensures();
    assert(Seq::<Neighbor>::empty().to_multiset() =~= Multiset::empty());
    assert(one =~= (if worth_offering(limit, item) {
        Seq::<Neighbor>::empty().push(item)
    } else {
        Seq::empty()
    }));
    assert(all.to_multiset() =~= done.to_multiset().add(one.to_multiset()));
    assert forall|seen: Multiset<Neighbor>| #[trigger]
        crate::topk::nearest_of(seen, first.contents(), first.spec_k() as nat) implies
        crate::topk::nearest_of(
        seen.add(all.to_multiset()),
        third.contents(),
        first.spec_k() as nat,
    ) by {
        let mid = seen.add(done.to_multiset());
        assert(crate::topk::nearest_of(mid, second.contents(), second.spec_k() as nat));
        assert(mid.add(one.to_multiset()) =~= seen.add(all.to_multiset()));
    }
}

/// The collection after an item was offered: it is pushed if it is worth it.
pub open spec fn is_offer(before: TopKHeap, after: TopKHeap, item: Neighbor) -> bool {
    &&& after.spec_k() == before.spec_k()
    &&& after.max_distance() == before.max_distance()
    &&& after.items() == (if worth_offering(before.max_distance(), item) {
        crate::topk::pushed(before.items(), before.spec_k() as nat, item)
    } else {
        before.items()
    })
}

/// Offers a row; a distance that is not a number is dropped. Tells whether the
/// row entered the collection.
pub fn offer_one(heap: &mut TopKHeap, distance: u32, id: i64) -> (admitted: bool)
    requires
        old(heap).well_formed(),
    ensures
        absorbs(*old(heap), *final(heap), seq![(distance, id)]),
        is_offer(*old(heap), *final(heap), (distance, id)),
        admitted == (!crate::order::is_nan(distance) && old(heap).admits(distance)),
{
    let ghost before = *heap;
    let ghost item = (distance, id);
    proof {
        assert(seq![item].drop_last() =~= Seq::<Neighbor>::empty());
        Seq::<Neighbor>::empty().to_multiset_ensures();
        assert(Seq::<Neighbor>::empty().to_multiset() =~= Multiset::empty());
    }
    if float_is_nan(distance) {
        proof {
            lemma_absorbs_nothing(before);
            assert(worthy(before.max_distance(), seq![item]) =~= worthy(
                before.max_distance(),
                Seq::<Neighbor>::empty(),
            ));
        }
        return false;
    }
    let admitted: bool = heap.should_consider(distance);
    heap.push(distance, id);
    proof {
        let limit = before.max_distance();
        let k = before.spec_k() as nat;
        crate::topk::law_pushing_only_tightens(before, *heap, item);
        before.lemma_facts();
        let one = worthy(limit, seq![item]);
        assert(worthy(limit, Seq::<Neighbor>::empty()) =~= Seq::<Neighbor>::empty());
        assert(seq![item].drop_last() =~= Seq::<Neighbor>::empty());
        assert(one =~= (if worth_offering(limit, item) {
            Seq::<Neighbor>::empty().push(item)
        } else {
            Seq::empty()
        }));
        assert forall|seen: Multiset<Neighbor>| #[trigger]
            crate::topk::nearest_of(seen, before.contents(), k) implies crate::topk::nearest_of(
            seen.add(one.to_multiset()),
            heap.contents(),
            k,
        ) by {
            if worth_offering(limit, item) {
                crate::topk::law_offering_keeps_the_nearest(
                    seen,
                    before.contents(),
                    heap.contents(),
                    k,
                    item,
                );
                assert(seen.insert(item) =~= seen.add(one.to_multiset()));
            } else {
                assert(seen.add(one.to_multiset()) =~= seen);
            }
        }
    }
    admitted
}

/// Distances of the taken rows, with their ids.
pub open spec fn taken_items(ids: Seq<i64>, taken: Seq<usize>, distances: Seq<u32>) -> Seq<
    Neighbor,
> {
    Seq::new(taken.len(), |i: int| (distances[i], ids[taken[i] as int]))
}

/// What a pruning scan of the first `n` rows does. The rows in `taken` are
/// offered by their distances; every other eligible row has a bound that the
/// collection refuses in the end.
pub open spec fn pruned_scan(
    before: TopKHeap,
    after: TopKHeap,
    ids: Seq<i64>,
    eligible: spec_fn(int) -> bool,
    is_bound: spec_fn(int, u32) -> bool,
    taken: Seq<usize>,
    distances: Seq<u32>,
    n: nat,
) -> bool {
    &&& distances.len() == taken.len()
    &&& forall|i: int, j: int|
        0 <= i < j < taken.len() ==> #[trigger] taken[i] < #[trigger] taken[j]
    &&& forall|i: int| 0 <= i < taken.len() ==> #[trigger] taken[i] < n && eligible(taken[i] as int)
    &&& absorbs(before, after, taken_items(ids, taken, distances))
    &&& forall|p: int|
        0 <= p < n && #[trigger] eligible(p) && !taken.contains(p as usize) ==> skipped(
            after,
            is_bound,
            p,
        )
}

/// The collection admits a bound of the row.
pub open spec fn let_in(heap: TopKHeap, is_bound: spec_fn(int, u32) -> bool, row: int) -> bool {
    exists|bound: u32| #[trigger] is_bound(row, bound) && heap.admits(bound)
}

/// `moments` are the states of the collection before each of the first `n` rows
/// and after all of them: it changes with the offers of the taken rows, and with
/// nothing else.
pub open spec fn moments_of(
    before: TopKHeap,
    after: TopKHeap,
    ids: Seq<i64>,
    taken: Seq<usize>,
    distances: Seq<u32>,
    moments: Seq<TopKHeap>,
    n: nat,
) -> bool {
    &&& moments.len() == n + 1
    &&& moments[0] == before
    &&& moments[n as int] == after
    &&& forall|p: int|
        0 <= p < n && !(#[trigger] taken.contains(p as usize)) ==> moments[p + 1] == moments[p]
    &&& forall|i: int|
        0 <= i < taken.len() ==> (#[trigger] taken[i]) < n && is_offer(
            moments[taken[i] as int],
            moments[taken[i] + 1],
            (distances[i], ids[taken[i] as int]),
        )
}

/// A scan row by row: a row is taken exactly if it is eligible and the
/// collection admits its bound at that moment, or if rows have no bounds.
pub open spec fn row_by_row(
    before: TopKHeap,
    after: TopKHeap,
    ids: Seq<i64>,
    eligible: spec_fn(int) -> bool,
    is_bound: spec_fn(int, u32) -> bool,
    bounded: bool,
    taken: Seq<usize>,
    distances: Seq<u32>,
    moments: Seq<TopKHeap>,
    n: nat,
) -> bool {
    &&& moments_of(before, after, ids, taken, distances, moments, n)
    &&& forall|p: int|
        0 <= p < n && #[trigger] taken.contains(p as usize) ==> eligible(p) && (!bounded || let_in(
            moments[p],
            is_bound,
            p,
        ))
    &&& forall|p: int|
        0 <= p < n && eligible(p) && !(#[trigger] taken.contains(p as usize)) ==> bounded
            && skipped(moments[p], is_bound, p)
}

/// A scan row by row, where the bounds that it was given are bounds of another
/// kind too.
pub proof fn lemma_row_by_row_widens(
    before: TopKHeap,
    after: TopKHeap,
    ids: Seq<i64>,
    eligible: spec_fn(int) -> bool,
    given: spec_fn(int, u32) -> bool,
    is_bound: spec_fn(int, u32) -> bool,
    bounded: bool,
    taken: Seq<usize>,
    distances: Seq<u32>,
    moments: Seq<TopKHeap>,
    n: nat,
)
    requires
        row_by_row(before, after, ids, eligible, given, bounded, taken, distances, moments, n),
        forall|p: int, bound: u32|
            0 <= p < n && #[trigger] given(p, bound) ==> is_bound(p, bound),
    ensures
        row_by_row(before, after, ids, eligible, is_bound, bounded, taken, distances, moments, n),
{
    assert forall|p: int| 0 <= p < n && #[trigger] taken.contains(p as usize) implies eligible(p)
        && (!bounded || let_in(moments[p], is_bound, p)) by {
        if bounded {
            assert(let_in(moments[p], given, p));
            let bound = choose|bound: u32| #[trigger]
                given(p, bound) && moments[p].admits(bound);
            assert(is_bound(p, bound));
        }
    }
    assert forall|p: int| 0 <= p < n && eligible(p) && !(#[trigger] taken.contains(
        p as usize,
    )) implies bounded && skipped(moments[p], is_bound, p) by {
        assert(skipped(moments[p], given, p));
        let bound = choose|bound: u32| #[trigger] given(p, bound) && !moments[p].admits(bound);
        assert(is_bound(p, bound));
    }
}

/// One more row that changes nothing.
pub proof fn lemma_moment_passes(
    before: TopKHeap,
    now: TopKHeap,
    ids: Seq<i64>,
    taken: Seq<usize>,
    distances: Seq<u32>,
    moments: Seq<TopKHeap>,
    n: nat,
)
    requires
        moments_of(before, now, ids, taken, distances, moments, n),
    ensures
        moments_of(before, now, ids, taken, distances, moments.push(now), n + 1),
{
}

/// One more row that is taken.
pub proof fn lemma_moment_offers(
    before: TopKHeap,
    now: TopKHeap,
    after: TopKHeap,
    ids: Seq<i64>,
    taken: Seq<usize>,
    distances: Seq<u32>,
    moments: Seq<TopKHeap>,
    n: nat,
    distance: u32,
)
    requires
        n < usize::MAX,
        distances.len() == taken.len(),
        moments_of(before, now, ids, taken, distances, moments, n),
        is_offer(now, after, (distance, ids[n as int])),
    ensures
        moments_of(
            before,
            after,
            ids,
            taken.push(n as usize),
            distances.push(distance),
            moments.push(after),
            n + 1,
        ),
        forall|p: int|
            0 <= p < n ==> #[trigger] taken.push(n as usize).contains(p as usize)
                == taken.contains(p as usize),
        taken.push(n as usize).contains(n as usize),
{
    let more = taken.push(n as usize);
    let later = moments.push(after);
    assert(more[taken.len() as int] == n as usize);
    assert forall|p: int| 0 <= p < n implies #[trigger] more.contains(p as usize)
        == taken.contains(p as usize) by {
        if more.contains(p as usize) {
            let i = choose|i: int| 0 <= i < more.len() && more[i] == p as usize;
            assert(taken[i] == p as usize);
        }
        if taken.contains(p as usize) {
            let i = choose|i: int| 0 <= i < taken.len() && taken[i] == p as usize;
            assert(more[i] == p as usize);
        }
    }
    assert forall|p: int| 0 <= p < n + 1 && !(#[trigger] more.contains(p as usize)) implies later[p
        + 1] == later[p] by {
        if p < n {
            assert(!taken.contains(p as usize));
        }
    }
    assert forall|i: int| 0 <= i < more.len() implies (#[trigger] more[i]) < n + 1 && is_offer(
        later[more[i] as int],
        later[more[i] + 1],
        (distances.push(distance)[i], ids[more[i] as int]),
    ) by {
        if i < taken.len() {
            assert(taken[i] < n);
        }
    }
}

/// The collection refuses a bound of the row.
pub open spec fn skipped(heap: TopKHeap, is_bound: spec_fn(int, u32) -> bool, row: int) -> bool {
    exists|bound: u32| #[trigger] is_bound(row, bound) && !heap.admits(bound)
}

pub proof fn lemma_skipped_stays(
    before: TopKHeap,
    after: TopKHeap,
    is_bound: spec_fn(int, u32) -> bool,
    row: int,
)
    requires
        skipped(before, is_bound, row),
        crate::topk::only_tightens(before, after),
    ensures
        skipped(after, is_bound, row),
{
    let bound = choose|bound: u32| #[trigger] is_bound(row, bound) && !before.admits(bound);
    assert(is_bound(row, bound) && !after.admits(bound));
}

/// The scan went one row further and took it.
pub proof fn lemma_scan_takes(
    before: TopKHeap,
    now: TopKHeap,
    after: TopKHeap,
    ids: Seq<i64>,
    eligible: spec_fn(int) -> bool,
    is_bound: spec_fn(int, u32) -> bool,
    taken: Seq<usize>,
    distances: Seq<u32>,
    n: nat,
    distance: u32,
)
    requires
        n < usize::MAX,
        n < ids.len(),
        pruned_scan(before, now, ids, eligible, is_bound, taken, distances, n),
        eligible(n as int),
        absorbs(now, after, seq![(distance, ids[n as int])]),
    ensures
        pruned_scan(
            before,
            after,
            ids,
            eligible,
            is_bound,
            taken.push(n as usize),
            distances.push(distance),
            n + 1,
        ),
{
    let more = taken.push(n as usize);
    let dist = distances.push(distance);
    lemma_absorbs_push(
        before,
        now,
        after,
        taken_items(ids, taken, distances),
        (distance, ids[n as int]),
    );
    assert(taken_items(ids, more, dist) =~= taken_items(ids, taken, distances).push(
        (distance, ids[n as int]),
    ));
    assert forall|p: int| 0 <= p < n + 1 && #[trigger] eligible(p) && !more.contains(
        p as usize,
    ) implies skipped(after, is_bound, p) by {
        if p == n {
            assert(more[taken.len() as int] == n as usize);
        } else {
            if taken.contains(p as usize) {
                let i = choose|i: int| 0 <= i < taken.len() && taken[i] == p as usize;
                assert(more[i] == p as usize);
            }
            lemma_skipped_stays(now, after, is_bound, p);
        }
    }
}

/// The scan went one row further without taking it.
pub proof fn lemma_scan_skips(
    before: TopKHeap,
    now: TopKHeap,
    ids: Seq<i64>,
    eligible: spec_fn(int) -> bool,
    is_bound: spec_fn(int, u32) -> bool,
    taken: Seq<usize>,
    distances: Seq<u32>,
    n: nat,
)
    requires
        pruned_scan(before, now, ids, eligible, is_bound, taken, distances, n),
        eligible(n as int) ==> skipped(now, is_bound, n as int),
    ensures
        pruned_scan(before, now, ids, eligible, is_bound, taken, distances, n + 1),
{
    assert forall|p: int| 0 <= p < n + 1 && #[trigger] eligible(p) && !taken.contains(
        p as usize,
    ) implies skipped(now, is_bound, p) by {
        if p < n {
            assert(eligible(p));
        }
    }
}

/// The rows that pass the filter.
pub open spec fn eligible_rows<F: RowIdFilter>(ids: Seq<i64>, filter: Option<&F>) -> spec_fn(
    int,
) -> bool {
    |p: int| crate::filter::row_allowed(filter, ids[p])
}

/// Bounds that a function of query, place and row computes, where rows are
/// bounded at all.
pub open spec fn computed_bounds<B: Fn(usize, usize, usize) -> u32>(
    bound_of: B,
    bounded: bool,
    query: usize,
    place: usize,
) -> spec_fn(int, u32) -> bool {
    |p: int, bound: u32| bounded && call_ensures(bound_of, (query, place, p as usize), bound)
}

/// Scans a list row by row. A row that passes the filter is taken if the
/// collection admits its bound at that moment; its distance is computed only
/// then. Without bounds every such row is taken.
pub fn scan_with_bounds<
    F: RowIdFilter,
    B: Fn(usize, usize, usize) -> u32,
    E: Fn(usize, usize, usize) -> u32,
>(
    query: usize,
    place: usize,
    ids: &[i64],
    filter: Option<&F>,
    bounded: bool,
    bound_of: &B,
    distance_of: &E,
    heap: &mut TopKHeap,
)
    requires
        old(heap).well_formed(),
        forall|p: usize| p < ids@.len() ==> call_requires(bound_of, (query, place, p)),
        forall|p: usize| p < ids@.len() ==> call_requires(distance_of, (query, place, p)),
    ensures
        final(heap).well_formed(),
        exists|taken: Seq<usize>, distances: Seq<u32>| #[trigger]
            pruned_scan(
                *old(heap),
                *final(heap),
                ids@,
                eligible_rows(ids@, filter),
                computed_bounds(*bound_of, bounded, query, place),
                taken,
                distances,
                ids@.len(),
            ) && crate::ivfrq_search::measured(*distance_of, query, place, taken, distances)
                && exists|moments: Seq<TopKHeap>| #[trigger]
                row_by_row(
                    *old(heap),
                    *final(heap),
                    ids@,
                    eligible_rows(ids@, filter),
                    computed_bounds(*bound_of, bounded, query, place),
                    bounded,
                    taken,
                    distances,
                    moments,
                    ids@.len(),
                ),
{
    let ghost start = *heap;
    let ghost eligible = eligible_rows(ids@, filter);
    let ghost is_bound = computed_bounds(*bound_of, bounded, query, place);
    let ghost mut taken: Seq<usize> = Seq::empty();
    let ghost mut distances: Seq<u32> = Seq::empty();
    let ghost mut moments: Seq<TopKHeap> = seq![*heap];
    proof {
        lemma_absorbs_nothing(start);
        assert(taken_items(ids@, taken, distances) =~= Seq::<Neighbor>::empty());
    }
    let n: usize = ids.len();
    let mut p: usize = 0;
    while p < n
        invariant
            p <= n,
            n == ids@.len(),
            eligible == eligible_rows(ids@, filter),
            is_bound == computed_bounds(*bound_of, bounded, query, place),
            forall|i: usize| i < ids@.len() ==> call_requires(bound_of, (query, place, i)),
            forall|i: usize| i < ids@.len() ==> call_requires(distance_of, (query, place, i)),
            heap.well_formed(),
            pruned_scan(start, *heap, ids@, eligible, is_bound, taken, distances, p as nat),
            crate::ivfrq_search::measured(*distance_of, query, place, taken, distances),
            row_by_row(
                start,
                *heap,
                ids@,
                eligible,
                is_bound,
                bounded,
                taken,
                distances,
                moments,
                p as nat,
            ),
        decreases n - p,
    {
        let mut skip: bool = !is_row_allowed(filter, ids[p]);
        if !skip && bounded {
            let bound: u32 = bound_of(query, place, p);
            assert(is_bound(p as int, bound));
            if !heap.should_consider(bound) {
                proof {
                    assert(is_bound(p as int, bound));
                    assert(skipped(*heap, is_bound, p as int));
                }
                skip = true;
            }
        }
        if skip {
            proof {
                lemma_scan_skips(
                    start,
                    *heap,
                    ids@,
                    eligible,
                    is_bound,
                    taken,
                    distances,
                    p as nat,
                );
                lemma_moment_passes(start, *heap, ids@, taken, distances, moments, p as nat);
                moments = moments.push(*heap);
                assert(!taken.contains(p)) by {
                    if taken.contains(p) {
                        let i = choose|i: int| 0 <= i < taken.len() && taken[i] == p;
                        assert(taken[i] < p);
                    }
                }
            }
        } else {
            let ghost now = *heap;
            let distance: u32 = distance_of(query, place, p);
            offer_one(heap, distance, ids[p]);
            proof {
                lemma_scan_takes(
                    start,
                    now,
                    *heap,
                    ids@,
                    eligible,
                    is_bound,
                    taken,
                    distances,
                    p as nat,
                    distance,
                );
                lemma_moment_offers(
                    start,
                    now,
                    *heap,
                    ids@,
                    taken,
                    distances,
                    moments,
                    p as nat,
                    distance,
                );
                moments = moments.push(*heap);
                taken = taken.push(p);
                distances = distances.push(distance);
            }
        }
        p = p + 1;
    }
}

/// A full collection that refuses a number keeps only items as near as it.
pub proof fn lemma_refused_is_far(heap: TopKHeap, bound: u32, x: Neighbor)
    requires
        heap.well_formed(),
        heap.max_distance() is None,
        !heap.admits(bound),
        !crate::order::is_nan(bound),
        heap.contents().contains(x),
    ensures
        heap.contents().len() == heap.spec_k(),
        crate::order::numeric_key(x.0) <= crate::order::numeric_key(bound),
{
    heap.lemma_facts();
    assert(heap.contents().len() > 0);
    let worst = choose|worst: Neighbor| #[trigger]
        crate::topk::is_worst(heap.contents(), worst) && !crate::order::less(bound, worst.0);
    assert(heap.contents().contains(worst));
}

/// One more item that is no nearer than anything kept changes nothing.
pub proof fn lemma_far_item(
    seen: Multiset<Neighbor>,
    kept: Multiset<Neighbor>,
    k: nat,
    item: Neighbor,
)
    requires
        crate::topk::nearest_of(seen, kept, k),
        kept.len() == k,
        forall|x: Neighbor| #[trigger]
            kept.contains(x) ==> crate::order::numeric_key(x.0) <= crate::order::numeric_key(
                item.0,
            ),
    ensures
        crate::topk::nearest_of(seen.insert(item), kept, k),
{
    let all = seen.insert(item);
    assert forall|v: Neighbor| kept.count(v) <= all.count(v) by {
        assert(kept.count(v) <= seen.count(v));
    }
    assert forall|x: Neighbor, y: Neighbor|
        #![trigger kept.contains(x), all.sub(kept).contains(y)]
        kept.contains(x) && all.sub(kept).contains(y) implies crate::order::numeric_key(x.0)
        <= crate::order::numeric_key(y.0) by {
        if y != item {
            assert(seen.sub(kept).contains(y));
        }
    }
}

/// The eligible rows below `n`, by the given distances.
pub open spec fn eligible_items(
    ids: Seq<i64>,
    eligible: spec_fn(int) -> bool,
    distances: Seq<u32>,
    n: nat,
) -> Multiset<Neighbor>
    decreases n,
{
    if n == 0 {
        Multiset::empty()
    } else {
        let before = eligible_items(ids, eligible, distances, (n - 1) as nat);
        if eligible(n - 1) {
            before.insert((distances[n - 1], ids[n - 1]))
        } else {
            before
        }
    }
}

/// The eligible rows below `n` that are not among the first `t` taken rows.
proof fn lemma_untaken_rows_are_far(
    seen: Multiset<Neighbor>,
    heap: TopKHeap,
    ids: Seq<i64>,
    eligible: spec_fn(int) -> bool,
    taken: Seq<usize>,
    t: nat,
    distances: Seq<u32>,
    n: nat,
)
    requires
        n <= usize::MAX,
        t <= taken.len(),
        crate::topk::nearest_of(
            seen.add(taken_items(
                ids,
                taken,
                Seq::new(taken.len(), |i: int| distances[taken[i] as int]),
            ).to_multiset()),
            heap.contents(),
            heap.spec_k() as nat,
        ),
        forall|i: int, j: int|
            0 <= i < j < taken.len() ==> #[trigger] taken[i] < #[trigger] taken[j],
        forall|i: int| 0 <= i < taken.len() ==> eligible(#[trigger] taken[i] as int),
        forall|i: int| 0 <= i < t ==> #[trigger] taken[i] < n,
        forall|i: int| t <= i < taken.len() ==> #[trigger] taken[i] >= n,
        forall|p: int|
            0 <= p < n && #[trigger] eligible(p) && !taken.contains(p as usize)
                ==> heap.contents().len() == heap.spec_k() && forall|x: Neighbor| #[trigger]
                heap.contents().contains(x) ==> crate::order::numeric_key(x.0)
                    <= crate::order::numeric_key(distances[p]),
    ensures
        crate::topk::nearest_of(
            seen.add(
                eligible_items(ids, eligible, distances, n).add(
                    taken_items(
                        ids,
                        taken,
                        Seq::new(taken.len(), |i: int| distances[taken[i] as int]),
                    ).skip(t as int).to_multiset(),
                ),
            ),
            heap.contents(),
            heap.spec_k() as nat,
        ),
    decreases n,
{
    let all = taken_items(
        ids,
        taken,
        Seq::new(taken.len(), |i: int| distances[taken[i] as int]),
    );
    if n == 0 {
        assert(t == 0) by {
            if t > 0 {
                assert(taken[0] < n);
            }
        }
        assert(all.skip(0) =~= all);
        assert(eligible_items(ids, eligible, distances, 0).add(all.to_multiset())
            =~= all.to_multiset());
    } else {
        let m = (n - 1) as nat;
        let rest = all.skip(t as int);
        if t > 0 && taken[t - 1] == m {
            let earlier = (t - 1) as nat;
            assert forall|i: int| 0 <= i < earlier implies #[trigger] taken[i] < m by {
                assert(taken[i] < taken[t - 1]);
            }
            lemma_untaken_rows_are_far(seen, heap, ids, eligible, taken, earlier, distances, m);
            let item = (distances[m as int], ids[m as int]);
            assert(eligible(taken[t - 1] as int));
            let longer = all.skip(earlier as int);
            assert(longer =~= seq![item] + rest);
            vstd::seq_lib::lemma_multiset_commutative(seq![item], rest);
            Seq::<Neighbor>::empty().to_multiset_ensures();
            assert(Seq::<Neighbor>::empty().to_multiset() =~= Multiset::empty());
            assert(seq![item] =~= Seq::<Neighbor>::empty().push(item));
            assert(longer.to_multiset() =~= rest.to_multiset().insert(item));
            assert(eligible_items(ids, eligible, distances, m).add(longer.to_multiset())
                =~= eligible_items(ids, eligible, distances, n).add(rest.to_multiset()));
        } else {
            assert forall|i: int| 0 <= i < t implies #[trigger] taken[i] < m by {
                if i < t - 1 {
                    assert(taken[i] < taken[t - 1]);
                }
            }
            assert forall|i: int| t <= i < taken.len() implies #[trigger] taken[i] >= m by {}
            lemma_untaken_rows_are_far(seen, heap, ids, eligible, taken, t, distances, m);
            if eligible(m as int) {
                assert(!taken.contains(m as usize)) by {
                    if taken.contains(m as usize) {
                        let i = choose|i: int| 0 <= i < taken.len() && taken[i] == m as usize;
                        if i < t {
                            if i < t - 1 {
                                assert(taken[i] < taken[t - 1]);
                                assert(taken[t - 1] < n);
                            }
                        } else {
                            assert(taken[i] >= n);
                        }
                    }
                }
                let item = (distances[m as int], ids[m as int]);
                let so_far = seen.add(
                    eligible_items(ids, eligible, distances, m).add(rest.to_multiset()),
                );
                lemma_far_item(so_far, heap.contents(), heap.spec_k() as nat, item);
                assert(so_far.insert(item) =~= seen.add(
                    eligible_items(ids, eligible, distances, n).add(rest.to_multiset()),
                ));
            }
        }
    }
}

/// Pruning by sound bounds loses nothing: if no bound exceeds the distance of
/// its row, the collection ends up with the nearest of all eligible rows, as
/// if every one of them had been offered.
pub proof fn law_sound_bounds_lose_nothing(
    seen: Multiset<Neighbor>,
    before: TopKHeap,
    after: TopKHeap,
    ids: Seq<i64>,
    eligible: spec_fn(int) -> bool,
    is_bound: spec_fn(int, u32) -> bool,
    taken: Seq<usize>,
    distances: Seq<u32>,
    n: nat,
)
    requires
        n <= usize::MAX,
        before.max_distance() is None,
        crate::topk::nearest_of(seen, before.contents(), before.spec_k() as nat),
        pruned_scan(
            before,
            after,
            ids,
            eligible,
            is_bound,
            taken,
            Seq::new(taken.len(), |i: int| distances[taken[i] as int]),
            n,
        ),
        forall|p: int| 0 <= p < n ==> !crate::order::is_nan(#[trigger] distances[p]),
        forall|p: int, bound: u32|
            0 <= p < n && #[trigger] is_bound(p, bound) ==> !crate::order::is_nan(bound)
                && !crate::order::less(distances[p], bound),
    ensures
        crate::topk::nearest_of(
            seen.add(eligible_items(ids, eligible, distances, n)),
            after.contents(),
            before.spec_k() as nat,
        ),
{
    let dist = Seq::new(taken.len(), |i: int| distances[taken[i] as int]);
    let items = taken_items(ids, taken, dist);
    assert forall|i: int| 0 <= i < items.len() implies worth_offering(None, #[trigger] items[i]) by {
        assert(taken[i] < n);
        assert(!crate::order::is_nan(distances[taken[i] as int]));
    }
    lemma_all_worthy(items);
    assert forall|p: int| 0 <= p < n && #[trigger] eligible(p) && !taken.contains(
        p as usize,
    ) implies after.contents().len() == after.spec_k() && forall|x: Neighbor| #[trigger]
        after.contents().contains(x) ==> crate::order::numeric_key(x.0)
            <= crate::order::numeric_key(distances[p]) by {
        assert(skipped(after, is_bound, p));
        let bound = choose|bound: u32| #[trigger] is_bound(p, bound) && !after.admits(bound);
        after.lemma_facts();
        assert forall|x: Neighbor| #[trigger] after.contents().contains(x) implies
            crate::order::numeric_key(x.0) <= crate::order::numeric_key(distances[p]) by {
            lemma_refused_is_far(after, bound, x);
        }
    }
    lemma_untaken_rows_are_far(
        seen,
        after,
        ids,
        eligible,
        taken,
        taken.len(),
        distances,
        n,
    );
    assert(items.skip(taken.len() as int) =~= Seq::<Neighbor>::empty());
    Seq::<Neighbor>::empty().to_multiset_ensures();
    assert(Seq::<Neighbor>::empty().to_multiset() =~= Multiset::empty());
    assert(eligible_items(ids, eligible, distances, n).add(Multiset::empty()) =~= eligible_items(
        ids,
        eligible,
        distances,
        n,
    ));
}

pub proof fn lemma_all_worthy(items: Seq<Neighbor>)
    requires
        forall|i: int| 0 <= i < items.len() ==> worth_offering(None, #[trigger] items[i]),
    ensures
        worthy(None, items) == items,
    decreases items.len(),
{
    if items.len() > 0 {
        let shorter = items.drop_last();
        assert forall|i: int| 0 <= i < shorter.len() implies worth_offering(
            None,
            #[trigger] shorter[i],
        ) by {
            assert(shorter[i] == items[i]);
        }
        lemma_all_worthy(shorter);
        assert(worth_offering(None, items[items.len() - 1]));
        assert(shorter.push(items.last()) =~= items);
    } else {
        assert(worthy(None, items) =~= items);
    }
}

proof fn lemma_worthy_concat(limit: Option<u32>, a: Seq<Neighbor>, b: Seq<Neighbor>)
    ensures
        worthy(limit, a + b) == worthy(limit, a) + worthy(limit, b),
    decreases b.len(),
{
    if b.len() == 0 {
        assert(a + b =~= a);
        assert(worthy(limit, b) =~= Seq::<Neighbor>::empty());
        assert(worthy(limit, a) + worthy(limit, b) =~= worthy(limit, a));
    } else {
        lemma_worthy_concat(limit, a, b.drop_last());
        assert((a + b).drop_last() =~= a + b.drop_last());
        assert((a + b).last() == b.last());
        assert(worthy(limit, a + b) =~= worthy(limit, a) + worthy(limit, b));
    }
}

/// Offering some items and then others is offering all of them.
pub proof fn lemma_absorbs_both(
    first: TopKHeap,
    second: TopKHeap,
    third: TopKHeap,
    a: Seq<Neighbor>,
    b: Seq<Neighbor>,
)
    requires
        absorbs(first, second, a),
        absorbs(second, third, b),
    ensures
        absorbs(first, third, a + b),
{
    let limit = first.max_distance();
    let wa = worthy(limit, a);
    let wb = worthy(limit, b);
    lemma_worthy_concat(limit, a, b);
    vstd::seq_lib::lemma_multiset_commutative(wa, wb);
    assert forall|seen: Multiset<Neighbor>| #[trigger]
        crate::topk::nearest_of(seen, first.contents(), first.spec_k() as nat) implies
        crate::topk::nearest_of(
        seen.add(worthy(limit, a + b).to_multiset()),
        third.contents(),
        first.spec_k() as nat,
    ) by {
        let mid = seen.add(wa.to_multiset());
        assert(crate::topk::nearest_of(mid, second.contents(), second.spec_k() as nat));
        assert(mid.add(wb.to_multiset()) =~= seen.add((wa + wb).to_multiset()));
    }
}

/// An item that the collection refuses might as well have been offered.
pub proof fn lemma_absorbs_refused(
    before: TopKHeap,
    after: TopKHeap,
    items: Seq<Neighbor>,
    item: Neighbor,
)
    requires
        absorbs(before, after, items),
        before.max_distance() is None,
        crate::order::is_nan(item.0) || !after.admits(item.0),
    ensures
        absorbs(before, after, items.push(item)),
{
    let done = worthy(None, items);
    assert(items.push(item).drop_last() =~= items);
    if crate::order::is_nan(item.0) {
        assert(worthy(None, items.push(item)) =~= done);
    } else {
        assert(worthy(None, items.push(item)) =~= done.push(item));
        done.to_multiset_ensures();
        assert forall|seen: Multiset<Neighbor>| #[trigger]
            crate::topk::nearest_of(seen, before.contents(), before.spec_k() as nat) implies
            crate::topk::nearest_of(
            seen.add(done.push(item).to_multiset()),
            after.contents(),
            before.spec_k() as nat,
        ) by {
            let mid = seen.add(done.to_multiset());
            assert(crate::topk::nearest_of(mid, after.contents(), before.spec_k() as nat));
            after.lemma_facts();
            if before.spec_k() == 0 {
                assert(mid.insert(item) =~= seen.add(done.push(item).to_multiset()));
                assert(after.contents().len() == 0);
                assert(after.contents().subset_of(mid.insert(item)));
                assert forall|x: Neighbor| !after.contents().contains(x) by {
                    if after.contents().contains(x) {
                        assert(after.contents().remove(x).len() == after.contents().len() - 1);
                    }
                }
            } else {
                assert forall|x: Neighbor| #[trigger] after.contents().contains(x) implies
                    crate::order::numeric_key(x.0) <= crate::order::numeric_key(item.0) by {
                    lemma_refused_is_far(after, item.0, x);
                }
                lemma_refused_is_full(after, item.0);
                lemma_far_item(mid, after.contents(), before.spec_k() as nat, item);
                assert(mid.insert(item) =~= seen.add(done.push(item).to_multiset()));
            }
        }
    }
}

/// A collection that refuses a distance is full.
proof fn lemma_refused_is_full(heap: TopKHeap, bound: u32)
    requires
        heap.well_formed(),
        heap.max_distance() is None,
        heap.spec_k() > 0,
        !heap.admits(bound),
    ensures
        heap.contents().len() == heap.spec_k(),
{
    heap.lemma_facts();
}

/// A collection that has seen `k` items as near as `bound` refuses it.
pub proof fn lemma_enough_seen(
    seen: Multiset<Neighbor>,
    heap: TopKHeap,
    near: Multiset<Neighbor>,
    bound: u32,
)
    requires
        heap.well_formed(),
        crate::topk::nearest_of(seen, heap.contents(), heap.spec_k() as nat),
        near.subset_of(seen),
        near.len() == heap.spec_k(),
        forall|x: Neighbor| #[trigger] near.contains(x) ==> !crate::order::less(bound, x.0),
        crate::topk::all_numbers(near),
    ensures
        !heap.admits(bound),
{
    let kept = heap.contents();
    let k = heap.spec_k() as nat;
    heap.lemma_facts();
    if k > 0 && heap.admits(bound) {
        assert(seen.len() >= near.len()) by {
            assert(seen.sub(near).len() == seen.len() - near.len());
        }
        assert(kept.len() == k);
        crate::topk::lemma_worst_exists(kept);
        let worst = choose|w: Neighbor| #[trigger] crate::topk::is_worst(kept, w);
        assert(crate::order::less(bound, worst.0));
        assert(kept.contains(worst));
        if exists|z: Neighbor| kept.count(z) < near.count(z) {
            let z = choose|z: Neighbor| kept.count(z) < near.count(z);
            assert(near.count(z) <= seen.count(z));
            assert(seen.sub(kept).contains(z));
            assert(near.contains(z));
            assert(crate::order::numeric_key(worst.0) <= crate::order::numeric_key(z.0));
        } else {
            assert(near.subset_of(kept));
            assert(kept.sub(near).len() == 0);
            assert(near.contains(worst)) by {
                if !near.contains(worst) {
                    assert(kept.sub(near).count(worst) > 0);
                    assert(kept.sub(near).contains(worst));
                    assert(kept.sub(near).remove(worst).len() == kept.sub(near).len() - 1);
                }
            }
        }
    }
}

/// Items that stand at different places of another sequence are among its
/// items.
pub proof fn lemma_placed_items(a: Seq<Neighbor>, b: Seq<Neighbor>, at: Seq<int>)
    requires
        at.len() == a.len(),
        forall|i: int| 0 <= i < a.len() ==> 0 <= #[trigger] at[i] < b.len() && b[at[i]] == a[i],
        forall|i: int, j: int| 0 <= i < j < at.len() ==> #[trigger] at[i] != #[trigger] at[j],
    ensures
        a.to_multiset().subset_of(b.to_multiset()),
    decreases a.len(),
{
    broadcast use vstd::seq_lib::group_to_multiset_ensures;

    if a.len() == 0 {
        assert(a.to_multiset().len() == 0);
        assert forall|v: Neighbor| a.to_multiset().count(v) <= b.to_multiset().count(v) by {
            if a.to_multiset().count(v) > 0 {
                assert(a.contains(v));
            }
        }
    } else {
        let last = a.len() - 1;
        let p = at[last];
        let fewer = b.remove(p);
        let rest = Seq::new(
            last as nat,
            |i: int|
                if at[i] > p {
                    at[i] - 1
                } else {
                    at[i]
                },
        );
        let shorter = a.drop_last();
        assert forall|i: int| 0 <= i < shorter.len() implies 0 <= #[trigger] rest[i] < fewer.len()
            && fewer[rest[i]] == shorter[i] by {
            assert(at[i] != at[last]);
            assert(b[at[i]] == a[i]);
        }
        assert forall|i: int, j: int| 0 <= i < j < rest.len() implies #[trigger] rest[i]
            != #[trigger] rest[j] by {
            assert(at[i] != at[j]);
            assert(at[i] != at[last]);
            assert(at[j] != at[last]);
        }
        lemma_placed_items(shorter, fewer, rest);
        assert(shorter.push(a[last]) =~= a);
        assert(b.contains(b[p]));
        assert forall|v: Neighbor| a.to_multiset().count(v) <= b.to_multiset().count(v) by {
            assert(shorter.to_multiset().count(v) <= fewer.to_multiset().count(v));
        }
    }
}

/// The worthy items are the items, each as often, that are worth offering.
pub proof fn lemma_worthy_counts(limit: Option<u32>, items: Seq<Neighbor>)
    ensures
        forall|v: Neighbor| #[trigger]
            worthy(limit, items).to_multiset().count(v) == (if worth_offering(limit, v) {
                items.to_multiset().count(v)
            } else {
                0
            }),
    decreases items.len(),
{
    broadcast use vstd::seq_lib::group_to_multiset_ensures;

    if items.len() == 0 {
        assert(worthy(limit, items) =~= items);
        assert forall|v: Neighbor| items.to_multiset().count(v) == 0 by {
            if items.to_multiset().count(v) > 0 {
                assert(items.contains(v));
            }
        }
    } else {
        let shorter = items.drop_last();
        lemma_worthy_counts(limit, shorter);
        assert(shorter.push(items.last()) =~= items);
        assert forall|v: Neighbor| #[trigger]
            worthy(limit, items).to_multiset().count(v) == (if worth_offering(limit, v) {
                items.to_multiset().count(v)
            } else {
                0
            }) by {
            assert(worthy(limit, shorter).to_multiset().count(v) == (if worth_offering(limit, v) {
                shorter.to_multiset().count(v)
            } else {
                0
            }));
        }
    }
}

/// A collection that refuses a distance refuses every farther one.
pub proof fn lemma_farther_is_refused(heap: TopKHeap, near: u32, far: u32)
    requires
        heap.well_formed(),
        heap.max_distance() is None,
        !crate::order::is_nan(near),
        !crate::order::is_nan(far),
        !heap.admits(near),
        !crate::order::less(far, near),
    ensures
        !heap.admits(far),
{
    heap.lemma_facts();
    if heap.spec_k() > 0 {
        let worst = choose|worst: Neighbor| #[trigger]
            crate::topk::is_worst(heap.contents(), worst) && !crate::order::less(near, worst.0);
        assert(heap.contents().contains(worst));
        assert(crate::topk::is_worst(heap.contents(), worst) && !crate::order::less(far, worst.0));
    }
}

} // verus!
