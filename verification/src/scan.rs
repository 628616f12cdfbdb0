//! Collecting the nearest rows of scanned lists.
use crate::matching::MatchingRows;
use crate::order::MAX_DISTANCE;
use crate::topk::{Neighbor, TopKHeap};
use vstd::multiset::Multiset;
use vstd::prelude::*;

verus! {

/// Offering the items of a bounded nearest selection to a second one is
/// offering everything the first one saw: selecting per list and then
/// merging the selections finds the same nearest rows.
pub proof fn law_merging_selections_keeps_the_nearest(
    seen: Multiset<Neighbor>,
    list: Multiset<Neighbor>,
    selected: Multiset<Neighbor>,
    kept: Multiset<Neighbor>,
    k: nat,
)
    requires
        crate::topk::nearest_of(list, selected, k),
        crate::topk::nearest_of(seen.add(selected), kept, k),
    ensures
        crate::topk::nearest_of(seen.add(list), kept, k),
{
    let part = seen.add(selected);
    let all = seen.add(list);
    assert forall|v: Neighbor| kept.count(v) <= all.count(v) by {
        assert(kept.count(v) <= part.count(v));
        assert(selected.count(v) <= list.count(v));
    }
    if list.len() <= k {
        lemma_equal_if_subset_and_len(selected, list);
    } else {
        assert forall|x: Neighbor, y: Neighbor|
            #![trigger kept.contains(x), all.sub(kept).contains(y)]
            kept.contains(x) && all.sub(kept).contains(y) implies crate::order::numeric_key(x.0)
            <= crate::order::numeric_key(y.0) by {
            if part.count(y) > kept.count(y) {
                assert(part.sub(kept).contains(y));
            } else {
                assert(list.sub(selected).contains(y));
                if exists|z: Neighbor| kept.count(z) < selected.count(z) {
                    let z = choose|z: Neighbor| kept.count(z) < selected.count(z);
                    assert(part.sub(kept).contains(z));
                    assert(selected.contains(z));
                } else {
                    assert(selected.subset_of(kept));
                    lemma_equal_if_subset_and_len(selected, kept);
                    assert(selected.contains(x));
                }
            }
        }
    }
}

proof fn lemma_equal_if_subset_and_len(part: Multiset<Neighbor>, whole: Multiset<Neighbor>)
    requires
        part.subset_of(whole),
        part.len() == whole.len(),
    ensures
        part == whole,
{
    let rest = whole.sub(part);
    assert(rest.len() == 0);
    assert forall|v: Neighbor| part.count(v) == whole.count(v) by {
        assert(part.count(v) <= whole.count(v));
        if part.count(v) < whole.count(v) {
            assert(rest.count(v) > 0);
            assert(rest.contains(v));
            assert(rest.remove(v).len() == rest.len() - 1);
        }
    }
    assert(part =~= whole);
}

/// No distance in the sequence is a NaN.
pub open spec fn numbers(items: Seq<Neighbor>) -> bool {
    forall|i: int| 0 <= i < items.len() ==> !crate::order::is_nan((#[trigger] items[i]).0)
}

/// The heap keeps the nearest of everything it was offered, and was offered
/// `items` besides what it had seen.
pub open spec fn absorbed(before: TopKHeap, after: TopKHeap, items: Multiset<Neighbor>) -> bool {
    &&& after.well_formed()
    &&& after.spec_k() == before.spec_k()
    &&& after.max_distance() is None
    &&& forall|seen: Multiset<Neighbor>| #[trigger]
        crate::topk::nearest_of(seen, before.contents(), before.spec_k() as nat)
            ==> crate::topk::nearest_of(seen.add(items), after.contents(), before.spec_k() as nat)
}

/// A heap that takes whatever is near enough.
pub open spec fn open_heap(heap: TopKHeap) -> bool {
    &&& heap.well_formed()
    &&& heap.max_distance() is None
}

/// An empty heap keeps the nearest of nothing.
pub proof fn lemma_empty_heap(heap: TopKHeap)
    requires
        heap.items() == Seq::<Neighbor>::empty(),
    ensures
        crate::topk::nearest_of(Multiset::empty(), heap.contents(), heap.spec_k() as nat),
        heap.contents() == Multiset::<Neighbor>::empty(),
{
    broadcast use vstd::seq_lib::group_to_multiset_ensures;

    assert(heap.contents().len() == 0);
    assert(heap.contents() =~= Multiset::empty());
}

/// Absorbing one collection and then another is absorbing both.
pub proof fn law_absorbing_adds_up(
    first: TopKHeap,
    second: TopKHeap,
    third: TopKHeap,
    a: Multiset<Neighbor>,
    b: Multiset<Neighbor>,
)
    requires
        absorbed(first, second, a),
        absorbed(second, third, b),
    ensures
        absorbed(first, third, a.add(b)),
{
    assert forall|seen: Multiset<Neighbor>| #[trigger]
        crate::topk::nearest_of(seen, first.contents(), first.spec_k() as nat) implies
        crate::topk::nearest_of(seen.add(a.add(b)), third.contents(), first.spec_k() as nat) by {
        assert(crate::topk::nearest_of(seen.add(a), second.contents(), second.spec_k() as nat));
        assert(seen.add(a).add(b) =~= seen.add(a.add(b)));
    }
}

/// The heap was offered the first `count` items, in turn.
#[verifier::opaque]
pub open spec fn offered_first(
    start: TopKHeap,
    heap: TopKHeap,
    items: Seq<Neighbor>,
    count: int,
) -> bool {
    &&& absorbed(start, heap, items.take(count).to_multiset())
    &&& heap.items() == crate::topk::all_pushed(
        start.items(),
        start.spec_k() as nat,
        items.take(count),
    )
}

/// Offers the item that comes after the first `i`.
#[verifier::rlimit(60)]
#[verifier::spinoff_prover]
fn offer_next(Ghost(start): Ghost<TopKHeap>, heap: &mut TopKHeap, items: &[Neighbor], i: usize)
    requires
        i < items@.len(),
        open_heap(*old(heap)),
        old(heap).spec_k() == start.spec_k(),
        numbers(items@),
        offered_first(start, *old(heap), items@, i as int),
    ensures
        open_heap(*final(heap)),
        final(heap).spec_k() == start.spec_k(),
        offered_first(start, *final(heap), items@, i + 1),
{
    let item: Neighbor = items[i];
    let ghost before = *heap;
    heap.push(item.0, item.1);
    proof {
        lemma_one_more_absorbed(start, before, *heap, items@, i as int);
    }
}

/// Offering the next item after the ones before it.
#[verifier::rlimit(60)]
#[verifier::spinoff_prover]
proof fn lemma_one_more_absorbed(
    start: TopKHeap,
    before: TopKHeap,
    after: TopKHeap,
    items: Seq<Neighbor>,
    i: int,
)
    requires
        0 <= i < items.len(),
        offered_first(start, before, items, i),
        open_heap(before),
        before.spec_k() == start.spec_k(),
        open_heap(after),
        after.spec_k() == start.spec_k(),
        !crate::order::is_nan(items[i].0),
        after.items() == crate::topk::pushed(before.items(), start.spec_k() as nat, items[i]),
        crate::topk::offered(before.contents(), after.contents(), start.spec_k() as nat, items[i]),
    ensures
        offered_first(start, after, items, i + 1),
{
    reveal(offered_first);
    let k = start.spec_k() as nat;
    let item = items[i];
    let so_far = items.take(i);
    so_far.to_multiset_ensures();
    assert(items.take(i + 1) =~= so_far.push(item));
    assert(so_far.push(item).drop_last() =~= so_far);
    before.lemma_facts();
    assert forall|seen: Multiset<Neighbor>| #[trigger]
        crate::topk::nearest_of(seen, start.contents(), k) implies crate::topk::nearest_of(
        seen.add(items.take(i + 1).to_multiset()),
        after.contents(),
        k,
    ) by {
        let offered = seen.add(so_far.to_multiset());
        assert(crate::topk::nearest_of(offered, before.contents(), k));
        crate::topk::law_offering_keeps_the_nearest(
            offered,
            before.contents(),
            after.contents(),
            k,
            item,
        );
        assert(offered.insert(item) =~= seen.add(items.take(i + 1).to_multiset()));
    }
}

/// Nothing was offered yet, or everything was.
proof fn lemma_all_offered(start: TopKHeap, heap: TopKHeap, items: Seq<Neighbor>)
    requires
        open_heap(start),
    ensures
        offered_first(start, start, items, 0),
        offered_first(start, heap, items, items.len() as int) ==> absorbed(
            start,
            heap,
            items.to_multiset(),
        ) && heap.items() == crate::topk::all_pushed(
            start.items(),
            start.spec_k() as nat,
            items,
        ),
{
    reveal(offered_first);
    assert(items.take(0) =~= Seq::<Neighbor>::empty());
    assert(items.take(items.len() as int) =~= items);
    lemma_nothing_absorbed(start);
}

/// Offers every item in turn.
#[verifier::rlimit(60)]
#[verifier::spinoff_prover]
pub fn offer_all(heap: &mut TopKHeap, items: &[Neighbor])
    requires
        open_heap(*old(heap)),
        numbers(items@),
    ensures
        absorbed(*old(heap), *final(heap), items@.to_multiset()),
        final(heap).items() == crate::topk::all_pushed(
            old(heap).items(),
            old(heap).spec_k() as nat,
            items@,
        ),
{
    let ghost start = *heap;
    proof {
        lemma_all_offered(start, start, items@);
    }
    let mut i: usize = 0;
    while i < items.len()
        invariant
            i <= items@.len(),
            numbers(items@),
            open_heap(*heap),
            heap.spec_k() == start.spec_k(),
            offered_first(start, *heap, items@, i as int),
        decreases items@.len() - i,
    {
        offer_next(Ghost(start), heap, items, i);
        i = i + 1;
    }
    proof {
        lemma_all_offered(start, *heap, items@);
    }
}

proof fn lemma_nothing_absorbed(heap: TopKHeap)
    requires
        open_heap(heap),
    ensures
        absorbed(heap, heap, Seq::<Neighbor>::empty().to_multiset()),
{
    let none = Seq::<Neighbor>::empty().to_multiset();
    Seq::<Neighbor>::empty().to_multiset_ensures();
    assert(none =~= Multiset::empty());
    assert forall|seen: Multiset<Neighbor>| #[trigger]
        crate::topk::nearest_of(seen, heap.contents(), heap.spec_k() as nat) implies
        crate::topk::nearest_of(seen.add(none), heap.contents(), heap.spec_k() as nat) by {
        assert(seen.add(none) =~= seen);
    }
}

/// The positions that a scan of `count` rows visits.
pub open spec fn visited(rows: Option<&MatchingRows>, count: nat) -> Seq<usize> {
    match rows {
        Some(found) => found.listed(count),
        None => crate::rq::identity_order(count),
    }
}

/// Distance and id of the rows at the given positions.
pub open spec fn neighbors_at(ids: Seq<i64>, distances: Seq<u32>, positions: Seq<usize>) -> Seq<
    Neighbor,
> {
    Seq::new(positions.len(), |i: int| (distances[positions[i] as int], ids[positions[i] as int]))
}

/// What a scan of the list offers.
pub open spec fn scanned(ids: Seq<i64>, distances: Seq<u32>, rows: Option<&MatchingRows>) -> Seq<
    Neighbor,
> {
    neighbors_at(ids, distances, visited(rows, ids.len()))
}

/// Offers the rows of a list, all of them or those that match, by the
/// distances computed for them.
pub fn scan_rows(
    ids: &[i64],
    distances: &[u32],
    rows: Option<&MatchingRows>,
    heap: &mut TopKHeap,
)
    requires
        open_heap(*old(heap)),
        distances@.len() == ids@.len(),
        rows matches Some(found) ==> found.well_formed(ids@.len()),
        numbers(scanned(ids@, distances@, rows)),
    ensures
        absorbed(*old(heap), *final(heap), scanned(ids@, distances@, rows).to_multiset()),
        final(heap).items() == crate::topk::all_pushed(
            old(heap).items(),
            old(heap).spec_k() as nat,
            scanned(ids@, distances@, rows),
        ),
{
    let items = collect_rows(ids, distances, rows);
    offer_all(heap, items.as_slice());
}

/// Distance and id of the visited rows, in ascending position.
pub fn collect_rows(ids: &[i64], distances: &[u32], rows: Option<&MatchingRows>) -> (items: Vec<
    Neighbor,
>)
    requires
        distances@.len() == ids@.len(),
        rows matches Some(found) ==> found.well_formed(ids@.len()),
    ensures
        items@ == scanned(ids@, distances@, rows),
{
    let mut items: Vec<Neighbor> = Vec::new();
    match rows {
        Some(found) => {
            let positions = found.positions(ids.len());
            proof {
                crate::matching::lemma_picked(|p: int| found.holds(p), ids@.len());
            }
            let mut i: usize = 0;
            while i < positions.len()
                invariant
                    i <= positions@.len(),
                    distances@.len() == ids@.len(),
                    forall|j: int|
                        0 <= j < positions@.len() ==> #[trigger] positions@[j] < ids@.len(),
                    items@ == neighbors_at(ids@, distances@, positions@.take(i as int)),
                decreases positions@.len() - i,
            {
                let at: usize = positions[i];
                items.push((distances[at], ids[at]));
                assert(neighbors_at(ids@, distances@, positions@.take(i + 1)) =~= neighbors_at(
                    ids@,
                    distances@,
                    positions@.take(i as int),
                ).push((distances@[at as int], ids@[at as int])));
                i = i + 1;
            }
            assert(positions@.take(positions@.len() as int) =~= positions@);
        },
        None => {
            let mut i: usize = 0;
            while i < ids.len()
                invariant
                    i <= ids@.len(),
                    distances@.len() == ids@.len(),
                    items@ == neighbors_at(
                        ids@,
                        distances@,
                        crate::rq::identity_order(i as nat),
                    ),
                decreases ids@.len() - i,
            {
                items.push((distances[i], ids[i]));
                assert(items@ =~= neighbors_at(
                    ids@,
                    distances@,
                    crate::rq::identity_order((i + 1) as nat),
                ));
                i = i + 1;
            }
        },
    }
    items
}

/// One query's rows as they are returned: `k` places, the unused ones with
/// the id -1 and the largest finite distance.
pub open spec fn padded_id(sorted: Seq<Neighbor>, i: int) -> i64 {
    if i < sorted.len() {
        sorted[i].1
    } else {
        -1i64
    }
}

pub open spec fn padded_distance(sorted: Seq<Neighbor>, i: int) -> u32 {
    if i < sorted.len() {
        sorted[i].0
    } else {
        MAX_DISTANCE
    }
}

/// Row `query` of the result holds `sorted`, padded to `k` places.
pub open spec fn result_row(
    ids: Seq<i64>,
    distances: Seq<u32>,
    query: int,
    k: int,
    sorted: Seq<Neighbor>,
) -> bool {
    forall|i: int|
        0 <= i < k ==> #[trigger] ids[query * k + i] == padded_id(sorted, i) && distances[query * k
            + i] == padded_distance(sorted, i)
}

/// Row `query` of the result lists the items of a collection by distance,
/// equally far ones as they stand in it.
pub open spec fn lists_sorted(
    items: Seq<Neighbor>,
    ids: Seq<i64>,
    distances: Seq<u32>,
    query: int,
    k: usize,
) -> bool {
    exists|sorted: Seq<Neighbor>| #[trigger]
        crate::topk::stably_sorted(items, sorted) && result_row(
            ids,
            distances,
            query,
            k as int,
            sorted,
        )
}

/// Lays the queries' rows out one after the other.
pub fn assemble_results(results: &Vec<Vec<Neighbor>>, k: usize) -> (out: (Vec<i64>, Vec<u32>))
    requires
        results@.len() * k <= usize::MAX,
        forall|q: int| 0 <= q < results@.len() ==> (#[trigger] results@[q])@.len() <= k,
    ensures
        out.0@.len() == results@.len() * k,
        out.1@.len() == results@.len() * k,
        forall|q: int|
            0 <= q < results@.len() ==> result_row(
                out.0@,
                out.1@,
                q,
                k as int,
                (#[trigger] results@[q])@,
            ),
{
    let mut ids: Vec<i64> = Vec::new();
    let mut distances: Vec<u32> = Vec::new();
    let mut q: usize = 0;
    while q < results.len()
        invariant
            q <= results@.len(),
            ids@.len() == q * k,
            distances@.len() == q * k,
            forall|p: int|
                0 <= p < q ==> result_row(ids@, distances@, p, k as int, (#[trigger] results@[p])@),
        decreases results@.len() - q,
    {
        let sorted = &results[q];
        let ghost base = ids@;
        let ghost base_distances = distances@;
        let mut i: usize = 0;
        while i < k
            invariant
                i <= k,
                q < results@.len(),
                sorted@ == results@[q as int]@,
                base.len() == q * k,
                base_distances.len() == q * k,
                ids@.len() == q * k + i,
                distances@.len() == q * k + i,
                forall|j: int| 0 <= j < base.len() ==> ids@[j] == base[j],
                forall|j: int| 0 <= j < base.len() ==> distances@[j] == base_distances[j],
                forall|j: int|
                    0 <= j < i ==> #[trigger] ids@[q * k + j] == padded_id(sorted@, j)
                        && distances@[q * k + j] == padded_distance(sorted@, j),
            decreases k - i,
        {
            if i < sorted.len() {
                ids.push(sorted[i].1);
                distances.push(sorted[i].0);
            } else {
                ids.push(-1);
                distances.push(MAX_DISTANCE);
            }
            i = i + 1;
        }
        proof {
            assert((q + 1) * k == q * k + k) by (nonlinear_arith);
            assert forall|p: int| 0 <= p < q + 1 implies result_row(
                ids@,
                distances@,
                p,
                k as int,
                (#[trigger] results@[p])@,
            ) by {
                if p < q {
                    assert(result_row(base, base_distances, p, k as int, results@[p]@));
                    assert forall|i: int| 0 <= i < k implies #[trigger] ids@[p * k + i]
                        == padded_id(results@[p]@, i) && distances@[p * k + i] == padded_distance(
                        results@[p]@,
                        i,
                    ) by {
                        assert(0 <= p * k && p * k + i < q * k) by (nonlinear_arith)
                            requires
                                0 <= p < q,
                                0 <= i < k,
                        ;
                        assert(base[p * k + i] == padded_id(results@[p]@, i));
                    }
                } else {
                    assert(p == q);
                    assert forall|i: int| 0 <= i < k implies #[trigger] ids@[p * k + i]
                        == padded_id(results@[p]@, i) && distances@[p * k + i] == padded_distance(
                        results@[p]@,
                        i,
                    ) by {
                        assert(ids@[q * k + i] == padded_id(sorted@, i));
                    }
                }
            }
        }
        q = q + 1;
    }
    (ids, distances)
}

} // verus!
