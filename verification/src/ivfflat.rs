//! Inverted lists of plain vectors.
use crate::distance::MetricType;
use crate::filter::{is_row_allowed, RowIdFilter};
use crate::lists::{append_to_lists, empty_lists, group_rows, total_rows};
use crate::order::float_less;
use crate::scan::assemble_results;
use crate::topk::{sort_neighbors, Neighbor};
use std::collections::HashSet;
use vstd::prelude::*;

verus! {

/// The last of the items at the largest distance among the first `n`.
pub open spec fn last_worst(items: Seq<Neighbor>, n: nat) -> int
    decreases n,
{
    if n <= 1 {
        0
    } else {
        let before = last_worst(items, (n - 1) as nat);
        if crate::order::numeric_key(items[n - 1].0) >= crate::order::numeric_key(items[before].0) {
            n - 1
        } else {
            before
        }
    }
}

/// The items after one more is offered: it is added while there is room, else
/// it takes the place of the last item at the largest distance if it is
/// strictly nearer.
pub open spec fn flat_pushed(items: Seq<Neighbor>, k: nat, item: Neighbor) -> Seq<Neighbor> {
    if k == 0 {
        items
    } else if items.len() < k {
        items.push(item)
    } else {
        let worst = last_worst(items, items.len());
        if crate::order::less(item.0, items[worst].0) {
            items.update(worst, item)
        } else {
            items
        }
    }
}

/// What is kept after the items were offered in turn.
pub open spec fn flat_kept(offered: Seq<Neighbor>, k: nat) -> Seq<Neighbor>
    decreases offered.len(),
{
    if offered.len() == 0 {
        Seq::empty()
    } else {
        flat_pushed(flat_kept(offered.drop_last(), k), k, offered.last())
    }
}

proof fn lemma_last_worst(items: Seq<Neighbor>, n: nat)
    requires
        0 < n <= items.len(),
    ensures
        0 <= last_worst(items, n) < n,
        forall|i: int|
            0 <= i < n ==> crate::order::numeric_key((#[trigger] items[i]).0)
                <= crate::order::numeric_key(items[last_worst(items, n)].0),
    decreases n,
{
    if n > 1 {
        lemma_last_worst(items, (n - 1) as nat);
    }
}

proof fn lemma_flat_pushed(items: Seq<Neighbor>, k: nat, item: Neighbor)
    requires
        items.len() <= k,
    ensures
        flat_pushed(items, k, item).len() <= k,
        crate::topk::offered(
            items.to_multiset(),
            flat_pushed(items, k, item).to_multiset(),
            k,
            item,
        ),
{
    broadcast use vstd::seq_lib::group_to_multiset_ensures;

    if k > 0 && items.len() == k {
        let worst = last_worst(items, items.len());
        lemma_last_worst(items, items.len());
        let last = items[worst];
        assert(items.contains(last));
        assert(crate::topk::is_worst(items.to_multiset(), last)) by {
            assert forall|x: Neighbor| #[trigger] items.to_multiset().contains(x) implies
                crate::order::numeric_key(x.0) <= crate::order::numeric_key(last.0) by {
                assert(items.contains(x));
                let i = choose|i: int| 0 <= i < items.len() && items[i] == x;
                assert(crate::order::numeric_key(items[i].0) <= crate::order::numeric_key(last.0));
            }
        }
        if crate::order::less(item.0, last.0) {
            vstd::seq_lib::to_multiset_update(items, worst, item);
            assert(items.to_multiset().insert(item).remove(last)
                =~= items.to_multiset().remove(last).insert(item));
        }
    }
}

/// A flat collection keeps the nearest of what it was offered.
pub proof fn law_flat_heap_keeps_the_nearest(offered: Seq<Neighbor>, k: nat)
    requires
        crate::scan::numbers(offered),
    ensures
        crate::topk::nearest_of(offered.to_multiset(), flat_kept(offered, k).to_multiset(), k),
        flat_kept(offered, k).len() <= k,
        crate::scan::numbers(flat_kept(offered, k)),
    decreases offered.len(),
{
    broadcast use vstd::seq_lib::group_to_multiset_ensures;

    if offered.len() == 0 {
        let none = Seq::<Neighbor>::empty();
        assert(offered =~= none);
        assert(none.to_multiset().len() == 0);
    } else {
        let shorter = offered.drop_last();
        let item = offered.last();
        assert forall|i: int| 0 <= i < shorter.len() implies !crate::order::is_nan(
            (#[trigger] shorter[i]).0,
        ) by {
            assert(shorter[i] == offered[i]);
        }
        assert(!crate::order::is_nan(offered[offered.len() - 1].0));
        law_flat_heap_keeps_the_nearest(shorter, k);
        let before = flat_kept(shorter, k);
        let after = flat_kept(offered, k);
        lemma_flat_pushed(before, k, item);
        assert(crate::topk::all_numbers(before.to_multiset())) by {
            assert forall|x: Neighbor| #[trigger] before.to_multiset().contains(x) implies
                !crate::order::is_nan(x.0) by {
                assert(before.contains(x));
            }
        }
        crate::topk::law_offering_keeps_the_nearest(
            shorter.to_multiset(),
            before.to_multiset(),
            after.to_multiset(),
            k,
            item,
        );
        assert(shorter.push(item) =~= offered);
        assert forall|i: int| 0 <= i < after.len() implies !crate::order::is_nan(
            (#[trigger] after[i]).0,
        ) by {
            if k > 0 && before.len() == k {
                lemma_last_worst(before, before.len());
            }
            if i < before.len() {
                assert(!crate::order::is_nan(before[i].0));
            }
        }
    }
}

/// The kept rows can be told apart by distance: there are no two of them, or
/// none of those that are taken unseen, while there is room, is a NaN. A NaN
/// that comes later is never nearer than a kept row.
pub open spec fn is_comparable(offered: Seq<Neighbor>, k: nat) -> bool {
    k <= 1 || offered.len() <= 1 || forall|i: int|
        0 <= i < offered.len() && i < k ==> !crate::order::is_nan((#[trigger] offered[i]).0)
}

/// As many rows are kept as there is room for, and they are numbers where
/// there are two of them.
pub proof fn law_flat_heap_holds_what_it_can(offered: Seq<Neighbor>, k: nat)
    ensures
        flat_kept(offered, k).len() == (if offered.len() < k {
            offered.len()
        } else {
            k
        }),
        offered.len() <= k ==> flat_kept(offered, k) == offered,
        is_comparable(offered, k) && flat_kept(offered, k).len() > 1 ==> crate::scan::numbers(
            flat_kept(offered, k),
        ),
    decreases offered.len(),
{
    if offered.len() > 0 {
        let shorter = offered.drop_last();
        let item = offered.last();
        law_flat_heap_holds_what_it_can(shorter, k);
        let before = flat_kept(shorter, k);
        let after = flat_kept(offered, k);
        if offered.len() <= k {
            assert(after =~= offered);
            if is_comparable(offered, k) && after.len() > 1 {
                assert forall|i: int| 0 <= i < after.len() implies !crate::order::is_nan(
                    (#[trigger] after[i]).0,
                ) by {
                    assert(after[i] == offered[i]);
                }
            }
        } else if k > 0 {
            lemma_last_worst(before, before.len());
            if is_comparable(offered, k) && k > 1 {
                assert forall|i: int| 0 <= i < shorter.len() && i < k implies !crate::order::is_nan(
                    (#[trigger] shorter[i]).0,
                ) by {
                    assert(shorter[i] == offered[i]);
                }
                assert(is_comparable(shorter, k));
                assert forall|i: int| 0 <= i < after.len() implies !crate::order::is_nan(
                    (#[trigger] after[i]).0,
                ) by {
                    assert(!crate::order::is_nan(before[i].0));
                }
            }
        }
    }
}

/// A small collection of the nearest rows, searched linearly.
#[derive(Debug)]
pub struct FlatTopKHeap {
    k: usize,
    data: Vec<Neighbor>,
}

impl FlatTopKHeap {
    pub closed spec fn spec_k(self) -> usize {
        self.k
    }

    pub closed spec fn items(self) -> Seq<Neighbor> {
        self.data@
    }

    pub fn new(k: usize) -> (heap: Self)
        ensures
            heap.spec_k() == k,
            heap.items() == Seq::<Neighbor>::empty(),
    {
        FlatTopKHeap { k, data: Vec::new() }
    }

    /// Offers a row.
    pub fn push(&mut self, distance: u32, id: i64)
        requires
            old(self).items().len() <= old(self).spec_k(),
            1 < old(self).items().len() == old(self).spec_k() ==> crate::scan::numbers(
                old(self).items(),
            ),
        ensures
            final(self).spec_k() == old(self).spec_k(),
            final(self).items() == flat_pushed(
                old(self).items(),
                old(self).spec_k() as nat,
                (distance, id),
            ),
    {
        if self.k == 0 {
            return;
        }
        if self.data.len() < self.k {
            self.data.push((distance, id));
            return;
        }
        let mut worst: usize = 0;
        let mut i: usize = 1;
        while i < self.data.len()
            invariant
                1 <= i <= self.data@.len(),
                worst < i,
                self.data@ == old(self).data@,
                self.data@.len() > 1 ==> crate::scan::numbers(self.data@),
                worst == last_worst(self.data@, i as nat),
            decreases self.data@.len() - i,
        {
            proof {
                assert(!crate::order::is_nan(self.data@[i as int].0));
                assert(!crate::order::is_nan(self.data@[worst as int].0));
            }
            if !float_less(self.data[i].0, self.data[worst].0) {
                worst = i;
            }
            i = i + 1;
        }
        if float_less(distance, self.data[worst].0) {
            self.data.set(worst, (distance, id));
        }
    }

    /// The rows by ascending distance.
    pub fn into_sorted(self) -> (sorted: Vec<Neighbor>)
        ensures
            crate::topk::stably_sorted(self.items(), sorted@),
    {
        sort_neighbors(&self.data)
    }
}

/// What a query is offered by its probes of ranks below `upto`, in order.
pub open spec fn probe_sequence<F: RowIdFilter>(
    lists: Seq<Vec<i64>>,
    probes: Seq<usize>,
    distances: Seq<Vec<u32>>,
    filter: Option<&F>,
    upto: nat,
) -> Seq<Neighbor>
    decreases upto,
{
    if upto == 0 {
        Seq::empty()
    } else {
        let r = upto - 1;
        probe_sequence(lists, probes, distances, filter, r as nat) + list_sequence(
            lists[probes[r] as int]@,
            distances[r]@,
            filter,
            lists[probes[r] as int]@.len(),
        )
    }
}

/// The first `n` rows of a list that pass the filter.
pub open spec fn list_sequence<F: RowIdFilter>(
    ids: Seq<i64>,
    distances: Seq<u32>,
    filter: Option<&F>,
    n: nat,
) -> Seq<Neighbor>
    decreases n,
{
    if n == 0 {
        Seq::empty()
    } else {
        let before = list_sequence(ids, distances, filter, (n - 1) as nat);
        if crate::filter::row_allowed(filter, ids[n - 1]) {
            before.push((distances[n - 1], ids[n - 1]))
        } else {
            before
        }
    }
}

/// The probes name lists, with one distance per row, and the rows that pass
/// the filter can be told apart by distance.
pub open spec fn flat_probes_fit<F: RowIdFilter>(
    lists: Seq<Vec<i64>>,
    probes: Seq<usize>,
    distances: Seq<Vec<u32>>,
    filter: Option<&F>,
    k: usize,
) -> bool {
    &&& distances.len() == probes.len()
    &&& forall|r: int| 0 <= r < probes.len() ==> #[trigger] probes[r] < lists.len()
    &&& forall|r: int|
        0 <= r < probes.len() ==> (#[trigger] distances[r])@.len() == lists[probes[r] as int]@.len()
    &&& is_comparable(
        probe_sequence(lists, probes, distances, filter, probes.len()),
        k as nat,
    )
}

proof fn lemma_list_prefix<F: RowIdFilter>(
    ids: Seq<i64>,
    distances: Seq<u32>,
    filter: Option<&F>,
    n: nat,
    m: nat,
)
    requires
        n <= m,
    ensures
        list_sequence(ids, distances, filter, n).is_prefix_of(
            list_sequence(ids, distances, filter, m),
        ),
    decreases m,
{
    if n < m {
        lemma_list_prefix(ids, distances, filter, n, (m - 1) as nat);
    }
}

proof fn lemma_probe_prefix<F: RowIdFilter>(
    lists: Seq<Vec<i64>>,
    probes: Seq<usize>,
    distances: Seq<Vec<u32>>,
    filter: Option<&F>,
    n: nat,
    m: nat,
)
    requires
        n <= m,
    ensures
        probe_sequence(lists, probes, distances, filter, n).is_prefix_of(
            probe_sequence(lists, probes, distances, filter, m),
        ),
    decreases m,
{
    if n < m {
        lemma_probe_prefix(lists, probes, distances, filter, n, (m - 1) as nat);
    }
}

/// What was offered so far can be told apart if everything can.
proof fn lemma_comparable_so_far(offered: Seq<Neighbor>, whole: Seq<Neighbor>, k: nat)
    requires
        offered.is_prefix_of(whole),
        is_comparable(whole, k),
    ensures
        is_comparable(offered, k),
{
    assert forall|i: int| 0 <= i < offered.len() && i < k implies offered[i]
        == whole[i] by {
        assert(whole.take(offered.len() as int)[i] == whole[i]);
    }
}

/// Row `query` of the result holds the offered rows that are kept, sorted.
pub open spec fn flat_answer(
    offered: Seq<Neighbor>,
    ids: Seq<i64>,
    distances: Seq<u32>,
    query: int,
    k: usize,
) -> bool {
    exists|sorted: Seq<Neighbor>| #[trigger]
        crate::topk::stably_sorted(flat_kept(offered, k as nat), sorted) && crate::scan::result_row(
            ids,
            distances,
            query,
            k as int,
            sorted,
        )
}

/// An index that keeps every vector as it is.
#[derive(Debug)]
pub struct IVFFlatIndex {
    pub d: usize,
    pub nlist: usize,
    pub metric: MetricType,
    pub quantizer_centroids: Vec<u32>,
    pub ids: Vec<Vec<i64>>,
    pub vectors: Vec<Vec<u32>>,
    /// Whether rows may be assigned to lists approximately.
    pub approximate_assignment: bool,
}

impl IVFFlatIndex {
    /// Every list holds one vector per id.
    pub open spec fn well_formed(self) -> bool {
        &&& self.ids@.len() == self.nlist
        &&& self.vectors@.len() == self.nlist
        &&& forall|l: int|
            0 <= l < self.nlist ==> (#[trigger] self.vectors@[l])@.len() == self.ids@[l]@.len()
                * self.d
    }

    /// No list holds a row.
    pub open spec fn is_empty_index(self) -> bool {
        forall|l: int| 0 <= l < self.nlist ==> (#[trigger] self.ids@[l])@.len() == 0
    }

    pub fn new(d: usize, nlist: usize, metric: MetricType) -> (index: Self)
        ensures
            index.well_formed(),
            index.is_empty_index(),
            index.d == d,
            index.nlist == nlist,
            index.metric == metric,
            index.quantizer_centroids@ == Seq::<u32>::empty(),
            !index.approximate_assignment,
    {
        proof {
            assert(0 * d == 0) by (nonlinear_arith);
        }
        IVFFlatIndex {
            d,
            nlist,
            metric,
            quantizer_centroids: Vec::new(),
            ids: empty_lists(nlist),
            vectors: empty_lists(nlist),
            approximate_assignment: false,
        }
    }

    pub fn quantizer_centroids(&self) -> (centroids: &[u32])
        ensures
            centroids@ == self.quantizer_centroids@,
    {
        self.quantizer_centroids.as_slice()
    }

    /// Chooses between exact and approximate assignment, while the index is
    /// empty.
    pub fn set_approximate_coarse_assignment(&mut self, enabled: bool)
        requires
            old(self).well_formed(),
            old(self).is_empty_index(),
        ensures
            final(self).approximate_assignment == enabled,
            final(self).d == old(self).d,
            final(self).nlist == old(self).nlist,
            final(self).metric == old(self).metric,
            final(self).quantizer_centroids == old(self).quantizer_centroids,
            final(self).ids == old(self).ids,
            final(self).vectors == old(self).vectors,
    {
        self.approximate_assignment = enabled;
    }

    /// Replaces the centroids, while the index is empty.
    pub fn set_quantizer_centroids(&mut self, centroids: Vec<u32>)
        requires
            old(self).well_formed(),
            old(self).is_empty_index(),
            centroids@.len() == old(self).nlist * old(self).d,
        ensures
            final(self).well_formed(),
            final(self).quantizer_centroids@ == centroids@,
            final(self).d == old(self).d,
            final(self).nlist == old(self).nlist,
            final(self).metric == old(self).metric,
            final(self).approximate_assignment == old(self).approximate_assignment,
            final(self).ids == old(self).ids,
            final(self).vectors == old(self).vectors,
    {
        self.quantizer_centroids = centroids;
    }

    /// Appends vectors to the lists they are assigned to, in row order.
    pub fn add(&mut self, assignments: &[usize], ids: &[i64], vectors: &[u32])
        requires
            old(self).well_formed(),
            ids@.len() == assignments@.len(),
            vectors@.len() == assignments@.len() * old(self).d,
            forall|i: int|
                0 <= i < assignments@.len() ==> #[trigger] assignments@[i] < old(self).nlist,
        ensures
            final(self).well_formed(),
            final(self).d == old(self).d,
            final(self).nlist == old(self).nlist,
            final(self).metric == old(self).metric,
            final(self).quantizer_centroids == old(self).quantizer_centroids,
            final(self).approximate_assignment == old(self).approximate_assignment,
            forall|l: int|
                0 <= l < old(self).nlist ==> (#[trigger] final(self).ids@[l])@ == old(self).ids@[l]@
                    + crate::lists::gathered_rows(
                    ids@,
                    crate::lists::rows_of(assignments@, l, assignments@.len()),
                    1,
                ),
            forall|l: int|
                0 <= l < old(self).nlist ==> (#[trigger] final(self).vectors@[l])@
                    == old(self).vectors@[l]@
                    + crate::lists::gathered_rows(
                    vectors@,
                    crate::lists::rows_of(assignments@, l, assignments@.len()),
                    old(self).d as nat,
                ),
    {
        let width: usize = self.d;
        let rows: usize = assignments.len();
        let groups = group_rows(assignments, self.nlist);
        proof {
            let n = rows as nat;
            assert forall|l: int, i: int|
                0 <= l < groups@.len() && 0 <= i < groups@[l]@.len() implies (
            #[trigger] groups@[l]@[i] + 1) * width <= vectors@.len() && (groups@[l]@[i] + 1) * 1
                <= ids@.len() by {
                assert(groups@[l]@ == crate::lists::rows_of(assignments@, l, n));
                crate::matching::lemma_picked(crate::lists::assigned_to(assignments@, l), n);
                let row = groups@[l]@[i] as int;
                assert((row + 1) * width <= n * width) by (nonlinear_arith)
                    requires
                        row < n,
                ;
            }
        }
        append_to_lists(&mut self.ids, ids, &groups, 1);
        append_to_lists(&mut self.vectors, vectors, &groups, width);
        proof {
            assert forall|l: int| 0 <= l < self.nlist implies (#[trigger] self.vectors@[l])@.len()
                == self.ids@[l]@.len() * self.d by {
                let rows = groups@[l]@;
                assert forall|i: int| 0 <= i < rows.len() implies (#[trigger] rows[i] + 1) * width
                    <= vectors@.len() && (rows[i] + 1) * 1 <= ids@.len() by {
                    assert((groups@[l]@[i] + 1) * width <= vectors@.len());
                }
                crate::lists::lemma_gathered_len(vectors@, rows, width as nat);
                crate::lists::lemma_gathered_len(ids@, rows, 1);
                let old_count = old(self).ids@[l]@.len();
                assert(old(self).vectors@[l]@.len() == old_count * width);
                assert(self.ids@[l]@.len() == old_count + rows.len());
                assert((old_count + rows.len()) * width == old_count * width + rows.len() * width)
                    by (nonlinear_arith);
            }
        }
    }

    /// Number of rows.
    pub fn total_vectors(&self) -> (total: usize)
        requires
            crate::lists::count_rows(self.ids@, self.ids@.len()) <= usize::MAX,
        ensures
            total == crate::lists::count_rows(self.ids@, self.ids@.len()),
    {
        total_rows(&self.ids)
    }

    /// Searches without a filter.
    pub fn search(
        &self,
        probes: &Vec<Vec<usize>>,
        distances: &Vec<Vec<Vec<u32>>>,
        k: usize,
    ) -> (out: (Vec<i64>, Vec<u32>))
        requires
            probes@.len() * k <= usize::MAX,
            distances@.len() == probes@.len(),
            forall|q: int|
                0 <= q < probes@.len() ==> flat_probes_fit(
                    self.ids@,
                    (#[trigger] probes@[q])@,
                    distances@[q]@,
                    None::<&HashSet<i64>>,
                    k,
                ),
        ensures
            out.0@.len() == probes@.len() * k,
            out.1@.len() == probes@.len() * k,
            forall|q: int|
                0 <= q < probes@.len() ==> flat_answer(
                    probe_sequence(
                        self.ids@,
                        (#[trigger] probes@[q])@,
                        distances@[q]@,
                        None::<&HashSet<i64>>,
                        probes@[q]@.len(),
                    ),
                    out.0@,
                    out.1@,
                    q,
                    k,
                ),
    {
        self.search_with_filter(probes, distances, k, None::<&HashSet<i64>>)
    }

    /// The nearest rows of the probed lists that pass the filter: one row of
    /// `k` places per query, the unused ones with the id -1 and the largest
    /// finite distance.
    pub fn search_with_filter<F: RowIdFilter>(
        &self,
        probes: &Vec<Vec<usize>>,
        distances: &Vec<Vec<Vec<u32>>>,
        k: usize,
        filter: Option<&F>,
    ) -> (out: (Vec<i64>, Vec<u32>))
        requires
            probes@.len() * k <= usize::MAX,
            distances@.len() == probes@.len(),
            forall|q: int|
                0 <= q < probes@.len() ==> flat_probes_fit(
                    self.ids@,
                    (#[trigger] probes@[q])@,
                    distances@[q]@,
                    filter,
                    k,
                ),
        ensures
            out.0@.len() == probes@.len() * k,
            out.1@.len() == probes@.len() * k,
            forall|q: int|
                0 <= q < probes@.len() ==> flat_answer(
                    probe_sequence(
                        self.ids@,
                        (#[trigger] probes@[q])@,
                        distances@[q]@,
                        filter,
                        probes@[q]@.len(),
                    ),
                    out.0@,
                    out.1@,
                    q,
                    k,
                ),
    {
        let mut results: Vec<Vec<Neighbor>> = Vec::new();
        let ghost mut offers: Seq<Seq<Neighbor>> = Seq::empty();
        let mut q: usize = 0;
        while q < probes.len()
            invariant
                q <= probes@.len(),
                distances@.len() == probes@.len(),
                forall|p: int|
                    0 <= p < probes@.len() ==> flat_probes_fit(
                        self.ids@,
                        (#[trigger] probes@[p])@,
                        distances@[p]@,
                        filter,
                        k,
                    ),
                results@.len() == q,
                offers.len() == q,
                forall|p: int|
                    0 <= p < q ==> #[trigger] offers[p] == probe_sequence(
                        self.ids@,
                        probes@[p]@,
                        distances@[p]@,
                        filter,
                        probes@[p]@.len(),
                    ),
                forall|p: int|
                    0 <= p < q ==> (#[trigger] results@[p])@.len() <= k
                        && crate::topk::stably_sorted(flat_kept(offers[p], k as nat), results@[p]@),
            decreases probes@.len() - q,
        {
            assert(flat_probes_fit(
                self.ids@,
                probes@[q as int]@,
                distances@[q as int]@,
                filter,
                k,
            ));
            let (heap, Ghost(offered)) = self.scan_probes(&probes[q], &distances[q], k, filter);
            let sorted = heap.into_sorted();
            proof {
                law_flat_heap_holds_what_it_can(offered, k as nat);
                crate::topk::lemma_stably_sorted(flat_kept(offered, k as nat), sorted@);
                offers = offers.push(offered);
            }
            results.push(sorted);
            q = q + 1;
        }
        let out = assemble_results(&results, k);
        proof {
            assert forall|q: int| 0 <= q < probes@.len() implies flat_answer(
                probe_sequence(
                    self.ids@,
                    (#[trigger] probes@[q])@,
                    distances@[q]@,
                    filter,
                    probes@[q]@.len(),
                ),
                out.0@,
                out.1@,
                q,
                k,
            ) by {
                assert(crate::topk::stably_sorted(flat_kept(offers[q], k as nat), results@[q]@));
            }
        }
        out
    }

    /// The rows offered before row `i` of the list at rank `r` come first.
    proof fn lemma_scanned_first<F: RowIdFilter>(
        &self,
        probes: Seq<usize>,
        distances: Seq<Vec<u32>>,
        filter: Option<&F>,
        r: int,
        i: nat,
    )
        requires
            0 <= r < probes.len(),
            i <= self.ids@[probes[r] as int]@.len(),
        ensures
            (probe_sequence(self.ids@, probes, distances, filter, r as nat) + list_sequence(
                self.ids@[probes[r] as int]@,
                distances[r]@,
                filter,
                i,
            )).is_prefix_of(probe_sequence(self.ids@, probes, distances, filter, probes.len())),
    {
        let ids = self.ids@[probes[r] as int]@;
        let before = probe_sequence(self.ids@, probes, distances, filter, r as nat);
        let part = list_sequence(ids, distances[r]@, filter, i);
        let list = list_sequence(ids, distances[r]@, filter, ids.len());
        let whole = probe_sequence(self.ids@, probes, distances, filter, probes.len());
        lemma_list_prefix(ids, distances[r]@, filter, i, ids.len());
        lemma_probe_prefix(self.ids@, probes, distances, filter, (r + 1) as nat, probes.len());
        assert((before + part).is_prefix_of(before + list));
        assert((before + list).is_prefix_of(whole));
        assert((before + part) =~= whole.take((before + part).len() as int));
    }

    /// The rows offered before row `i` of the list at rank `r` can be told
    /// apart.
    proof fn lemma_scanned_so_far<F: RowIdFilter>(
        &self,
        probes: Seq<usize>,
        distances: Seq<Vec<u32>>,
        filter: Option<&F>,
        r: int,
        i: nat,
        k: usize,
    )
        requires
            0 <= r < probes.len(),
            i <= self.ids@[probes[r] as int]@.len(),
            flat_probes_fit(self.ids@, probes, distances, filter, k),
        ensures
            is_comparable(
                probe_sequence(self.ids@, probes, distances, filter, r as nat) + list_sequence(
                    self.ids@[probes[r] as int]@,
                    distances[r]@,
                    filter,
                    i,
                ),
                k as nat,
            ),
    {
        let before = probe_sequence(self.ids@, probes, distances, filter, r as nat);
        let part = list_sequence(self.ids@[probes[r] as int]@, distances[r]@, filter, i);
        let whole = probe_sequence(self.ids@, probes, distances, filter, probes.len());
        self.lemma_scanned_first(probes, distances, filter, r, i);
        lemma_comparable_so_far(before + part, whole, k as nat);
    }

    fn scan_probes<F: RowIdFilter>(
        &self,
        probes: &Vec<usize>,
        distances: &Vec<Vec<u32>>,
        k: usize,
        filter: Option<&F>,
    ) -> (out: (FlatTopKHeap, Ghost<Seq<Neighbor>>))
        requires
            flat_probes_fit(self.ids@, probes@, distances@, filter, k),
        ensures
            out.1@ == probe_sequence(self.ids@, probes@, distances@, filter, probes@.len()),
            out.0.spec_k() == k,
            out.0.items() == flat_kept(out.1@, k as nat),
    {
        let mut heap = FlatTopKHeap::new(k);
        let ghost mut offered: Seq<Neighbor> = Seq::empty();
        let mut r: usize = 0;
        while r < probes.len()
            invariant
                r <= probes@.len(),
                flat_probes_fit(self.ids@, probes@, distances@, filter, k),
                offered == probe_sequence(self.ids@, probes@, distances@, filter, r as nat),
                heap.spec_k() == k,
                heap.items() == flat_kept(offered, k as nat),
            decreases probes@.len() - r,
        {
            let ids = &self.ids[probes[r]];
            let row_distances = &distances[r];
            assert(distances@[r as int]@.len() == ids@.len());
            let ghost before = offered;
            let ghost mut listed: Seq<Neighbor> = Seq::empty();
            assert(before + listed =~= before);
            let mut i: usize = 0;
            while i < ids.len()
                invariant
                    i <= ids@.len(),
                    r < probes@.len(),
                    flat_probes_fit(self.ids@, probes@, distances@, filter, k),
                    row_distances@ == distances@[r as int]@,
                    row_distances@.len() == ids@.len(),
                    listed == list_sequence(ids@, row_distances@, filter, i as nat),
                    offered == before + listed,
                    before == probe_sequence(self.ids@, probes@, distances@, filter, r as nat),
                    ids@ == self.ids@[probes@[r as int] as int]@,
                    heap.spec_k() == k,
                    heap.items() == flat_kept(offered, k as nat),
                decreases ids@.len() - i,
            {
                if is_row_allowed(filter, ids[i]) {
                    proof {
                        self.lemma_scanned_so_far(probes@, distances@, filter, r as int, i as nat, k);
                        law_flat_heap_holds_what_it_can(offered, k as nat);
                        let item = (row_distances@[i as int], ids@[i as int]);
                        let more = offered.push(item);
                        assert(more.drop_last() =~= offered);
                        assert(before + listed.push(item) =~= more);
                        listed = listed.push(item);
                        offered = more;
                    }
                    heap.push(row_distances[i], ids[i]);
                }
                i = i + 1;
            }
            r = r + 1;
        }
        (heap, Ghost(offered))
    }
}

} // verus!
