//! Selecting the nearest centroids of a vector.
use crate::arith::smaller;
use crate::kmeans_plan::use_bounded_direct_topk;
use crate::order::{float_less, float_of_total_key, float_total_key, sort_pairs, MAX_DISTANCE};
use vstd::prelude::*;

verus! {

/// A distance and the index of a centroid.
pub type Candidate = (u32, usize);

/// By distance in the total order of bit patterns, then by index.
pub open spec fn candidate_before(a: Candidate, b: Candidate) -> bool {
    crate::order::total_key(a.0) < crate::order::total_key(b.0) || crate::order::total_key(a.0)
        == crate::order::total_key(b.0) && a.1 < b.1
}

pub fn is_before(a: Candidate, b: Candidate) -> (before: bool)
    ensures
        before == candidate_before(a, b),
{
    let left: i64 = float_total_key(a.0);
    let right: i64 = float_total_key(b.0);
    left < right || (left == right && a.1 < b.1)
}

/// Every candidate comes strictly before the next.
pub open spec fn ascending(items: Seq<Candidate>) -> bool {
    forall|i: int, j: int|
        0 <= i < j < items.len() ==> candidate_before(#[trigger] items[i], #[trigger] items[j])
}

/// All candidates come before the one given.
pub open spec fn all_before(items: Seq<Candidate>, last: Candidate) -> bool {
    forall|j: int| 0 <= j < items.len() ==> candidate_before(#[trigger] items[j], last)
}

/// `items` are, in order, the first `limit` of the candidates offered.
pub open spec fn is_selection(
    offered: Set<Candidate>,
    limit: nat,
    items: Seq<Candidate>,
) -> bool {
    &&& items.len() <= limit
    &&& ascending(items)
    &&& forall|j: int| 0 <= j < items.len() ==> offered.contains(#[trigger] items[j])
    &&& forall|x: Candidate| #[trigger]
        offered.contains(x) ==> items.contains(x) || (items.len() == limit && all_before(items, x))
}

/// Of two different candidates one comes before the other.
pub proof fn lemma_candidates_are_ordered(a: Candidate, b: Candidate)
    ensures
        a == b || candidate_before(a, b) || candidate_before(b, a),
{
    if crate::order::total_key(a.0) == crate::order::total_key(b.0) {
        crate::order::law_total_key_is_injective(a.0, b.0);
    }
}

/// Nothing occurs twice in an ascending sequence.
pub proof fn lemma_ascending_is_distinct(items: Seq<Candidate>)
    requires
        ascending(items),
    ensures
        items.no_duplicates(),
{
    assert forall|i: int, j: int| 0 <= i < items.len() && 0 <= j < items.len() && i != j implies
        items[i] != items[j] by {
        if i < j {
            assert(candidate_before(items[i], items[j]));
        } else {
            assert(candidate_before(items[j], items[i]));
        }
    }
}

/// Distinct candidates that all occur in a sequence are no more than it holds;
/// if they are as many, it holds nothing else.
pub proof fn lemma_pigeonhole(inner: Seq<Candidate>, outer: Seq<Candidate>)
    requires
        inner.no_duplicates(),
        forall|i: int| 0 <= i < inner.len() ==> outer.contains(#[trigger] inner[i]),
    ensures
        inner.len() <= outer.len(),
        inner.len() == outer.len() ==> forall|j: int|
            0 <= j < outer.len() ==> inner.contains(#[trigger] outer[j]),
{
    inner.unique_seq_to_set();
    vstd::seq_lib::seq_to_set_is_finite(outer);
    outer.lemma_cardinality_of_set();
    assert(inner.to_set().subset_of(outer.to_set())) by {
        assert forall|x: Candidate| inner.to_set().contains(x) implies outer.to_set().contains(
            x,
        ) by {
            let i = choose|i: int| 0 <= i < inner.len() && inner[i] == x;
            assert(outer.contains(inner[i]));
        }
    }
    vstd::set_lib::lemma_len_subset(inner.to_set(), outer.to_set());
    if inner.len() == outer.len() {
        vstd::set_lib::lemma_subset_equality(inner.to_set(), outer.to_set());
        assert forall|j: int| 0 <= j < outer.len() implies inner.contains(#[trigger] outer[j]) by {
            assert(outer.to_set().contains(outer[j]));
            assert(inner.to_set().contains(outer[j]));
        }
    }
}

/// Where as many offered candidates as fit come before another one, the whole
/// selection comes before it.
pub proof fn lemma_full_selection(
    offered: Set<Candidate>,
    limit: nat,
    items: Seq<Candidate>,
    nearer: Seq<Candidate>,
    last: Candidate,
)
    requires
        is_selection(offered, limit, items),
        nearer.no_duplicates(),
        nearer.len() == limit,
        all_before(nearer, last),
        forall|i: int| 0 <= i < nearer.len() ==> offered.contains(#[trigger] nearer[i]),
    ensures
        items.len() == limit,
        all_before(items, last),
{
    if !(items.len() == limit && all_before(items, last)) {
        assert forall|i: int| 0 <= i < nearer.len() implies items.contains(#[trigger] nearer[i]) by {
            assert(offered.contains(nearer[i]));
            if !items.contains(nearer[i]) {
                assert(all_before(items, nearer[i]));
                assert(candidate_before(nearer[i], last));
                assert(all_before(items, last));
            }
        }
        lemma_pigeonhole(nearer, items);
        assert forall|j: int| 0 <= j < items.len() implies candidate_before(
            #[trigger] items[j],
            last,
        ) by {
            assert(nearer.contains(items[j]));
        }
    }
}

/// Candidates that come after a full selection may be offered or not.
pub proof fn lemma_selection_grows(
    offered: Set<Candidate>,
    all: Set<Candidate>,
    limit: nat,
    items: Seq<Candidate>,
)
    requires
        is_selection(offered, limit, items),
        offered.subset_of(all),
        forall|x: Candidate| #[trigger]
            all.contains(x) && !offered.contains(x) ==> items.len() == limit && all_before(
                items,
                x,
            ),
    ensures
        is_selection(all, limit, items),
{
    assert forall|x: Candidate| #[trigger] all.contains(x) implies items.contains(x) || (items.len()
        == limit && all_before(items, x)) by {
        if offered.contains(x) {
        }
    }
}

/// A selection is determined by what was offered and its size.
pub proof fn law_selection_is_unique(
    offered: Set<Candidate>,
    limit: nat,
    a: Seq<Candidate>,
    b: Seq<Candidate>,
)
    requires
        is_selection(offered, limit, a),
        is_selection(offered, limit, b),
    ensures
        a == b,
{
    lemma_selections_agree(offered, limit, a, b);
    lemma_selections_agree(offered, limit, b, a);
    lemma_same_members(a, b);
}

/// What one selection holds the other holds too.
proof fn lemma_selections_agree(
    offered: Set<Candidate>,
    limit: nat,
    a: Seq<Candidate>,
    b: Seq<Candidate>,
)
    requires
        is_selection(offered, limit, a),
        is_selection(offered, limit, b),
    ensures
        forall|j: int| 0 <= j < a.len() ==> b.contains(#[trigger] a[j]),
{
    assert forall|j: int| 0 <= j < a.len() implies b.contains(#[trigger] a[j]) by {
        assert(offered.contains(a[j]));
        if !b.contains(a[j]) {
            lemma_ascending_is_distinct(b);
            lemma_full_selection(offered, limit, a, b, a[j]);
            assert(candidate_before(a[j], a[j]));
        }
    }
}

/// Two ascending sequences with the same members are equal.
proof fn lemma_same_members(a: Seq<Candidate>, b: Seq<Candidate>)
    requires
        ascending(a),
        ascending(b),
        forall|j: int| 0 <= j < a.len() ==> b.contains(#[trigger] a[j]),
        forall|j: int| 0 <= j < b.len() ==> a.contains(#[trigger] b[j]),
    ensures
        a == b,
    decreases a.len(),
{
    if a.len() == 0 {
        if b.len() > 0 {
            assert(a.contains(b[0]));
        }
        assert(a =~= b);
    } else {
        assert(b.contains(a[0]));
        let x = a.last();
        let y = b.last();
        assert(b.contains(a[a.len() - 1]));
        assert(a.contains(b[b.len() - 1]));
        let p = choose|p: int| 0 <= p < b.len() && b[p] == x;
        let q = choose|q: int| 0 <= q < a.len() && a[q] == y;
        if x != y {
            assert(candidate_before(b[p], b[b.len() - 1]));
            assert(candidate_before(a[q], a[a.len() - 1]));
        }
        let front = a.drop_last();
        let rest = b.drop_last();
        assert forall|j: int| 0 <= j < front.len() implies rest.contains(#[trigger] front[j]) by {
            assert(b.contains(a[j]));
            let k = choose|k: int| 0 <= k < b.len() && b[k] == a[j];
            assert(candidate_before(a[j], a[a.len() - 1]));
            assert(k < b.len() - 1);
            assert(rest[k] == front[j]);
        }
        assert forall|j: int| 0 <= j < rest.len() implies front.contains(#[trigger] rest[j]) by {
            assert(a.contains(b[j]));
            let k = choose|k: int| 0 <= k < a.len() && a[k] == b[j];
            assert(candidate_before(b[j], b[b.len() - 1]));
            assert(k < a.len() - 1);
            assert(front[k] == rest[j]);
        }
        lemma_same_members(front, rest);
        assert(a =~= front.push(x));
        assert(b =~= rest.push(y));
    }
}

/// The candidates with one more put in its place.
pub open spec fn placed(items: Seq<Candidate>, new: Candidate) -> Seq<Candidate>
    decreases items.len(),
{
    if items.len() == 0 || candidate_before(items.last(), new) {
        items.push(new)
    } else {
        placed(items.drop_last(), new).push(items.last())
    }
}

/// The first `limit` of the candidates and a new one.
pub open spec fn admitted(items: Seq<Candidate>, limit: nat, new: Candidate) -> Seq<Candidate> {
    let all = placed(items, new);
    if all.len() <= limit {
        all
    } else {
        all.take(limit as int)
    }
}

/// A new candidate goes between those before it and those after it.
proof fn lemma_placed(items: Seq<Candidate>, new: Candidate) -> (at: int)
    requires
        ascending(items),
        !items.contains(new),
    ensures
        0 <= at <= items.len(),
        placed(items, new) == items.insert(at, new),
        forall|j: int| 0 <= j < at ==> candidate_before(#[trigger] items[j], new),
        forall|j: int| at <= j < items.len() ==> candidate_before(new, #[trigger] items[j]),
        ascending(placed(items, new)),
    decreases items.len(),
{
    if items.len() == 0 || candidate_before(items.last(), new) {
        let at = items.len() as int;
        assert forall|j: int| 0 <= j < at implies candidate_before(#[trigger] items[j], new) by {
            if j < items.len() - 1 {
                assert(candidate_before(items[j], items[items.len() - 1]));
            }
        }
        assert(items.push(new) =~= items.insert(at, new));
        at
    } else {
        let rest = items.drop_last();
        let at = lemma_placed(rest, new);
        let last = items.last();
        assert(candidate_before(new, last)) by {
            assert(items.contains(last));
            lemma_candidates_are_ordered(new, last);
        }
        assert(placed(items, new) =~= items.insert(at, new));
        assert forall|j: int| at <= j < items.len() implies candidate_before(
            new,
            #[trigger] items[j],
        ) by {
            if j < rest.len() {
                assert(rest[j] == items[j]);
            }
        }
        assert forall|j: int| 0 <= j < at implies candidate_before(#[trigger] items[j], new) by {
            assert(rest[j] == items[j]);
        }
        let all = items.insert(at, new);
        assert forall|i: int, j: int| 0 <= i < j < all.len() implies candidate_before(
            #[trigger] all[i],
            #[trigger] all[j],
        ) by {
            if i < at && j > at {
                assert(candidate_before(items[i], items[j - 1]));
            } else if i > at {
                assert(candidate_before(items[i - 1], items[j - 1]));
            } else if j < at {
                assert(candidate_before(items[i], items[j]));
            }
        }
        at
    }
}

/// Admitting a newly offered candidate keeps the selection.
pub proof fn law_admitting_keeps_the_selection(
    offered: Set<Candidate>,
    limit: nat,
    items: Seq<Candidate>,
    new: Candidate,
)
    requires
        is_selection(offered, limit, items),
        !offered.contains(new),
    ensures
        is_selection(offered.insert(new), limit, admitted(items, limit, new)),
{
    assert(!items.contains(new)) by {
        if items.contains(new) {
            let j = choose|j: int| 0 <= j < items.len() && items[j] == new;
            assert(offered.contains(items[j]));
        }
    }
    let at = lemma_placed(items, new);
    let all = placed(items, new);
    let kept = admitted(items, limit, new);
    let now = offered.insert(new);
    assert forall|j: int| 0 <= j < kept.len() implies now.contains(#[trigger] kept[j]) by {
        assert(kept[j] == all[j]);
        if j < at {
            assert(all[j] == items[j]);
        } else if j > at {
            assert(all[j] == items[j - 1]);
        }
    }
    assert forall|i: int, j: int| 0 <= i < j < kept.len() implies candidate_before(
        #[trigger] kept[i],
        #[trigger] kept[j],
    ) by {
        assert(kept[i] == all[i] && kept[j] == all[j]);
    }
    assert forall|x: Candidate| #[trigger] now.contains(x) implies kept.contains(x) || (kept.len()
        == limit && all_before(kept, x)) by {
        if x != new {
            assert(offered.contains(x));
        }
        lemma_kept_or_after(limit, items, new, at, x);
    }
}

/// A candidate that was held, or came after everything held, still does.
proof fn lemma_kept_or_after(
    limit: nat,
    items: Seq<Candidate>,
    new: Candidate,
    at: int,
    x: Candidate,
)
    requires
        0 <= at <= items.len() <= limit,
        placed(items, new) == items.insert(at, new),
        ascending(placed(items, new)),
        forall|j: int| at <= j < items.len() ==> candidate_before(new, #[trigger] items[j]),
        x == new || items.contains(x) || (items.len() == limit && all_before(items, x)),
    ensures
        ({
            let kept = admitted(items, limit, new);
            kept.contains(x) || (kept.len() == limit && all_before(kept, x))
        }),
{
    let all = items.insert(at, new);
    let kept = admitted(items, limit, new);
    if x == new || items.contains(x) {
        let q = if x == new {
            at
        } else {
            let p = choose|p: int| 0 <= p < items.len() && items[p] == x;
            if p < at {
                p
            } else {
                p + 1
            }
        };
        assert(all[q] == x);
        if q < kept.len() {
            assert(kept[q] == x);
        } else {
            assert forall|j: int| 0 <= j < kept.len() implies candidate_before(
                #[trigger] kept[j],
                x,
            ) by {
                assert(kept[j] == all[j]);
                assert(candidate_before(all[j], all[q]));
            }
        }
    } else {
        assert forall|j: int| 0 <= j < kept.len() implies candidate_before(
            #[trigger] kept[j],
            x,
        ) by {
            assert(kept[j] == all[j]);
            if j < at {
                assert(candidate_before(items[j], x));
            } else if j > at {
                assert(candidate_before(items[j - 1], x));
            } else {
                assert(at < items.len());
                assert(candidate_before(new, items[at]));
                assert(candidate_before(items[at], x));
            }
        }
    }
}

/// What is held after all candidates were offered in turn.
pub open spec fn admitted_all(
    items: Seq<Candidate>,
    limit: nat,
    candidates: Seq<Candidate>,
) -> Seq<Candidate>
    decreases candidates.len(),
{
    if candidates.len() == 0 {
        items
    } else {
        admitted(
            admitted_all(items, limit, candidates.drop_last()),
            limit,
            candidates.last(),
        )
    }
}

/// The first `limit` of the candidates, in order.
pub open spec fn first_of(candidates: Seq<Candidate>, limit: nat) -> Seq<Candidate> {
    admitted_all(Seq::empty(), limit, candidates)
}

/// Offering new candidates in turn selects from the old and the new.
pub proof fn lemma_admitting_all(
    offered: Set<Candidate>,
    limit: nat,
    items: Seq<Candidate>,
    candidates: Seq<Candidate>,
)
    requires
        is_selection(offered, limit, items),
        candidates.no_duplicates(),
        forall|i: int| 0 <= i < candidates.len() ==> !offered.contains(#[trigger] candidates[i]),
    ensures
        is_selection(
            offered.union(candidates.to_set()),
            limit,
            admitted_all(items, limit, candidates),
        ),
    decreases candidates.len(),
{
    if candidates.len() == 0 {
        assert(offered.union(candidates.to_set()) =~= offered);
    } else {
        let rest = candidates.drop_last();
        let last = candidates.last();
        assert forall|i: int| 0 <= i < rest.len() implies !offered.contains(#[trigger] rest[i]) by {
            assert(rest[i] == candidates[i]);
        }
        lemma_admitting_all(offered, limit, items, rest);
        let seen = offered.union(rest.to_set());
        assert(!seen.contains(last)) by {
            assert(last == candidates[candidates.len() - 1]);
            if rest.to_set().contains(last) {
                let i = choose|i: int| 0 <= i < rest.len() && rest[i] == last;
                assert(candidates[i] == candidates[candidates.len() - 1]);
            }
        }
        law_admitting_keeps_the_selection(seen, limit, admitted_all(items, limit, rest), last);
        assert(seen.insert(last) =~= offered.union(candidates.to_set())) by {
            assert forall|x: Candidate| candidates.to_set().contains(x) == (rest.to_set().contains(
                x,
            ) || x == last) by {
                if candidates.to_set().contains(x) {
                    let i = choose|i: int| 0 <= i < candidates.len() && candidates[i] == x;
                    if i < rest.len() {
                        assert(rest[i] == x);
                    }
                }
                if rest.to_set().contains(x) {
                    let i = choose|i: int| 0 <= i < rest.len() && rest[i] == x;
                    assert(candidates[i] == x);
                }
                if x == last {
                    assert(candidates[candidates.len() - 1] == x);
                }
            }
        }
    }
}

/// Offering distinct candidates one by one selects the first of them.
pub proof fn law_first_of_selects(candidates: Seq<Candidate>, limit: nat)
    requires
        candidates.no_duplicates(),
    ensures
        is_selection(candidates.to_set(), limit, first_of(candidates, limit)),
        first_of(candidates, limit).len() == (if candidates.len() <= limit {
            candidates.len()
        } else {
            limit
        }),
{
    let none = Set::<Candidate>::empty();
    assert(is_selection(none, limit, Seq::empty()));
    lemma_admitting_all(none, limit, Seq::empty(), candidates);
    assert(none.union(candidates.to_set()) =~= candidates.to_set());
    let items = first_of(candidates, limit);
    lemma_ascending_is_distinct(items);
    assert forall|j: int| 0 <= j < items.len() implies candidates.contains(#[trigger] items[j]) by {
        assert(candidates.to_set().contains(items[j]));
    }
    lemma_pigeonhole(items, candidates);
    if items.len() < limit {
        assert forall|i: int| 0 <= i < candidates.len() implies items.contains(
            #[trigger] candidates[i],
        ) by {
            assert(candidates.to_set().contains(candidates[i]));
        }
        lemma_pigeonhole(candidates, items);
    }
}

/// The candidates of some centroids.
pub open spec fn candidates_of(distances: Seq<u32>, rows: Seq<usize>) -> Seq<Candidate> {
    Seq::new(rows.len(), |i: int| (distances[rows[i] as int], rows[i]))
}

/// The candidates of all centroids.
pub open spec fn all_candidates(distances: Seq<u32>) -> Seq<Candidate> {
    Seq::new(distances.len(), |i: int| (distances[i], i as usize))
}

/// The `count` nearest centroids: by distance, equal distances by index.
pub open spec fn nearest(distances: Seq<u32>, count: nat) -> Seq<Candidate> {
    first_of(all_candidates(distances), count)
}

/// The candidates of all centroids are distinct.
pub proof fn lemma_all_candidates(distances: Seq<u32>)
    requires
        distances.len() <= usize::MAX,
    ensures
        all_candidates(distances).no_duplicates(),
{
}

/// The nearest centroids are the first of all, and no two of them are one.
pub proof fn law_nearest_selects(distances: Seq<u32>, count: nat)
    requires
        distances.len() <= usize::MAX,
    ensures
        is_selection(all_candidates(distances).to_set(), count, nearest(distances, count)),
        nearest(distances, count).len() == (if distances.len() <= count {
            distances.len()
        } else {
            count
        }),
{
    lemma_all_candidates(distances);
    law_first_of_selects(all_candidates(distances), count);
}

/// Keeps the first candidates of those offered, in order.
pub struct BoundedTopK {
    limit: usize,
    items: Vec<Candidate>,
}

impl BoundedTopK {
    /// Candidates that it can hold.
    pub closed spec fn room(self) -> nat {
        self.limit as nat
    }

    /// The candidates that it holds.
    pub closed spec fn held(self) -> Seq<Candidate> {
        self.items@
    }

    pub open spec fn well_formed(self) -> bool {
        self.held().len() <= self.room()
    }

    pub fn new(limit: usize) -> (top: Self)
        ensures
            top.well_formed(),
            top.room() == limit,
            top.held() == Seq::<Candidate>::empty(),
    {
        BoundedTopK { limit, items: Vec::new() }
    }

    pub fn len(&self) -> (len: usize)
        ensures
            len == self.held().len(),
    {
        self.items.len()
    }

    /// The last of the candidates held.
    pub fn worst(&self) -> (worst: Option<Candidate>)
        ensures
            worst == (if self.held().len() == 0 {
                None
            } else {
                Some(self.held().last())
            }),
    {
        let held: usize = self.items.len();
        if held == 0 {
            None
        } else {
            Some(self.items[held - 1])
        }
    }

    /// Offers a candidate. It takes its place among those held, and the last
    /// of them leaves if there is no room for all.
    pub fn push(&mut self, new: Candidate)
        requires
            old(self).well_formed(),
        ensures
            final(self).well_formed(),
            final(self).room() == old(self).room(),
            final(self).held() == admitted(old(self).held(), old(self).room(), new),
    {
        let ghost start = self.items@;
        let held: usize = self.items.len();
        let mut at: usize = held;
        proof {
            assert(start.take(held as int) =~= start);
            assert(start.skip(held as int) =~= Seq::<Candidate>::empty());
            assert(placed(start, new) =~= placed(start.take(at as int), new) + start.skip(
                at as int,
            ));
        }
        while at > 0 && !is_before(self.items[at - 1], new)
            invariant
                at <= held,
                held == self.items@.len(),
                self.items@ == start,
                placed(start, new) == placed(start.take(at as int), new) + start.skip(at as int),
            decreases at,
        {
            proof {
                let here = start.take(at as int);
                assert(here.last() == start[at - 1]);
                assert(here.drop_last() =~= start.take(at - 1));
                assert(placed(here, new) == placed(here.drop_last(), new).push(here.last()));
                assert(placed(here, new) + start.skip(at as int) =~= placed(
                    start.take(at - 1),
                    new,
                ) + start.skip(at - 1));
            }
            at = at - 1;
        }
        proof {
            let here = start.take(at as int);
            if at > 0 {
                assert(here.last() == start[at - 1]);
            }
            assert(placed(here, new) == here.push(new));
            assert(placed(start, new) =~= start.insert(at as int, new));
        }
        if held < self.limit {
            self.items.insert(at, new);
        } else if at < held {
            let _last = self.items.pop();
            self.items.insert(at, new);
            proof {
                assert(self.items@ =~= placed(start, new).take(self.limit as int));
            }
        } else {
            proof {
                assert(placed(start, new).take(self.limit as int) =~= start);
            }
        }
    }

    /// The candidates held, in order.
    pub fn into_sorted(self) -> (items: Vec<Candidate>)
        ensures
            items@ == self.held(),
    {
        self.items
    }
}

/// A sorted rearrangement begins with the first candidates.
proof fn lemma_sorted_prefix(candidates: Seq<Candidate>, sorted: Seq<Candidate>, limit: nat)
    requires
        candidates.no_duplicates(),
        ascending(sorted),
        forall|i: int| 0 <= i < sorted.len() ==> candidates.contains(#[trigger] sorted[i]),
        forall|i: int| 0 <= i < candidates.len() ==> sorted.contains(#[trigger] candidates[i]),
    ensures
        sorted.len() == candidates.len(),
        first_of(candidates, limit) == sorted.take(
            (if limit <= sorted.len() {
                limit
            } else {
                sorted.len()
            }) as int,
        ),
{
    let count = if limit <= sorted.len() {
        limit
    } else {
        sorted.len()
    };
    let prefix = sorted.take(count as int);
    lemma_ascending_is_distinct(sorted);
    lemma_pigeonhole(sorted, candidates);
    lemma_pigeonhole(candidates, sorted);
    let all = candidates.to_set();
    assert forall|j: int| 0 <= j < prefix.len() implies all.contains(#[trigger] prefix[j]) by {
        assert(candidates.contains(sorted[j]));
    }
    assert forall|x: Candidate| #[trigger] all.contains(x) implies prefix.contains(x) || (
    prefix.len() == limit && all_before(prefix, x)) by {
        let i = choose|i: int| 0 <= i < candidates.len() && candidates[i] == x;
        assert(sorted.contains(candidates[i]));
        let p = choose|p: int| 0 <= p < sorted.len() && sorted[p] == x;
        if p < count {
            assert(prefix[p] == x);
        } else {
            assert forall|j: int| 0 <= j < prefix.len() implies candidate_before(
                #[trigger] prefix[j],
                x,
            ) by {
                assert(candidate_before(sorted[j], sorted[p]));
            }
        }
    }
    assert(is_selection(all, limit, prefix));
    law_first_of_selects(candidates, limit);
    law_selection_is_unique(all, limit, prefix, first_of(candidates, limit));
}

/// Candidates with their sort keys.
spec fn keyed(candidates: Seq<Candidate>) -> Seq<(i64, usize)> {
    candidates.map_values(|item: Candidate| (crate::order::total_key(item.0) as i64, item.1))
}

/// The first `limit` of some candidates, in order.
pub fn select_topk_prefix(candidates: &Vec<Candidate>, limit: usize) -> (items: Vec<Candidate>)
    requires
        candidates@.no_duplicates(),
    ensures
        items@ == first_of(candidates@, limit as nat),
{
    let total: usize = candidates.len();
    let mut keys: Vec<(i64, usize)> = Vec::new();
    let mut i: usize = 0;
    while i < total
        invariant
            i <= total,
            total == candidates@.len(),
            keys@ == keyed(candidates@.take(i as int)),
        decreases total - i,
    {
        let item: Candidate = candidates[i];
        keys.push((float_total_key(item.0), item.1));
        proof {
            assert(candidates@.take(i + 1) =~= candidates@.take(i as int).push(item));
            assert(keyed(candidates@.take(i + 1)) =~= keys@);
        }
        i = i + 1;
    }
    let sorted = sort_pairs(keys.as_slice());
    let mut items: Vec<Candidate> = Vec::new();
    let ghost mut whole: Seq<Candidate> = Seq::empty();
    proof {
        assert(candidates@.take(total as int) =~= candidates@);
        whole = Seq::new(sorted@.len(), |p: int| unkeyed(sorted@[p]));
        lemma_unkeyed(candidates@, keys@, sorted@, whole);
        lemma_sorted_prefix(candidates@, whole, limit as nat);
    }
    let count: usize = smaller(limit, total);
    let mut p: usize = 0;
    while p < count
        invariant
            p <= count <= total,
            total == sorted@.len() == whole.len(),
            forall|q: int|
                0 <= q < sorted@.len() ==> -0x8000_0000 <= (#[trigger] sorted@[q]).0 < 0x8000_0000,
            whole == Seq::new(sorted@.len(), |q: int| unkeyed(sorted@[q])),
            items@ == whole.take(p as int),
        decreases count - p,
    {
        let key: (i64, usize) = sorted[p];
        let distance: u32 = float_of_total_key(key.0);
        items.push((distance, key.1));
        proof {
            lemma_unkeyed_one(key, distance);
            assert(whole[p as int] == (distance, key.1));
            assert(whole.take(p + 1) =~= whole.take(p as int).push((distance, key.1)));
        }
        p = p + 1;
    }
    items
}

/// The candidate with a given sort key.
spec fn unkeyed(key: (i64, usize)) -> Candidate {
    (choose|distance: u32| crate::order::total_key(distance) == key.0, key.1)
}

proof fn lemma_unkeyed_one(key: (i64, usize), distance: u32)
    requires
        crate::order::total_key(distance) == key.0,
    ensures
        unkeyed(key) == (distance, key.1),
{
    crate::order::law_total_key_is_injective(unkeyed(key).0, distance);
}

/// Sorting the keys sorts the candidates.
proof fn lemma_unkeyed(
    candidates: Seq<Candidate>,
    keys: Seq<(i64, usize)>,
    sorted: Seq<(i64, usize)>,
    whole: Seq<Candidate>,
)
    requires
        candidates.no_duplicates(),
        keys == keyed(candidates),
        crate::order::pairs_sorted(sorted),
        sorted.to_multiset() == keys.to_multiset(),
        whole == Seq::new(sorted.len(), |p: int| unkeyed(sorted[p])),
    ensures
        ascending(whole),
        forall|q: int|
            0 <= q < sorted.len() ==> -0x8000_0000 <= (#[trigger] sorted[q]).0 < 0x8000_0000
                && crate::order::total_key(whole[q].0) == sorted[q].0,
        forall|i: int| 0 <= i < whole.len() ==> candidates.contains(#[trigger] whole[i]),
        forall|i: int| 0 <= i < candidates.len() ==> whole.contains(#[trigger] candidates[i]),
{
    sorted.to_multiset_ensures();
    keys.to_multiset_ensures();
    assert(keys.no_duplicates()) by {
        assert forall|i: int, j: int| 0 <= i < keys.len() && 0 <= j < keys.len() && i != j implies
            keys[i] != keys[j] by {
            assert(candidates[i] != candidates[j]);
            lemma_candidates_are_ordered(candidates[i], candidates[j]);
        }
    }
    keys.lemma_multiset_has_no_duplicates();
    assert(sorted.no_duplicates()) by {
        assert forall|x: (i64, usize)| sorted.to_multiset().contains(x) implies
            sorted.to_multiset().count(x) == 1 by {}
        sorted.lemma_multiset_has_no_duplicates_conv();
    }
    assert forall|q: int| 0 <= q < sorted.len() implies -0x8000_0000 <= (#[trigger] sorted[q]).0
        < 0x8000_0000 && crate::order::total_key(whole[q].0) == sorted[q].0
        && candidates.contains(whole[q]) by {
        assert(sorted.contains(sorted[q]));
        assert(keys.to_multiset().count(sorted[q]) > 0);
        assert(keys.contains(sorted[q]));
        let i = choose|i: int| 0 <= i < keys.len() && keys[i] == sorted[q];
        lemma_unkeyed_one(keys[i], candidates[i].0);
        assert(candidates[i] == whole[q]);
    }
    assert forall|i: int| 0 <= i < whole.len() implies candidates.contains(#[trigger] whole[i]) by {
        let _ = sorted[i];
    }
    assert forall|i: int| 0 <= i < candidates.len() implies whole.contains(
        #[trigger] candidates[i],
    ) by {
        assert(keys.contains(keys[i]));
        assert(sorted.to_multiset().count(keys[i]) > 0);
        assert(sorted.contains(keys[i]));
        let q = choose|q: int| 0 <= q < sorted.len() && sorted[q] == keys[i];
        lemma_unkeyed_one(keys[i], candidates[i].0);
        assert(whole[q] == candidates[i]);
    }
    assert forall|i: int, j: int| 0 <= i < j < whole.len() implies candidate_before(
        #[trigger] whole[i],
        #[trigger] whole[j],
    ) by {
        assert(sorted[i] != sorted[j]);
        assert(!crate::order::pair_before(sorted[j], sorted[i]));
    }
}

/// A function of row and centroid that always gives the same distance.
pub open spec fn single_valued<D: Fn(usize, usize) -> u32>(distance_of: D) -> bool {
    forall|row: usize, c: usize, a: u32, b: u32|
        #![trigger call_ensures(distance_of, (row, c), a), call_ensures(distance_of, (row, c), b)]
        call_ensures(distance_of, (row, c), a) && call_ensures(distance_of, (row, c), b) ==> a == b
}

/// The function gives the distance of a row to each of `k` centroids.
pub open spec fn measures_row<D: Fn(usize, usize) -> u32>(
    distance_of: D,
    row: usize,
    k: nat,
) -> bool {
    &&& single_valued(distance_of)
    &&& forall|c: usize| c < k ==> #[trigger] call_requires(distance_of, (row, c))
}

/// The distance that the function gives.
pub open spec fn distance_at<D: Fn(usize, usize) -> u32>(
    distance_of: D,
    row: usize,
    c: usize,
) -> u32 {
    choose|x: u32| call_ensures(distance_of, (row, c), x)
}

/// The distances of a row to `k` centroids.
pub open spec fn distances_of<D: Fn(usize, usize) -> u32>(
    distance_of: D,
    row: usize,
    k: nat,
) -> Seq<u32> {
    Seq::new(k, |c: int| distance_at(distance_of, row, c as usize))
}

/// Measures one centroid.
pub fn measure<D: Fn(usize, usize) -> u32>(row: usize, c: usize, distance_of: &D) -> (distance: u32)
    requires
        single_valued(*distance_of),
        call_requires(*distance_of, (row, c)),
    ensures
        distance == distance_at(*distance_of, row, c),
{
    let distance: u32 = distance_of(row, c);
    assert(call_ensures(*distance_of, (row, c), distance));
    distance
}

/// The indexes of candidates.
pub open spec fn indexes(items: Seq<Candidate>) -> Seq<usize> {
    items.map_values(|item: Candidate| item.1)
}

/// The distances of candidates.
pub open spec fn measures(items: Seq<Candidate>) -> Seq<u32> {
    items.map_values(|item: Candidate| item.0)
}

/// The index of the nearest centroid in the order of numbers. Ties go to the
/// smallest index; zero if no distance is below the largest finite number.
pub fn find_nearest<D: Fn(usize, usize) -> u32>(row: usize, k: usize, distance_of: &D) -> (best:
    usize)
    requires
        measures_row(*distance_of, row, k as nat),
    ensures
        crate::pq::is_argmin(distances_of(*distance_of, row, k as nat), best as int),
{
    let ghost distances = distances_of(*distance_of, row, k as nat);
    let mut best: usize = 0;
    let mut best_distance: u32 = MAX_DISTANCE;
    let mut c: usize = 0;
    while c < k
        invariant
            c <= k,
            best <= c,
            measures_row(*distance_of, row, k as nat),
            distances == distances_of(*distance_of, row, k as nat),
            best_distance == MAX_DISTANCE ==> best == 0 && forall|i: int|
                0 <= i < c ==> !crate::order::less(#[trigger] distances[i], MAX_DISTANCE),
            best_distance != MAX_DISTANCE ==> {
                &&& best < c
                &&& best_distance == distances[best as int]
                &&& crate::order::less(best_distance, MAX_DISTANCE)
                &&& forall|i: int|
                    0 <= i < c ==> !crate::order::less(#[trigger] distances[i], best_distance)
                &&& forall|i: int|
                    0 <= i < best ==> crate::order::is_nan(#[trigger] distances[i])
                        || crate::order::less(best_distance, distances[i])
            },
        decreases k - c,
    {
        let distance: u32 = measure(row, c, distance_of);
        assert(distance == distances[c as int]);
        if float_less(distance, best_distance) {
            best_distance = distance;
            best = c;
        }
        c = c + 1;
    }
    best
}

/// The first of all centroids.
pub fn find_top1<D: Fn(usize, usize) -> u32>(row: usize, k: usize, distance_of: &D) -> (best:
    Candidate)
    requires
        k > 0,
        measures_row(*distance_of, row, k as nat),
    ensures
        seq![best] == nearest(distances_of(*distance_of, row, k as nat), 1),
{
    let ghost distances = distances_of(*distance_of, row, k as nat);
    let first: u32 = measure(row, 0, distance_of);
    let mut best: Candidate = (first, 0);
    proof {
        reveal_with_fuel(admitted_all, 2);
        let one = all_candidates(distances).take(1);
        assert(one.drop_last() =~= Seq::<Candidate>::empty());
        assert(one.last() == best);
        assert(placed(Seq::empty(), best) =~= seq![best]);
        assert(first_of(one, 1) =~= seq![best]);
    }
    let mut c: usize = 1;
    while c < k
        invariant
            1 <= c <= k,
            measures_row(*distance_of, row, k as nat),
            distances == distances_of(*distance_of, row, k as nat),
            seq![best] == first_of(all_candidates(distances).take(c as int), 1),
        decreases k - c,
    {
        let next: Candidate = (measure(row, c, distance_of), c);
        proof {
            let seen = all_candidates(distances).take(c as int);
            let more = all_candidates(distances).take(c + 1);
            assert(more.drop_last() =~= seen);
            assert(more.last() == next);
            let held = seq![best];
            assert(held.drop_last() =~= Seq::<Candidate>::empty());
            reveal_with_fuel(placed, 2);
            if candidate_before(best, next) {
                assert(placed(held, next) =~= seq![best, next]);
                assert(admitted(held, 1, next) =~= seq![best]);
            } else {
                assert(placed(held, next) =~= seq![next, best]);
                assert(admitted(held, 1, next) =~= seq![next]);
                lemma_candidates_are_ordered(best, next);
            }
        }
        if is_before(next, best) {
            best = next;
        }
        c = c + 1;
    }
    proof {
        assert(all_candidates(distances).take(k as int) =~= all_candidates(distances));
    }
    best
}

/// The nearest of more than one centroid, where one worker of `workers` runs.
fn find_topk_multiple<D: Fn(usize, usize) -> u32>(
    row: usize,
    k: usize,
    nprobe: usize,
    workers: usize,
    distance_of: &D,
) -> (items: Vec<Candidate>)
    requires
        measures_row(*distance_of, row, k as nat),
    ensures
        items@ == nearest(distances_of(*distance_of, row, k as nat), nprobe as nat),
{
    let ghost distances = distances_of(*distance_of, row, k as nat);
    let ghost all = all_candidates(distances);
    proof {
        assert(all.take(0) =~= Seq::<Candidate>::empty());
        assert(all.take(k as int) =~= all);
        lemma_all_candidates(distances);
    }
    if use_bounded_direct_topk(k, nprobe, workers) {
        let mut top = BoundedTopK::new(nprobe);
        let mut c: usize = 0;
        while c < k
            invariant
                c <= k,
                measures_row(*distance_of, row, k as nat),
                distances == distances_of(*distance_of, row, k as nat),
                all == all_candidates(distances),
                top.well_formed(),
                top.room() == nprobe,
                top.held() == first_of(all.take(c as int), nprobe as nat),
            decreases k - c,
        {
            let distance: u32 = measure(row, c, distance_of);
            top.push((distance, c));
            proof {
                assert(all.take(c + 1).drop_last() =~= all.take(c as int));
                assert(all.take(c + 1).last() == (distance, c));
            }
            c = c + 1;
        }
        return top.into_sorted();
    }
    let mut candidates: Vec<Candidate> = Vec::new();
    let mut c: usize = 0;
    while c < k
        invariant
            c <= k,
            measures_row(*distance_of, row, k as nat),
            distances == distances_of(*distance_of, row, k as nat),
            all == all_candidates(distances),
            candidates@ == all.take(c as int),
        decreases k - c,
    {
        let distance: u32 = measure(row, c, distance_of);
        candidates.push((distance, c));
        assert(all.take(c + 1) =~= all.take(c as int).push((distance, c)));
        c = c + 1;
    }
    select_topk_prefix(&candidates, nprobe)
}

/// The `nprobe` nearest of `k` centroids, or all if there are fewer, where one
/// worker of `workers` runs.
pub fn find_topk_with_workers<D: Fn(usize, usize) -> u32>(
    row: usize,
    k: usize,
    nprobe: usize,
    workers: usize,
    distance_of: &D,
) -> (items: Vec<Candidate>)
    requires
        measures_row(*distance_of, row, k as nat),
    ensures
        items@ == nearest(distances_of(*distance_of, row, k as nat), nprobe as nat),
        items@.len() == (if nprobe <= k {
            nprobe
        } else {
            k
        }),
{
    let ghost distances = distances_of(*distance_of, row, k as nat);
    let probes: usize = smaller(nprobe, k);
    proof {
        law_nearest_selects(distances, nprobe as nat);
        law_nearest_selects(distances, probes as nat);
        if probes < nprobe {
            lemma_all_of(distances, nprobe as nat);
        }
    }
    if probes == 0 {
        let none: Vec<Candidate> = Vec::new();
        assert(none@ =~= nearest(distances, nprobe as nat));
        return none;
    }
    if probes == 1 {
        let best: Candidate = find_top1(row, k, distance_of);
        let mut items: Vec<Candidate> = Vec::new();
        items.push(best);
        assert(items@ =~= seq![best]);
        return items;
    }
    find_topk_multiple(row, k, probes, workers, distance_of)
}

/// Asking for more centroids than there are gives all of them.
proof fn lemma_all_of(distances: Seq<u32>, count: nat)
    requires
        distances.len() <= usize::MAX,
        distances.len() <= count,
    ensures
        nearest(distances, count) == nearest(distances, distances.len()),
{
    let all = all_candidates(distances);
    law_nearest_selects(distances, count);
    law_nearest_selects(distances, distances.len());
    let some = nearest(distances, distances.len());
    assert forall|x: Candidate| #[trigger] all.to_set().contains(x) implies some.contains(x) by {
        lemma_all_candidates(distances);
        lemma_ascending_is_distinct(some);
        assert forall|j: int| 0 <= j < some.len() implies all.contains(#[trigger] some[j]) by {
            assert(all.to_set().contains(some[j]));
        }
        lemma_pigeonhole(some, all);
        let i = choose|i: int| 0 <= i < all.len() && all[i] == x;
        assert(some.contains(all[i]));
    }
    assert(is_selection(all.to_set(), count, some));
    law_selection_is_unique(all.to_set(), count, some, nearest(distances, count));
}

/// Splits candidates into indexes and distances.
pub fn split_candidates(items: &Vec<Candidate>) -> (split: (Vec<usize>, Vec<u32>))
    ensures
        split.0@ == indexes(items@),
        split.1@ == measures(items@),
{
    let total: usize = items.len();
    let mut rows: Vec<usize> = Vec::new();
    let mut distances: Vec<u32> = Vec::new();
    let mut i: usize = 0;
    while i < total
        invariant
            i <= total,
            total == items@.len(),
            rows@ == indexes(items@.take(i as int)),
            distances@ == measures(items@.take(i as int)),
        decreases total - i,
    {
        let item: Candidate = items[i];
        rows.push(item.1);
        distances.push(item.0);
        proof {
            assert(items@.take(i + 1) =~= items@.take(i as int).push(item));
            assert(indexes(items@.take(i + 1)) =~= rows@);
            assert(measures(items@.take(i + 1)) =~= distances@);
        }
        i = i + 1;
    }
    assert(items@.take(total as int) =~= items@);
    (rows, distances)
}

/// The indexes and distances of the `nprobe` nearest centroids, nearest first.
pub fn find_topk<D: Fn(usize, usize) -> u32>(
    row: usize,
    k: usize,
    nprobe: usize,
    distance_of: &D,
) -> (found: (Vec<usize>, Vec<u32>))
    requires
        measures_row(*distance_of, row, k as nat),
    ensures
        found.0@ == indexes(nearest(distances_of(*distance_of, row, k as nat), nprobe as nat)),
        found.1@ == measures(nearest(distances_of(*distance_of, row, k as nat), nprobe as nat)),
{
    let items = find_topk_with_workers(row, k, nprobe, 1, distance_of);
    split_candidates(&items)
}

} // verus!
