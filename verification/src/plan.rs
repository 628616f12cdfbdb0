//! Deciding which lists a batch of queries reads, and in what order.
use crate::order::stable_order;
use crate::topk::Neighbor;
use vstd::prelude::*;

verus! {

/// Why a search request is refused.
#[derive(Debug, Clone, Copy, PartialEq, Eq, Structural)]
pub enum SearchError {
    /// `nq must be greater than 0`
    NoQueries,
    /// `nq * dimension overflows usize`
    QueryLengthOverflow,
    /// The queries hold `actual` components instead of `expected`.
    QueryLengthMismatch { actual: usize, expected: usize },
    /// `k must be greater than 0`
    ZeroK,
    /// `nprobe must be greater than 0`
    ZeroProbes,
    /// `probe range must be non-empty`
    EmptyProbeRange,
    /// `nq * k overflows usize`
    SeedLengthOverflow,
    /// `seed result lengths must both equal nq * k`
    SeedLengthMismatch,
}

/// Seeds are absent or cover every place of the result.
pub open spec fn seed_problem(ids: int, distances: int, nq: int, k: int) -> Option<SearchError> {
    if nq * k > usize::MAX {
        Some(SearchError::SeedLengthOverflow)
    } else if ids == 0 && distances == 0 || ids == nq * k && distances == nq * k {
        None
    } else {
        Some(SearchError::SeedLengthMismatch)
    }
}

pub fn validate_batch_seed(
    seed_ids: &[i64],
    seed_distances: &[u32],
    nq: usize,
    k: usize,
) -> (result: Result<(), SearchError>)
    ensures
        match result {
            Ok(_) => seed_problem(
                seed_ids@.len() as int,
                seed_distances@.len() as int,
                nq as int,
                k as int,
            ) is None,
            Err(error) => seed_problem(
                seed_ids@.len() as int,
                seed_distances@.len() as int,
                nq as int,
                k as int,
            ) == Some(error),
        },
{
    let expected: usize = match nq.checked_mul(k) {
        Some(expected) => expected,
        None => {
            return Err(SearchError::SeedLengthOverflow);
        },
    };
    if (seed_ids.len() == 0 && seed_distances.len() == 0) || (seed_ids.len() == expected
        && seed_distances.len() == expected) {
        Ok(())
    } else {
        Err(SearchError::SeedLengthMismatch)
    }
}

/// What is wrong with a batch request, looking at its parts in order.
pub open spec fn batch_problem(
    query_len: int,
    d: int,
    nq: int,
    k: int,
    probe_start: int,
    probe_end: int,
    seed_ids: int,
    seed_distances: int,
) -> Option<SearchError> {
    if nq == 0 {
        Some(SearchError::NoQueries)
    } else if nq * d > usize::MAX {
        Some(SearchError::QueryLengthOverflow)
    } else if query_len != nq * d {
        Some(
            SearchError::QueryLengthMismatch {
                actual: query_len as usize,
                expected: (nq * d) as usize,
            },
        )
    } else if k == 0 {
        Some(SearchError::ZeroK)
    } else if probe_start >= probe_end {
        Some(SearchError::EmptyProbeRange)
    } else {
        seed_problem(seed_ids, seed_distances, nq, k)
    }
}

pub fn validate_batch_search(
    query_len: usize,
    d: usize,
    nq: usize,
    k: usize,
    probe_start: usize,
    probe_end: usize,
    seed_ids: &[i64],
    seed_distances: &[u32],
) -> (result: Result<(), SearchError>)
    ensures
        ({
            let problem = batch_problem(
                query_len as int,
                d as int,
                nq as int,
                k as int,
                probe_start as int,
                probe_end as int,
                seed_ids@.len() as int,
                seed_distances@.len() as int,
            );
            match result {
                Ok(_) => problem is None,
                Err(error) => problem == Some(error),
            }
        }),
{
    if nq == 0 {
        return Err(SearchError::NoQueries);
    }
    let expected: usize = match nq.checked_mul(d) {
        Some(expected) => expected,
        None => {
            return Err(SearchError::QueryLengthOverflow);
        },
    };
    if query_len != expected {
        return Err(SearchError::QueryLengthMismatch { actual: query_len, expected });
    }
    if k == 0 {
        return Err(SearchError::ZeroK);
    }
    if probe_start >= probe_end {
        return Err(SearchError::EmptyProbeRange);
    }
    validate_batch_seed(seed_ids, seed_distances, nq, k)
}

/// What is wrong with a request for one query.
pub open spec fn single_problem(query_len: int, d: int, k: int, nprobe: int) -> Option<
    SearchError,
> {
    if query_len != d {
        Some(
            SearchError::QueryLengthMismatch { actual: query_len as usize, expected: d as usize },
        )
    } else if k == 0 {
        Some(SearchError::ZeroK)
    } else if nprobe == 0 {
        Some(SearchError::ZeroProbes)
    } else {
        None
    }
}

pub fn validate_search(query_len: usize, d: usize, k: usize, nprobe: usize) -> (result: Result<
    (),
    SearchError,
>)
    ensures
        match result {
            Ok(_) => single_problem(query_len as int, d as int, k as int, nprobe as int) is None,
            Err(error) => single_problem(query_len as int, d as int, k as int, nprobe as int)
                == Some(error),
        },
{
    if query_len != d {
        Err(SearchError::QueryLengthMismatch { actual: query_len, expected: d })
    } else if k == 0 {
        Err(SearchError::ZeroK)
    } else if nprobe == 0 {
        Err(SearchError::ZeroProbes)
    } else {
        Ok(())
    }
}

/// Every probe names one of `nlist` lists.
pub open spec fn probes_valid(probes: Seq<Vec<usize>>, nlist: nat) -> bool {
    forall|q: int, r: int|
        0 <= q < probes.len() && 0 <= r < probes[q]@.len() ==> #[trigger] probes[q]@[r] < nlist
}

/// The probes of one query from rank `start` on.
pub open spec fn from_rank(probes: Seq<usize>, start: nat) -> Seq<usize> {
    if start <= probes.len() {
        probes.skip(start as int)
    } else {
        Seq::empty()
    }
}

/// The probes of all queries from rank `start` on, one query after the other.
pub open spec fn probed(probes: Seq<Vec<usize>>, start: nat) -> Seq<usize>
    decreases probes.len(),
{
    if probes.len() == 0 {
        Seq::empty()
    } else {
        probed(probes.drop_last(), start) + from_rank(probes.last()@, start)
    }
}

/// The lists to keep, each where it first occurs.
pub open spec fn first_occurrences(lists: Seq<usize>, keep: spec_fn(usize) -> bool) -> Seq<usize>
    decreases lists.len(),
{
    if lists.len() == 0 {
        Seq::empty()
    } else {
        let before = first_occurrences(lists.drop_last(), keep);
        if keep(lists.last()) && !before.contains(lists.last()) {
            before.push(lists.last())
        } else {
            before
        }
    }
}

/// First occurrences are distinct and are the kept lists.
pub proof fn lemma_first_occurrences(lists: Seq<usize>, keep: spec_fn(usize) -> bool)
    ensures
        first_occurrences(lists, keep).no_duplicates(),
        forall|l: usize| #[trigger]
            first_occurrences(lists, keep).contains(l) <==> lists.contains(l) && keep(l),
    decreases lists.len(),
{
    if lists.len() > 0 {
        let shorter = lists.drop_last();
        lemma_first_occurrences(shorter, keep);
        let before = first_occurrences(shorter, keep);
        let last = lists.last();
        assert forall|l: usize| #[trigger]
            first_occurrences(lists, keep).contains(l) <==> lists.contains(l) && keep(l) by {
            if shorter.contains(l) {
                let i = choose|i: int| 0 <= i < shorter.len() && shorter[i] == l;
                assert(lists[i] == l);
            }
            if lists.contains(l) && l != last {
                let i = choose|i: int| 0 <= i < lists.len() && lists[i] == l;
                assert(shorter[i] == l);
            }
            if l == last {
                assert(lists[lists.len() - 1] == l);
            }
            if keep(last) && !before.contains(last) {
                assert(before.push(last)[before.len() as int] == last);
                if before.contains(l) {
                    let i = choose|i: int| 0 <= i < before.len() && before[i] == l;
                    assert(before.push(last)[i] == l);
                }
                if before.push(last).contains(l) && l != last {
                    let i = choose|i: int|
                        0 <= i < before.push(last).len() && before.push(last)[i] == l;
                    assert(before[i] == l);
                }
            }
        }
    }
}

/// Which lists are worth reading.
pub open spec fn worth_reading(counts: Seq<i32>, skip_empty: bool) -> spec_fn(usize) -> bool {
    |list: usize| !skip_empty || counts[list as int] > 0
}

/// The lists that any query probes from rank `start` on, in the order in which
/// they first occur; lists without rows are left out if `skip_empty`.
pub fn unique_lists(
    probes: &Vec<Vec<usize>>,
    start: usize,
    counts: &[i32],
    skip_empty: bool,
) -> (lists: Vec<usize>)
    requires
        probes_valid(probes@, counts@.len()),
    ensures
        lists@ == first_occurrences(
            probed(probes@, start as nat),
            worth_reading(counts@, skip_empty),
        ),
        lists@.no_duplicates(),
        forall|i: int| 0 <= i < lists@.len() ==> #[trigger] lists@[i] < counts@.len(),
{
    let ghost keep = worth_reading(counts@, skip_empty);
    let nlist: usize = counts.len();
    let mut seen: Vec<bool> = vec![false; nlist];
    let mut lists: Vec<usize> = Vec::new();
    let mut q: usize = 0;
    while q < probes.len()
        invariant
            q <= probes@.len(),
            probes_valid(probes@, counts@.len()),
            keep == worth_reading(counts@, skip_empty),
            seen@.len() == counts@.len() == nlist,
            lists@ == first_occurrences(probed(probes@.take(q as int), start as nat), keep),
            forall|i: int| 0 <= i < lists@.len() ==> #[trigger] lists@[i] < counts@.len(),
            forall|l: int|
                0 <= l < seen@.len() ==> #[trigger] seen@[l] == lists@.contains(l as usize),
        decreases probes@.len() - q,
    {
        let row = &probes[q];
        let ghost earlier = probed(probes@.take(q as int), start as nat);
        proof {
            assert(probes@.take(q + 1).drop_last() =~= probes@.take(q as int));
            assert(from_rank(row@, start as nat).take(0) =~= Seq::<usize>::empty());
            assert(earlier + Seq::<usize>::empty() =~= earlier);
        }
        let mut r: usize = start;
        while r < row.len()
            invariant
                q < probes@.len(),
                row@ == probes@[q as int]@,
                start <= r,
                start <= row@.len() ==> r <= row@.len(),
                probes_valid(probes@, counts@.len()),
                keep == worth_reading(counts@, skip_empty),
                seen@.len() == counts@.len() == nlist,
                earlier == probed(probes@.take(q as int), start as nat),
                start <= row@.len() ==> lists@ == first_occurrences(
                    earlier + from_rank(row@, start as nat).take(r - start),
                    keep,
                ),
                start > row@.len() ==> lists@ == first_occurrences(earlier, keep),
                forall|i: int| 0 <= i < lists@.len() ==> #[trigger] lists@[i] < counts@.len(),
                forall|l: int|
                    0 <= l < seen@.len() ==> #[trigger] seen@[l] == lists@.contains(l as usize),
            decreases row@.len() - r,
        {
            let list: usize = row[r];
            let ghost before = lists@;
            proof {
                let sofar = earlier + from_rank(row@, start as nat).take(r - start);
                let next = earlier + from_rank(row@, start as nat).take(r + 1 - start);
                assert(next.drop_last() =~= sofar);
                assert(next.last() == list);
            }
            if !seen[list] && (!skip_empty || counts[list] > 0) {
                seen.set(list, true);
                lists.push(list);
                assert forall|l: int| 0 <= l < seen@.len() implies #[trigger] seen@[l]
                    == lists@.contains(l as usize) by {
                    if before.contains(l as usize) {
                        let i = choose|i: int| 0 <= i < before.len() && before[i] == l as usize;
                        assert(lists@[i] == l as usize);
                    }
                    if l == list {
                        assert(lists@[before.len() as int] == list);
                    } else if lists@.contains(l as usize) {
                        let i = choose|i: int| 0 <= i < lists@.len() && lists@[i] == l as usize;
                        assert(before[i] == l as usize);
                    }
                }
            }
            r = r + 1;
        }
        proof {
            if start <= row@.len() {
                assert(from_rank(row@, start as nat).take(row@.len() - start) =~= from_rank(
                    row@,
                    start as nat,
                ));
            } else {
                assert(earlier + Seq::<usize>::empty() =~= earlier);
            }
            assert(probes@.take(q + 1).last() == probes@[q as int]);
        }
        q = q + 1;
    }
    proof {
        assert(probes@.take(probes@.len() as int) =~= probes@);
        lemma_first_occurrences(probed(probes@, start as nat), keep);
    }
    lists
}

/// The offsets of the lists.
pub open spec fn offset_keys(lists: Seq<usize>, offsets: Seq<i64>) -> Seq<i64> {
    Seq::new(lists.len(), |i: int| offsets[lists[i] as int])
}

/// `sorted` are `lists` by ascending offset.
pub open spec fn by_offset(lists: Seq<usize>, offsets: Seq<i64>, sorted: Seq<usize>) -> bool {
    exists|order: Seq<usize>| #[trigger]
        crate::order::is_stable_order(offset_keys(lists, offsets), order) && sorted == Seq::new(
            order.len(),
            |i: int| lists[order[i] as int],
        )
}

/// Sorting by offset keeps the lists and orders their offsets.
pub proof fn law_reads_ascend(lists: Seq<usize>, offsets: Seq<i64>, sorted: Seq<usize>)
    requires
        by_offset(lists, offsets, sorted),
    ensures
        sorted.len() == lists.len(),
        lists.no_duplicates() ==> sorted.no_duplicates(),
        forall|i: int| 0 <= i < sorted.len() ==> lists.contains(#[trigger] sorted[i]),
        forall|i: int, j: int|
            0 <= i < j < sorted.len() ==> offsets[#[trigger] sorted[i] as int]
                <= offsets[#[trigger] sorted[j] as int],
{
    let order = choose|order: Seq<usize>| #[trigger]
        crate::order::is_stable_order(offset_keys(lists, offsets), order) && sorted == Seq::new(
            order.len(),
            |i: int| lists[order[i] as int],
        );
    let keys = offset_keys(lists, offsets);
    assert forall|i: int| 0 <= i < sorted.len() implies lists.contains(#[trigger] sorted[i]) by {
        assert(order[i] < order.len());
    }
    assert forall|i: int, j: int| 0 <= i < j < sorted.len() implies offsets[#[trigger] sorted[i] as int]
        <= offsets[#[trigger] sorted[j] as int] by {
        assert(crate::order::pair_before(
            (keys[order[i] as int], order[i]),
            (keys[order[j] as int], order[j]),
        ));
    }
    if lists.no_duplicates() {
        assert forall|i: int, j: int| 0 <= i < sorted.len() && 0 <= j < sorted.len() && i
            != j implies sorted[i] != sorted[j] by {
            assert(order[i] != order[j]);
        }
    }
}

/// Orders lists by where their payloads lie.
pub fn sort_by_offset(lists: &Vec<usize>, offsets: &[i64]) -> (sorted: Vec<usize>)
    requires
        forall|i: int| 0 <= i < lists@.len() ==> #[trigger] lists@[i] < offsets@.len(),
    ensures
        by_offset(lists@, offsets@, sorted@),
{
    let mut keys: Vec<i64> = Vec::new();
    let mut i: usize = 0;
    while i < lists.len()
        invariant
            i <= lists@.len(),
            forall|j: int| 0 <= j < lists@.len() ==> #[trigger] lists@[j] < offsets@.len(),
            keys@ == offset_keys(lists@.take(i as int), offsets@),
        decreases lists@.len() - i,
    {
        let list: usize = lists[i];
        keys.push(offsets[list]);
        assert(keys@ =~= offset_keys(lists@.take(i + 1), offsets@));
        i = i + 1;
    }
    assert(lists@.take(lists@.len() as int) =~= lists@);
    let order = stable_order(keys.as_slice());
    let mut sorted: Vec<usize> = Vec::new();
    let mut k: usize = 0;
    while k < order.len()
        invariant
            k <= order@.len(),
            order@.len() == lists@.len(),
            crate::rq::is_permutation(order@),
            sorted@ == Seq::new(k as nat, |x: int| lists@[order@[x] as int]),
        decreases order@.len() - k,
    {
        let at: usize = order[k];
        sorted.push(lists[at]);
        k = k + 1;
    }
    sorted
}

/// The last place at which `list` was loaded, if it was.
pub open spec fn loaded_at(loaded: Seq<usize>, list: usize) -> Option<int>
    decreases loaded.len(),
{
    if loaded.len() == 0 {
        None
    } else if loaded.last() == list {
        Some(loaded.len() - 1)
    } else {
        loaded_at(loaded.drop_last(), list)
    }
}

pub proof fn lemma_loaded_at(loaded: Seq<usize>, list: usize)
    ensures
        match loaded_at(loaded, list) {
            Some(p) => 0 <= p < loaded.len() && loaded[p] == list,
            None => !loaded.contains(list),
        },
    decreases loaded.len(),
{
    if loaded.len() > 0 && loaded.last() != list {
        lemma_loaded_at(loaded.drop_last(), list);
        if loaded.contains(list) {
            let i = choose|i: int| 0 <= i < loaded.len() && loaded[i] == list;
            assert(loaded.drop_last()[i] == list);
        }
    }
}

/// For each list, where it was loaded; `usize::MAX` for a list that was not.
pub fn list_positions(loaded: &[usize], nlist: usize) -> (positions: Vec<usize>)
    requires
        loaded@.len() < usize::MAX,
        forall|i: int| 0 <= i < loaded@.len() ==> #[trigger] loaded@[i] < nlist,
    ensures
        positions@.len() == nlist,
        forall|l: int|
            0 <= l < nlist ==> #[trigger] positions@[l] == (match loaded_at(loaded@, l as usize) {
                Some(p) => p as usize,
                None => usize::MAX,
            }),
{
    let mut positions: Vec<usize> = vec![usize::MAX; nlist];
    assert(loaded@.take(0) =~= Seq::<usize>::empty());
    let mut i: usize = 0;
    while i < loaded.len()
        invariant
            i <= loaded@.len(),
            loaded@.len() < usize::MAX,
            positions@.len() == nlist,
            forall|j: int| 0 <= j < loaded@.len() ==> #[trigger] loaded@[j] < nlist,
            forall|l: int|
                0 <= l < nlist ==> #[trigger] positions@[l] == (match loaded_at(
                    loaded@.take(i as int),
                    l as usize,
                ) {
                    Some(p) => p as usize,
                    None => usize::MAX,
                }),
        decreases loaded@.len() - i,
    {
        let list: usize = loaded[i];
        positions.set(list, i);
        assert(loaded@.take(i + 1).drop_last() =~= loaded@.take(i as int));
        assert(loaded@.take(i + 1).last() == list);
        i = i + 1;
    }
    assert(loaded@.take(loaded@.len() as int) =~= loaded@);
    positions
}

/// The seeds of one query: its places of the given results that are in use.
pub open spec fn seeds_of(
    seed_ids: Seq<i64>,
    seed_distances: Seq<u32>,
    query: int,
    k: nat,
    n: nat,
) -> Seq<Neighbor>
    decreases n,
{
    if n == 0 || seed_ids.len() == 0 {
        Seq::empty()
    } else {
        let before = seeds_of(seed_ids, seed_distances, query, k, (n - 1) as nat);
        let at = query * k + n - 1;
        if seed_distances[at] != crate::order::MAX_DISTANCE {
            before.push((seed_distances[at], seed_ids[at]))
        } else {
            before
        }
    }
}

/// The in-use places of `seed_ids` and `seed_distances` that belong to `query`.
pub fn query_seeds(seed_ids: &[i64], seed_distances: &[u32], query: usize, k: usize) -> (seeds:
    Vec<Neighbor>)
    requires
        seed_ids@.len() == seed_distances@.len(),
        seed_ids@.len() == 0 || (query + 1) * k <= seed_ids@.len(),
    ensures
        seeds@ == seeds_of(seed_ids@, seed_distances@, query as int, k as nat, k as nat),
{
    let mut seeds: Vec<Neighbor> = Vec::new();
    if seed_ids.len() == 0 {
        return seeds;
    }
    assert((query + 1) * k == query * k + k) by (nonlinear_arith);
    assert(0 <= query * k) by (nonlinear_arith);
    let start: usize = query * k;
    let total: usize = seed_ids.len();
    let mut i: usize = 0;
    while i < k
        invariant
            i <= k,
            start == query * k,
            start + k <= total,
            total == seed_ids@.len(),
            seed_ids@.len() == seed_distances@.len(),
            seed_ids@.len() > 0,
            seeds@ == seeds_of(seed_ids@, seed_distances@, query as int, k as nat, i as nat),
        decreases k - i,
    {
        let distance: u32 = seed_distances[start + i];
        if distance != crate::order::MAX_DISTANCE {
            seeds.push((distance, seed_ids[start + i]));
        }
        i = i + 1;
    }
    seeds
}

} // verus!
