//! Nearest centroids from approximate distances, confirmed by exact ones.
use crate::nearest::{
    find_topk_with_workers, measure, select_topk_prefix, Candidate,
};
use crate::order::{float_is_nan, float_key, float_less, INFINITE_DISTANCE};
use crate::pq::are_finite;
use vstd::prelude::*;

verus! {

/// An approximate distance; a negative one counts as zero.
pub open spec fn clamped(approximation: u32) -> u32 {
    if crate::order::less(0, approximation) {
        approximation
    } else {
        0
    }
}

pub fn clamp(approximation: u32) -> (distance: u32)
    ensures
        distance == clamped(approximation),
{
    if float_less(0, approximation) {
        approximation
    } else {
        0
    }
}

/// Numeric `a <= b`; false when either is not a number.
pub open spec fn at_most(a: u32, b: u32) -> bool {
    !crate::order::is_nan(a) && !crate::order::is_nan(b) && crate::order::numeric_key(a)
        <= crate::order::numeric_key(b)
}

fn is_at_most(a: u32, b: u32) -> (result: bool)
    ensures
        result == at_most(a, b),
{
    !float_is_nan(a) && !float_is_nan(b) && float_key(a) <= float_key(b)
}

/// The approximate distances of all centroids.
pub open spec fn approximate(approximations: Seq<u32>) -> Seq<u32> {
    approximations.map_values(|a: u32| clamped(a))
}

/// The approximate distance of the last of the `nprobe` nearest centroids.
pub open spec fn kth(approximations: Seq<u32>, nprobe: nat) -> u32 {
    crate::nearest::nearest(approximate(approximations), nprobe).last().0
}

/// A band around a distance.
pub open spec fn is_band(distance: u32, band: (u32, u32)) -> bool {
    at_most(band.0, distance) && at_most(distance, band.1)
}

/// Centroids certainly among the nearest: below the band.
pub open spec fn is_certain(approximations: Seq<u32>, band: (u32, u32)) -> spec_fn(int) -> bool {
    |c: int| crate::order::less(clamped(approximations[c]), band.0)
}

/// Centroids that exact distances have to decide: inside the band.
pub open spec fn is_open(approximations: Seq<u32>, band: (u32, u32)) -> spec_fn(int) -> bool {
    |c: int|
        !crate::order::less(clamped(approximations[c]), band.0) && at_most(
            clamped(approximations[c]),
            band.1,
        )
}

/// The candidates of the centroids that are picked.
pub open spec fn picked_candidates(
    distances: Seq<u32>,
    pick: spec_fn(int) -> bool,
) -> Seq<Candidate> {
    crate::nearest::candidates_of(distances, crate::matching::picked(pick, distances.len()))
}

/// The centroids taken: those below the band, and of those inside it as many
/// as are still wanted, by exact distance.
pub open spec fn banded(
    approximations: Seq<u32>,
    distances: Seq<u32>,
    band: (u32, u32),
    nprobe: nat,
) -> Seq<Candidate> {
    let certain = picked_candidates(distances, is_certain(approximations, band));
    let open = picked_candidates(distances, is_open(approximations, band));
    let chosen = crate::nearest::first_of(open, (nprobe - certain.len()) as nat);
    crate::nearest::first_of(certain + chosen, nprobe)
}

/// The answer for one row: from the band around the last of the approximately
/// nearest, or from all exact distances where an approximation is not finite
/// or all centroids are wanted.
pub open spec fn certified(
    approximations: Seq<u32>,
    distances: Seq<u32>,
    band: spec_fn(u32) -> (u32, u32),
    nprobe: nat,
) -> Seq<Candidate> {
    if !crate::pq::all_finite(approximations) || nprobe >= approximations.len() {
        crate::nearest::nearest(distances, nprobe)
    } else {
        banded(approximations, distances, band(kth(approximations, nprobe)), nprobe)
    }
}

/// A band is wide enough: centroids on opposite sides of it, or of its middle
/// and one of its edges, are in the same order by exact distance.
pub open spec fn separates(
    approximations: Seq<u32>,
    distances: Seq<u32>,
    middle: u32,
    band: (u32, u32),
) -> bool {
    &&& is_band(middle, band)
    &&& forall|i: int, c: int|
        #![trigger distances[i], distances[c]]
        0 <= i < distances.len() && 0 <= c < distances.len() && at_most(
            clamped(approximations[i]),
            middle,
        ) && crate::order::less(band.1, clamped(approximations[c]))
            ==> crate::nearest::candidate_before(
            (distances[i], i as usize),
            (distances[c], c as usize),
        )
    &&& forall|i: int, c: int|
        #![trigger distances[i], distances[c]]
        0 <= i < distances.len() && 0 <= c < distances.len() && crate::order::less(
            clamped(approximations[i]),
            band.0,
        ) && at_most(middle, clamped(approximations[c])) ==> crate::nearest::candidate_before(
            (distances[i], i as usize),
            (distances[c], c as usize),
        )
}

proof fn lemma_clamped(approximation: u32)
    requires
        crate::order::magnitude(approximation) < 0x7F80_0000,
    ensures
        clamped(approximation) < 0x7F80_0000,
        !crate::order::is_nan(clamped(approximation)),
        crate::order::total_key(clamped(approximation)) == clamped(approximation),
        crate::order::numeric_key(clamped(approximation)) == clamped(approximation),
{
}

/// The candidates picked are distinct and are those of the picked centroids.
proof fn lemma_picked_candidates(distances: Seq<u32>, pick: spec_fn(int) -> bool)
    requires
        distances.len() <= usize::MAX,
    ensures
        picked_candidates(distances, pick).no_duplicates(),
        forall|c: int|
            0 <= c < distances.len() && #[trigger] pick(c) ==> picked_candidates(
                distances,
                pick,
            ).contains((distances[c], c as usize)),
        forall|j: int|
            0 <= j < picked_candidates(distances, pick).len() ==> {
                let x = #[trigger] picked_candidates(distances, pick)[j];
                &&& x.1 < distances.len()
                &&& x.0 == distances[x.1 as int]
                &&& pick(x.1 as int)
            },
{
    let rows = crate::matching::picked(pick, distances.len());
    let all = picked_candidates(distances, pick);
    crate::matching::lemma_picked(pick, distances.len());
    assert forall|c: int| 0 <= c < distances.len() && #[trigger] pick(c) implies all.contains(
        (distances[c], c as usize),
    ) by {
        assert(rows.contains(c as usize));
        let j = choose|j: int| 0 <= j < rows.len() && rows[j] == c as usize;
        assert(all[j] == (distances[c], c as usize));
    }
    assert forall|j: int| 0 <= j < all.len() implies ({
        let x = #[trigger] all[j];
        &&& x.1 < distances.len()
        &&& x.0 == distances[x.1 as int]
        &&& pick(x.1 as int)
    }) by {
        assert(rows.contains(rows[j]));
    }
}

/// The approximately nearest are no farther than the last of them, and
/// include everything nearer than it.
pub proof fn lemma_kth(approximations: Seq<u32>, nprobe: nat)
    requires
        approximations.len() <= usize::MAX,
        crate::pq::all_finite(approximations),
        0 < nprobe < approximations.len(),
    ensures
        ({
            let top = crate::nearest::nearest(approximate(approximations), nprobe);
            let last = kth(approximations, nprobe);
            &&& top.len() == nprobe
            &&& top.no_duplicates()
            &&& last < 0x7F80_0000
            &&& forall|j: int|
                0 <= j < top.len() ==> {
                    let x = #[trigger] top[j];
                    &&& x.1 < approximations.len()
                    &&& x.0 == clamped(approximations[x.1 as int])
                    &&& at_most(x.0, last)
                }
            &&& forall|c: int|
                0 <= c < approximations.len() && crate::order::less(
                    clamped(#[trigger] approximations[c]),
                    last,
                ) ==> top.contains((clamped(approximations[c]), c as usize))
        }),
{
    let distances = approximate(approximations);
    let all = crate::nearest::all_candidates(distances);
    let top = crate::nearest::nearest(distances, nprobe);
    let last = kth(approximations, nprobe);
    crate::nearest::law_nearest_selects(distances, nprobe);
    assert(top.last() == top[nprobe - 1]);
    assert forall|j: int| 0 <= j < top.len() implies ({
        let x = #[trigger] top[j];
        &&& x.1 < approximations.len()
        &&& x.0 == clamped(approximations[x.1 as int])
        &&& x.0 < 0x7F80_0000
    }) by {
        assert(all.to_set().contains(top[j]));
        let i = choose|i: int| 0 <= i < all.len() && all[i] == top[j];
        lemma_clamped(approximations[i]);
    }
    assert forall|j: int| 0 <= j < top.len() implies at_most((#[trigger] top[j]).0, last) by {
        if j < nprobe - 1 {
            assert(crate::nearest::candidate_before(top[j], top[nprobe - 1]));
        }
    }
    crate::nearest::lemma_ascending_is_distinct(top);
    assert forall|c: int|
        0 <= c < approximations.len() && crate::order::less(
            clamped(#[trigger] approximations[c]),
            last,
        ) implies top.contains((clamped(approximations[c]), c as usize)) by {
        let x = (clamped(approximations[c]), c as usize);
        lemma_clamped(approximations[c]);
        assert(all[c] == x);
        assert(all.to_set().contains(x));
        if !top.contains(x) {
            assert(crate::nearest::candidate_before(top[nprobe - 1], x));
        }
    }
}

/// Distinct candidates of a function of the index, seen as others of it.
proof fn lemma_swapped(items: Seq<Candidate>, from: Seq<u32>, to: Seq<u32>) -> (swapped: Seq<
    Candidate,
>)
    requires
        items.no_duplicates(),
        forall|j: int|
            0 <= j < items.len() ==> (#[trigger] items[j]).1 < from.len() && items[j].0
                == from[items[j].1 as int],
    ensures
        swapped.no_duplicates(),
        swapped.len() == items.len(),
        forall|j: int|
            0 <= j < items.len() ==> #[trigger] swapped[j] == (
                to[items[j].1 as int],
                items[j].1,
            ),
{
    let swapped = Seq::new(items.len(), |j: int| (to[items[j].1 as int], items[j].1));
    assert forall|i: int, j: int| 0 <= i < swapped.len() && 0 <= j < swapped.len() && i
        != j implies swapped[i] != swapped[j] by {
        assert(items[i] != items[j]);
    }
    swapped
}

/// Fewer centroids are certain than are wanted.
proof fn lemma_certain_fits(
    approximations: Seq<u32>,
    distances: Seq<u32>,
    band: (u32, u32),
    nprobe: nat,
)
    requires
        approximations.len() == distances.len() <= usize::MAX,
        crate::pq::all_finite(approximations),
        0 < nprobe < approximations.len(),
        is_band(kth(approximations, nprobe), band),
    ensures
        picked_candidates(distances, is_certain(approximations, band)).len() <= nprobe,
{
    let pick = is_certain(approximations, band);
    let certain = picked_candidates(distances, pick);
    let top = crate::nearest::nearest(approximate(approximations), nprobe);
    lemma_kth(approximations, nprobe);
    lemma_picked_candidates(distances, pick);
    let shown = lemma_swapped(certain, distances, approximate(approximations));
    assert forall|j: int| 0 <= j < shown.len() implies top.contains(#[trigger] shown[j]) by {
        let c = certain[j].1 as int;
        assert(pick(c));
        lemma_clamped(approximations[c]);
        assert(crate::order::less(clamped(approximations[c]), kth(approximations, nprobe)));
        assert(shown[j] == (clamped(approximations[c]), c as usize));
    }
    crate::nearest::lemma_pigeonhole(shown, top);
}

/// The certain centroids are among the nearest, and the nearest are certain or
/// inside the band.
proof fn lemma_band_holds_the_nearest(
    approximations: Seq<u32>,
    distances: Seq<u32>,
    band: (u32, u32),
    nprobe: nat,
)
    requires
        approximations.len() == distances.len() <= usize::MAX,
        crate::pq::all_finite(approximations),
        0 < nprobe < approximations.len(),
        separates(approximations, distances, kth(approximations, nprobe), band),
    ensures
        ({
            let best = crate::nearest::nearest(distances, nprobe);
            let certain = picked_candidates(distances, is_certain(approximations, band));
            let open = picked_candidates(distances, is_open(approximations, band));
            &&& forall|j: int| 0 <= j < certain.len() ==> best.contains(#[trigger] certain[j])
            &&& forall|j: int|
                0 <= j < best.len() ==> certain.contains(#[trigger] best[j]) || open.contains(
                    best[j],
                )
        }),
{
    let best = crate::nearest::nearest(distances, nprobe);
    let all = crate::nearest::all_candidates(distances);
    let certain = picked_candidates(distances, is_certain(approximations, band));
    let open = picked_candidates(distances, is_open(approximations, band));
    let middle = kth(approximations, nprobe);
    let near = approximate(approximations);
    let top = crate::nearest::nearest(near, nprobe);
    lemma_kth(approximations, nprobe);
    lemma_picked_candidates(distances, is_certain(approximations, band));
    lemma_picked_candidates(distances, is_open(approximations, band));
    crate::nearest::law_nearest_selects(distances, nprobe);
    assert forall|j: int| 0 <= j < best.len() implies (#[trigger] best[j]).1 < distances.len()
        && best[j].0 == distances[best[j].1 as int] by {
        assert(all.to_set().contains(best[j]));
        let i = choose|i: int| 0 <= i < all.len() && all[i] == best[j];
    }
    crate::nearest::lemma_ascending_is_distinct(best);
    assert forall|j: int| 0 <= j < certain.len() implies best.contains(#[trigger] certain[j]) by {
        let x = certain[j];
        let i = x.1 as int;
        assert(is_certain(approximations, band)(i));
        lemma_clamped(approximations[i]);
        assert(all[i] == x);
        assert(all.to_set().contains(x));
        if !best.contains(x) {
            // Everything nearest by exact distance would then be nearer than
            // the middle of the band, but one of the top is not.
            let shown = lemma_swapped(best, distances, near);
            assert forall|p: int| 0 <= p < shown.len() implies top.contains(#[trigger] shown[p])
                && crate::order::less(shown[p].0, middle) by {
                let c = best[p].1 as int;
                lemma_clamped(approximations[c]);
                assert(crate::nearest::candidate_before(best[p], x));
                if at_most(middle, clamped(approximations[c])) {
                    assert(crate::nearest::candidate_before(
                        (distances[i], i as usize),
                        (distances[c], c as usize),
                    ));
                }
                assert(shown[p] == (clamped(approximations[c]), c as usize));
            }
            crate::nearest::lemma_pigeonhole(shown, top);
            assert(shown.contains(top[nprobe - 1]));
            assert(top[nprobe - 1] == top.last());
            let p = choose|p: int| 0 <= p < shown.len() && shown[p] == top[nprobe - 1];
            assert(crate::order::less(shown[p].0, middle));
        }
    }
    assert forall|j: int| 0 <= j < best.len() implies certain.contains(#[trigger] best[j])
        || open.contains(best[j]) by {
        let c = best[j].1 as int;
        lemma_clamped(approximations[c]);
        if is_certain(approximations, band)(c) {
        } else if is_open(approximations, band)(c) {
        } else {
            let shown = lemma_swapped(top, near, distances);
            assert forall|p: int| 0 <= p < shown.len() implies all.to_set().contains(
                #[trigger] shown[p],
            ) && crate::nearest::candidate_before(shown[p], best[j]) by {
                let i = top[p].1 as int;
                assert(at_most(clamped(approximations[i]), middle));
                assert(shown[p] == (distances[i], i as usize));
                assert(all[i] == shown[p]);
            }
            crate::nearest::lemma_full_selection(
                all.to_set(),
                nprobe,
                best,
                shown,
                best[j],
            );
            assert(crate::nearest::candidate_before(best[j], best[j]));
        }
    }
}

/// Where the band is wide enough, the answer from approximations is the same
/// as from all exact distances.
#[verifier::spinoff_prover]
#[verifier::rlimit(30)]
pub proof fn law_certified_answer_is_exact(
    approximations: Seq<u32>,
    distances: Seq<u32>,
    band: spec_fn(u32) -> (u32, u32),
    nprobe: nat,
)
    requires
        approximations.len() == distances.len() <= usize::MAX,
        0 < nprobe,
        separates(
            approximations,
            distances,
            kth(approximations, nprobe),
            band(kth(approximations, nprobe)),
        ),
    ensures
        certified(approximations, distances, band, nprobe) == crate::nearest::nearest(
            distances,
            nprobe,
        ),
{
    if crate::pq::all_finite(approximations) && nprobe < approximations.len() {
        let edges = band(kth(approximations, nprobe));
        let certain = picked_candidates(distances, is_certain(approximations, edges));
        let open = picked_candidates(distances, is_open(approximations, edges));
        lemma_picked_candidates(distances, is_certain(approximations, edges));
        lemma_picked_candidates(distances, is_open(approximations, edges));
        lemma_certain_fits(approximations, distances, edges, nprobe);
        lemma_band_holds_the_nearest(approximations, distances, edges, nprobe);
        assert forall|i: int, j: int| 0 <= i < certain.len() && 0 <= j < open.len() implies
            #[trigger] certain[i] != #[trigger] open[j] by {
            assert(is_certain(approximations, edges)(certain[i].1 as int));
            assert(is_open(approximations, edges)(open[j].1 as int));
        }
        assert forall|j: int| 0 <= j < open.len() implies crate::nearest::all_candidates(
            distances,
        ).contains(#[trigger] open[j]) by {
            let c = open[j].1 as int;
            assert(crate::nearest::all_candidates(distances)[c] == open[j]);
        }
        lemma_parts_make_the_whole(distances, nprobe, certain, open);
    }
}

/// The certain candidates and the first of the open ones are the nearest.
proof fn lemma_parts_make_the_whole(
    distances: Seq<u32>,
    nprobe: nat,
    certain: Seq<Candidate>,
    open: Seq<Candidate>,
)
    requires
        nprobe < distances.len() <= usize::MAX,
        certain.len() <= nprobe,
        certain.no_duplicates(),
        open.no_duplicates(),
        forall|i: int, j: int|
            0 <= i < certain.len() && 0 <= j < open.len() ==> #[trigger] certain[i]
                != #[trigger] open[j],
        forall|j: int|
            0 <= j < open.len() ==> crate::nearest::all_candidates(distances).contains(
                #[trigger] open[j],
            ),
        forall|j: int|
            0 <= j < certain.len() ==> crate::nearest::nearest(distances, nprobe).contains(
                #[trigger] certain[j],
            ),
        forall|j: int|
            0 <= j < crate::nearest::nearest(distances, nprobe).len() ==> certain.contains(
                #[trigger] crate::nearest::nearest(distances, nprobe)[j],
            ) || open.contains(crate::nearest::nearest(distances, nprobe)[j]),
    ensures
        ({
            let chosen = crate::nearest::first_of(open, (nprobe - certain.len()) as nat);
            crate::nearest::first_of(certain + chosen, nprobe) == crate::nearest::nearest(
                distances,
                nprobe,
            )
        }),
{
    let all = crate::nearest::all_candidates(distances).to_set();
    let best = crate::nearest::nearest(distances, nprobe);
    let slots = (nprobe - certain.len()) as nat;
    let chosen = crate::nearest::first_of(open, slots);
    let whole = certain + chosen;
    let items = crate::nearest::first_of(whole, nprobe);
    crate::nearest::law_nearest_selects(distances, nprobe);
    crate::nearest::law_first_of_selects(open, slots);
    crate::nearest::lemma_ascending_is_distinct(best);
    crate::nearest::lemma_ascending_is_distinct(chosen);
    assert forall|j: int| 0 <= j < chosen.len() implies open.contains(#[trigger] chosen[j]) by {
        assert(open.to_set().contains(chosen[j]));
    }
    assert(whole.no_duplicates()) by {
        assert forall|i: int, j: int| 0 <= i < whole.len() && 0 <= j < whole.len() && i != j implies
            whole[i] != whole[j] by {
            if i < certain.len() && j >= certain.len() {
                assert(open.contains(chosen[j - certain.len()]));
            } else if j < certain.len() && i >= certain.len() {
                assert(open.contains(chosen[i - certain.len()]));
            } else if i < certain.len() {
                assert(certain[i] != certain[j]);
            } else {
                assert(chosen[i - certain.len()] != chosen[j - certain.len()]);
            }
        }
    }
    assert forall|j: int| 0 <= j < best.len() implies whole.contains(#[trigger] best[j]) by {
        if certain.contains(best[j]) {
            let i = choose|i: int| 0 <= i < certain.len() && certain[i] == best[j];
            assert(whole[i] == best[j]);
        } else {
            assert(open.contains(best[j]));
            assert(open.to_set().contains(best[j]));
            if chosen.contains(best[j]) {
                let i = choose|i: int| 0 <= i < chosen.len() && chosen[i] == best[j];
                assert(whole[certain.len() + i] == best[j]);
            } else {
                // All chosen ones would come before it, hence be nearest too,
                // and there would be more nearest than wanted.
                let more = whole.push(best[j]);
                assert(more.no_duplicates()) by {
                    assert(!whole.contains(best[j])) by {
                        if whole.contains(best[j]) {
                            let i = choose|i: int| 0 <= i < whole.len() && whole[i] == best[j];
                            if i < certain.len() {
                                assert(certain.contains(certain[i]));
                            } else {
                                assert(chosen.contains(chosen[i - certain.len()]));
                            }
                        }
                    }
                }
                assert forall|i: int| 0 <= i < more.len() implies best.contains(
                    #[trigger] more[i],
                ) by {
                    if i < certain.len() {
                        assert(more[i] == certain[i]);
                    } else if i < whole.len() {
                        let x = chosen[i - certain.len()];
                        assert(more[i] == x);
                        assert(crate::nearest::candidate_before(x, best[j]));
                        assert(open.contains(x));
                        let q = choose|q: int| 0 <= q < open.len() && open[q] == x;
                        assert(crate::nearest::all_candidates(distances).contains(open[q]));
                        assert(all.contains(x));
                        if !best.contains(x) {
                            assert(crate::nearest::candidate_before(best[j], x));
                        }
                    } else {
                        assert(more[i] == best[j]);
                        assert(best.contains(best[j]));
                    }
                }
                crate::nearest::lemma_pigeonhole(more, best);
            }
        }
    }
    crate::nearest::lemma_pigeonhole(best, whole);
    crate::nearest::law_first_of_selects(whole, nprobe);
    assert forall|j: int| 0 <= j < whole.len() implies all.contains(#[trigger] whole[j]) by {
        assert(best.contains(whole[j]));
        let q = choose|q: int| 0 <= q < best.len() && best[q] == whole[j];
        assert(all.contains(best[q]));
    }
    let offered = whole.to_set();
    assert forall|x: Candidate| #[trigger] all.contains(x) && !offered.contains(x) implies
        items.len() == nprobe && crate::nearest::all_before(items, x) by {
        assert(!best.contains(x)) by {
            if best.contains(x) {
                let q = choose|q: int| 0 <= q < best.len() && best[q] == x;
                assert(whole.contains(best[q]));
            }
        }
        assert(crate::nearest::all_before(best, x));
        assert forall|i: int| 0 <= i < best.len() implies offered.contains(#[trigger] best[i]) by {
            assert(whole.contains(best[i]));
        }
        crate::nearest::lemma_full_selection(offered, nprobe, items, best, x);
    }
    assert(offered.subset_of(all)) by {
        assert forall|x: Candidate| offered.contains(x) implies all.contains(x) by {
            let i = choose|i: int| 0 <= i < whole.len() && whole[i] == x;
            assert(all.contains(whole[i]));
        }
    }
    crate::nearest::lemma_selection_grows(offered, all, nprobe, items);
    crate::nearest::law_selection_is_unique(all, nprobe, items, best);
}

/// A function of row and distance that always gives the same band around it.
pub open spec fn gives_bands<B: Fn(usize, u32) -> (u32, u32)>(band_of: B) -> bool {
    &&& forall|row: usize, middle: u32, a: (u32, u32), b: (u32, u32)|
        #![trigger call_ensures(band_of, (row, middle), a), call_ensures(band_of, (row, middle), b)]
        call_ensures(band_of, (row, middle), a) && call_ensures(band_of, (row, middle), b) ==> a
            == b
    &&& forall|row: usize, middle: u32, a: (u32, u32)| #[trigger]
        call_ensures(band_of, (row, middle), a) && middle < INFINITE_DISTANCE ==> is_band(middle, a)
}

/// The function answers for a row.
pub open spec fn bands_row<B: Fn(usize, u32) -> (u32, u32)>(band_of: B, row: usize) -> bool {
    &&& gives_bands(band_of)
    &&& forall|middle: u32| #[trigger] call_requires(band_of, (row, middle))
}

/// The bands that the function gives for a row.
pub open spec fn bands_of<B: Fn(usize, u32) -> (u32, u32)>(band_of: B, row: usize) -> spec_fn(
    u32,
) -> (u32, u32) {
    |middle: u32| choose|band: (u32, u32)| call_ensures(band_of, (row, middle), band)
}

/// The band that a function gives for a row and a distance.
pub fn band<B: Fn(usize, u32) -> (u32, u32)>(row: usize, middle: u32, band_of: &B) -> (band: (u32, u32))
    requires
        bands_row(*band_of, row),
    ensures
        band == bands_of(*band_of, row)(middle),
        middle < INFINITE_DISTANCE ==> is_band(middle, band),
{
    let band: (u32, u32) = band_of(row, middle);
    assert(call_ensures(*band_of, (row, middle), band));
    band
}

/// Approximate distance and index of every centroid.
fn approximate_candidates(approximations: &[u32]) -> (candidates: Vec<Candidate>)
    ensures
        candidates@ == crate::nearest::all_candidates(approximate(approximations@)),
{
    let k: usize = approximations.len();
    let ghost all = crate::nearest::all_candidates(approximate(approximations@));
    let mut candidates: Vec<Candidate> = Vec::new();
    let mut c: usize = 0;
    while c < k
        invariant
            c <= k,
            k == approximations@.len(),
            all == crate::nearest::all_candidates(approximate(approximations@)),
            candidates@ == all.take(c as int),
        decreases k - c,
    {
        let distance: u32 = clamp(approximations[c]);
        candidates.push((distance, c));
        assert(all.take(c + 1) =~= all.take(c as int).push((distance, c)));
        c = c + 1;
    }
    assert(all.take(k as int) =~= all);
    candidates
}

/// Measures the centroids below the band, or those inside it.
fn measure_side<D: Fn(usize, usize) -> u32>(
    row: usize,
    approximations: &[u32],
    edges: (u32, u32),
    certain: bool,
    distance_of: &D,
) -> (candidates: Vec<Candidate>)
    requires
        crate::nearest::measures_row(*distance_of, row, approximations@.len()),
    ensures
        candidates@ == picked_candidates(
            crate::nearest::distances_of(*distance_of, row, approximations@.len()),
            side(approximations@, edges, certain),
        ),
{
    let k: usize = approximations.len();
    let ghost distances = crate::nearest::distances_of(*distance_of, row, k as nat);
    let ghost pick = side(approximations@, edges, certain);
    let mut candidates: Vec<Candidate> = Vec::new();
    let mut c: usize = 0;
    while c < k
        invariant
            c <= k,
            k == approximations@.len(),
            crate::nearest::measures_row(*distance_of, row, k as nat),
            distances == crate::nearest::distances_of(*distance_of, row, k as nat),
            pick == side(approximations@, edges, certain),
            candidates@ == crate::nearest::candidates_of(
                distances,
                crate::matching::picked(pick, c as nat),
            ),
        decreases k - c,
    {
        let near: u32 = clamp(approximations[c]);
        let below: bool = float_less(near, edges.0);
        let taken: bool = if certain {
            below
        } else {
            !below && is_at_most(near, edges.1)
        };
        assert(taken == pick(c as int));
        let ghost before = crate::matching::picked(pick, c as nat);
        if taken {
            let distance: u32 = measure(row, c, distance_of);
            candidates.push((distance, c));
            assert(candidates@ =~= crate::nearest::candidates_of(distances, before.push(c)));
        }
        c = c + 1;
    }
    candidates
}

/// The centroids below the band, or those inside it.
pub open spec fn side(approximations: Seq<u32>, edges: (u32, u32), certain: bool) -> spec_fn(
    int,
) -> bool {
    if certain {
        is_certain(approximations, edges)
    } else {
        is_open(approximations, edges)
    }
}

/// The nearest centroids of one row from its approximate distances. Exact
/// distances are computed only for those that may be among the nearest.
pub fn certified_topk_row<B: Fn(usize, u32) -> (u32, u32), D: Fn(usize, usize) -> u32>(
    row: usize,
    approximations: &[u32],
    nprobe: usize,
    workers: usize,
    band_of: &B,
    distance_of: &D,
) -> (items: Vec<Candidate>)
    requires
        0 < nprobe,
        bands_row(*band_of, row),
        crate::nearest::measures_row(*distance_of, row, approximations@.len()),
    ensures
        items@ == certified(
            approximations@,
            crate::nearest::distances_of(*distance_of, row, approximations@.len()),
            bands_of(*band_of, row),
            nprobe as nat,
        ),
{
    let k: usize = approximations.len();
    let ghost distances = crate::nearest::distances_of(*distance_of, row, k as nat);
    if !are_finite(approximations) || nprobe >= k {
        return find_topk_with_workers(row, k, nprobe, workers, distance_of);
    }
    let near = approximate_candidates(approximations);
    proof {
        crate::nearest::lemma_all_candidates(approximate(approximations@));
        lemma_kth(approximations@, nprobe as nat);
    }
    let top = select_topk_prefix(&near, nprobe);
    assert(top@.last() == top@[nprobe - 1]);
    let middle: u32 = top[nprobe - 1].0;
    let edges: (u32, u32) = band(row, middle, band_of);
    let certain = measure_side(row, approximations, edges, true, distance_of);
    let open = measure_side(row, approximations, edges, false, distance_of);
    proof {
        lemma_picked_candidates(distances, is_certain(approximations@, edges));
        lemma_picked_candidates(distances, is_open(approximations@, edges));
        lemma_certain_fits(approximations@, distances, edges, nprobe as nat);
    }
    let mut chosen = select_topk_prefix(&open, nprobe - certain.len());
    proof {
        crate::nearest::law_first_of_selects(open@, (nprobe - certain@.len()) as nat);
        let whole = certain@ + chosen@;
        assert(whole.no_duplicates()) by {
            crate::nearest::lemma_ascending_is_distinct(chosen@);
            assert forall|i: int, j: int| 0 <= i < certain@.len() && 0 <= j < chosen@.len() implies
                certain@[i] != chosen@[j] by {
                assert(open@.to_set().contains(chosen@[j]));
                let q = choose|q: int| 0 <= q < open@.len() && open@[q] == chosen@[j];
                assert(is_certain(approximations@, edges)(certain@[i].1 as int));
                assert(is_open(approximations@, edges)(open@[q].1 as int));
            }
        }
    }
    let mut taken = certain;
    taken.append(&mut chosen);
    select_topk_prefix(&taken, nprobe)
}

} // verus!
